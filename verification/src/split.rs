//! Splitting a full child in two, the median key moving up to the parent.
use crate::key::{group_key_order, le, lemma_lt_asymmetric, lt, BTreeKey};
use crate::node::{key_views, sorted, BTreeNode, InternalNode, LeafNode};
use crate::parts::{
    entries_ok, lemma_entries_split, lemma_node_from_parts, lemma_node_parts, lemma_parts_frame,
    lemma_parts_window, parts_lookup, parts_wf,
};
use crate::shape::{
    above, below, chain_next, child_hi, child_lo, first_leaf, in_children, in_range, in_shape,
    internal_ok, leaf_ok, lemma_wf_kind, lemma_route_single, hgt, lemma_hgt_splice, lemma_hgt_window, lemma_child_wf, lemma_in_child, lemma_in_shape_bounded,
    lemma_replace_children, lemma_route, replace_children_ok, lookup, node_seps, route, seq_lookup, shape_id, splice,
    strictly_in, wf_subtree, Shape,
};
use vstd::prelude::*;

verus! {

/// Pages `p2` differ from `p1` only at pages of the subtree `s1` and at new
/// pages; the subtree `s2` that replaces `s1` has the same root and leftmost
/// leaf, and uses only pages of `s1` and new pages.
pub open spec fn changed_only<K, V>(
    p1: Seq<BTreeNode<K, V>>,
    p2: Seq<BTreeNode<K, V>>,
    s1: Shape,
    s2: Shape,
) -> bool {
    &&& p1.len() <= p2.len()
    &&& forall|p: u64| p < p1.len() && !in_shape(s1, p) ==> #[trigger] p2[p as int] == p1[p as int]
    &&& forall|p: u64| #[trigger] in_shape(s2, p) ==> in_shape(s1, p) || p >= p1.len()
    &&& shape_id(s2) == shape_id(s1)
    &&& first_leaf(s2) == first_leaf(s1)
}

/// Entries cut at position `x`: both halves are well formed, with the first
/// key of the back half as the bound between them.
#[verifier::rlimit(50)]
pub proof fn lemma_split_entries<K: BTreeKey, V>(ks: Seq<K::V>, vs: Seq<V>, lo: Option<K::V>, hi: Option<K::V>, x: int)
    requires
        entries_ok::<K, V>(ks, vs, lo, hi),
        0 < x < ks.len(),
    ensures
        entries_ok::<K, V>(ks.subrange(0, x), vs.subrange(0, x), lo, Some(ks[x])),
        entries_ok::<K, V>(ks.subrange(x, ks.len() as int), vs.subrange(x, vs.len() as int), Some(ks[x]), hi),
        above::<K>(lo, ks[x]),
        below::<K>(hi, ks[x]),
        forall|k: K::V|
            lt::<K>(k, ks[x]) ==> #[trigger] seq_lookup::<K, V>(ks, vs, k) == seq_lookup::<K, V>(
                ks.subrange(0, x),
                vs.subrange(0, x),
                k,
            ),
        forall|k: K::V|
            !lt::<K>(k, ks[x]) ==> #[trigger] seq_lookup::<K, V>(ks, vs, k) == seq_lookup::<K, V>(
                ks.subrange(x, ks.len() as int),
                vs.subrange(x, vs.len() as int),
                k,
            ),
{
    broadcast use group_key_order;

    let n = ks.len() as int;
    let sep = ks[x];
    lemma_entries_split::<K, V>(ks, vs, x);
    assert(in_range::<K>(lo, hi, ks[0]));
    assert(lt::<K>(ks[0], sep));
    let k1 = ks.subrange(0, x);
    assert forall|i: int| 0 <= i < k1.len() implies in_range::<K>(lo, Some(sep), #[trigger] k1[i]) by {
        assert(k1[i] == ks[i]);
        assert(in_range::<K>(lo, hi, ks[i]));
        assert(lt::<K>(ks[i], ks[x]));
    }
    let k2 = ks.subrange(x, n);
    assert forall|i: int| 0 <= i < k2.len() implies in_range::<K>(Some(sep), hi, #[trigger] k2[i]) by {
        assert(k2[i] == ks[x + i]);
        assert(in_range::<K>(lo, hi, ks[x + i]));
        if i > 0 {
            assert(lt::<K>(ks[x], ks[x + i]));
        }
    }
}

/// A leaf is well formed exactly when its entries are.
#[verifier::rlimit(50)]
pub proof fn lemma_leaf_entries<K: BTreeKey, V>(l: LeafNode<K, V>, lo: Option<K::V>, hi: Option<K::V>)
    ensures
        leaf_ok::<K, V>(l, lo, hi) == entries_ok::<K, V>(key_views(l.keys@), l.values@, lo, hi),
{
    reveal(leaf_ok);
}

/// The two halves of a leaf cut at position `x`, the front staying in page
/// `cid` and linking to the back in page `rid`.
#[verifier::rlimit(30)]
proof fn lemma_split_leaf_halves<K: BTreeKey, V>(
    p0: Seq<BTreeNode<K, V>>,
    pn: Seq<BTreeNode<K, V>>,
    cid: u64,
    rid: u64,
    lo: Option<K::V>,
    hi: Option<K::V>,
    nxt: u64,
    x: int,
)
    requires
        wf_subtree::<K, V>(p0, Shape::Leaf(cid), lo, hi, nxt),
        ({
            let l = p0[cid as int]->Leaf_0;
            let ks = key_views(l.keys@);
            let n = ks.len() as int;
            &&& 0 < x < n
            &&& cid < pn.len()
            &&& rid < pn.len()
            &&& pn[cid as int] is Leaf
            &&& key_views(pn[cid as int]->Leaf_0.keys@) == ks.subrange(0, x)
            &&& pn[cid as int]->Leaf_0.values@ == l.values@.subrange(0, x)
            &&& pn[cid as int]->Leaf_0.next_leaf == rid
            &&& pn[rid as int] is Leaf
            &&& key_views(pn[rid as int]->Leaf_0.keys@) == ks.subrange(x, n)
            &&& pn[rid as int]->Leaf_0.values@ == l.values@.subrange(x, n)
            &&& pn[rid as int]->Leaf_0.next_leaf == l.next_leaf
        }),
    ensures
        ({
            let sep = key_views(p0[cid as int]->Leaf_0.keys@)[x];
            &&& wf_subtree::<K, V>(pn, Shape::Leaf(cid), lo, Some(sep), rid)
            &&& wf_subtree::<K, V>(pn, Shape::Leaf(rid), Some(sep), hi, nxt)
            &&& above::<K>(lo, sep)
            &&& below::<K>(hi, sep)
            &&& forall|k: K::V| lt::<K>(k, sep) ==> #[trigger] lookup::<K, V>(pn, Shape::Leaf(cid), k) == lookup::<K, V>(p0, Shape::Leaf(cid), k)
            &&& forall|k: K::V| !lt::<K>(k, sep) ==> #[trigger] lookup::<K, V>(pn, Shape::Leaf(rid), k) == lookup::<K, V>(p0, Shape::Leaf(cid), k)
        }),
{
    reveal(wf_subtree);
    let l = p0[cid as int]->Leaf_0;
    let ksc = key_views(l.keys@);
    let vsc = l.values@;
    let sep = ksc[x];
    lemma_leaf_entries::<K, V>(l, lo, hi);
    lemma_split_entries::<K, V>(ksc, vsc, lo, hi, x);
    lemma_leaf_entries::<K, V>(pn[cid as int]->Leaf_0, lo, Some(sep));
    lemma_leaf_entries::<K, V>(pn[rid as int]->Leaf_0, Some(sep), hi);
}

/// Splitting the full leaf child `idx` of the node in page `pid` at position
/// `x`: the front stays in its page, the back goes to the new page `rid`,
/// and the first key of the back is inserted into the parent as separator.
#[verifier::rlimit(80)]
pub proof fn lemma_split_leaf<K: BTreeKey, V>(
    p0: Seq<BTreeNode<K, V>>,
    pn: Seq<BTreeNode<K, V>>,
    pid: u64,
    cs: Seq<Shape>,
    lo: Option<K::V>,
    hi: Option<K::V>,
    nxt: u64,
    idx: int,
    x: int,
    rid: u64,
) -> (s2: Shape)
    requires
        wf_subtree::<K, V>(p0, Shape::Node(pid, cs), lo, hi, nxt),
        0 <= idx < cs.len(),
        p0[shape_id(cs[idx]) as int] is Leaf,
        ({
            let cid = shape_id(cs[idx]);
            let l = p0[cid as int]->Leaf_0;
            let ks = key_views(l.keys@);
            let n = ks.len() as int;
            &&& 0 < x < n
            &&& rid == p0.len()
            &&& pn.len() == p0.len() + 1
            &&& forall|p: u64| p < p0.len() && p != cid && p != pid ==> #[trigger] pn[p as int] == p0[p as int]
            &&& pn[cid as int] is Leaf
            &&& key_views(pn[cid as int]->Leaf_0.keys@) == ks.subrange(0, x)
            &&& pn[cid as int]->Leaf_0.values@ == l.values@.subrange(0, x)
            &&& pn[cid as int]->Leaf_0.next_leaf == rid
            &&& pn[rid as int] is Leaf
            &&& key_views(pn[rid as int]->Leaf_0.keys@) == ks.subrange(x, n)
            &&& pn[rid as int]->Leaf_0.values@ == l.values@.subrange(x, n)
            &&& pn[rid as int]->Leaf_0.next_leaf == l.next_leaf
            &&& pn[pid as int] is Internal
            &&& key_views(pn[pid as int]->Internal_0.keys@) == node_seps(p0, pid).insert(idx, ks[x])
            &&& pn[pid as int]->Internal_0.children@ == p0[pid as int]->Internal_0.children@.insert(idx + 1, rid)
        }),
    ensures
        s2 == Shape::Node(pid, splice(cs, idx, idx + 1, seq![Shape::Leaf(shape_id(cs[idx])), Shape::Leaf(rid)])),
        s2 is Node,
        s2->Node_1.len() == cs.len() + 1,
        forall|i: int| 0 <= i < s2->Node_1.len() ==> hgt(#[trigger] s2->Node_1[i]) < hgt(Shape::Node(pid, cs)),
        wf_subtree::<K, V>(pn, s2, lo, hi, nxt),
        changed_only(p0, pn, Shape::Node(pid, cs), s2),
        forall|k: K::V| #[trigger] lookup::<K, V>(pn, s2, k) == lookup::<K, V>(p0, Shape::Node(pid, cs), k),
{
    let s1 = Shape::Node(pid, cs);
    let ks = node_seps(p0, pid);
    let cid = shape_id(cs[idx]);
    let sep = key_views(p0[cid as int]->Leaf_0.keys@)[x];
    let lo_c = child_lo::<K>(lo, ks, idx);
    let hi_c = child_hi::<K>(hi, ks, idx);
    let nxt_c = chain_next(cs, idx, nxt);
    let mk = seq![sep];
    let mcs = seq![Shape::Leaf(cid), Shape::Leaf(rid)];
    let cs2 = splice(cs, idx, idx + 1, mcs);
    let s2 = Shape::Node(pid, cs2);
    lemma_child_wf::<K, V>(p0, pid, cs, lo, hi, nxt, idx);
    lemma_node_parts::<K, V>(p0, pid, cs, lo, hi, nxt);
    lemma_in_shape_bounded::<K, V>(p0, s1, lo, hi, nxt);
    assert(in_shape(s1, pid));
    lemma_wf_kind::<K, V>(p0, cs[idx], lo_c, hi_c, nxt_c);
    assert(cs[idx] == Shape::Leaf(cid));
    assert(in_shape(cs[idx], cid));
    lemma_in_child(pid, cs, idx, cid);
    lemma_split_leaf_halves::<K, V>(p0, pn, cid, rid, lo_c, hi_c, nxt_c, x);
    assert(replace_children_ok::<K, V>(p0, pn, pid, cs, idx, idx, mk, mcs, lo, hi, nxt)) by {
        reveal(replace_children_ok);
        assert(mcs[0] == Shape::Leaf(cid) && mcs[1] == Shape::Leaf(rid));
        assert(child_lo::<K>(lo_c, mk, 0) == lo_c);
        assert(child_hi::<K>(hi_c, mk, 0) == Some(sep));
        assert(chain_next(mcs, 0, nxt_c) == rid);
        assert(child_lo::<K>(lo_c, mk, 1) == Some(sep));
        assert(child_hi::<K>(hi_c, mk, 1) == hi_c);
        assert(chain_next(mcs, 1, nxt_c) == nxt_c);
        assert(ks.insert(idx, sep) =~= splice(ks, idx, idx, mk));
        assert forall|i: int| 0 <= i < cs2.len() implies pn[pid as int]->Internal_0.children@[i] == shape_id(#[trigger] cs2[i]) by {
            if i < idx {
                assert(cs2[i] == cs[i]);
            } else if i == idx {
                assert(cs2[i] == mcs[0]);
            } else if i == idx + 1 {
                assert(cs2[i] == mcs[1]);
            } else {
                assert(cs2[i] == cs[i - 1]);
            }
        }
        assert forall|j: int, p: u64| 0 <= j < mcs.len() && #[trigger] in_shape(mcs[j], p) implies p >= p0.len() || in_children(cs, idx, idx, p) by {
        }
        assert forall|p: u64| p < p0.len() && p != pid && !in_children(cs, idx, idx, p) implies #[trigger] pn[p as int] == p0[p as int] by {
        }
    }
    lemma_replace_children::<K, V>(p0, pn, pid, cs, idx, idx, mk, mcs, lo, hi, nxt);
    assert forall|p: u64| p < p0.len() && !in_shape(s1, p) implies #[trigger] pn[p as int] == p0[p as int] by {
    }
    lemma_hgt_splice(pid, cs, idx, mcs);
    assert forall|k: K::V| #[trigger] lookup::<K, V>(pn, s2, k) == lookup::<K, V>(p0, s1, k) by {
        if route::<K>(ks, k) == idx {
            lemma_route_single::<K>(sep, k);
            if lt::<K>(k, sep) {
                assert(route::<K>(mk, k) == 0);
                assert(lookup::<K, V>(pn, Shape::Leaf(cid), k) == lookup::<K, V>(p0, Shape::Leaf(cid), k));
            } else {
                assert(route::<K>(mk, k) == 1);
                assert(lookup::<K, V>(pn, Shape::Leaf(rid), k) == lookup::<K, V>(p0, Shape::Leaf(cid), k));
            }
        }
    }
    s2
}


/// The two halves of an internal node cut at its separator `m`, which moves
/// up: the front stays in page `cid`, the back goes to the new page `rid`.
#[verifier::rlimit(40)]
proof fn lemma_split_internal_halves<K: BTreeKey, V>(
    p0: Seq<BTreeNode<K, V>>,
    pn: Seq<BTreeNode<K, V>>,
    cid: u64,
    ccs: Seq<Shape>,
    lo: Option<K::V>,
    hi: Option<K::V>,
    nxt: u64,
    m: int,
    rid: u64,
)
    requires
        wf_subtree::<K, V>(p0, Shape::Node(cid, ccs), lo, hi, nxt),
        ({
            let ks = node_seps(p0, cid);
            let ch = p0[cid as int]->Internal_0.children@;
            let n = ks.len() as int;
            &&& 0 <= m < n
            &&& rid == p0.len()
            &&& p0.len() < pn.len()
            &&& forall|p: u64| p < p0.len() && p != cid && in_shape(Shape::Node(cid, ccs), p) ==> #[trigger] pn[p as int] == p0[p as int]
            &&& pn[cid as int] is Internal
            &&& key_views(pn[cid as int]->Internal_0.keys@) == ks.subrange(0, m)
            &&& pn[cid as int]->Internal_0.children@ == ch.subrange(0, m + 1)
            &&& pn[rid as int] is Internal
            &&& key_views(pn[rid as int]->Internal_0.keys@) == ks.subrange(m + 1, n)
            &&& pn[rid as int]->Internal_0.children@ == ch.subrange(m + 1, n + 1)
        }),
    ensures
        ({
            let ks = node_seps(p0, cid);
            let n = ks.len() as int;
            let med = ks[m];
            let left = Shape::Node(cid, ccs.subrange(0, m + 1));
            let right = Shape::Node(rid, ccs.subrange(m + 1, n + 1));
            &&& above::<K>(lo, med)
            &&& below::<K>(hi, med)
            &&& wf_subtree::<K, V>(pn, left, lo, Some(med), first_leaf(right))
            &&& wf_subtree::<K, V>(pn, right, Some(med), hi, nxt)
            &&& first_leaf(left) == first_leaf(Shape::Node(cid, ccs))
            &&& forall|k: K::V| lt::<K>(k, med) ==> #[trigger] lookup::<K, V>(pn, left, k) == lookup::<K, V>(p0, Shape::Node(cid, ccs), k)
            &&& forall|k: K::V| !lt::<K>(k, med) ==> #[trigger] lookup::<K, V>(pn, right, k) == lookup::<K, V>(p0, Shape::Node(cid, ccs), k)
            &&& forall|p: u64| #[trigger] in_shape(left, p) ==> in_shape(Shape::Node(cid, ccs), p)
            &&& forall|p: u64| #[trigger] in_shape(right, p) ==> p == rid || (in_shape(Shape::Node(cid, ccs), p) && p != cid && p < p0.len())
            &&& forall|p: u64| !(#[trigger] in_shape(left, p) && #[trigger] in_shape(right, p))
        }),
{
    let c = Shape::Node(cid, ccs);
    let ks = node_seps(p0, cid);
    let n = ks.len() as int;
    let med = ks[m];
    let w0 = ccs.subrange(0, m + 1);
    let k0 = ks.subrange(0, m);
    let w1 = ccs.subrange(m + 1, n + 1);
    let k1 = ks.subrange(m + 1, n);
    let left = Shape::Node(cid, w0);
    let right = Shape::Node(rid, w1);
    lemma_node_parts::<K, V>(p0, cid, ccs, lo, hi, nxt);
    lemma_in_shape_bounded::<K, V>(p0, c, lo, hi, nxt);
    lemma_parts_window::<K, V>(p0, ccs, ks, lo, hi, nxt, 0, m + 1);
    lemma_parts_window::<K, V>(p0, ccs, ks, lo, hi, nxt, m + 1, n + 1);
    assert(child_hi::<K>(hi, ks, m) == Some(med));
    assert(child_lo::<K>(lo, ks, m + 1) == Some(med));
    assert(chain_next(ccs, n, nxt) == nxt);
    assert(chain_next(ccs, m, nxt) == first_leaf(ccs[m + 1]));
    assert forall|i: int, p: u64| 0 <= i < w0.len() && #[trigger] in_shape(w0[i], p) && p < p0.len() implies pn[p as int] == p0[p as int] by {
        assert(w0[i] == ccs[i]);
        lemma_in_child(cid, ccs, i, p);
    }
    assert forall|i: int, p: u64| 0 <= i < w1.len() && #[trigger] in_shape(w1[i], p) && p < p0.len() implies pn[p as int] == p0[p as int] by {
        assert(w1[i] == ccs[m + 1 + i]);
        lemma_in_child(cid, ccs, m + 1 + i, p);
    }
    lemma_parts_frame::<K, V>(p0, pn, w0, k0, lo, Some(med), first_leaf(ccs[m + 1]));
    lemma_parts_frame::<K, V>(p0, pn, w1, k1, Some(med), hi, nxt);
    assert(node_seps(pn, cid) == k0);
    assert(node_seps(pn, rid) == k1);
    assert forall|i: int| 0 <= i < w0.len() implies !in_shape(#[trigger] w0[i], cid) by {
        assert(w0[i] == ccs[i]);
    }
    assert forall|i: int| 0 <= i < w0.len() implies pn[cid as int]->Internal_0.children@[i] == shape_id(#[trigger] w0[i]) by {
        assert(w0[i] == ccs[i]);
    }
    assert forall|i: int| 0 <= i < w1.len() implies !in_shape(#[trigger] w1[i], rid) by {
        assert(w1[i] == ccs[m + 1 + i]);
    }
    assert forall|i: int| 0 <= i < w1.len() implies pn[rid as int]->Internal_0.children@[i] == shape_id(#[trigger] w1[i]) by {
        assert(w1[i] == ccs[m + 1 + i]);
    }
    lemma_node_from_parts::<K, V>(pn, cid, w0, lo, Some(med), first_leaf(ccs[m + 1]));
    lemma_node_from_parts::<K, V>(pn, rid, w1, Some(med), hi, nxt);
    assert(w1[0] == ccs[m + 1]);
    assert(w0[0] == ccs[0]);
    assert(strictly_in::<K>(lo, hi, ks[m]));
    // Lookups.
    assert forall|k: K::V| lt::<K>(k, med) implies #[trigger] lookup::<K, V>(pn, left, k) == lookup::<K, V>(p0, c, k) by {
        lemma_route::<K>(ks, k);
        if route::<K>(ks, k) > m {
            crate::key::lemma_lt_asymmetric::<K>(k, med);
        }
    }
    assert forall|k: K::V| !lt::<K>(k, med) implies #[trigger] lookup::<K, V>(pn, right, k) == lookup::<K, V>(p0, c, k) by {
        lemma_route::<K>(ks, k);
    }
    // Pages.
    assert forall|p: u64| #[trigger] in_shape(left, p) implies in_shape(c, p) by {
        if p != cid {
            let i = choose|i: int| #![trigger w0[i]] 0 <= i < w0.len() && in_shape(w0[i], p);
            assert(w0[i] == ccs[i]);
            lemma_in_child(cid, ccs, i, p);
        }
    }
    assert forall|p: u64| #[trigger] in_shape(right, p) implies p == rid || (in_shape(c, p) && p != cid && p < p0.len()) by {
        if p != rid {
            let i = choose|i: int| #![trigger w1[i]] 0 <= i < w1.len() && in_shape(w1[i], p);
            assert(w1[i] == ccs[m + 1 + i]);
            lemma_in_child(cid, ccs, m + 1 + i, p);
        }
    }
    assert forall|p: u64| !(#[trigger] in_shape(left, p) && #[trigger] in_shape(right, p)) by {
        if in_shape(left, p) && in_shape(right, p) {
            if p == rid {
                assert(in_shape(c, p));
            } else if p == cid {
                let j = choose|j: int| #![trigger w1[j]] 0 <= j < w1.len() && in_shape(w1[j], p);
                assert(w1[j] == ccs[m + 1 + j]);
            } else {
                let i = choose|i: int| #![trigger w0[i]] 0 <= i < w0.len() && in_shape(w0[i], p);
                let j = choose|j: int| #![trigger w1[j]] 0 <= j < w1.len() && in_shape(w1[j], p);
                assert(w0[i] == ccs[i]);
                assert(w1[j] == ccs[m + 1 + j]);
                assert(!(in_shape(ccs[i], p) && in_shape(ccs[m + 1 + j], p)));
            }
        }
    }
}

/// Splitting the full internal child `idx` of the node in page `pid` at its
/// separator `m`, which moves up into the parent; the back half goes to the
/// new page `rid`.
#[verifier::rlimit(100)]
pub proof fn lemma_split_internal<K: BTreeKey, V>(
    p0: Seq<BTreeNode<K, V>>,
    pn: Seq<BTreeNode<K, V>>,
    pid: u64,
    cs: Seq<Shape>,
    lo: Option<K::V>,
    hi: Option<K::V>,
    nxt: u64,
    idx: int,
    m: int,
    rid: u64,
) -> (s2: Shape)
    requires
        wf_subtree::<K, V>(p0, Shape::Node(pid, cs), lo, hi, nxt),
        0 <= idx < cs.len(),
        p0[shape_id(cs[idx]) as int] is Internal,
        ({
            let cid = shape_id(cs[idx]);
            let ks = node_seps(p0, cid);
            let ch = p0[cid as int]->Internal_0.children@;
            let n = ks.len() as int;
            &&& 0 <= m < n
            &&& rid == p0.len()
            &&& pn.len() == p0.len() + 1
            &&& forall|p: u64| p < p0.len() && p != cid && p != pid ==> #[trigger] pn[p as int] == p0[p as int]
            &&& pn[cid as int] is Internal
            &&& key_views(pn[cid as int]->Internal_0.keys@) == ks.subrange(0, m)
            &&& pn[cid as int]->Internal_0.children@ == ch.subrange(0, m + 1)
            &&& pn[rid as int] is Internal
            &&& key_views(pn[rid as int]->Internal_0.keys@) == ks.subrange(m + 1, n)
            &&& pn[rid as int]->Internal_0.children@ == ch.subrange(m + 1, n + 1)
            &&& pn[pid as int] is Internal
            &&& key_views(pn[pid as int]->Internal_0.keys@) == node_seps(p0, pid).insert(idx, ks[m])
            &&& pn[pid as int]->Internal_0.children@ == p0[pid as int]->Internal_0.children@.insert(idx + 1, rid)
        }),
    ensures
        s2 == Shape::Node(
            pid,
            splice(
                cs,
                idx,
                idx + 1,
                seq![
                    Shape::Node(shape_id(cs[idx]), cs[idx]->Node_1.subrange(0, m + 1)),
                    Shape::Node(rid, cs[idx]->Node_1.subrange(m + 1, node_seps(p0, shape_id(cs[idx])).len() as int + 1)),
                ],
            ),
        ),
        s2 is Node,
        s2->Node_1.len() == cs.len() + 1,
        forall|i: int| 0 <= i < s2->Node_1.len() ==> hgt(#[trigger] s2->Node_1[i]) < hgt(Shape::Node(pid, cs)),
        wf_subtree::<K, V>(pn, s2, lo, hi, nxt),
        changed_only(p0, pn, Shape::Node(pid, cs), s2),
        forall|k: K::V| #[trigger] lookup::<K, V>(pn, s2, k) == lookup::<K, V>(p0, Shape::Node(pid, cs), k),
{
    let s1 = Shape::Node(pid, cs);
    let ks = node_seps(p0, pid);
    let cid = shape_id(cs[idx]);
    let lo_c = child_lo::<K>(lo, ks, idx);
    let hi_c = child_hi::<K>(hi, ks, idx);
    let nxt_c = chain_next(cs, idx, nxt);
    lemma_child_wf::<K, V>(p0, pid, cs, lo, hi, nxt, idx);
    lemma_wf_kind::<K, V>(p0, cs[idx], lo_c, hi_c, nxt_c);
    let ccs = cs[idx]->Node_1;
    assert(cs[idx] == Shape::Node(cid, ccs));
    let ksc = node_seps(p0, cid);
    let n = ksc.len() as int;
    let med = ksc[m];
    let mk = seq![med];
    let left = Shape::Node(cid, ccs.subrange(0, m + 1));
    let right = Shape::Node(rid, ccs.subrange(m + 1, n + 1));
    let mcs = seq![left, right];
    let cs2 = splice(cs, idx, idx + 1, mcs);
    let s2 = Shape::Node(pid, cs2);
    lemma_node_parts::<K, V>(p0, pid, cs, lo, hi, nxt);
    lemma_in_shape_bounded::<K, V>(p0, s1, lo, hi, nxt);
    assert(in_shape(s1, pid));
    assert(in_shape(cs[idx], cid));
    lemma_in_child(pid, cs, idx, cid);
    assert forall|p: u64| p < p0.len() && p != cid && in_shape(cs[idx], p) implies #[trigger] pn[p as int] == p0[p as int] by {
        lemma_in_child(pid, cs, idx, p);
    }
    lemma_split_internal_halves::<K, V>(p0, pn, cid, ccs, lo_c, hi_c, nxt_c, m, rid);
    assert(replace_children_ok::<K, V>(p0, pn, pid, cs, idx, idx, mk, mcs, lo, hi, nxt)) by {
        reveal(replace_children_ok);
        assert(mcs[0] == left && mcs[1] == right);
        assert(child_lo::<K>(lo_c, mk, 0) == lo_c);
        assert(child_hi::<K>(hi_c, mk, 0) == Some(med));
        assert(chain_next(mcs, 0, nxt_c) == first_leaf(right));
        assert(child_lo::<K>(lo_c, mk, 1) == Some(med));
        assert(child_hi::<K>(hi_c, mk, 1) == hi_c);
        assert(chain_next(mcs, 1, nxt_c) == nxt_c);
        assert(ks.insert(idx, med) =~= splice(ks, idx, idx, mk));
        assert forall|i: int| 0 <= i < cs2.len() implies pn[pid as int]->Internal_0.children@[i] == shape_id(#[trigger] cs2[i]) by {
            if i < idx {
                assert(cs2[i] == cs[i]);
            } else if i == idx {
                assert(cs2[i] == mcs[0]);
            } else if i == idx + 1 {
                assert(cs2[i] == mcs[1]);
            } else {
                assert(cs2[i] == cs[i - 1]);
            }
        }
        assert forall|j: int, p: u64| 0 <= j < mcs.len() && #[trigger] in_shape(mcs[j], p) implies p >= p0.len() || in_children(cs, idx, idx, p) by {
            if j == 0 {
                assert(in_shape(cs[idx], p));
            } else if p != rid {
                assert(in_shape(cs[idx], p));
            }
        }
        assert forall|i: int, j: int, p: u64| 0 <= i < j < mcs.len() implies !(#[trigger] in_shape(mcs[i], p) && #[trigger] in_shape(mcs[j], p)) by {
        }
        assert forall|p: u64| p < p0.len() && p != pid && !in_children(cs, idx, idx, p) implies #[trigger] pn[p as int] == p0[p as int] by {
            if p == cid {
                assert(in_shape(cs[idx], cid));
            }
        }
    }
    lemma_replace_children::<K, V>(p0, pn, pid, cs, idx, idx, mk, mcs, lo, hi, nxt);
    assert forall|p: u64| p < p0.len() && !in_shape(s1, p) implies #[trigger] pn[p as int] == p0[p as int] by {
        if p == cid {
            assert(in_shape(s1, cid));
        }
    }
    assert(forall|i: int| 0 <= i < cs2.len() ==> hgt(#[trigger] cs2[i]) < hgt(s1)) by {
        assert(ccs.len() == n + 1) by {
            lemma_node_parts::<K, V>(p0, cid, ccs, lo_c, hi_c, nxt_c);
        }
        lemma_hgt_window(cid, ccs, cid, 0, m + 1);
        lemma_hgt_window(cid, ccs, rid, m + 1, n + 1);
        assert(mcs[0] == left && mcs[1] == right);
        lemma_hgt_splice(pid, cs, idx, mcs);
    }
    assert forall|k: K::V| #[trigger] lookup::<K, V>(pn, s2, k) == lookup::<K, V>(p0, s1, k) by {
        if route::<K>(ks, k) == idx {
            lemma_route_single::<K>(med, k);
        }
    }
    s2
}


/// Two changes in a row, each confined to a subtree and new pages, are
/// confined to the first subtree and new pages.
#[verifier::rlimit(50)]
pub proof fn lemma_changed_trans<K, V>(
    p0: Seq<BTreeNode<K, V>>,
    p1: Seq<BTreeNode<K, V>>,
    p2: Seq<BTreeNode<K, V>>,
    s0: Shape,
    s1: Shape,
    s2: Shape,
)
    requires
        changed_only(p0, p1, s0, s1),
        changed_only(p1, p2, s1, s2),
    ensures
        changed_only(p0, p2, s0, s2),
{
    assert forall|p: u64| p < p0.len() && !in_shape(s0, p) implies #[trigger] p2[p as int] == p0[p as int] by {
        assert(p1[p as int] == p0[p as int]);
        if in_shape(s1, p) {
            assert(in_shape(s0, p) || p >= p0.len());
        }
        assert(p2[p as int] == p1[p as int]);
    }
}

} // verus!
