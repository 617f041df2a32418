//! Facts for deletion's rebalancing: two adjacent children of a node pass
//! entries (or children) between them, or merge into one.
use crate::key::{group_key_order, lemma_lt_asymmetric, lemma_lt_total, lt, BTreeKey};
use crate::node::{key_views, sorted, BTreeNode};
use crate::parts::{entries_ok, lemma_entries_concat, lemma_node_parts, lemma_seq_lookup, parts_lookup, parts_wf};
use crate::shape::{
    above, below, chain_next, child_hi, child_lo, first_leaf, hgt, in_children, hgt_seq, in_range, in_shape, lemma_hgt_seq_ge,
    lemma_child_wf, lemma_in_child, lemma_in_shape_bounded, lemma_replace_children, lemma_route,
    lemma_route_single, lemma_wf_kind, lookup, node_seps, replace_children_ok, route, seq_lookup,
    shape_id, splice, strictly_in, wf_subtree, Shape,
};
use crate::split::{changed_only, lemma_leaf_entries, lemma_split_entries};
use vstd::prelude::*;

verus! {

/// Two runs of entries on either side of `sep` glued together: well formed
/// over both ranges, and a key is found where `sep` sends it.
#[verifier::rlimit(50)]
pub proof fn lemma_pair_entries<K: BTreeKey, V>(
    lk: Seq<K::V>,
    lv: Seq<V>,
    rk: Seq<K::V>,
    rv: Seq<V>,
    lo: Option<K::V>,
    sep: K::V,
    hi: Option<K::V>,
)
    requires
        entries_ok::<K, V>(lk, lv, lo, Some(sep)),
        entries_ok::<K, V>(rk, rv, Some(sep), hi),
        strictly_in::<K>(lo, hi, sep),
    ensures
        entries_ok::<K, V>(lk + rk, lv + rv, lo, hi),
        forall|k: K::V|
            #[trigger] seq_lookup::<K, V>(lk + rk, lv + rv, k) == if lt::<K>(k, sep) {
                seq_lookup::<K, V>(lk, lv, k)
            } else {
                seq_lookup::<K, V>(rk, rv, k)
            },
{
    broadcast use group_key_order;

    assert forall|i: int, j: int| 0 <= i < lk.len() && 0 <= j < rk.len() implies lt::<K>(#[trigger] lk[i], #[trigger] rk[j]) by {
        assert(in_range::<K>(lo, Some(sep), lk[i]));
        assert(in_range::<K>(Some(sep), hi, rk[j]));
    }
    lemma_entries_concat::<K, V>(lk, lv, rk, rv);
    let ek = lk + rk;
    assert forall|i: int| 0 <= i < ek.len() implies in_range::<K>(lo, hi, #[trigger] ek[i]) by {
        if i < lk.len() {
            assert(ek[i] == lk[i]);
            assert(in_range::<K>(lo, Some(sep), lk[i]));
        } else {
            assert(ek[i] == rk[i - lk.len()]);
            assert(in_range::<K>(Some(sep), hi, rk[i - lk.len()]));
        }
    }
    assert forall|k: K::V| #[trigger] seq_lookup::<K, V>(lk + rk, lv + rv, k) == if lt::<K>(k, sep) {
        seq_lookup::<K, V>(lk, lv, k)
    } else {
        seq_lookup::<K, V>(rk, rv, k)
    } by {
        lemma_seq_lookup::<K, V>(lk, lv, k);
        lemma_seq_lookup::<K, V>(rk, rv, k);
        if rk.len() > 0 {
            assert(in_range::<K>(Some(sep), hi, rk[0]));
            lemma_lt_total::<K>(k, sep);
        }
        if lt::<K>(k, sep) {
            assert forall|j: int| 0 <= j < rk.len() implies rk[j] != k by {
                assert(in_range::<K>(Some(sep), hi, rk[j]));
            }
        } else {
            assert forall|j: int| 0 <= j < lk.len() implies lk[j] != k by {
                assert(in_range::<K>(lo, Some(sep), lk[j]));
                if lk[j] == k {
                    lemma_lt_asymmetric::<K>(k, sep);
                    lemma_lt_total::<K>(k, sep);
                }
            }
        }
    }
}

/// Keys routed to one of the children `a` and `a + 1` go to child `a`
/// exactly when they are below the separator between them.
pub proof fn lemma_route_pair<K: BTreeKey>(ks: Seq<K::V>, a: int, k: K::V)
    requires
        sorted::<K>(ks),
        0 <= a < ks.len(),
        a <= route::<K>(ks, k) <= a + 1,
    ensures
        (route::<K>(ks, k) == a) == lt::<K>(k, ks[a]),
{
    lemma_route::<K>(ks, k);
    if route::<K>(ks, k) == a + 1 {
        if lt::<K>(k, ks[a]) {
            if ks[a] == k {
                lemma_lt_asymmetric::<K>(k, ks[a]);
            } else {
                lemma_lt_asymmetric::<K>(k, ks[a]);
            }
        }
    }
}

/// The node in page `pid` after the children of its adjacent internal
/// children `a` and `a + 1` are shared out again between their pages, the
/// first `m + 1` to child `a`.
pub open spec fn regroup_shape(pid: u64, cs: Seq<Shape>, a: int, m: int) -> Shape {
    let ccs = cs[a]->Node_1 + cs[a + 1]->Node_1;
    Shape::Node(
        pid,
        splice(
            cs,
            a,
            a + 2,
            seq![
                Shape::Node(shape_id(cs[a]), ccs.subrange(0, m + 1)),
                Shape::Node(shape_id(cs[a + 1]), ccs.subrange(m + 1, ccs.len() as int)),
            ],
        ),
    )
}

/// The node in page `pid` after its adjacent internal children `a` and
/// `a + 1` are merged into the page of child `a`.
pub open spec fn merge_shape(pid: u64, cs: Seq<Shape>, a: int) -> Shape {
    Shape::Node(pid, splice(cs, a, a + 2, seq![Shape::Node(shape_id(cs[a]), cs[a]->Node_1 + cs[a + 1]->Node_1)]))
}

/// The subtree `s1` was reshaped into `s2`: `s2` is a well-formed node over
/// the same range, built from pages of `s1` (the others unchanged), that
/// maps every key as `s1` did; each of its children is lower than `s1`. It
/// says nothing of how the entries are spread over the pages; the steps
/// that reshape a node state that on their own.
pub open spec fn reshaped<K: BTreeKey, V>(
    p0: Seq<BTreeNode<K, V>>,
    pn: Seq<BTreeNode<K, V>>,
    s1: Shape,
    s2: Shape,
    lo: Option<K::V>,
    hi: Option<K::V>,
    nxt: u64,
) -> bool {
    &&& s2 is Node
    &&& wf_subtree::<K, V>(pn, s2, lo, hi, nxt)
    &&& changed_only(p0, pn, s1, s2)
    &&& forall|k: K::V| #[trigger] lookup::<K, V>(pn, s2, k) == lookup::<K, V>(p0, s1, k)
    &&& forall|i: int| 0 <= i < s2->Node_1.len() ==> hgt(#[trigger] s2->Node_1[i]) < hgt(s1)
}

/// The pages of a well-formed node and of two adjacent children of it are
/// allocated and distinct, and the node's child pointers are the children's
/// pages.
#[verifier::rlimit(40)]
pub proof fn lemma_pair_pages<K: BTreeKey, V>(
    p0: Seq<BTreeNode<K, V>>,
    pid: u64,
    cs: Seq<Shape>,
    lo: Option<K::V>,
    hi: Option<K::V>,
    nxt: u64,
    a: int,
)
    requires
        wf_subtree::<K, V>(p0, Shape::Node(pid, cs), lo, hi, nxt),
        0 <= a,
        a + 1 < cs.len(),
    ensures
        pid < p0.len(),
        p0[pid as int] is Internal,
        shape_id(cs[a]) < p0.len(),
        shape_id(cs[a + 1]) < p0.len(),
        shape_id(cs[a]) != pid,
        shape_id(cs[a + 1]) != pid,
        shape_id(cs[a]) != shape_id(cs[a + 1]),
        node_seps(p0, pid).len() + 1 == cs.len(),
        p0[pid as int]->Internal_0.keys@.len() + 1 == cs.len(),
        p0[pid as int]->Internal_0.children@.len() == cs.len(),
        forall|i: int| 0 <= i < cs.len() ==> p0[pid as int]->Internal_0.children@[i] == shape_id(#[trigger] cs[i]),
{
    let s1 = Shape::Node(pid, cs);
    lemma_node_parts::<K, V>(p0, pid, cs, lo, hi, nxt);
    lemma_in_shape_bounded::<K, V>(p0, s1, lo, hi, nxt);
    crate::shape::lemma_child_wf::<K, V>(p0, pid, cs, lo, hi, nxt, a);
    crate::shape::lemma_child_wf::<K, V>(p0, pid, cs, lo, hi, nxt, a + 1);
    assert(cs[a] is Leaf ==> in_shape(cs[a], shape_id(cs[a])));
    assert(cs[a + 1] is Leaf ==> in_shape(cs[a + 1], shape_id(cs[a + 1])));
    assert(in_shape(cs[a], shape_id(cs[a])));
    assert(in_shape(cs[a + 1], shape_id(cs[a + 1])));
    lemma_in_child(pid, cs, a, shape_id(cs[a]));
    lemma_in_child(pid, cs, a + 1, shape_id(cs[a + 1]));
    assert(!(in_shape(cs[a], shape_id(cs[a])) && in_shape(cs[a + 1], shape_id(cs[a]))));
}

/// Leaving a well-formed node as it is reshapes it into itself.
#[verifier::rlimit(30)]
pub proof fn lemma_reshaped_same<K: BTreeKey, V>(
    p0: Seq<BTreeNode<K, V>>,
    pid: u64,
    cs: Seq<Shape>,
    lo: Option<K::V>,
    hi: Option<K::V>,
    nxt: u64,
)
    requires
        wf_subtree::<K, V>(p0, Shape::Node(pid, cs), lo, hi, nxt),
    ensures
        reshaped::<K, V>(p0, p0, Shape::Node(pid, cs), Shape::Node(pid, cs), lo, hi, nxt),
{
    assert forall|i: int| 0 <= i < cs.len() implies hgt(#[trigger] cs[i]) < hgt(Shape::Node(pid, cs)) by {
        lemma_hgt_seq_ge(cs, i);
    }
}

/// A page holding a leaf with well-formed entries is a well-formed leaf
/// subtree that maps keys as its entries do.
#[verifier::rlimit(30)]
pub proof fn lemma_leaf_wf<K: BTreeKey, V>(
    pages: Seq<BTreeNode<K, V>>,
    id: u64,
    lo: Option<K::V>,
    hi: Option<K::V>,
    nxt: u64,
)
    requires
        id < pages.len(),
        pages[id as int] is Leaf,
        pages[id as int]->Leaf_0.next_leaf == nxt,
        entries_ok::<K, V>(key_views(pages[id as int]->Leaf_0.keys@), pages[id as int]->Leaf_0.values@, lo, hi),
    ensures
        wf_subtree::<K, V>(pages, Shape::Leaf(id), lo, hi, nxt),
        forall|k: K::V|
            #[trigger] lookup::<K, V>(pages, Shape::Leaf(id), k) == seq_lookup::<K, V>(
                key_views(pages[id as int]->Leaf_0.keys@),
                pages[id as int]->Leaf_0.values@,
                k,
            ),
{
    reveal(wf_subtree);
    lemma_leaf_entries::<K, V>(pages[id as int]->Leaf_0, lo, hi);
}

/// The separator between children `a` and `a + 1` lies strictly inside the
/// range of the two children together.
#[verifier::rlimit(30)]
pub proof fn lemma_pair_sep<K: BTreeKey>(ks: Seq<K::V>, lo: Option<K::V>, hi: Option<K::V>, a: int)
    requires
        sorted::<K>(ks),
        forall|i: int| 0 <= i < ks.len() ==> strictly_in::<K>(lo, hi, #[trigger] ks[i]),
        0 <= a < ks.len(),
    ensures
        strictly_in::<K>(child_lo::<K>(lo, ks, a), child_hi::<K>(hi, ks, a + 1), ks[a]),
        child_hi::<K>(hi, ks, a) == Some(ks[a]),
        child_lo::<K>(lo, ks, a + 1) == Some(ks[a]),
{
    assert(strictly_in::<K>(lo, hi, ks[a]));
    if a > 0 {
        assert(lt::<K>(ks[a - 1], ks[a]));
    }
    if a + 1 < ks.len() {
        assert(lt::<K>(ks[a], ks[a + 1]));
    }
}

/// Two adjacent leaf children `a` and `a + 1` of a well-formed node: their
/// entries glued together are well formed over the range of both, and a key
/// routed to either child is found in them.
#[verifier::rlimit(60)]
pub proof fn lemma_leaf_pair<K: BTreeKey, V>(
    p0: Seq<BTreeNode<K, V>>,
    pid: u64,
    cs: Seq<Shape>,
    lo: Option<K::V>,
    hi: Option<K::V>,
    nxt: u64,
    a: int,
)
    requires
        wf_subtree::<K, V>(p0, Shape::Node(pid, cs), lo, hi, nxt),
        0 <= a,
        a + 1 < cs.len(),
        p0[shape_id(cs[a]) as int] is Leaf,
        p0[shape_id(cs[a + 1]) as int] is Leaf,
    ensures
        ({
            let ks = node_seps(p0, pid);
            let lid = shape_id(cs[a]);
            let rid = shape_id(cs[a + 1]);
            let l = p0[lid as int]->Leaf_0;
            let r = p0[rid as int]->Leaf_0;
            let ek = key_views(l.keys@) + key_views(r.keys@);
            let ev = l.values@ + r.values@;
            &&& cs[a] == Shape::Leaf(lid)
            &&& cs[a + 1] == Shape::Leaf(rid)
            &&& lid != rid
            &&& lid != pid
            &&& rid != pid
            &&& lid < p0.len()
            &&& rid < p0.len()
            &&& l.next_leaf == rid
            &&& r.next_leaf == chain_next(cs, a + 1, nxt)
            &&& key_views(l.keys@).len() == l.values@.len()
            &&& key_views(r.keys@).len() == r.values@.len()
            &&& ks.len() + 1 == cs.len()
            &&& p0[pid as int] is Internal
            &&& p0[pid as int]->Internal_0.children@.len() == cs.len()
            &&& forall|i: int| 0 <= i < cs.len() ==> p0[pid as int]->Internal_0.children@[i] == shape_id(#[trigger] cs[i])
            &&& entries_ok::<K, V>(ek, ev, child_lo::<K>(lo, ks, a), child_hi::<K>(hi, ks, a + 1))
            &&& forall|k: K::V|
                a <= route::<K>(ks, k) <= a + 1 ==> #[trigger] lookup::<K, V>(p0, Shape::Node(pid, cs), k)
                    == seq_lookup::<K, V>(ek, ev, k)
        }),
{
    let s1 = Shape::Node(pid, cs);
    let ks = node_seps(p0, pid);
    let lid = shape_id(cs[a]);
    let rid = shape_id(cs[a + 1]);
    let l = p0[lid as int]->Leaf_0;
    let r = p0[rid as int]->Leaf_0;
    let lk = key_views(l.keys@);
    let rk = key_views(r.keys@);
    let sep = ks[a];
    let lo_a = child_lo::<K>(lo, ks, a);
    let hi_b = child_hi::<K>(hi, ks, a + 1);
    lemma_node_parts::<K, V>(p0, pid, cs, lo, hi, nxt);
    lemma_pair_sep::<K>(ks, lo, hi, a);
    lemma_wf_kind::<K, V>(p0, cs[a], lo_a, Some(sep), chain_next(cs, a, nxt));
    lemma_wf_kind::<K, V>(p0, cs[a + 1], Some(sep), hi_b, chain_next(cs, a + 1, nxt));
    assert(cs[a] == Shape::Leaf(lid) && cs[a + 1] == Shape::Leaf(rid));
    assert(in_shape(cs[a], lid) && in_shape(cs[a + 1], rid));
    assert(lid != rid) by {
        assert(!(in_shape(cs[a], lid) && in_shape(cs[a + 1], lid)));
    }
    lemma_leaf_entries::<K, V>(l, lo_a, Some(sep));
    lemma_leaf_entries::<K, V>(r, Some(sep), hi_b);
    lemma_pair_entries::<K, V>(lk, l.values@, rk, r.values@, lo_a, sep, hi_b);
    assert forall|k: K::V| a <= route::<K>(ks, k) <= a + 1 implies #[trigger] lookup::<K, V>(p0, s1, k)
        == seq_lookup::<K, V>(lk + rk, l.values@ + r.values@, k) by {
        lemma_route_pair::<K>(ks, a, k);
    }
}

/// Replacing the adjacent children `a` and `a + 1` of the node in page `pid`
/// by the subtrees `mcs` (with separators `mk` between them), made of pages
/// of those two children, that map the keys routed to the pair as before.
#[verifier::spinoff_prover]
#[verifier::rlimit(60)]
pub proof fn lemma_replace_pair<K: BTreeKey, V>(
    p0: Seq<BTreeNode<K, V>>,
    pn: Seq<BTreeNode<K, V>>,
    pid: u64,
    cs: Seq<Shape>,
    lo: Option<K::V>,
    hi: Option<K::V>,
    nxt: u64,
    a: int,
    mk: Seq<K::V>,
    mcs: Seq<Shape>,
)
    requires
        wf_subtree::<K, V>(p0, Shape::Node(pid, cs), lo, hi, nxt),
        0 <= a,
        a + 1 < cs.len(),
        mcs.len() == mk.len() + 1,
        pn.len() == p0.len(),
        pn[pid as int] is Internal,
        key_views(pn[pid as int]->Internal_0.keys@) == splice(node_seps(p0, pid), a, a + 1, mk),
        pn[pid as int]->Internal_0.children@.len() == cs.len() - 2 + mcs.len(),
        forall|i: int|
            0 <= i < cs.len() - 2 + mcs.len() ==> pn[pid as int]->Internal_0.children@[i] == shape_id(
                #[trigger] splice(cs, a, a + 2, mcs)[i],
            ),
        sorted::<K>(mk),
        forall|j: int|
            0 <= j < mk.len() ==> above::<K>(child_lo::<K>(lo, node_seps(p0, pid), a), #[trigger] mk[j])
                && below::<K>(child_hi::<K>(hi, node_seps(p0, pid), a + 1), mk[j]),
        forall|j: int|
            #![trigger mcs[j]]
            0 <= j < mcs.len() ==> wf_subtree::<K, V>(
                pn,
                mcs[j],
                child_lo::<K>(child_lo::<K>(lo, node_seps(p0, pid), a), mk, j),
                child_hi::<K>(child_hi::<K>(hi, node_seps(p0, pid), a + 1), mk, j),
                chain_next(mcs, j, chain_next(cs, a + 1, nxt)),
            ),
        first_leaf(mcs[0]) == first_leaf(cs[a]),
        forall|j: int, p: u64|
            0 <= j < mcs.len() && #[trigger] in_shape(mcs[j], p) ==> in_shape(cs[a], p) || in_shape(cs[a + 1], p),
        forall|i: int, j: int, p: u64|
            0 <= i < j < mcs.len() ==> !(#[trigger] in_shape(mcs[i], p) && #[trigger] in_shape(mcs[j], p)),
        forall|p: u64|
            p < p0.len() && p != pid && !in_shape(cs[a], p) && !in_shape(cs[a + 1], p) ==> #[trigger] pn[p as int]
                == p0[p as int],
        forall|k: K::V|
            a <= route::<K>(node_seps(p0, pid), k) <= a + 1 ==> #[trigger] lookup::<K, V>(
                pn,
                mcs[route::<K>(mk, k)],
                k,
            ) == lookup::<K, V>(p0, Shape::Node(pid, cs), k),
        forall|j: int| 0 <= j < mcs.len() ==> hgt(#[trigger] mcs[j]) < hgt(Shape::Node(pid, cs)),
    ensures
        reshaped::<K, V>(p0, pn, Shape::Node(pid, cs), Shape::Node(pid, splice(cs, a, a + 2, mcs)), lo, hi, nxt),
{
    let s1 = Shape::Node(pid, cs);
    let cs2 = splice(cs, a, a + 2, mcs);
    let s2 = Shape::Node(pid, cs2);
    lemma_in_shape_bounded::<K, V>(p0, s1, lo, hi, nxt);
    assert(in_shape(s1, pid));
    assert(replace_children_ok::<K, V>(p0, pn, pid, cs, a, a + 1, mk, mcs, lo, hi, nxt)) by {
        reveal(replace_children_ok);
        assert forall|j: int, p: u64| 0 <= j < mcs.len() && #[trigger] in_shape(mcs[j], p) implies p >= p0.len()
            || in_children(cs, a, a + 1, p) by {
            if in_shape(cs[a], p) {
                assert(in_children(cs, a, a + 1, p));
            } else {
                assert(in_children(cs, a, a + 1, p));
            }
        }
        assert forall|p: u64| p < p0.len() && p != pid && !in_children(cs, a, a + 1, p) implies #[trigger] pn[p as int]
            == p0[p as int] by {
            if in_shape(cs[a], p) {
                assert(in_children(cs, a, a + 1, p));
            }
            if in_shape(cs[a + 1], p) {
                assert(in_children(cs, a, a + 1, p));
            }
        }
    }
    lemma_replace_children::<K, V>(p0, pn, pid, cs, a, a + 1, mk, mcs, lo, hi, nxt);
    assert forall|p: u64| p < p0.len() && !in_shape(s1, p) implies #[trigger] pn[p as int] == p0[p as int] by {
        if in_shape(cs[a], p) {
            lemma_in_child(pid, cs, a, p);
        }
        if in_shape(cs[a + 1], p) {
            lemma_in_child(pid, cs, a + 1, p);
        }
    }
    assert forall|i: int| 0 <= i < cs2.len() implies hgt(#[trigger] cs2[i]) < hgt(s1) by {
        let m = mcs.len() as int;
        if i < a {
            assert(cs2[i] == cs[i]);
            lemma_hgt_seq_ge(cs, i);
        } else if i < a + m {
            assert(cs2[i] == mcs[i - a]);
        } else {
            assert(cs2[i] == cs[i - m + 2]);
            lemma_hgt_seq_ge(cs, i - m + 2);
        }
    }
}

/// Entries cut at position `w` into the leaf pages `lid` (linking to `rid`)
/// and `rid`: both leaves are well formed, with the first key of the back
/// part as the bound between them, and together they map keys as the
/// entries do.
#[verifier::rlimit(40)]
pub proof fn lemma_leaf_halves<K: BTreeKey, V>(
    pn: Seq<BTreeNode<K, V>>,
    lid: u64,
    rid: u64,
    ek: Seq<K::V>,
    ev: Seq<V>,
    lo: Option<K::V>,
    hi: Option<K::V>,
    nxt: u64,
    w: int,
)
    requires
        entries_ok::<K, V>(ek, ev, lo, hi),
        0 < w < ek.len(),
        lid < pn.len(),
        rid < pn.len(),
        pn[lid as int] is Leaf,
        key_views(pn[lid as int]->Leaf_0.keys@) == ek.subrange(0, w),
        pn[lid as int]->Leaf_0.values@ == ev.subrange(0, w),
        pn[lid as int]->Leaf_0.next_leaf == rid,
        pn[rid as int] is Leaf,
        key_views(pn[rid as int]->Leaf_0.keys@) == ek.subrange(w, ek.len() as int),
        pn[rid as int]->Leaf_0.values@ == ev.subrange(w, ev.len() as int),
        pn[rid as int]->Leaf_0.next_leaf == nxt,
    ensures
        above::<K>(lo, ek[w]),
        below::<K>(hi, ek[w]),
        wf_subtree::<K, V>(pn, Shape::Leaf(lid), lo, Some(ek[w]), rid),
        wf_subtree::<K, V>(pn, Shape::Leaf(rid), Some(ek[w]), hi, nxt),
        forall|k: K::V| lt::<K>(k, ek[w]) ==> #[trigger] lookup::<K, V>(pn, Shape::Leaf(lid), k) == seq_lookup::<K, V>(ek, ev, k),
        forall|k: K::V| !lt::<K>(k, ek[w]) ==> #[trigger] lookup::<K, V>(pn, Shape::Leaf(rid), k) == seq_lookup::<K, V>(ek, ev, k),
{
    let nsep = ek[w];
    lemma_split_entries::<K, V>(ek, ev, lo, hi, w);
    lemma_leaf_wf::<K, V>(pn, lid, lo, Some(nsep), rid);
    lemma_leaf_wf::<K, V>(pn, rid, Some(nsep), hi, nxt);
}

/// Two subtrees, the first mapping the keys below `mk[0]` as `f` does and
/// the second the others, routed to by the separator `mk[0]`, map every key
/// as `f` does.
#[verifier::rlimit(30)]
proof fn lemma_two_lookup<K: BTreeKey, V>(
    pn: Seq<BTreeNode<K, V>>,
    mcs: Seq<Shape>,
    mk: Seq<K::V>,
    f: spec_fn(K::V) -> Option<V>,
)
    requires
        mk.len() == 1,
        mcs.len() == 2,
        forall|k: K::V| lt::<K>(k, mk[0]) ==> #[trigger] lookup::<K, V>(pn, mcs[0], k) == f(k),
        forall|k: K::V| !lt::<K>(k, mk[0]) ==> #[trigger] lookup::<K, V>(pn, mcs[1], k) == f(k),
    ensures
        forall|k: K::V| #[trigger] lookup::<K, V>(pn, mcs[route::<K>(mk, k)], k) == f(k),
{
    assert forall|k: K::V| #[trigger] lookup::<K, V>(pn, mcs[route::<K>(mk, k)], k) == f(k) by {
        assert(mk =~= seq![mk[0]]);
        lemma_route_single::<K>(mk[0], k);
    }
}

/// The entries of the adjacent leaf children `a` and `a + 1`, glued and cut
/// again at position `w`, the first key of the back part becoming their
/// separator (a key passed to a sibling): the node keeps its shape and maps
/// every key as before.
#[verifier::spinoff_prover]
#[verifier::rlimit(100)]
pub proof fn lemma_leaf_regroup<K: BTreeKey, V>(
    p0: Seq<BTreeNode<K, V>>,
    pn: Seq<BTreeNode<K, V>>,
    pid: u64,
    cs: Seq<Shape>,
    lo: Option<K::V>,
    hi: Option<K::V>,
    nxt: u64,
    a: int,
    w: int,
)
    requires
        wf_subtree::<K, V>(p0, Shape::Node(pid, cs), lo, hi, nxt),
        0 <= a,
        a + 1 < cs.len(),
        p0[shape_id(cs[a]) as int] is Leaf,
        p0[shape_id(cs[a + 1]) as int] is Leaf,
        ({
            let lid = shape_id(cs[a]);
            let rid = shape_id(cs[a + 1]);
            let l = p0[lid as int]->Leaf_0;
            let r = p0[rid as int]->Leaf_0;
            let ek = key_views(l.keys@) + key_views(r.keys@);
            let ev = l.values@ + r.values@;
            &&& 0 < w < ek.len()
            &&& pn.len() == p0.len()
            &&& forall|p: u64| p < p0.len() && p != lid && p != rid && p != pid ==> #[trigger] pn[p as int] == p0[p as int]
            &&& pn[lid as int] is Leaf
            &&& key_views(pn[lid as int]->Leaf_0.keys@) == ek.subrange(0, w)
            &&& pn[lid as int]->Leaf_0.values@ == ev.subrange(0, w)
            &&& pn[lid as int]->Leaf_0.next_leaf == rid
            &&& pn[rid as int] is Leaf
            &&& key_views(pn[rid as int]->Leaf_0.keys@) == ek.subrange(w, ek.len() as int)
            &&& pn[rid as int]->Leaf_0.values@ == ev.subrange(w, ev.len() as int)
            &&& pn[rid as int]->Leaf_0.next_leaf == r.next_leaf
            &&& pn[pid as int] is Internal
            &&& key_views(pn[pid as int]->Internal_0.keys@) == node_seps(p0, pid).update(a, ek[w])
            &&& pn[pid as int]->Internal_0.children@ == p0[pid as int]->Internal_0.children@
        }),
    ensures
        reshaped::<K, V>(p0, pn, Shape::Node(pid, cs), Shape::Node(pid, cs), lo, hi, nxt),
{
    let s1 = Shape::Node(pid, cs);
    let ks = node_seps(p0, pid);
    let lid = shape_id(cs[a]);
    let rid = shape_id(cs[a + 1]);
    let l = p0[lid as int]->Leaf_0;
    let r = p0[rid as int]->Leaf_0;
    let ek = key_views(l.keys@) + key_views(r.keys@);
    let ev = l.values@ + r.values@;
    let n = ek.len() as int;
    let nsep = ek[w];
    let lo_a = child_lo::<K>(lo, ks, a);
    let hi_b = child_hi::<K>(hi, ks, a + 1);
    let nxt_b = chain_next(cs, a + 1, nxt);
    lemma_leaf_pair::<K, V>(p0, pid, cs, lo, hi, nxt, a);
    lemma_leaf_halves::<K, V>(pn, lid, rid, ek, ev, lo_a, hi_b, nxt_b, w);
    let mk = seq![nsep];
    let mcs = seq![Shape::Leaf(lid), Shape::Leaf(rid)];
    assert(splice(cs, a, a + 2, mcs) =~= cs) by {
        assert(mcs[0] == cs[a] && mcs[1] == cs[a + 1]);
    }
    assert(ks.update(a, nsep) =~= splice(ks, a, a + 1, mk));
    assert(mcs[0] == Shape::Leaf(lid) && mcs[1] == Shape::Leaf(rid));
    assert(child_hi::<K>(hi_b, mk, 0) == Some(nsep));
    assert(child_lo::<K>(lo_a, mk, 1) == Some(nsep));
    assert(chain_next(mcs, 0, nxt_b) == rid);
    assert(in_shape(cs[a], lid) && in_shape(cs[a + 1], rid));
    lemma_two_lookup::<K, V>(pn, mcs, mk, |k: K::V| seq_lookup::<K, V>(ek, ev, k));
    assert forall|k: K::V| a <= route::<K>(ks, k) <= a + 1 implies #[trigger] lookup::<K, V>(pn, mcs[route::<K>(mk, k)], k)
        == lookup::<K, V>(p0, s1, k) by {
    }
    lemma_replace_pair::<K, V>(p0, pn, pid, cs, lo, hi, nxt, a, mk, mcs);
}

/// The entries of the adjacent leaf children `a` and `a + 1` glued into the
/// page of child `a`, which takes over the link of child `a + 1`; the
/// separator between them and child `a + 1` leave the node.
#[verifier::rlimit(60)]
pub proof fn lemma_leaf_merge<K: BTreeKey, V>(
    p0: Seq<BTreeNode<K, V>>,
    pn: Seq<BTreeNode<K, V>>,
    pid: u64,
    cs: Seq<Shape>,
    lo: Option<K::V>,
    hi: Option<K::V>,
    nxt: u64,
    a: int,
)
    requires
        wf_subtree::<K, V>(p0, Shape::Node(pid, cs), lo, hi, nxt),
        0 <= a,
        a + 1 < cs.len(),
        p0[shape_id(cs[a]) as int] is Leaf,
        p0[shape_id(cs[a + 1]) as int] is Leaf,
        ({
            let lid = shape_id(cs[a]);
            let rid = shape_id(cs[a + 1]);
            let l = p0[lid as int]->Leaf_0;
            let r = p0[rid as int]->Leaf_0;
            &&& pn.len() == p0.len()
            &&& forall|p: u64| p < p0.len() && p != lid && p != rid && p != pid ==> #[trigger] pn[p as int] == p0[p as int]
            &&& pn[lid as int] is Leaf
            &&& key_views(pn[lid as int]->Leaf_0.keys@) == key_views(l.keys@) + key_views(r.keys@)
            &&& pn[lid as int]->Leaf_0.values@ == l.values@ + r.values@
            &&& pn[lid as int]->Leaf_0.next_leaf == r.next_leaf
            &&& pn[pid as int] is Internal
            &&& key_views(pn[pid as int]->Internal_0.keys@) == node_seps(p0, pid).remove(a)
            &&& pn[pid as int]->Internal_0.children@ == p0[pid as int]->Internal_0.children@.remove(a + 1)
        }),
    ensures
        reshaped::<K, V>(
            p0,
            pn,
            Shape::Node(pid, cs),
            Shape::Node(pid, splice(cs, a, a + 2, seq![Shape::Leaf(shape_id(cs[a]))])),
            lo,
            hi,
            nxt,
        ),
{
    let s1 = Shape::Node(pid, cs);
    let ks = node_seps(p0, pid);
    let lid = shape_id(cs[a]);
    let rid = shape_id(cs[a + 1]);
    let lo_a = child_lo::<K>(lo, ks, a);
    let hi_b = child_hi::<K>(hi, ks, a + 1);
    let nxt_b = chain_next(cs, a + 1, nxt);
    lemma_leaf_pair::<K, V>(p0, pid, cs, lo, hi, nxt, a);
    lemma_node_parts::<K, V>(p0, pid, cs, lo, hi, nxt);
    lemma_leaf_wf::<K, V>(pn, lid, lo_a, hi_b, nxt_b);
    let mk = Seq::<K::V>::empty();
    let mcs = seq![Shape::Leaf(lid)];
    let cs2 = splice(cs, a, a + 2, mcs);
    let ch = p0[pid as int]->Internal_0.children@;
    assert(ks.remove(a) =~= splice(ks, a, a + 1, mk));
    assert(mcs[0] == Shape::Leaf(lid));
    assert(child_lo::<K>(lo_a, mk, 0) == lo_a);
    assert(child_hi::<K>(hi_b, mk, 0) == hi_b);
    assert(chain_next(mcs, 0, nxt_b) == nxt_b);
    assert(in_shape(cs[a], lid));
    assert forall|i: int| 0 <= i < cs.len() - 2 + mcs.len() implies pn[pid as int]->Internal_0.children@[i] == shape_id(
        #[trigger] cs2[i],
    ) by {
        if i < a {
            assert(cs2[i] == cs[i]);
        } else if i == a {
            assert(cs2[i] == mcs[0]);
        } else {
            assert(cs2[i] == cs[i + 1]);
        }
    }
    assert forall|k: K::V| a <= route::<K>(ks, k) <= a + 1 implies #[trigger] lookup::<K, V>(pn, mcs[route::<K>(mk, k)], k)
        == lookup::<K, V>(p0, s1, k) by {
        assert(route::<K>(mk, k) == 0);
    }
    lemma_replace_pair::<K, V>(p0, pn, pid, cs, lo, hi, nxt, a, mk, mcs);
}

/// Two adjacent internal children `a` and `a + 1` of a well-formed node:
/// their children, with their separators and the separator between them,
/// form a well-formed run over the range of both, which maps a key routed
/// to either child as the node does.
#[verifier::rlimit(60)]
pub proof fn lemma_internal_pair<K: BTreeKey, V>(
    p0: Seq<BTreeNode<K, V>>,
    pid: u64,
    cs: Seq<Shape>,
    lo: Option<K::V>,
    hi: Option<K::V>,
    nxt: u64,
    a: int,
)
    requires
        wf_subtree::<K, V>(p0, Shape::Node(pid, cs), lo, hi, nxt),
        0 <= a,
        a + 1 < cs.len(),
        p0[shape_id(cs[a]) as int] is Internal,
        p0[shape_id(cs[a + 1]) as int] is Internal,
    ensures
        ({
            let ks = node_seps(p0, pid);
            let lid = shape_id(cs[a]);
            let rid = shape_id(cs[a + 1]);
            let lcs = cs[a]->Node_1;
            let rcs = cs[a + 1]->Node_1;
            let ccs = lcs + rcs;
            let cks = node_seps(p0, lid) + seq![ks[a]] + node_seps(p0, rid);
            &&& cs[a] == Shape::Node(lid, lcs)
            &&& cs[a + 1] == Shape::Node(rid, rcs)
            &&& lid != rid
            &&& lid != pid
            &&& rid != pid
            &&& lid < p0.len()
            &&& rid < p0.len()
            &&& ks.len() + 1 == cs.len()
            &&& p0[pid as int] is Internal
            &&& p0[pid as int]->Internal_0.children@.len() == cs.len()
            &&& forall|i: int| 0 <= i < cs.len() ==> p0[pid as int]->Internal_0.children@[i] == shape_id(#[trigger] cs[i])
            &&& lcs.len() == node_seps(p0, lid).len() + 1
            &&& rcs.len() == node_seps(p0, rid).len() + 1
            &&& p0[lid as int]->Internal_0.children@.len() == lcs.len()
            &&& forall|i: int| 0 <= i < lcs.len() ==> p0[lid as int]->Internal_0.children@[i] == shape_id(#[trigger] lcs[i])
            &&& p0[rid as int]->Internal_0.children@.len() == rcs.len()
            &&& forall|i: int| 0 <= i < rcs.len() ==> p0[rid as int]->Internal_0.children@[i] == shape_id(#[trigger] rcs[i])
            &&& parts_wf::<K, V>(p0, ccs, cks, child_lo::<K>(lo, ks, a), child_hi::<K>(hi, ks, a + 1), chain_next(cs, a + 1, nxt))
            &&& first_leaf(ccs[0]) == first_leaf(cs[a])
            &&& forall|k: K::V|
                a <= route::<K>(ks, k) <= a + 1 ==> #[trigger] parts_lookup::<K, V>(p0, ccs, cks, k)
                    == lookup::<K, V>(p0, Shape::Node(pid, cs), k)
            &&& forall|i: int, p: u64|
                0 <= i < ccs.len() && #[trigger] in_shape(ccs[i], p) ==> (in_shape(cs[a], p) || in_shape(cs[a + 1], p))
                    && p != lid && p != rid && p != pid && p < p0.len()
            &&& in_shape(cs[a], lid)
            &&& in_shape(cs[a + 1], rid)
            &&& forall|i: int| 0 <= i < ccs.len() ==> hgt(#[trigger] ccs[i]) < hgt_seq(cs)
        }),
{
    let s1 = Shape::Node(pid, cs);
    let ks = node_seps(p0, pid);
    let lid = shape_id(cs[a]);
    let rid = shape_id(cs[a + 1]);
    let sep = ks[a];
    let lo_a = child_lo::<K>(lo, ks, a);
    let hi_b = child_hi::<K>(hi, ks, a + 1);
    let nxt_a = chain_next(cs, a, nxt);
    let nxt_b = chain_next(cs, a + 1, nxt);
    lemma_node_parts::<K, V>(p0, pid, cs, lo, hi, nxt);
    lemma_in_shape_bounded::<K, V>(p0, s1, lo, hi, nxt);
    lemma_pair_sep::<K>(ks, lo, hi, a);
    lemma_wf_kind::<K, V>(p0, cs[a], lo_a, Some(sep), nxt_a);
    lemma_wf_kind::<K, V>(p0, cs[a + 1], Some(sep), hi_b, nxt_b);
    let lcs = cs[a]->Node_1;
    let rcs = cs[a + 1]->Node_1;
    assert(cs[a] == Shape::Node(lid, lcs) && cs[a + 1] == Shape::Node(rid, rcs));
    let aks = node_seps(p0, lid);
    let bks = node_seps(p0, rid);
    lemma_node_parts::<K, V>(p0, lid, lcs, lo_a, Some(sep), nxt_a);
    lemma_node_parts::<K, V>(p0, rid, rcs, Some(sep), hi_b, nxt_b);
    assert(in_shape(cs[a], lid) && in_shape(cs[a + 1], rid));
    assert(lid != rid) by {
        assert(!(in_shape(cs[a], lid) && in_shape(cs[a + 1], lid)));
    }
    assert forall|i: int, p: u64| 0 <= i < lcs.len() && #[trigger] in_shape(lcs[i], p) implies in_shape(cs[a], p) && !in_shape(cs[a + 1], p) && p != lid && p != rid && p < p0.len() by {
        lemma_in_child(lid, lcs, i, p);
        lemma_in_child(pid, cs, a, p);
        assert(!(in_shape(cs[a], p) && in_shape(cs[a + 1], p)));
    }
    assert forall|i: int, p: u64| 0 <= i < rcs.len() && #[trigger] in_shape(rcs[i], p) implies in_shape(cs[a + 1], p) && !in_shape(cs[a], p) && p != lid && p != rid && p < p0.len() by {
        lemma_in_child(rid, rcs, i, p);
        lemma_in_child(pid, cs, a + 1, p);
        assert(!(in_shape(cs[a], p) && in_shape(cs[a + 1], p)));
    }
    crate::parts::lemma_parts_concat::<K, V>(p0, lcs, aks, lo_a, sep, rcs, bks, hi_b, nxt_b);
    let ccs = lcs + rcs;
    let cks = aks + seq![sep] + bks;
    assert(ccs[0] == lcs[0]);
    assert forall|i: int, p: u64| 0 <= i < ccs.len() && #[trigger] in_shape(ccs[i], p) implies (in_shape(cs[a], p) || in_shape(cs[a + 1], p))
        && p != lid && p != rid && p != pid && p < p0.len() by {
        if i < lcs.len() {
            assert(ccs[i] == lcs[i]);
        } else {
            assert(ccs[i] == rcs[i - lcs.len()]);
        }
    }
    assert forall|k: K::V| a <= route::<K>(ks, k) <= a + 1 implies #[trigger] parts_lookup::<K, V>(p0, ccs, cks, k)
        == lookup::<K, V>(p0, s1, k) by {
        lemma_route_pair::<K>(ks, a, k);
    }
    lemma_hgt_seq_ge(cs, a);
    lemma_hgt_seq_ge(cs, a + 1);
    assert forall|i: int| 0 <= i < ccs.len() implies hgt(#[trigger] ccs[i]) < hgt_seq(cs) by {
        if i < lcs.len() {
            assert(ccs[i] == lcs[i]);
            lemma_hgt_seq_ge(lcs, i);
        } else {
            assert(ccs[i] == rcs[i - lcs.len()]);
            lemma_hgt_seq_ge(rcs, i - lcs.len());
        }
    }
}

/// A node over shapes each lower than `hgt_seq(cs)` is lower than a node
/// over `cs`.
#[verifier::rlimit(30)]
pub proof fn lemma_hgt_below(id: u64, cs: Seq<Shape>, id2: u64, ws: Seq<Shape>)
    requires
        ws.len() > 0,
        forall|i: int| 0 <= i < ws.len() ==> hgt(#[trigger] ws[i]) < hgt_seq(cs),
    ensures
        hgt(Shape::Node(id2, ws)) < hgt(Shape::Node(id, cs)),
{
    assert(hgt(ws[0]) < hgt_seq(cs));
    crate::shape::lemma_hgt_seq_le(ws, (hgt_seq(cs) - 1) as nat);
}

/// A well-formed run of children cut at separator `m` into an internal node
/// in page `lid` over the front part and one in page `rid` over the back
/// part, `ks[m]` moving out: both are well formed with `ks[m]` as the bound
/// between them, and together they map keys as the run does.
#[verifier::rlimit(60)]
pub proof fn lemma_parts_halves<K: BTreeKey, V>(
    p0: Seq<BTreeNode<K, V>>,
    pn: Seq<BTreeNode<K, V>>,
    ccs: Seq<Shape>,
    ks: Seq<K::V>,
    lo: Option<K::V>,
    hi: Option<K::V>,
    nxt: u64,
    m: int,
    lid: u64,
    rid: u64,
)
    requires
        parts_wf::<K, V>(p0, ccs, ks, lo, hi, nxt),
        0 <= m < ks.len(),
        p0.len() <= pn.len(),
        forall|i: int, p: u64| 0 <= i < ccs.len() && #[trigger] in_shape(ccs[i], p) ==> p < p0.len() && pn[p as int] == p0[p as int] && p != lid && p != rid,
        lid != rid,
        lid < pn.len(),
        rid < pn.len(),
        pn[lid as int] is Internal,
        key_views(pn[lid as int]->Internal_0.keys@) == ks.subrange(0, m),
        pn[lid as int]->Internal_0.children@.len() == m + 1,
        forall|i: int| 0 <= i <= m ==> pn[lid as int]->Internal_0.children@[i] == shape_id(#[trigger] ccs[i]),
        pn[rid as int] is Internal,
        key_views(pn[rid as int]->Internal_0.keys@) == ks.subrange(m + 1, ks.len() as int),
        pn[rid as int]->Internal_0.children@.len() == ks.len() - m,
        forall|i: int| m + 1 <= i < ccs.len() ==> pn[rid as int]->Internal_0.children@[i - m - 1] == shape_id(#[trigger] ccs[i]),
    ensures
        ({
            let med = ks[m];
            let left = Shape::Node(lid, ccs.subrange(0, m + 1));
            let right = Shape::Node(rid, ccs.subrange(m + 1, ccs.len() as int));
            &&& strictly_in::<K>(lo, hi, med)
            &&& wf_subtree::<K, V>(pn, left, lo, Some(med), first_leaf(right))
            &&& wf_subtree::<K, V>(pn, right, Some(med), hi, nxt)
            &&& first_leaf(left) == first_leaf(ccs[0])
            &&& forall|k: K::V| lt::<K>(k, med) ==> #[trigger] lookup::<K, V>(pn, left, k) == parts_lookup::<K, V>(p0, ccs, ks, k)
            &&& forall|k: K::V| !lt::<K>(k, med) ==> #[trigger] lookup::<K, V>(pn, right, k) == parts_lookup::<K, V>(p0, ccs, ks, k)
            &&& forall|p: u64| #[trigger] in_shape(left, p) ==> p == lid || in_children(ccs, 0, m, p)
            &&& forall|p: u64| #[trigger] in_shape(right, p) ==> p == rid || in_children(ccs, m + 1, ccs.len() - 1, p)
            &&& forall|p: u64| !(#[trigger] in_shape(left, p) && #[trigger] in_shape(right, p))
        }),
{
    let n = ks.len() as int;
    let med = ks[m];
    let w0 = ccs.subrange(0, m + 1);
    let k0 = ks.subrange(0, m);
    let w1 = ccs.subrange(m + 1, n + 1);
    let k1 = ks.subrange(m + 1, n);
    let left = Shape::Node(lid, w0);
    let right = Shape::Node(rid, w1);
    crate::parts::lemma_parts_window::<K, V>(p0, ccs, ks, lo, hi, nxt, 0, m + 1);
    crate::parts::lemma_parts_window::<K, V>(p0, ccs, ks, lo, hi, nxt, m + 1, n + 1);
    assert(child_lo::<K>(lo, ks, 0) == lo);
    assert(child_hi::<K>(hi, ks, m) == Some(med));
    assert(child_lo::<K>(lo, ks, m + 1) == Some(med));
    assert(child_hi::<K>(hi, ks, n) == hi);
    assert(chain_next(ccs, n, nxt) == nxt);
    assert(chain_next(ccs, m, nxt) == first_leaf(ccs[m + 1]));
    assert forall|i: int, p: u64| 0 <= i < w0.len() && #[trigger] in_shape(w0[i], p) && p < p0.len() implies pn[p as int] == p0[p as int] by {
        assert(w0[i] == ccs[i]);
    }
    assert forall|i: int, p: u64| 0 <= i < w1.len() && #[trigger] in_shape(w1[i], p) && p < p0.len() implies pn[p as int] == p0[p as int] by {
        assert(w1[i] == ccs[m + 1 + i]);
    }
    crate::parts::lemma_parts_frame::<K, V>(p0, pn, w0, k0, lo, Some(med), first_leaf(ccs[m + 1]));
    crate::parts::lemma_parts_frame::<K, V>(p0, pn, w1, k1, Some(med), hi, nxt);
    assert forall|i: int| 0 <= i < w0.len() implies !in_shape(#[trigger] w0[i], lid) && pn[lid as int]->Internal_0.children@[i] == shape_id(w0[i]) by {
        assert(w0[i] == ccs[i]);
    }
    assert forall|i: int| 0 <= i < w1.len() implies !in_shape(#[trigger] w1[i], rid) && pn[rid as int]->Internal_0.children@[i] == shape_id(w1[i]) by {
        assert(w1[i] == ccs[m + 1 + i]);
    }
    crate::parts::lemma_node_from_parts::<K, V>(pn, lid, w0, lo, Some(med), first_leaf(ccs[m + 1]));
    crate::parts::lemma_node_from_parts::<K, V>(pn, rid, w1, Some(med), hi, nxt);
    assert(w1[0] == ccs[m + 1]);
    assert(w0[0] == ccs[0]);
    assert(strictly_in::<K>(lo, hi, ks[m]));
    assert forall|k: K::V| lt::<K>(k, med) implies #[trigger] lookup::<K, V>(pn, left, k) == parts_lookup::<K, V>(p0, ccs, ks, k) by {
        lemma_route::<K>(ks, k);
        if route::<K>(ks, k) > m {
            lemma_lt_asymmetric::<K>(k, med);
        }
    }
    assert forall|k: K::V| !lt::<K>(k, med) implies #[trigger] lookup::<K, V>(pn, right, k) == parts_lookup::<K, V>(p0, ccs, ks, k) by {
        lemma_route::<K>(ks, k);
    }
    assert forall|p: u64| #[trigger] in_shape(left, p) implies p == lid || in_children(ccs, 0, m, p) by {
        if p != lid {
            let i = choose|i: int| #![trigger w0[i]] 0 <= i < w0.len() && in_shape(w0[i], p);
            assert(w0[i] == ccs[i]);
        }
    }
    assert forall|p: u64| #[trigger] in_shape(right, p) implies p == rid || in_children(ccs, m + 1, n, p) by {
        if p != rid {
            let i = choose|i: int| #![trigger w1[i]] 0 <= i < w1.len() && in_shape(w1[i], p);
            assert(w1[i] == ccs[m + 1 + i]);
        }
    }
    assert forall|p: u64| !(#[trigger] in_shape(left, p) && #[trigger] in_shape(right, p)) by {
        if in_shape(left, p) && in_shape(right, p) {
            if p == rid {
                let i = choose|i: int| #![trigger w0[i]] 0 <= i < w0.len() && in_shape(w0[i], p);
                assert(w0[i] == ccs[i]);
            } else if p == lid {
                let j = choose|j: int| #![trigger w1[j]] 0 <= j < w1.len() && in_shape(w1[j], p);
                assert(w1[j] == ccs[m + 1 + j]);
            } else {
                let i = choose|i: int| #![trigger w0[i]] 0 <= i < w0.len() && in_shape(w0[i], p);
                let j = choose|j: int| #![trigger w1[j]] 0 <= j < w1.len() && in_shape(w1[j], p);
                assert(w0[i] == ccs[i]);
                assert(w1[j] == ccs[m + 1 + j]);
                assert(!(in_shape(ccs[i], p) && in_shape(ccs[m + 1 + j], p)));
            }
        }
    }
}

/// The two nodes that the children of the adjacent internal children `a`
/// and `a + 1` are regrouped into, cut at separator `m`: both are well
/// formed within the range of the pair, `m` being the bound between them,
/// are built from pages of the pair, and map the keys routed to the pair as
/// the node did.
#[verifier::spinoff_prover]
#[verifier::rlimit(80)]
proof fn lemma_internal_halves<K: BTreeKey, V>(
    p0: Seq<BTreeNode<K, V>>,
    pn: Seq<BTreeNode<K, V>>,
    pid: u64,
    cs: Seq<Shape>,
    lo: Option<K::V>,
    hi: Option<K::V>,
    nxt: u64,
    a: int,
    m: int,
) -> (r: (Shape, Shape))
    requires
        wf_subtree::<K, V>(p0, Shape::Node(pid, cs), lo, hi, nxt),
        0 <= a,
        a + 1 < cs.len(),
        p0[shape_id(cs[a]) as int] is Internal,
        p0[shape_id(cs[a + 1]) as int] is Internal,
        ({
            let ks = node_seps(p0, pid);
            let lid = shape_id(cs[a]);
            let rid = shape_id(cs[a + 1]);
            let cks = node_seps(p0, lid) + seq![ks[a]] + node_seps(p0, rid);
            let ch = p0[lid as int]->Internal_0.children@ + p0[rid as int]->Internal_0.children@;
            &&& 0 <= m < cks.len()
            &&& pn.len() == p0.len()
            &&& forall|p: u64| p < p0.len() && p != lid && p != rid && p != pid ==> #[trigger] pn[p as int] == p0[p as int]
            &&& pn[lid as int] is Internal
            &&& key_views(pn[lid as int]->Internal_0.keys@) == cks.subrange(0, m)
            &&& pn[lid as int]->Internal_0.children@ == ch.subrange(0, m + 1)
            &&& pn[rid as int] is Internal
            &&& key_views(pn[rid as int]->Internal_0.keys@) == cks.subrange(m + 1, cks.len() as int)
            &&& pn[rid as int]->Internal_0.children@ == ch.subrange(m + 1, ch.len() as int)
        }),
    ensures
        ({
            let ks = node_seps(p0, pid);
            let lid = shape_id(cs[a]);
            let rid = shape_id(cs[a + 1]);
            let med = (node_seps(p0, lid) + seq![ks[a]] + node_seps(p0, rid))[m];
            let lo_a = child_lo::<K>(lo, ks, a);
            let hi_b = child_hi::<K>(hi, ks, a + 1);
            let (left, right) = r;
            &&& shape_id(left) == lid
            &&& shape_id(right) == rid
            &&& above::<K>(lo_a, med)
            &&& below::<K>(hi_b, med)
            &&& wf_subtree::<K, V>(pn, left, lo_a, Some(med), first_leaf(right))
            &&& wf_subtree::<K, V>(pn, right, Some(med), hi_b, chain_next(cs, a + 1, nxt))
            &&& first_leaf(left) == first_leaf(cs[a])
            &&& forall|k: K::V|
                a <= route::<K>(ks, k) <= a + 1 && lt::<K>(k, med) ==> #[trigger] lookup::<K, V>(pn, left, k) == lookup::<K, V>(p0, Shape::Node(pid, cs), k)
            &&& forall|k: K::V|
                a <= route::<K>(ks, k) <= a + 1 && !lt::<K>(k, med) ==> #[trigger] lookup::<K, V>(pn, right, k) == lookup::<K, V>(p0, Shape::Node(pid, cs), k)
            &&& forall|p: u64| #[trigger] in_shape(left, p) ==> in_shape(cs[a], p) || in_shape(cs[a + 1], p)
            &&& forall|p: u64| #[trigger] in_shape(right, p) ==> in_shape(cs[a], p) || in_shape(cs[a + 1], p)
            &&& forall|p: u64| !(#[trigger] in_shape(left, p) && #[trigger] in_shape(right, p))
            &&& hgt(left) < hgt(Shape::Node(pid, cs))
            &&& hgt(right) < hgt(Shape::Node(pid, cs))
            &&& left == Shape::Node(lid, (cs[a]->Node_1 + cs[a + 1]->Node_1).subrange(0, m + 1))
            &&& right == Shape::Node(
                rid,
                (cs[a]->Node_1 + cs[a + 1]->Node_1).subrange(m + 1, (cs[a]->Node_1 + cs[a + 1]->Node_1).len() as int),
            )
        }),
{
    let ks = node_seps(p0, pid);
    let lid = shape_id(cs[a]);
    let rid = shape_id(cs[a + 1]);
    lemma_internal_pair::<K, V>(p0, pid, cs, lo, hi, nxt, a);
    let lcs = cs[a]->Node_1;
    let rcs = cs[a + 1]->Node_1;
    let ccs = lcs + rcs;
    let cks = node_seps(p0, lid) + seq![ks[a]] + node_seps(p0, rid);
    let lc = p0[lid as int]->Internal_0.children@;
    let rc = p0[rid as int]->Internal_0.children@;
    let ch = lc + rc;
    let lo_a = child_lo::<K>(lo, ks, a);
    let hi_b = child_hi::<K>(hi, ks, a + 1);
    let nxt_b = chain_next(cs, a + 1, nxt);
    let nl = lcs.len() as int;
    assert forall|i: int| 0 <= i < ccs.len() implies ch[i] == shape_id(#[trigger] ccs[i]) by {
        if i < nl {
            assert(ccs[i] == lcs[i] && ch[i] == lc[i]);
        } else {
            assert(ccs[i] == rcs[i - nl] && ch[i] == rc[i - nl]);
        }
    }
    assert forall|i: int| 0 <= i <= m implies pn[lid as int]->Internal_0.children@[i] == shape_id(#[trigger] ccs[i]) by {
        assert(ch.subrange(0, m + 1)[i] == ch[i]);
    }
    assert forall|i: int| m + 1 <= i < ccs.len() implies pn[rid as int]->Internal_0.children@[i - m - 1] == shape_id(#[trigger] ccs[i]) by {
        assert(ch.subrange(m + 1, ch.len() as int)[i - m - 1] == ch[i]);
    }
    lemma_parts_halves::<K, V>(p0, pn, ccs, cks, lo_a, hi_b, nxt_b, m, lid, rid);
    let left = Shape::Node(lid, ccs.subrange(0, m + 1));
    let right = Shape::Node(rid, ccs.subrange(m + 1, ccs.len() as int));
    assert forall|p: u64| #[trigger] in_shape(left, p) implies in_shape(cs[a], p) || in_shape(cs[a + 1], p) by {
        if p != lid {
            let i = choose|i: int| #![trigger ccs[i]] 0 <= i <= m && in_shape(ccs[i], p);
        }
    }
    assert forall|p: u64| #[trigger] in_shape(right, p) implies in_shape(cs[a], p) || in_shape(cs[a + 1], p) by {
        if p != rid {
            let i = choose|i: int| #![trigger ccs[i]] m + 1 <= i <= ccs.len() - 1 && in_shape(ccs[i], p);
        }
    }
    assert forall|i: int| 0 <= i < m + 1 implies hgt(#[trigger] ccs.subrange(0, m + 1)[i]) < hgt_seq(cs) by {
        assert(ccs.subrange(0, m + 1)[i] == ccs[i]);
    }
    assert forall|i: int| 0 <= i < ccs.len() - (m + 1) implies hgt(#[trigger] ccs.subrange(m + 1, ccs.len() as int)[i]) < hgt_seq(cs) by {
        assert(ccs.subrange(m + 1, ccs.len() as int)[i] == ccs[m + 1 + i]);
    }
    lemma_hgt_below(pid, cs, lid, ccs.subrange(0, m + 1));
    lemma_hgt_below(pid, cs, rid, ccs.subrange(m + 1, ccs.len() as int));
    (left, right)
}

/// The children of the adjacent internal children `a` and `a + 1`, with
/// the separators between them, cut again at separator `m`, which becomes
/// their separator in the node (a child passed to a sibling): the node maps
/// every key as before.
#[verifier::spinoff_prover]
#[verifier::rlimit(80)]
pub proof fn lemma_internal_regroup<K: BTreeKey, V>(
    p0: Seq<BTreeNode<K, V>>,
    pn: Seq<BTreeNode<K, V>>,
    pid: u64,
    cs: Seq<Shape>,
    lo: Option<K::V>,
    hi: Option<K::V>,
    nxt: u64,
    a: int,
    m: int,
) -> (s2: Shape)
    requires
        wf_subtree::<K, V>(p0, Shape::Node(pid, cs), lo, hi, nxt),
        0 <= a,
        a + 1 < cs.len(),
        p0[shape_id(cs[a]) as int] is Internal,
        p0[shape_id(cs[a + 1]) as int] is Internal,
        ({
            let ks = node_seps(p0, pid);
            let lid = shape_id(cs[a]);
            let rid = shape_id(cs[a + 1]);
            let cks = node_seps(p0, lid) + seq![ks[a]] + node_seps(p0, rid);
            let ch = p0[lid as int]->Internal_0.children@ + p0[rid as int]->Internal_0.children@;
            &&& 0 <= m < cks.len()
            &&& pn.len() == p0.len()
            &&& forall|p: u64| p < p0.len() && p != lid && p != rid && p != pid ==> #[trigger] pn[p as int] == p0[p as int]
            &&& pn[lid as int] is Internal
            &&& key_views(pn[lid as int]->Internal_0.keys@) == cks.subrange(0, m)
            &&& pn[lid as int]->Internal_0.children@ == ch.subrange(0, m + 1)
            &&& pn[rid as int] is Internal
            &&& key_views(pn[rid as int]->Internal_0.keys@) == cks.subrange(m + 1, cks.len() as int)
            &&& pn[rid as int]->Internal_0.children@ == ch.subrange(m + 1, ch.len() as int)
            &&& pn[pid as int] is Internal
            &&& key_views(pn[pid as int]->Internal_0.keys@) == ks.update(a, cks[m])
            &&& pn[pid as int]->Internal_0.children@ == p0[pid as int]->Internal_0.children@
        }),
    ensures
        reshaped::<K, V>(p0, pn, Shape::Node(pid, cs), s2, lo, hi, nxt),
        shape_id(s2) == pid,
        s2 == regroup_shape(pid, cs, a, m),
{
    let s1 = Shape::Node(pid, cs);
    let ks = node_seps(p0, pid);
    let lid = shape_id(cs[a]);
    let rid = shape_id(cs[a + 1]);
    let med = (node_seps(p0, lid) + seq![ks[a]] + node_seps(p0, rid))[m];
    let lo_a = child_lo::<K>(lo, ks, a);
    let hi_b = child_hi::<K>(hi, ks, a + 1);
    let nxt_b = chain_next(cs, a + 1, nxt);
    let (left, right) = lemma_internal_halves::<K, V>(p0, pn, pid, cs, lo, hi, nxt, a, m);
    crate::parts::lemma_node_parts::<K, V>(p0, pid, cs, lo, hi, nxt);
    let mk = seq![med];
    let mcs = seq![left, right];
    let cs2 = splice(cs, a, a + 2, mcs);
    assert(mcs[0] == left && mcs[1] == right);
    assert(ks.update(a, med) =~= splice(ks, a, a + 1, mk));
    assert forall|i: int| 0 <= i < cs.len() - 2 + mcs.len() implies pn[pid as int]->Internal_0.children@[i] == shape_id(#[trigger] cs2[i]) by {
        if i < a {
            assert(cs2[i] == cs[i]);
        } else if i == a {
            assert(cs2[i] == left);
        } else if i == a + 1 {
            assert(cs2[i] == right);
        } else {
            assert(cs2[i] == cs[i]);
        }
    }
    assert(child_hi::<K>(hi_b, mk, 0) == Some(med));
    assert(child_lo::<K>(lo_a, mk, 1) == Some(med));
    assert(chain_next(mcs, 0, nxt_b) == first_leaf(right));
    assert forall|k: K::V| a <= route::<K>(ks, k) <= a + 1 implies #[trigger] lookup::<K, V>(pn, mcs[route::<K>(mk, k)], k)
        == lookup::<K, V>(p0, s1, k) by {
        lemma_route_single::<K>(med, k);
    }
    lemma_replace_pair::<K, V>(p0, pn, pid, cs, lo, hi, nxt, a, mk, mcs);
    Shape::Node(pid, cs2)
}

/// The children of the adjacent internal children `a` and `a + 1`, with the
/// separator between them pulled down from the node, glued into the page of
/// child `a`; child `a + 1` leaves the node.
#[verifier::spinoff_prover]
#[verifier::rlimit(80)]
pub proof fn lemma_internal_merge<K: BTreeKey, V>(
    p0: Seq<BTreeNode<K, V>>,
    pn: Seq<BTreeNode<K, V>>,
    pid: u64,
    cs: Seq<Shape>,
    lo: Option<K::V>,
    hi: Option<K::V>,
    nxt: u64,
    a: int,
) -> (s2: Shape)
    requires
        wf_subtree::<K, V>(p0, Shape::Node(pid, cs), lo, hi, nxt),
        0 <= a,
        a + 1 < cs.len(),
        p0[shape_id(cs[a]) as int] is Internal,
        p0[shape_id(cs[a + 1]) as int] is Internal,
        ({
            let ks = node_seps(p0, pid);
            let lid = shape_id(cs[a]);
            let rid = shape_id(cs[a + 1]);
            &&& pn.len() == p0.len()
            &&& forall|p: u64| p < p0.len() && p != lid && p != rid && p != pid ==> #[trigger] pn[p as int] == p0[p as int]
            &&& pn[lid as int] is Internal
            &&& key_views(pn[lid as int]->Internal_0.keys@) == node_seps(p0, lid) + seq![ks[a]] + node_seps(p0, rid)
            &&& pn[lid as int]->Internal_0.children@ == p0[lid as int]->Internal_0.children@ + p0[rid as int]->Internal_0.children@
            &&& pn[pid as int] is Internal
            &&& key_views(pn[pid as int]->Internal_0.keys@) == ks.remove(a)
            &&& pn[pid as int]->Internal_0.children@ == p0[pid as int]->Internal_0.children@.remove(a + 1)
        }),
    ensures
        reshaped::<K, V>(p0, pn, Shape::Node(pid, cs), s2, lo, hi, nxt),
        shape_id(s2) == pid,
        s2 == merge_shape(pid, cs, a),
{
    let s1 = Shape::Node(pid, cs);
    let ks = node_seps(p0, pid);
    let lid = shape_id(cs[a]);
    let rid = shape_id(cs[a + 1]);
    lemma_internal_pair::<K, V>(p0, pid, cs, lo, hi, nxt, a);
    let lcs = cs[a]->Node_1;
    let rcs = cs[a + 1]->Node_1;
    let ccs = lcs + rcs;
    let cks = node_seps(p0, lid) + seq![ks[a]] + node_seps(p0, rid);
    let lc = p0[lid as int]->Internal_0.children@;
    let rc = p0[rid as int]->Internal_0.children@;
    let ch = lc + rc;
    let lo_a = child_lo::<K>(lo, ks, a);
    let hi_b = child_hi::<K>(hi, ks, a + 1);
    let nxt_b = chain_next(cs, a + 1, nxt);
    let nl = lcs.len() as int;
    assert forall|i: int| 0 <= i < ccs.len() implies !in_shape(#[trigger] ccs[i], lid) && pn[lid as int]->Internal_0.children@[i] == shape_id(ccs[i]) by {
        if i < nl {
            assert(ccs[i] == lcs[i] && ch[i] == lc[i]);
        } else {
            assert(ccs[i] == rcs[i - nl] && ch[i] == rc[i - nl]);
        }
    }
    crate::parts::lemma_parts_frame::<K, V>(p0, pn, ccs, cks, lo_a, hi_b, nxt_b);
    crate::parts::lemma_node_from_parts::<K, V>(pn, lid, ccs, lo_a, hi_b, nxt_b);
    let merged = Shape::Node(lid, ccs);
    let mk = Seq::<K::V>::empty();
    let mcs = seq![merged];
    let cs2 = splice(cs, a, a + 2, mcs);
    let ch0 = p0[pid as int]->Internal_0.children@;
    assert(mcs[0] == merged);
    assert(ks.remove(a) =~= splice(ks, a, a + 1, mk));
    assert forall|i: int| 0 <= i < cs.len() - 2 + mcs.len() implies pn[pid as int]->Internal_0.children@[i] == shape_id(#[trigger] cs2[i]) by {
        if i < a {
            assert(cs2[i] == cs[i]);
        } else if i == a {
            assert(cs2[i] == merged);
        } else {
            assert(cs2[i] == cs[i + 1]);
        }
    }
    assert(child_lo::<K>(lo_a, mk, 0) == lo_a);
    assert(child_hi::<K>(hi_b, mk, 0) == hi_b);
    assert(chain_next(mcs, 0, nxt_b) == nxt_b);
    assert forall|j: int, p: u64| 0 <= j < mcs.len() && #[trigger] in_shape(mcs[j], p) implies in_shape(cs[a], p) || in_shape(cs[a + 1], p) by {
        if p != lid {
            let i = choose|i: int| #![trigger ccs[i]] 0 <= i < ccs.len() && in_shape(ccs[i], p);
        }
    }
    assert forall|k: K::V| a <= route::<K>(ks, k) <= a + 1 implies #[trigger] lookup::<K, V>(pn, mcs[route::<K>(mk, k)], k)
        == lookup::<K, V>(p0, s1, k) by {
        assert(route::<K>(mk, k) == 0);
    }
    lemma_hgt_below(pid, cs, lid, ccs);
    lemma_replace_pair::<K, V>(p0, pn, pid, cs, lo, hi, nxt, a, mk, mcs);
    Shape::Node(pid, cs2)
}

} // verus!
