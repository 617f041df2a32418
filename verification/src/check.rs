//! Checking pages read back from storage: do they form a well-formed tree,
//! and if so, which shape.
use crate::key::{group_key_order, le, lt, BTreeKey, KeyOrdering};
use crate::node::{key_views, sorted, BTreeNode, InternalNode, LeafNode, NO_PAGE};
use crate::parts::{entries_ok, lemma_node_parts};
use crate::shape::{
    above, below, chain_next, child_hi, child_lo, children_disjoint, first_leaf, in_range, in_shape,
    internal_ok, leaf_ok, lemma_child_wf, lemma_in_child, lemma_wf_kind, node_seps, pairwise_disjoint,
    shape_id, strictly_in, wf_subtree, Shape,
};
use crate::split::lemma_leaf_entries;
use vstd::prelude::*;

verus! {

broadcast use group_key_order;

/// The number of pages not visited yet.
pub open spec fn unvisited(v: Seq<bool>) -> nat
    decreases v.len(),
{
    if v.len() == 0 {
        0
    } else {
        unvisited(v.drop_last()) + if v.last() {
            0nat
        } else {
            1nat
        }
    }
}

/// No page of `s` has been visited.
pub open spec fn free_of(s: Shape, v: Seq<bool>) -> bool {
    forall|p: u64| #[trigger] in_shape(s, p) ==> p < v.len() && !v[p as int]
}

/// The view of an optional key.
pub open spec fn opt_view<K: BTreeKey>(o: Option<&K>) -> Option<K::V> {
    match o {
        Some(k) => Some(k@),
        None => None,
    }
}

/// Visiting one more page leaves one page fewer unvisited.
#[verifier::rlimit(30)]
pub proof fn lemma_unvisited_mark(v: Seq<bool>, i: int)
    requires
        0 <= i < v.len(),
        !v[i],
    ensures
        unvisited(v.update(i, true)) + 1 == unvisited(v),
    decreases v.len(),
{
    let w = v.update(i, true);
    if i == v.len() - 1 {
        assert(w.drop_last() =~= v.drop_last());
    } else {
        lemma_unvisited_mark(v.drop_last(), i);
        assert(w.drop_last() =~= v.drop_last().update(i, true));
        assert(w.last() == v.last());
    }
}

/// Visiting more pages leaves no more unvisited.
#[verifier::rlimit(30)]
pub proof fn lemma_unvisited_mono(v1: Seq<bool>, v2: Seq<bool>)
    requires
        v1.len() == v2.len(),
        forall|i: int| 0 <= i < v1.len() && v1[i] ==> v2[i],
    ensures
        unvisited(v2) <= unvisited(v1),
    decreases v1.len(),
{
    if v1.len() > 0 {
        lemma_unvisited_mono(v1.drop_last(), v2.drop_last());
        assert(v1.last() == v1[v1.len() - 1]);
        assert(v2.last() == v2[v2.len() - 1]);
    }
}

/// No more pages are unvisited than there are.
#[verifier::rlimit(30)]
pub proof fn lemma_unvisited_len(v: Seq<bool>)
    ensures
        unvisited(v) <= v.len(),
    decreases v.len(),
{
    if v.len() > 0 {
        lemma_unvisited_len(v.drop_last());
    }
}

/// A page that is not visited leaves at least one unvisited.
#[verifier::rlimit(30)]
pub proof fn lemma_unvisited_pos(v: Seq<bool>, i: int)
    requires
        0 <= i < v.len(),
        !v[i],
    ensures
        unvisited(v) >= 1,
{
    lemma_unvisited_mark(v, i);
}

/// Two well-formed subtrees with the same root page are the same shape.
#[verifier::rlimit(50)]
pub proof fn lemma_shape_unique<K: BTreeKey, V>(
    pages: Seq<BTreeNode<K, V>>,
    s1: Shape,
    lo1: Option<K::V>,
    hi1: Option<K::V>,
    n1: u64,
    s2: Shape,
    lo2: Option<K::V>,
    hi2: Option<K::V>,
    n2: u64,
)
    requires
        wf_subtree::<K, V>(pages, s1, lo1, hi1, n1),
        wf_subtree::<K, V>(pages, s2, lo2, hi2, n2),
        shape_id(s1) == shape_id(s2),
    ensures
        s1 == s2,
    decreases s1,
{
    lemma_wf_kind::<K, V>(pages, s1, lo1, hi1, n1);
    lemma_wf_kind::<K, V>(pages, s2, lo2, hi2, n2);
    if let Shape::Node(id, cs1) = s1 {
        let cs2 = s2->Node_1;
        assert(s2 == Shape::Node(id, cs2));
        lemma_node_parts::<K, V>(pages, id, cs1, lo1, hi1, n1);
        lemma_node_parts::<K, V>(pages, id, cs2, lo2, hi2, n2);
        assert forall|i: int| 0 <= i < cs1.len() implies cs1[i] == cs2[i] by {
            lemma_child_wf::<K, V>(pages, id, cs1, lo1, hi1, n1, i);
            lemma_child_wf::<K, V>(pages, id, cs2, lo2, hi2, n2, i);
            lemma_shape_unique::<K, V>(
                pages,
                cs1[i],
                child_lo::<K>(lo1, node_seps(pages, id), i),
                child_hi::<K>(hi1, node_seps(pages, id), i),
                chain_next(cs1, i, n1),
                cs2[i],
                child_lo::<K>(lo2, node_seps(pages, id), i),
                child_hi::<K>(hi2, node_seps(pages, id), i),
                chain_next(cs2, i, n2),
            );
        }
        assert(cs1 =~= cs2);
    }
}

/// The keys are in strictly increasing order.
fn keys_sorted<K: BTreeKey>(keys: &Vec<K>) -> (r: bool)
    ensures
        r == sorted::<K>(key_views(keys@)),
{
    let ghost ks = key_views(keys@);
    let n = keys.len();
    if n == 0 {
        return true;
    }
    let mut i: usize = 1;
    while i < n
        invariant
            1 <= i <= n,
            n == keys@.len(),
            ks == key_views(keys@),
            forall|a: int, b: int| 0 <= a < b < i ==> lt::<K>(ks[a], ks[b]),
        decreases n - i,
    {
        let c = keys[i - 1].compare(&keys[i]);
        proof {
            assert(ks[i - 1] == keys@[i - 1]@ && ks[i as int] == keys@[i as int]@);
        }
        match c {
            KeyOrdering::Less => {
                proof {
                    let x = ks[i - 1];
                    let y = ks[i as int];
                    assert(lt::<K>(x, y));
                    assert forall|a: int, b: int| 0 <= a < b < i + 1 implies lt::<K>(ks[a], ks[b]) by {
                        if b == i {
                            if a < i - 1 {
                                assert(lt::<K>(ks[a], x));
                                crate::key::lemma_lt_transitive::<K>(ks[a], x, y);
                            }
                        }
                    }
                }
            },
            _ => {
                return false;
            },
        }
        i = i + 1;
    }
    true
}

/// Every key lies in the range from `lo` (included) to `hi` (excluded).
fn keys_in_range<K: BTreeKey>(keys: &Vec<K>, lo: Option<&K>, hi: Option<&K>) -> (r: bool)
    ensures
        r == forall|i: int| 0 <= i < keys@.len() ==> in_range::<K>(opt_view(lo), opt_view(hi), #[trigger] key_views(keys@)[i]),
{
    let ghost ks = key_views(keys@);
    let n = keys.len();
    let mut i: usize = 0;
    while i < n
        invariant
            i <= n,
            n == keys@.len(),
            ks == key_views(keys@),
            forall|j: int| 0 <= j < i ==> in_range::<K>(opt_view(lo), opt_view(hi), #[trigger] ks[j]),
        decreases n - i,
    {
        proof {
            assert(ks[i as int] == keys@[i as int]@);
        }
        let ok_lo = match lo {
            None => true,
            Some(l) => match keys[i].compare(l) {
                KeyOrdering::Less => false,
                _ => true,
            },
        };
        let ok_hi = match hi {
            None => true,
            Some(h) => match keys[i].compare(h) {
                KeyOrdering::Less => true,
                _ => false,
            },
        };
        proof {
            if let Some(l) = lo {
                crate::key::lemma_lt_total::<K>(ks[i as int], l@);
                if lt::<K>(ks[i as int], l@) {
                    crate::key::lemma_lt_asymmetric::<K>(ks[i as int], l@);
                }
            }
        }
        if !(ok_lo && ok_hi) {
            return false;
        }
        i = i + 1;
    }
    true
}

/// Every key lies strictly between `lo` and `hi`.
fn keys_strictly_in<K: BTreeKey>(keys: &Vec<K>, lo: Option<&K>, hi: Option<&K>) -> (r: bool)
    ensures
        r == forall|i: int| 0 <= i < keys@.len() ==> strictly_in::<K>(opt_view(lo), opt_view(hi), #[trigger] key_views(keys@)[i]),
{
    let ghost ks = key_views(keys@);
    let n = keys.len();
    let mut i: usize = 0;
    while i < n
        invariant
            i <= n,
            n == keys@.len(),
            ks == key_views(keys@),
            forall|j: int| 0 <= j < i ==> strictly_in::<K>(opt_view(lo), opt_view(hi), #[trigger] ks[j]),
        decreases n - i,
    {
        proof {
            assert(ks[i as int] == keys@[i as int]@);
        }
        let ok_lo = match lo {
            None => true,
            Some(l) => match keys[i].compare(l) {
                KeyOrdering::Greater => true,
                _ => false,
            },
        };
        let ok_hi = match hi {
            None => true,
            Some(h) => match keys[i].compare(h) {
                KeyOrdering::Less => true,
                _ => false,
            },
        };
        if !(ok_lo && ok_hi) {
            return false;
        }
        i = i + 1;
    }
    true
}

/// The leaf is well formed in the range and links to `nxt`.
fn check_leaf<K: BTreeKey, V>(l: &LeafNode<K, V>, lo: Option<&K>, hi: Option<&K>, nxt: u64) -> (r: bool)
    ensures
        r == (leaf_ok::<K, V>(*l, opt_view(lo), opt_view(hi)) && l.next_leaf == nxt),
{
    proof {
        lemma_leaf_entries::<K, V>(*l, opt_view(lo), opt_view(hi));
    }
    l.keys.len() == l.values.len() && keys_sorted(&l.keys) && keys_in_range(&l.keys, lo, hi) && l.next_leaf == nxt
}

/// The children `i..` of the internal node `nd` checked so far: the shapes
/// `suf`, well formed in their ranges and linked in turn, `next_first` the
/// first leaf of the first of them; their pages were not visited before
/// (`v1`) and are now (`vis`), and they are the only pages visited since.
#[verifier::opaque]
pub open spec fn suffix_ok<K: BTreeKey, V>(
    pages: Seq<BTreeNode<K, V>>,
    nd: InternalNode<K>,
    lov: Option<K::V>,
    hiv: Option<K::V>,
    nxt: u64,
    i: int,
    suf: Seq<Shape>,
    next_first: u64,
    v1: Seq<bool>,
    vis: Seq<bool>,
) -> bool {
    let ks = key_views(nd.keys@);
    &&& suf.len() == nd.children@.len() - i
    &&& forall|j: int| 0 <= j < suf.len() ==> nd.children@[i + j] == shape_id(#[trigger] suf[j])
    &&& forall|j: int|
        #![trigger suf[j]]
        0 <= j < suf.len() ==> wf_subtree::<K, V>(
            pages,
            suf[j],
            child_lo::<K>(lov, ks, i + j),
            child_hi::<K>(hiv, ks, i + j),
            chain_next(suf, j, nxt),
        )
    &&& suf.len() > 0 ==> next_first == first_leaf(suf[0])
    &&& suf.len() == 0 ==> next_first == nxt
    &&& forall|j: int, p: u64|
        0 <= j < suf.len() && #[trigger] in_shape(suf[j], p) ==> p < pages.len() && !v1[p as int] && vis[p as int]
    &&& forall|p: u64| p < pages.len() && #[trigger] vis[p as int] && !v1[p as int] ==> in_any(suf, p)
    &&& pairwise_disjoint(suf)
}

/// Every well-formed subtree at page `id` whose pages were not visited
/// (`v0`) has the children `suf` from child `i` on.
#[verifier::opaque]
pub open spec fn suffix_complete<K: BTreeKey, V>(
    pages: Seq<BTreeNode<K, V>>,
    id: u64,
    lov: Option<K::V>,
    hiv: Option<K::V>,
    nxt: u64,
    i: int,
    suf: Seq<Shape>,
    v0: Seq<bool>,
) -> bool {
    forall|s: Shape|
        wf_subtree::<K, V>(pages, s, lov, hiv, nxt) && shape_id(s) == id && #[trigger] free_of(s, v0)
            ==> s->Node_1.subrange(i, s->Node_1.len() as int) == suf
}

/// The facts about a well-formed subtree at the internal page `id` that the
/// check relies on.
#[verifier::rlimit(40)]
proof fn lemma_node_facts<K: BTreeKey, V>(
    pages: Seq<BTreeNode<K, V>>,
    id: u64,
    nd: InternalNode<K>,
    lov: Option<K::V>,
    hiv: Option<K::V>,
    nxt: u64,
    s: Shape,
)
    requires
        id < pages.len(),
        pages[id as int] == BTreeNode::<K, V>::Internal(nd),
        wf_subtree::<K, V>(pages, s, lov, hiv, nxt),
        shape_id(s) == id,
    ensures
        s == Shape::Node(id, s->Node_1),
        s->Node_1.len() == nd.children@.len(),
        forall|j: int| 0 <= j < s->Node_1.len() ==> nd.children@[j] == shape_id(#[trigger] s->Node_1[j]),
        forall|j: int| 0 <= j < s->Node_1.len() ==> !in_shape(#[trigger] s->Node_1[j], id),
        pairwise_disjoint(s->Node_1),
        forall|j: int|
            #![trigger s->Node_1[j]]
            0 <= j < s->Node_1.len() ==> wf_subtree::<K, V>(
                pages,
                s->Node_1[j],
                child_lo::<K>(lov, key_views(nd.keys@), j),
                child_hi::<K>(hiv, key_views(nd.keys@), j),
                chain_next(s->Node_1, j, nxt),
            ),
{
    lemma_wf_kind::<K, V>(pages, s, lov, hiv, nxt);
    assert(s == Shape::Node(id, s->Node_1));
    lemma_node_parts::<K, V>(pages, id, s->Node_1, lov, hiv, nxt);
}

/// A child check that finds nothing means the node has no well-formed
/// subtree either.
#[verifier::rlimit(60)]
proof fn lemma_check_fail<K: BTreeKey, V>(
    pages: Seq<BTreeNode<K, V>>,
    id: u64,
    nd: InternalNode<K>,
    lov: Option<K::V>,
    hiv: Option<K::V>,
    nxt: u64,
    i: int,
    suf: Seq<Shape>,
    next_first: u64,
    v0: Seq<bool>,
    v1: Seq<bool>,
    vb: Seq<bool>,
    fuel: int,
)
    requires
        id < pages.len(),
        pages[id as int] == BTreeNode::<K, V>::Internal(nd),
        0 <= i < nd.children@.len(),
        v0.len() == pages.len(),
        v1 == v0.update(id as int, true),
        vb.len() == pages.len(),
        suffix_ok::<K, V>(pages, nd, lov, hiv, nxt, i + 1, suf, next_first, v1, vb),
        unvisited(v0) <= fuel ==> suffix_complete::<K, V>(pages, id, lov, hiv, nxt, i + 1, suf, v0),
        unvisited(vb) < unvisited(v0),
        unvisited(vb) <= fuel - 1 ==> forall|s: Shape|
            !(wf_subtree::<K, V>(
                pages,
                s,
                child_lo::<K>(lov, key_views(nd.keys@), i),
                child_hi::<K>(hiv, key_views(nd.keys@), i),
                next_first,
            ) && shape_id(s) == nd.children@[i] && #[trigger] free_of(s, vb)),
    ensures
        unvisited(v0) <= fuel ==> forall|s: Shape|
            !(wf_subtree::<K, V>(pages, s, lov, hiv, nxt) && shape_id(s) == id && #[trigger] free_of(s, v0)),
{
    reveal(suffix_ok);
    reveal(suffix_complete);
    if unvisited(v0) <= fuel {
        assert forall|s: Shape| !(wf_subtree::<K, V>(pages, s, lov, hiv, nxt) && shape_id(s) == id && #[trigger] free_of(s, v0)) by {
            if wf_subtree::<K, V>(pages, s, lov, hiv, nxt) && shape_id(s) == id && free_of(s, v0) {
                lemma_node_facts::<K, V>(pages, id, nd, lov, hiv, nxt, s);
                let cs = s->Node_1;
                assert(cs.subrange(i + 1, cs.len() as int) == suf);
                let c = cs[i];
                if i + 1 < cs.len() {
                    assert(suf[0] == cs[i + 1]);
                }
                assert(chain_next(cs, i, nxt) == next_first);
                assert forall|p: u64| #[trigger] in_shape(c, p) implies p < vb.len() && !vb[p as int] by {
                    lemma_in_child(id, cs, i, p);
                    assert(in_shape(s, p));
                    assert(p != id);
                    if vb[p as int] {
                        assert(in_any(suf, p));
                        let j = choose|j: int| 0 <= j < suf.len() && #[trigger] in_shape(suf[j], p);
                        assert(suf[j] == cs[i + 1 + j]);
                        assert(!(in_shape(cs[i], p) && in_shape(cs[i + 1 + j], p)));
                    }
                }
                assert(free_of(c, vb));
            }
        }
    }
}

/// A child check that finds the subtree `c` extends the checked children.
#[verifier::rlimit(80)]
proof fn lemma_check_extend<K: BTreeKey, V>(
    pages: Seq<BTreeNode<K, V>>,
    id: u64,
    nd: InternalNode<K>,
    lov: Option<K::V>,
    hiv: Option<K::V>,
    nxt: u64,
    i: int,
    suf: Seq<Shape>,
    next_first: u64,
    c: Shape,
    f: u64,
    v0: Seq<bool>,
    v1: Seq<bool>,
    vb: Seq<bool>,
    va: Seq<bool>,
    fuel: int,
)
    requires
        id < pages.len(),
        pages[id as int] == BTreeNode::<K, V>::Internal(nd),
        0 <= i < nd.children@.len(),
        v0.len() == pages.len(),
        v1 == v0.update(id as int, true),
        vb.len() == pages.len(),
        va.len() == pages.len(),
        suffix_ok::<K, V>(pages, nd, lov, hiv, nxt, i + 1, suf, next_first, v1, vb),
        unvisited(v0) <= fuel ==> suffix_complete::<K, V>(pages, id, lov, hiv, nxt, i + 1, suf, v0),
        forall|p: int| 0 <= p < pages.len() && vb[p] ==> va[p],
        forall|p: int| 0 <= p < pages.len() && v1[p] ==> vb[p],
        wf_subtree::<K, V>(pages, c, child_lo::<K>(lov, key_views(nd.keys@), i), child_hi::<K>(hiv, key_views(nd.keys@), i), next_first),
        shape_id(c) == nd.children@[i],
        f == first_leaf(c),
        free_of(c, vb),
        forall|p: u64| #[trigger] in_shape(c, p) ==> va[p as int],
        forall|p: u64| p < pages.len() && #[trigger] va[p as int] && !vb[p as int] ==> in_shape(c, p),
    ensures
        suffix_ok::<K, V>(pages, nd, lov, hiv, nxt, i, seq![c] + suf, f, v1, va),
        unvisited(v0) <= fuel ==> suffix_complete::<K, V>(pages, id, lov, hiv, nxt, i, seq![c] + suf, v0),
{
    reveal(suffix_ok);
    reveal(suffix_complete);
    let ks = key_views(nd.keys@);
    let s2 = seq![c] + suf;
    assert(s2[0] == c);
    assert forall|j: int| 0 <= j < s2.len() implies nd.children@[i + j] == shape_id(#[trigger] s2[j]) by {
        if j > 0 {
            assert(s2[j] == suf[j - 1]);
        }
    }
    assert forall|j: int| #![trigger s2[j]] 0 <= j < s2.len() implies wf_subtree::<K, V>(
        pages,
        s2[j],
        child_lo::<K>(lov, ks, i + j),
        child_hi::<K>(hiv, ks, i + j),
        chain_next(s2, j, nxt),
    ) by {
        if j == 0 {
            if suf.len() > 0 {
                assert(s2[1] == suf[0]);
            }
            assert(chain_next(s2, 0, nxt) == next_first);
        } else {
            assert(s2[j] == suf[j - 1]);
            if j + 1 < s2.len() {
                assert(s2[j + 1] == suf[j]);
            }
            assert(chain_next(s2, j, nxt) == chain_next(suf, j - 1, nxt));
            assert(i + j == (i + 1) + (j - 1));
        }
    }
    assert forall|j: int, p: u64| 0 <= j < s2.len() && #[trigger] in_shape(s2[j], p) implies p < pages.len() && !v1[p as int] && va[p as int] by {
        if j > 0 {
            assert(s2[j] == suf[j - 1]);
        }
    }
    assert forall|p: u64| p < pages.len() && #[trigger] va[p as int] && !v1[p as int] implies in_any(s2, p) by {
        if vb[p as int] {
            assert(in_any(suf, p));
            let j = choose|j: int| 0 <= j < suf.len() && #[trigger] in_shape(suf[j], p);
            assert(s2[j + 1] == suf[j]);
        } else {
            assert(in_shape(c, p));
        }
    }
    assert forall|a: int, b: int, p: u64| 0 <= a < b < s2.len() implies !(#[trigger] in_shape(s2[a], p) && #[trigger] in_shape(s2[b], p)) by {
        assert(s2[b] == suf[b - 1]);
        if a > 0 {
            assert(s2[a] == suf[a - 1]);
        }
    }
    if unvisited(v0) <= fuel {
        assert forall|s: Shape| wf_subtree::<K, V>(pages, s, lov, hiv, nxt) && shape_id(s) == id && #[trigger] free_of(s, v0)
            implies s->Node_1.subrange(i, s->Node_1.len() as int) == s2 by {
            lemma_node_facts::<K, V>(pages, id, nd, lov, hiv, nxt, s);
            let cs = s->Node_1;
            assert(cs.subrange(i + 1, cs.len() as int) == suf);
            crate::check::lemma_shape_unique::<K, V>(
                pages,
                cs[i],
                child_lo::<K>(lov, ks, i),
                child_hi::<K>(hiv, ks, i),
                chain_next(cs, i, nxt),
                c,
                child_lo::<K>(lov, ks, i),
                child_hi::<K>(hiv, ks, i),
                next_first,
            );
            assert(cs.subrange(i, cs.len() as int) =~= s2) by {
                assert forall|j: int| 0 <= j < s2.len() implies cs.subrange(i, cs.len() as int)[j] == s2[j] by {
                    if j > 0 {
                        assert(s2[j] == suf[j - 1]);
                        assert(suf[j - 1] == cs.subrange(i + 1, cs.len() as int)[j - 1]);
                    }
                }
            }
        }
    }
}

/// All children checked: the node over them is a well-formed subtree.
#[verifier::rlimit(60)]
proof fn lemma_check_done<K: BTreeKey, V>(
    pages: Seq<BTreeNode<K, V>>,
    id: u64,
    nd: InternalNode<K>,
    lov: Option<K::V>,
    hiv: Option<K::V>,
    nxt: u64,
    suf: Seq<Shape>,
    next_first: u64,
    v0: Seq<bool>,
    v1: Seq<bool>,
    va: Seq<bool>,
)
    requires
        id < pages.len(),
        pages[id as int] == BTreeNode::<K, V>::Internal(nd),
        nd.children@.len() == nd.keys@.len() + 1,
        sorted::<K>(key_views(nd.keys@)),
        forall|j: int| 0 <= j < nd.keys@.len() ==> strictly_in::<K>(lov, hiv, #[trigger] key_views(nd.keys@)[j]),
        v0.len() == pages.len(),
        !v0[id as int],
        v1 == v0.update(id as int, true),
        va.len() == pages.len(),
        forall|p: int| 0 <= p < pages.len() && v1[p] ==> va[p],
        suffix_ok::<K, V>(pages, nd, lov, hiv, nxt, 0, suf, next_first, v1, va),
    ensures
        wf_subtree::<K, V>(pages, Shape::Node(id, suf), lov, hiv, nxt),
        next_first == first_leaf(Shape::Node(id, suf)),
        free_of(Shape::Node(id, suf), v0),
        forall|p: u64| #[trigger] in_shape(Shape::Node(id, suf), p) ==> va[p as int],
        forall|p: u64| p < pages.len() && #[trigger] va[p as int] && !v0[p as int] ==> in_shape(Shape::Node(id, suf), p),
{
    reveal(suffix_ok);
    let s = Shape::Node(id, suf);
    let ks = key_views(nd.keys@);
    assert(children_disjoint(suf, id)) by {
        reveal(children_disjoint);
        assert forall|j: int| 0 <= j < suf.len() implies !in_shape(#[trigger] suf[j], id) by {
            if in_shape(suf[j], id) {
                assert(v1[id as int]);
            }
        }
    }
    assert(internal_ok::<K>(nd, suf, lov, hiv)) by {
        reveal(internal_ok);
        assert forall|j: int| 0 <= j < suf.len() implies nd.children@[j] == shape_id(#[trigger] suf[j]) by {
            assert(nd.children@[0 + j] == shape_id(suf[j]));
        }
    }
    assert(wf_subtree::<K, V>(pages, s, lov, hiv, nxt)) by {
        reveal(wf_subtree);
        assert forall|j: int| #![trigger suf[j]] 0 <= j < suf.len() implies wf_subtree::<K, V>(
            pages,
            suf[j],
            child_lo::<K>(lov, ks, j),
            child_hi::<K>(hiv, ks, j),
            chain_next(suf, j, nxt),
        ) by {
            assert(0 + j == j);
        }
    }
    assert forall|p: u64| #[trigger] in_shape(s, p) implies p < v0.len() && !v0[p as int] && va[p as int] by {
        if p != id {
            let j = choose|j: int| #![trigger suf[j]] 0 <= j < suf.len() && in_shape(suf[j], p);
        }
    }
    assert forall|p: u64| p < pages.len() && #[trigger] va[p as int] && !v0[p as int] implies in_shape(s, p) by {
        if p != id {
            assert(in_any(suf, p));
            let j = choose|j: int| 0 <= j < suf.len() && #[trigger] in_shape(suf[j], p);
            lemma_in_child(id, suf, j, p);
        }
    }
}

/// Page `p` belongs to one of the shapes `cs`.
pub open spec fn in_any(cs: Seq<Shape>, p: u64) -> bool {
    exists|j: int| 0 <= j < cs.len() && #[trigger] in_shape(cs[j], p)
}

/// Check that page `id` is the root of a well-formed subtree within the
/// range from `lo` to `hi` whose last leaf links to `nxt`, none of whose
/// pages was visited before; the pages of the subtree are marked visited.
/// Gives the first leaf and the shape of the subtree, or `None` when there
/// is no such subtree (as long as `fuel` covers the pages not yet visited).
#[verifier::rlimit(100)]
pub fn check_subtree<K: BTreeKey, V>(
    pages: &Vec<BTreeNode<K, V>>,
    id: u64,
    lo: Option<&K>,
    hi: Option<&K>,
    nxt: u64,
    visited: &mut Vec<bool>,
    fuel: u64,
) -> (r: Option<(u64, Ghost<Shape>)>)
    requires
        old(visited)@.len() == pages@.len(),
        pages@.len() <= NO_PAGE,
    ensures
        final(visited)@.len() == pages@.len(),
        forall|p: int| 0 <= p < pages@.len() && old(visited)@[p] ==> final(visited)@[p],
        match r {
            Some((f, gs)) => {
                &&& wf_subtree::<K, V>(pages@, gs@, opt_view(lo), opt_view(hi), nxt)
                &&& shape_id(gs@) == id
                &&& f == first_leaf(gs@)
                &&& free_of(gs@, old(visited)@)
                &&& forall|p: u64| #[trigger] in_shape(gs@, p) ==> final(visited)@[p as int]
                &&& forall|p: u64| p < pages@.len() && #[trigger] final(visited)@[p as int] && !old(visited)@[p as int] ==> in_shape(gs@, p)
            },
            None => unvisited(old(visited)@) <= fuel ==> forall|s: Shape|
                !(wf_subtree::<K, V>(pages@, s, opt_view(lo), opt_view(hi), nxt) && shape_id(s) == id && #[trigger] free_of(s, old(visited)@)),
        },
    decreases fuel,
{
    let ghost v0 = visited@;
    let ghost lov = opt_view(lo);
    let ghost hiv = opt_view(hi);
    let n = pages.len();
    if fuel == 0 || id >= n as u64 {
        proof {
            if unvisited(v0) <= fuel {
                assert forall|s: Shape| !(wf_subtree::<K, V>(pages@, s, lov, hiv, nxt) && shape_id(s) == id && #[trigger] free_of(s, v0)) by {
                    if wf_subtree::<K, V>(pages@, s, lov, hiv, nxt) && shape_id(s) == id && free_of(s, v0) {
                        lemma_wf_kind::<K, V>(pages@, s, lov, hiv, nxt);
                        assert(in_shape(s, id));
                        lemma_unvisited_pos(v0, id as int);
                    }
                }
            }
        }
        return None;
    }
    let idx = id as usize;
    if visited[idx] {
        proof {
            assert forall|s: Shape| !(wf_subtree::<K, V>(pages@, s, lov, hiv, nxt) && shape_id(s) == id && #[trigger] free_of(s, v0)) by {
                if wf_subtree::<K, V>(pages@, s, lov, hiv, nxt) && shape_id(s) == id && free_of(s, v0) {
                    lemma_wf_kind::<K, V>(pages@, s, lov, hiv, nxt);
                    assert(in_shape(s, id));
                }
            }
        }
        return None;
    }
    visited.set(idx, true);
    let ghost v1 = visited@;
    proof {
        assert(v1 == v0.update(idx as int, true));
        lemma_unvisited_mark(v0, idx as int);
        assert forall|p: int| 0 <= p < n && v0[p] implies v1[p] by {
            if p != idx {
                assert(v1[p] == v0[p]);
            }
        }
    }
    match &pages[idx] {
        BTreeNode::Leaf(l) => {
            if check_leaf(l, lo, hi, nxt) {
                proof {
                    reveal(wf_subtree);
                    assert(wf_subtree::<K, V>(pages@, Shape::Leaf(id), lov, hiv, nxt));
                }
                Some((id, Ghost(Shape::Leaf(id))))
            } else {
                proof {
                    assert forall|s: Shape| !(wf_subtree::<K, V>(pages@, s, lov, hiv, nxt) && shape_id(s) == id && #[trigger] free_of(s, v0)) by {
                        if wf_subtree::<K, V>(pages@, s, lov, hiv, nxt) && shape_id(s) == id {
                            lemma_wf_kind::<K, V>(pages@, s, lov, hiv, nxt);
                        }
                    }
                }
                None
            }
        },
        BTreeNode::Internal(nd) => {
            let ghost ks = key_views(nd.keys@);
            let nk = nd.keys.len();
            let nc = nd.children.len();
            let ok = nc > 0 && nc - 1 == nk && keys_sorted(&nd.keys) && keys_strictly_in(&nd.keys, lo, hi);
            if !ok {
                proof {
                    assert forall|s: Shape| !(wf_subtree::<K, V>(pages@, s, lov, hiv, nxt) && shape_id(s) == id && #[trigger] free_of(s, v0)) by {
                        if wf_subtree::<K, V>(pages@, s, lov, hiv, nxt) && shape_id(s) == id {
                            lemma_wf_kind::<K, V>(pages@, s, lov, hiv, nxt);
                            lemma_node_parts::<K, V>(pages@, id, s->Node_1, lov, hiv, nxt);
                            assert(s == Shape::Node(id, s->Node_1));
                        }
                    }
                }
                return None;
            }
            let ghost mut suf: Seq<Shape> = Seq::empty();
            let mut next_first: u64 = nxt;
            let mut i: usize = nc;
            proof {
                reveal(suffix_ok);
                reveal(suffix_complete);
                assert forall|s: Shape| wf_subtree::<K, V>(pages@, s, lov, hiv, nxt) && shape_id(s) == id && #[trigger] free_of(s, v0)
                    implies s->Node_1.subrange(nc as int, s->Node_1.len() as int) == suf by {
                    lemma_wf_kind::<K, V>(pages@, s, lov, hiv, nxt);
                    lemma_node_parts::<K, V>(pages@, id, s->Node_1, lov, hiv, nxt);
                    assert(s == Shape::Node(id, s->Node_1));
                    assert(s->Node_1.subrange(nc as int, s->Node_1.len() as int) =~= suf);
                }
            }
            while i > 0
                invariant
                    i <= nc,
                    nc == nd.children@.len(),
                    nc == nk + 1,
                    nk == nd.keys@.len(),
                    ks == key_views(nd.keys@),
                    sorted::<K>(ks),
                    forall|j: int| 0 <= j < ks.len() ==> strictly_in::<K>(lov, hiv, #[trigger] ks[j]),
                    pages@.len() <= NO_PAGE,
                    n == pages@.len(),
                    idx == id,
                    idx < n,
                    pages@[idx as int] == BTreeNode::<K, V>::Internal(*nd),
                    lov == opt_view(lo),
                    hiv == opt_view(hi),
                    0 < fuel,
                    v1 == v0.update(idx as int, true),
                    v0 == old(visited)@,
                    v0.len() == n,
                    !v0[idx as int],
                    unvisited(v1) + 1 == unvisited(v0),
                    visited@.len() == n,
                    forall|p: int| 0 <= p < n && v1[p] ==> visited@[p],
                    forall|p: int| 0 <= p < n && v0[p] ==> v1[p],
                    unvisited(visited@) <= unvisited(v1),
                    suffix_ok::<K, V>(pages@, *nd, lov, hiv, nxt, i as int, suf, next_first, v1, visited@),
                    unvisited(v0) <= fuel ==> suffix_complete::<K, V>(pages@, id, lov, hiv, nxt, i as int, suf, v0),
                decreases i,
            {
                i = i - 1;
                let clo = if i == 0 {
                    lo
                } else {
                    Some(&nd.keys[i - 1])
                };
                let chi = if i + 1 == nc {
                    hi
                } else {
                    Some(&nd.keys[i])
                };
                proof {
                    if i > 0 {
                        assert(ks[i - 1] == nd.keys@[i - 1]@);
                    }
                    if i + 1 < nc {
                        assert(ks[i as int] == nd.keys@[i as int]@);
                    }
                    assert(opt_view(clo) == child_lo::<K>(lov, ks, i as int));
                    assert(opt_view(chi) == child_hi::<K>(hiv, ks, i as int));
                }
                let ghost vb = visited@;
                let res = check_subtree(pages, nd.children[i], clo, chi, next_first, visited, fuel - 1);
                match res {
                    None => {
                        proof {
                            lemma_check_fail::<K, V>(pages@, id, *nd, lov, hiv, nxt, i as int, suf, next_first, v0, v1, vb, fuel as int);
                            assert forall|p: int| 0 <= p < n && v0[p] implies visited@[p] by {
                                assert(v1[p]);
                                assert(vb[p]);
                            }
                        }
                        return None;
                    },
                    Some((f, gc)) => {
                        proof {
                            lemma_unvisited_mono(vb, visited@);
                            lemma_check_extend::<K, V>(pages@, id, *nd, lov, hiv, nxt, i as int, suf, next_first, gc@, f, v0, v1, vb, visited@, fuel as int);
                            suf = seq![gc@] + suf;
                        }
                        next_first = f;
                    },
                }
            }
            proof {
                lemma_check_done::<K, V>(pages@, id, *nd, lov, hiv, nxt, suf, next_first, v0, v1, visited@);
            }
            Some((next_first, Ghost(Shape::Node(id, suf))))
        },
    }
}

} // verus!
