//! Facts for operations that change one child of a node, or one leaf.
use crate::key::{lt, BTreeKey};
use crate::node::{key_views, sorted, BTreeNode, LeafNode};
use crate::parts::{entries_ok, lemma_entries_insert, lemma_entries_remove, lemma_entries_update};
use crate::shape::{
    chain_next, child_hi, child_lo, first_leaf, in_children, in_range, in_shape, leaf_ok,
    lemma_child_wf, lemma_in_child, lemma_in_shape_bounded, lemma_replace_children, lemma_wf_kind,
    lookup, node_seps, replace_children_ok, route, seq_lookup, shape_id, splice, wf_subtree, Shape,
};
use crate::split::{changed_only, lemma_leaf_entries};
use vstd::prelude::*;

verus! {

/// Replacing child `idx` of the node in page `pid` by the well-formed
/// subtree `c2`, made of its pages and new ones, keeps the node well formed;
/// keys routed to that child are looked up in `c2`.
#[verifier::rlimit(40)]
pub proof fn lemma_update_child<K: BTreeKey, V>(
    p0: Seq<BTreeNode<K, V>>,
    pn: Seq<BTreeNode<K, V>>,
    pid: u64,
    cs: Seq<Shape>,
    lo: Option<K::V>,
    hi: Option<K::V>,
    nxt: u64,
    idx: int,
    c2: Shape,
)
    requires
        wf_subtree::<K, V>(p0, Shape::Node(pid, cs), lo, hi, nxt),
        0 <= idx < cs.len(),
        wf_subtree::<K, V>(
            pn,
            c2,
            child_lo::<K>(lo, node_seps(p0, pid), idx),
            child_hi::<K>(hi, node_seps(p0, pid), idx),
            chain_next(cs, idx, nxt),
        ),
        changed_only(p0, pn, cs[idx], c2),
        pn[pid as int] == p0[pid as int],
    ensures
        wf_subtree::<K, V>(pn, Shape::Node(pid, cs.update(idx, c2)), lo, hi, nxt),
        changed_only(p0, pn, Shape::Node(pid, cs), Shape::Node(pid, cs.update(idx, c2))),
        forall|k: K::V|
            #[trigger] lookup::<K, V>(pn, Shape::Node(pid, cs.update(idx, c2)), k) == if route::<K>(
                node_seps(p0, pid),
                k,
            ) == idx {
                lookup::<K, V>(pn, c2, k)
            } else {
                lookup::<K, V>(p0, Shape::Node(pid, cs), k)
            },
{
    let s1 = Shape::Node(pid, cs);
    let ks = node_seps(p0, pid);
    let mk = Seq::<K::V>::empty();
    let mcs = seq![c2];
    let cs2 = cs.update(idx, c2);
    assert(cs2 =~= splice(cs, idx, idx + 1, mcs));
    let s2 = Shape::Node(pid, cs2);
    let lo_c = child_lo::<K>(lo, ks, idx);
    let hi_c = child_hi::<K>(hi, ks, idx);
    let nxt_c = chain_next(cs, idx, nxt);
    lemma_in_shape_bounded::<K, V>(p0, s1, lo, hi, nxt);
    crate::parts::lemma_node_parts::<K, V>(p0, pid, cs, lo, hi, nxt);
    assert(in_shape(s1, pid));
    assert(replace_children_ok::<K, V>(p0, pn, pid, cs, idx, idx, mk, mcs, lo, hi, nxt)) by {
        reveal(replace_children_ok);
        assert(mcs[0] == c2);
        assert(child_lo::<K>(lo_c, mk, 0) == lo_c);
        assert(child_hi::<K>(hi_c, mk, 0) == hi_c);
        assert(chain_next(mcs, 0, nxt_c) == nxt_c);
        assert(splice(ks, idx, idx, mk) =~= ks);
        assert forall|i: int| 0 <= i < cs2.len() implies pn[pid as int]->Internal_0.children@[i] == shape_id(#[trigger] cs2[i]) by {
        }
        assert forall|j: int, p: u64| 0 <= j < mcs.len() && #[trigger] in_shape(mcs[j], p) implies p >= p0.len() || in_children(cs, idx, idx, p) by {
            if p < p0.len() {
                assert(in_shape(cs[idx], p));
            }
        }
        assert forall|p: u64| p < p0.len() && p != pid && !in_children(cs, idx, idx, p) implies #[trigger] pn[p as int] == p0[p as int] by {
            if in_shape(cs[idx], p) {
                assert(in_children(cs, idx, idx, p));
            }
            if in_shape(s1, p) {
                let i = choose|i: int| #![trigger cs[i]] 0 <= i < cs.len() && in_shape(cs[i], p);
                if i == idx {
                    assert(in_children(cs, idx, idx, p));
                }
            }
        }
    }
    lemma_replace_children::<K, V>(p0, pn, pid, cs, idx, idx, mk, mcs, lo, hi, nxt);
    assert forall|p: u64| p < p0.len() && !in_shape(s1, p) implies #[trigger] pn[p as int] == p0[p as int] by {
        if in_shape(cs[idx], p) {
            lemma_in_child(pid, cs, idx, p);
        }
    }
    assert forall|k: K::V| #[trigger] lookup::<K, V>(pn, s2, k) == if route::<K>(ks, k) == idx {
        lookup::<K, V>(pn, c2, k)
    } else {
        lookup::<K, V>(p0, s1, k)
    } by {
        assert(route::<K>(mk, k) == 0);
    }
}

/// Writing new entries into a leaf page: the leaf stays well formed when the
/// entries are, and maps keys as the entries do.
#[verifier::rlimit(50)]
pub proof fn lemma_rewrite_leaf<K: BTreeKey, V>(
    p0: Seq<BTreeNode<K, V>>,
    pn: Seq<BTreeNode<K, V>>,
    id: u64,
    lo: Option<K::V>,
    hi: Option<K::V>,
    nxt: u64,
)
    requires
        wf_subtree::<K, V>(p0, Shape::Leaf(id), lo, hi, nxt),
        pn.len() == p0.len(),
        forall|p: u64| p < p0.len() && p != id ==> #[trigger] pn[p as int] == p0[p as int],
        pn[id as int] is Leaf,
        pn[id as int]->Leaf_0.next_leaf == p0[id as int]->Leaf_0.next_leaf,
        entries_ok::<K, V>(key_views(pn[id as int]->Leaf_0.keys@), pn[id as int]->Leaf_0.values@, lo, hi),
    ensures
        wf_subtree::<K, V>(pn, Shape::Leaf(id), lo, hi, nxt),
        changed_only(p0, pn, Shape::Leaf(id), Shape::Leaf(id)),
        forall|k: K::V|
            #[trigger] lookup::<K, V>(pn, Shape::Leaf(id), k) == seq_lookup::<K, V>(
                key_views(pn[id as int]->Leaf_0.keys@),
                pn[id as int]->Leaf_0.values@,
                k,
            ),
        forall|k: K::V|
            #[trigger] lookup::<K, V>(p0, Shape::Leaf(id), k) == seq_lookup::<K, V>(
                key_views(p0[id as int]->Leaf_0.keys@),
                p0[id as int]->Leaf_0.values@,
                k,
            ),
{
    reveal(wf_subtree);
    lemma_leaf_entries::<K, V>(pn[id as int]->Leaf_0, lo, hi);
    lemma_leaf_entries::<K, V>(p0[id as int]->Leaf_0, lo, hi);
}

} // verus!
