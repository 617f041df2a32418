//! The B+ tree: search, insert (top-down splits), delete (borrow, then
//! merge) and the entry point of range scans.
//!
//! Every node lives in a page of the `Pager`; a ghost `Shape` records which
//! pages form the tree.
use crate::cursor::{before_start, bounded_len, chain_ok, copy_leaf, lemma_chain_suffix, within_end, Bound, Cursor};
use crate::error::BTreeError;
use crate::order::{leaves, leaves_seq, lemma_tree_chain, run_keys, run_vals};
use crate::scan::{lemma_descend_step, lemma_scan_items, lists, pair_keys, pair_vals};
use crate::key::{group_key_order, le, lemma_lt_asymmetric, lemma_lt_total, lt, BTreeKey, BTreeValue};
use crate::node::{key_views, search_sorted, sorted, BTreeNode, InternalNode, LeafNode, NO_LEAF, NO_PAGE};
use crate::pager::{dirty_covers, is_blank, Pager};
use crate::descend::{lemma_rewrite_leaf, lemma_update_child};
use crate::node::node_keys;
use crate::parts::{entries_ok, lemma_entries_insert, lemma_entries_update, lemma_node_parts};
use crate::shape::{
    chain_next, child_hi, child_lo, first_leaf, hgt, hgt_seq, in_range, in_shape, internal_ok, leaf_ok,
    lemma_child_wf, lemma_hgt_seq_ge, lemma_in_shape_bounded, lemma_route, lemma_route_in_range,
    lemma_route_unique, lemma_wf_kind, lookup, node_seps, route, shape_id, wf_subtree, Shape,
};
use crate::split::{changed_only, lemma_changed_trans, lemma_leaf_entries, lemma_split_internal, lemma_split_leaf};
use crate::rebalance::{
    lemma_internal_merge, lemma_internal_pair, lemma_internal_regroup, lemma_leaf_merge, lemma_leaf_pair,
    lemma_leaf_regroup, lemma_pair_pages, lemma_reshaped_same, reshaped,
};
use crate::balance::{
    balanced, lemma_balanced_frame, lemma_balanced_hgt, lemma_balanced_leaf, lemma_balanced_node, lemma_balanced_unfold,
    lemma_hgt_update, lemma_child_step_balanced, lemma_pair_key_bounds, lemma_route_lowered, lemma_route_raised,
    lemma_route_removed, lemma_merge_balanced, lemma_pair_kinds, lemma_split_route, lemma_regroup_balanced, lemma_split_balanced, nkeys,
};
use vstd::prelude::*;

verus! {

broadcast use {group_key_order, crate::pager::lemma_dirty_covers_trans};

/// The child to descend into for `key`: right of an equal separator.
fn child_index<K: BTreeKey>(keys: &Vec<K>, key: &K) -> (r: usize)
    requires
        sorted::<K>(key_views(keys@)),
    ensures
        r == route::<K>(key_views(keys@), key@),
        r <= keys@.len(),
{
    let ghost ks = key_views(keys@);
    let n = keys.len();
    match search_sorted(keys, key) {
        Ok(i) => {
            proof {
                assert(ks[i as int] == keys@[i as int]@);
                if i + 1 < ks.len() {
                    assert(lt::<K>(ks[i as int], ks[i + 1]));
                }
                lemma_route_unique::<K>(ks, key@, i + 1);
            }
            i + 1
        },
        Err(i) => {
            proof {
                if i > 0 {
                    assert(ks[i - 1] == keys@[i - 1]@);
                }
                if i < ks.len() {
                    assert(ks[i as int] == keys@[i as int]@);
                }
                lemma_route_unique::<K>(ks, key@, i as int);
            }
            i
        },
    }
}

// ---------------------------------------------------------------------------
// The tree.

/// A B+ tree over pages.
///
/// `t` is the minimum degree: a node is full at `2t - 1` keys and is split
/// before an insertion descends into it.
pub struct BTree<K, V> {
    pager: Pager<K, V>,
    t: usize,
    shape: Ghost<Shape>,
}

impl<K: BTreeKey, V> View for BTree<K, V> {
    type V = Map<K::V, V>;

    /// The map from key views to values that the tree holds.
    closed spec fn view(&self) -> Map<K::V, V> {
        Map::new(
            |k: K::V| lookup::<K, V>(self.pager@, self.shape@, k) is Some,
            |k: K::V| lookup::<K, V>(self.pager@, self.shape@, k)->0,
        )
    }
}

impl<K: BTreeKey, V> BTree<K, V> {
    /// The tree is well formed.
    pub closed spec fn wf(&self) -> bool {
        &&& self.pager.wf()
        &&& 2 <= self.t
        &&& shape_id(self.shape@) == self.pager.root_page_id
        &&& wf_subtree::<K, V>(self.pager@, self.shape@, None, None, NO_LEAF)
        &&& zero_first(self.shape@)
    }

    /// The minimum degree.
    pub closed spec fn order(&self) -> usize {
        self.t
    }

    /// The number of levels of internal nodes above the leaves.
    pub closed spec fn height(&self) -> nat {
        hgt(self.shape@)
    }

    /// The tree is balanced: every node holds at most `2t - 1` keys, every
    /// node but the root at least `t - 1`, and all leaves lie at the same
    /// depth.
    pub closed spec fn balanced(&self) -> bool {
        balanced::<K, V>(self.pager@, self.shape@, self.t as int, hgt(self.shape@))
    }

    /// The root holds `2t - 1` keys: the next insertion splits it and the
    /// tree grows by one level.
    pub closed spec fn root_full(&self) -> bool {
        nkeys(self.pager@, self.pager.root_page_id) >= 2 * self.t - 1
    }

    /// The root is a leaf or holds at least one key.
    pub closed spec fn root_has_key(&self) -> bool {
        self.shape@ is Leaf || nkeys(self.pager@, self.pager.root_page_id) >= 1
    }

    /// The pages of the tree.
    pub closed spec fn pages(&self) -> Pager<K, V> {
        self.pager
    }

    /// The pager that holds the tree's pages.
    pub fn pager(&self) -> (r: &Pager<K, V>)
        ensures
            *r == self.pages(),
    {
        &self.pager
    }

    /// The ids of the pages written since the last flush, in increasing
    /// order; afterwards no page is dirty. The tree is unchanged.
    pub fn take_dirty(&mut self) -> (r: Vec<u64>)
        requires
            old(self).wf(),
        ensures
            final(self).wf(),
            final(self)@ == old(self)@,
            final(self).pages()@ == old(self).pages()@,
            final(self).pages().root_page_id == old(self).pages().root_page_id,
            final(self).pages().next_page_id == old(self).pages().next_page_id,
            final(self).pages().dirty_ids() == Set::<u64>::empty(),
            r@.to_set() == old(self).pages().dirty_ids(),
            forall|i: int, j: int| 0 <= i < j < r@.len() ==> r@[i] < r@[j],
    {
        self.pager.take_dirty()
    }
}

/// Page 0 belongs to the subtree `s` only as its first leaf, so no leaf
/// links to it and a link to page 0 can mean no next leaf.
pub open spec fn zero_first(s: Shape) -> bool {
    in_shape(s, NO_LEAF) ==> first_leaf(s) == NO_LEAF
}

/// A step that changes only the pages of a subtree and new pages, and keeps
/// its first leaf, keeps page 0 out of all places but the first leaf.
pub proof fn lemma_zero_first_kept<K, V>(p1: Seq<BTreeNode<K, V>>, p2: Seq<BTreeNode<K, V>>, s1: Shape, s2: Shape)
    requires
        changed_only(p1, p2, s1, s2),
        zero_first(s1),
        0 < p1.len(),
    ensures
        zero_first(s2),
{
    if in_shape(s2, 0) {
        assert(in_shape(s1, 0));
    }
}

/// The pages form a well-formed tree with its root in page `root`.
pub open spec fn valid_tree<K: BTreeKey, V>(pages: Seq<BTreeNode<K, V>>, root: u64) -> bool {
    exists|s: Shape| wf_subtree::<K, V>(pages, s, None, None, NO_LEAF) && shape_id(s) == root && zero_first(s)
}

/// The map held by the well-formed tree with its root in page `root`.
pub open spec fn stored_map<K: BTreeKey, V>(pages: Seq<BTreeNode<K, V>>, root: u64) -> Map<K::V, V> {
    let s = choose|s: Shape| wf_subtree::<K, V>(pages, s, None, None, NO_LEAF) && shape_id(s) == root && zero_first(s);
    Map::new(|k: K::V| lookup::<K, V>(pages, s, k) is Some, |k: K::V| lookup::<K, V>(pages, s, k)->0)
}

impl<K: BTreeKey, V> BTree<K, V> {
    /// Open a tree of minimum degree `t` over the pages of `pager`. A pager
    /// without a root gets an empty leaf as root; the pages of a pager with a
    /// root must form a well-formed tree.
    pub fn open(pager: Pager<K, V>, t: usize) -> (r: Result<Self, BTreeError>)
        requires
            pager.wf(),
        ensures
            t < 2 ==> r == Err::<Self, BTreeError>(BTreeError::InvalidOrder { got: t }),
            t >= 2 && pager.root_page_id == NO_PAGE ==> match r {
                Ok(tree) => {
                    &&& tree.wf()
                    &&& tree.order() == t
                    &&& tree@ == Map::<K::V, V>::empty()
                    &&& tree.balanced()
                    &&& tree.root_has_key()
                    &&& tree.height() == 0
                    &&& dirty_covers(pager, tree.pages())
                    &&& tree.pages().root_page_id == pager.next_page_id
                    &&& tree.pages().next_page_id == pager.next_page_id + 1
                    &&& tree.pages()@.drop_last() == pager@
                },
                Err(e) => e == BTreeError::PagerFull { max: NO_PAGE } && pager.next_page_id == NO_PAGE,
            },
            t >= 2 && pager.root_page_id != NO_PAGE ==> match r {
                Ok(tree) => {
                    &&& valid_tree(pager@, pager.root_page_id)
                    &&& tree.wf()
                    &&& tree.order() == t
                    &&& tree.pages() == pager
                    &&& dirty_covers(pager, tree.pages())
                    &&& tree@ == stored_map(pager@, pager.root_page_id)
                },
                Err(e) => e == BTreeError::CorruptPage { page_id: pager.root_page_id } && !valid_tree(
                    pager@,
                    pager.root_page_id,
                ),
            },
    {
        if t < 2 {
            return Err(BTreeError::InvalidOrder { got: t });
        }
        let mut pager = pager;
        let ghost p0 = pager@;
        if pager.root_page_id == NO_PAGE {
            let root_id = match pager.alloc_page() {
                Ok(id) => id,
                Err(e) => {
                    return Err(e);
                },
            };
            pager.write_node(root_id, BTreeNode::new_leaf());
            pager.root_page_id = root_id;
            let tree = BTree { pager, t, shape: Ghost(Shape::Leaf(root_id)) };
            proof {
                let l = tree.pager@[root_id as int]->Leaf_0;
                assert(key_views(l.keys@) =~= Seq::<K::V>::empty());
                lemma_leaf_entries::<K, V>(l, None, None);
                assert(wf_subtree::<K, V>(tree.pager@, Shape::Leaf(root_id), None, None, NO_LEAF)) by {
                    reveal(wf_subtree);
                }
                assert(tree.pager@.drop_last() =~= p0);
                assert forall|k: K::V| !(#[trigger] lookup::<K, V>(tree.pager@, Shape::Leaf(root_id), k) is Some) by {
                    crate::parts::lemma_seq_lookup::<K, V>(key_views(l.keys@), l.values@, k);
                }
                assert(tree@ =~= Map::<K::V, V>::empty());
                lemma_balanced_leaf::<K, V>(tree.pager@, root_id, t as int);
            }
            return Ok(tree);
        }
        let n = pager.pages.len();
        let mut visited: Vec<bool> = vec![false; n];
        let root = pager.root_page_id;
        let ghost v_init = visited@;
        proof {
            crate::check::lemma_unvisited_len(visited@);
        }
        match crate::check::check_subtree(&pager.pages, root, None, None, NO_LEAF, &mut visited, n as u64) {
            Some((first, gs)) => {
                proof {
                    lemma_wf_kind::<K, V>(p0, gs@, None, None, NO_LEAF);
                }
                if visited[0] && first != NO_LEAF {
                    proof {
                        assert(in_shape(gs@, 0)) by {
                            assert(!v_init[0]);
                        }
                        assert forall|s: Shape| !(wf_subtree::<K, V>(p0, s, None, None, NO_LEAF) && shape_id(s) == root && zero_first(s)) by {
                            if wf_subtree::<K, V>(p0, s, None, None, NO_LEAF) && shape_id(s) == root && zero_first(s) {
                                crate::check::lemma_shape_unique::<K, V>(p0, s, None, None, NO_LEAF, gs@, None, None, NO_LEAF);
                            }
                        }
                    }
                    return Err(BTreeError::CorruptPage { page_id: root });
                }
                let tree = BTree { pager, t, shape: gs };
                proof {
                    if in_shape(gs@, 0) {
                        assert(visited@[0]);
                    }
                    assert(zero_first(gs@));
                    assert(valid_tree(p0, root));
                    let s = choose|s: Shape| wf_subtree::<K, V>(p0, s, None, None, NO_LEAF) && shape_id(s) == root && zero_first(s);
                    crate::check::lemma_shape_unique::<K, V>(p0, s, None, None, NO_LEAF, gs@, None, None, NO_LEAF);
                    assert(tree@ =~= stored_map(p0, root));
                }
                Ok(tree)
            },
            None => {
                proof {
                    assert forall|s: Shape| !(wf_subtree::<K, V>(p0, s, None, None, NO_LEAF) && shape_id(s) == root && zero_first(s)) by {
                        if wf_subtree::<K, V>(p0, s, None, None, NO_LEAF) && shape_id(s) == root && zero_first(s) {
                            lemma_in_shape_bounded::<K, V>(p0, s, None, None, NO_LEAF);
                            assert forall|p: u64| #[trigger] in_shape(s, p) implies p < v_init.len() && !v_init[p as int] by {
                            }
                            assert(crate::check::free_of(s, v_init));
                        }
                    }
                }
                Err(BTreeError::CorruptPage { page_id: root })
            },
        }
    }

    /// Reopening the pages of a tree gives back the same map: they form a
    /// well-formed tree that holds exactly the tree's entries.
    pub proof fn law_reopen(&self)
        requires
            self.wf(),
        ensures
            self.pages().wf(),
            valid_tree(self.pages()@, self.pages().root_page_id),
            stored_map(self.pages()@, self.pages().root_page_id) == self@,
    {
        let p = self.pager@;
        let root = self.pager.root_page_id;
        assert(valid_tree(p, root));
        let s = choose|s: Shape| wf_subtree::<K, V>(p, s, None, None, NO_LEAF) && shape_id(s) == root && zero_first(s);
        crate::check::lemma_shape_unique::<K, V>(p, s, None, None, NO_LEAF, self.shape@, None, None, NO_LEAF);
        assert(stored_map(p, root) =~= self@);
    }

    /// Close the tree, giving back its pager.
    pub fn into_pager(self) -> (r: Pager<K, V>)
        ensures
            r == self.pages(),
    {
        self.pager
    }
}

impl<K: BTreeKey, V: BTreeValue> BTree<K, V> {
    /// Look `key` up in the subtree of shape `s` whose root is in page
    /// `page_id`.
    fn search(&self, page_id: u64, key: &K, Ghost(s): Ghost<Shape>, Ghost(lo): Ghost<Option<K::V>>, Ghost(hi): Ghost<Option<K::V>>, Ghost(nxt): Ghost<u64>) -> (r: Result<V, BTreeError>)
        requires
            self.pager.wf(),
            wf_subtree::<K, V>(self.pager@, s, lo, hi, nxt),
            shape_id(s) == page_id,
        ensures
            r == match lookup::<K, V>(self.pager@, s, key@) {
                Some(v) => Ok(v),
                None => Err(BTreeError::KeyNotFound),
            },
        decreases s,
    {
        proof {
            reveal(wf_subtree);
            reveal(leaf_ok);
            reveal(internal_ok);
        }
        let node = self.pager.read_node(page_id);
        match node {
            BTreeNode::Leaf(leaf) => {
                let ghost ks = key_views(leaf.keys@);
                match search_sorted(&leaf.keys, key) {
                    Ok(i) => {
                        proof {
                            assert(ks[i as int] == leaf.keys@[i as int]@);
                            if i + 1 < ks.len() {
                                assert(lt::<K>(ks[i as int], ks[i + 1]));
                            }
                            lemma_route_unique::<K>(ks, key@, i + 1);
                        }
                        Ok(leaf.values[i].copy_value())
                    },
                    Err(i) => {
                        proof {
                            if i > 0 {
                                assert(ks[i - 1] == leaf.keys@[i - 1]@);
                            }
                            if i < ks.len() {
                                assert(ks[i as int] == leaf.keys@[i as int]@);
                            }
                            lemma_route_unique::<K>(ks, key@, i as int);
                            if i > 0 {
                                lemma_lt_asymmetric::<K>(ks[i - 1], key@);
                            }
                        }
                        Err(BTreeError::KeyNotFound)
                    },
                }
            },
            BTreeNode::Internal(internal) => {
                let ghost cs = s->Node_1;
                let idx = child_index(&internal.keys, key);
                let child = internal.children[idx];
                proof {
                    lemma_child_wf::<K, V>(self.pager@, page_id, cs, lo, hi, nxt, idx as int);
                }
                self.search(child, key, Ghost(cs[idx as int]), Ghost(child_lo::<K>(lo, key_views(internal.keys@), idx as int)), Ghost(child_hi::<K>(hi, key_views(internal.keys@), idx as int)), Ghost(chain_next(cs, idx as int, nxt)))
            },
        }
    }

    /// Look up `key`: its value, or `KeyNotFound`.
    pub fn get(&mut self, key: &K) -> (r: Result<V, BTreeError>)
        requires
            old(self).wf(),
        ensures
            *final(self) == *old(self),
            r == if old(self)@.contains_key(key@) {
                Ok::<V, BTreeError>(old(self)@[key@])
            } else {
                Err(BTreeError::KeyNotFound)
            },
    {
        let root_id = self.pager.root_page_id;
        self.search(root_id, key, Ghost(self.shape@), Ghost(None), Ghost(None), Ghost(NO_LEAF))
    }
}


impl<K: BTreeKey, V> BTree<K, V> {
    /// Insert the separator `sep` after child `idx` of the internal node in
    /// page `parent_id`, and the page `right_id` as the child after it.
    fn insert_separator(&mut self, parent_id: u64, idx: usize, sep: K, right_id: u64)
        requires
            old(self).pager.wf(),
            parent_id < old(self).pager@.len(),
            old(self).pager@[parent_id as int] is Internal,
            idx <= old(self).pager@[parent_id as int]->Internal_0.keys@.len(),
            idx + 1 <= old(self).pager@[parent_id as int]->Internal_0.children@.len(),
        ensures
            final(self).pager.wf(),
            dirty_covers(old(self).pager, final(self).pager),
            final(self).pager.next_page_id == old(self).pager.next_page_id,
            final(self).t == old(self).t,
            final(self).shape == old(self).shape,
            final(self).pager.root_page_id == old(self).pager.root_page_id,
            final(self).pager@ == old(self).pager@.update(parent_id as int, final(self).pager@[parent_id as int]),
            final(self).pager@[parent_id as int] is Internal,
            final(self).pager@[parent_id as int]->Internal_0.keys@ == old(self).pager@[parent_id as int]->Internal_0.keys@.insert(idx as int, sep),
            final(self).pager@[parent_id as int]->Internal_0.children@ == old(self).pager@[parent_id as int]->Internal_0.children@.insert(idx + 1, right_id),
    {
        let node = self.pager.take_node(parent_id);
        match node {
            BTreeNode::Internal(mut n) => {
                let clen = n.children.len();
                n.keys.insert(idx, sep);
                n.children.insert(idx + 1, right_id);
                self.pager.write_node(parent_id, BTreeNode::Internal(n));
            },
            BTreeNode::Leaf(l) => {
                self.pager.write_node(parent_id, BTreeNode::Leaf(l));
            },
        }
    }
}

/// The pages after the child `idx` (in page `cid`) of the internal node in
/// page `pid` is split for minimum degree `t`, its back half going to the
/// new page `rid`. A leaf keeps its first `t - 1` entries and links to the
/// new leaf, which takes the others and the old link; the new leaf's first
/// key is copied up. An internal node keeps its first `t - 1` keys and `t`
/// children; the new node takes the keys after the median `t - 1` and the
/// children after the first `t`; the median moves up. The key that goes up
/// becomes separator `idx` of the parent, and `rid` follows `cid` among its
/// children.
pub open spec fn split_pages<K: BTreeKey, V>(
    p0: Seq<BTreeNode<K, V>>,
    pn: Seq<BTreeNode<K, V>>,
    pid: u64,
    idx: int,
    cid: u64,
    rid: u64,
    t: int,
) -> bool {
    let x = t - 1;
    let op = p0[pid as int]->Internal_0;
    let np = pn[pid as int]->Internal_0;
    &&& pn[pid as int] is Internal
    &&& np.children@ == op.children@.insert(idx + 1, rid)
    &&& match p0[cid as int] {
        BTreeNode::Leaf(l) => {
            &&& pn[cid as int] is Leaf
            &&& pn[cid as int]->Leaf_0.keys@ == l.keys@.subrange(0, x)
            &&& pn[cid as int]->Leaf_0.values@ == l.values@.subrange(0, x)
            &&& pn[cid as int]->Leaf_0.next_leaf == rid
            &&& pn[rid as int] is Leaf
            &&& pn[rid as int]->Leaf_0.keys@ == l.keys@.subrange(x, l.keys@.len() as int)
            &&& pn[rid as int]->Leaf_0.values@ == l.values@.subrange(x, l.values@.len() as int)
            &&& pn[rid as int]->Leaf_0.next_leaf == l.next_leaf
            &&& key_views(np.keys@) == key_views(op.keys@).insert(idx, l.keys@[x]@)
        },
        BTreeNode::Internal(c) => {
            &&& pn[cid as int] is Internal
            &&& pn[cid as int]->Internal_0.keys@ == c.keys@.subrange(0, x)
            &&& pn[cid as int]->Internal_0.children@ == c.children@.subrange(0, x + 1)
            &&& pn[rid as int] is Internal
            &&& pn[rid as int]->Internal_0.keys@ == c.keys@.subrange(x + 1, c.keys@.len() as int)
            &&& pn[rid as int]->Internal_0.children@ == c.children@.subrange(x + 1, c.children@.len() as int)
            &&& key_views(np.keys@) == key_views(op.keys@).insert(idx, c.keys@[x]@)
        },
    }
}

/// What splitting the full child `child_idx` (in page `child_id`) of the
/// node in page `parent_id`, with children `cs`, for minimum degree `t`
/// gives, the pager going from `o` to `n`: on success the pages of
/// `split_pages`, with the new page the next free one, a well-formed node
/// that maps every key as before, and balance kept when the node had a key
/// to spare; on failure (no page id left) nothing changes.
pub open spec fn split_done<K: BTreeKey, V>(
    o: Pager<K, V>,
    n: Pager<K, V>,
    t: int,
    parent_id: u64,
    child_idx: int,
    child_id: u64,
    cs: Seq<Shape>,
    lo: Option<K::V>,
    hi: Option<K::V>,
    nxt: u64,
    r: Result<Ghost<Shape>, BTreeError>,
) -> bool {
    match r {
        Ok(s2) => {
            &&& n.next_page_id == o.next_page_id + 1
            &&& n@.len() == o@.len() + 1
            &&& forall|p: int|
                0 <= p < o@.len() && p != child_id && p != parent_id ==> #[trigger] n@[p]
                    == o@[p]
            &&& split_pages::<K, V>(
                o@,
                n@,
                parent_id,
                child_idx,
                child_id,
                o.next_page_id,
                t,
            )
            &&& nkeys(o@, child_id) <= 2 * t - 1 ==> nkeys(n@, child_id) < 2
                * t - 1 && nkeys(n@, o.next_page_id) < 2 * t - 1
            &&& balanced::<K, V>(o@, Shape::Node(parent_id, cs), t, hgt(Shape::Node(parent_id, cs)))
                && nkeys(o@, parent_id) < 2 * t - 1 ==> balanced::<K, V>(
                n@,
                s2@,
                t,
                hgt(Shape::Node(parent_id, cs)),
            )
            &&& s2@ is Node
            &&& forall|i: int| 0 <= i < s2@->Node_1.len() ==> hgt(#[trigger] s2@->Node_1[i]) < hgt(Shape::Node(parent_id, cs))
            &&& wf_subtree::<K, V>(n@, s2@, lo, hi, nxt)
            &&& changed_only(o@, n@, Shape::Node(parent_id, cs), s2@)
            &&& forall|k: K::V| #[trigger] lookup::<K, V>(n@, s2@, k) == lookup::<K, V>(o@, Shape::Node(parent_id, cs), k)
        },
        Err(e) => {
            &&& e == (BTreeError::PagerFull { max: NO_PAGE })
            &&& n == o
            &&& n.next_page_id == NO_PAGE
        },
    }
}

impl<K: BTreeKey, V> BTree<K, V> {
    /// Split the full child `child_idx` (in page `child_id`) of the internal
    /// node in page `parent_id` into two nodes; the median key goes up into
    /// the parent. A leaf keeps the median as its right half's first key.
        fn split_child(
        &mut self,
        parent_id: u64,
        child_idx: usize,
        child_id: u64,
        Ghost(cs): Ghost<Seq<Shape>>,
        Ghost(lo): Ghost<Option<K::V>>,
        Ghost(hi): Ghost<Option<K::V>>,
        Ghost(nxt): Ghost<u64>,
    ) -> (r: Result<Ghost<Shape>, BTreeError>)
        requires
            old(self).pager.wf(),
            2 <= old(self).t,
            wf_subtree::<K, V>(old(self).pager@, Shape::Node(parent_id, cs), lo, hi, nxt),
            child_idx < cs.len(),
            child_id == shape_id(cs[child_idx as int]),
            node_keys(old(self).pager@[child_id as int]).len() >= 2 * old(self).t - 1,
        ensures
            final(self).pager.wf(),
            dirty_covers(old(self).pager, final(self).pager),
            final(self).t == old(self).t,
            final(self).shape == old(self).shape,
            final(self).pager.root_page_id == old(self).pager.root_page_id,
            split_done::<K, V>(old(self).pager, final(self).pager, old(self).t as int, parent_id, child_idx as int, child_id, cs, lo, hi, nxt, r),
    {
        proof {
            lemma_child_wf::<K, V>(
                old(self).pager@,
                parent_id,
                cs,
                lo,
                hi,
                nxt,
                child_idx as int,
            );
            lemma_wf_kind::<K, V>(
                old(self).pager@,
                cs[child_idx as int],
                child_lo::<K>(lo, node_seps(old(self).pager@, parent_id), child_idx as int),
                child_hi::<K>(hi, node_seps(old(self).pager@, parent_id), child_idx as int),
                chain_next(cs, child_idx as int, nxt),
            );
        }
        if self.pager.read_node(child_id).is_leaf() {
            self.split_leaf_child(parent_id, child_idx, child_id, Ghost(cs), Ghost(lo), Ghost(hi), Ghost(nxt))
        } else {
            self.split_internal_child(parent_id, child_idx, child_id, Ghost(cs), Ghost(lo), Ghost(hi), Ghost(nxt))
        }
    }

    /// `split_child` for a leaf child.
    #[verifier::rlimit(80)]
    fn split_leaf_child(
        &mut self,
        parent_id: u64,
        child_idx: usize,
        child_id: u64,
        Ghost(cs): Ghost<Seq<Shape>>,
        Ghost(lo): Ghost<Option<K::V>>,
        Ghost(hi): Ghost<Option<K::V>>,
        Ghost(nxt): Ghost<u64>,
    ) -> (r: Result<Ghost<Shape>, BTreeError>)
        requires
            old(self).pager.wf(),
            2 <= old(self).t,
            wf_subtree::<K, V>(old(self).pager@, Shape::Node(parent_id, cs), lo, hi, nxt),
            child_idx < cs.len(),
            child_id == shape_id(cs[child_idx as int]),
            node_keys(old(self).pager@[child_id as int]).len() >= 2 * old(self).t - 1,
            old(self).pager@[child_id as int] is Leaf,
        ensures
            final(self).pager.wf(),
            dirty_covers(old(self).pager, final(self).pager),
            final(self).t == old(self).t,
            final(self).shape == old(self).shape,
            final(self).pager.root_page_id == old(self).pager.root_page_id,
            split_done::<K, V>(old(self).pager, final(self).pager, old(self).t as int, parent_id, child_idx as int, child_id, cs, lo, hi, nxt, r),
    {
        let t = self.t;
        let ghost p0 = self.pager@;
        let ghost ks = node_seps(p0, parent_id);
        let ghost lo_c = child_lo::<K>(lo, ks, child_idx as int);
        let ghost hi_c = child_hi::<K>(hi, ks, child_idx as int);
        let ghost nxt_c = chain_next(cs, child_idx as int, nxt);
        proof {
            lemma_child_wf::<K, V>(p0, parent_id, cs, lo, hi, nxt, child_idx as int);
            lemma_wf_kind::<K, V>(p0, cs[child_idx as int], lo_c, hi_c, nxt_c);
            lemma_node_parts::<K, V>(p0, parent_id, cs, lo, hi, nxt);
            lemma_in_shape_bounded::<K, V>(p0, Shape::Node(parent_id, cs), lo, hi, nxt);
            assert(in_shape(cs[child_idx as int], child_id));
            crate::shape::lemma_in_child(parent_id, cs, child_idx as int, child_id);
            reveal(internal_ok);
        }
        let right_id = match self.pager.alloc_page() {
            Ok(id) => id,
            Err(e) => {
                return Err(e);
            },
        };
        let mut left = self.pager.take_leaf(child_id);
        let ghost mut s2: Shape = Shape::Leaf(0);

        proof {
            reveal(leaf_ok);
        }
        let ghost old_keys = left.keys@;
        let ghost old_values = left.values@;
        let ghost old_next = left.next_leaf;
        let right_keys = left.keys.split_off(t - 1);
        let right_values = left.values.split_off(t - 1);
        let sep = right_keys[0].copy_key();
        let right = LeafNode { keys: right_keys, values: right_values, next_leaf: left.next_leaf };
        left.next_leaf = right_id;
        self.pager.write_node(child_id, BTreeNode::Leaf(left));
        self.pager.write_node(right_id, BTreeNode::Leaf(right));
        proof {
            assert(self.pager@[parent_id as int] == p0[parent_id as int]);
        }
        let ghost p_old_parent_keys = self.pager@[parent_id as int]->Internal_0.keys@;
        self.insert_separator(parent_id, child_idx, sep, right_id);
        proof {
            let pn = self.pager@;
            let kv = key_views(old_keys);
            let n = kv.len() as int;
            let x = (t - 1) as int;
            assert(key_views(old_keys.subrange(0, x)) =~= kv.subrange(0, x));
            assert(key_views(old_keys.subrange(x, n)) =~= kv.subrange(x, n));
            assert(sep@ == kv[x]);
            assert(key_views(p_old_parent_keys.insert(child_idx as int, sep)) =~= ks.insert(child_idx as int, kv[x]));
            s2 = lemma_split_leaf::<K, V>(p0, pn, parent_id, cs, lo, hi, nxt, child_idx as int, x, right_id);
            let h = hgt(Shape::Node(parent_id, cs));
            let tt = t as int;
            if balanced::<K, V>(p0, Shape::Node(parent_id, cs), tt, h) && nkeys(p0, parent_id) < 2 * tt - 1 {
                lemma_balanced_unfold::<K, V>(p0, Shape::Node(parent_id, cs), tt, h);
                lemma_balanced_unfold::<K, V>(p0, cs[child_idx as int], tt, (h - 1) as nat);
                assert(cs[child_idx as int] is Leaf);
                lemma_split_balanced::<K, V>(p0, pn, parent_id, cs, lo, hi, nxt, child_idx as int, right_id, 0, 0, tt, h);
            }
        }
    
        Ok(Ghost(s2))
    }


    /// `split_child` for an internal child.
    #[verifier::rlimit(80)]
    fn split_internal_child(
        &mut self,
        parent_id: u64,
        child_idx: usize,
        child_id: u64,
        Ghost(cs): Ghost<Seq<Shape>>,
        Ghost(lo): Ghost<Option<K::V>>,
        Ghost(hi): Ghost<Option<K::V>>,
        Ghost(nxt): Ghost<u64>,
    ) -> (r: Result<Ghost<Shape>, BTreeError>)
        requires
            old(self).pager.wf(),
            2 <= old(self).t,
            wf_subtree::<K, V>(old(self).pager@, Shape::Node(parent_id, cs), lo, hi, nxt),
            child_idx < cs.len(),
            child_id == shape_id(cs[child_idx as int]),
            node_keys(old(self).pager@[child_id as int]).len() >= 2 * old(self).t - 1,
            old(self).pager@[child_id as int] is Internal,
        ensures
            final(self).pager.wf(),
            dirty_covers(old(self).pager, final(self).pager),
            final(self).t == old(self).t,
            final(self).shape == old(self).shape,
            final(self).pager.root_page_id == old(self).pager.root_page_id,
            split_done::<K, V>(old(self).pager, final(self).pager, old(self).t as int, parent_id, child_idx as int, child_id, cs, lo, hi, nxt, r),
    {
        let t = self.t;
        let ghost p0 = self.pager@;
        let ghost ks = node_seps(p0, parent_id);
        let ghost lo_c = child_lo::<K>(lo, ks, child_idx as int);
        let ghost hi_c = child_hi::<K>(hi, ks, child_idx as int);
        let ghost nxt_c = chain_next(cs, child_idx as int, nxt);
        proof {
            lemma_child_wf::<K, V>(p0, parent_id, cs, lo, hi, nxt, child_idx as int);
            lemma_wf_kind::<K, V>(p0, cs[child_idx as int], lo_c, hi_c, nxt_c);
            lemma_node_parts::<K, V>(p0, parent_id, cs, lo, hi, nxt);
            lemma_in_shape_bounded::<K, V>(p0, Shape::Node(parent_id, cs), lo, hi, nxt);
            assert(in_shape(cs[child_idx as int], child_id));
            crate::shape::lemma_in_child(parent_id, cs, child_idx as int, child_id);
            reveal(internal_ok);
        }
        let right_id = match self.pager.alloc_page() {
            Ok(id) => id,
            Err(e) => {
                return Err(e);
            },
        };
        let mut left = self.pager.take_internal(child_id);
        let ghost mut s2: Shape = Shape::Leaf(0);

        let ghost ccs = cs[child_idx as int]->Node_1;
        proof {
            assert(cs[child_idx as int] == Shape::Node(child_id, ccs));
            lemma_node_parts::<K, V>(p0, child_id, ccs, lo_c, hi_c, nxt_c);
        }
        let ghost old_keys = left.keys@;
        let ghost old_children = left.children@;
        let right_keys = left.keys.split_off(t);
        let median = left.keys.pop().unwrap();
        let right_children = left.children.split_off(t);
        let right = InternalNode { keys: right_keys, children: right_children };
        let ghost lk = left.keys@;
        let ghost lc = left.children@;
        let ghost rk = right.keys@;
        let ghost rc = right.children@;
        proof {
            let m = (t - 1) as int;
            assert(lk =~= old_keys.subrange(0, m));
            assert(lc =~= old_children.subrange(0, m + 1));
            assert(median == old_keys[m]);
        }
        self.pager.write_node(child_id, BTreeNode::Internal(left));
        self.pager.write_node(right_id, BTreeNode::Internal(right));
        proof {
            assert(self.pager@[parent_id as int] == p0[parent_id as int]);
        }
        let ghost p_old_parent_keys = self.pager@[parent_id as int]->Internal_0.keys@;
        self.insert_separator(parent_id, child_idx, median, right_id);
        proof {
            let pn = self.pager@;
            let kv = key_views(old_keys);
            let n = kv.len() as int;
            let m = (t - 1) as int;
            assert(key_views(old_keys.subrange(0, m)) =~= kv.subrange(0, m));
            assert(key_views(old_keys.subrange(m + 1, n)) =~= kv.subrange(m + 1, n));
            assert(median@ == kv[m]);
            assert(key_views(p_old_parent_keys.insert(child_idx as int, median)) =~= ks.insert(child_idx as int, kv[m]));
            s2 = lemma_split_internal::<K, V>(p0, pn, parent_id, cs, lo, hi, nxt, child_idx as int, m, right_id);
            assert(old_children.len() == n + 1);
            assert(ccs.len() == n + 1);
            assert(rk == old_keys.subrange(m + 1, n));
            assert(rc == old_children.subrange(m + 1, n + 1));
            let h = hgt(Shape::Node(parent_id, cs));
            let tt = t as int;
            if balanced::<K, V>(p0, Shape::Node(parent_id, cs), tt, h) && nkeys(p0, parent_id) < 2 * tt - 1 {
                lemma_balanced_unfold::<K, V>(p0, Shape::Node(parent_id, cs), tt, h);
                lemma_balanced_unfold::<K, V>(p0, cs[child_idx as int], tt, (h - 1) as nat);
                lemma_split_balanced::<K, V>(p0, pn, parent_id, cs, lo, hi, nxt, child_idx as int, right_id, m, n + 1, tt, h);
            }
        }
    
        Ok(Ghost(s2))
    }
}


/// The result of changing the subtree `s` into `s2` by an insertion of
/// `key` with `value`: on success the subtree maps `key` to `value` and every
/// other key as before; on failure (no page id left) it maps every key as
/// before.
pub open spec fn inserted<K: BTreeKey, V>(
    p0: Seq<BTreeNode<K, V>>,
    pn: Seq<BTreeNode<K, V>>,
    s: Shape,
    s2: Shape,
    key: K::V,
    value: V,
    ok: bool,
) -> bool {
    forall|k: K::V| #[trigger] lookup::<K, V>(pn, s2, k) == if ok && k == key {
        Some(value)
    } else {
        lookup::<K, V>(p0, s, k)
    }
}

impl<K: BTreeKey, V> BTree<K, V> {
    /// Insert `key` with `value` into the subtree rooted at `page_id`,
    /// splitting each full child before descending into it.
    #[verifier::spinoff_prover]
    #[verifier::rlimit(60)]
    fn insert_non_full(
        &mut self,
        page_id: u64,
        key: K,
        value: V,
        Ghost(s): Ghost<Shape>,
        Ghost(lo): Ghost<Option<K::V>>,
        Ghost(hi): Ghost<Option<K::V>>,
        Ghost(nxt): Ghost<u64>,
    ) -> (r: (Result<(), BTreeError>, Ghost<Shape>))
        requires
            old(self).pager.wf(),
            2 <= old(self).t,
            wf_subtree::<K, V>(old(self).pager@, s, lo, hi, nxt),
            shape_id(s) == page_id,
            in_range::<K>(lo, hi, key@),
        ensures
            final(self).pager.wf(),
            dirty_covers(old(self).pager, final(self).pager),
            final(self).t == old(self).t,
            final(self).shape == old(self).shape,
            final(self).pager.root_page_id == old(self).pager.root_page_id,
            wf_subtree::<K, V>(final(self).pager@, r.1@, lo, hi, nxt),
            changed_only(old(self).pager@, final(self).pager@, s, r.1@),
            inserted(old(self).pager@, final(self).pager@, s, r.1@, key@, value, r.0 is Ok),
            r.0 is Err ==> r.0 == Err::<(), BTreeError>(BTreeError::PagerFull { max: NO_PAGE })
                && final(self).pager.next_page_id == NO_PAGE,
            final(self).pager.next_page_id <= old(self).pager.next_page_id + hgt(s),
            old(self).pager.next_page_id + hgt(s) <= NO_PAGE ==> r.0 is Ok,
            hgt(r.1@) <= hgt(s),
            balanced::<K, V>(old(self).pager@, s, old(self).t as int, hgt(s)) && nkeys(old(self).pager@, page_id) < 2
                * old(self).t - 1 ==> balanced::<K, V>(final(self).pager@, r.1@, old(self).t as int, hgt(s)) && nkeys(
                old(self).pager@,
                page_id,
            ) <= nkeys(final(self).pager@, page_id),
        decreases hgt(s),
    {
        let ghost p0 = self.pager@;
        proof {
            lemma_wf_kind::<K, V>(p0, s, lo, hi, nxt);
        }
        let is_leaf = self.pager.read_node(page_id).is_leaf();
        if is_leaf {
            let node = self.pager.take_node(page_id);
            let mut leaf = match node {
                BTreeNode::Leaf(l) => l,
                BTreeNode::Internal(_) => {
                    proof {
                        assert(false);
                    }
                    return (Ok(()), Ghost(s));
                },
            };
            let ghost ks0 = key_views(leaf.keys@);
            let ghost vs0 = leaf.values@;
            proof {
                lemma_leaf_entries::<K, V>(leaf, lo, hi);
            }
            match search_sorted(&leaf.keys, &key) {
                Ok(i) => {
                    leaf.values.set(i, value);
                    proof {
                        assert(ks0[i as int] == key@);
                        lemma_entries_update::<K, V>(ks0, vs0, i as int, value);
                    }
                },
                Err(i) => {
                    let ghost kk = key@;
                    leaf.keys.insert(i, key);
                    leaf.values.insert(i, value);
                    proof {
                        assert forall|j: int| 0 <= j < i implies lt::<K>(#[trigger] ks0[j], kk) by {
                            assert(ks0[j] == key_views(old(self).pager@[page_id as int]->Leaf_0.keys@)[j]);
                        }
                        lemma_entries_insert::<K, V>(ks0, vs0, i as int, kk, value);
                        assert(key_views(leaf.keys@) =~= ks0.insert(i as int, kk));
                        assert forall|j: int| 0 <= j < ks0.insert(i as int, kk).len() implies in_range::<K>(lo, hi, #[trigger] ks0.insert(i as int, kk)[j]) by {
                            if j < i {
                                assert(ks0.insert(i as int, kk)[j] == ks0[j]);
                            } else if j > i {
                                assert(ks0.insert(i as int, kk)[j] == ks0[j - 1]);
                            }
                        }
                    }
                },
            }
            self.pager.write_node(page_id, BTreeNode::Leaf(leaf));
            proof {
                lemma_rewrite_leaf::<K, V>(p0, self.pager@, page_id, lo, hi, nxt);
                if balanced::<K, V>(p0, s, self.t as int, hgt(s)) && nkeys(p0, page_id) < 2 * self.t - 1 {
                    lemma_balanced_unfold::<K, V>(p0, s, self.t as int, hgt(s));
                    lemma_balanced_leaf::<K, V>(self.pager@, page_id, self.t as int);
                }
            }
            (Ok(()), Ghost(s))
        } else {
            let ghost cs = s->Node_1;
            let ghost ks = node_seps(p0, page_id);
            proof {
                assert(s == Shape::Node(page_id, cs));
                lemma_node_parts::<K, V>(p0, page_id, cs, lo, hi, nxt);
            }
            let (child_idx, child_id) = match self.pager.read_node(page_id) {
                BTreeNode::Internal(n) => {
                    let ci = child_index(&n.keys, &key);
                    (ci, n.children[ci])
                },
                BTreeNode::Leaf(_) => {
                    proof {
                        assert(false);
                    }
                    (0, 0)
                },
            };
            proof {
                lemma_child_wf::<K, V>(p0, page_id, cs, lo, hi, nxt, child_idx as int);
                lemma_route_in_range::<K>(ks, lo, hi, key@);
                lemma_hgt_seq_ge(cs, child_idx as int);
                lemma_in_shape_bounded::<K, V>(p0, s, lo, hi, nxt);
                crate::shape::lemma_in_child(page_id, cs, child_idx as int, child_id);
            }
            let full = self.pager.read_node(child_id).is_full(self.t);
            if full {
                match self.split_child(page_id, child_idx, child_id, Ghost(cs), Ghost(lo), Ghost(hi), Ghost(nxt)) {
                    Err(e) => {
                        proof {
                            assert(changed_only(p0, self.pager@, s, s)) by {
                                assert forall|p: u64| #[trigger] in_shape(s, p) implies in_shape(s, p) || p >= p0.len() by {}
                            }
                        }
                        return (Err(e), Ghost(s));
                    },
                    Ok(gs1) => {
                        let ghost s1 = gs1@;
                        let ghost p1 = self.pager@;
                        let ghost cs1 = s1->Node_1;
                        let ghost ks1 = node_seps(p1, page_id);
                        proof {
                            assert(s1 == Shape::Node(page_id, cs1));
                            lemma_node_parts::<K, V>(p1, page_id, cs1, lo, hi, nxt);
                            lemma_in_shape_bounded::<K, V>(p1, s1, lo, hi, nxt);
                        }
                        let (idx1, child1) = match self.pager.read_node(page_id) {
                            BTreeNode::Internal(n) => {
                                let ci = child_index(&n.keys, &key);
                                (ci, n.children[ci])
                            },
                            BTreeNode::Leaf(_) => {
                                proof {
                                    assert(false);
                                }
                                (0, 0)
                            },
                        };
                        proof {
                            lemma_child_wf::<K, V>(p1, page_id, cs1, lo, hi, nxt, idx1 as int);
                            lemma_route_in_range::<K>(ks1, lo, hi, key@);
                            lemma_hgt_seq_ge(cs1, idx1 as int);
                            if balanced::<K, V>(p0, s, self.t as int, hgt(s)) && nkeys(p0, page_id) < 2 * self.t - 1 {
                                let tt = self.t as int;
                                lemma_balanced_unfold::<K, V>(p0, s, tt, hgt(s));
                                lemma_balanced_unfold::<K, V>(p0, cs[child_idx as int], tt, (hgt(s) - 1) as nat);
                                assert(ks1 == ks.insert(child_idx as int, ks1[child_idx as int]));
                                lemma_split_route::<K>(ks, ks1, child_idx as int, key@);
                                lemma_balanced_unfold::<K, V>(p1, s1, tt, hgt(s));
                                lemma_balanced_hgt::<K, V>(p1, cs1[idx1 as int], tt, (hgt(s) - 1) as nat);
                            }
                        }
                        let ghost kk = key@;
                        let (res, Ghost(c2)) = self.insert_non_full(
                            child1,
                            key,
                            value,
                            Ghost(cs1[idx1 as int]),
                            Ghost(child_lo::<K>(lo, ks1, idx1 as int)),
                            Ghost(child_hi::<K>(hi, ks1, idx1 as int)),
                            Ghost(chain_next(cs1, idx1 as int, nxt)),
                        );
                        let ghost pn = self.pager@;
                        proof {
                            assert(!in_shape(cs1[idx1 as int], page_id));
                            lemma_update_child::<K, V>(p1, pn, page_id, cs1, lo, hi, nxt, idx1 as int, c2);
                            lemma_changed_trans::<K, V>(p0, p1, pn, s, s1, Shape::Node(page_id, cs1.update(idx1 as int, c2)));
                            lemma_hgt_update(page_id, cs1, idx1 as int, c2, hgt(s));
                            if balanced::<K, V>(p0, s, self.t as int, hgt(s)) && nkeys(p0, page_id) < 2 * self.t - 1 {
                                lemma_child_step_balanced::<K, V>(p1, pn, page_id, cs1, lo, hi, nxt, idx1 as int, c2, self.t as int, hgt(s));
                            }
                            assert forall|k: K::V| #[trigger] lookup::<K, V>(pn, Shape::Node(page_id, cs1.update(idx1 as int, c2)), k) == if res is Ok && k == kk {
                                Some(value)
                            } else {
                                lookup::<K, V>(p0, s, k)
                            } by {
                                assert(lookup::<K, V>(p1, s1, k) == lookup::<K, V>(p0, s, k));
                                if route::<K>(ks1, k) == idx1 {
                                    assert(lookup::<K, V>(pn, c2, k) == if res is Ok && k == kk { Some(value) } else { lookup::<K, V>(p1, cs1[idx1 as int], k) });
                                }
                            }
                        }
                        (res, Ghost(Shape::Node(page_id, cs1.update(idx1 as int, c2))))
                    },
                }
            } else {
                let ghost kk = key@;
                proof {
                    if balanced::<K, V>(p0, s, self.t as int, hgt(s)) && nkeys(p0, page_id) < 2 * self.t - 1 {
                        lemma_balanced_unfold::<K, V>(p0, s, self.t as int, hgt(s));
                        lemma_balanced_hgt::<K, V>(p0, cs[child_idx as int], self.t as int, (hgt(s) - 1) as nat);
                    }
                }
                let (res, Ghost(c2)) = self.insert_non_full(
                    child_id,
                    key,
                    value,
                    Ghost(cs[child_idx as int]),
                    Ghost(child_lo::<K>(lo, ks, child_idx as int)),
                    Ghost(child_hi::<K>(hi, ks, child_idx as int)),
                    Ghost(chain_next(cs, child_idx as int, nxt)),
                );
                let ghost pn = self.pager@;
                proof {
                    assert(!in_shape(cs[child_idx as int], page_id));
                    lemma_update_child::<K, V>(p0, pn, page_id, cs, lo, hi, nxt, child_idx as int, c2);
                    assert forall|i: int| 0 <= i < cs.len() implies hgt(#[trigger] cs[i]) < hgt(s) by {
                        lemma_hgt_seq_ge(cs, i);
                    }
                    lemma_hgt_update(page_id, cs, child_idx as int, c2, hgt(s));
                    if balanced::<K, V>(p0, s, self.t as int, hgt(s)) && nkeys(p0, page_id) < 2 * self.t - 1 {
                        lemma_child_step_balanced::<K, V>(p0, pn, page_id, cs, lo, hi, nxt, child_idx as int, c2, self.t as int, hgt(s));
                    }
                    assert forall|k: K::V| #[trigger] lookup::<K, V>(pn, Shape::Node(page_id, cs.update(child_idx as int, c2)), k) == if res is Ok && k == kk {
                        Some(value)
                    } else {
                        lookup::<K, V>(p0, s, k)
                    } by {
                        if route::<K>(ks, k) == child_idx {
                            assert(lookup::<K, V>(pn, c2, k) == if res is Ok && k == kk { Some(value) } else { lookup::<K, V>(p0, cs[child_idx as int], k) });
                        }
                    }
                }
                (res, Ghost(Shape::Node(page_id, cs.update(child_idx as int, c2))))
            }
        }
    }
}


impl<K: BTreeKey, V> BTree<K, V> {
    /// Insert `key` with `value`, replacing the value of an equal key.
    /// Fails only when no page id is left for a split.
    pub fn insert(&mut self, key: K, value: V) -> (r: Result<(), BTreeError>)
        requires
            old(self).wf(),
        ensures
            final(self).wf(),
            final(self).order() == old(self).order(),
            match r {
                Ok(()) => final(self)@ == old(self)@.insert(key@, value),
                Err(e) => {
                    &&& e == (BTreeError::PagerFull { max: NO_PAGE })
                    &&& final(self)@ == old(self)@
                    &&& final(self).pages().next_page_id == NO_PAGE
                },
            },
            old(self).pages().next_page_id + old(self).height() + 3 <= NO_PAGE ==> r is Ok,
            final(self).height() <= old(self).height() + 1,
            old(self).balanced() ==> final(self).balanced(),
            old(self).balanced() && old(self).root_has_key() && r is Ok ==> final(self).root_has_key(),
            dirty_covers(old(self).pages(), final(self).pages()),
            r is Ok ==> final(self).pages().next_page_id <= old(self).pages().next_page_id + old(self).height() + 3,
            old(self).balanced() && r is Ok ==> final(self).height() == if old(self).root_full() {
                old(self).height() + 1
            } else {
                old(self).height()
            },
    {
        let ghost p0 = self.pager@;
        let ghost s0 = self.shape@;
        let ghost kk = key@;
        let ghost vv = value;
        let ghost n0 = self.pager.next_page_id;
        let root_id = self.pager.root_page_id;
        proof {
            lemma_wf_kind::<K, V>(p0, s0, None, None, NO_LEAF);
        }
        let full = self.pager.read_node(root_id).is_full(self.t);
        let ghost mut s1: Shape = s0;
        let ghost mut p1 = p0;
        if full {
            let new_root_id = match self.pager.alloc_page() {
                Ok(id) => id,
                Err(e) => {
                    return Err(e);
                },
            };
            let mut children: Vec<u64> = Vec::new();
            children.push(root_id);
            self.pager.write_node(new_root_id, BTreeNode::Internal(InternalNode { keys: Vec::new(), children }));
            self.pager.root_page_id = new_root_id;
            proof {
                let pn = self.pager@;
                lemma_in_shape_bounded::<K, V>(p0, s0, None, None, NO_LEAF);
                crate::shape::lemma_frame::<K, V>(p0, pn, s0, None, None, NO_LEAF);
                crate::parts::lemma_parts_single::<K, V>(pn, s0, None, None, NO_LEAF);
                assert(node_seps(pn, new_root_id) =~= Seq::<K::V>::empty());
                assert(seq![s0][0] == s0);
                crate::parts::lemma_node_from_parts::<K, V>(pn, new_root_id, seq![s0], None, None, NO_LEAF);
                s1 = Shape::Node(new_root_id, seq![s0]);
                p1 = pn;
                assert(zero_first(s1)) by {
                    if in_shape(s1, 0) {
                        assert(new_root_id != 0);
                        assert(seq![s0][0] == s0);
                        assert(in_shape(s0, 0));
                    }
                }
                assert forall|k: K::V| #[trigger] lookup::<K, V>(pn, s1, k) == lookup::<K, V>(p0, s0, k) by {}
                assert(seq![s0].drop_last() =~= Seq::<Shape>::empty());
                assert(hgt_seq(Seq::<Shape>::empty()) == 0);
                assert(hgt_seq(seq![s0]) == hgt(s0));
                let tt = self.t as int;
                if balanced::<K, V>(p0, s0, tt, hgt(s0)) {
                    assert forall|p: u64| #[trigger] in_shape(s0, p) implies pn[p as int] == p0[p as int] by {}
                    lemma_balanced_frame::<K, V>(p0, pn, s0, tt, hgt(s0));
                    assert(nkeys(pn, new_root_id) == 0);
                    lemma_balanced_node::<K, V>(pn, new_root_id, seq![s0], tt, hgt(s0) + 1);
                }
            }
            self.shape = Ghost(s1);
            let ghost cs0 = seq![s0];
            assert(self.pager@[root_id as int] == p0[root_id as int]);
            match self.split_child(new_root_id, 0, root_id, Ghost(cs0), Ghost(None), Ghost(None), Ghost(NO_LEAF)) {
                Err(e) => {
                    proof {
                        assert(self@ =~= old(self)@);
                    }
                    return Err(e);
                },
                Ok(gs2) => {
                    proof {
                        assert(seq![s0][0] == s0);
                        assert(seq![s0].drop_last() =~= Seq::<Shape>::empty());
                        assert(seq![s0].last() == s0);
                        assert(hgt_seq(Seq::<Shape>::empty()) == 0);
                        assert(hgt_seq(seq![s0]) == hgt(s0));
                        crate::shape::lemma_hgt_seq_le(gs2@->Node_1, hgt(s0));
                        assert(forall|k: K::V| #[trigger] lookup::<K, V>(self.pager@, gs2@, k) == lookup::<K, V>(p0, s0, k));
                        let tt = self.t as int;
                        if balanced::<K, V>(p0, s0, tt, hgt(s0)) {
                            lemma_balanced_hgt::<K, V>(self.pager@, gs2@, tt, hgt(s1));
                        }
                        lemma_zero_first_kept::<K, V>(p1, self.pager@, s1, gs2@);
                        s1 = gs2@;
                        p1 = self.pager@;
                    }
                    self.shape = Ghost(s1);
                },
            }
        }
        let root = self.pager.root_page_id;
        let (res, gs3) = self.insert_non_full(root, key, value, Ghost(s1), Ghost(None), Ghost(None), Ghost(NO_LEAF));
        self.shape = gs3;
        proof {
            assert(forall|k: K::V| #[trigger] lookup::<K, V>(p1, s1, k) == lookup::<K, V>(p0, s0, k));
            if balanced::<K, V>(p0, s0, self.t as int, hgt(s0)) {
                lemma_balanced_hgt::<K, V>(self.pager@, gs3@, self.t as int, hgt(s1));
            }
            lemma_wf_kind::<K, V>(p1, s1, None, None, NO_LEAF);
            lemma_zero_first_kept::<K, V>(p1, self.pager@, s1, gs3@);
            if res is Ok {
                assert(self@ =~= old(self)@.insert(kk, vv));
            } else {
                assert(self@ =~= old(self)@);
            }
        }
        res
    }
}


/// What a rebalancing step on the node in page `pid` with children `cs`
/// gives, the pages going from `o` to `n`: a well-formed node `r` over the
/// same range, in the same page, that maps every key as before; and a node
/// that was balanced for minimum degree `t` stays balanced when `keep` held
/// of it.
pub open spec fn step_done<K: BTreeKey, V>(
    o: Seq<BTreeNode<K, V>>,
    n: Seq<BTreeNode<K, V>>,
    t: int,
    pid: u64,
    cs: Seq<Shape>,
    lo: Option<K::V>,
    hi: Option<K::V>,
    nxt: u64,
    r: Shape,
    keep: bool,
) -> bool {
    &&& reshaped::<K, V>(o, n, Shape::Node(pid, cs), r, lo, hi, nxt)
    &&& shape_id(r) == pid
    &&& balanced::<K, V>(o, Shape::Node(pid, cs), t, hgt(Shape::Node(pid, cs))) && keep ==> balanced::<K, V>(
        n,
        r,
        t,
        hgt(Shape::Node(pid, cs)),
    )
}

/// The pages `n` differ from `o` at most in the pages `x`, `y` and `z`.
pub open spec fn only_at<K, V>(o: Seq<BTreeNode<K, V>>, n: Seq<BTreeNode<K, V>>, x: u64, y: u64, z: u64) -> bool {
    &&& n.len() == o.len()
    &&& forall|p: u64| p < o.len() && p != x && p != y && p != z ==> #[trigger] n[p as int] == o[p as int]
}

/// The pages after the last entry of the leaf in page `lid` moves to the
/// front of the leaf in page `cid` (its right sibling, child `a + 1` of the
/// node in page `pid`), and that key becomes separator `a`; for internal
/// siblings, the last child of `lid` moves to the front of `cid`, separator
/// `a` comes down as the first key of `cid`, and the last key of `lid`
/// goes up in its place. Siblings of different kinds stay as they are.
pub open spec fn borrow_left_pages<K: BTreeKey, V>(
    o: Seq<BTreeNode<K, V>>,
    n: Seq<BTreeNode<K, V>>,
    pid: u64,
    a: int,
    lid: u64,
    cid: u64,
) -> bool {
    let op = o[pid as int]->Internal_0;
    let np = n[pid as int]->Internal_0;
    &&& only_at(o, n, pid, lid, cid)
    &&& match (o[lid as int], o[cid as int]) {
        (BTreeNode::Leaf(l), BTreeNode::Leaf(c)) => {
            &&& n[lid as int] is Leaf
            &&& n[lid as int]->Leaf_0.keys@ == l.keys@.drop_last()
            &&& n[lid as int]->Leaf_0.values@ == l.values@.drop_last()
            &&& n[lid as int]->Leaf_0.next_leaf == l.next_leaf
            &&& n[cid as int] is Leaf
            &&& n[cid as int]->Leaf_0.keys@ == c.keys@.insert(0, l.keys@.last())
            &&& n[cid as int]->Leaf_0.values@ == c.values@.insert(0, l.values@.last())
            &&& n[cid as int]->Leaf_0.next_leaf == c.next_leaf
            &&& n[pid as int] is Internal
            &&& key_views(np.keys@) == key_views(op.keys@).update(a, l.keys@.last()@)
            &&& np.children@ == op.children@
        },
        (BTreeNode::Internal(l), BTreeNode::Internal(c)) => {
            &&& n[lid as int] is Internal
            &&& n[lid as int]->Internal_0.keys@ == l.keys@.drop_last()
            &&& n[lid as int]->Internal_0.children@ == l.children@.drop_last()
            &&& n[cid as int] is Internal
            &&& key_views(n[cid as int]->Internal_0.keys@) == key_views(c.keys@).insert(0, key_views(op.keys@)[a])
            &&& n[cid as int]->Internal_0.children@ == c.children@.insert(0, l.children@.last())
            &&& n[pid as int] is Internal
            &&& key_views(np.keys@) == key_views(op.keys@).update(a, l.keys@.last()@)
            &&& np.children@ == op.children@
        },
        _ => n == o,
    }
}

/// The pages after the first entry of the leaf in page `rid` moves to the
/// end of the leaf in page `cid` (its left sibling, child `a` of the node
/// in page `pid`), and the new first key of `rid` becomes separator `a`;
/// for internal siblings, the first child of `rid` moves to the end of
/// `cid`, separator `a` comes down as the last key of `cid`, and the first
/// key of `rid` goes up in its place. Siblings of different kinds stay as
/// they are.
pub open spec fn borrow_right_pages<K: BTreeKey, V>(
    o: Seq<BTreeNode<K, V>>,
    n: Seq<BTreeNode<K, V>>,
    pid: u64,
    a: int,
    cid: u64,
    rid: u64,
) -> bool {
    let op = o[pid as int]->Internal_0;
    let np = n[pid as int]->Internal_0;
    &&& only_at(o, n, pid, cid, rid)
    &&& match (o[cid as int], o[rid as int]) {
        (BTreeNode::Leaf(c), BTreeNode::Leaf(r)) => {
            &&& n[cid as int] is Leaf
            &&& n[cid as int]->Leaf_0.keys@ == c.keys@.push(r.keys@[0])
            &&& n[cid as int]->Leaf_0.values@ == c.values@.push(r.values@[0])
            &&& n[cid as int]->Leaf_0.next_leaf == c.next_leaf
            &&& n[rid as int] is Leaf
            &&& n[rid as int]->Leaf_0.keys@ == r.keys@.remove(0)
            &&& n[rid as int]->Leaf_0.values@ == r.values@.remove(0)
            &&& n[rid as int]->Leaf_0.next_leaf == r.next_leaf
            &&& n[pid as int] is Internal
            &&& key_views(np.keys@) == key_views(op.keys@).update(a, r.keys@[1]@)
            &&& np.children@ == op.children@
        },
        (BTreeNode::Internal(c), BTreeNode::Internal(r)) => {
            &&& n[cid as int] is Internal
            &&& key_views(n[cid as int]->Internal_0.keys@) == key_views(c.keys@).push(key_views(op.keys@)[a])
            &&& n[cid as int]->Internal_0.children@ == c.children@.push(r.children@[0])
            &&& n[rid as int] is Internal
            &&& n[rid as int]->Internal_0.keys@ == r.keys@.remove(0)
            &&& n[rid as int]->Internal_0.children@ == r.children@.remove(0)
            &&& n[pid as int] is Internal
            &&& key_views(np.keys@) == key_views(op.keys@).update(a, r.keys@[0]@)
            &&& np.children@ == op.children@
        },
        _ => n == o,
    }
}

/// The pages after the node in page `rid` (child `a + 1` of the node in
/// page `pid`) is merged into its left sibling in page `lid`: leaves join
/// their entries and `lid` takes over the link of `rid`; internal nodes
/// join their children, with separator `a` coming down between their keys.
/// Separator `a` and child `a + 1` leave the parent. Siblings of different
/// kinds stay as they are.
pub open spec fn merge_pages<K: BTreeKey, V>(
    o: Seq<BTreeNode<K, V>>,
    n: Seq<BTreeNode<K, V>>,
    pid: u64,
    a: int,
    lid: u64,
    rid: u64,
) -> bool {
    let op = o[pid as int]->Internal_0;
    let np = n[pid as int]->Internal_0;
    &&& only_at(o, n, pid, lid, rid)
    &&& match (o[lid as int], o[rid as int]) {
        (BTreeNode::Leaf(l), BTreeNode::Leaf(r)) => {
            &&& n[lid as int] is Leaf
            &&& n[lid as int]->Leaf_0.keys@ == l.keys@ + r.keys@
            &&& n[lid as int]->Leaf_0.values@ == l.values@ + r.values@
            &&& n[lid as int]->Leaf_0.next_leaf == r.next_leaf
            &&& n[pid as int] is Internal
            &&& np.keys@ == op.keys@.remove(a)
            &&& np.children@ == op.children@.remove(a + 1)
        },
        (BTreeNode::Internal(l), BTreeNode::Internal(r)) => {
            &&& n[lid as int] is Internal
            &&& key_views(n[lid as int]->Internal_0.keys@) == key_views(l.keys@).push(key_views(op.keys@)[a]) + key_views(
                r.keys@,
            )
            &&& n[lid as int]->Internal_0.children@ == l.children@ + r.children@
            &&& n[pid as int] is Internal
            &&& np.keys@ == op.keys@.remove(a)
            &&& np.children@ == op.children@.remove(a + 1)
        },
        _ => n == o,
    }
}

impl<K: BTreeKey, V> BTree<K, V> {
    /// Replace the separator `idx` of the internal node in page `pid` by
    /// `key`.
    fn set_separator(&mut self, pid: u64, idx: usize, key: K)
        requires
            old(self).pager.wf(),
            pid < old(self).pager@.len(),
            old(self).pager@[pid as int] is Internal,
            idx < old(self).pager@[pid as int]->Internal_0.keys@.len(),
        ensures
            final(self).pager.wf(),
            dirty_covers(old(self).pager, final(self).pager),
            final(self).pager.next_page_id == old(self).pager.next_page_id,
            final(self).t == old(self).t,
            final(self).shape == old(self).shape,
            final(self).pager.root_page_id == old(self).pager.root_page_id,
            final(self).pager@ == old(self).pager@.update(pid as int, final(self).pager@[pid as int]),
            final(self).pager@[pid as int] is Internal,
            final(self).pager@[pid as int]->Internal_0.keys@ == old(self).pager@[pid as int]->Internal_0.keys@.update(idx as int, key),
            final(self).pager@[pid as int]->Internal_0.children@ == old(self).pager@[pid as int]->Internal_0.children@,
    {
        let mut n = self.pager.take_internal(pid);
        n.keys.set(idx, key);
        self.pager.write_node(pid, BTreeNode::Internal(n));
    }

    /// Remove the separator `idx` of the internal node in page `pid`, and
    /// the child after it.
    fn remove_separator(&mut self, pid: u64, idx: usize)
        requires
            old(self).pager.wf(),
            pid < old(self).pager@.len(),
            old(self).pager@[pid as int] is Internal,
            idx < old(self).pager@[pid as int]->Internal_0.keys@.len(),
            idx + 1 < old(self).pager@[pid as int]->Internal_0.children@.len(),
        ensures
            final(self).pager.wf(),
            dirty_covers(old(self).pager, final(self).pager),
            final(self).pager.next_page_id == old(self).pager.next_page_id,
            final(self).t == old(self).t,
            final(self).shape == old(self).shape,
            final(self).pager.root_page_id == old(self).pager.root_page_id,
            final(self).pager@ == old(self).pager@.update(pid as int, final(self).pager@[pid as int]),
            final(self).pager@[pid as int] is Internal,
            final(self).pager@[pid as int]->Internal_0.keys@ == old(self).pager@[pid as int]->Internal_0.keys@.remove(idx as int),
            final(self).pager@[pid as int]->Internal_0.children@ == old(self).pager@[pid as int]->Internal_0.children@.remove(idx + 1),
    {
        let mut n = self.pager.take_internal(pid);
        let nc = n.children.len();
        n.keys.remove(idx);
        n.children.remove(idx + 1);
        self.pager.write_node(pid, BTreeNode::Internal(n));
    }

    /// A copy of separator `idx` of the internal node in page `pid`.
    fn separator(&self, pid: u64, idx: usize) -> (r: K)
        requires
            self.pager.wf(),
            pid < self.pager@.len(),
            self.pager@[pid as int] is Internal,
            idx < self.pager@[pid as int]->Internal_0.keys@.len(),
        ensures
            r@ == self.pager@[pid as int]->Internal_0.keys@[idx as int]@,
    {
        match self.pager.read_node(pid) {
            BTreeNode::Internal(n) => n.keys[idx].copy_key(),
            BTreeNode::Leaf(_) => vstd::pervasive::unreached(),
        }
    }

    /// Move the last entry (or child) of the left sibling `child_idx - 1`
    /// (in page `left_id`) to the front of child `child_idx` (in page
    /// `child_id`) of the internal node in page `parent_id`, updating the
    /// separator between them. Siblings of different kinds are left alone.
    fn borrow_from_left(
        &mut self,
        parent_id: u64,
        child_idx: usize,
        left_id: u64,
        child_id: u64,
        Ghost(cs): Ghost<Seq<Shape>>,
        Ghost(lo): Ghost<Option<K::V>>,
        Ghost(hi): Ghost<Option<K::V>>,
        Ghost(nxt): Ghost<u64>,
    ) -> (r: Ghost<Shape>)
        requires
            old(self).pager.wf(),
            2 <= old(self).t,
            wf_subtree::<K, V>(old(self).pager@, Shape::Node(parent_id, cs), lo, hi, nxt),
            1 <= child_idx < cs.len(),
            left_id == shape_id(cs[child_idx - 1]),
            child_id == shape_id(cs[child_idx as int]),
            node_keys(old(self).pager@[left_id as int]).len() >= old(self).t,
        ensures
            final(self).pager.wf(),
            dirty_covers(old(self).pager, final(self).pager),
            final(self).pager.next_page_id == old(self).pager.next_page_id,
            final(self).t == old(self).t,
            final(self).shape == old(self).shape,
            final(self).pager.root_page_id == old(self).pager.root_page_id,
            borrow_left_pages::<K, V>(old(self).pager@, final(self).pager@, parent_id, child_idx - 1, left_id, child_id),
            step_done::<K, V>(
                old(self).pager@,
                final(self).pager@,
                old(self).t as int,
                parent_id,
                cs,
                lo,
                hi,
                nxt,
                r@,
                nkeys(old(self).pager@, child_id) <= 2 * old(self).t - 2,
            ),
    {
        let ghost p0 = self.pager@;
        let ghost s1 = Shape::Node(parent_id, cs);
        let a = child_idx - 1;
        proof {
            lemma_pair_pages::<K, V>(p0, parent_id, cs, lo, hi, nxt, a as int);
        }
        let left_is_leaf = self.pager.read_node(left_id).is_leaf();
        let child_is_leaf = self.pager.read_node(child_id).is_leaf();
        if left_is_leaf && child_is_leaf {
            self.borrow_leaf_from_left(parent_id, child_idx, left_id, child_id, Ghost(cs), Ghost(lo), Ghost(hi), Ghost(nxt))
        } else if !left_is_leaf && !child_is_leaf {
            self.borrow_internal_from_left(parent_id, child_idx, left_id, child_id, Ghost(cs), Ghost(lo), Ghost(hi), Ghost(nxt))
        } else {
            proof {
                lemma_reshaped_same::<K, V>(p0, parent_id, cs, lo, hi, nxt);
            }
            Ghost(s1)
        }
    }

    /// `borrow_from_left` for two leaves.
    #[verifier::spinoff_prover]
    #[verifier::rlimit(100)]
    fn borrow_leaf_from_left(
        &mut self,
        parent_id: u64,
        child_idx: usize,
        left_id: u64,
        child_id: u64,
        Ghost(cs): Ghost<Seq<Shape>>,
        Ghost(lo): Ghost<Option<K::V>>,
        Ghost(hi): Ghost<Option<K::V>>,
        Ghost(nxt): Ghost<u64>,
    ) -> (r: Ghost<Shape>)
        requires
            old(self).pager.wf(),
            2 <= old(self).t,
            wf_subtree::<K, V>(old(self).pager@, Shape::Node(parent_id, cs), lo, hi, nxt),
            1 <= child_idx < cs.len(),
            left_id == shape_id(cs[child_idx - 1]),
            child_id == shape_id(cs[child_idx as int]),
            node_keys(old(self).pager@[left_id as int]).len() >= old(self).t,
            old(self).pager@[left_id as int] is Leaf,
            old(self).pager@[child_id as int] is Leaf,
        ensures
            final(self).pager.wf(),
            dirty_covers(old(self).pager, final(self).pager),
            final(self).pager.next_page_id == old(self).pager.next_page_id,
            final(self).t == old(self).t,
            final(self).shape == old(self).shape,
            final(self).pager.root_page_id == old(self).pager.root_page_id,
            borrow_left_pages::<K, V>(old(self).pager@, final(self).pager@, parent_id, child_idx - 1, left_id, child_id),
            step_done::<K, V>(
                old(self).pager@,
                final(self).pager@,
                old(self).t as int,
                parent_id,
                cs,
                lo,
                hi,
                nxt,
                r@,
                nkeys(old(self).pager@, child_id) <= 2 * old(self).t - 2,
            ),
    {
        let ghost p0 = self.pager@;
        let ghost s1 = Shape::Node(parent_id, cs);
        let a = child_idx - 1;
        proof {
            lemma_pair_pages::<K, V>(p0, parent_id, cs, lo, hi, nxt, a as int);
        }

        proof {
            lemma_leaf_pair::<K, V>(p0, parent_id, cs, lo, hi, nxt, a as int);
        }
        let mut left = self.pager.take_leaf(left_id);
        let mut child = self.pager.take_leaf(child_id);
        let ghost lk0 = left.keys@;
        let ghost lv0 = left.values@;
        let ghost ck0 = child.keys@;
        let ghost cv0 = child.values@;
        let borrow_key = left.keys.pop().unwrap();
        let borrow_val = left.values.pop().unwrap();
        let sep = borrow_key.copy_key();
        child.keys.insert(0, borrow_key);
        child.values.insert(0, borrow_val);
        let ghost nl = left;
        let ghost nc = child;
        self.pager.write_node(left_id, BTreeNode::Leaf(left));
        self.pager.write_node(child_id, BTreeNode::Leaf(child));
        self.set_separator(parent_id, a, sep);
        proof {
            let pn = self.pager@;
            let w = lk0.len() - 1;
            let ek = key_views(lk0) + key_views(ck0);
            let ev = lv0 + cv0;
            assert(pn[left_id as int] == BTreeNode::<K, V>::Leaf(nl));
            assert(pn[child_id as int] == BTreeNode::<K, V>::Leaf(nc));
            assert(key_views(nl.keys@) =~= ek.subrange(0, w));
            assert(nl.values@ =~= ev.subrange(0, w));
            assert(key_views(nc.keys@) =~= ek.subrange(w, ek.len() as int));
            assert(nc.values@ =~= ev.subrange(w, ev.len() as int));
            assert(key_views(pn[parent_id as int]->Internal_0.keys@) =~= node_seps(p0, parent_id).update(a as int, ek[w]));
            lemma_leaf_regroup::<K, V>(p0, pn, parent_id, cs, lo, hi, nxt, a as int, w);
            let tt = self.t as int;
            let h = hgt(s1);
            if balanced::<K, V>(p0, s1, tt, h) && nkeys(p0, child_id) <= 2 * tt - 2 {
                lemma_pair_kinds::<K, V>(p0, parent_id, cs, lo, hi, nxt, a as int);
                lemma_balanced_unfold::<K, V>(p0, s1, tt, h);
                lemma_balanced_unfold::<K, V>(p0, cs[a as int], tt, (h - 1) as nat);
                lemma_balanced_unfold::<K, V>(p0, cs[a + 1], tt, (h - 1) as nat);
                lemma_regroup_balanced::<K, V>(p0, pn, parent_id, cs, lo, hi, nxt, a as int, 0, tt, h);
            }
        }
        Ghost(s1)
    }

    /// `borrow_from_left` for two internal nodes.
    #[verifier::spinoff_prover]
    #[verifier::rlimit(100)]
    fn borrow_internal_from_left(
        &mut self,
        parent_id: u64,
        child_idx: usize,
        left_id: u64,
        child_id: u64,
        Ghost(cs): Ghost<Seq<Shape>>,
        Ghost(lo): Ghost<Option<K::V>>,
        Ghost(hi): Ghost<Option<K::V>>,
        Ghost(nxt): Ghost<u64>,
    ) -> (r: Ghost<Shape>)
        requires
            old(self).pager.wf(),
            2 <= old(self).t,
            wf_subtree::<K, V>(old(self).pager@, Shape::Node(parent_id, cs), lo, hi, nxt),
            1 <= child_idx < cs.len(),
            left_id == shape_id(cs[child_idx - 1]),
            child_id == shape_id(cs[child_idx as int]),
            node_keys(old(self).pager@[left_id as int]).len() >= old(self).t,
            old(self).pager@[left_id as int] is Internal,
            old(self).pager@[child_id as int] is Internal,
        ensures
            final(self).pager.wf(),
            dirty_covers(old(self).pager, final(self).pager),
            final(self).pager.next_page_id == old(self).pager.next_page_id,
            final(self).t == old(self).t,
            final(self).shape == old(self).shape,
            final(self).pager.root_page_id == old(self).pager.root_page_id,
            borrow_left_pages::<K, V>(old(self).pager@, final(self).pager@, parent_id, child_idx - 1, left_id, child_id),
            step_done::<K, V>(
                old(self).pager@,
                final(self).pager@,
                old(self).t as int,
                parent_id,
                cs,
                lo,
                hi,
                nxt,
                r@,
                nkeys(old(self).pager@, child_id) <= 2 * old(self).t - 2,
            ),
    {
        let ghost p0 = self.pager@;
        let ghost s1 = Shape::Node(parent_id, cs);
        let a = child_idx - 1;
        proof {
            lemma_pair_pages::<K, V>(p0, parent_id, cs, lo, hi, nxt, a as int);
        }

        proof {
            lemma_internal_pair::<K, V>(p0, parent_id, cs, lo, hi, nxt, a as int);
        }
        let sep = self.separator(parent_id, a);
        let mut left = self.pager.take_internal(left_id);
        let mut child = self.pager.take_internal(child_id);
        let ghost lk0 = left.keys@;
        let ghost lc0 = left.children@;
        let ghost ck0 = child.keys@;
        let ghost cc0 = child.children@;
        let borrow_key = left.keys.pop().unwrap();
        let borrow_child = left.children.pop().unwrap();
        child.keys.insert(0, sep);
        child.children.insert(0, borrow_child);
        let ghost nl = left;
        let ghost nc = child;
        let ghost bk = borrow_key@;
        self.pager.write_node(left_id, BTreeNode::Internal(left));
        self.pager.write_node(child_id, BTreeNode::Internal(child));
        self.set_separator(parent_id, a, borrow_key);
        let ghost mut s2 = s1;
        proof {
            let pn = self.pager@;
            let ks = node_seps(p0, parent_id);
            let m = lk0.len() - 1;
            let cks = key_views(lk0) + seq![ks[a as int]] + key_views(ck0);
            let ch = lc0 + cc0;
            assert(pn[left_id as int] == BTreeNode::<K, V>::Internal(nl));
            assert(pn[child_id as int] == BTreeNode::<K, V>::Internal(nc));
            assert(key_views(nl.keys@) =~= cks.subrange(0, m));
            assert(nl.children@ =~= ch.subrange(0, m + 1));
            assert(key_views(nc.keys@) =~= cks.subrange(m + 1, cks.len() as int));
            assert(nc.children@ =~= ch.subrange(m + 1, ch.len() as int));
            assert(bk == cks[m]);
            assert(key_views(pn[parent_id as int]->Internal_0.keys@) =~= ks.update(a as int, cks[m]));
            assert(borrow_left_pages::<K, V>(p0, pn, parent_id, a as int, left_id, child_id)) by {
                assert(key_views(nc.keys@) =~= key_views(ck0).insert(0, ks[a as int]));
                assert(lk0.last()@ == cks[m]);
            }
            s2 = lemma_internal_regroup::<K, V>(p0, pn, parent_id, cs, lo, hi, nxt, a as int, m);
            let tt = self.t as int;
            let h = hgt(s1);
            if balanced::<K, V>(p0, s1, tt, h) && nkeys(p0, child_id) <= 2 * tt - 2 {
                lemma_pair_kinds::<K, V>(p0, parent_id, cs, lo, hi, nxt, a as int);
                lemma_balanced_unfold::<K, V>(p0, s1, tt, h);
                lemma_balanced_unfold::<K, V>(p0, cs[a as int], tt, (h - 1) as nat);
                lemma_balanced_unfold::<K, V>(p0, cs[a + 1], tt, (h - 1) as nat);
                lemma_regroup_balanced::<K, V>(p0, pn, parent_id, cs, lo, hi, nxt, a as int, m, tt, h);
            }
        }
        Ghost(s2)
    }
}


impl<K: BTreeKey, V> BTree<K, V> {
    /// Move the first entry (or child) of the right sibling `child_idx + 1`
    /// (in page `right_id`) to the end of child `child_idx` (in page
    /// `child_id`) of the internal node in page `parent_id`, updating the
    /// separator between them. Siblings of different kinds are left alone.
    fn borrow_from_right(
        &mut self,
        parent_id: u64,
        child_idx: usize,
        child_id: u64,
        right_id: u64,
        Ghost(cs): Ghost<Seq<Shape>>,
        Ghost(lo): Ghost<Option<K::V>>,
        Ghost(hi): Ghost<Option<K::V>>,
        Ghost(nxt): Ghost<u64>,
    ) -> (r: Ghost<Shape>)
        requires
            old(self).pager.wf(),
            2 <= old(self).t,
            wf_subtree::<K, V>(old(self).pager@, Shape::Node(parent_id, cs), lo, hi, nxt),
            child_idx + 1 < cs.len(),
            child_id == shape_id(cs[child_idx as int]),
            right_id == shape_id(cs[child_idx + 1]),
            node_keys(old(self).pager@[right_id as int]).len() >= old(self).t,
        ensures
            final(self).pager.wf(),
            dirty_covers(old(self).pager, final(self).pager),
            final(self).pager.next_page_id == old(self).pager.next_page_id,
            final(self).t == old(self).t,
            final(self).shape == old(self).shape,
            final(self).pager.root_page_id == old(self).pager.root_page_id,
            borrow_right_pages::<K, V>(old(self).pager@, final(self).pager@, parent_id, child_idx as int, child_id, right_id),
            step_done::<K, V>(
                old(self).pager@,
                final(self).pager@,
                old(self).t as int,
                parent_id,
                cs,
                lo,
                hi,
                nxt,
                r@,
                nkeys(old(self).pager@, child_id) <= 2 * old(self).t - 2,
            ),
    {
        let ghost p0 = self.pager@;
        let ghost s1 = Shape::Node(parent_id, cs);
        let a = child_idx;
        proof {
            lemma_pair_pages::<K, V>(p0, parent_id, cs, lo, hi, nxt, a as int);
        }
        let child_is_leaf = self.pager.read_node(child_id).is_leaf();
        let right_is_leaf = self.pager.read_node(right_id).is_leaf();
        if child_is_leaf && right_is_leaf {
            self.borrow_leaf_from_right(parent_id, child_idx, child_id, right_id, Ghost(cs), Ghost(lo), Ghost(hi), Ghost(nxt))
        } else if !child_is_leaf && !right_is_leaf {
            self.borrow_internal_from_right(parent_id, child_idx, child_id, right_id, Ghost(cs), Ghost(lo), Ghost(hi), Ghost(nxt))
        } else {
            proof {
                lemma_reshaped_same::<K, V>(p0, parent_id, cs, lo, hi, nxt);
            }
            Ghost(s1)
        }
    }

    /// `borrow_from_right` for two leaves.
    #[verifier::spinoff_prover]
    #[verifier::rlimit(100)]
    fn borrow_leaf_from_right(
        &mut self,
        parent_id: u64,
        child_idx: usize,
        child_id: u64,
        right_id: u64,
        Ghost(cs): Ghost<Seq<Shape>>,
        Ghost(lo): Ghost<Option<K::V>>,
        Ghost(hi): Ghost<Option<K::V>>,
        Ghost(nxt): Ghost<u64>,
    ) -> (r: Ghost<Shape>)
        requires
            old(self).pager.wf(),
            2 <= old(self).t,
            wf_subtree::<K, V>(old(self).pager@, Shape::Node(parent_id, cs), lo, hi, nxt),
            child_idx + 1 < cs.len(),
            child_id == shape_id(cs[child_idx as int]),
            right_id == shape_id(cs[child_idx + 1]),
            node_keys(old(self).pager@[right_id as int]).len() >= old(self).t,
            old(self).pager@[child_id as int] is Leaf,
            old(self).pager@[right_id as int] is Leaf,
        ensures
            final(self).pager.wf(),
            dirty_covers(old(self).pager, final(self).pager),
            final(self).pager.next_page_id == old(self).pager.next_page_id,
            final(self).t == old(self).t,
            final(self).shape == old(self).shape,
            final(self).pager.root_page_id == old(self).pager.root_page_id,
            borrow_right_pages::<K, V>(old(self).pager@, final(self).pager@, parent_id, child_idx as int, child_id, right_id),
            step_done::<K, V>(
                old(self).pager@,
                final(self).pager@,
                old(self).t as int,
                parent_id,
                cs,
                lo,
                hi,
                nxt,
                r@,
                nkeys(old(self).pager@, child_id) <= 2 * old(self).t - 2,
            ),
    {
        let ghost p0 = self.pager@;
        let ghost s1 = Shape::Node(parent_id, cs);
        let a = child_idx;
        proof {
            lemma_pair_pages::<K, V>(p0, parent_id, cs, lo, hi, nxt, a as int);
        }

        proof {
            lemma_leaf_pair::<K, V>(p0, parent_id, cs, lo, hi, nxt, a as int);
        }
        let mut child = self.pager.take_leaf(child_id);
        let mut right = self.pager.take_leaf(right_id);
        let ghost ck0 = child.keys@;
        let ghost cv0 = child.values@;
        let ghost rk0 = right.keys@;
        let ghost rv0 = right.values@;
        let borrow_key = right.keys.remove(0);
        let borrow_val = right.values.remove(0);
        child.keys.push(borrow_key);
        child.values.push(borrow_val);
        let sep = right.keys[0].copy_key();
        let ghost nc = child;
        let ghost nr = right;
        self.pager.write_node(child_id, BTreeNode::Leaf(child));
        self.pager.write_node(right_id, BTreeNode::Leaf(right));
        self.set_separator(parent_id, a, sep);
        proof {
            let pn = self.pager@;
            let w: int = ck0.len() as int + 1;
            let ek = key_views(ck0) + key_views(rk0);
            let ev = cv0 + rv0;
            assert(pn[child_id as int] == BTreeNode::<K, V>::Leaf(nc));
            assert(pn[right_id as int] == BTreeNode::<K, V>::Leaf(nr));
            assert(key_views(nc.keys@) =~= ek.subrange(0, w));
            assert(nc.values@ =~= ev.subrange(0, w));
            assert(key_views(nr.keys@) =~= ek.subrange(w, ek.len() as int));
            assert(nr.values@ =~= ev.subrange(w, ev.len() as int));
            assert(key_views(pn[parent_id as int]->Internal_0.keys@) =~= node_seps(p0, parent_id).update(a as int, ek[w]));
            lemma_leaf_regroup::<K, V>(p0, pn, parent_id, cs, lo, hi, nxt, a as int, w);
            let tt = self.t as int;
            let h = hgt(s1);
            if balanced::<K, V>(p0, s1, tt, h) && nkeys(p0, child_id) <= 2 * tt - 2 {
                lemma_pair_kinds::<K, V>(p0, parent_id, cs, lo, hi, nxt, a as int);
                lemma_balanced_unfold::<K, V>(p0, s1, tt, h);
                lemma_balanced_unfold::<K, V>(p0, cs[a as int], tt, (h - 1) as nat);
                lemma_balanced_unfold::<K, V>(p0, cs[a + 1], tt, (h - 1) as nat);
                lemma_regroup_balanced::<K, V>(p0, pn, parent_id, cs, lo, hi, nxt, a as int, 0, tt, h);
            }
        }
        Ghost(s1)
    }

    /// `borrow_from_right` for two internal nodes.
    #[verifier::spinoff_prover]
    #[verifier::rlimit(100)]
    fn borrow_internal_from_right(
        &mut self,
        parent_id: u64,
        child_idx: usize,
        child_id: u64,
        right_id: u64,
        Ghost(cs): Ghost<Seq<Shape>>,
        Ghost(lo): Ghost<Option<K::V>>,
        Ghost(hi): Ghost<Option<K::V>>,
        Ghost(nxt): Ghost<u64>,
    ) -> (r: Ghost<Shape>)
        requires
            old(self).pager.wf(),
            2 <= old(self).t,
            wf_subtree::<K, V>(old(self).pager@, Shape::Node(parent_id, cs), lo, hi, nxt),
            child_idx + 1 < cs.len(),
            child_id == shape_id(cs[child_idx as int]),
            right_id == shape_id(cs[child_idx + 1]),
            node_keys(old(self).pager@[right_id as int]).len() >= old(self).t,
            old(self).pager@[child_id as int] is Internal,
            old(self).pager@[right_id as int] is Internal,
        ensures
            final(self).pager.wf(),
            dirty_covers(old(self).pager, final(self).pager),
            final(self).pager.next_page_id == old(self).pager.next_page_id,
            final(self).t == old(self).t,
            final(self).shape == old(self).shape,
            final(self).pager.root_page_id == old(self).pager.root_page_id,
            borrow_right_pages::<K, V>(old(self).pager@, final(self).pager@, parent_id, child_idx as int, child_id, right_id),
            step_done::<K, V>(
                old(self).pager@,
                final(self).pager@,
                old(self).t as int,
                parent_id,
                cs,
                lo,
                hi,
                nxt,
                r@,
                nkeys(old(self).pager@, child_id) <= 2 * old(self).t - 2,
            ),
    {
        let ghost p0 = self.pager@;
        let ghost s1 = Shape::Node(parent_id, cs);
        let a = child_idx;
        proof {
            lemma_pair_pages::<K, V>(p0, parent_id, cs, lo, hi, nxt, a as int);
        }

        proof {
            lemma_internal_pair::<K, V>(p0, parent_id, cs, lo, hi, nxt, a as int);
        }
        let sep = self.separator(parent_id, a);
        let mut child = self.pager.take_internal(child_id);
        let mut right = self.pager.take_internal(right_id);
        let ghost ck0 = child.keys@;
        let ghost cc0 = child.children@;
        let ghost rk0 = right.keys@;
        let ghost rc0 = right.children@;
        let borrow_key = right.keys.remove(0);
        let borrow_child = right.children.remove(0);
        child.keys.push(sep);
        child.children.push(borrow_child);
        let ghost nc = child;
        let ghost nr = right;
        let ghost bk = borrow_key@;
        self.pager.write_node(child_id, BTreeNode::Internal(child));
        self.pager.write_node(right_id, BTreeNode::Internal(right));
        self.set_separator(parent_id, a, borrow_key);
        let ghost mut s2 = s1;
        proof {
            let pn = self.pager@;
            let ks = node_seps(p0, parent_id);
            let m: int = ck0.len() as int + 1;
            let cks = key_views(ck0) + seq![ks[a as int]] + key_views(rk0);
            let ch = cc0 + rc0;
            assert(pn[child_id as int] == BTreeNode::<K, V>::Internal(nc));
            assert(pn[right_id as int] == BTreeNode::<K, V>::Internal(nr));
            assert(key_views(nc.keys@) =~= cks.subrange(0, m));
            assert(nc.children@ =~= ch.subrange(0, m + 1));
            assert(key_views(nr.keys@) =~= cks.subrange(m + 1, cks.len() as int));
            assert(nr.children@ =~= ch.subrange(m + 1, ch.len() as int));
            assert(bk == cks[m]);
            assert(key_views(pn[parent_id as int]->Internal_0.keys@) =~= ks.update(a as int, cks[m]));
            assert(borrow_right_pages::<K, V>(p0, pn, parent_id, a as int, child_id, right_id)) by {
                assert(key_views(nc.keys@) =~= key_views(ck0).push(ks[a as int]));
                assert(rk0[0]@ == cks[m]);
            }
            s2 = lemma_internal_regroup::<K, V>(p0, pn, parent_id, cs, lo, hi, nxt, a as int, m);
            let tt = self.t as int;
            let h = hgt(s1);
            if balanced::<K, V>(p0, s1, tt, h) && nkeys(p0, child_id) <= 2 * tt - 2 {
                lemma_pair_kinds::<K, V>(p0, parent_id, cs, lo, hi, nxt, a as int);
                lemma_balanced_unfold::<K, V>(p0, s1, tt, h);
                lemma_balanced_unfold::<K, V>(p0, cs[a as int], tt, (h - 1) as nat);
                lemma_balanced_unfold::<K, V>(p0, cs[a + 1], tt, (h - 1) as nat);
                lemma_regroup_balanced::<K, V>(p0, pn, parent_id, cs, lo, hi, nxt, a as int, m, tt, h);
            }
        }
        Ghost(s2)
    }

    /// Merge child `sep_idx + 1` (in page `right_id`) of the internal node in
    /// page `parent_id` into child `sep_idx` (in page `left_id`), pulling the
    /// separator between them down into an internal child. Siblings of
    /// different kinds are left alone.
    fn merge(
        &mut self,
        parent_id: u64,
        sep_idx: usize,
        left_id: u64,
        right_id: u64,
        Ghost(cs): Ghost<Seq<Shape>>,
        Ghost(lo): Ghost<Option<K::V>>,
        Ghost(hi): Ghost<Option<K::V>>,
        Ghost(nxt): Ghost<u64>,
    ) -> (r: Ghost<Shape>)
        requires
            old(self).pager.wf(),
            wf_subtree::<K, V>(old(self).pager@, Shape::Node(parent_id, cs), lo, hi, nxt),
            sep_idx + 1 < cs.len(),
            left_id == shape_id(cs[sep_idx as int]),
            right_id == shape_id(cs[sep_idx + 1]),
        ensures
            final(self).pager.wf(),
            dirty_covers(old(self).pager, final(self).pager),
            final(self).pager.next_page_id == old(self).pager.next_page_id,
            final(self).t == old(self).t,
            final(self).shape == old(self).shape,
            final(self).pager.root_page_id == old(self).pager.root_page_id,
            merge_pages::<K, V>(old(self).pager@, final(self).pager@, parent_id, sep_idx as int, left_id, right_id),
            step_done::<K, V>(
                old(self).pager@,
                final(self).pager@,
                old(self).t as int,
                parent_id,
                cs,
                lo,
                hi,
                nxt,
                r@,
                nkeys(old(self).pager@, left_id) + nkeys(old(self).pager@, right_id) <= 2 * old(self).t - 2,
            ),
    {
        let ghost p0 = self.pager@;
        let ghost s1 = Shape::Node(parent_id, cs);
        let a = sep_idx;
        proof {
            lemma_pair_pages::<K, V>(p0, parent_id, cs, lo, hi, nxt, a as int);
        }
        let left_is_leaf = self.pager.read_node(left_id).is_leaf();
        let right_is_leaf = self.pager.read_node(right_id).is_leaf();
        if left_is_leaf && right_is_leaf {
            self.merge_leaves(parent_id, sep_idx, left_id, right_id, Ghost(cs), Ghost(lo), Ghost(hi), Ghost(nxt))
        } else if !left_is_leaf && !right_is_leaf {
            self.merge_internals(parent_id, sep_idx, left_id, right_id, Ghost(cs), Ghost(lo), Ghost(hi), Ghost(nxt))
        } else {
            proof {
                lemma_reshaped_same::<K, V>(p0, parent_id, cs, lo, hi, nxt);
            }
            Ghost(s1)
        }
    }

    /// `merge` for two leaves.
    #[verifier::spinoff_prover]
    #[verifier::rlimit(100)]
    fn merge_leaves(
        &mut self,
        parent_id: u64,
        sep_idx: usize,
        left_id: u64,
        right_id: u64,
        Ghost(cs): Ghost<Seq<Shape>>,
        Ghost(lo): Ghost<Option<K::V>>,
        Ghost(hi): Ghost<Option<K::V>>,
        Ghost(nxt): Ghost<u64>,
    ) -> (r: Ghost<Shape>)
        requires
            old(self).pager.wf(),
            wf_subtree::<K, V>(old(self).pager@, Shape::Node(parent_id, cs), lo, hi, nxt),
            sep_idx + 1 < cs.len(),
            left_id == shape_id(cs[sep_idx as int]),
            right_id == shape_id(cs[sep_idx + 1]),
            old(self).pager@[left_id as int] is Leaf,
            old(self).pager@[right_id as int] is Leaf,
        ensures
            final(self).pager.wf(),
            dirty_covers(old(self).pager, final(self).pager),
            final(self).pager.next_page_id == old(self).pager.next_page_id,
            final(self).t == old(self).t,
            final(self).shape == old(self).shape,
            final(self).pager.root_page_id == old(self).pager.root_page_id,
            merge_pages::<K, V>(old(self).pager@, final(self).pager@, parent_id, sep_idx as int, left_id, right_id),
            step_done::<K, V>(
                old(self).pager@,
                final(self).pager@,
                old(self).t as int,
                parent_id,
                cs,
                lo,
                hi,
                nxt,
                r@,
                nkeys(old(self).pager@, left_id) + nkeys(old(self).pager@, right_id) <= 2 * old(self).t - 2,
            ),
    {
        let ghost p0 = self.pager@;
        let ghost s1 = Shape::Node(parent_id, cs);
        let a = sep_idx;
        proof {
            lemma_pair_pages::<K, V>(p0, parent_id, cs, lo, hi, nxt, a as int);
        }

        proof {
            lemma_leaf_pair::<K, V>(p0, parent_id, cs, lo, hi, nxt, a as int);
        }
        let mut left = self.pager.take_leaf(left_id);
        let mut right = self.pager.take_leaf(right_id);
        let ghost lk0 = left.keys@;
        let ghost lv0 = left.values@;
        let ghost rk0 = right.keys@;
        let ghost rv0 = right.values@;
        left.keys.append(&mut right.keys);
        left.values.append(&mut right.values);
        left.next_leaf = right.next_leaf;
        let ghost nl = left;
        self.pager.write_node(left_id, BTreeNode::Leaf(left));
        self.remove_separator(parent_id, a);
        proof {
            let pn = self.pager@;
            assert(pn[left_id as int] == BTreeNode::<K, V>::Leaf(nl));
            assert(key_views(nl.keys@) =~= key_views(lk0) + key_views(rk0));
            assert(key_views(pn[parent_id as int]->Internal_0.keys@) =~= node_seps(p0, parent_id).remove(a as int));
            lemma_leaf_merge::<K, V>(p0, pn, parent_id, cs, lo, hi, nxt, a as int);
            let tt = self.t as int;
            let h = hgt(s1);
            if balanced::<K, V>(p0, s1, tt, h) && nkeys(p0, left_id) + nkeys(p0, right_id) <= 2 * tt - 2 {
                lemma_pair_kinds::<K, V>(p0, parent_id, cs, lo, hi, nxt, a as int);
                lemma_balanced_unfold::<K, V>(p0, s1, tt, h);
                lemma_balanced_unfold::<K, V>(p0, cs[a as int], tt, (h - 1) as nat);
                lemma_balanced_unfold::<K, V>(p0, cs[a + 1], tt, (h - 1) as nat);
                lemma_merge_balanced::<K, V>(p0, pn, parent_id, cs, lo, hi, nxt, a as int, tt, h);
            }
        }
        Ghost(Shape::Node(parent_id, crate::shape::splice(cs, a as int, a + 2, seq![Shape::Leaf(left_id)])))
    }

    /// `merge` for two internal nodes.
    #[verifier::spinoff_prover]
    #[verifier::rlimit(100)]
    fn merge_internals(
        &mut self,
        parent_id: u64,
        sep_idx: usize,
        left_id: u64,
        right_id: u64,
        Ghost(cs): Ghost<Seq<Shape>>,
        Ghost(lo): Ghost<Option<K::V>>,
        Ghost(hi): Ghost<Option<K::V>>,
        Ghost(nxt): Ghost<u64>,
    ) -> (r: Ghost<Shape>)
        requires
            old(self).pager.wf(),
            wf_subtree::<K, V>(old(self).pager@, Shape::Node(parent_id, cs), lo, hi, nxt),
            sep_idx + 1 < cs.len(),
            left_id == shape_id(cs[sep_idx as int]),
            right_id == shape_id(cs[sep_idx + 1]),
            old(self).pager@[left_id as int] is Internal,
            old(self).pager@[right_id as int] is Internal,
        ensures
            final(self).pager.wf(),
            dirty_covers(old(self).pager, final(self).pager),
            final(self).pager.next_page_id == old(self).pager.next_page_id,
            final(self).t == old(self).t,
            final(self).shape == old(self).shape,
            final(self).pager.root_page_id == old(self).pager.root_page_id,
            merge_pages::<K, V>(old(self).pager@, final(self).pager@, parent_id, sep_idx as int, left_id, right_id),
            step_done::<K, V>(
                old(self).pager@,
                final(self).pager@,
                old(self).t as int,
                parent_id,
                cs,
                lo,
                hi,
                nxt,
                r@,
                nkeys(old(self).pager@, left_id) + nkeys(old(self).pager@, right_id) <= 2 * old(self).t - 2,
            ),
    {
        let ghost p0 = self.pager@;
        let ghost s1 = Shape::Node(parent_id, cs);
        let a = sep_idx;
        proof {
            lemma_pair_pages::<K, V>(p0, parent_id, cs, lo, hi, nxt, a as int);
        }

        let sep = self.separator(parent_id, a);
        let mut left = self.pager.take_internal(left_id);
        let mut right = self.pager.take_internal(right_id);
        let ghost lk0 = left.keys@;
        let ghost lc0 = left.children@;
        let ghost rk0 = right.keys@;
        let ghost rc0 = right.children@;
        let ghost sv = sep@;
        left.keys.push(sep);
        left.keys.append(&mut right.keys);
        left.children.append(&mut right.children);
        let ghost nl = left;
        self.pager.write_node(left_id, BTreeNode::Internal(left));
        self.remove_separator(parent_id, a);
        let ghost mut s2 = s1;
        proof {
            let pn = self.pager@;
            let ks = node_seps(p0, parent_id);
            assert(pn[left_id as int] == BTreeNode::<K, V>::Internal(nl));
            assert(key_views(nl.keys@) =~= key_views(lk0) + seq![ks[a as int]] + key_views(rk0));
            assert(key_views(pn[parent_id as int]->Internal_0.keys@) =~= ks.remove(a as int));
            assert(merge_pages::<K, V>(p0, pn, parent_id, a as int, left_id, right_id)) by {
                assert(key_views(nl.keys@) =~= key_views(lk0).push(ks[a as int]) + key_views(rk0));
            }
            s2 = lemma_internal_merge::<K, V>(p0, pn, parent_id, cs, lo, hi, nxt, a as int);
            let tt = self.t as int;
            let h = hgt(s1);
            if balanced::<K, V>(p0, s1, tt, h) && nkeys(p0, left_id) + nkeys(p0, right_id) <= 2 * tt - 2 {
                lemma_pair_kinds::<K, V>(p0, parent_id, cs, lo, hi, nxt, a as int);
                lemma_balanced_unfold::<K, V>(p0, s1, tt, h);
                lemma_balanced_unfold::<K, V>(p0, cs[a as int], tt, (h - 1) as nat);
                lemma_balanced_unfold::<K, V>(p0, cs[a + 1], tt, (h - 1) as nat);
                lemma_merge_balanced::<K, V>(p0, pn, parent_id, cs, lo, hi, nxt, a as int, tt, h);
            }
        }
        Ghost(s2)
    }
}


/// The pages after child `i` of the node in page `pid` (children `cs`) is
/// given a key to spare for minimum degree `t`: borrowed from the left
/// sibling if it has at least `t` keys, else from the right sibling if it
/// has, else merged with the left sibling if there is one, else with the
/// right one; a node without siblings for it stays as it is.
pub open spec fn fix_pages<K: BTreeKey, V>(o: Seq<BTreeNode<K, V>>, n: Seq<BTreeNode<K, V>>, t: int, pid: u64, cs: Seq<Shape>, i: int) -> bool {
    let cid = shape_id(cs[i]);
    if i > 0 && nkeys(o, shape_id(cs[i - 1])) >= t {
        borrow_left_pages::<K, V>(o, n, pid, i - 1, shape_id(cs[i - 1]), cid)
    } else if i + 1 < cs.len() && nkeys(o, shape_id(cs[i + 1])) >= t {
        borrow_right_pages::<K, V>(o, n, pid, i, cid, shape_id(cs[i + 1]))
    } else if i > 0 {
        merge_pages::<K, V>(o, n, pid, i - 1, shape_id(cs[i - 1]), cid)
    } else if i + 1 < cs.len() {
        merge_pages::<K, V>(o, n, pid, i, cid, shape_id(cs[i + 1]))
    } else {
        n == o
    }
}

/// After child `i` of the node in page `pid` is given a key to spare, the
/// node `r` has lost at most one key, and every key that was routed to
/// child `i` is routed to a child with at least `t` keys.
pub open spec fn fix_outcome<K: BTreeKey, V>(o: Seq<BTreeNode<K, V>>, n: Seq<BTreeNode<K, V>>, t: int, pid: u64, i: int, r: Shape) -> bool {
    &&& nkeys(o, pid) <= nkeys(n, pid) + 1
    &&& forall|k: K::V|
        #[trigger] route::<K>(node_seps(o, pid), k) == i ==> t <= nkeys(n, shape_id(r->Node_1[route::<K>(node_seps(n, pid), k)]))
}

/// The facts about the node after a rebalancing step that the routing
/// arguments below need.
proof fn lemma_step_node<K: BTreeKey, V>(
    p0: Seq<BTreeNode<K, V>>,
    pn: Seq<BTreeNode<K, V>>,
    pid: u64,
    cs: Seq<Shape>,
    lo: Option<K::V>,
    hi: Option<K::V>,
    nxt: u64,
    r: Shape,
)
    requires
        wf_subtree::<K, V>(p0, Shape::Node(pid, cs), lo, hi, nxt),
        reshaped::<K, V>(p0, pn, Shape::Node(pid, cs), r, lo, hi, nxt),
        shape_id(r) == pid,
    ensures
        r == Shape::Node(pid, r->Node_1),
        p0[pid as int] is Internal,
        pn[pid as int] is Internal,
        nkeys(p0, pid) == node_seps(p0, pid).len(),
        nkeys(pn, pid) == node_seps(pn, pid).len(),
        sorted::<K>(node_seps(p0, pid)),
        sorted::<K>(node_seps(pn, pid)),
        node_seps(p0, pid).len() + 1 == cs.len(),
        node_seps(pn, pid).len() + 1 == r->Node_1.len(),
        forall|j: int| 0 <= j < cs.len() ==> p0[pid as int]->Internal_0.children@[j] == shape_id(#[trigger] cs[j]),
        forall|j: int| 0 <= j < r->Node_1.len() ==> pn[pid as int]->Internal_0.children@[j] == shape_id(#[trigger] r->Node_1[j]),
        p0[pid as int]->Internal_0.children@.len() == cs.len(),
        pn[pid as int]->Internal_0.children@.len() == r->Node_1.len(),
{
    assert(r == Shape::Node(pid, r->Node_1));
    lemma_node_parts::<K, V>(p0, pid, cs, lo, hi, nxt);
    lemma_node_parts::<K, V>(pn, pid, r->Node_1, lo, hi, nxt);
}

/// The kinds of two adjacent children of a balanced node agree.
proof fn lemma_same_kind<K: BTreeKey, V>(
    p0: Seq<BTreeNode<K, V>>,
    pid: u64,
    cs: Seq<Shape>,
    lo: Option<K::V>,
    hi: Option<K::V>,
    nxt: u64,
    a: int,
    t: int,
    h: nat,
)
    requires
        wf_subtree::<K, V>(p0, Shape::Node(pid, cs), lo, hi, nxt),
        balanced::<K, V>(p0, Shape::Node(pid, cs), t, h),
        0 <= a,
        a + 1 < cs.len(),
    ensures
        (p0[shape_id(cs[a]) as int] is Leaf) == (p0[shape_id(cs[a + 1]) as int] is Leaf),
        t - 1 <= nkeys(p0, shape_id(cs[a])),
        t - 1 <= nkeys(p0, shape_id(cs[a + 1])),
{
    lemma_pair_kinds::<K, V>(p0, pid, cs, lo, hi, nxt, a);
    lemma_balanced_unfold::<K, V>(p0, Shape::Node(pid, cs), t, h);
    lemma_balanced_unfold::<K, V>(p0, cs[a], t, (h - 1) as nat);
    lemma_balanced_unfold::<K, V>(p0, cs[a + 1], t, (h - 1) as nat);
}

/// Borrowing from the left sibling gives child `i` a key to spare and keeps
/// keys routed to it there.
proof fn lemma_fix_borrow_left<K: BTreeKey, V>(
    p0: Seq<BTreeNode<K, V>>,
    pn: Seq<BTreeNode<K, V>>,
    pid: u64,
    cs: Seq<Shape>,
    lo: Option<K::V>,
    hi: Option<K::V>,
    nxt: u64,
    i: int,
    r: Shape,
    t: int,
    h: nat,
)
    requires
        wf_subtree::<K, V>(p0, Shape::Node(pid, cs), lo, hi, nxt),
        balanced::<K, V>(p0, Shape::Node(pid, cs), t, h),
        1 <= i < cs.len(),
        t >= 2,
        nkeys(p0, shape_id(cs[i - 1])) >= t,
        nkeys(p0, shape_id(cs[i])) < t,
        borrow_left_pages::<K, V>(p0, pn, pid, i - 1, shape_id(cs[i - 1]), shape_id(cs[i])),
        reshaped::<K, V>(p0, pn, Shape::Node(pid, cs), r, lo, hi, nxt),
        shape_id(r) == pid,
    ensures
        fix_outcome::<K, V>(p0, pn, t, pid, i, r),
{
    let a = i - 1;
    let lid = shape_id(cs[a]);
    let cid = shape_id(cs[i]);
    let ks = node_seps(p0, pid);
    lemma_step_node::<K, V>(p0, pn, pid, cs, lo, hi, nxt, r);
    lemma_same_kind::<K, V>(p0, pid, cs, lo, hi, nxt, a, t, h);
    lemma_pair_key_bounds::<K, V>(p0, pid, cs, lo, hi, nxt, a);
    let x = node_keys(p0[lid as int]).last();
    assert(lt::<K>(node_keys(p0[lid as int])[nkeys(p0, lid) - 1], ks[a]));
    assert(node_seps(pn, pid) =~= ks.update(a, x));
    assert(nkeys(pn, cid) == nkeys(p0, cid) + 1);
    assert forall|k: K::V| #[trigger] route::<K>(ks, k) == i implies t <= nkeys(pn, shape_id(r->Node_1[route::<K>(node_seps(pn, pid), k)])) by {
        lemma_route_lowered::<K>(ks, a, x, k);
    }
}

/// Borrowing from the right sibling gives child `i` a key to spare and
/// keeps keys routed to it there.
proof fn lemma_fix_borrow_right<K: BTreeKey, V>(
    p0: Seq<BTreeNode<K, V>>,
    pn: Seq<BTreeNode<K, V>>,
    pid: u64,
    cs: Seq<Shape>,
    lo: Option<K::V>,
    hi: Option<K::V>,
    nxt: u64,
    i: int,
    r: Shape,
    t: int,
    h: nat,
)
    requires
        wf_subtree::<K, V>(p0, Shape::Node(pid, cs), lo, hi, nxt),
        balanced::<K, V>(p0, Shape::Node(pid, cs), t, h),
        0 <= i,
        i + 1 < cs.len(),
        t >= 2,
        nkeys(p0, shape_id(cs[i + 1])) >= t,
        nkeys(p0, shape_id(cs[i])) < t,
        borrow_right_pages::<K, V>(p0, pn, pid, i, shape_id(cs[i]), shape_id(cs[i + 1])),
        reshaped::<K, V>(p0, pn, Shape::Node(pid, cs), r, lo, hi, nxt),
        shape_id(r) == pid,
    ensures
        fix_outcome::<K, V>(p0, pn, t, pid, i, r),
{
    let cid = shape_id(cs[i]);
    let rid = shape_id(cs[i + 1]);
    let ks = node_seps(p0, pid);
    lemma_step_node::<K, V>(p0, pn, pid, cs, lo, hi, nxt, r);
    lemma_same_kind::<K, V>(p0, pid, cs, lo, hi, nxt, i, t, h);
    lemma_pair_key_bounds::<K, V>(p0, pid, cs, lo, hi, nxt, i);
    let j: int = if p0[rid as int] is Leaf { 1 } else { 0 };
    let x = node_keys(p0[rid as int])[j];
    assert(le::<K>(ks[i], x));
    assert(node_seps(pn, pid) =~= ks.update(i, x));
    assert(nkeys(pn, cid) == nkeys(p0, cid) + 1);
    assert forall|k: K::V| #[trigger] route::<K>(ks, k) == i implies t <= nkeys(pn, shape_id(r->Node_1[route::<K>(node_seps(pn, pid), k)])) by {
        lemma_route_raised::<K>(ks, i, x, k);
    }
}

/// Merging child `a + 1` into child `a` leaves one child with at least `t`
/// keys where the two were, and keys routed to either are routed to it.
proof fn lemma_fix_merge<K: BTreeKey, V>(
    p0: Seq<BTreeNode<K, V>>,
    pn: Seq<BTreeNode<K, V>>,
    pid: u64,
    cs: Seq<Shape>,
    lo: Option<K::V>,
    hi: Option<K::V>,
    nxt: u64,
    a: int,
    i: int,
    r: Shape,
    t: int,
    h: nat,
)
    requires
        wf_subtree::<K, V>(p0, Shape::Node(pid, cs), lo, hi, nxt),
        balanced::<K, V>(p0, Shape::Node(pid, cs), t, h),
        0 <= a,
        a + 1 < cs.len(),
        i == a || i == a + 1,
        t >= 2,
        merge_pages::<K, V>(p0, pn, pid, a, shape_id(cs[a]), shape_id(cs[a + 1])),
        reshaped::<K, V>(p0, pn, Shape::Node(pid, cs), r, lo, hi, nxt),
        shape_id(r) == pid,
    ensures
        fix_outcome::<K, V>(p0, pn, t, pid, i, r),
{
    let lid = shape_id(cs[a]);
    let ks = node_seps(p0, pid);
    lemma_step_node::<K, V>(p0, pn, pid, cs, lo, hi, nxt, r);
    lemma_same_kind::<K, V>(p0, pid, cs, lo, hi, nxt, a, t, h);
    assert(node_seps(pn, pid) =~= ks.remove(a));
    assert(nkeys(pn, lid) >= nkeys(p0, lid) + nkeys(p0, shape_id(cs[a + 1])));
    assert(pn[pid as int]->Internal_0.children@[a] == p0[pid as int]->Internal_0.children@[a]);
    assert forall|k: K::V| #[trigger] route::<K>(ks, k) == i implies t <= nkeys(pn, shape_id(r->Node_1[route::<K>(node_seps(pn, pid), k)])) by {
        lemma_route_removed::<K>(ks, a, k);
    }
}

impl<K: BTreeKey, V> BTree<K, V> {
    /// Give child `child_idx` of the internal node in page `parent_id` a
    /// key to spare: borrow one from the left sibling if it has at least `t`
    /// keys, else from the right sibling if it has, else merge the child
    /// with a sibling (the left one if there is one).
    #[verifier::spinoff_prover]
    #[verifier::rlimit(100)]
    fn fix_child(
        &mut self,
        parent_id: u64,
        child_idx: usize,
        Ghost(cs): Ghost<Seq<Shape>>,
        Ghost(lo): Ghost<Option<K::V>>,
        Ghost(hi): Ghost<Option<K::V>>,
        Ghost(nxt): Ghost<u64>,
    ) -> (r: Ghost<Shape>)
        requires
            old(self).pager.wf(),
            2 <= old(self).t,
            wf_subtree::<K, V>(old(self).pager@, Shape::Node(parent_id, cs), lo, hi, nxt),
            child_idx < cs.len(),
        ensures
            final(self).pager.wf(),
            dirty_covers(old(self).pager, final(self).pager),
            final(self).pager.next_page_id == old(self).pager.next_page_id,
            final(self).t == old(self).t,
            final(self).shape == old(self).shape,
            final(self).pager.root_page_id == old(self).pager.root_page_id,
            fix_pages::<K, V>(old(self).pager@, final(self).pager@, old(self).t as int, parent_id, cs, child_idx as int),
            step_done::<K, V>(
                old(self).pager@,
                final(self).pager@,
                old(self).t as int,
                parent_id,
                cs,
                lo,
                hi,
                nxt,
                r@,
                nkeys(old(self).pager@, shape_id(cs[child_idx as int])) < old(self).t,
            ),
            balanced::<K, V>(old(self).pager@, Shape::Node(parent_id, cs), old(self).t as int, hgt(Shape::Node(parent_id, cs)))
                && nkeys(old(self).pager@, parent_id) >= 1 && nkeys(old(self).pager@, shape_id(cs[child_idx as int]))
                < old(self).t ==> fix_outcome::<K, V>(
                old(self).pager@,
                final(self).pager@,
                old(self).t as int,
                parent_id,
                child_idx as int,
                r@,
            ),
    {
        let ghost p0 = self.pager@;
        let ghost h = hgt(Shape::Node(parent_id, cs));
        let ghost tt = self.t as int;
        let ghost bal = balanced::<K, V>(p0, Shape::Node(parent_id, cs), tt, h) && nkeys(p0, parent_id) >= 1 && nkeys(
            p0,
            shape_id(cs[child_idx as int]),
        ) < tt;
        proof {
            lemma_node_parts::<K, V>(p0, parent_id, cs, lo, hi, nxt);
            lemma_in_shape_bounded::<K, V>(p0, Shape::Node(parent_id, cs), lo, hi, nxt);
        }
        let (left_sibling, right_sibling, child_id) = match self.pager.read_node(parent_id) {
            BTreeNode::Internal(n) => {
                let nch = n.children.len();
                let l = if child_idx > 0 {
                    Some(n.children[child_idx - 1])
                } else {
                    None
                };
                let r = if child_idx < nch - 1 {
                    Some(n.children[child_idx + 1])
                } else {
                    None
                };
                (l, r, n.children[child_idx])
            },
            BTreeNode::Leaf(_) => vstd::pervasive::unreached(),
        };
        proof {
            if child_idx > 0 {
                lemma_pair_pages::<K, V>(p0, parent_id, cs, lo, hi, nxt, child_idx - 1);
            }
            if child_idx + 1 < cs.len() {
                lemma_pair_pages::<K, V>(p0, parent_id, cs, lo, hi, nxt, child_idx as int);
            }
        }
        if let Some(left_id) = left_sibling {
            if self.pager.read_node(left_id).num_keys() >= self.t {
                let r = self.borrow_from_left(parent_id, child_idx, left_id, child_id, Ghost(cs), Ghost(lo), Ghost(hi), Ghost(nxt));
                proof {
                    if bal {
                        lemma_fix_borrow_left::<K, V>(p0, self.pager@, parent_id, cs, lo, hi, nxt, child_idx as int, r@, tt, h);
                    }
                }
                return r;
            }
        }
        if let Some(right_id) = right_sibling {
            if self.pager.read_node(right_id).num_keys() >= self.t {
                let r = self.borrow_from_right(parent_id, child_idx, child_id, right_id, Ghost(cs), Ghost(lo), Ghost(hi), Ghost(nxt));
                proof {
                    if bal {
                        lemma_fix_borrow_right::<K, V>(p0, self.pager@, parent_id, cs, lo, hi, nxt, child_idx as int, r@, tt, h);
                    }
                }
                return r;
            }
        }
        if let Some(left_id) = left_sibling {
            let r = self.merge(parent_id, child_idx - 1, left_id, child_id, Ghost(cs), Ghost(lo), Ghost(hi), Ghost(nxt));
            proof {
                if bal {
                    lemma_fix_merge::<K, V>(p0, self.pager@, parent_id, cs, lo, hi, nxt, child_idx - 1, child_idx as int, r@, tt, h);
                }
            }
            r
        } else if let Some(right_id) = right_sibling {
            let r = self.merge(parent_id, child_idx, child_id, right_id, Ghost(cs), Ghost(lo), Ghost(hi), Ghost(nxt));
            proof {
                if bal {
                    lemma_fix_merge::<K, V>(p0, self.pager@, parent_id, cs, lo, hi, nxt, child_idx as int, child_idx as int, r@, tt, h);
                }
            }
            r
        } else {
            proof {
                lemma_reshaped_same::<K, V>(p0, parent_id, cs, lo, hi, nxt);
                assert(nkeys(p0, parent_id) == node_seps(p0, parent_id).len());
            }
            Ghost(Shape::Node(parent_id, cs))
        }
    }
}


impl<K: BTreeKey, V> BTree<K, V> {
    /// Delete `key` from the subtree rooted at page `page_id`, first giving
    /// each child descended into a key to spare. Fails with `KeyNotFound`
    /// when the key is absent; the subtree may have been reshaped then.
    #[verifier::spinoff_prover]
    #[verifier::rlimit(100)]
    fn delete_from(
        &mut self,
        page_id: u64,
        key: &K,
        Ghost(s): Ghost<Shape>,
        Ghost(lo): Ghost<Option<K::V>>,
        Ghost(hi): Ghost<Option<K::V>>,
        Ghost(nxt): Ghost<u64>,
    ) -> (r: (Result<(), BTreeError>, Ghost<Shape>))
        requires
            old(self).pager.wf(),
            2 <= old(self).t,
            wf_subtree::<K, V>(old(self).pager@, s, lo, hi, nxt),
            shape_id(s) == page_id,
        ensures
            final(self).pager.wf(),
            dirty_covers(old(self).pager, final(self).pager),
            final(self).pager.next_page_id == old(self).pager.next_page_id,
            final(self).t == old(self).t,
            final(self).shape == old(self).shape,
            final(self).pager.root_page_id == old(self).pager.root_page_id,
            wf_subtree::<K, V>(final(self).pager@, r.1@, lo, hi, nxt),
            changed_only(old(self).pager@, final(self).pager@, s, r.1@),
            (r.0 is Ok) == (lookup::<K, V>(old(self).pager@, s, key@) is Some),
            r.0 is Err ==> r.0 == Err::<(), BTreeError>(BTreeError::KeyNotFound),
            forall|k: K::V| #[trigger] lookup::<K, V>(final(self).pager@, r.1@, k) == if k == key@ {
                None
            } else {
                lookup::<K, V>(old(self).pager@, s, k)
            },
            hgt(r.1@) <= hgt(s),
            balanced::<K, V>(old(self).pager@, s, old(self).t as int, hgt(s)) && (s is Node ==> nkeys(old(self).pager@, page_id) >= 1)
                ==> balanced::<K, V>(final(self).pager@, r.1@, old(self).t as int, hgt(s)) && nkeys(old(self).pager@, page_id)
                <= nkeys(final(self).pager@, page_id) + 1,
        decreases hgt(s),
    {
        let ghost p0 = self.pager@;
        proof {
            lemma_wf_kind::<K, V>(p0, s, lo, hi, nxt);
        }
        let is_leaf = self.pager.read_node(page_id).is_leaf();
        if is_leaf {
            let found = match self.pager.read_node(page_id) {
                BTreeNode::Leaf(l) => search_sorted(&l.keys, key),
                BTreeNode::Internal(_) => vstd::pervasive::unreached(),
            };
            let ghost l0 = p0[page_id as int]->Leaf_0;
            let ghost ks0 = key_views(l0.keys@);
            let ghost vs0 = l0.values@;
            proof {
                lemma_leaf_entries::<K, V>(l0, lo, hi);
                crate::parts::lemma_seq_lookup::<K, V>(ks0, vs0, key@);
            }
            match found {
                Ok(i) => {
                    let mut leaf = self.pager.take_leaf(page_id);
                    leaf.keys.remove(i);
                    leaf.values.remove(i);
                    let ghost nl = leaf;
                    self.pager.write_node(page_id, BTreeNode::Leaf(leaf));
                    proof {
                        let pn = self.pager@;
                        assert(ks0[i as int] == key@);
                        crate::parts::lemma_entries_remove::<K, V>(ks0, vs0, i as int);
                        assert(key_views(nl.keys@) =~= ks0.remove(i as int));
                        assert forall|j: int| 0 <= j < ks0.remove(i as int).len() implies in_range::<K>(lo, hi, #[trigger] ks0.remove(i as int)[j]) by {
                            if j < i {
                                assert(ks0.remove(i as int)[j] == ks0[j]);
                            } else {
                                assert(ks0.remove(i as int)[j] == ks0[j + 1]);
                            }
                        }
                        assert(pn[page_id as int] == BTreeNode::<K, V>::Leaf(nl));
                        lemma_rewrite_leaf::<K, V>(p0, pn, page_id, lo, hi, nxt);
                        if balanced::<K, V>(p0, s, self.t as int, hgt(s)) {
                            lemma_balanced_unfold::<K, V>(p0, s, self.t as int, hgt(s));
                            lemma_balanced_leaf::<K, V>(pn, page_id, self.t as int);
                        }
                    }
                    (Ok(()), Ghost(s))
                },
                Err(i) => {
                    proof {
                        assert forall|j: int| 0 <= j < ks0.len() implies ks0[j] != key@ by {
                            assert(ks0[j] == l0.keys@[j]@);
                        }
                        lemma_rewrite_leaf::<K, V>(p0, p0, page_id, lo, hi, nxt);
                    }
                    (Err(BTreeError::KeyNotFound), Ghost(s))
                },
            }
        } else {
            let ghost cs = s->Node_1;
            let ghost ks = node_seps(p0, page_id);
            proof {
                assert(s == Shape::Node(page_id, cs));
                lemma_node_parts::<K, V>(p0, page_id, cs, lo, hi, nxt);
                lemma_in_shape_bounded::<K, V>(p0, s, lo, hi, nxt);
            }
            let (child_idx, child_id) = match self.pager.read_node(page_id) {
                BTreeNode::Internal(n) => {
                    let ci = child_index(&n.keys, key);
                    (ci, n.children[ci])
                },
                BTreeNode::Leaf(_) => vstd::pervasive::unreached(),
            };
            proof {
                lemma_child_wf::<K, V>(p0, page_id, cs, lo, hi, nxt, child_idx as int);
                lemma_wf_kind::<K, V>(p0, cs[child_idx as int], child_lo::<K>(lo, ks, child_idx as int), child_hi::<K>(hi, ks, child_idx as int), chain_next(cs, child_idx as int, nxt));
            }
            let small = self.pager.read_node(child_id).num_keys() < self.t;
            if small {
                let Ghost(s1) = self.fix_child(page_id, child_idx, Ghost(cs), Ghost(lo), Ghost(hi), Ghost(nxt));
                let ghost p1 = self.pager@;
                let ghost cs1 = s1->Node_1;
                let ghost ks1 = node_seps(p1, page_id);
                proof {
                    assert(s1 == Shape::Node(page_id, cs1));
                    lemma_node_parts::<K, V>(p1, page_id, cs1, lo, hi, nxt);
                    lemma_in_shape_bounded::<K, V>(p1, s1, lo, hi, nxt);
                }
                let (idx1, child1) = match self.pager.read_node(page_id) {
                    BTreeNode::Internal(n) => {
                        let ci = child_index(&n.keys, key);
                        (ci, n.children[ci])
                    },
                    BTreeNode::Leaf(_) => vstd::pervasive::unreached(),
                };
                let ghost tt = self.t as int;
                let ghost bal = balanced::<K, V>(p0, s, tt, hgt(s)) && nkeys(p0, page_id) >= 1;
                proof {
                    lemma_child_wf::<K, V>(p1, page_id, cs1, lo, hi, nxt, idx1 as int);
                    assert(route::<K>(node_seps(p0, page_id), key@) == child_idx);
                    if bal {
                        lemma_balanced_unfold::<K, V>(p1, s1, tt, hgt(s));
                        lemma_balanced_hgt::<K, V>(p1, cs1[idx1 as int], tt, (hgt(s) - 1) as nat);
                    }
                }
                let (res, Ghost(c2)) = self.delete_from(
                    child1,
                    key,
                    Ghost(cs1[idx1 as int]),
                    Ghost(child_lo::<K>(lo, ks1, idx1 as int)),
                    Ghost(child_hi::<K>(hi, ks1, idx1 as int)),
                    Ghost(chain_next(cs1, idx1 as int, nxt)),
                );
                let ghost pn = self.pager@;
                let ghost s2 = Shape::Node(page_id, cs1.update(idx1 as int, c2));
                proof {
                    assert(!in_shape(cs1[idx1 as int], page_id));
                    lemma_update_child::<K, V>(p1, pn, page_id, cs1, lo, hi, nxt, idx1 as int, c2);
                    lemma_changed_trans::<K, V>(p0, p1, pn, s, s1, s2);
                    lemma_hgt_update(page_id, cs1, idx1 as int, c2, hgt(s));
                    if bal {
                        lemma_child_step_balanced::<K, V>(p1, pn, page_id, cs1, lo, hi, nxt, idx1 as int, c2, tt, hgt(s));
                    }
                    assert(lookup::<K, V>(p1, s1, key@) == lookup::<K, V>(p0, s, key@));
                    assert forall|k: K::V| #[trigger] lookup::<K, V>(pn, s2, k) == if k == key@ {
                        None
                    } else {
                        lookup::<K, V>(p0, s, k)
                    } by {
                        assert(lookup::<K, V>(p1, s1, k) == lookup::<K, V>(p0, s, k));
                    }
                }
                (res, Ghost(s2))
            } else {
                let ghost tt = self.t as int;
                let ghost bal = balanced::<K, V>(p0, s, tt, hgt(s)) && nkeys(p0, page_id) >= 1;
                proof {
                    lemma_hgt_seq_ge(cs, child_idx as int);
                    if bal {
                        lemma_balanced_unfold::<K, V>(p0, s, tt, hgt(s));
                        lemma_balanced_hgt::<K, V>(p0, cs[child_idx as int], tt, (hgt(s) - 1) as nat);
                    }
                }
                let (res, Ghost(c2)) = self.delete_from(
                    child_id,
                    key,
                    Ghost(cs[child_idx as int]),
                    Ghost(child_lo::<K>(lo, ks, child_idx as int)),
                    Ghost(child_hi::<K>(hi, ks, child_idx as int)),
                    Ghost(chain_next(cs, child_idx as int, nxt)),
                );
                let ghost pn = self.pager@;
                let ghost s2 = Shape::Node(page_id, cs.update(child_idx as int, c2));
                proof {
                    assert(!in_shape(cs[child_idx as int], page_id));
                    lemma_update_child::<K, V>(p0, pn, page_id, cs, lo, hi, nxt, child_idx as int, c2);
                    assert forall|i: int| 0 <= i < cs.len() implies hgt(#[trigger] cs[i]) < hgt(s) by {
                        lemma_hgt_seq_ge(cs, i);
                    }
                    lemma_hgt_update(page_id, cs, child_idx as int, c2, hgt(s));
                    if bal {
                        lemma_child_step_balanced::<K, V>(p0, pn, page_id, cs, lo, hi, nxt, child_idx as int, c2, tt, hgt(s));
                    }
                }
                (res, Ghost(s2))
            }
        }
    }

    /// Delete `key`; fails with `KeyNotFound` when it is absent. A root left
    /// with no separator and one child gives way to that child.
    #[verifier::rlimit(60)]
    pub fn delete(&mut self, key: &K) -> (r: Result<(), BTreeError>)
        requires
            old(self).wf(),
        ensures
            final(self).wf(),
            final(self).order() == old(self).order(),
            match r {
                Ok(()) => old(self)@.contains_key(key@) && final(self)@ == old(self)@.remove(key@),
                Err(e) => {
                    &&& e == BTreeError::KeyNotFound
                    &&& !old(self)@.contains_key(key@)
                    &&& final(self)@ == old(self)@
                },
            },
            final(self).height() <= old(self).height(),
            old(self).balanced() && old(self).root_has_key() ==> final(self).balanced(),
            old(self).balanced() && old(self).root_has_key() && r is Ok ==> final(self).root_has_key(),
            dirty_covers(old(self).pages(), final(self).pages()),
            final(self).pages().next_page_id == old(self).pages().next_page_id,
    {
        let ghost p0 = self.pager@;
        let ghost s0 = self.shape@;
        let ghost kk = key@;
        let root_id = self.pager.root_page_id;
        let (res, Ghost(s2)) = self.delete_from(root_id, key, Ghost(s0), Ghost(None), Ghost(None), Ghost(NO_LEAF));
        self.shape = Ghost(s2);
        proof {
            assert(lookup::<K, V>(p0, s0, kk) is Some == old(self)@.contains_key(kk));
            if balanced::<K, V>(p0, s0, self.t as int, hgt(s0)) && (s0 is Node ==> nkeys(p0, root_id) >= 1) {
                lemma_balanced_hgt::<K, V>(self.pager@, s2, self.t as int, hgt(s0));
            }
            lemma_wf_kind::<K, V>(p0, s0, None, None, NO_LEAF);
            lemma_zero_first_kept::<K, V>(p0, self.pager@, s0, s2);
        }
        match res {
            Err(e) => {
                proof {
                    assert(self@ =~= old(self)@);
                }
                return Err(e);
            },
            Ok(()) => {},
        }
        let ghost p1 = self.pager@;
        proof {
            lemma_wf_kind::<K, V>(p1, s2, None, None, NO_LEAF);
        }
        let new_root = match self.pager.read_node(root_id) {
            BTreeNode::Internal(n) => {
                if n.keys.len() == 0 && n.children.len() > 0 {
                    Some(n.children[0])
                } else {
                    None
                }
            },
            BTreeNode::Leaf(_) => None,
        };
        proof {
            if s2 is Node {
                assert(s2 == Shape::Node(root_id, s2->Node_1));
                lemma_node_parts::<K, V>(p1, root_id, s2->Node_1, None, None, NO_LEAF);
                assert(nkeys(p1, root_id) == node_seps(p1, root_id).len());
            }
        }
        if let Some(c) = new_root {
            let ghost cs2 = s2->Node_1;
            proof {
                assert(s2 == Shape::Node(root_id, cs2));
                lemma_node_parts::<K, V>(p1, root_id, cs2, None, None, NO_LEAF);
                lemma_child_wf::<K, V>(p1, root_id, cs2, None, None, NO_LEAF, 0);
                assert(node_seps(p1, root_id) =~= Seq::<K::V>::empty());
                assert(route::<K>(Seq::<K::V>::empty(), kk) == 0);
                assert forall|k: K::V| #[trigger] lookup::<K, V>(p1, cs2[0], k) == lookup::<K, V>(p1, s2, k) by {
                    assert(route::<K>(node_seps(p1, root_id), k) == 0);
                }
            }
            proof {
                lemma_hgt_seq_ge(cs2, 0);
                if balanced::<K, V>(p0, s0, self.t as int, hgt(s0)) && (s0 is Node ==> nkeys(p0, root_id) >= 1) {
                    lemma_balanced_unfold::<K, V>(p1, s2, self.t as int, hgt(s0));
                    lemma_balanced_hgt::<K, V>(p1, s2, self.t as int, hgt(s0));
                    lemma_balanced_hgt::<K, V>(p1, cs2[0], self.t as int, (hgt(s0) - 1) as nat);
                }
            }
            proof {
                if in_shape(cs2[0], 0) {
                    crate::shape::lemma_in_child(root_id, cs2, 0, 0);
                }
            }
            self.pager.root_page_id = c;
            self.shape = Ghost(cs2[0]);
        }
        proof {
            assert(self@ =~= old(self)@.remove(kk));
        }
        Ok(())
    }
}


impl<K: BTreeKey, V: BTreeValue> BTree<K, V> {
    /// Walk down to the leaf where the range starting at `start` begins: a
    /// copy of it and the position in it of its first key in the range.
    #[verifier::rlimit(60)]
    fn find_leaf_and_pos(
        &self,
        page_id: u64,
        start: &Bound<K>,
        Ghost(s): Ghost<Shape>,
        Ghost(lo): Ghost<Option<K::V>>,
        Ghost(hi): Ghost<Option<K::V>>,
        Ghost(nxt): Ghost<u64>,
    ) -> (r: (LeafNode<K, V>, usize, Ghost<int>))
        requires
            self.pager.wf(),
            wf_subtree::<K, V>(self.pager@, s, lo, hi, nxt),
            shape_id(s) == page_id,
        ensures
            ({
                let pages = self.pager@;
                let ls = leaves(s);
                let j = r.2@;
                let l = pages[ls[j] as int]->Leaf_0;
                let kl = key_views(l.keys@);
                let pre = run_keys::<K, V>(pages, ls.subrange(0, j));
                let suf = run_keys::<K, V>(pages, ls.subrange(j + 1, ls.len() as int));
                &&& 0 <= j < ls.len()
                &&& key_views(r.0.keys@) == kl
                &&& r.0.values@ == l.values@
                &&& r.0.next_leaf == l.next_leaf
                &&& r.1 <= kl.len()
                &&& forall|i: int| 0 <= i < r.1 ==> before_start::<K>(*start, #[trigger] kl[i])
                &&& forall|i: int| r.1 <= i < kl.len() ==> !before_start::<K>(*start, #[trigger] kl[i])
                &&& forall|i: int| 0 <= i < pre.len() ==> before_start::<K>(*start, #[trigger] pre[i])
                &&& forall|i: int| 0 <= i < suf.len() ==> !before_start::<K>(*start, #[trigger] suf[i])
                &&& *start is Unbounded ==> j == 0 && r.1 == 0
            }),
        decreases s,
    {
        let ghost pages = self.pager@;
        proof {
            lemma_wf_kind::<K, V>(pages, s, lo, hi, nxt);
        }
        match self.pager.read_node(page_id) {
            BTreeNode::Leaf(leaf) => {
                let ghost kl = key_views(leaf.keys@);
                proof {
                    lemma_leaf_entries::<K, V>(*leaf, lo, hi);
                }
                let nk = leaf.keys.len();
                let pos: usize = match start {
                    Bound::Unbounded => 0,
                    Bound::Included(x) => match search_sorted(&leaf.keys, x) {
                        Ok(i) => {
                            proof {
                                assert forall|j: int| 0 <= j < kl.len() implies (j < i) == lt::<K>(#[trigger] kl[j], x@) by {
                                    assert(kl[j] == leaf.keys@[j]@);
                                    assert(kl[i as int] == x@);
                                    if j > i {
                                        assert(lt::<K>(kl[i as int], kl[j]));
                                    }
                                }
                            }
                            i
                        },
                        Err(i) => {
                            proof {
                                assert forall|j: int| 0 <= j < kl.len() implies (j < i) == lt::<K>(#[trigger] kl[j], x@) by {
                                    assert(kl[j] == leaf.keys@[j]@);
                                }
                            }
                            i
                        },
                    },
                    Bound::Excluded(x) => match search_sorted(&leaf.keys, x) {
                        Ok(i) => {
                            proof {
                                assert forall|j: int| 0 <= j < kl.len() implies (j < i + 1) == le::<K>(#[trigger] kl[j], x@) by {
                                    assert(kl[j] == leaf.keys@[j]@);
                                    assert(kl[i as int] == x@);
                                    if j > i {
                                        assert(lt::<K>(kl[i as int], kl[j]));
                                    }
                                    if j < i {
                                        assert(lt::<K>(kl[j], kl[i as int]));
                                    }
                                }
                            }
                            i + 1
                        },
                        Err(i) => {
                            proof {
                                assert forall|j: int| 0 <= j < kl.len() implies (j < i) == le::<K>(#[trigger] kl[j], x@) by {
                                    assert(kl[j] == leaf.keys@[j]@);
                                }
                            }
                            i
                        },
                    },
                };
                let copy = copy_leaf(leaf);
                proof {
                    let ls = leaves(s);
                    assert(ls =~= seq![page_id]);
                    assert(ls.subrange(0, 0) =~= Seq::<u64>::empty());
                    assert(ls.subrange(1, 1) =~= Seq::<u64>::empty());
                    assert(run_keys::<K, V>(pages, Seq::<u64>::empty()) == Seq::<K::V>::empty());
                }
                (copy, pos, Ghost(0))
            },
            BTreeNode::Internal(n) => {
                let ghost cs = s->Node_1;
                let ghost ks = node_seps(pages, page_id);
                proof {
                    assert(s == Shape::Node(page_id, cs));
                    lemma_node_parts::<K, V>(pages, page_id, cs, lo, hi, nxt);
                }
                let ci: usize = match start {
                    Bound::Unbounded => 0,
                    Bound::Included(x) => child_index(&n.keys, x),
                    Bound::Excluded(x) => child_index(&n.keys, x),
                };
                let child = n.children[ci];
                proof {
                    lemma_child_wf::<K, V>(pages, page_id, cs, lo, hi, nxt, ci as int);
                }
                let (leaf, pos, Ghost(jc)) = self.find_leaf_and_pos(
                    child,
                    start,
                    Ghost(cs[ci as int]),
                    Ghost(child_lo::<K>(lo, ks, ci as int)),
                    Ghost(child_hi::<K>(hi, ks, ci as int)),
                    Ghost(chain_next(cs, ci as int, nxt)),
                );
                proof {
                    lemma_descend_step::<K, V>(pages, page_id, cs, lo, hi, nxt, ci as int, *start, jc);
                    if start is Unbounded {
                        assert(cs.subrange(0, 0) =~= Seq::<Shape>::empty());
                        assert(leaves_seq(Seq::<Shape>::empty()) == Seq::<u64>::empty());
                    }
                }
                (leaf, pos, Ghost(leaves_seq(cs.subrange(0, ci as int)).len() + jc))
            },
        }
    }

    /// A cursor over the entries whose keys lie from `start` to `end`.
    #[verifier::rlimit(60)]
    pub fn range(&mut self, start: Bound<K>, end: Bound<K>) -> (r: Result<Cursor<K, V>, BTreeError>)
        requires
            old(self).wf(),
        ensures
            *final(self) == *old(self),
            match r {
                Ok(c) => {
                    let pages = final(self).pages()@;
                    let pk = c.pending_keys(pages);
                    let pv = c.pending_vals(pages);
                    let n = bounded_len::<K>(pk, end) as int;
                    &&& c.wf(pages)
                    &&& c.end_bound() == end
                    &&& n <= pk.len()
                    &&& lists::<K, V>(old(self)@, pk.subrange(0, n), pv.subrange(0, n), start, end)
                },
                Err(_) => false,
            },
    {
        let ghost pages = self.pager@;
        let ghost s = self.shape@;
        let root_id = self.pager.root_page_id;
        let (leaf, pos, Ghost(j)) = self.find_leaf_and_pos(root_id, &start, Ghost(s), Ghost(None), Ghost(None), Ghost(NO_LEAF));
        let ghost ls = leaves(s);
        let ghost ids = ls.subrange(j + 1, ls.len() as int);
        proof {
            lemma_tree_chain::<K, V>(pages, s, None, None, NO_LEAF);
            crate::order::lemma_zero_first::<K, V>(pages, s, None, None, NO_LEAF);
            lemma_chain_suffix(pages, ls, j);
            lemma_scan_items::<K, V>(pages, s, None, None, NO_LEAF, j, pos as int, start, end);
            assert(ls[j] < pages.len());
        }
        let c = Cursor::new(leaf, pos, end);
        proof {
            let l = pages[ls[j] as int]->Leaf_0;
            assert(chain_ok(pages, leaf.next_leaf, ids));
            let pk = c.pending_keys(pages);
            let pv = c.pending_vals(pages);
            assert(pk == key_views(l.keys@).subrange(pos as int, l.keys@.len() as int) + run_keys::<K, V>(pages, ids));
            assert(pv == l.values@.subrange(pos as int, l.values@.len() as int) + run_vals::<K, V>(pages, ids));
            let n = bounded_len::<K>(pk, end) as int;
            let m = self@;
            let ks = pk.subrange(0, n);
            let vs = pv.subrange(0, n);
            assert forall|i: int| 0 <= i < ks.len() implies m.contains_key(#[trigger] ks[i]) && m[ks[i]] == vs[i]
                && !before_start::<K>(start, ks[i]) && within_end::<K>(end, ks[i]) by {
                assert(ks[i] == pk[i] && vs[i] == pv[i]);
                assert(lookup::<K, V>(pages, s, pk[i]) == Some(pv[i]));
            }
            assert forall|k: K::V| m.contains_key(k) && !before_start::<K>(start, k) && within_end::<K>(end, k) implies exists|i: int|
                0 <= i < ks.len() && #[trigger] ks[i] == k by {
                assert(lookup::<K, V>(pages, s, k) is Some);
                let i = choose|i: int| 0 <= i < n && pk[i] == k;
                assert(ks[i] == pk[i]);
            }
        }
        Ok(c)
    }

    /// All entries, in increasing key order.
    pub fn scan_all(&mut self) -> (r: Result<Vec<(K, V)>, BTreeError>)
        requires
            old(self).wf(),
        ensures
            *final(self) == *old(self),
            match r {
                Ok(v) => lists::<K, V>(old(self)@, pair_keys(v@), pair_vals(v@), Bound::Unbounded, Bound::Unbounded),
                Err(_) => false,
            },
    {
        let mut cursor = match self.range(Bound::Unbounded, Bound::Unbounded) {
            Ok(c) => c,
            Err(e) => {
                return Err(e);
            },
        };
        let ghost pages = self.pager@;
        let ghost pk = cursor.pending_keys(pages);
        let ghost pv = cursor.pending_vals(pages);
        proof {
            cursor.lemma_pending_lens(pages);
        }
        let r = cursor.collect_all(&self.pager);
        proof {
            let n = bounded_len::<K>(pk, Bound::Unbounded) as int;
            let v = r->Ok_0@;
            assert(pair_keys(v) =~= pk.subrange(0, n));
            assert(pair_vals(v) =~= pv.subrange(0, n));
        }
        r
    }
}

} // verus!
