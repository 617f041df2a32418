//! Tree nodes. Each node is stored in one page.
//!
//! Internal nodes hold separator keys and the page ids of their children;
//! leaf nodes hold the key-value pairs and the page id of the next leaf.
use crate::key::{group_key_order, lt, BTreeKey, KeyOrdering};
use vstd::prelude::*;

verus! {

broadcast use group_key_order;

/// The page id that stands for "no page" (a pager without a root).
pub const NO_PAGE: u64 = 0xffff_ffff_ffff_ffff;

/// The link of the last leaf: 0 means no next leaf. Page 0 can stand for
/// that because it is never a next leaf: a tree that holds page 0 has it as
/// its first leaf.
pub const NO_LEAF: u64 = 0;

/// A single node of the tree, stored as one page.
pub enum BTreeNode<K, V> {
    Internal(InternalNode<K>),
    Leaf(LeafNode<K, V>),
}

pub struct InternalNode<K> {
    /// Separator keys: every key under `children[i]` is below `keys[i]`,
    /// and every key under `children[i + 1]` is at least `keys[i]`.
    pub keys: Vec<K>,
    /// Page ids of the children; one more than there are keys.
    pub children: Vec<u64>,
}

pub struct LeafNode<K, V> {
    pub keys: Vec<K>,
    pub values: Vec<V>,
    /// Page id of the next leaf; 0 (`NO_LEAF`) means no next leaf.
    pub next_leaf: u64,
}

/// The views of a sequence of keys.
pub open spec fn key_views<K: BTreeKey>(ks: Seq<K>) -> Seq<K::V> {
    ks.map_values(|k: K| k@)
}

/// Strictly increasing in the key order.
pub open spec fn sorted<K: BTreeKey>(s: Seq<K::V>) -> bool {
    forall|i: int, j: int| #![trigger s[i], s[j]] 0 <= i < j < s.len() ==> lt::<K>(s[i], s[j])
}

/// The key sequence of a node.
pub open spec fn node_keys<K: BTreeKey, V>(n: BTreeNode<K, V>) -> Seq<K::V> {
    match n {
        BTreeNode::Internal(i) => key_views(i.keys@),
        BTreeNode::Leaf(l) => key_views(l.keys@),
    }
}

/// Binary search of `key` in `keys`: `Ok(i)` where `keys[i]` equals `key`,
/// `Err(i)` with the position where `key` would be inserted.
pub fn search_sorted<K: BTreeKey>(keys: &Vec<K>, key: &K) -> (r: Result<usize, usize>)
    ensures
        match r {
            Ok(i) => i < keys@.len() && keys@[i as int]@ == key@,
            Err(i) => {
                &&& i <= keys@.len()
                &&& sorted::<K>(key_views(keys@)) ==> {
                    &&& forall|j: int| 0 <= j < i ==> lt::<K>(#[trigger] keys@[j]@, key@)
                    &&& forall|j: int| i <= j < keys@.len() ==> lt::<K>(key@, #[trigger] keys@[j]@)
                }
            },
        },
{
    let ghost ks = key_views(keys@);
    let mut lo: usize = 0;
    let mut hi: usize = keys.len();
    while lo < hi
        invariant
            0 <= lo <= hi <= keys@.len(),
            ks == key_views(keys@),
            sorted::<K>(ks) ==> forall|j: int| 0 <= j < lo ==> lt::<K>(#[trigger] keys@[j]@, key@),
            sorted::<K>(ks) ==> forall|j: int|
                hi <= j < keys@.len() ==> lt::<K>(key@, #[trigger] keys@[j]@),
        decreases hi - lo,
    {
        let mid = lo + (hi - lo) / 2;
        let c = keys[mid].compare(key);
        match c {
            KeyOrdering::Less => {
                assert(lt::<K>(keys@[mid as int]@, key@));
                proof {
                    if sorted::<K>(ks) {
                        assert forall|j: int| 0 <= j < mid + 1 implies lt::<K>(
                            #[trigger] keys@[j]@,
                            key@,
                        ) by {
                            if j < mid {
                                assert(ks[j] == keys@[j]@ && ks[mid as int] == keys@[mid as int]@);
                                assert(lt::<K>(ks[j], ks[mid as int]));
                            }
                        }
                    }
                }
                lo = mid + 1;
            },
            KeyOrdering::Equal => {
                return Ok(mid);
            },
            KeyOrdering::Greater => {
                assert(lt::<K>(key@, keys@[mid as int]@));
                proof {
                    if sorted::<K>(ks) {
                        assert forall|j: int| mid <= j < keys@.len() implies lt::<K>(
                            key@,
                            #[trigger] keys@[j]@,
                        ) by {
                            if j > mid {
                                assert(ks[j] == keys@[j]@ && ks[mid as int] == keys@[mid as int]@);
                                assert(lt::<K>(ks[mid as int], ks[j]));
                            }
                        }
                    }
                }
                hi = mid;
            },
        }
    }
    Err(lo)
}

impl<K: BTreeKey, V> BTreeNode<K, V> {
    /// An empty leaf with no next leaf.
    pub fn new_leaf() -> (r: Self)
        ensures
            r matches BTreeNode::Leaf(l) && l.keys@.len() == 0 && l.values@.len() == 0
                && l.next_leaf == NO_LEAF,
    {
        BTreeNode::Leaf(LeafNode { keys: Vec::new(), values: Vec::new(), next_leaf: NO_LEAF })
    }

    /// An internal node without keys: its one child slot, which it has as
    /// every internal node has one child more than keys, points at no page
    /// yet.
    pub fn new_internal() -> (r: Self)
        ensures
            r matches BTreeNode::Internal(n) && n.keys@.len() == 0 && n.children@ == seq![NO_PAGE],
    {
        let mut children: Vec<u64> = Vec::new();
        children.push(NO_PAGE);
        BTreeNode::Internal(InternalNode { keys: Vec::new(), children })
    }

    pub fn is_leaf(&self) -> (r: bool)
        ensures
            r == (*self is Leaf),
    {
        match self {
            BTreeNode::Leaf(_) => true,
            BTreeNode::Internal(_) => false,
        }
    }

    /// Number of keys in this node.
    pub fn num_keys(&self) -> (r: usize)
        ensures
            r == node_keys(*self).len(),
    {
        match self {
            BTreeNode::Internal(n) => n.keys.len(),
            BTreeNode::Leaf(n) => n.keys.len(),
        }
    }

    /// True when this node has reached `2 * order - 1` keys and must be split
    /// before an insertion.
    pub fn is_full(&self, order: usize) -> (r: bool)
        requires
            1 <= order,
        ensures
            r == (node_keys(*self).len() >= 2 * order - 1),
    {
        let n = self.num_keys();
        n >= order && n - order >= order - 1
    }

    /// Binary search for a key in this node. Returns `Ok(index)` on an exact
    /// match, `Err(index)` for the slot where the key would go.
    pub fn search_keys(&self, key: &K) -> (r: Result<usize, usize>)
        ensures
            match r {
                Ok(i) => i < node_keys(*self).len() && node_keys(*self)[i as int] == key@,
                Err(i) => {
                    &&& i <= node_keys(*self).len()
                    &&& sorted::<K>(node_keys(*self)) ==> {
                        &&& forall|j: int| 0 <= j < i ==> lt::<K>(#[trigger] node_keys(*self)[j], key@)
                        &&& forall|j: int|
                            i <= j < node_keys(*self).len() ==> lt::<K>(
                                key@,
                                #[trigger] node_keys(*self)[j],
                            )
                    }
                },
            },
    {
        match self {
            BTreeNode::Internal(n) => search_sorted(&n.keys, key),
            BTreeNode::Leaf(n) => search_sorted(&n.keys, key),
        }
    }
}

} // verus!
