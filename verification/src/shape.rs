//! The model of a tree over pages.
//!
//! A ghost `Shape` records which pages form a subtree; `wf_subtree` ties the
//! pages to it, and `lookup` says what the subtree maps each key to.
use crate::key::{group_key_order, le, lemma_lt_asymmetric, lemma_lt_total, lt, BTreeKey, BTreeValue};
use crate::node::{key_views, sorted, BTreeNode, InternalNode, LeafNode, NO_PAGE};
use vstd::prelude::*;

verus! {


/// The shape of a subtree: the page id of each node, and for an internal
/// node the shapes of its children, in order.
pub enum Shape {
    Leaf(u64),
    Node(u64, Seq<Shape>),
}

/// The page id of the root of a shape.
pub open spec fn shape_id(s: Shape) -> u64 {
    match s {
        Shape::Leaf(id) => id,
        Shape::Node(id, _) => id,
    }
}

/// Page `p` belongs to the subtree of shape `s`.
pub open spec fn in_shape(s: Shape, p: u64) -> bool
    decreases s,
{
    match s {
        Shape::Leaf(id) => id == p,
        Shape::Node(id, cs) => id == p || exists|i: int| #![trigger cs[i]] 0 <= i < cs.len() && in_shape(cs[i], p),
    }
}

/// A page of a child belongs to the node's subtree.
#[verifier::rlimit(50)]
pub proof fn lemma_in_child(id: u64, cs: Seq<Shape>, i: int, p: u64)
    requires
        0 <= i < cs.len(),
        in_shape(cs[i], p),
    ensures
        in_shape(Shape::Node(id, cs), p),
{
    let s = Shape::Node(id, cs);
    assert(decreases_to!(s => s->Node_1));
    assert(decreases_to!(s->Node_1 => s->Node_1[i]));
    assert(decreases_to!(s => cs[i]));
}

/// The page id of the leftmost leaf of a shape.
pub open spec fn first_leaf(s: Shape) -> u64
    decreases s,
{
    match s {
        Shape::Leaf(id) => id,
        Shape::Node(_, cs) => if cs.len() > 0 {
            first_leaf(cs[0])
        } else {
            NO_PAGE
        },
    }
}

/// `k` lies in the half-open range from `lo` (included) to `hi` (excluded);
/// `None` leaves that side open.
pub open spec fn in_range<K: BTreeKey>(lo: Option<K::V>, hi: Option<K::V>, k: K::V) -> bool {
    &&& (match lo {
        Some(l) => le::<K>(l, k),
        None => true,
    })
    &&& (match hi {
        Some(h) => lt::<K>(k, h),
        None => true,
    })
}

/// `x` lies strictly above the bound `lo`.
pub open spec fn above<K: BTreeKey>(lo: Option<K::V>, x: K::V) -> bool {
    match lo {
        Some(l) => lt::<K>(l, x),
        None => true,
    }
}

/// `x` lies strictly below the bound `hi`.
pub open spec fn below<K: BTreeKey>(hi: Option<K::V>, x: K::V) -> bool {
    match hi {
        Some(h) => lt::<K>(x, h),
        None => true,
    }
}

/// `x` lies strictly between the bounds.
pub open spec fn strictly_in<K: BTreeKey>(lo: Option<K::V>, hi: Option<K::V>, x: K::V) -> bool {
    above::<K>(lo, x) && below::<K>(hi, x)
}

/// The lower bound of the keys under child `i` of a node with separators `ks`.
pub open spec fn child_lo<K: BTreeKey>(lo: Option<K::V>, ks: Seq<K::V>, i: int) -> Option<K::V> {
    if i == 0 {
        lo
    } else {
        Some(ks[i - 1])
    }
}

/// The upper bound of the keys under child `i` of a node with separators `ks`.
pub open spec fn child_hi<K: BTreeKey>(hi: Option<K::V>, ks: Seq<K::V>, i: int) -> Option<K::V> {
    if i == ks.len() {
        hi
    } else {
        Some(ks[i])
    }
}

/// The page the last leaf under child `i` links to.
pub open spec fn chain_next(cs: Seq<Shape>, i: int, nxt: u64) -> u64 {
    if i + 1 < cs.len() {
        first_leaf(cs[i + 1])
    } else {
        nxt
    }
}

/// The child a key is routed to: the number of separators at or below it.
pub open spec fn route<K: BTreeKey>(ks: Seq<K::V>, k: K::V) -> int
    decreases ks.len(),
{
    if ks.len() == 0 {
        0
    } else if lt::<K>(k, ks.last()) {
        route::<K>(ks.drop_last(), k)
    } else {
        ks.len() as int
    }
}

/// The keys of a leaf are sorted, lie in the range, and pair with its values.
#[verifier::opaque]
pub open spec fn leaf_ok<K: BTreeKey, V>(l: LeafNode<K, V>, lo: Option<K::V>, hi: Option<K::V>) -> bool {
    let ks = key_views(l.keys@);
    &&& l.keys@.len() == l.values@.len()
    &&& sorted::<K>(ks)
    &&& forall|i: int| 0 <= i < ks.len() ==> in_range::<K>(lo, hi, #[trigger] ks[i])
}

/// The separators of an internal node are sorted and lie in the range, and
/// its child pointers are the roots of the child shapes.
#[verifier::opaque]
pub open spec fn internal_ok<K: BTreeKey>(
    n: InternalNode<K>,
    cs: Seq<Shape>,
    lo: Option<K::V>,
    hi: Option<K::V>,
) -> bool {
    let ks = key_views(n.keys@);
    &&& n.children@.len() == cs.len()
    &&& cs.len() == ks.len() + 1
    &&& sorted::<K>(ks)
    &&& forall|i: int| 0 <= i < ks.len() ==> strictly_in::<K>(lo, hi, #[trigger] ks[i])
    &&& forall|i: int| 0 <= i < cs.len() ==> n.children@[i] == shape_id(#[trigger] cs[i])
}

/// The subtree of shape `s` is well formed in `pages`: each node is in its
/// page, keys are ordered and lie between `lo` and `hi`, no page occurs
/// twice, and the leaves are chained left to right, the last one to `nxt`.
#[verifier::opaque]
pub open spec fn wf_subtree<K: BTreeKey, V>(
    pages: Seq<BTreeNode<K, V>>,
    s: Shape,
    lo: Option<K::V>,
    hi: Option<K::V>,
    nxt: u64,
) -> bool
    decreases s,
{
    match s {
        Shape::Leaf(id) => {
            &&& id < pages.len()
            &&& pages[id as int] matches BTreeNode::Leaf(l)
            &&& leaf_ok::<K, V>(l, lo, hi)
            &&& l.next_leaf == nxt
        },
        Shape::Node(id, cs) => {
            &&& id < pages.len()
            &&& pages[id as int] matches BTreeNode::Internal(n)
            &&& internal_ok::<K>(n, cs, lo, hi)
            &&& forall|i: int|
                #![trigger cs[i]]
                0 <= i < cs.len() ==> wf_subtree::<K, V>(
                    pages,
                    cs[i],
                    child_lo::<K>(lo, key_views(n.keys@), i),
                    child_hi::<K>(hi, key_views(n.keys@), i),
                    chain_next(cs, i, nxt),
                )
            &&& children_disjoint(cs, id)
        },
    }
}

/// Each child is well formed within the range its separators give it, and
/// its last leaf links to the first leaf of the next child.
pub open spec fn children_wf<K: BTreeKey, V>(
    pages: Seq<BTreeNode<K, V>>,
    cs: Seq<Shape>,
    ks: Seq<K::V>,
    lo: Option<K::V>,
    hi: Option<K::V>,
    nxt: u64,
) -> bool {
    forall|i: int|
        #![trigger cs[i]]
        0 <= i < cs.len() ==> wf_subtree::<K, V>(
            pages,
            cs[i],
            child_lo::<K>(lo, ks, i),
            child_hi::<K>(hi, ks, i),
            chain_next(cs, i, nxt),
        )
}

/// No two subtrees share a page.
pub open spec fn pairwise_disjoint(cs: Seq<Shape>) -> bool {
    forall|i: int, j: int, p: u64|
        0 <= i < j < cs.len() ==> !(#[trigger] in_shape(cs[i], p) && #[trigger] in_shape(cs[j], p))
}

/// No child holds the page `id`, and no two children share a page.
#[verifier::opaque]
pub open spec fn children_disjoint(cs: Seq<Shape>, id: u64) -> bool {
    &&& forall|i: int| 0 <= i < cs.len() ==> !in_shape(#[trigger] cs[i], id)
    &&& pairwise_disjoint(cs)
}

/// What the sorted keys `ks`, paired with the values `vs`, map `k` to.
pub open spec fn seq_lookup<K: BTreeKey, V>(ks: Seq<K::V>, vs: Seq<V>, k: K::V) -> Option<V> {
    let r = route::<K>(ks, k);
    if 0 < r <= ks.len() && ks[r - 1] == k {
        Some(vs[r - 1])
    } else {
        None
    }
}

/// What a leaf maps `k` to.
pub open spec fn leaf_lookup<K: BTreeKey, V>(l: LeafNode<K, V>, k: K::V) -> Option<V> {
    seq_lookup::<K, V>(key_views(l.keys@), l.values@, k)
}

/// What the subtree of shape `s` maps `k` to: follow the separators down to
/// a leaf.
pub open spec fn lookup<K: BTreeKey, V>(pages: Seq<BTreeNode<K, V>>, s: Shape, k: K::V) -> Option<V>
    decreases s,
{
    match s {
        Shape::Leaf(id) => if id < pages.len() {
            match pages[id as int] {
                BTreeNode::Leaf(l) => leaf_lookup::<K, V>(l, k),
                BTreeNode::Internal(_) => None,
            }
        } else {
            None
        },
        Shape::Node(id, cs) => if id < pages.len() {
            match pages[id as int] {
                BTreeNode::Internal(n) => {
                    let r = route::<K>(key_views(n.keys@), k);
                    if 0 <= r < cs.len() {
                        lookup::<K, V>(pages, cs[r], k)
                    } else {
                        None
                    }
                },
                BTreeNode::Leaf(_) => None,
            }
        } else {
            None
        },
    }
}

// ---------------------------------------------------------------------------
// Routing.

/// The routed child index is the one whose range holds the key.
#[verifier::rlimit(50)]
pub proof fn lemma_route<K: BTreeKey>(ks: Seq<K::V>, k: K::V)
    requires
        sorted::<K>(ks),
    ensures
        0 <= route::<K>(ks, k) <= ks.len(),
        forall|j: int| 0 <= j < route::<K>(ks, k) ==> le::<K>(#[trigger] ks[j], k),
        forall|j: int| route::<K>(ks, k) <= j < ks.len() ==> lt::<K>(k, #[trigger] ks[j]),
    decreases ks.len(),
{
    broadcast use group_key_order;
    if ks.len() > 0 {
        let r = route::<K>(ks, k);
        if lt::<K>(k, ks.last()) {
            let d = ks.drop_last();
            assert(sorted::<K>(d)) by {
                assert forall|i: int, j: int| 0 <= i < j < d.len() implies lt::<K>(d[i], d[j]) by {
                    assert(d[i] == ks[i] && d[j] == ks[j]);
                }
            }
            lemma_route::<K>(d, k);
            assert forall|j: int| 0 <= j < r implies le::<K>(#[trigger] ks[j], k) by {
                assert(d[j] == ks[j]);
            }
            assert forall|j: int| r <= j < ks.len() implies lt::<K>(k, #[trigger] ks[j]) by {
                if j < ks.len() - 1 {
                    assert(d[j] == ks[j]);
                }
            }
        } else {
            lemma_lt_total::<K>(k, ks.last());
            assert forall|j: int| 0 <= j < r implies le::<K>(#[trigger] ks[j], k) by {
                if j < ks.len() - 1 {
                    assert(lt::<K>(ks[j], ks[ks.len() - 1]));
                }
            }
        }
    }
}

/// Any index whose range holds the key is the routed index.
#[verifier::rlimit(50)]
pub proof fn lemma_route_unique<K: BTreeKey>(ks: Seq<K::V>, k: K::V, i: int)
    requires
        sorted::<K>(ks),
        0 <= i <= ks.len(),
        i > 0 ==> le::<K>(ks[i - 1], k),
        i < ks.len() ==> lt::<K>(k, ks[i]),
    ensures
        route::<K>(ks, k) == i,
{
    broadcast use group_key_order;
    lemma_route::<K>(ks, k);
    let r = route::<K>(ks, k);
    if r < i {
        let a = ks[r];
        let b = ks[i - 1];
        assert(lt::<K>(k, a));
        assert(le::<K>(b, k));
        if r < i - 1 {
            assert(lt::<K>(a, b));
            if b == k {
                lemma_lt_asymmetric::<K>(k, a);
            } else {
                assert(lt::<K>(a, k));
                lemma_lt_asymmetric::<K>(k, a);
            }
        } else {
            if a == k {
                assert(lt::<K>(k, k));
            } else {
                lemma_lt_asymmetric::<K>(k, a);
            }
        }
    } else if r > i {
        assert(le::<K>(ks[i], k));
        if ks[i] == k {
            assert(lt::<K>(k, k));
        } else {
            lemma_lt_asymmetric::<K>(k, ks[i]);
        }
    }
}


// ---------------------------------------------------------------------------
// Pages of a subtree.

/// Every page of a well-formed subtree is allocated.
#[verifier::rlimit(100)]
pub proof fn lemma_in_shape_bounded<K: BTreeKey, V>(
    pages: Seq<BTreeNode<K, V>>,
    s: Shape,
    lo: Option<K::V>,
    hi: Option<K::V>,
    nxt: u64,
)
    requires
        wf_subtree::<K, V>(pages, s, lo, hi, nxt),
    ensures
        forall|p: u64| #[trigger] in_shape(s, p) ==> p < pages.len(),
    decreases s,
{
    reveal(wf_subtree);
    if let Shape::Node(id, cs) = s {
        let ks = node_seps(pages, id);
        assert forall|p: u64| #[trigger] in_shape(s, p) implies p < pages.len() by {
            if p != id {
                let i = choose|i: int| #![trigger cs[i]] 0 <= i < cs.len() && in_shape(cs[i], p);
                lemma_child_wf::<K, V>(pages, id, cs, lo, hi, nxt, i);
                lemma_in_shape_bounded::<K, V>(
                    pages,
                    cs[i],
                    child_lo::<K>(lo, ks, i),
                    child_hi::<K>(hi, ks, i),
                    chain_next(cs, i, nxt),
                );
            }
        }
    }
}

/// Lookups in a subtree are unaffected by writes to pages outside it.
#[verifier::rlimit(50)]
pub proof fn lemma_frame_lookup<K: BTreeKey, V>(p1: Seq<BTreeNode<K, V>>, p2: Seq<BTreeNode<K, V>>, s: Shape)
    requires
        p1.len() <= p2.len(),
        forall|p: u64| #[trigger] in_shape(s, p) ==> p < p1.len() && p2[p as int] == p1[p as int],
    ensures
        forall|k: K::V| #[trigger] lookup::<K, V>(p2, s, k) == lookup::<K, V>(p1, s, k),
    decreases s,
{
    match s {
        Shape::Leaf(id) => {
            assert(in_shape(s, id));
        },
        Shape::Node(id, cs) => {
            assert(in_shape(s, id));
            assert forall|k: K::V| #[trigger] lookup::<K, V>(p2, s, k) == lookup::<K, V>(p1, s, k) by {
                let r = route::<K>(node_seps(p1, id), k);
                if 0 <= r < cs.len() {
                    assert forall|p: u64| #[trigger] in_shape(cs[r], p) implies p < p1.len() && p2[p as int] == p1[p as int] by {
                        lemma_in_child(id, cs, r, p);
                    }
                    lemma_frame_lookup::<K, V>(p1, p2, cs[r]);
                    assert(lookup::<K, V>(p2, cs[r], k) == lookup::<K, V>(p1, cs[r], k));
                }
                assert(p2[id as int] == p1[id as int]);
            }
        },
    }
}

/// A subtree stays well formed under writes to pages outside it.
#[verifier::spinoff_prover]
#[verifier::rlimit(50)]
pub proof fn lemma_frame_wf<K: BTreeKey, V>(
    p1: Seq<BTreeNode<K, V>>,
    p2: Seq<BTreeNode<K, V>>,
    s: Shape,
    lo: Option<K::V>,
    hi: Option<K::V>,
    nxt: u64,
)
    requires
        wf_subtree::<K, V>(p1, s, lo, hi, nxt),
        p1.len() <= p2.len(),
        forall|p: u64| #[trigger] in_shape(s, p) && p < p1.len() ==> p2[p as int] == p1[p as int],
    ensures
        wf_subtree::<K, V>(p2, s, lo, hi, nxt),
    decreases s,
{
    reveal(wf_subtree);
    match s {
        Shape::Leaf(id) => {
            assert(in_shape(s, id));
        },
        Shape::Node(id, cs) => {
            assert(in_shape(s, id));
            let ks = node_seps(p1, id);
            assert forall|i: int| 0 <= i < cs.len() implies wf_subtree::<K, V>(p2, #[trigger] cs[i], child_lo::<K>(lo, ks, i), child_hi::<K>(hi, ks, i), chain_next(cs, i, nxt)) by {
                lemma_child_wf::<K, V>(p1, id, cs, lo, hi, nxt, i);
                assert forall|p: u64| #[trigger] in_shape(cs[i], p) && p < p1.len() implies p2[p as int]
                    == p1[p as int] by {
                    lemma_in_child(id, cs, i, p);
                }
                lemma_frame_wf::<K, V>(p1, p2, cs[i], child_lo::<K>(lo, ks, i), child_hi::<K>(hi, ks, i), chain_next(cs, i, nxt));
            }
            assert(children_wf::<K, V>(p2, cs, ks, lo, hi, nxt)) by {
                
            }
        },
    }
}

/// A subtree is unaffected by writes to pages outside it.
#[verifier::rlimit(50)]
pub proof fn lemma_frame<K: BTreeKey, V>(
    p1: Seq<BTreeNode<K, V>>,
    p2: Seq<BTreeNode<K, V>>,
    s: Shape,
    lo: Option<K::V>,
    hi: Option<K::V>,
    nxt: u64,
)
    requires
        wf_subtree::<K, V>(p1, s, lo, hi, nxt),
        p1.len() <= p2.len(),
        forall|p: u64| #[trigger] in_shape(s, p) && p < p1.len() ==> p2[p as int] == p1[p as int],
    ensures
        wf_subtree::<K, V>(p2, s, lo, hi, nxt),
        forall|k: K::V| #[trigger] lookup::<K, V>(p2, s, k) == lookup::<K, V>(p1, s, k),
{
    lemma_in_shape_bounded::<K, V>(p1, s, lo, hi, nxt);
    lemma_frame_wf::<K, V>(p1, p2, s, lo, hi, nxt);
    lemma_frame_lookup::<K, V>(p1, p2, s);
}

// ---------------------------------------------------------------------------
// Replacing a run of children.

/// `s` with the elements from `a` up to (not including) `b` replaced by `mid`.
pub open spec fn splice<A>(s: Seq<A>, a: int, b: int, mid: Seq<A>) -> Seq<A> {
    s.subrange(0, a) + mid + s.subrange(b, s.len() as int)
}

/// Page `p` belongs to one of the children `a..=b`.
pub open spec fn in_children(cs: Seq<Shape>, a: int, b: int, p: u64) -> bool {
    exists|i: int| #![trigger cs[i]] a <= i <= b && in_shape(cs[i], p)
}

/// Routing over spliced separators: a key routed into the replaced run is
/// routed by the new separators `mk` within it.
#[verifier::rlimit(50)]
pub proof fn lemma_route_splice<K: BTreeKey>(ks: Seq<K::V>, a: int, b: int, mk: Seq<K::V>, k: K::V)
    requires
        sorted::<K>(ks),
        sorted::<K>(splice(ks, a, b, mk)),
        sorted::<K>(mk),
        0 <= a <= b <= ks.len(),
    ensures
        route::<K>(ks, k) < a ==> route::<K>(splice(ks, a, b, mk), k) == route::<K>(ks, k),
        b < route::<K>(ks, k) ==> route::<K>(splice(ks, a, b, mk), k) == route::<K>(ks, k) - (b - a) + mk.len(),
        a <= route::<K>(ks, k) <= b ==> route::<K>(splice(ks, a, b, mk), k) == a + route::<K>(mk, k),
{
    broadcast use group_key_order;
    let ks2 = splice(ks, a, b, mk);
    let r = route::<K>(ks, k);
    lemma_route::<K>(ks, k);
    lemma_route::<K>(mk, k);
    let rm = route::<K>(mk, k);
    if r < a {
        if r > 0 {
            assert(ks2[r - 1] == ks[r - 1]);
        }
        assert(ks2[r] == ks[r]);
        lemma_route_unique::<K>(ks2, k, r);
    } else if r > b {
        let r2 = r - (b - a) + mk.len();
        assert(ks2[r2 - 1] == ks[r - 1]);
        if r < ks.len() {
            assert(ks2[r2] == ks[r]);
        }
        lemma_route_unique::<K>(ks2, k, r2);
    } else {
        let r2 = a + rm;
        if r2 > 0 {
            if rm > 0 {
                assert(ks2[r2 - 1] == mk[rm - 1]);
            } else {
                assert(ks2[r2 - 1] == ks[a - 1]);
            }
        }
        if r2 < ks2.len() {
            if rm < mk.len() {
                assert(ks2[r2] == mk[rm]);
            } else {
                assert(ks2[r2] == ks[b]);
            }
        }
        lemma_route_unique::<K>(ks2, k, r2);
    }
}

/// Sortedness of spliced separators.
#[verifier::rlimit(50)]
pub proof fn lemma_sorted_splice<K: BTreeKey>(
    ks: Seq<K::V>,
    a: int,
    b: int,
    mk: Seq<K::V>,
    lo: Option<K::V>,
    hi: Option<K::V>,
)
    requires
        sorted::<K>(ks),
        sorted::<K>(mk),
        forall|j: int| 0 <= j < ks.len() ==> strictly_in::<K>(lo, hi, #[trigger] ks[j]),
        0 <= a <= b <= ks.len(),
        forall|j: int|
            0 <= j < mk.len() ==> above::<K>(child_lo::<K>(lo, ks, a), #[trigger] mk[j]) && below::<K>(
                child_hi::<K>(hi, ks, b),
                mk[j],
            ),
    ensures
        sorted::<K>(splice(ks, a, b, mk)),
        forall|j: int|
            0 <= j < splice(ks, a, b, mk).len() ==> strictly_in::<K>(lo, hi, #[trigger] splice(ks, a, b, mk)[j]),
{
    broadcast use group_key_order;
    let ks2 = splice(ks, a, b, mk);
    let m = mk.len();
    assert forall|i: int, j: int| 0 <= i < j < ks2.len() implies lt::<K>(ks2[i], ks2[j]) by {
        if j < a {
            assert(ks2[i] == ks[i] && ks2[j] == ks[j]);
        } else if j < a + m {
            if i < a {
                assert(ks2[i] == ks[i]);
                assert(ks2[j] == mk[j - a]);
                if i < a - 1 {
                    assert(lt::<K>(ks[i], ks[a - 1]));
                }
            } else {
                assert(ks2[i] == mk[i - a] && ks2[j] == mk[j - a]);
            }
        } else {
            let jj = j - a - m + b;
            assert(ks2[j] == ks[jj]);
            if i < a {
                assert(ks2[i] == ks[i]);
            } else if i < a + m {
                assert(ks2[i] == mk[i - a]);
                if jj > b {
                    assert(lt::<K>(ks[b], ks[jj]));
                }
            } else {
                assert(ks2[i] == ks[i - a - m + b]);
            }
        }
    }
    assert forall|j: int| 0 <= j < ks2.len() implies strictly_in::<K>(lo, hi, #[trigger] ks2[j]) by {
        if j < a {
            assert(ks2[j] == ks[j]);
        } else if j < a + m {
            assert(ks2[j] == mk[j - a]);
            if a > 0 {
                assert(strictly_in::<K>(lo, hi, ks[a - 1]));
            }
            if b < ks.len() {
                assert(strictly_in::<K>(lo, hi, ks[b]));
            }
        } else {
            assert(ks2[j] == ks[j - a - m + b]);
        }
    }
}



/// The separators of the internal node in page `id`.
pub open spec fn node_seps<K: BTreeKey, V>(pages: Seq<BTreeNode<K, V>>, id: u64) -> Seq<K::V> {
    key_views(pages[id as int]->Internal_0.keys@)
}

/// A child of a well-formed node is well formed within its range.
#[verifier::rlimit(50)]
pub proof fn lemma_child_wf<K: BTreeKey, V>(
    pages: Seq<BTreeNode<K, V>>,
    id: u64,
    cs: Seq<Shape>,
    lo: Option<K::V>,
    hi: Option<K::V>,
    nxt: u64,
    i: int,
)
    requires
        wf_subtree::<K, V>(pages, Shape::Node(id, cs), lo, hi, nxt),
        0 <= i < cs.len(),
    ensures
        wf_subtree::<K, V>(
            pages,
            cs[i],
            child_lo::<K>(lo, node_seps(pages, id), i),
            child_hi::<K>(hi, node_seps(pages, id), i),
            chain_next(cs, i, nxt),
        ),
{
    reveal(wf_subtree);
    
}


/// The children of a node after the run `a..=b` is replaced by `mcs` and
/// the separators between them by `mk` are well formed, given that the new
/// ones are and the pages of the others are unchanged.
#[verifier::spinoff_prover]
#[verifier::rlimit(50)]
proof fn lemma_splice_children_wf<K: BTreeKey, V>(
    p1: Seq<BTreeNode<K, V>>,
    p2: Seq<BTreeNode<K, V>>,
    cs: Seq<Shape>,
    ks: Seq<K::V>,
    a: int,
    b: int,
    mk: Seq<K::V>,
    mcs: Seq<Shape>,
    lo: Option<K::V>,
    hi: Option<K::V>,
    nxt: u64,
)
    requires
        children_wf::<K, V>(p1, cs, ks, lo, hi, nxt),
        cs.len() == ks.len() + 1,
        0 <= a <= b < cs.len(),
        mcs.len() == mk.len() + 1,
        p1.len() <= p2.len(),
        forall|j: int|
            #![trigger mcs[j]]
            0 <= j < mcs.len() ==> wf_subtree::<K, V>(
                p2,
                mcs[j],
                child_lo::<K>(child_lo::<K>(lo, ks, a), mk, j),
                child_hi::<K>(child_hi::<K>(hi, ks, b), mk, j),
                chain_next(mcs, j, chain_next(cs, b, nxt)),
            ),
        first_leaf(mcs[0]) == first_leaf(cs[a]),
        forall|i: int, p: u64|
            0 <= i < cs.len() && !(a <= i <= b) && #[trigger] in_shape(cs[i], p) && p < p1.len()
                ==> p2[p as int] == p1[p as int],
    ensures
        children_wf::<K, V>(p2, splice(cs, a, b + 1, mcs), splice(ks, a, b, mk), lo, hi, nxt),
        forall|i: int, k: K::V|
            0 <= i < cs.len() && !(a <= i <= b) ==> #[trigger] lookup::<K, V>(p2, cs[i], k)
                == lookup::<K, V>(p1, cs[i], k),
{
    
    let cs2 = splice(cs, a, b + 1, mcs);
    let ks2 = splice(ks, a, b, mk);
    let lo_a = child_lo::<K>(lo, ks, a);
    let hi_b = child_hi::<K>(hi, ks, b);
    let m = mcs.len();
    assert forall|i: int| #![trigger cs[i]] 0 <= i < cs.len() && !(a <= i <= b) implies wf_subtree::<K, V>(
        p2,
        cs[i],
        child_lo::<K>(lo, ks, i),
        child_hi::<K>(hi, ks, i),
        chain_next(cs, i, nxt),
    ) && forall|k: K::V| #[trigger] lookup::<K, V>(p2, cs[i], k) == lookup::<K, V>(p1, cs[i], k) by {
        lemma_frame::<K, V>(p1, p2, cs[i], child_lo::<K>(lo, ks, i), child_hi::<K>(hi, ks, i), chain_next(cs, i, nxt));
    }
    assert forall|i: int|
        #![trigger cs2[i]]
        0 <= i < cs2.len() implies wf_subtree::<K, V>(
        p2,
        cs2[i],
        child_lo::<K>(lo, ks2, i),
        child_hi::<K>(hi, ks2, i),
        chain_next(cs2, i, nxt),
    ) by {
        lemma_splice_index::<K>(cs, ks, a, b, mk, mcs, lo, hi, nxt, i);
        if i < a {
        } else if i < a + m {
            assert(wf_subtree::<K, V>(p2, mcs[i - a], child_lo::<K>(lo_a, mk, i - a), child_hi::<K>(hi_b, mk, i - a), chain_next(mcs, i - a, chain_next(cs, b, nxt))));
        } else {
            let ii = i - a - m + b + 1;
            assert(wf_subtree::<K, V>(p2, cs[ii], child_lo::<K>(lo, ks, ii), child_hi::<K>(hi, ks, ii), chain_next(cs, ii, nxt)));
        }
    }
}

/// Where child `i` of the spliced node comes from, and its bounds and link.
#[verifier::rlimit(50)]
proof fn lemma_splice_index<K: BTreeKey>(
    cs: Seq<Shape>,
    ks: Seq<K::V>,
    a: int,
    b: int,
    mk: Seq<K::V>,
    mcs: Seq<Shape>,
    lo: Option<K::V>,
    hi: Option<K::V>,
    nxt: u64,
    i: int,
)
    requires
        cs.len() == ks.len() + 1,
        0 <= a <= b < cs.len(),
        mcs.len() == mk.len() + 1,
        first_leaf(mcs[0]) == first_leaf(cs[a]),
        0 <= i < splice(cs, a, b + 1, mcs).len(),
    ensures
        ({
            let cs2 = splice(cs, a, b + 1, mcs);
            let ks2 = splice(ks, a, b, mk);
            let m = mcs.len();
            &&& i < a ==> {
                &&& cs2[i] == cs[i]
                &&& child_lo::<K>(lo, ks2, i) == child_lo::<K>(lo, ks, i)
                &&& child_hi::<K>(hi, ks2, i) == child_hi::<K>(hi, ks, i)
                &&& chain_next(cs2, i, nxt) == chain_next(cs, i, nxt)
            }
            &&& a <= i < a + m ==> {
                &&& cs2[i] == mcs[i - a]
                &&& child_lo::<K>(lo, ks2, i) == child_lo::<K>(child_lo::<K>(lo, ks, a), mk, i - a)
                &&& child_hi::<K>(hi, ks2, i) == child_hi::<K>(child_hi::<K>(hi, ks, b), mk, i - a)
                &&& chain_next(cs2, i, nxt) == chain_next(mcs, i - a, chain_next(cs, b, nxt))
            }
            &&& a + m <= i ==> {
                &&& cs2[i] == cs[i - a - m + b + 1]
                &&& child_lo::<K>(lo, ks2, i) == child_lo::<K>(lo, ks, i - a - m + b + 1)
                &&& child_hi::<K>(hi, ks2, i) == child_hi::<K>(hi, ks, i - a - m + b + 1)
                &&& chain_next(cs2, i, nxt) == chain_next(cs, i - a - m + b + 1, nxt)
            }
        }),
{
    let cs2 = splice(cs, a, b + 1, mcs);
    let ks2 = splice(ks, a, b, mk);
    let lo_a = child_lo::<K>(lo, ks, a);
    let hi_b = child_hi::<K>(hi, ks, b);
    let m = mcs.len();
    if i < a {
        assert(cs2[i] == cs[i]);
        if i > 0 {
            assert(ks2[i - 1] == ks[i - 1]);
        }
        assert(ks2[i] == ks[i]);
        if i + 1 < a {
            assert(cs2[i + 1] == cs[i + 1]);
        } else {
            assert(cs2[i + 1] == mcs[0]);
        }
    } else if i < a + m {
        let j = i - a;
        assert(cs2[i] == mcs[j]);
        if j == 0 {
            if a > 0 {
                assert(ks2[i - 1] == ks[a - 1]);
            }
        } else {
            assert(ks2[i - 1] == mk[j - 1]);
        }
        if j < mk.len() {
            assert(ks2[i] == mk[j]);
        } else if b < ks.len() {
            assert(ks2[i] == ks[b]);
        }
        if j + 1 < m {
            assert(cs2[i + 1] == mcs[j + 1]);
        } else if i + 1 < cs2.len() {
            assert(cs2[i + 1] == cs[b + 1]);
        }
    } else {
        let ii = i - a - m + b + 1;
        assert(cs2[i] == cs[ii]);
        assert(ks2[i - 1] == ks[ii - 1]);
        if ii < ks.len() {
            assert(ks2[i] == ks[ii]);
        }
        if ii + 1 < cs.len() {
            assert(cs2[i + 1] == cs[ii + 1]);
        }
    }
}

/// Pages stay distinct after the run `a..=b` of children is replaced by
/// subtrees made of pages of that run and of fresh pages.
#[verifier::spinoff_prover]
#[verifier::rlimit(50)]
proof fn lemma_splice_disjoint(cs: Seq<Shape>, id: u64, a: int, b: int, mcs: Seq<Shape>, bound: nat)
    requires
        children_disjoint(cs, id),
        0 <= a <= b < cs.len(),
        id < bound,
        forall|i: int, p: u64| 0 <= i < cs.len() && #[trigger] in_shape(cs[i], p) ==> p < bound,
        forall|j: int, p: u64|
            0 <= j < mcs.len() && #[trigger] in_shape(mcs[j], p) ==> p >= bound || in_children(cs, a, b, p),
        forall|i: int, j: int, p: u64|
            0 <= i < j < mcs.len() ==> !(#[trigger] in_shape(mcs[i], p) && #[trigger] in_shape(mcs[j], p)),
    ensures
        children_disjoint(splice(cs, a, b + 1, mcs), id),
        forall|p: u64|
            #[trigger] in_shape(Shape::Node(id, splice(cs, a, b + 1, mcs)), p) ==> in_shape(
                Shape::Node(id, cs),
                p,
            ) || p >= bound,
        forall|i: int, p: u64|
            0 <= i < cs.len() && !(a <= i <= b) && #[trigger] in_shape(cs[i], p) ==> p != id && !in_children(cs, a, b, p),
{
    reveal(children_disjoint);
    let cs2 = splice(cs, a, b + 1, mcs);
    let m = mcs.len();
    let s1 = Shape::Node(id, cs);
    assert forall|i: int, p: u64|
        0 <= i < cs.len() && !(a <= i <= b) && #[trigger] in_shape(cs[i], p) implies p != id && !in_children(cs, a, b, p) by {
        if in_children(cs, a, b, p) {
            let j = choose|j: int| #![trigger cs[j]] a <= j <= b && in_shape(cs[j], p);
            if i < j {
                assert(!(in_shape(cs[i], p) && in_shape(cs[j], p)));
            } else {
                assert(!(in_shape(cs[j], p) && in_shape(cs[i], p)));
            }
        }
    }
    assert forall|i: int| 0 <= i < cs2.len() implies !in_shape(#[trigger] cs2[i], id) by {
        if i < a {
            assert(cs2[i] == cs[i]);
        } else if i < a + m {
            assert(cs2[i] == mcs[i - a]);
            if in_shape(mcs[i - a], id) {
                let j = choose|j: int| #![trigger cs[j]] a <= j <= b && in_shape(cs[j], id);
            }
        } else {
            assert(cs2[i] == cs[i - a - m + b + 1]);
        }
    }
    assert forall|i: int, j: int, p: u64| 0 <= i < j < cs2.len() implies !(#[trigger] in_shape(cs2[i], p)
        && #[trigger] in_shape(cs2[j], p)) by {
        if in_shape(cs2[i], p) && in_shape(cs2[j], p) {
            if i < a {
                assert(cs2[i] == cs[i]);
            } else if i < a + m {
                assert(cs2[i] == mcs[i - a]);
            } else {
                assert(cs2[i] == cs[i - a - m + b + 1]);
            }
            if j < a {
                assert(cs2[j] == cs[j]);
            } else if j < a + m {
                assert(cs2[j] == mcs[j - a]);
            } else {
                assert(cs2[j] == cs[j - a - m + b + 1]);
            }
            if a <= i < a + m && a <= j < a + m {
            } else if a <= i < a + m {
                let jj = j - a - m + b + 1;
                assert(in_shape(cs[jj], p));
                if p < bound {
                    let ii = choose|ii: int| #![trigger cs[ii]] a <= ii <= b && in_shape(cs[ii], p);
                    assert(!(in_shape(cs[ii], p) && in_shape(cs[jj], p)));
                }
            } else if a <= j < a + m {
                assert(in_shape(cs[i], p));
                if p < bound {
                    let jj = choose|jj: int| #![trigger cs[jj]] a <= jj <= b && in_shape(cs[jj], p);
                    assert(!(in_shape(cs[i], p) && in_shape(cs[jj], p)));
                }
            } else {
                let ii = if i < a { i } else { i - a - m + b + 1 };
                let jj = if j < a { j } else { j - a - m + b + 1 };
                assert(in_shape(cs[ii], p) && in_shape(cs[jj], p));
                assert(ii < jj);
            }
        }
    }
    assert forall|p: u64| #[trigger] in_shape(Shape::Node(id, cs2), p) implies in_shape(s1, p) || p >= bound by {
        if p != id {
            let i = choose|i: int| #![trigger cs2[i]] 0 <= i < cs2.len() && in_shape(cs2[i], p);
            if i < a {
                assert(cs2[i] == cs[i]);
                assert(in_shape(cs[i], p));
                lemma_in_child(id, cs, i, p);
            } else if i < a + m {
                assert(cs2[i] == mcs[i - a]);
                if p < bound {
                    let j = choose|j: int| #![trigger cs[j]] a <= j <= b && in_shape(cs[j], p);
                    lemma_in_child(id, cs, j, p);
                }
            } else {
                let ii = i - a - m + b + 1;
                assert(cs2[i] == cs[ii]);
                lemma_in_child(id, cs, ii, p);
            }
        }
    }
}

/// What replacing the children `a..=b` of the node in page `id` by `mcs`,
/// and the separators between them by `mk`, needs: the node and the new
/// subtrees are well formed, the new separators fit, and only pages of the
/// run, the node's page and new pages changed.
#[verifier::opaque]
pub open spec fn replace_children_ok<K: BTreeKey, V>(
    p1: Seq<BTreeNode<K, V>>,
    p2: Seq<BTreeNode<K, V>>,
    id: u64,
    cs: Seq<Shape>,
    a: int,
    b: int,
    mk: Seq<K::V>,
    mcs: Seq<Shape>,
    lo: Option<K::V>,
    hi: Option<K::V>,
    nxt: u64,
) -> bool {
    &&& wf_subtree::<K, V>(p1, Shape::Node(id, cs), lo, hi, nxt)
    &&& p1.len() <= p2.len()
    &&& 0 <= a <= b < cs.len()
    &&& mcs.len() == mk.len() + 1
    &&& p2[id as int] is Internal
    &&& key_views(p2[id as int]->Internal_0.keys@) == splice(node_seps(p1, id), a, b, mk)
    &&& p2[id as int]->Internal_0.children@.len() == cs.len() - (b + 1 - a) + mcs.len()
    &&& forall|i: int|
                0 <= i < cs.len() - (b + 1 - a) + mcs.len() ==> p2[id as int]->Internal_0.children@[i]
                    == shape_id(#[trigger] splice(cs, a, b + 1, mcs)[i])
    &&& sorted::<K>(mk)
    &&& forall|j: int|
                0 <= j < mk.len() ==> above::<K>(child_lo::<K>(lo, node_seps(p1, id), a), #[trigger] mk[j])
                    && below::<K>(child_hi::<K>(hi, node_seps(p1, id), b), mk[j])
    &&& forall|j: int|
                #![trigger mcs[j]]
                0 <= j < mcs.len() ==> wf_subtree::<K, V>(
                    p2,
                    mcs[j],
                    child_lo::<K>(child_lo::<K>(lo, node_seps(p1, id), a), mk, j),
                    child_hi::<K>(child_hi::<K>(hi, node_seps(p1, id), b), mk, j),
                    chain_next(mcs, j, chain_next(cs, b, nxt)),
                )
    &&& first_leaf(mcs[0]) == first_leaf(cs[a])
    &&& forall|j: int, p: u64|
                0 <= j < mcs.len() && #[trigger] in_shape(mcs[j], p) ==> p >= p1.len() || in_children(
                    cs,
                    a,
                    b,
                    p,
                )
    &&& forall|i: int, j: int, p: u64|
                0 <= i < j < mcs.len() ==> !(#[trigger] in_shape(mcs[i], p) && #[trigger] in_shape(mcs[j], p))
    &&& forall|p: u64|
                p < p1.len() && p != id && !in_children(cs, a, b, p) ==> #[trigger] p2[p as int] == p1[p as int]
}

/// Replacing the children `a..=b` of a well-formed internal node by the
/// well-formed subtrees `mcs`, and the separators between them by `mk`,
/// gives a well-formed node. Keys routed into the run are looked up in the
/// new subtrees; every other key as before.
#[verifier::spinoff_prover]
#[verifier::rlimit(50)]
pub proof fn lemma_replace_children<K: BTreeKey, V>(
    p1: Seq<BTreeNode<K, V>>,
    p2: Seq<BTreeNode<K, V>>,
    id: u64,
    cs: Seq<Shape>,
    a: int,
    b: int,
    mk: Seq<K::V>,
    mcs: Seq<Shape>,
    lo: Option<K::V>,
    hi: Option<K::V>,
    nxt: u64,
)
    requires
        replace_children_ok::<K, V>(p1, p2, id, cs, a, b, mk, mcs, lo, hi, nxt),
    ensures
        wf_subtree::<K, V>(p2, Shape::Node(id, splice(cs, a, b + 1, mcs)), lo, hi, nxt),
        first_leaf(Shape::Node(id, splice(cs, a, b + 1, mcs))) == first_leaf(Shape::Node(id, cs)),
        forall|p: u64|
            #[trigger] in_shape(Shape::Node(id, splice(cs, a, b + 1, mcs)), p) ==> in_shape(
                Shape::Node(id, cs),
                p,
            ) || p >= p1.len(),
        forall|k: K::V|
            #[trigger] lookup::<K, V>(p2, Shape::Node(id, splice(cs, a, b + 1, mcs)), k) == if a
                <= route::<K>(node_seps(p1, id), k) <= b {
                lookup::<K, V>(p2, mcs[route::<K>(mk, k)], k)
            } else {
                lookup::<K, V>(p1, Shape::Node(id, cs), k)
            },
{
    reveal(wf_subtree);
    reveal(replace_children_ok);
    let s1 = Shape::Node(id, cs);
    let n1 = p1[id as int]->Internal_0;
    let ks = key_views(n1.keys@);
    let n2 = p2[id as int]->Internal_0;
    let cs2 = splice(cs, a, b + 1, mcs);
    let ks2 = splice(ks, a, b, mk);
    let s2 = Shape::Node(id, cs2);
    reveal(internal_ok);
    lemma_in_shape_bounded::<K, V>(p1, s1, lo, hi, nxt);
    assert(in_shape(s1, id));
    assert forall|i: int, p: u64| 0 <= i < cs.len() && #[trigger] in_shape(cs[i], p) implies p < p1.len() by {
        assert(in_shape(s1, p));
    }
    lemma_splice_disjoint(cs, id, a, b, mcs, p1.len());
    lemma_splice_children_wf::<K, V>(p1, p2, cs, ks, a, b, mk, mcs, lo, hi, nxt);
    lemma_sorted_splice::<K>(ks, a, b, mk, lo, hi);
    assert(cs2.len() == ks2.len() + 1);
    assert(internal_ok::<K>(n2, cs2, lo, hi));
    assert(wf_subtree::<K, V>(p2, s2, lo, hi, nxt));
    if a == 0 {
        assert(cs2[0] == mcs[0]);
    } else {
        assert(cs2[0] == cs[0]);
    }
    assert forall|k: K::V| #[trigger] lookup::<K, V>(p2, s2, k) == if a <= route::<K>(ks, k) <= b {
        lookup::<K, V>(p2, mcs[route::<K>(mk, k)], k)
    } else {
        lookup::<K, V>(p1, s1, k)
    } by {
        lemma_route_splice::<K>(ks, a, b, mk, k);
        lemma_route::<K>(ks, k);
        lemma_route::<K>(mk, k);
        let r = route::<K>(ks, k);
        let r2 = route::<K>(ks2, k);
        if r < a {
            assert(cs2[r2] == cs[r]);
            assert(lookup::<K, V>(p2, cs[r], k) == lookup::<K, V>(p1, cs[r], k));
        } else if r > b {
            assert(cs2[r2] == cs[r]);
            assert(lookup::<K, V>(p2, cs[r], k) == lookup::<K, V>(p1, cs[r], k));
        } else {
            assert(cs2[r2] == mcs[route::<K>(mk, k)]);
        }
    }
}


/// A well-formed subtree is a leaf shape exactly when its root page holds a
/// leaf; a leaf shape's page is a well-formed leaf linking to `nxt`.
#[verifier::rlimit(50)]
pub proof fn lemma_wf_kind<K: BTreeKey, V>(
    pages: Seq<BTreeNode<K, V>>,
    s: Shape,
    lo: Option<K::V>,
    hi: Option<K::V>,
    nxt: u64,
)
    requires
        wf_subtree::<K, V>(pages, s, lo, hi, nxt),
    ensures
        shape_id(s) < pages.len(),
        (s is Leaf) == (pages[shape_id(s) as int] is Leaf),
        s is Leaf ==> s == Shape::Leaf(shape_id(s)),
        s is Leaf ==> leaf_ok::<K, V>(pages[shape_id(s) as int]->Leaf_0, lo, hi),
        s is Leaf ==> pages[shape_id(s) as int]->Leaf_0.next_leaf == nxt,
{
    reveal(wf_subtree);
}


/// Routing by a single separator.
#[verifier::rlimit(50)]
pub proof fn lemma_route_single<K: BTreeKey>(sep: K::V, k: K::V)
    ensures
        route::<K>(seq![sep], k) == if lt::<K>(k, sep) { 0int } else { 1int },
{
    let s = seq![sep];
    assert(s.last() == sep);
    assert(s.drop_last() =~= Seq::<K::V>::empty());
    assert(route::<K>(Seq::<K::V>::empty(), k) == 0);
}


/// The height of a shape: the longest path from its root to a leaf.
pub open spec fn hgt(s: Shape) -> nat
    decreases s, 0int,
{
    match s {
        Shape::Leaf(_) => 0,
        Shape::Node(_, cs) => 1 + hgt_seq(cs),
    }
}

/// The greatest height among the shapes `cs`, or 0.
pub open spec fn hgt_seq(cs: Seq<Shape>) -> nat
    decreases cs, 1int,
{
    if cs.len() == 0 {
        0
    } else {
        let a = hgt(cs.last());
        let b = hgt_seq(cs.drop_last());
        if a >= b {
            a
        } else {
            b
        }
    }
}

/// No shape of `cs` is higher than `hgt_seq(cs)`.
#[verifier::rlimit(50)]
pub proof fn lemma_hgt_seq_ge(cs: Seq<Shape>, i: int)
    requires
        0 <= i < cs.len(),
    ensures
        hgt(cs[i]) <= hgt_seq(cs),
    decreases cs.len(),
{
    if i < cs.len() - 1 {
        lemma_hgt_seq_ge(cs.drop_last(), i);
        assert(cs.drop_last()[i] == cs[i]);
    }
}

/// `hgt_seq(cs)` is at most any bound on the heights of the shapes of `cs`.
#[verifier::rlimit(50)]
pub proof fn lemma_hgt_seq_le(cs: Seq<Shape>, bound: nat)
    requires
        forall|i: int| 0 <= i < cs.len() ==> hgt(#[trigger] cs[i]) <= bound,
    ensures
        hgt_seq(cs) <= bound,
    decreases cs.len(),
{
    if cs.len() > 0 {
        let d = cs.drop_last();
        assert forall|i: int| 0 <= i < d.len() implies hgt(#[trigger] d[i]) <= bound by {
            assert(d[i] == cs[i]);
        }
        lemma_hgt_seq_le(d, bound);
    }
}


/// A node over a run of the children of another node is no higher than it.
#[verifier::rlimit(50)]
pub proof fn lemma_hgt_window(id: u64, cs: Seq<Shape>, id2: u64, a: int, b: int)
    requires
        0 <= a <= b <= cs.len(),
    ensures
        hgt(Shape::Node(id2, cs.subrange(a, b))) <= hgt(Shape::Node(id, cs)),
{
    let w = cs.subrange(a, b);
    assert forall|i: int| 0 <= i < w.len() implies hgt(#[trigger] w[i]) <= hgt_seq(cs) by {
        assert(w[i] == cs[a + i]);
        lemma_hgt_seq_ge(cs, a + i);
    }
    lemma_hgt_seq_le(w, hgt_seq(cs));
}

/// After the child `idx` of a node is replaced by shapes no higher than it,
/// every child is lower than the node.
#[verifier::rlimit(50)]
pub proof fn lemma_hgt_splice(id: u64, cs: Seq<Shape>, idx: int, mcs: Seq<Shape>)
    requires
        0 <= idx < cs.len(),
        forall|j: int| 0 <= j < mcs.len() ==> hgt(#[trigger] mcs[j]) <= hgt(cs[idx]),
    ensures
        forall|i: int|
            0 <= i < splice(cs, idx, idx + 1, mcs).len() ==> hgt(#[trigger] splice(cs, idx, idx + 1, mcs)[i]) < hgt(
                Shape::Node(id, cs),
            ),
{
    let cs2 = splice(cs, idx, idx + 1, mcs);
    lemma_hgt_seq_ge(cs, idx);
    assert forall|i: int| 0 <= i < cs2.len() implies hgt(#[trigger] cs2[i]) < hgt(Shape::Node(id, cs)) by {
        if i < idx {
            assert(cs2[i] == cs[i]);
            lemma_hgt_seq_ge(cs, i);
        } else if i < idx + mcs.len() {
            assert(cs2[i] == mcs[i - idx]);
        } else {
            assert(cs2[i] == cs[i - mcs.len() + 1]);
            lemma_hgt_seq_ge(cs, i - mcs.len() + 1);
        }
    }
}


/// A key within a node's range lies within the range of the child it is
/// routed to.
#[verifier::rlimit(50)]
pub proof fn lemma_route_in_range<K: BTreeKey>(ks: Seq<K::V>, lo: Option<K::V>, hi: Option<K::V>, k: K::V)
    requires
        sorted::<K>(ks),
        in_range::<K>(lo, hi, k),
    ensures
        in_range::<K>(child_lo::<K>(lo, ks, route::<K>(ks, k)), child_hi::<K>(hi, ks, route::<K>(ks, k)), k),
{
    lemma_route::<K>(ks, k);
}

} // verus!
