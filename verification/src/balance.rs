//! Balance: how many keys each node holds, and how deep the leaves lie.
//!
//! For a minimum degree `t`, every node holds at most `2t - 1` keys, every
//! node but the root at least `t - 1`, and all leaves lie at the same depth.
use crate::key::{group_key_order, le, lt, BTreeKey};
use crate::node::{key_views, node_keys, sorted, BTreeNode};
use crate::split::changed_only;
use crate::parts::lemma_node_parts;
use crate::rebalance::{merge_shape, regroup_shape};
use crate::shape::{
    hgt, hgt_seq, in_shape, lemma_child_wf, lemma_hgt_seq_ge, lemma_hgt_seq_le, lemma_in_child,
    lemma_in_shape_bounded, lemma_route, lemma_route_splice, lemma_route_unique, lemma_wf_kind, leaf_ok, in_range,
    strictly_in, child_lo, child_hi, chain_next, node_seps, route, shape_id, splice, wf_subtree, Shape,
};
use vstd::prelude::*;

verus! {

/// The number of keys of the node in page `id`.
pub open spec fn nkeys<K: BTreeKey, V>(pages: Seq<BTreeNode<K, V>>, id: u64) -> int {
    node_keys(pages[id as int]).len() as int
}

/// The subtree `s` is balanced for minimum degree `t`, with its leaves `h`
/// levels below its root: each of its nodes holds at most `2t - 1` keys,
/// each node below its root at least `t - 1`, and each child of a node lies
/// one level below it.
#[verifier::opaque]
pub open spec fn balanced<K: BTreeKey, V>(pages: Seq<BTreeNode<K, V>>, s: Shape, t: int, h: nat) -> bool
    decreases s,
{
    match s {
        Shape::Leaf(id) => h == 0 && nkeys(pages, id) <= 2 * t - 1,
        Shape::Node(id, cs) => {
            &&& h > 0
            &&& cs.len() > 0
            &&& nkeys(pages, id) <= 2 * t - 1
            &&& forall|i: int|
                #![trigger cs[i]]
                0 <= i < cs.len() ==> t - 1 <= nkeys(pages, shape_id(cs[i])) && balanced::<K, V>(
                    pages,
                    cs[i],
                    t,
                    (h - 1) as nat,
                )
        },
    }
}

/// What `balanced` says of a node and its children.
pub proof fn lemma_balanced_unfold<K: BTreeKey, V>(pages: Seq<BTreeNode<K, V>>, s: Shape, t: int, h: nat)
    requires
        balanced::<K, V>(pages, s, t, h),
    ensures
        nkeys(pages, shape_id(s)) <= 2 * t - 1,
        s is Leaf ==> h == 0,
        s is Node ==> h > 0 && s->Node_1.len() > 0,
        s is Node ==> forall|i: int|
            #![trigger s->Node_1[i]]
            0 <= i < s->Node_1.len() ==> t - 1 <= nkeys(pages, shape_id(s->Node_1[i])) && balanced::<K, V>(
                pages,
                s->Node_1[i],
                t,
                (h - 1) as nat,
            ),
{
    reveal(balanced);
}

/// A leaf with at most `2t - 1` keys is balanced at height zero.
pub proof fn lemma_balanced_leaf<K: BTreeKey, V>(pages: Seq<BTreeNode<K, V>>, id: u64, t: int)
    requires
        nkeys(pages, id) <= 2 * t - 1,
    ensures
        balanced::<K, V>(pages, Shape::Leaf(id), t, 0),
{
    reveal(balanced);
}

/// A node with at most `2t - 1` keys over balanced children one level
/// lower, each with at least `t - 1` keys, is balanced.
pub proof fn lemma_balanced_node<K: BTreeKey, V>(pages: Seq<BTreeNode<K, V>>, id: u64, cs: Seq<Shape>, t: int, h: nat)
    requires
        h > 0,
        cs.len() > 0,
        nkeys(pages, id) <= 2 * t - 1,
        forall|i: int|
            #![trigger cs[i]]
            0 <= i < cs.len() ==> t - 1 <= nkeys(pages, shape_id(cs[i])) && balanced::<K, V>(
                pages,
                cs[i],
                t,
                (h - 1) as nat,
            ),
    ensures
        balanced::<K, V>(pages, Shape::Node(id, cs), t, h),
{
    reveal(balanced);
}

/// The root page of a shape belongs to it.
pub proof fn lemma_in_shape_root(s: Shape)
    ensures
        in_shape(s, shape_id(s)),
{
}

/// Balance depends only on the pages of the subtree.
pub proof fn lemma_balanced_frame<K: BTreeKey, V>(
    p0: Seq<BTreeNode<K, V>>,
    pn: Seq<BTreeNode<K, V>>,
    s: Shape,
    t: int,
    h: nat,
)
    requires
        balanced::<K, V>(p0, s, t, h),
        forall|p: u64| #[trigger] in_shape(s, p) ==> pn[p as int] == p0[p as int],
    ensures
        balanced::<K, V>(pn, s, t, h),
    decreases s,
{
    lemma_balanced_unfold::<K, V>(p0, s, t, h);
    lemma_in_shape_root(s);
    match s {
        Shape::Leaf(id) => {
            lemma_balanced_leaf::<K, V>(pn, id, t);
        },
        Shape::Node(id, cs) => {
            assert forall|i: int| #![trigger cs[i]] 0 <= i < cs.len() implies t - 1 <= nkeys(pn, shape_id(cs[i]))
                && balanced::<K, V>(pn, cs[i], t, (h - 1) as nat) by {
                assert forall|p: u64| #[trigger] in_shape(cs[i], p) implies pn[p as int] == p0[p as int] by {
                    lemma_in_child(id, cs, i, p);
                }
                lemma_in_shape_root(cs[i]);
                lemma_balanced_frame::<K, V>(p0, pn, cs[i], t, (h - 1) as nat);
            }
            lemma_balanced_node::<K, V>(pn, id, cs, t, h);
        },
    }
}

/// A balanced subtree of a well-formed tree is exactly `h` high.
pub proof fn lemma_balanced_hgt<K: BTreeKey, V>(pages: Seq<BTreeNode<K, V>>, s: Shape, t: int, h: nat)
    requires
        balanced::<K, V>(pages, s, t, h),
    ensures
        hgt(s) == h,
    decreases s,
{
    lemma_balanced_unfold::<K, V>(pages, s, t, h);
    if let Shape::Node(id, cs) = s {
        assert forall|i: int| 0 <= i < cs.len() implies hgt(#[trigger] cs[i]) == h - 1 by {
            lemma_balanced_hgt::<K, V>(pages, cs[i], t, (h - 1) as nat);
        }
        lemma_hgt_seq_le(cs, (h - 1) as nat);
        lemma_hgt_seq_ge(cs, 0);
    }
}

/// A node over a run of balanced subtrees whose pages are unchanged is
/// balanced.
pub proof fn lemma_run_balanced<K: BTreeKey, V>(
    p0: Seq<BTreeNode<K, V>>,
    pn: Seq<BTreeNode<K, V>>,
    id: u64,
    gs: Seq<Shape>,
    t: int,
    h: nat,
)
    requires
        h > 0,
        gs.len() > 0,
        nkeys(pn, id) <= 2 * t - 1,
        forall|k: int|
            #![trigger gs[k]]
            0 <= k < gs.len() ==> t - 1 <= nkeys(p0, shape_id(gs[k])) && balanced::<K, V>(
                p0,
                gs[k],
                t,
                (h - 1) as nat,
            ),
        forall|k: int, p: u64| 0 <= k < gs.len() && #[trigger] in_shape(gs[k], p) ==> pn[p as int] == p0[p as int],
    ensures
        balanced::<K, V>(pn, Shape::Node(id, gs), t, h),
{
    assert forall|k: int| #![trigger gs[k]] 0 <= k < gs.len() implies t - 1 <= nkeys(pn, shape_id(gs[k]))
        && balanced::<K, V>(pn, gs[k], t, (h - 1) as nat) by {
        assert forall|p: u64| #[trigger] in_shape(gs[k], p) implies pn[p as int] == p0[p as int] by {}
        lemma_in_shape_root(gs[k]);
        lemma_balanced_frame::<K, V>(p0, pn, gs[k], t, (h - 1) as nat);
    }
    lemma_balanced_node::<K, V>(pn, id, gs, t, h);
}

/// Replacing the children `a..b` of a balanced node by balanced subtrees one
/// level lower, each with at least `t - 1` keys, keeps the node balanced
/// when the other children's pages are unchanged and the node keeps at most
/// `2t - 1` keys.
pub proof fn lemma_splice_balanced<K: BTreeKey, V>(
    p0: Seq<BTreeNode<K, V>>,
    pn: Seq<BTreeNode<K, V>>,
    pid: u64,
    cs: Seq<Shape>,
    a: int,
    b: int,
    mcs: Seq<Shape>,
    t: int,
    h: nat,
)
    requires
        balanced::<K, V>(p0, Shape::Node(pid, cs), t, h),
        0 <= a < b <= cs.len(),
        mcs.len() > 0,
        nkeys(pn, pid) <= 2 * t - 1,
        forall|i: int, p: u64|
            0 <= i < cs.len() && !(a <= i < b) && #[trigger] in_shape(cs[i], p) ==> pn[p as int] == p0[p as int],
        forall|j: int|
            #![trigger mcs[j]]
            0 <= j < mcs.len() ==> t - 1 <= nkeys(pn, shape_id(mcs[j])) && balanced::<K, V>(
                pn,
                mcs[j],
                t,
                (h - 1) as nat,
            ),
    ensures
        balanced::<K, V>(pn, Shape::Node(pid, splice(cs, a, b, mcs)), t, h),
{
    lemma_balanced_unfold::<K, V>(p0, Shape::Node(pid, cs), t, h);
    let cs2 = splice(cs, a, b, mcs);
    let n = mcs.len() as int;
    assert forall|i: int| #![trigger cs2[i]] 0 <= i < cs2.len() implies t - 1 <= nkeys(pn, shape_id(cs2[i]))
        && balanced::<K, V>(pn, cs2[i], t, (h - 1) as nat) by {
        if a <= i < a + n {
            assert(cs2[i] == mcs[i - a]);
        } else {
            let j = if i < a { i } else { i - n + (b - a) };
            assert(cs2[i] == cs[j]);
            assert forall|p: u64| #[trigger] in_shape(cs[j], p) implies pn[p as int] == p0[p as int] by {}
            lemma_in_shape_root(cs[j]);
            lemma_balanced_frame::<K, V>(p0, pn, cs[j], t, (h - 1) as nat);
        }
    }
    lemma_balanced_node::<K, V>(pn, pid, cs2, t, h);
}

/// The pages of the children of a well-formed node: each is allocated, none
/// is the node's own page, no two children share one, and the pages below
/// a child's root belong to the child but are not its root.
pub proof fn lemma_child_pages<K: BTreeKey, V>(
    p0: Seq<BTreeNode<K, V>>,
    pid: u64,
    cs: Seq<Shape>,
    lo: Option<K::V>,
    hi: Option<K::V>,
    nxt: u64,
)
    requires
        wf_subtree::<K, V>(p0, Shape::Node(pid, cs), lo, hi, nxt),
    ensures
        forall|i: int, p: u64| 0 <= i < cs.len() && #[trigger] in_shape(cs[i], p) ==> p != pid && p < p0.len(),
        forall|i: int, j: int, p: u64|
            0 <= i < cs.len() && 0 <= j < cs.len() && i != j && #[trigger] in_shape(cs[i], p) ==> !#[trigger] in_shape(
                cs[j],
                p,
            ),
        forall|i: int, k: int, p: u64|
            0 <= i < cs.len() && cs[i] is Node && 0 <= k < cs[i]->Node_1.len() && #[trigger] in_shape(
                cs[i]->Node_1[k],
                p,
            ) ==> in_shape(cs[i], p) && p != shape_id(cs[i]),
{
    let s = Shape::Node(pid, cs);
    lemma_node_parts::<K, V>(p0, pid, cs, lo, hi, nxt);
    lemma_in_shape_bounded::<K, V>(p0, s, lo, hi, nxt);
    let ks = crate::shape::node_seps(p0, pid);
    assert forall|i: int, p: u64| 0 <= i < cs.len() && #[trigger] in_shape(cs[i], p) implies p != pid && p < p0.len() by {
        lemma_in_child(pid, cs, i, p);
    }
    assert forall|i: int, j: int, p: u64|
        0 <= i < cs.len() && 0 <= j < cs.len() && i != j && #[trigger] in_shape(cs[i], p) implies !#[trigger] in_shape(cs[j], p) by {
        if i < j {
            assert(!(in_shape(cs[i], p) && in_shape(cs[j], p)));
        } else {
            assert(!(in_shape(cs[j], p) && in_shape(cs[i], p)));
        }
    }
    assert forall|i: int, k: int, p: u64|
        0 <= i < cs.len() && cs[i] is Node && 0 <= k < cs[i]->Node_1.len() && #[trigger] in_shape(cs[i]->Node_1[k], p)
        implies in_shape(cs[i], p) && p != shape_id(cs[i]) by {
        let cid = shape_id(cs[i]);
        let ccs = cs[i]->Node_1;
        assert(cs[i] == Shape::Node(cid, ccs));
        lemma_child_wf::<K, V>(
            p0,
            pid,
            cs,
            lo,
            hi,
            nxt,
            i,
        );
        lemma_node_parts::<K, V>(
            p0,
            cid,
            ccs,
            crate::shape::child_lo::<K>(lo, ks, i),
            crate::shape::child_hi::<K>(hi, ks, i),
            crate::shape::chain_next(cs, i, nxt),
        );
        lemma_in_child(cid, ccs, k, p);
    }
}


/// A step that rewrites only the node's page, the roots of its children
/// `a..b` (at most two of them) and new pages leaves the pages of the other
/// children, and of the subtrees below the rewritten roots, as they were.
pub proof fn lemma_run_frame<K: BTreeKey, V>(
    p0: Seq<BTreeNode<K, V>>,
    pn: Seq<BTreeNode<K, V>>,
    pid: u64,
    cs: Seq<Shape>,
    lo: Option<K::V>,
    hi: Option<K::V>,
    nxt: u64,
    a: int,
    b: int,
)
    requires
        wf_subtree::<K, V>(p0, Shape::Node(pid, cs), lo, hi, nxt),
        0 <= a < b <= cs.len(),
        b <= a + 2,
        forall|p: u64|
            p < p0.len() && p != pid && p != shape_id(cs[a]) && p != shape_id(cs[b - 1]) ==> #[trigger] pn[p as int]
                == p0[p as int],
    ensures
        forall|i: int, p: u64|
            0 <= i < cs.len() && !(a <= i < b) && #[trigger] in_shape(cs[i], p) ==> pn[p as int] == p0[p as int],
        forall|i: int, k: int, p: u64|
            a <= i < b && cs[i] is Node && 0 <= k < cs[i]->Node_1.len() && #[trigger] in_shape(cs[i]->Node_1[k], p)
                ==> pn[p as int] == p0[p as int],
{
    lemma_child_pages::<K, V>(p0, pid, cs, lo, hi, nxt);
    lemma_in_shape_root(cs[a]);
    lemma_in_shape_root(cs[b - 1]);
    assert forall|i: int, p: u64| 0 <= i < cs.len() && !(a <= i < b) && #[trigger] in_shape(cs[i], p) implies pn[p as int]
        == p0[p as int] by {
        assert(!in_shape(cs[a], p));
        assert(!in_shape(cs[b - 1], p));
    }
    assert forall|i: int, k: int, p: u64|
        a <= i < b && cs[i] is Node && 0 <= k < cs[i]->Node_1.len() && #[trigger] in_shape(cs[i]->Node_1[k], p)
        implies pn[p as int] == p0[p as int] by {
        assert(in_shape(cs[i], p));
        if i == a && b == a + 2 {
            assert(!in_shape(cs[a + 1], p));
        }
        if i == a + 1 {
            assert(!in_shape(cs[a], p));
        }
    }
}

/// Splitting the full child `idx` of a balanced node, whose own page has a
/// key to spare, into two halves of at least `t - 1` keys each (the back
/// half in the new page `rid`) keeps the node balanced.
pub proof fn lemma_split_balanced<K: BTreeKey, V>(
    p0: Seq<BTreeNode<K, V>>,
    pn: Seq<BTreeNode<K, V>>,
    pid: u64,
    cs: Seq<Shape>,
    lo: Option<K::V>,
    hi: Option<K::V>,
    nxt: u64,
    idx: int,
    rid: u64,
    m: int,
    e: int,
    t: int,
    h: nat,
)
    requires
        wf_subtree::<K, V>(p0, Shape::Node(pid, cs), lo, hi, nxt),
        balanced::<K, V>(p0, Shape::Node(pid, cs), t, h),
        0 <= idx < cs.len(),
        rid == p0.len(),
        pn.len() == p0.len() + 1,
        forall|p: u64| p < p0.len() && p != shape_id(cs[idx]) && p != pid ==> #[trigger] pn[p as int] == p0[p as int],
        nkeys(pn, pid) <= 2 * t - 1,
        t - 1 <= nkeys(pn, shape_id(cs[idx])) <= 2 * t - 1,
        t - 1 <= nkeys(pn, rid) <= 2 * t - 1,
        cs[idx] is Node ==> 0 <= m && m + 1 < cs[idx]->Node_1.len() && e == cs[idx]->Node_1.len(),
    ensures
        cs[idx] is Leaf ==> balanced::<K, V>(
            pn,
            Shape::Node(pid, splice(cs, idx, idx + 1, seq![Shape::Leaf(shape_id(cs[idx])), Shape::Leaf(rid)])),
            t,
            h,
        ),
        cs[idx] is Node ==> balanced::<K, V>(
            pn,
            Shape::Node(
                pid,
                splice(
                    cs,
                    idx,
                    idx + 1,
                    seq![
                        Shape::Node(shape_id(cs[idx]), cs[idx]->Node_1.subrange(0, m + 1)),
                        Shape::Node(rid, cs[idx]->Node_1.subrange(m + 1, e)),
                    ],
                ),
            ),
            t,
            h,
        ),
{
    let cid = shape_id(cs[idx]);
    lemma_balanced_unfold::<K, V>(p0, Shape::Node(pid, cs), t, h);
    lemma_balanced_unfold::<K, V>(p0, cs[idx], t, (h - 1) as nat);
    assert(cs[idx] == cs[idx]);
    assert forall|p: u64| p < p0.len() && p != pid && p != shape_id(cs[idx]) && p != shape_id(cs[idx + 1 - 1]) implies #[trigger] pn[p as int]
        == p0[p as int] by {}
    lemma_run_frame::<K, V>(p0, pn, pid, cs, lo, hi, nxt, idx, idx + 1);
    if cs[idx] is Leaf {
        lemma_balanced_leaf::<K, V>(pn, cid, t);
        lemma_balanced_leaf::<K, V>(pn, rid, t);
        let mcs = seq![Shape::Leaf(cid), Shape::Leaf(rid)];
        assert(mcs[0] == Shape::Leaf(cid) && mcs[1] == Shape::Leaf(rid));
        lemma_splice_balanced::<K, V>(p0, pn, pid, cs, idx, idx + 1, mcs, t, h);
    } else {
        let ccs = cs[idx]->Node_1;
        let h2 = (h - 1) as nat;
        let left = ccs.subrange(0, m + 1);
        let right = ccs.subrange(m + 1, e);
        assert forall|k: int| #![trigger left[k]] 0 <= k < left.len() implies t - 1 <= nkeys(p0, shape_id(left[k]))
            && balanced::<K, V>(p0, left[k], t, (h2 - 1) as nat) by {
            assert(left[k] == ccs[k]);
        }
        assert forall|k: int, p: u64| 0 <= k < left.len() && #[trigger] in_shape(left[k], p) implies pn[p as int] == p0[p as int] by {
            assert(left[k] == ccs[k]);
        }
        lemma_run_balanced::<K, V>(p0, pn, cid, left, t, h2);
        assert forall|k: int| #![trigger right[k]] 0 <= k < right.len() implies t - 1 <= nkeys(p0, shape_id(right[k]))
            && balanced::<K, V>(p0, right[k], t, (h2 - 1) as nat) by {
            assert(right[k] == ccs[m + 1 + k]);
        }
        assert forall|k: int, p: u64| 0 <= k < right.len() && #[trigger] in_shape(right[k], p) implies pn[p as int] == p0[p as int] by {
            assert(right[k] == ccs[m + 1 + k]);
        }
        lemma_run_balanced::<K, V>(p0, pn, rid, right, t, h2);
        let mcs = seq![Shape::Node(cid, left), Shape::Node(rid, right)];
        assert(mcs[0] == Shape::Node(cid, left) && mcs[1] == Shape::Node(rid, right));
        lemma_splice_balanced::<K, V>(p0, pn, pid, cs, idx, idx + 1, mcs, t, h);
    }
}

/// Redistributing the entries (or children) of the adjacent children `a`
/// and `a + 1` of a balanced node between their two pages, each keeping at
/// least `t - 1` keys, keeps the node balanced; for internal children the
/// run of their children is cut again after child `m`.
pub proof fn lemma_regroup_balanced<K: BTreeKey, V>(
    p0: Seq<BTreeNode<K, V>>,
    pn: Seq<BTreeNode<K, V>>,
    pid: u64,
    cs: Seq<Shape>,
    lo: Option<K::V>,
    hi: Option<K::V>,
    nxt: u64,
    a: int,
    m: int,
    t: int,
    h: nat,
)
    requires
        wf_subtree::<K, V>(p0, Shape::Node(pid, cs), lo, hi, nxt),
        balanced::<K, V>(p0, Shape::Node(pid, cs), t, h),
        0 <= a,
        a + 1 < cs.len(),
        pn.len() == p0.len(),
        forall|p: u64|
            p < p0.len() && p != pid && p != shape_id(cs[a]) && p != shape_id(cs[a + 1]) ==> #[trigger] pn[p as int]
                == p0[p as int],
        nkeys(pn, pid) <= 2 * t - 1,
        t - 1 <= nkeys(pn, shape_id(cs[a])) <= 2 * t - 1,
        t - 1 <= nkeys(pn, shape_id(cs[a + 1])) <= 2 * t - 1,
        cs[a] is Leaf <==> cs[a + 1] is Leaf,
        cs[a] is Node ==> 0 <= m && m + 1 < (cs[a]->Node_1 + cs[a + 1]->Node_1).len(),
    ensures
        cs[a] is Leaf ==> balanced::<K, V>(pn, Shape::Node(pid, cs), t, h),
        cs[a] is Node ==> balanced::<K, V>(pn, regroup_shape(pid, cs, a, m), t, h),
{
    let lid = shape_id(cs[a]);
    let rid = shape_id(cs[a + 1]);
    lemma_balanced_unfold::<K, V>(p0, Shape::Node(pid, cs), t, h);
    lemma_balanced_unfold::<K, V>(p0, cs[a], t, (h - 1) as nat);
    lemma_balanced_unfold::<K, V>(p0, cs[a + 1], t, (h - 1) as nat);
    lemma_run_frame::<K, V>(p0, pn, pid, cs, lo, hi, nxt, a, a + 2);
    if cs[a] is Leaf {
        lemma_balanced_leaf::<K, V>(pn, lid, t);
        lemma_balanced_leaf::<K, V>(pn, rid, t);
        let mcs = seq![cs[a], cs[a + 1]];
        assert(mcs[0] == cs[a] && mcs[1] == cs[a + 1]);
        lemma_splice_balanced::<K, V>(p0, pn, pid, cs, a, a + 2, mcs, t, h);
        assert(splice(cs, a, a + 2, mcs) =~= cs);
    } else {
        let lcs = cs[a]->Node_1;
        let rcs = cs[a + 1]->Node_1;
        let ccs = lcs + rcs;
        let nl = lcs.len() as int;
        let h2 = (h - 1) as nat;
        assert forall|k: int| #![trigger ccs[k]] 0 <= k < ccs.len() implies t - 1 <= nkeys(p0, shape_id(ccs[k]))
            && balanced::<K, V>(p0, ccs[k], t, (h2 - 1) as nat) && (forall|p: u64| #[trigger] in_shape(ccs[k], p) ==> pn[p as int] == p0[p as int]) by {
            if k < nl {
                assert(ccs[k] == lcs[k]);
            } else {
                assert(ccs[k] == rcs[k - nl]);
            }
        }
        let left = ccs.subrange(0, m + 1);
        let right = ccs.subrange(m + 1, ccs.len() as int);
        assert forall|k: int| #![trigger left[k]] 0 <= k < left.len() implies t - 1 <= nkeys(p0, shape_id(left[k]))
            && balanced::<K, V>(p0, left[k], t, (h2 - 1) as nat) by {
            assert(left[k] == ccs[k]);
        }
        assert forall|k: int, p: u64| 0 <= k < left.len() && #[trigger] in_shape(left[k], p) implies pn[p as int] == p0[p as int] by {
            assert(left[k] == ccs[k]);
        }
        lemma_run_balanced::<K, V>(p0, pn, lid, left, t, h2);
        assert forall|k: int| #![trigger right[k]] 0 <= k < right.len() implies t - 1 <= nkeys(p0, shape_id(right[k]))
            && balanced::<K, V>(p0, right[k], t, (h2 - 1) as nat) by {
            assert(right[k] == ccs[m + 1 + k]);
        }
        assert forall|k: int, p: u64| 0 <= k < right.len() && #[trigger] in_shape(right[k], p) implies pn[p as int] == p0[p as int] by {
            assert(right[k] == ccs[m + 1 + k]);
        }
        lemma_run_balanced::<K, V>(p0, pn, rid, right, t, h2);
        let mcs = seq![Shape::Node(lid, left), Shape::Node(rid, right)];
        assert(mcs[0] == Shape::Node(lid, left) && mcs[1] == Shape::Node(rid, right));
        lemma_splice_balanced::<K, V>(p0, pn, pid, cs, a, a + 2, mcs, t, h);
    }
}

/// Merging the adjacent children `a` and `a + 1` of a balanced node into
/// the page of child `a`, with at most `2t - 1` keys there, keeps the node
/// balanced when it keeps at least one child.
pub proof fn lemma_merge_balanced<K: BTreeKey, V>(
    p0: Seq<BTreeNode<K, V>>,
    pn: Seq<BTreeNode<K, V>>,
    pid: u64,
    cs: Seq<Shape>,
    lo: Option<K::V>,
    hi: Option<K::V>,
    nxt: u64,
    a: int,
    t: int,
    h: nat,
)
    requires
        wf_subtree::<K, V>(p0, Shape::Node(pid, cs), lo, hi, nxt),
        balanced::<K, V>(p0, Shape::Node(pid, cs), t, h),
        0 <= a,
        a + 1 < cs.len(),
        pn.len() == p0.len(),
        forall|p: u64|
            p < p0.len() && p != pid && p != shape_id(cs[a]) && p != shape_id(cs[a + 1]) ==> #[trigger] pn[p as int]
                == p0[p as int],
        nkeys(pn, pid) <= 2 * t - 1,
        t - 1 <= nkeys(pn, shape_id(cs[a])) <= 2 * t - 1,
        cs[a] is Leaf <==> cs[a + 1] is Leaf,
    ensures
        cs[a] is Leaf ==> balanced::<K, V>(
            pn,
            Shape::Node(pid, splice(cs, a, a + 2, seq![Shape::Leaf(shape_id(cs[a]))])),
            t,
            h,
        ),
        cs[a] is Node ==> balanced::<K, V>(pn, merge_shape(pid, cs, a), t, h),
{
    let lid = shape_id(cs[a]);
    lemma_balanced_unfold::<K, V>(p0, Shape::Node(pid, cs), t, h);
    lemma_balanced_unfold::<K, V>(p0, cs[a], t, (h - 1) as nat);
    lemma_balanced_unfold::<K, V>(p0, cs[a + 1], t, (h - 1) as nat);
    lemma_run_frame::<K, V>(p0, pn, pid, cs, lo, hi, nxt, a, a + 2);
    if cs[a] is Leaf {
        lemma_balanced_leaf::<K, V>(pn, lid, t);
        let mcs = seq![Shape::Leaf(lid)];
        assert(mcs[0] == Shape::Leaf(lid));
        lemma_splice_balanced::<K, V>(p0, pn, pid, cs, a, a + 2, mcs, t, h);
    } else {
        let lcs = cs[a]->Node_1;
        let rcs = cs[a + 1]->Node_1;
        let ccs = lcs + rcs;
        let nl = lcs.len() as int;
        let h2 = (h - 1) as nat;
        assert forall|k: int| #![trigger ccs[k]] 0 <= k < ccs.len() implies t - 1 <= nkeys(p0, shape_id(ccs[k]))
            && balanced::<K, V>(p0, ccs[k], t, (h2 - 1) as nat) by {
            if k < nl {
                assert(ccs[k] == lcs[k]);
            } else {
                assert(ccs[k] == rcs[k - nl]);
            }
        }
        assert forall|k: int, p: u64| 0 <= k < ccs.len() && #[trigger] in_shape(ccs[k], p) implies pn[p as int] == p0[p as int] by {
            if k < nl {
                assert(ccs[k] == lcs[k]);
            } else {
                assert(ccs[k] == rcs[k - nl]);
            }
        }
        lemma_run_balanced::<K, V>(p0, pn, lid, ccs, t, h2);
        let mcs = seq![Shape::Node(lid, ccs)];
        assert(mcs[0] == Shape::Node(lid, ccs));
        lemma_splice_balanced::<K, V>(p0, pn, pid, cs, a, a + 2, mcs, t, h);
    }
}


/// The kinds of two adjacent children of a well-formed node match the kinds
/// of their pages, and an internal one has one child more than keys.
pub proof fn lemma_pair_kinds<K: BTreeKey, V>(
    p0: Seq<BTreeNode<K, V>>,
    pid: u64,
    cs: Seq<Shape>,
    lo: Option<K::V>,
    hi: Option<K::V>,
    nxt: u64,
    a: int,
)
    requires
        wf_subtree::<K, V>(p0, Shape::Node(pid, cs), lo, hi, nxt),
        0 <= a,
        a + 1 < cs.len(),
    ensures
        (cs[a] is Leaf) == (p0[shape_id(cs[a]) as int] is Leaf),
        (cs[a + 1] is Leaf) == (p0[shape_id(cs[a + 1]) as int] is Leaf),
        cs[a] is Node ==> cs[a]->Node_1.len() == nkeys(p0, shape_id(cs[a])) + 1,
        cs[a + 1] is Node ==> cs[a + 1]->Node_1.len() == nkeys(p0, shape_id(cs[a + 1])) + 1,
{
    lemma_child_kind::<K, V>(p0, pid, cs, lo, hi, nxt, a);
    lemma_child_kind::<K, V>(p0, pid, cs, lo, hi, nxt, a + 1);
}

/// The kind of a child of a well-formed node matches the kind of its page,
/// and an internal child has one child more than keys.
pub proof fn lemma_child_kind<K: BTreeKey, V>(
    p0: Seq<BTreeNode<K, V>>,
    pid: u64,
    cs: Seq<Shape>,
    lo: Option<K::V>,
    hi: Option<K::V>,
    nxt: u64,
    i: int,
)
    requires
        wf_subtree::<K, V>(p0, Shape::Node(pid, cs), lo, hi, nxt),
        0 <= i < cs.len(),
    ensures
        (cs[i] is Leaf) == (p0[shape_id(cs[i]) as int] is Leaf),
        cs[i] is Node ==> cs[i]->Node_1.len() == nkeys(p0, shape_id(cs[i])) + 1,
{
    let ks = crate::shape::node_seps(p0, pid);
    let lo_i = crate::shape::child_lo::<K>(lo, ks, i);
    let hi_i = crate::shape::child_hi::<K>(hi, ks, i);
    let nxt_i = crate::shape::chain_next(cs, i, nxt);
    lemma_child_wf::<K, V>(p0, pid, cs, lo, hi, nxt, i);
    crate::shape::lemma_wf_kind::<K, V>(p0, cs[i], lo_i, hi_i, nxt_i);
    if cs[i] is Node {
        let cid = shape_id(cs[i]);
        assert(cs[i] == Shape::Node(cid, cs[i]->Node_1));
        lemma_node_parts::<K, V>(p0, cid, cs[i]->Node_1, lo_i, hi_i, nxt_i);
    }
}


/// A node whose children are all lower than `bound` stays no higher than
/// `bound` when one child is replaced by a shape no higher than it.
pub proof fn lemma_hgt_update(id: u64, cs: Seq<Shape>, idx: int, c2: Shape, bound: nat)
    requires
        0 <= idx < cs.len(),
        forall|i: int| 0 <= i < cs.len() ==> hgt(#[trigger] cs[i]) < bound,
        hgt(c2) <= hgt(cs[idx]),
    ensures
        hgt(Shape::Node(id, cs.update(idx, c2))) <= bound,
{
    let cs2 = cs.update(idx, c2);
    assert forall|i: int| 0 <= i < cs2.len() implies hgt(#[trigger] cs2[i]) <= (bound - 1) as nat by {
        if i != idx {
            assert(cs2[i] == cs[i]);
        }
    }
    lemma_hgt_seq_le(cs2, (bound - 1) as nat);
}

/// After a change below child `idx` of a balanced node leaves that child
/// balanced, with at least `t - 1` keys in its root, and changes no page
/// outside it but new ones, the node is balanced and its own page unchanged.
pub proof fn lemma_child_step_balanced<K: BTreeKey, V>(
    p1: Seq<BTreeNode<K, V>>,
    pn: Seq<BTreeNode<K, V>>,
    id: u64,
    cs1: Seq<Shape>,
    lo: Option<K::V>,
    hi: Option<K::V>,
    nxt: u64,
    idx: int,
    c2: Shape,
    t: int,
    h: nat,
)
    requires
        wf_subtree::<K, V>(p1, Shape::Node(id, cs1), lo, hi, nxt),
        balanced::<K, V>(p1, Shape::Node(id, cs1), t, h),
        0 <= idx < cs1.len(),
        balanced::<K, V>(pn, c2, t, (h - 1) as nat),
        shape_id(c2) == shape_id(cs1[idx]),
        t - 1 <= nkeys(pn, shape_id(c2)),
        changed_only(p1, pn, cs1[idx], c2),
    ensures
        balanced::<K, V>(pn, Shape::Node(id, cs1.update(idx, c2)), t, h),
        pn[id as int] == p1[id as int],
{
    lemma_balanced_unfold::<K, V>(p1, Shape::Node(id, cs1), t, h);
    lemma_child_pages::<K, V>(p1, id, cs1, lo, hi, nxt);
    lemma_node_parts::<K, V>(p1, id, cs1, lo, hi, nxt);
    assert(!in_shape(cs1[idx], id));
    assert forall|i: int, p: u64| 0 <= i < cs1.len() && !(idx <= i < idx + 1) && #[trigger] in_shape(cs1[i], p) implies pn[p as int]
        == p1[p as int] by {
        assert(!in_shape(cs1[idx], p));
    }
    let mcs = seq![c2];
    assert(mcs[0] == c2);
    lemma_splice_balanced::<K, V>(p1, pn, id, cs1, idx, idx + 1, mcs, t, h);
    assert(splice(cs1, idx, idx + 1, mcs) =~= cs1.update(idx, c2));
}

/// After a separator goes in at `idx`, a key that was routed to child `idx`
/// is routed to child `idx` or `idx + 1`.
pub proof fn lemma_split_route<K: BTreeKey>(ks: Seq<K::V>, ks1: Seq<K::V>, idx: int, k: K::V)
    requires
        sorted::<K>(ks),
        sorted::<K>(ks1),
        0 <= idx <= ks.len(),
        ks1 == ks.insert(idx, ks1[idx]),
        route::<K>(ks, k) == idx,
    ensures
        route::<K>(ks1, k) == idx || route::<K>(ks1, k) == idx + 1,
{
    let mk = seq![ks1[idx]];
    assert(splice(ks, idx, idx, mk) =~= ks1);
    assert(sorted::<K>(mk));
    lemma_route_splice::<K>(ks, idx, idx, mk, k);
    assert(mk.drop_last() =~= Seq::<K::V>::empty());
    assert(route::<K>(Seq::<K::V>::empty(), k) == 0);
    assert(route::<K>(mk, k) == 0 || route::<K>(mk, k) == 1) by {
        reveal_with_fuel(route, 2);
    }
}


/// The keys of child `a` of a well-formed node lie below separator `a`, and
/// the keys of child `a + 1` at or above it.
pub proof fn lemma_pair_key_bounds<K: BTreeKey, V>(
    p0: Seq<BTreeNode<K, V>>,
    pid: u64,
    cs: Seq<Shape>,
    lo: Option<K::V>,
    hi: Option<K::V>,
    nxt: u64,
    a: int,
)
    requires
        wf_subtree::<K, V>(p0, Shape::Node(pid, cs), lo, hi, nxt),
        0 <= a,
        a + 1 < cs.len(),
    ensures
        forall|j: int|
            0 <= j < nkeys(p0, shape_id(cs[a])) ==> lt::<K>(
                #[trigger] node_keys(p0[shape_id(cs[a]) as int])[j],
                node_seps(p0, pid)[a],
            ),
        forall|j: int|
            0 <= j < nkeys(p0, shape_id(cs[a + 1])) ==> le::<K>(
                node_seps(p0, pid)[a],
                #[trigger] node_keys(p0[shape_id(cs[a + 1]) as int])[j],
            ),
{
    let ks = node_seps(p0, pid);
    lemma_node_parts::<K, V>(p0, pid, cs, lo, hi, nxt);
    let lo_a = child_lo::<K>(lo, ks, a);
    let hi_a = child_hi::<K>(hi, ks, a);
    let nxt_a = chain_next(cs, a, nxt);
    let lo_b = child_lo::<K>(lo, ks, a + 1);
    let hi_b = child_hi::<K>(hi, ks, a + 1);
    let nxt_b = chain_next(cs, a + 1, nxt);
    assert(hi_a == Some(ks[a]));
    assert(lo_b == Some(ks[a]));
    lemma_child_wf::<K, V>(p0, pid, cs, lo, hi, nxt, a);
    lemma_child_wf::<K, V>(p0, pid, cs, lo, hi, nxt, a + 1);
    lemma_wf_kind::<K, V>(p0, cs[a], lo_a, hi_a, nxt_a);
    lemma_wf_kind::<K, V>(p0, cs[a + 1], lo_b, hi_b, nxt_b);
    let lid = shape_id(cs[a]);
    let rid = shape_id(cs[a + 1]);
    if cs[a] is Leaf {
        reveal(leaf_ok);
        assert forall|j: int| 0 <= j < nkeys(p0, lid) implies lt::<K>(#[trigger] node_keys(p0[lid as int])[j], ks[a]) by {
            assert(in_range::<K>(lo_a, hi_a, key_views(p0[lid as int]->Leaf_0.keys@)[j]));
        }
    } else {
        assert(cs[a] == Shape::Node(lid, cs[a]->Node_1));
        lemma_node_parts::<K, V>(p0, lid, cs[a]->Node_1, lo_a, hi_a, nxt_a);
        assert forall|j: int| 0 <= j < nkeys(p0, lid) implies lt::<K>(#[trigger] node_keys(p0[lid as int])[j], ks[a]) by {
            assert(strictly_in::<K>(lo_a, hi_a, node_seps(p0, lid)[j]));
        }
    }
    if cs[a + 1] is Leaf {
        reveal(leaf_ok);
        assert forall|j: int| 0 <= j < nkeys(p0, rid) implies le::<K>(ks[a], #[trigger] node_keys(p0[rid as int])[j]) by {
            assert(in_range::<K>(lo_b, hi_b, key_views(p0[rid as int]->Leaf_0.keys@)[j]));
        }
    } else {
        assert(cs[a + 1] == Shape::Node(rid, cs[a + 1]->Node_1));
        lemma_node_parts::<K, V>(p0, rid, cs[a + 1]->Node_1, lo_b, hi_b, nxt_b);
        assert forall|j: int| 0 <= j < nkeys(p0, rid) implies le::<K>(ks[a], #[trigger] node_keys(p0[rid as int])[j]) by {
            assert(strictly_in::<K>(lo_b, hi_b, node_seps(p0, rid)[j]));
        }
    }
}

/// A key routed right of separator `a` stays routed there when that
/// separator is lowered to `x`.
pub proof fn lemma_route_lowered<K: BTreeKey>(ks: Seq<K::V>, a: int, x: K::V, k: K::V)
    requires
        sorted::<K>(ks),
        sorted::<K>(ks.update(a, x)),
        0 <= a < ks.len(),
        route::<K>(ks, k) == a + 1,
        le::<K>(x, ks[a]),
    ensures
        route::<K>(ks.update(a, x), k) == a + 1,
{
    broadcast use group_key_order;
    lemma_route::<K>(ks, k);
    let ks1 = ks.update(a, x);
    assert(ks1[a] == x);
    assert(le::<K>(ks[a], k));
    if a + 1 < ks.len() {
        assert(ks1[a + 1] == ks[a + 1]);
        assert(lt::<K>(k, ks[a + 1]));
    }
    lemma_route_unique::<K>(ks1, k, a + 1);
}

/// A key routed left of separator `a` stays routed there when that
/// separator is raised to `x`.
pub proof fn lemma_route_raised<K: BTreeKey>(ks: Seq<K::V>, a: int, x: K::V, k: K::V)
    requires
        sorted::<K>(ks),
        sorted::<K>(ks.update(a, x)),
        0 <= a < ks.len(),
        route::<K>(ks, k) == a,
        le::<K>(ks[a], x),
    ensures
        route::<K>(ks.update(a, x), k) == a,
{
    broadcast use group_key_order;
    lemma_route::<K>(ks, k);
    let ks1 = ks.update(a, x);
    assert(ks1[a] == x);
    assert(lt::<K>(k, ks[a]));
    if a > 0 {
        assert(ks1[a - 1] == ks[a - 1]);
        assert(le::<K>(ks[a - 1], k));
    }
    lemma_route_unique::<K>(ks1, k, a);
}

/// A key routed to child `a` or `a + 1` is routed to child `a` once
/// separator `a` is removed.
pub proof fn lemma_route_removed<K: BTreeKey>(ks: Seq<K::V>, a: int, k: K::V)
    requires
        sorted::<K>(ks),
        0 <= a < ks.len(),
        a <= route::<K>(ks, k) <= a + 1,
    ensures
        route::<K>(ks.remove(a), k) == a,
{
    let mk = Seq::<K::V>::empty();
    assert(splice(ks, a, a + 1, mk) =~= ks.remove(a));
    let ks1 = ks.remove(a);
    assert(sorted::<K>(ks1)) by {
        assert forall|i: int, j: int| 0 <= i < j < ks1.len() implies lt::<K>(ks1[i], ks1[j]) by {
            let i0 = if i < a { i } else { i + 1 };
            let j0 = if j < a { j } else { j + 1 };
            assert(ks1[i] == ks[i0] && ks1[j] == ks[j0]);
        }
    }
    lemma_route_splice::<K>(ks, a, a + 1, mk, k);
}

} // verus!
