//! The leaves of a subtree from left to right, the entries they hold in
//! that order, and the links between them.
use crate::key::{group_key_order, le, lt, BTreeKey};
use crate::node::{key_views, sorted, BTreeNode};
use crate::parts::{entries_ok, lemma_node_parts, parts_wf};
use crate::rebalance::lemma_pair_entries;
use crate::shape::{
    chain_next, child_hi, child_lo, first_leaf, in_shape, leaf_ok, lemma_child_wf, lemma_route, lemma_wf_kind, lookup,
    node_seps, route, seq_lookup, strictly_in, wf_subtree, Shape,
};
use crate::split::lemma_leaf_entries;
use vstd::prelude::*;

verus! {

/// The leaf pages of a shape, from left to right.
pub open spec fn leaves(s: Shape) -> Seq<u64>
    decreases s, 0int,
{
    match s {
        Shape::Leaf(id) => seq![id],
        Shape::Node(_, cs) => leaves_seq(cs),
    }
}

/// The leaf pages of the shapes `cs`, from left to right.
pub open spec fn leaves_seq(cs: Seq<Shape>) -> Seq<u64>
    decreases cs, 1int,
{
    if cs.len() == 0 {
        Seq::empty()
    } else {
        leaves_seq(cs.drop_last()) + leaves(cs.last())
    }
}

/// The keys held by the leaf pages `ids`, in that order.
pub open spec fn run_keys<K: BTreeKey, V>(pages: Seq<BTreeNode<K, V>>, ids: Seq<u64>) -> Seq<K::V>
    decreases ids.len(),
{
    if ids.len() == 0 {
        Seq::empty()
    } else {
        run_keys::<K, V>(pages, ids.drop_last()) + key_views(pages[ids.last() as int]->Leaf_0.keys@)
    }
}

/// The values held by the leaf pages `ids`, in that order.
pub open spec fn run_vals<K: BTreeKey, V>(pages: Seq<BTreeNode<K, V>>, ids: Seq<u64>) -> Seq<V>
    decreases ids.len(),
{
    if ids.len() == 0 {
        Seq::empty()
    } else {
        run_vals::<K, V>(pages, ids.drop_last()) + pages[ids.last() as int]->Leaf_0.values@
    }
}

/// The page a leaf page links to.
pub open spec fn next_of<K, V>(pages: Seq<BTreeNode<K, V>>, id: u64) -> u64 {
    pages[id as int]->Leaf_0.next_leaf
}

/// Each of the pages `ids` holds a leaf that links to the next one, the last
/// to `nxt`.
pub open spec fn linked<K, V>(pages: Seq<BTreeNode<K, V>>, ids: Seq<u64>, nxt: u64) -> bool {
    &&& forall|i: int|
        0 <= i < ids.len() ==> #[trigger] ids[i] < pages.len() && pages[ids[i] as int] is Leaf
            && pages[ids[i] as int]->Leaf_0.keys@.len() == pages[ids[i] as int]->Leaf_0.values@.len()
    &&& forall|i: int| 0 <= i < ids.len() - 1 ==> #[trigger] next_of(pages, ids[i]) == ids[i + 1]
    &&& ids.len() > 0 ==> next_of(pages, ids.last()) == nxt
}

/// The entries of the leaves of `s`, in order, are well formed within the
/// range, and `s` maps each key as they do.
pub open spec fn tree_entries_ok<K: BTreeKey, V>(
    pages: Seq<BTreeNode<K, V>>,
    s: Shape,
    lo: Option<K::V>,
    hi: Option<K::V>,
) -> bool {
    &&& entries_ok::<K, V>(run_keys::<K, V>(pages, leaves(s)), run_vals::<K, V>(pages, leaves(s)), lo, hi)
    &&& forall|k: K::V|
        #[trigger] lookup::<K, V>(pages, s, k) == seq_lookup::<K, V>(
            run_keys::<K, V>(pages, leaves(s)),
            run_vals::<K, V>(pages, leaves(s)),
            k,
        )
}

/// The entries of two runs of leaves glued together.
#[verifier::rlimit(30)]
pub proof fn lemma_run_concat<K: BTreeKey, V>(pages: Seq<BTreeNode<K, V>>, a: Seq<u64>, b: Seq<u64>)
    ensures
        run_keys::<K, V>(pages, a + b) == run_keys::<K, V>(pages, a) + run_keys::<K, V>(pages, b),
        run_vals::<K, V>(pages, a + b) == run_vals::<K, V>(pages, a) + run_vals::<K, V>(pages, b),
    decreases b.len(),
{
    if b.len() == 0 {
        assert(a + b =~= a);
        assert(run_keys::<K, V>(pages, a) + run_keys::<K, V>(pages, b) =~= run_keys::<K, V>(pages, a));
        assert(run_vals::<K, V>(pages, a) + run_vals::<K, V>(pages, b) =~= run_vals::<K, V>(pages, a));
    } else {
        lemma_run_concat::<K, V>(pages, a, b.drop_last());
        assert((a + b).drop_last() =~= a + b.drop_last());
        assert((a + b).last() == b.last());
        let lk = key_views(pages[b.last() as int]->Leaf_0.keys@);
        let lv = pages[b.last() as int]->Leaf_0.values@;
        assert(run_keys::<K, V>(pages, a) + run_keys::<K, V>(pages, b.drop_last()) + lk =~= run_keys::<K, V>(pages, a) + (run_keys::<K, V>(pages, b.drop_last()) + lk));
        assert(run_vals::<K, V>(pages, a) + run_vals::<K, V>(pages, b.drop_last()) + lv =~= run_vals::<K, V>(pages, a) + (run_vals::<K, V>(pages, b.drop_last()) + lv));
    }
}

/// The entries of a single leaf.
#[verifier::rlimit(20)]
pub proof fn lemma_run_single<K: BTreeKey, V>(pages: Seq<BTreeNode<K, V>>, id: u64)
    ensures
        run_keys::<K, V>(pages, seq![id]) == key_views(pages[id as int]->Leaf_0.keys@),
        run_vals::<K, V>(pages, seq![id]) == pages[id as int]->Leaf_0.values@,
{
    assert(seq![id].drop_last() =~= Seq::<u64>::empty());
    assert(seq![id].last() == id);
    assert(run_keys::<K, V>(pages, Seq::<u64>::empty()) == Seq::<K::V>::empty());
    assert(run_vals::<K, V>(pages, Seq::<u64>::empty()) == Seq::<V>::empty());
    assert(Seq::<K::V>::empty() + key_views(pages[id as int]->Leaf_0.keys@) =~= key_views(pages[id as int]->Leaf_0.keys@));
    assert(Seq::<V>::empty() + pages[id as int]->Leaf_0.values@ =~= pages[id as int]->Leaf_0.values@);
}

/// Leaves whose keys pair with their values hold as many keys as values.
#[verifier::rlimit(30)]
pub proof fn lemma_run_lens<K: BTreeKey, V>(pages: Seq<BTreeNode<K, V>>, ids: Seq<u64>)
    requires
        forall|i: int|
            0 <= i < ids.len() ==> pages[#[trigger] ids[i] as int]->Leaf_0.keys@.len() == pages[ids[i] as int]->Leaf_0.values@.len(),
    ensures
        run_keys::<K, V>(pages, ids).len() == run_vals::<K, V>(pages, ids).len(),
    decreases ids.len(),
{
    if ids.len() > 0 {
        let d = ids.drop_last();
        assert forall|i: int| 0 <= i < d.len() implies pages[#[trigger] d[i] as int]->Leaf_0.keys@.len()
            == pages[d[i] as int]->Leaf_0.values@.len() by {
            assert(d[i] == ids[i]);
        }
        lemma_run_lens::<K, V>(pages, d);
        assert(ids.last() == ids[ids.len() - 1]);
    }
}

/// The leaves of two runs of shapes glued together.
#[verifier::rlimit(30)]
pub proof fn lemma_leaves_concat(a: Seq<Shape>, b: Seq<Shape>)
    ensures
        leaves_seq(a + b) == leaves_seq(a) + leaves_seq(b),
    decreases b.len(),
{
    if b.len() == 0 {
        assert(a + b =~= a);
        assert(leaves_seq(a) + leaves_seq(b) =~= leaves_seq(a));
    } else {
        lemma_leaves_concat(a, b.drop_last());
        assert((a + b).drop_last() =~= a + b.drop_last());
        assert((a + b).last() == b.last());
        assert(leaves_seq(a) + leaves_seq(b.drop_last()) + leaves(b.last()) =~= leaves_seq(a) + (leaves_seq(b.drop_last()) + leaves(b.last())));
    }
}

/// The leaves of a single shape.
#[verifier::rlimit(20)]
pub proof fn lemma_leaves_single(c: Shape)
    ensures
        leaves_seq(seq![c]) == leaves(c),
{
    assert(seq![c].drop_last() =~= Seq::<Shape>::empty());
    assert(seq![c].last() == c);
    assert(leaves_seq(Seq::<Shape>::empty()) == Seq::<u64>::empty());
    assert(Seq::<u64>::empty() + leaves(c) =~= leaves(c));
}

/// The leaves of a node split around child `r`.
#[verifier::rlimit(30)]
pub proof fn lemma_leaves_around(cs: Seq<Shape>, r: int)
    requires
        0 <= r < cs.len(),
    ensures
        leaves_seq(cs) == leaves_seq(cs.subrange(0, r)) + leaves(cs[r]) + leaves_seq(cs.subrange(r + 1, cs.len() as int)),
{
    let a = cs.subrange(0, r);
    let b = cs.subrange(r + 1, cs.len() as int);
    assert(cs =~= a + (seq![cs[r]] + b));
    lemma_leaves_concat(a, seq![cs[r]] + b);
    lemma_leaves_concat(seq![cs[r]], b);
    lemma_leaves_single(cs[r]);
    assert(leaves_seq(a) + (leaves(cs[r]) + leaves_seq(b)) =~= leaves_seq(a) + leaves(cs[r]) + leaves_seq(b));
}

/// The entries of the leaves of the children `a..b` of a node, whose
/// children each hold well-formed entries within their ranges: well formed
/// within the range of the run, and a key routed into the run is found
/// there.
#[verifier::rlimit(60)]
pub proof fn lemma_window_entries<K: BTreeKey, V>(
    pages: Seq<BTreeNode<K, V>>,
    cs: Seq<Shape>,
    ks: Seq<K::V>,
    lo: Option<K::V>,
    hi: Option<K::V>,
    a: int,
    b: int,
)
    requires
        sorted::<K>(ks),
        forall|i: int| 0 <= i < ks.len() ==> strictly_in::<K>(lo, hi, #[trigger] ks[i]),
        cs.len() == ks.len() + 1,
        0 <= a < b <= cs.len(),
        forall|i: int|
            0 <= i < cs.len() ==> tree_entries_ok::<K, V>(pages, #[trigger] cs[i], child_lo::<K>(lo, ks, i), child_hi::<K>(hi, ks, i)),
    ensures
        entries_ok::<K, V>(
            run_keys::<K, V>(pages, leaves_seq(cs.subrange(a, b))),
            run_vals::<K, V>(pages, leaves_seq(cs.subrange(a, b))),
            child_lo::<K>(lo, ks, a),
            child_hi::<K>(hi, ks, b - 1),
        ),
        forall|k: K::V|
            a <= route::<K>(ks, k) < b ==> #[trigger] lookup::<K, V>(pages, cs[route::<K>(ks, k)], k) == seq_lookup::<K, V>(
                run_keys::<K, V>(pages, leaves_seq(cs.subrange(a, b))),
                run_vals::<K, V>(pages, leaves_seq(cs.subrange(a, b))),
                k,
            ),
    decreases b - a,
{
    let w = leaves_seq(cs.subrange(a, b));
    if b == a + 1 {
        assert(cs.subrange(a, b) =~= seq![cs[a]]);
        lemma_leaves_single(cs[a]);
        assert(tree_entries_ok::<K, V>(pages, cs[a], child_lo::<K>(lo, ks, a), child_hi::<K>(hi, ks, a)));
    } else {
        lemma_window_entries::<K, V>(pages, cs, ks, lo, hi, a, b - 1);
        let w1 = leaves_seq(cs.subrange(a, b - 1));
        let lb = leaves(cs[b - 1]);
        assert(cs.subrange(a, b).drop_last() =~= cs.subrange(a, b - 1));
        assert(cs.subrange(a, b).last() == cs[b - 1]);
        assert(w == w1 + lb);
        lemma_run_concat::<K, V>(pages, w1, lb);
        let sep = ks[b - 2];
        let lo_a = child_lo::<K>(lo, ks, a);
        let hi_b = child_hi::<K>(hi, ks, b - 1);
        assert(child_hi::<K>(hi, ks, b - 2) == Some(sep));
        assert(child_lo::<K>(lo, ks, b - 1) == Some(sep));
        assert(strictly_in::<K>(lo_a, hi_b, sep)) by {
            assert(strictly_in::<K>(lo, hi, sep));
            if a > 0 {
                assert(lt::<K>(ks[a - 1], ks[b - 2]));
            }
            if b - 1 < ks.len() {
                assert(lt::<K>(ks[b - 2], ks[b - 1]));
            }
        }
        assert(tree_entries_ok::<K, V>(pages, cs[b - 1], Some(sep), hi_b));
        lemma_pair_entries::<K, V>(
            run_keys::<K, V>(pages, w1),
            run_vals::<K, V>(pages, w1),
            run_keys::<K, V>(pages, lb),
            run_vals::<K, V>(pages, lb),
            lo_a,
            sep,
            hi_b,
        );
        assert forall|k: K::V| a <= route::<K>(ks, k) < b implies #[trigger] lookup::<K, V>(pages, cs[route::<K>(ks, k)], k)
            == seq_lookup::<K, V>(run_keys::<K, V>(pages, w), run_vals::<K, V>(pages, w), k) by {
            lemma_route::<K>(ks, k);
            if route::<K>(ks, k) < b - 1 {
                assert(lt::<K>(k, ks[b - 2]));
            } else {
                assert(le::<K>(ks[b - 2], k));
                if lt::<K>(k, sep) {
                    crate::key::lemma_lt_asymmetric::<K>(k, sep);
                }
            }
        }
    }
}

/// The entries of the leaves of a well-formed subtree, in order, are well
/// formed within its range, and the subtree maps each key as they do.
#[verifier::rlimit(60)]
pub proof fn lemma_tree_entries<K: BTreeKey, V>(
    pages: Seq<BTreeNode<K, V>>,
    s: Shape,
    lo: Option<K::V>,
    hi: Option<K::V>,
    nxt: u64,
)
    requires
        wf_subtree::<K, V>(pages, s, lo, hi, nxt),
    ensures
        tree_entries_ok::<K, V>(pages, s, lo, hi),
    decreases s,
{
    lemma_wf_kind::<K, V>(pages, s, lo, hi, nxt);
    match s {
        Shape::Leaf(id) => {
            lemma_run_single::<K, V>(pages, id);
            lemma_leaf_entries::<K, V>(pages[id as int]->Leaf_0, lo, hi);
        },
        Shape::Node(id, cs) => {
            let ks = node_seps(pages, id);
            lemma_node_parts::<K, V>(pages, id, cs, lo, hi, nxt);
            assert forall|i: int| 0 <= i < cs.len() implies tree_entries_ok::<K, V>(
                pages,
                #[trigger] cs[i],
                child_lo::<K>(lo, ks, i),
                child_hi::<K>(hi, ks, i),
            ) by {
                lemma_tree_entries::<K, V>(pages, cs[i], child_lo::<K>(lo, ks, i), child_hi::<K>(hi, ks, i), chain_next(cs, i, nxt));
            }
            lemma_window_entries::<K, V>(pages, cs, ks, lo, hi, 0, cs.len() as int);
            assert(cs.subrange(0, cs.len() as int) =~= cs);
            assert forall|k: K::V| #[trigger] lookup::<K, V>(pages, s, k) == seq_lookup::<K, V>(
                run_keys::<K, V>(pages, leaves(s)),
                run_vals::<K, V>(pages, leaves(s)),
                k,
            ) by {
                lemma_route::<K>(ks, k);
            }
        },
    }
}

/// Two linked runs of leaves, the first linking to the start of the second,
/// glued together.
#[verifier::rlimit(30)]
pub proof fn lemma_linked_concat<K, V>(pages: Seq<BTreeNode<K, V>>, a: Seq<u64>, b: Seq<u64>, nxt: u64)
    requires
        b.len() > 0,
        linked(pages, a, b[0]),
        linked(pages, b, nxt),
    ensures
        linked(pages, a + b, nxt),
{
    let c = a + b;
    assert forall|i: int| 0 <= i < c.len() implies #[trigger] c[i] < pages.len() && pages[c[i] as int] is Leaf
        && pages[c[i] as int]->Leaf_0.keys@.len() == pages[c[i] as int]->Leaf_0.values@.len() by {
        if i < a.len() {
            assert(c[i] == a[i]);
        } else {
            assert(c[i] == b[i - a.len()]);
        }
    }
    assert forall|i: int| 0 <= i < c.len() - 1 implies #[trigger] next_of(pages, c[i]) == c[i + 1] by {
        if i < a.len() {
            assert(c[i] == a[i]);
            if i + 1 < a.len() {
                assert(c[i + 1] == a[i + 1]);
            } else {
                assert(a.last() == a[i]);
                assert(c[i + 1] == b[0]);
            }
        } else {
            assert(c[i] == b[i - a.len()]);
            assert(c[i + 1] == b[i + 1 - a.len()]);
        }
    }
    assert(c.last() == b.last());
}

/// The leaves of the children `a..b` of a node, each child's leaves linked
/// to the first leaf after it: they are linked, and start at the first leaf
/// of child `a`.
#[verifier::rlimit(40)]
pub proof fn lemma_window_chain<K, V>(pages: Seq<BTreeNode<K, V>>, cs: Seq<Shape>, nxt: u64, a: int, b: int)
    requires
        0 <= a < b <= cs.len(),
        forall|i: int|
            0 <= i < cs.len() ==> leaves(#[trigger] cs[i]).len() > 0 && leaves(cs[i])[0] == first_leaf(cs[i])
                && linked(pages, leaves(cs[i]), chain_next(cs, i, nxt)),
    ensures
        leaves_seq(cs.subrange(a, b)).len() > 0,
        leaves_seq(cs.subrange(a, b))[0] == first_leaf(cs[a]),
        linked(pages, leaves_seq(cs.subrange(a, b)), chain_next(cs, b - 1, nxt)),
    decreases b - a,
{
    if b == a + 1 {
        assert(cs.subrange(a, b) =~= seq![cs[a]]);
        lemma_leaves_single(cs[a]);
    } else {
        lemma_window_chain(pages, cs, nxt, a, b - 1);
        let w1 = leaves_seq(cs.subrange(a, b - 1));
        let lb = leaves(cs[b - 1]);
        assert(cs.subrange(a, b).drop_last() =~= cs.subrange(a, b - 1));
        assert(cs.subrange(a, b).last() == cs[b - 1]);
        assert(leaves_seq(cs.subrange(a, b)) == w1 + lb);
        assert(chain_next(cs, b - 2, nxt) == first_leaf(cs[b - 1]));
        assert(leaves(cs[b - 1]).len() > 0);
        lemma_linked_concat(pages, w1, lb, chain_next(cs, b - 1, nxt));
        assert((w1 + lb)[0] == w1[0]);
    }
}

/// The leaves of a well-formed subtree, from left to right, each link to
/// the next, and the last to `nxt`; the first is the subtree's first leaf.
#[verifier::rlimit(50)]
pub proof fn lemma_tree_chain<K: BTreeKey, V>(
    pages: Seq<BTreeNode<K, V>>,
    s: Shape,
    lo: Option<K::V>,
    hi: Option<K::V>,
    nxt: u64,
)
    requires
        wf_subtree::<K, V>(pages, s, lo, hi, nxt),
    ensures
        leaves(s).len() > 0,
        leaves(s)[0] == first_leaf(s),
        linked(pages, leaves(s), nxt),
    decreases s,
{
    lemma_wf_kind::<K, V>(pages, s, lo, hi, nxt);
    match s {
        Shape::Leaf(id) => {
            assert(leaves(s)[0] == id);
            lemma_leaf_entries::<K, V>(pages[id as int]->Leaf_0, lo, hi);
        },
        Shape::Node(id, cs) => {
            let ks = node_seps(pages, id);
            lemma_node_parts::<K, V>(pages, id, cs, lo, hi, nxt);
            assert forall|i: int| 0 <= i < cs.len() implies leaves(#[trigger] cs[i]).len() > 0 && leaves(cs[i])[0] == first_leaf(cs[i])
                && linked(pages, leaves(cs[i]), chain_next(cs, i, nxt)) by {
                lemma_tree_chain::<K, V>(pages, cs[i], child_lo::<K>(lo, ks, i), child_hi::<K>(hi, ks, i), chain_next(cs, i, nxt));
            }
            lemma_window_chain(pages, cs, nxt, 0, cs.len() as int);
            assert(cs.subrange(0, cs.len() as int) =~= cs);
        },
    }
}

/// The leaves of a well-formed node split around child `r`: those of the
/// children before it hold keys below the separator before it, those of the
/// children after it keys at or above the separator after it.
#[verifier::rlimit(60)]
pub proof fn lemma_node_around<K: BTreeKey, V>(
    pages: Seq<BTreeNode<K, V>>,
    id: u64,
    cs: Seq<Shape>,
    lo: Option<K::V>,
    hi: Option<K::V>,
    nxt: u64,
    r: int,
)
    requires
        wf_subtree::<K, V>(pages, Shape::Node(id, cs), lo, hi, nxt),
        0 <= r < cs.len(),
    ensures
        ({
            let ks = node_seps(pages, id);
            let pre = leaves_seq(cs.subrange(0, r));
            let suf = leaves_seq(cs.subrange(r + 1, cs.len() as int));
            &&& cs.len() == ks.len() + 1
            &&& leaves(Shape::Node(id, cs)) == pre + leaves(cs[r]) + suf
            &&& forall|i: int| 0 <= i < run_keys::<K, V>(pages, pre).len() ==> lt::<K>(#[trigger] run_keys::<K, V>(pages, pre)[i], ks[r - 1])
            &&& forall|i: int| 0 <= i < run_keys::<K, V>(pages, suf).len() ==> le::<K>(ks[r], #[trigger] run_keys::<K, V>(pages, suf)[i])
        }),
{
    let ks = node_seps(pages, id);
    let pre = leaves_seq(cs.subrange(0, r));
    let suf = leaves_seq(cs.subrange(r + 1, cs.len() as int));
    lemma_node_parts::<K, V>(pages, id, cs, lo, hi, nxt);
    lemma_leaves_around(cs, r);
    assert forall|i: int| 0 <= i < cs.len() implies tree_entries_ok::<K, V>(
        pages,
        #[trigger] cs[i],
        child_lo::<K>(lo, ks, i),
        child_hi::<K>(hi, ks, i),
    ) by {
        lemma_tree_entries::<K, V>(pages, cs[i], child_lo::<K>(lo, ks, i), child_hi::<K>(hi, ks, i), chain_next(cs, i, nxt));
    }
    if r > 0 {
        lemma_window_entries::<K, V>(pages, cs, ks, lo, hi, 0, r);
        assert(child_hi::<K>(hi, ks, r - 1) == Some(ks[r - 1]));
    } else {
        assert(cs.subrange(0, r) =~= Seq::<Shape>::empty());
        assert(leaves_seq(Seq::<Shape>::empty()) == Seq::<u64>::empty());
        assert(run_keys::<K, V>(pages, Seq::<u64>::empty()) == Seq::<K::V>::empty());
    }
    if r + 1 < cs.len() {
        lemma_window_entries::<K, V>(pages, cs, ks, lo, hi, r + 1, cs.len() as int);
        assert(child_lo::<K>(lo, ks, r + 1) == Some(ks[r]));
    } else {
        assert(cs.subrange(r + 1, cs.len() as int) =~= Seq::<Shape>::empty());
        assert(leaves_seq(Seq::<Shape>::empty()) == Seq::<u64>::empty());
        assert(run_keys::<K, V>(pages, Seq::<u64>::empty()) == Seq::<K::V>::empty());
    }
}


/// Each leaf page of a shape belongs to it.
pub proof fn lemma_leaves_in(s: Shape)
    ensures
        forall|i: int| 0 <= i < leaves(s).len() ==> in_shape(s, #[trigger] leaves(s)[i]),
    decreases s, 0int,
{
    if let Shape::Node(id, cs) = s {
        lemma_leaves_seq_in(cs);
        assert forall|i: int| 0 <= i < leaves(s).len() implies in_shape(s, #[trigger] leaves(s)[i]) by {
            let k = choose|k: int| 0 <= k < cs.len() && in_shape(cs[k], leaves_seq(cs)[i]);
            crate::shape::lemma_in_child(id, cs, k, leaves_seq(cs)[i]);
        }
    }
}

/// Each leaf page of a run of shapes belongs to one of them.
pub proof fn lemma_leaves_seq_in(cs: Seq<Shape>)
    ensures
        forall|i: int|
            0 <= i < leaves_seq(cs).len() ==> exists|k: int| 0 <= k < cs.len() && in_shape(cs[k], #[trigger] leaves_seq(cs)[i]),
    decreases cs, 1int,
{
    if cs.len() > 0 {
        let d = cs.drop_last();
        lemma_leaves_seq_in(d);
        lemma_leaves_in(cs.last());
        let a = leaves_seq(d);
        let b = leaves(cs.last());
        assert forall|i: int| 0 <= i < leaves_seq(cs).len() implies exists|k: int|
            0 <= k < cs.len() && in_shape(cs[k], #[trigger] leaves_seq(cs)[i]) by {
            if i < a.len() {
                assert(leaves_seq(cs)[i] == a[i]);
                let k = choose|k: int| 0 <= k < d.len() && in_shape(d[k], a[i]);
                assert(d[k] == cs[k]);
            } else {
                assert(leaves_seq(cs)[i] == b[i - a.len()]);
                assert(in_shape(cs[cs.len() - 1], b[i - a.len()]));
            }
        }
    }
}

/// In a well-formed subtree where page 0 can only be the first leaf, no
/// leaf after the first is page 0.
pub proof fn lemma_zero_first<K: BTreeKey, V>(
    pages: Seq<BTreeNode<K, V>>,
    s: Shape,
    lo: Option<K::V>,
    hi: Option<K::V>,
    nxt: u64,
)
    requires
        wf_subtree::<K, V>(pages, s, lo, hi, nxt),
        in_shape(s, 0) ==> first_leaf(s) == 0,
    ensures
        forall|i: int| 1 <= i < leaves(s).len() ==> #[trigger] leaves(s)[i] != 0,
    decreases s,
{
    if let Shape::Node(id, cs) = s {
        let ks = node_seps(pages, id);
        lemma_node_parts::<K, V>(pages, id, cs, lo, hi, nxt);
        let lo0 = child_lo::<K>(lo, ks, 0);
        let hi0 = child_hi::<K>(hi, ks, 0);
        let nxt0 = chain_next(cs, 0, nxt);
        lemma_child_wf::<K, V>(pages, id, cs, lo, hi, nxt, 0);
        lemma_tree_chain::<K, V>(pages, cs[0], lo0, hi0, nxt0);
        lemma_leaves_in(cs[0]);
        assert(in_shape(cs[0], first_leaf(cs[0]))) by {
            assert(leaves(cs[0])[0] == first_leaf(cs[0]));
        }
        if in_shape(cs[0], 0) {
            crate::shape::lemma_in_child(id, cs, 0, 0);
        }
        lemma_zero_first::<K, V>(pages, cs[0], lo0, hi0, nxt0);
        let rest = cs.subrange(1, cs.len() as int);
        lemma_leaves_around(cs, 0);
        assert(cs.subrange(0, 0) =~= Seq::<Shape>::empty());
        assert(leaves_seq(Seq::<Shape>::empty()) == Seq::<u64>::empty());
        let a = leaves(cs[0]);
        let b = leaves_seq(rest);
        assert(leaves(s) =~= a + b);
        lemma_leaves_seq_in(rest);
        assert forall|i: int| 1 <= i < leaves(s).len() implies #[trigger] leaves(s)[i] != 0 by {
            if i < a.len() {
                assert(leaves(s)[i] == a[i]);
            } else {
                let x = b[i - a.len()];
                assert(leaves(s)[i] == x);
                let k = choose|k: int| 0 <= k < rest.len() && in_shape(rest[k], x);
                assert(rest[k] == cs[k + 1]);
                if x == 0 {
                    crate::shape::lemma_in_child(id, cs, k + 1, 0);
                    assert(in_shape(cs[0], 0));
                    assert(!(in_shape(cs[0], 0) && in_shape(cs[k + 1], 0)));
                }
            }
        }
    }
}

} // verus!
