//! Facts for range scans: the walk down to the leaf where a range starts,
//! and what a cursor placed there reads.
use crate::cursor::{before_start, bounded_len, lemma_bounded_len, lemma_bounded_prefix, within_end, Bound};
use crate::key::{group_key_order, le, lemma_lt_asymmetric, lt, BTreeKey};
use crate::node::{key_views, sorted, BTreeNode};
use crate::order::{
    leaves, leaves_seq, lemma_node_around, lemma_run_concat, lemma_run_single, lemma_tree_entries,
    run_keys, run_vals, tree_entries_ok,
};
use crate::parts::{lemma_seq_lookup, lemma_sorted_subrange};
use crate::shape::{lemma_route, lookup, node_seps, route, seq_lookup, wf_subtree, Shape};
use vstd::prelude::*;

verus! {

broadcast use group_key_order;

/// The key of a bound that has one.
pub open spec fn start_key<K: BTreeKey>(start: Bound<K>) -> K::V {
    match start {
        Bound::Included(x) => x@,
        Bound::Excluded(x) => x@,
        Bound::Unbounded => arbitrary(),
    }
}

/// The keys `ks` with the values `vs` are, in increasing order, exactly the
/// entries of the map `m` whose keys lie between `start` and `end`.
pub open spec fn lists<K: BTreeKey, V>(
    m: Map<K::V, V>,
    ks: Seq<K::V>,
    vs: Seq<V>,
    start: Bound<K>,
    end: Bound<K>,
) -> bool {
    &&& ks.len() == vs.len()
    &&& sorted::<K>(ks)
    &&& forall|i: int|
        0 <= i < ks.len() ==> m.contains_key(#[trigger] ks[i]) && m[ks[i]] == vs[i] && !before_start::<K>(start, ks[i])
            && within_end::<K>(end, ks[i])
    &&& forall|k: K::V|
        #[trigger] m.contains_key(k) && !before_start::<K>(start, k) && within_end::<K>(end, k) ==> exists|i: int|
            0 <= i < ks.len() && #[trigger] ks[i] == k
}

/// The key views of a sequence of entries.
pub open spec fn pair_keys<K: BTreeKey, V>(ps: Seq<(K, V)>) -> Seq<K::V> {
    ps.map_values(|p: (K, V)| p.0@)
}

/// The values of a sequence of entries.
pub open spec fn pair_vals<K, V>(ps: Seq<(K, V)>) -> Seq<V> {
    ps.map_values(|p: (K, V)| p.1)
}

/// One step of the walk down to the leaf where a range starts: going into
/// child `ci` of a node (the first child for an open start, else the child
/// the start key is routed to), the leaves before the one reached hold only
/// keys before the range, those after it none.
#[verifier::rlimit(60)]
pub proof fn lemma_descend_step<K: BTreeKey, V>(
    pages: Seq<BTreeNode<K, V>>,
    id: u64,
    cs: Seq<Shape>,
    lo: Option<K::V>,
    hi: Option<K::V>,
    nxt: u64,
    ci: int,
    start: Bound<K>,
    jc: int,
)
    requires
        wf_subtree::<K, V>(pages, Shape::Node(id, cs), lo, hi, nxt),
        0 <= ci < cs.len(),
        start is Unbounded ==> ci == 0,
        !(start is Unbounded) ==> ci == route::<K>(node_seps(pages, id), start_key::<K>(start)),
        0 <= jc < leaves(cs[ci]).len(),
        forall|i: int|
            0 <= i < run_keys::<K, V>(pages, leaves(cs[ci]).subrange(0, jc)).len() ==> before_start::<K>(
                start,
                #[trigger] run_keys::<K, V>(pages, leaves(cs[ci]).subrange(0, jc))[i],
            ),
        forall|i: int|
            0 <= i < run_keys::<K, V>(pages, leaves(cs[ci]).subrange(jc + 1, leaves(cs[ci]).len() as int)).len()
                ==> !before_start::<K>(
                start,
                #[trigger] run_keys::<K, V>(pages, leaves(cs[ci]).subrange(jc + 1, leaves(cs[ci]).len() as int))[i],
            ),
    ensures
        ({
            let ls = leaves(Shape::Node(id, cs));
            let j = leaves_seq(cs.subrange(0, ci)).len() + jc;
            &&& 0 <= j < ls.len()
            &&& ls[j] == leaves(cs[ci])[jc]
            &&& forall|i: int|
                0 <= i < run_keys::<K, V>(pages, ls.subrange(0, j)).len() ==> before_start::<K>(
                    start,
                    #[trigger] run_keys::<K, V>(pages, ls.subrange(0, j))[i],
                )
            &&& forall|i: int|
                0 <= i < run_keys::<K, V>(pages, ls.subrange(j + 1, ls.len() as int)).len() ==> !before_start::<K>(
                    start,
                    #[trigger] run_keys::<K, V>(pages, ls.subrange(j + 1, ls.len() as int))[i],
                )
        }),
{
    let ks = node_seps(pages, id);
    let pre = leaves_seq(cs.subrange(0, ci));
    let suf = leaves_seq(cs.subrange(ci + 1, cs.len() as int));
    let lc = leaves(cs[ci]);
    let ls = leaves(Shape::Node(id, cs));
    let j = pre.len() + jc;
    lemma_node_around::<K, V>(pages, id, cs, lo, hi, nxt, ci);
    let x = start_key::<K>(start);
    crate::parts::lemma_node_parts::<K, V>(pages, id, cs, lo, hi, nxt);
    if !(start is Unbounded) {
        lemma_route::<K>(ks, x);
    }
    let a = lc.subrange(0, jc);
    let b = lc.subrange(jc + 1, lc.len() as int);
    assert(ls.subrange(0, j) =~= pre + a);
    assert(ls.subrange(j + 1, ls.len() as int) =~= b + suf);
    assert(ls[j] == lc[jc]);
    lemma_run_concat::<K, V>(pages, pre, a);
    lemma_run_concat::<K, V>(pages, b, suf);
    let rp = run_keys::<K, V>(pages, pre);
    let ra = run_keys::<K, V>(pages, a);
    let rb = run_keys::<K, V>(pages, b);
    let rs = run_keys::<K, V>(pages, suf);
    assert forall|i: int| 0 <= i < (rp + ra).len() implies before_start::<K>(start, #[trigger] (rp + ra)[i]) by {
        if i < rp.len() {
            assert((rp + ra)[i] == rp[i]);
            assert(lt::<K>(rp[i], ks[ci - 1]));
            if ci == 0 {
                assert(false);
            }
        } else {
            assert((rp + ra)[i] == ra[i - rp.len()]);
        }
    }
    assert forall|i: int| 0 <= i < (rb + rs).len() implies !before_start::<K>(start, #[trigger] (rb + rs)[i]) by {
        if i < rb.len() {
            assert((rb + rs)[i] == rb[i - 0]);
        } else {
            let y = rs[i - rb.len()];
            assert((rb + rs)[i] == y);
            assert(le::<K>(ks[ci], y));
            if !(start is Unbounded) {
                assert(lt::<K>(x, ks[ci]));
                assert(lt::<K>(x, y));
                lemma_lt_asymmetric::<K>(x, y);
            }
        }
    }
}

/// A cursor placed at position `pos` of leaf `j` of a well-formed tree, the
/// entries before it being before the range and those after it not, reads,
/// up to the end of the range, exactly the entries of the range in order.
#[verifier::rlimit(80)]
pub proof fn lemma_scan_items<K: BTreeKey, V>(
    pages: Seq<BTreeNode<K, V>>,
    s: Shape,
    lo: Option<K::V>,
    hi: Option<K::V>,
    nxt: u64,
    j: int,
    pos: int,
    start: Bound<K>,
    end: Bound<K>,
)
    requires
        wf_subtree::<K, V>(pages, s, lo, hi, nxt),
        0 <= j < leaves(s).len(),
        ({
            let ls = leaves(s);
            let kl = key_views(pages[ls[j] as int]->Leaf_0.keys@);
            let pre = run_keys::<K, V>(pages, ls.subrange(0, j));
            let suf = run_keys::<K, V>(pages, ls.subrange(j + 1, ls.len() as int));
            &&& 0 <= pos <= kl.len()
            &&& forall|i: int| 0 <= i < pos ==> before_start::<K>(start, #[trigger] kl[i])
            &&& forall|i: int| pos <= i < kl.len() ==> !before_start::<K>(start, #[trigger] kl[i])
            &&& forall|i: int| 0 <= i < pre.len() ==> before_start::<K>(start, #[trigger] pre[i])
            &&& forall|i: int| 0 <= i < suf.len() ==> !before_start::<K>(start, #[trigger] suf[i])
        }),
    ensures
        ({
            let ls = leaves(s);
            let l = pages[ls[j] as int]->Leaf_0;
            let pk = key_views(l.keys@).subrange(pos, l.keys@.len() as int) + run_keys::<K, V>(pages, ls.subrange(j + 1, ls.len() as int));
            let pv = l.values@.subrange(pos, l.values@.len() as int) + run_vals::<K, V>(pages, ls.subrange(j + 1, ls.len() as int));
            let n = bounded_len::<K>(pk, end) as int;
            &&& n <= pk.len()
            &&& pk.len() == pv.len()
            &&& sorted::<K>(pk.subrange(0, n))
            &&& forall|i: int|
                0 <= i < n ==> lookup::<K, V>(pages, s, #[trigger] pk[i]) == Some(pv[i]) && !before_start::<K>(start, pk[i])
                    && within_end::<K>(end, pk[i])
            &&& forall|k: K::V|
                #[trigger] lookup::<K, V>(pages, s, k) is Some && !before_start::<K>(start, k) && within_end::<K>(end, k)
                    ==> exists|i: int| 0 <= i < n && pk[i] == k
        }),
{
    let ls = leaves(s);
    let id = ls[j];
    let l = pages[id as int]->Leaf_0;
    let kl = key_views(l.keys@);
    let vl = l.values@;
    let a = ls.subrange(0, j);
    let b = ls.subrange(j + 1, ls.len() as int);
    lemma_tree_entries::<K, V>(pages, s, lo, hi, nxt);
    let ka = run_keys::<K, V>(pages, ls);
    let va = run_vals::<K, V>(pages, ls);
    assert(ls =~= a + (seq![id] + b));
    lemma_run_concat::<K, V>(pages, a, seq![id] + b);
    lemma_run_concat::<K, V>(pages, seq![id], b);
    lemma_run_single::<K, V>(pages, id);
    let pre = run_keys::<K, V>(pages, a);
    let prv = run_vals::<K, V>(pages, a);
    let suf = run_keys::<K, V>(pages, b);
    let sufv = run_vals::<K, V>(pages, b);
    assert(ka == pre + (kl + suf));
    assert(va == prv + (vl + sufv));
    assert(ka.len() == va.len());
    let q0 = pre.len() + pos;
    let pk = kl.subrange(pos, kl.len() as int) + suf;
    assert(key_views(l.keys@).subrange(pos, l.keys@.len() as int) == kl.subrange(pos, kl.len() as int));
    // The keys of the leaf and the values pair up, since the whole run does.
    crate::order::lemma_tree_chain::<K, V>(pages, s, lo, hi, nxt);
    assert(prv.len() == pre.len()) by {
        assert forall|i: int| 0 <= i < a.len() implies pages[#[trigger] a[i] as int]->Leaf_0.keys@.len()
            == pages[a[i] as int]->Leaf_0.values@.len() by {
            assert(a[i] == ls[i]);
        }
        crate::order::lemma_run_lens::<K, V>(pages, a);
    }
    assert(sufv.len() == suf.len()) by {
        assert forall|i: int| 0 <= i < b.len() implies pages[#[trigger] b[i] as int]->Leaf_0.keys@.len()
            == pages[b[i] as int]->Leaf_0.values@.len() by {
            assert(b[i] == ls[j + 1 + i]);
        }
        crate::order::lemma_run_lens::<K, V>(pages, b);
    }
    assert(ls[j] == id);
    assert(vl.len() == kl.len());
    let pv = vl.subrange(pos, vl.len() as int) + sufv;
    assert(pk =~= ka.subrange(q0, ka.len() as int));
    assert(pv =~= va.subrange(q0, va.len() as int));
    lemma_sorted_subrange::<K>(ka, q0, ka.len() as int);
    lemma_bounded_prefix::<K>(pk, end);
    let n = bounded_len::<K>(pk, end) as int;
    lemma_sorted_subrange::<K>(pk, 0, n);
    // Keys before the cursor are before the range.
    assert forall|q: int| 0 <= q < q0 implies before_start::<K>(start, #[trigger] ka[q]) by {
        if q < pre.len() {
            assert(ka[q] == pre[q]);
        } else {
            assert(ka[q] == kl[q - pre.len()]);
        }
    }
    assert forall|q: int| q0 <= q < ka.len() implies !before_start::<K>(start, #[trigger] ka[q]) by {
        if q < pre.len() + kl.len() {
            assert(ka[q] == kl[q - pre.len()]);
        } else {
            assert(ka[q] == suf[q - pre.len() - kl.len()]);
        }
    }
    assert forall|i: int| 0 <= i < n implies lookup::<K, V>(pages, s, #[trigger] pk[i]) == Some(pv[i]) && !before_start::<K>(start, pk[i])
        && within_end::<K>(end, pk[i]) by {
        assert(pk[i] == ka[q0 + i]);
        assert(pv[i] == va[q0 + i]);
        lemma_seq_lookup::<K, V>(ka, va, pk[i]);
    }
    assert forall|k: K::V| #[trigger] lookup::<K, V>(pages, s, k) is Some && !before_start::<K>(start, k) && within_end::<K>(end, k)
        implies exists|i: int| 0 <= i < n && pk[i] == k by {
        lemma_seq_lookup::<K, V>(ka, va, k);
        let q = choose|q: int| 0 <= q < ka.len() && ka[q] == k;
        assert(q >= q0);
        let i = q - q0;
        assert(pk[i] == k);
        lemma_bounded_len::<K>(pk, end, i);
    }
}

} // verus!
