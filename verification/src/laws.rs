//! Properties of the tree's operations taken together, stated over the maps
//! and entry lists that their contracts speak of.
use crate::cursor::{before_start, within_end, Bound};
use crate::key::{group_key_order, lemma_lt_asymmetric, lt, BTreeKey};
use crate::node::sorted;
use crate::scan::lists;
use vstd::prelude::*;

verus! {

broadcast use group_key_order;

/// A lookup right after an insertion of a key gives the inserted value.
pub proof fn law_get_after_insert<K: BTreeKey, V>(m: Map<K::V, V>, k: K::V, v: V)
    ensures
        m.insert(k, v).contains_key(k),
        m.insert(k, v)[k] == v,
{
}

/// An insertion leaves the other keys as they were.
pub proof fn law_insert_keeps_others<K: BTreeKey, V>(m: Map<K::V, V>, k: K::V, v: V, other: K::V)
    requires
        other != k,
    ensures
        m.insert(k, v).contains_key(other) == m.contains_key(other),
        m.contains_key(other) ==> m.insert(k, v)[other] == m[other],
{
}

/// Inserting a key twice keeps the second value only.
pub proof fn law_overwrite<K: BTreeKey, V>(m: Map<K::V, V>, k: K::V, v1: V, v2: V)
    ensures
        m.insert(k, v1).insert(k, v2) == m.insert(k, v2),
{
    assert(m.insert(k, v1).insert(k, v2) =~= m.insert(k, v2));
}

/// Deleting a key that was just inserted, and was not there before, gives
/// back the map from before the insertion.
pub proof fn law_delete_undoes_insert<K: BTreeKey, V>(m: Map<K::V, V>, k: K::V, v: V)
    requires
        !m.contains_key(k),
    ensures
        m.insert(k, v).contains_key(k),
        m.insert(k, v).remove(k) == m,
{
    assert(m.insert(k, v).remove(k) =~= m);
}

/// After a deletion the key is gone.
pub proof fn law_get_after_delete<K: BTreeKey, V>(m: Map<K::V, V>, k: K::V)
    ensures
        !m.remove(k).contains_key(k),
{
}

/// The entries of a map between two bounds can be listed in increasing key
/// order in one way only: a range scan's result is determined by the map.
pub proof fn law_lists_unique<K: BTreeKey, V>(
    m: Map<K::V, V>,
    ks1: Seq<K::V>,
    vs1: Seq<V>,
    ks2: Seq<K::V>,
    vs2: Seq<V>,
    start: Bound<K>,
    end: Bound<K>,
)
    requires
        lists::<K, V>(m, ks1, vs1, start, end),
        lists::<K, V>(m, ks2, vs2, start, end),
    ensures
        ks1 == ks2,
        vs1 == vs2,
    decreases ks1.len(),
{
    if ks1.len() == 0 {
        if ks2.len() > 0 {
            assert(m.contains_key(ks2[0]));
        }
        assert(ks1 =~= ks2);
        assert(vs1 =~= vs2);
    } else {
        assert(m.contains_key(ks1[0]));
        let j = choose|j: int| 0 <= j < ks2.len() && #[trigger] ks2[j] == ks1[0];
        assert(m.contains_key(ks2[0]));
        let i = choose|i: int| 0 <= i < ks1.len() && #[trigger] ks1[i] == ks2[0];
        if i > 0 && j > 0 {
            assert(lt::<K>(ks1[0], ks1[i]));
            assert(lt::<K>(ks2[0], ks2[j]));
            lemma_lt_asymmetric::<K>(ks1[0], ks2[0]);
        }
        if i > 0 && j == 0 {
            assert(lt::<K>(ks1[0], ks1[i]));
        }
        if j > 0 && i == 0 {
            assert(lt::<K>(ks2[0], ks2[j]));
        }
        let k0 = ks1[0];
        assert(ks2[0] == k0);
        let m2 = m.remove(k0);
        let d1 = ks1.drop_first();
        let d2 = ks2.drop_first();
        lemma_lists_drop_first::<K, V>(m, ks1, vs1, start, end);
        lemma_lists_drop_first::<K, V>(m, ks2, vs2, start, end);
        law_lists_unique::<K, V>(m2, d1, vs1.drop_first(), d2, vs2.drop_first(), start, end);
        assert(ks1 =~= seq![k0] + d1);
        assert(ks2 =~= seq![k0] + d2);
        assert(vs1[0] == m[k0] && vs2[0] == m[k0]);
        assert(vs1 =~= seq![vs1[0]] + vs1.drop_first());
        assert(vs2 =~= seq![vs2[0]] + vs2.drop_first());
    }
}

/// The list `ks` with values `vs` holds the entry of key `k` with value `v`.
pub open spec fn holds_entry<K: BTreeKey, V>(ks: Seq<K::V>, vs: Seq<V>, k: K::V, v: V) -> bool {
    exists|j: int| 0 <= j < ks.len() && #[trigger] ks[j] == k && vs[j] == v
}

/// A range scan lists exactly the entries of a full scan that lie between
/// its bounds, with the same values.
pub proof fn law_range_within_scan<K: BTreeKey, V>(
    m: Map<K::V, V>,
    ks: Seq<K::V>,
    vs: Seq<V>,
    rk: Seq<K::V>,
    rv: Seq<V>,
    start: Bound<K>,
    end: Bound<K>,
)
    requires
        lists::<K, V>(m, ks, vs, Bound::Unbounded, Bound::Unbounded),
        lists::<K, V>(m, rk, rv, start, end),
    ensures
        forall|i: int| 0 <= i < rk.len() ==> holds_entry::<K, V>(ks, vs, #[trigger] rk[i], rv[i]),
        forall|j: int|
            0 <= j < ks.len() && !before_start::<K>(start, #[trigger] ks[j]) && within_end::<K>(end, ks[j])
                ==> holds_entry::<K, V>(rk, rv, ks[j], vs[j]),
{
    assert forall|i: int| 0 <= i < rk.len() implies holds_entry::<K, V>(ks, vs, #[trigger] rk[i], rv[i]) by {
        assert(m.contains_key(rk[i]));
        let j = choose|j: int| 0 <= j < ks.len() && #[trigger] ks[j] == rk[i];
        assert(vs[j] == m[ks[j]]);
    }
    assert forall|j: int| 0 <= j < ks.len() && !before_start::<K>(start, #[trigger] ks[j]) && within_end::<K>(end, ks[j])
        implies holds_entry::<K, V>(rk, rv, ks[j], vs[j]) by {
        assert(m.contains_key(ks[j]));
        let i = choose|i: int| 0 <= i < rk.len() && #[trigger] rk[i] == ks[j];
        assert(rv[i] == m[rk[i]]);
    }
}

/// The rest of an entry list after its first entry lists the map without
/// that entry's key.
proof fn lemma_lists_drop_first<K: BTreeKey, V>(
    m: Map<K::V, V>,
    ks: Seq<K::V>,
    vs: Seq<V>,
    start: Bound<K>,
    end: Bound<K>,
)
    requires
        lists::<K, V>(m, ks, vs, start, end),
        ks.len() > 0,
    ensures
        lists::<K, V>(m.remove(ks[0]), ks.drop_first(), vs.drop_first(), start, end),
{
    let k0 = ks[0];
    let m2 = m.remove(k0);
    let d = ks.drop_first();
    let dv = vs.drop_first();
    assert(sorted::<K>(d)) by {
        assert forall|a: int, b: int| 0 <= a < b < d.len() implies lt::<K>(d[a], d[b]) by {
            assert(d[a] == ks[a + 1] && d[b] == ks[b + 1]);
        }
    }
    assert forall|i: int| 0 <= i < d.len() implies m2.contains_key(#[trigger] d[i]) && m2[d[i]] == dv[i]
        && !before_start::<K>(start, d[i]) && within_end::<K>(end, d[i]) by {
        assert(d[i] == ks[i + 1] && dv[i] == vs[i + 1]);
        assert(lt::<K>(ks[0], ks[i + 1]));
    }
    assert forall|k: K::V| m2.contains_key(k) && !before_start::<K>(start, k) && within_end::<K>(end, k) implies exists|i: int|
        0 <= i < d.len() && #[trigger] d[i] == k by {
        let i = choose|i: int| 0 <= i < ks.len() && #[trigger] ks[i] == k;
        assert(i > 0);
        assert(d[i - 1] == k);
    }
}

} // verus!
