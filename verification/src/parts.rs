//! Facts about the pieces that nodes are cut into and glued from when they
//! split, merge, or pass a key to a sibling: runs of leaf entries, and runs
//! of children with the separators between them.
use crate::key::{group_key_order, le, lemma_lt_asymmetric, lt, BTreeKey};
use crate::node::{key_views, sorted, BTreeNode};
use crate::shape::{
    above, below, chain_next, child_hi, child_lo, children_disjoint, first_leaf, in_range, in_shape,
    internal_ok, lemma_child_wf, lemma_frame, lemma_in_child, lemma_in_shape_bounded, lemma_route,
    lemma_route_unique, lookup, node_seps, pairwise_disjoint, route, seq_lookup, shape_id,
    strictly_in, wf_subtree, Shape,
};
use vstd::prelude::*;

verus! {

// ---------------------------------------------------------------------------
// Runs of leaf entries.

/// Strictly increasing keys that pair with the values and lie in the range.
pub open spec fn entries_ok<K: BTreeKey, V>(ks: Seq<K::V>, vs: Seq<V>, lo: Option<K::V>, hi: Option<K::V>) -> bool {
    &&& ks.len() == vs.len()
    &&& sorted::<K>(ks)
    &&& forall|i: int| 0 <= i < ks.len() ==> in_range::<K>(lo, hi, #[trigger] ks[i])
}

/// In sorted keys, a key maps to the value at its position, and a key that
/// does not occur maps to nothing.
#[verifier::rlimit(50)]
pub proof fn lemma_seq_lookup<K: BTreeKey, V>(ks: Seq<K::V>, vs: Seq<V>, k: K::V)
    requires
        sorted::<K>(ks),
        ks.len() == vs.len(),
    ensures
        forall|i: int| 0 <= i < ks.len() && ks[i] == k ==> seq_lookup::<K, V>(ks, vs, k) == Some(vs[i]),
        (forall|i: int| 0 <= i < ks.len() ==> ks[i] != k) ==> seq_lookup::<K, V>(ks, vs, k) is None,
{
    broadcast use group_key_order;

    lemma_route::<K>(ks, k);
    assert forall|i: int| 0 <= i < ks.len() && ks[i] == k implies seq_lookup::<K, V>(ks, vs, k) == Some(
        vs[i],
    ) by {
        if i + 1 < ks.len() {
            assert(lt::<K>(ks[i], ks[i + 1]));
        }
        lemma_route_unique::<K>(ks, k, i + 1);
    }
}

/// Sortedness of a run of keys carries over to any part of it.
#[verifier::rlimit(50)]
pub proof fn lemma_sorted_subrange<K: BTreeKey>(ks: Seq<K::V>, a: int, b: int)
    requires
        sorted::<K>(ks),
        0 <= a <= b <= ks.len(),
    ensures
        sorted::<K>(ks.subrange(a, b)),
{
    let s = ks.subrange(a, b);
    assert forall|i: int, j: int| 0 <= i < j < s.len() implies lt::<K>(s[i], s[j]) by {
        assert(s[i] == ks[a + i] && s[j] == ks[a + j]);
    }
}

/// Inserting a key at its place keeps the keys sorted and maps it to the new
/// value; every other key keeps its value.
#[verifier::rlimit(50)]
pub proof fn lemma_entries_insert<K: BTreeKey, V>(ks: Seq<K::V>, vs: Seq<V>, i: int, key: K::V, v: V)
    requires
        sorted::<K>(ks),
        ks.len() == vs.len(),
        0 <= i <= ks.len(),
        forall|j: int| 0 <= j < i ==> lt::<K>(#[trigger] ks[j], key),
        forall|j: int| i <= j < ks.len() ==> lt::<K>(key, #[trigger] ks[j]),
    ensures
        sorted::<K>(ks.insert(i, key)),
        forall|k: K::V|
            #[trigger] seq_lookup::<K, V>(ks.insert(i, key), vs.insert(i, v), k) == if k == key {
                Some(v)
            } else {
                seq_lookup::<K, V>(ks, vs, k)
            },
{
    broadcast use group_key_order;

    let ks2 = ks.insert(i, key);
    let vs2 = vs.insert(i, v);
    assert forall|a: int, b: int| 0 <= a < b < ks2.len() implies lt::<K>(ks2[a], ks2[b]) by {
        if b < i {
        } else if b == i {
        } else if a < i {
            assert(ks2[b] == ks[b - 1]);
        } else if a == i {
            assert(ks2[b] == ks[b - 1]);
        } else {
            assert(ks2[a] == ks[a - 1] && ks2[b] == ks[b - 1]);
        }
    }
    assert forall|k: K::V| #[trigger] seq_lookup::<K, V>(ks2, vs2, k) == if k == key {
        Some(v)
    } else {
        seq_lookup::<K, V>(ks, vs, k)
    } by {
        lemma_seq_lookup::<K, V>(ks, vs, k);
        lemma_seq_lookup::<K, V>(ks2, vs2, k);
        if k == key {
            assert(ks2[i] == key);
        } else if exists|j: int| 0 <= j < ks.len() && ks[j] == k {
            let j = choose|j: int| 0 <= j < ks.len() && ks[j] == k;
            if j < i {
                assert(ks2[j] == ks[j] && vs2[j] == vs[j]);
            } else {
                assert(ks2[j + 1] == ks[j] && vs2[j + 1] == vs[j]);
            }
        } else {
            assert forall|j: int| 0 <= j < ks2.len() implies ks2[j] != k by {
                if j < i {
                    assert(ks2[j] == ks[j]);
                } else if j > i {
                    assert(ks2[j] == ks[j - 1]);
                }
            }
        }
    }
}

/// Replacing the value at the position of `key` maps it to the new value;
/// every other key keeps its value.
#[verifier::rlimit(50)]
pub proof fn lemma_entries_update<K: BTreeKey, V>(ks: Seq<K::V>, vs: Seq<V>, i: int, v: V)
    requires
        sorted::<K>(ks),
        ks.len() == vs.len(),
        0 <= i < ks.len(),
    ensures
        forall|k: K::V|
            #[trigger] seq_lookup::<K, V>(ks, vs.update(i, v), k) == if k == ks[i] {
                Some(v)
            } else {
                seq_lookup::<K, V>(ks, vs, k)
            },
{
    broadcast use group_key_order;

    let vs2 = vs.update(i, v);
    assert forall|k: K::V| #[trigger] seq_lookup::<K, V>(ks, vs2, k) == if k == ks[i] {
        Some(v)
    } else {
        seq_lookup::<K, V>(ks, vs, k)
    } by {
        lemma_seq_lookup::<K, V>(ks, vs, k);
        lemma_seq_lookup::<K, V>(ks, vs2, k);
        if exists|j: int| 0 <= j < ks.len() && ks[j] == k {
            let j = choose|j: int| 0 <= j < ks.len() && ks[j] == k;
            if j != i {
                assert(vs2[j] == vs[j]);
            }
        }
    }
}

/// Removing the entry at position `i` keeps the keys sorted and unmaps its
/// key; every other key keeps its value.
#[verifier::rlimit(50)]
pub proof fn lemma_entries_remove<K: BTreeKey, V>(ks: Seq<K::V>, vs: Seq<V>, i: int)
    requires
        sorted::<K>(ks),
        ks.len() == vs.len(),
        0 <= i < ks.len(),
    ensures
        sorted::<K>(ks.remove(i)),
        forall|k: K::V|
            #[trigger] seq_lookup::<K, V>(ks.remove(i), vs.remove(i), k) == if k == ks[i] {
                None
            } else {
                seq_lookup::<K, V>(ks, vs, k)
            },
{
    broadcast use group_key_order;

    let ks2 = ks.remove(i);
    let vs2 = vs.remove(i);
    assert forall|a: int, b: int| 0 <= a < b < ks2.len() implies lt::<K>(ks2[a], ks2[b]) by {
        if b < i {
        } else if a < i {
            assert(ks2[b] == ks[b + 1]);
        } else {
            assert(ks2[a] == ks[a + 1] && ks2[b] == ks[b + 1]);
        }
    }
    assert forall|k: K::V| #[trigger] seq_lookup::<K, V>(ks2, vs2, k) == if k == ks[i] {
        None
    } else {
        seq_lookup::<K, V>(ks, vs, k)
    } by {
        lemma_seq_lookup::<K, V>(ks, vs, k);
        lemma_seq_lookup::<K, V>(ks2, vs2, k);
        if k == ks[i] {
            assert forall|j: int| 0 <= j < ks2.len() implies ks2[j] != k by {
                if j < i {
                    assert(ks2[j] == ks[j]);
                    assert(lt::<K>(ks[j], ks[i]));
                } else {
                    assert(ks2[j] == ks[j + 1]);
                    assert(lt::<K>(ks[i], ks[j + 1]));
                }
            }
        } else if exists|j: int| 0 <= j < ks.len() && ks[j] == k {
            let j = choose|j: int| 0 <= j < ks.len() && ks[j] == k;
            if j < i {
                assert(ks2[j] == ks[j] && vs2[j] == vs[j]);
            } else {
                assert(ks2[j - 1] == ks[j] && vs2[j - 1] == vs[j]);
            }
        } else {
            assert forall|j: int| 0 <= j < ks2.len() implies ks2[j] != k by {
                if j < i {
                    assert(ks2[j] == ks[j]);
                } else {
                    assert(ks2[j] == ks[j + 1]);
                }
            }
        }
    }
}

/// Entries cut at position `x`: keys below `ks[x]` are found in the front
/// part, the others in the back part.
#[verifier::rlimit(50)]
pub proof fn lemma_entries_split<K: BTreeKey, V>(ks: Seq<K::V>, vs: Seq<V>, x: int)
    requires
        sorted::<K>(ks),
        ks.len() == vs.len(),
        0 <= x < ks.len(),
    ensures
        sorted::<K>(ks.subrange(0, x)),
        sorted::<K>(ks.subrange(x, ks.len() as int)),
        forall|k: K::V|
            lt::<K>(k, ks[x]) ==> #[trigger] seq_lookup::<K, V>(ks, vs, k) == seq_lookup::<K, V>(
                ks.subrange(0, x),
                vs.subrange(0, x),
                k,
            ),
        forall|k: K::V|
            !lt::<K>(k, ks[x]) ==> #[trigger] seq_lookup::<K, V>(ks, vs, k) == seq_lookup::<K, V>(
                ks.subrange(x, ks.len() as int),
                vs.subrange(x, vs.len() as int),
                k,
            ),
{
    broadcast use group_key_order;

    let n = ks.len() as int;
    let k1 = ks.subrange(0, x);
    let v1 = vs.subrange(0, x);
    let k2 = ks.subrange(x, n);
    let v2 = vs.subrange(x, n);
    lemma_sorted_subrange::<K>(ks, 0, x);
    lemma_sorted_subrange::<K>(ks, x, n);
    assert forall|k: K::V| #[trigger] seq_lookup::<K, V>(ks, vs, k) == if lt::<K>(k, ks[x]) {
        seq_lookup::<K, V>(k1, v1, k)
    } else {
        seq_lookup::<K, V>(k2, v2, k)
    } by {
        lemma_seq_lookup::<K, V>(ks, vs, k);
        lemma_seq_lookup::<K, V>(k1, v1, k);
        lemma_seq_lookup::<K, V>(k2, v2, k);
        if exists|j: int| 0 <= j < n && ks[j] == k {
            let j = choose|j: int| 0 <= j < n && ks[j] == k;
            if j < x {
                assert(k1[j] == ks[j] && v1[j] == vs[j]);
                assert(lt::<K>(ks[j], ks[x]));
            } else {
                assert(k2[j - x] == ks[j] && v2[j - x] == vs[j]);
                if j > x {
                    assert(lt::<K>(ks[x], ks[j]));
                    lemma_lt_asymmetric::<K>(ks[x], ks[j]);
                } else {
                    assert(!lt::<K>(k, k));
                }
            }
        } else {
            assert forall|j: int| 0 <= j < k1.len() implies k1[j] != k by {
                assert(k1[j] == ks[j]);
            }
            assert forall|j: int| 0 <= j < k2.len() implies k2[j] != k by {
                assert(k2[j] == ks[j + x]);
            }
        }
    }
}

/// Two runs of entries, every key of the first below every key of the
/// second, glued together: keys from the first key of the second run up are
/// found in the second run, the others in the first.
#[verifier::rlimit(50)]
pub proof fn lemma_entries_concat<K: BTreeKey, V>(k1: Seq<K::V>, v1: Seq<V>, k2: Seq<K::V>, v2: Seq<V>)
    requires
        sorted::<K>(k1),
        sorted::<K>(k2),
        k1.len() == v1.len(),
        k2.len() == v2.len(),
        forall|i: int, j: int| 0 <= i < k1.len() && 0 <= j < k2.len() ==> lt::<K>(#[trigger] k1[i], #[trigger] k2[j]),
    ensures
        sorted::<K>(k1 + k2),
        forall|k: K::V|
            #[trigger] seq_lookup::<K, V>(k1 + k2, v1 + v2, k) == if k2.len() > 0 && le::<K>(k2[0], k) {
                seq_lookup::<K, V>(k2, v2, k)
            } else {
                seq_lookup::<K, V>(k1, v1, k)
            },
{
    broadcast use group_key_order;

    let ks = k1 + k2;
    let vs = v1 + v2;
    let n1 = k1.len() as int;
    assert forall|a: int, b: int| 0 <= a < b < ks.len() implies lt::<K>(ks[a], ks[b]) by {
        if b < n1 {
            assert(ks[a] == k1[a] && ks[b] == k1[b]);
        } else if a < n1 {
            assert(ks[a] == k1[a] && ks[b] == k2[b - n1]);
        } else {
            assert(ks[a] == k2[a - n1] && ks[b] == k2[b - n1]);
        }
    }
    assert forall|k: K::V| #[trigger] seq_lookup::<K, V>(ks, vs, k) == if k2.len() > 0 && le::<K>(k2[0], k) {
        seq_lookup::<K, V>(k2, v2, k)
    } else {
        seq_lookup::<K, V>(k1, v1, k)
    } by {
        lemma_seq_lookup::<K, V>(ks, vs, k);
        lemma_seq_lookup::<K, V>(k1, v1, k);
        lemma_seq_lookup::<K, V>(k2, v2, k);
        if exists|j: int| 0 <= j < ks.len() && ks[j] == k {
            let j = choose|j: int| 0 <= j < ks.len() && ks[j] == k;
            if j < n1 {
                assert(ks[j] == k1[j] && vs[j] == v1[j]);
                if k2.len() > 0 {
                    assert(lt::<K>(k1[j], k2[0]));
                    lemma_lt_asymmetric::<K>(k1[j], k2[0]);
                }
            } else {
                assert(ks[j] == k2[j - n1] && vs[j] == v2[j - n1]);
                if j - n1 > 0 {
                    assert(lt::<K>(k2[0], k2[j - n1]));
                }
            }
        } else {
            assert forall|j: int| 0 <= j < k1.len() implies k1[j] != k by {
                assert(ks[j] == k1[j]);
            }
            assert forall|j: int| 0 <= j < k2.len() implies k2[j] != k by {
                assert(ks[j + n1] == k2[j]);
            }
        }
    }
}

// ---------------------------------------------------------------------------
// Runs of children.

/// A run of children `cs` with the separators `ks` between them forms the
/// body of a well-formed node with range `lo..hi` whose last leaf links to
/// `nxt`.
pub open spec fn parts_wf<K: BTreeKey, V>(
    pages: Seq<BTreeNode<K, V>>,
    cs: Seq<Shape>,
    ks: Seq<K::V>,
    lo: Option<K::V>,
    hi: Option<K::V>,
    nxt: u64,
) -> bool {
    &&& cs.len() == ks.len() + 1
    &&& sorted::<K>(ks)
    &&& forall|i: int| 0 <= i < ks.len() ==> strictly_in::<K>(lo, hi, #[trigger] ks[i])
    &&& forall|i: int|
        #![trigger cs[i]]
        0 <= i < cs.len() ==> wf_subtree::<K, V>(
            pages,
            cs[i],
            child_lo::<K>(lo, ks, i),
            child_hi::<K>(hi, ks, i),
            chain_next(cs, i, nxt),
        )
    &&& pairwise_disjoint(cs)
}

/// What a run of children maps `k` to: the child the separators route `k` to.
pub open spec fn parts_lookup<K: BTreeKey, V>(
    pages: Seq<BTreeNode<K, V>>,
    cs: Seq<Shape>,
    ks: Seq<K::V>,
    k: K::V,
) -> Option<V> {
    lookup::<K, V>(pages, cs[route::<K>(ks, k)], k)
}

/// A well-formed internal node is a well-formed run of children.
#[verifier::rlimit(50)]
pub proof fn lemma_node_parts<K: BTreeKey, V>(
    pages: Seq<BTreeNode<K, V>>,
    id: u64,
    cs: Seq<Shape>,
    lo: Option<K::V>,
    hi: Option<K::V>,
    nxt: u64,
)
    requires
        wf_subtree::<K, V>(pages, Shape::Node(id, cs), lo, hi, nxt),
    ensures
        pages[id as int] is Internal,
        id < pages.len(),
        parts_wf::<K, V>(pages, cs, node_seps(pages, id), lo, hi, nxt),
        forall|i: int| 0 <= i < cs.len() ==> !in_shape(#[trigger] cs[i], id),
        forall|i: int| 0 <= i < cs.len() ==> pages[id as int]->Internal_0.children@[i] == shape_id(#[trigger] cs[i]),
        pages[id as int]->Internal_0.children@.len() == cs.len(),
        forall|k: K::V| #[trigger] lookup::<K, V>(pages, Shape::Node(id, cs), k) == parts_lookup::<K, V>(pages, cs, node_seps(pages, id), k),
        first_leaf(Shape::Node(id, cs)) == first_leaf(cs[0]),
{
    reveal(wf_subtree);
    reveal(internal_ok);
    reveal(children_disjoint);
    let ks = node_seps(pages, id);
    assert forall|k: K::V| #[trigger] lookup::<K, V>(pages, Shape::Node(id, cs), k) == parts_lookup::<K, V>(pages, cs, ks, k) by {
        lemma_route::<K>(ks, k);
    }
}

/// A page holding an internal node over a well-formed run of children, none
/// of which holds that page, is a well-formed node.
#[verifier::rlimit(50)]
pub proof fn lemma_node_from_parts<K: BTreeKey, V>(
    pages: Seq<BTreeNode<K, V>>,
    id: u64,
    cs: Seq<Shape>,
    lo: Option<K::V>,
    hi: Option<K::V>,
    nxt: u64,
)
    requires
        id < pages.len(),
        pages[id as int] is Internal,
        parts_wf::<K, V>(pages, cs, node_seps(pages, id), lo, hi, nxt),
        forall|i: int| 0 <= i < cs.len() ==> !in_shape(#[trigger] cs[i], id),
        pages[id as int]->Internal_0.children@.len() == cs.len(),
        forall|i: int| 0 <= i < cs.len() ==> pages[id as int]->Internal_0.children@[i] == shape_id(#[trigger] cs[i]),
    ensures
        wf_subtree::<K, V>(pages, Shape::Node(id, cs), lo, hi, nxt),
        forall|k: K::V| #[trigger] lookup::<K, V>(pages, Shape::Node(id, cs), k) == parts_lookup::<K, V>(pages, cs, node_seps(pages, id), k),
        first_leaf(Shape::Node(id, cs)) == first_leaf(cs[0]),
{
    reveal(wf_subtree);
    reveal(internal_ok);
    reveal(children_disjoint);
    let ks = node_seps(pages, id);
    assert forall|k: K::V| #[trigger] lookup::<K, V>(pages, Shape::Node(id, cs), k) == parts_lookup::<K, V>(pages, cs, ks, k) by {
        lemma_route::<K>(ks, k);
    }
}

/// A run of children stays well formed, and maps keys as before, under
/// writes to pages outside its children.
#[verifier::rlimit(50)]
pub proof fn lemma_parts_frame<K: BTreeKey, V>(
    p1: Seq<BTreeNode<K, V>>,
    p2: Seq<BTreeNode<K, V>>,
    cs: Seq<Shape>,
    ks: Seq<K::V>,
    lo: Option<K::V>,
    hi: Option<K::V>,
    nxt: u64,
)
    requires
        parts_wf::<K, V>(p1, cs, ks, lo, hi, nxt),
        p1.len() <= p2.len(),
        forall|i: int, p: u64| 0 <= i < cs.len() && #[trigger] in_shape(cs[i], p) && p < p1.len() ==> p2[p as int] == p1[p as int],
    ensures
        parts_wf::<K, V>(p2, cs, ks, lo, hi, nxt),
        forall|k: K::V| #[trigger] parts_lookup::<K, V>(p2, cs, ks, k) == parts_lookup::<K, V>(p1, cs, ks, k),
        forall|i: int, p: u64| 0 <= i < cs.len() && #[trigger] in_shape(cs[i], p) ==> p < p1.len(),
{
    assert forall|i: int| #![trigger cs[i]] 0 <= i < cs.len() implies wf_subtree::<K, V>(
        p2,
        cs[i],
        child_lo::<K>(lo, ks, i),
        child_hi::<K>(hi, ks, i),
        chain_next(cs, i, nxt),
    ) && (forall|k: K::V| #[trigger] lookup::<K, V>(p2, cs[i], k) == lookup::<K, V>(p1, cs[i], k))
      && (forall|p: u64| #[trigger] in_shape(cs[i], p) ==> p < p1.len()) by {
        lemma_frame::<K, V>(p1, p2, cs[i], child_lo::<K>(lo, ks, i), child_hi::<K>(hi, ks, i), chain_next(cs, i, nxt));
        lemma_in_shape_bounded::<K, V>(p1, cs[i], child_lo::<K>(lo, ks, i), child_hi::<K>(hi, ks, i), chain_next(cs, i, nxt));
    }
    assert forall|k: K::V| #[trigger] parts_lookup::<K, V>(p2, cs, ks, k) == parts_lookup::<K, V>(p1, cs, ks, k) by {
        lemma_route::<K>(ks, k);
    }
}

/// A single well-formed subtree is a run of one child.
#[verifier::rlimit(50)]
pub proof fn lemma_parts_single<K: BTreeKey, V>(
    pages: Seq<BTreeNode<K, V>>,
    c: Shape,
    lo: Option<K::V>,
    hi: Option<K::V>,
    nxt: u64,
)
    requires
        wf_subtree::<K, V>(pages, c, lo, hi, nxt),
    ensures
        parts_wf::<K, V>(pages, seq![c], Seq::<K::V>::empty(), lo, hi, nxt),
        forall|k: K::V| #[trigger] parts_lookup::<K, V>(pages, seq![c], Seq::<K::V>::empty(), k) == lookup::<K, V>(pages, c, k),
{
    let cs = seq![c];
    assert(cs[0] == c);
    assert forall|k: K::V| #[trigger] parts_lookup::<K, V>(pages, cs, Seq::<K::V>::empty(), k) == lookup::<K, V>(pages, c, k) by {
        assert(route::<K>(Seq::<K::V>::empty(), k) == 0);
    }
}

/// The separators strictly between children `x0` and `x1 - 1` lie strictly
/// within the range of that window.
#[verifier::rlimit(50)]
proof fn lemma_window_keys<K: BTreeKey>(ks: Seq<K::V>, lo: Option<K::V>, hi: Option<K::V>, x0: int, x1: int)
    requires
        sorted::<K>(ks),
        forall|i: int| 0 <= i < ks.len() ==> strictly_in::<K>(lo, hi, #[trigger] ks[i]),
        0 <= x0 < x1 <= ks.len() + 1,
    ensures
        sorted::<K>(ks.subrange(x0, x1 - 1)),
        forall|i: int|
            0 <= i < ks.subrange(x0, x1 - 1).len() ==> strictly_in::<K>(
                child_lo::<K>(lo, ks, x0),
                child_hi::<K>(hi, ks, x1 - 1),
                #[trigger] ks.subrange(x0, x1 - 1)[i],
            ),
{
    let ks2 = ks.subrange(x0, x1 - 1);
    lemma_sorted_subrange::<K>(ks, x0, x1 - 1);
    assert forall|i: int| 0 <= i < ks2.len() implies strictly_in::<K>(
        child_lo::<K>(lo, ks, x0),
        child_hi::<K>(hi, ks, x1 - 1),
        #[trigger] ks2[i],
    ) by {
        assert(ks2[i] == ks[x0 + i]);
        assert(strictly_in::<K>(lo, hi, ks[x0 + i]));
        if x0 > 0 {
            assert(lt::<K>(ks[x0 - 1], ks[x0 + i]));
        }
        if x1 - 1 < ks.len() {
            assert(lt::<K>(ks[x0 + i], ks[x1 - 1]));
        }
    }
}

/// The children of a window keep their bounds and links.
#[verifier::rlimit(50)]
proof fn lemma_window_children<K: BTreeKey, V>(
    pages: Seq<BTreeNode<K, V>>,
    cs: Seq<Shape>,
    ks: Seq<K::V>,
    lo: Option<K::V>,
    hi: Option<K::V>,
    nxt: u64,
    x0: int,
    x1: int,
)
    requires
        cs.len() == ks.len() + 1,
        forall|i: int|
            #![trigger cs[i]]
            0 <= i < cs.len() ==> wf_subtree::<K, V>(
                pages,
                cs[i],
                child_lo::<K>(lo, ks, i),
                child_hi::<K>(hi, ks, i),
                chain_next(cs, i, nxt),
            ),
        pairwise_disjoint(cs),
        0 <= x0 < x1 <= cs.len(),
    ensures
        forall|i: int|
            #![trigger cs.subrange(x0, x1)[i]]
            0 <= i < cs.subrange(x0, x1).len() ==> wf_subtree::<K, V>(
                pages,
                cs.subrange(x0, x1)[i],
                child_lo::<K>(child_lo::<K>(lo, ks, x0), ks.subrange(x0, x1 - 1), i),
                child_hi::<K>(child_hi::<K>(hi, ks, x1 - 1), ks.subrange(x0, x1 - 1), i),
                chain_next(cs.subrange(x0, x1), i, chain_next(cs, x1 - 1, nxt)),
            ),
        pairwise_disjoint(cs.subrange(x0, x1)),
{
    let cs2 = cs.subrange(x0, x1);
    let ks2 = ks.subrange(x0, x1 - 1);
    let lo2 = child_lo::<K>(lo, ks, x0);
    let hi2 = child_hi::<K>(hi, ks, x1 - 1);
    let nxt2 = chain_next(cs, x1 - 1, nxt);
    assert forall|i: int| #![trigger cs2[i]] 0 <= i < cs2.len() implies wf_subtree::<K, V>(
        pages,
        cs2[i],
        child_lo::<K>(lo2, ks2, i),
        child_hi::<K>(hi2, ks2, i),
        chain_next(cs2, i, nxt2),
    ) by {
        assert(cs2[i] == cs[x0 + i]);
        if i > 0 {
            assert(ks2[i - 1] == ks[x0 + i - 1]);
        }
        if i < ks2.len() {
            assert(ks2[i] == ks[x0 + i]);
        }
        if i + 1 < cs2.len() {
            assert(cs2[i + 1] == cs[x0 + i + 1]);
        }
        assert(child_lo::<K>(lo2, ks2, i) == child_lo::<K>(lo, ks, x0 + i));
        assert(child_hi::<K>(hi2, ks2, i) == child_hi::<K>(hi, ks, x0 + i));
        assert(chain_next(cs2, i, nxt2) == chain_next(cs, x0 + i, nxt));
    }
    assert forall|i: int, j: int, p: u64| 0 <= i < j < cs2.len() implies !(#[trigger] in_shape(cs2[i], p) && #[trigger] in_shape(cs2[j], p)) by {
        assert(cs2[i] == cs[x0 + i] && cs2[j] == cs[x0 + j]);
        assert(!(in_shape(cs[x0 + i], p) && in_shape(cs[x0 + j], p)));
    }
}

/// The children `x0..x1` of a well-formed run, with the separators between
/// them, form a well-formed run over the range between its outer separators.
#[verifier::rlimit(50)]
pub proof fn lemma_parts_window<K: BTreeKey, V>(
    pages: Seq<BTreeNode<K, V>>,
    cs: Seq<Shape>,
    ks: Seq<K::V>,
    lo: Option<K::V>,
    hi: Option<K::V>,
    nxt: u64,
    x0: int,
    x1: int,
)
    requires
        parts_wf::<K, V>(pages, cs, ks, lo, hi, nxt),
        0 <= x0 < x1 <= cs.len(),
    ensures
        parts_wf::<K, V>(
            pages,
            cs.subrange(x0, x1),
            ks.subrange(x0, x1 - 1),
            child_lo::<K>(lo, ks, x0),
            child_hi::<K>(hi, ks, x1 - 1),
            chain_next(cs, x1 - 1, nxt),
        ),
        forall|k: K::V|
            x0 <= route::<K>(ks, k) < x1 ==> #[trigger] parts_lookup::<K, V>(pages, cs.subrange(x0, x1), ks.subrange(x0, x1 - 1), k)
                == parts_lookup::<K, V>(pages, cs, ks, k),
{
    let cs2 = cs.subrange(x0, x1);
    let ks2 = ks.subrange(x0, x1 - 1);
    lemma_window_keys::<K>(ks, lo, hi, x0, x1);
    lemma_window_children::<K, V>(pages, cs, ks, lo, hi, nxt, x0, x1);
    assert forall|k: K::V| x0 <= route::<K>(ks, k) < x1 implies #[trigger] parts_lookup::<K, V>(pages, cs2, ks2, k)
        == parts_lookup::<K, V>(pages, cs, ks, k) by {
        lemma_route::<K>(ks, k);
        let r = route::<K>(ks, k);
        let r2 = r - x0;
        if r2 > 0 {
            assert(ks2[r2 - 1] == ks[r - 1]);
        }
        if r2 < ks2.len() {
            assert(ks2[r2] == ks[r]);
        }
        lemma_route_unique::<K>(ks2, k, r2);
        assert(cs2[r2] == cs[r]);
    }
}

/// The separators of two runs glued with `sep` are sorted and within range.
#[verifier::rlimit(50)]
proof fn lemma_concat_keys<K: BTreeKey>(
    aks: Seq<K::V>,
    lo: Option<K::V>,
    sep: K::V,
    bks: Seq<K::V>,
    hi: Option<K::V>,
)
    requires
        sorted::<K>(aks),
        sorted::<K>(bks),
        forall|i: int| 0 <= i < aks.len() ==> strictly_in::<K>(lo, Some(sep), #[trigger] aks[i]),
        forall|i: int| 0 <= i < bks.len() ==> strictly_in::<K>(Some(sep), hi, #[trigger] bks[i]),
        strictly_in::<K>(lo, hi, sep),
    ensures
        sorted::<K>(aks + seq![sep] + bks),
        forall|i: int| 0 <= i < (aks + seq![sep] + bks).len() ==> strictly_in::<K>(lo, hi, #[trigger] (aks + seq![sep] + bks)[i]),
{
    broadcast use group_key_order;

    let ks = aks + seq![sep] + bks;
    let na = aks.len() as int;
    assert(ks[na] == sep);
    assert forall|i: int, j: int| 0 <= i < j < ks.len() implies lt::<K>(ks[i], ks[j]) by {
        if j < na {
            assert(ks[i] == aks[i] && ks[j] == aks[j]);
        } else if j == na {
            assert(ks[i] == aks[i]);
            assert(strictly_in::<K>(lo, Some(sep), aks[i]));
        } else {
            assert(ks[j] == bks[j - na - 1]);
            assert(strictly_in::<K>(Some(sep), hi, bks[j - na - 1]));
            if i < na {
                assert(ks[i] == aks[i]);
                assert(strictly_in::<K>(lo, Some(sep), aks[i]));
            } else if i > na {
                assert(ks[i] == bks[i - na - 1]);
            }
        }
    }
    assert forall|i: int| 0 <= i < ks.len() implies strictly_in::<K>(lo, hi, #[trigger] ks[i]) by {
        if i < na {
            assert(ks[i] == aks[i]);
            assert(strictly_in::<K>(lo, Some(sep), aks[i]));
        } else if i > na {
            assert(ks[i] == bks[i - na - 1]);
            assert(strictly_in::<K>(Some(sep), hi, bks[i - na - 1]));
        }
    }
}

/// The children of two glued runs keep their bounds and links.
#[verifier::rlimit(40)]
proof fn lemma_concat_children<K: BTreeKey, V>(
    pages: Seq<BTreeNode<K, V>>,
    acs: Seq<Shape>,
    aks: Seq<K::V>,
    lo: Option<K::V>,
    sep: K::V,
    bcs: Seq<Shape>,
    bks: Seq<K::V>,
    hi: Option<K::V>,
    nxt: u64,
)
    requires
        acs.len() == aks.len() + 1,
        bcs.len() == bks.len() + 1,
        forall|i: int|
            #![trigger acs[i]]
            0 <= i < acs.len() ==> wf_subtree::<K, V>(
                pages,
                acs[i],
                child_lo::<K>(lo, aks, i),
                child_hi::<K>(Some(sep), aks, i),
                chain_next(acs, i, first_leaf(bcs[0])),
            ),
        forall|i: int|
            #![trigger bcs[i]]
            0 <= i < bcs.len() ==> wf_subtree::<K, V>(
                pages,
                bcs[i],
                child_lo::<K>(Some(sep), bks, i),
                child_hi::<K>(hi, bks, i),
                chain_next(bcs, i, nxt),
            ),
        pairwise_disjoint(acs),
        pairwise_disjoint(bcs),
        forall|i: int, j: int, p: u64|
            0 <= i < acs.len() && 0 <= j < bcs.len() ==> !(#[trigger] in_shape(acs[i], p) && #[trigger] in_shape(bcs[j], p)),
    ensures
        forall|i: int|
            #![trigger (acs + bcs)[i]]
            0 <= i < (acs + bcs).len() ==> wf_subtree::<K, V>(
                pages,
                (acs + bcs)[i],
                child_lo::<K>(lo, aks + seq![sep] + bks, i),
                child_hi::<K>(hi, aks + seq![sep] + bks, i),
                chain_next(acs + bcs, i, nxt),
            ),
        pairwise_disjoint(acs + bcs),
{
    let cs = acs + bcs;
    let ks = aks + seq![sep] + bks;
    let na = aks.len() as int;
    let nc = acs.len() as int;
    assert(ks[na] == sep);
    assert forall|i: int| #![trigger cs[i]] 0 <= i < cs.len() implies wf_subtree::<K, V>(
        pages,
        cs[i],
        child_lo::<K>(lo, ks, i),
        child_hi::<K>(hi, ks, i),
        chain_next(cs, i, nxt),
    ) by {
        if i < nc {
            assert(cs[i] == acs[i]);
            if i > 0 {
                assert(ks[i - 1] == aks[i - 1]);
            }
            if i < na {
                assert(ks[i] == aks[i]);
            }
            if i + 1 < nc {
                assert(cs[i + 1] == acs[i + 1]);
            } else {
                assert(cs[i + 1] == bcs[0]);
            }
            assert(child_lo::<K>(lo, ks, i) == child_lo::<K>(lo, aks, i));
            assert(child_hi::<K>(hi, ks, i) == child_hi::<K>(Some(sep), aks, i));
            assert(chain_next(cs, i, nxt) == chain_next(acs, i, first_leaf(bcs[0])));
        } else {
            let j = i - nc;
            assert(cs[i] == bcs[j]);
            if j > 0 {
                assert(ks[i - 1] == bks[j - 1]);
            }
            if j < bks.len() {
                assert(ks[i] == bks[j]);
            }
            if j + 1 < bcs.len() {
                assert(cs[i + 1] == bcs[j + 1]);
            }
            assert(child_lo::<K>(lo, ks, i) == child_lo::<K>(Some(sep), bks, j));
            assert(child_hi::<K>(hi, ks, i) == child_hi::<K>(hi, bks, j));
            assert(chain_next(cs, i, nxt) == chain_next(bcs, j, nxt));
        }
    }
    lemma_concat_disjoint(acs, bcs);
}

/// Children of two runs with no page in common share no page.
#[verifier::rlimit(50)]
proof fn lemma_concat_disjoint(acs: Seq<Shape>, bcs: Seq<Shape>)
    requires
        pairwise_disjoint(acs),
        pairwise_disjoint(bcs),
        forall|i: int, j: int, p: u64|
            0 <= i < acs.len() && 0 <= j < bcs.len() ==> !(#[trigger] in_shape(acs[i], p) && #[trigger] in_shape(bcs[j], p)),
    ensures
        pairwise_disjoint(acs + bcs),
{
    let cs = acs + bcs;
    let nc = acs.len() as int;
    assert forall|i: int, j: int, p: u64| 0 <= i < j < cs.len() implies !(#[trigger] in_shape(cs[i], p) && #[trigger] in_shape(cs[j], p)) by {
        if j < nc {
            assert(cs[i] == acs[i] && cs[j] == acs[j]);
            assert(!(in_shape(acs[i], p) && in_shape(acs[j], p)));
        } else if i < nc {
            assert(cs[i] == acs[i] && cs[j] == bcs[j - nc]);
            assert(!(in_shape(acs[i], p) && in_shape(bcs[j - nc], p)));
        } else {
            assert(cs[i] == bcs[i - nc] && cs[j] == bcs[j - nc]);
            assert(!(in_shape(bcs[i - nc], p) && in_shape(bcs[j - nc], p)));
        }
    }
}

/// Two well-formed runs, the first bounded above by `sep` and linking to the
/// first leaf of the second, the second bounded below by `sep`, glued with
/// `sep` between them form a well-formed run.
#[verifier::rlimit(50)]
pub proof fn lemma_parts_concat<K: BTreeKey, V>(
    pages: Seq<BTreeNode<K, V>>,
    acs: Seq<Shape>,
    aks: Seq<K::V>,
    lo: Option<K::V>,
    sep: K::V,
    bcs: Seq<Shape>,
    bks: Seq<K::V>,
    hi: Option<K::V>,
    nxt: u64,
)
    requires
        parts_wf::<K, V>(pages, acs, aks, lo, Some(sep), first_leaf(bcs[0])),
        parts_wf::<K, V>(pages, bcs, bks, Some(sep), hi, nxt),
        strictly_in::<K>(lo, hi, sep),
        forall|i: int, j: int, p: u64|
            0 <= i < acs.len() && 0 <= j < bcs.len() ==> !(#[trigger] in_shape(acs[i], p) && #[trigger] in_shape(bcs[j], p)),
    ensures
        parts_wf::<K, V>(pages, acs + bcs, aks + seq![sep] + bks, lo, hi, nxt),
        forall|k: K::V|
            #[trigger] parts_lookup::<K, V>(pages, acs + bcs, aks + seq![sep] + bks, k) == if lt::<K>(k, sep) {
                parts_lookup::<K, V>(pages, acs, aks, k)
            } else {
                parts_lookup::<K, V>(pages, bcs, bks, k)
            },
{
    let cs = acs + bcs;
    let ks = aks + seq![sep] + bks;
    let na = aks.len() as int;
    let nc = acs.len() as int;
    lemma_concat_keys::<K>(aks, lo, sep, bks, hi);
    lemma_concat_children::<K, V>(pages, acs, aks, lo, sep, bcs, bks, hi, nxt);
    assert forall|k: K::V| #[trigger] parts_lookup::<K, V>(pages, cs, ks, k) == if lt::<K>(k, sep) {
        parts_lookup::<K, V>(pages, acs, aks, k)
    } else {
        parts_lookup::<K, V>(pages, bcs, bks, k)
    } by {
        lemma_concat_route::<K>(aks, sep, bks, k);
        lemma_route::<K>(aks, k);
        lemma_route::<K>(bks, k);
        if lt::<K>(k, sep) {
            assert(cs[route::<K>(aks, k)] == acs[route::<K>(aks, k)]);
        } else {
            assert(cs[nc + route::<K>(bks, k)] == bcs[route::<K>(bks, k)]);
        }
    }
}

/// Routing over glued separators.
#[verifier::rlimit(50)]
proof fn lemma_concat_route<K: BTreeKey>(aks: Seq<K::V>, sep: K::V, bks: Seq<K::V>, k: K::V)
    requires
        sorted::<K>(aks),
        sorted::<K>(bks),
        sorted::<K>(aks + seq![sep] + bks),
    ensures
        route::<K>(aks + seq![sep] + bks, k) == if lt::<K>(k, sep) {
            route::<K>(aks, k)
        } else {
            aks.len() + 1 + route::<K>(bks, k)
        },
{
    let ks = aks + seq![sep] + bks;
    let na = aks.len() as int;
    lemma_route::<K>(aks, k);
    lemma_route::<K>(bks, k);
    assert(ks[na] == sep);
    if lt::<K>(k, sep) {
        let r = route::<K>(aks, k);
        if r > 0 {
            assert(ks[r - 1] == aks[r - 1]);
        }
        if r < na {
            assert(ks[r] == aks[r]);
        }
        lemma_route_unique::<K>(ks, k, r);
    } else {
        crate::key::lemma_lt_total::<K>(k, sep);
        let r = route::<K>(bks, k);
        let r2 = na + 1 + r;
        if r > 0 {
            assert(ks[r2 - 1] == bks[r - 1]);
        }
        if r < bks.len() {
            assert(ks[r2] == bks[r]);
        }
        lemma_route_unique::<K>(ks, k, r2);
    }
}

} // verus!
