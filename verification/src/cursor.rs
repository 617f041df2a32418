//! A cursor: forward iteration over the leaf chain for range scans.
//!
//! Leaves are linked through `LeafNode::next_leaf`. A cursor holds a copy
//! of the current leaf and a position in it, and reads the following leaves
//! from the pager as it advances.
use crate::error::BTreeError;
use crate::key::{group_key_order, le, lt, BTreeKey, BTreeValue, KeyOrdering};
use crate::node::{key_views, sorted, BTreeNode, LeafNode, NO_LEAF, NO_PAGE};
use crate::order::{lemma_run_concat, lemma_run_single, linked, next_of, run_keys, run_vals};
use crate::pager::Pager;
use vstd::prelude::*;

verus! {

broadcast use group_key_order;

/// One end of a range of keys.
pub enum Bound<K> {
    Included(K),
    Excluded(K),
    Unbounded,
}

/// The key `k` comes before the range that starts at `start`.
pub open spec fn before_start<K: BTreeKey>(start: Bound<K>, k: K::V) -> bool {
    match start {
        Bound::Included(x) => lt::<K>(k, x@),
        Bound::Excluded(x) => le::<K>(k, x@),
        Bound::Unbounded => false,
    }
}

/// The key `k` does not go past the range that ends at `end`.
pub open spec fn within_end<K: BTreeKey>(end: Bound<K>, k: K::V) -> bool {
    match end {
        Bound::Included(x) => le::<K>(k, x@),
        Bound::Excluded(x) => lt::<K>(k, x@),
        Bound::Unbounded => true,
    }
}

/// The leaf pages `ids` are the chain that starts at page `start` and ends
/// with a link to `NO_LEAF`, which none of them is.
pub open spec fn chain_ok<K, V>(pages: Seq<BTreeNode<K, V>>, start: u64, ids: Seq<u64>) -> bool {
    &&& ids.len() == 0 ==> start == NO_LEAF
    &&& ids.len() > 0 ==> ids[0] == start
    &&& linked(pages, ids, NO_LEAF)
    &&& forall|i: int| 0 <= i < ids.len() ==> #[trigger] ids[i] != NO_LEAF
}

/// The number of leading keys of `ks` that do not go past `end`.
pub open spec fn bounded_len<K: BTreeKey>(ks: Seq<K::V>, end: Bound<K>) -> nat
    decreases ks.len(),
{
    if ks.len() == 0 || !within_end::<K>(end, ks[0]) {
        0
    } else {
        1 + bounded_len::<K>(ks.drop_first(), end)
    }
}

/// There is at most one chain from a page.
#[verifier::rlimit(40)]
pub proof fn lemma_chain_unique<K, V>(pages: Seq<BTreeNode<K, V>>, start: u64, a: Seq<u64>, b: Seq<u64>)
    requires
        pages.len() <= NO_PAGE,
        chain_ok(pages, start, a),
        chain_ok(pages, start, b),
    ensures
        a == b,
    decreases a.len(),
{
    if a.len() == 0 {
        if b.len() > 0 {
            assert(b[0] != NO_LEAF);
        }
        assert(a =~= b);
    } else {
        assert(a[0] != NO_LEAF);
        if b.len() == 0 {
            assert(false);
        }
        assert(b[0] < pages.len());
        let nx = next_of(pages, start);
        if a.len() > 1 {
            assert(next_of(pages, a[0]) == a[1]);
        } else {
            assert(a.last() == a[0]);
        }
        if b.len() > 1 {
            assert(next_of(pages, b[0]) == b[1]);
        } else {
            assert(b.last() == b[0]);
        }
        lemma_chain_drop_first(pages, a);
        lemma_chain_drop_first(pages, b);
        lemma_chain_unique(pages, nx, a.drop_first(), b.drop_first());
        assert(a =~= b) by {
            assert forall|i: int| 0 <= i < a.len() implies a[i] == b[i] by {
                if i > 0 {
                    assert(a[i] == a.drop_first()[i - 1]);
                    assert(b[i] == b.drop_first()[i - 1]);
                }
            }
        }
    }
}

/// The pages after position `j` of a chain ending at `NO_LEAF` are the
/// chain from the page that page `j` links to.
#[verifier::rlimit(30)]
pub proof fn lemma_chain_suffix<K, V>(pages: Seq<BTreeNode<K, V>>, ids: Seq<u64>, j: int)
    requires
        linked(pages, ids, NO_LEAF),
        forall|i: int| j < i < ids.len() ==> #[trigger] ids[i] != NO_LEAF,
        0 <= j < ids.len(),
    ensures
        chain_ok(pages, next_of(pages, ids[j]), ids.subrange(j + 1, ids.len() as int)),
{
    let d = ids.subrange(j + 1, ids.len() as int);
    if j + 1 < ids.len() {
        assert(next_of(pages, ids[j]) == ids[j + 1]);
        assert(d[0] == ids[j + 1]);
        assert(d.last() == ids.last());
    } else {
        assert(ids.last() == ids[j]);
    }
    assert forall|i: int| 0 <= i < d.len() implies #[trigger] d[i] < pages.len() && pages[d[i] as int] is Leaf
        && pages[d[i] as int]->Leaf_0.keys@.len() == pages[d[i] as int]->Leaf_0.values@.len() && d[i] != NO_LEAF by {
        assert(d[i] == ids[j + 1 + i]);
    }
    assert forall|i: int| 0 <= i < d.len() - 1 implies #[trigger] next_of(pages, d[i]) == d[i + 1] by {
        assert(d[i] == ids[j + 1 + i]);
        assert(d[i + 1] == ids[j + 2 + i]);
    }
}

/// The rest of a chain after its first page is the chain from the page that
/// one links to.
#[verifier::rlimit(30)]
pub proof fn lemma_chain_drop_first<K, V>(pages: Seq<BTreeNode<K, V>>, ids: Seq<u64>)
    requires
        ids.len() > 0,
        linked(pages, ids, NO_LEAF),
        forall|i: int| 0 <= i < ids.len() ==> #[trigger] ids[i] != NO_LEAF,
    ensures
        chain_ok(pages, next_of(pages, ids[0]), ids.drop_first()),
{
    let d = ids.drop_first();
    if ids.len() > 1 {
        assert(next_of(pages, ids[0]) == ids[1]);
        assert(d[0] == ids[1]);
        assert(d.last() == ids.last());
    } else {
        assert(ids.last() == ids[0]);
    }
    assert forall|i: int| 0 <= i < d.len() implies #[trigger] d[i] < pages.len() && pages[d[i] as int] is Leaf
        && d[i] != NO_LEAF by {
        assert(d[i] == ids[i + 1]);
    }
    assert forall|i: int| 0 <= i < d.len() - 1 implies #[trigger] next_of(pages, d[i]) == d[i + 1] by {
        assert(d[i] == ids[i + 1]);
        assert(d[i + 1] == ids[i + 2]);
    }
}

/// The entries of a chain: those of its first leaf, then those of the rest.
#[verifier::rlimit(30)]
pub proof fn lemma_run_first<K: BTreeKey, V>(pages: Seq<BTreeNode<K, V>>, ids: Seq<u64>)
    requires
        ids.len() > 0,
    ensures
        run_keys::<K, V>(pages, ids) == key_views(pages[ids[0] as int]->Leaf_0.keys@) + run_keys::<K, V>(pages, ids.drop_first()),
        run_vals::<K, V>(pages, ids) == pages[ids[0] as int]->Leaf_0.values@ + run_vals::<K, V>(pages, ids.drop_first()),
{
    assert(ids =~= seq![ids[0]] + ids.drop_first());
    lemma_run_concat::<K, V>(pages, seq![ids[0]], ids.drop_first());
    lemma_run_single::<K, V>(pages, ids[0]);
}

/// In sorted keys, a key that does not go past `end` lies within the leading
/// run of keys that do not.
#[verifier::rlimit(30)]
pub proof fn lemma_bounded_len<K: BTreeKey>(ks: Seq<K::V>, end: Bound<K>, i: int)
    requires
        sorted::<K>(ks),
        0 <= i < ks.len(),
        within_end::<K>(end, ks[i]),
    ensures
        i < bounded_len::<K>(ks, end),
    decreases i,
{
    if i > 0 {
        assert(lt::<K>(ks[0], ks[i]));
        assert(within_end::<K>(end, ks[0]));
        let d = ks.drop_first();
        assert(sorted::<K>(d)) by {
            assert forall|a: int, b: int| 0 <= a < b < d.len() implies lt::<K>(d[a], d[b]) by {
                assert(d[a] == ks[a + 1] && d[b] == ks[b + 1]);
            }
        }
        assert(d[i - 1] == ks[i]);
        lemma_bounded_len::<K>(d, end, i - 1);
    }
}

/// The leading run of keys that do not go past `end` is no longer than the
/// keys, and none of its keys goes past `end`.
#[verifier::rlimit(30)]
pub proof fn lemma_bounded_prefix<K: BTreeKey>(ks: Seq<K::V>, end: Bound<K>)
    ensures
        bounded_len::<K>(ks, end) <= ks.len(),
        forall|i: int| 0 <= i < bounded_len::<K>(ks, end) ==> within_end::<K>(end, #[trigger] ks[i]),
    decreases ks.len(),
{
    if ks.len() > 0 && within_end::<K>(end, ks[0]) {
        let d = ks.drop_first();
        lemma_bounded_prefix::<K>(d, end);
        assert forall|i: int| 0 <= i < bounded_len::<K>(ks, end) implies within_end::<K>(end, #[trigger] ks[i]) by {
            if i > 0 {
                assert(ks[i] == d[i - 1]);
            }
        }
    }
}

/// A copy of a leaf: equal values and link, keys with the same views.
pub fn copy_leaf<K: BTreeKey, V: BTreeValue>(leaf: &LeafNode<K, V>) -> (r: LeafNode<K, V>)
    ensures
        key_views(r.keys@) == key_views(leaf.keys@),
        r.values@ == leaf.values@,
        r.next_leaf == leaf.next_leaf,
{
    let mut keys: Vec<K> = Vec::new();
    let mut values: Vec<V> = Vec::new();
    let n = leaf.keys.len();
    let mut i: usize = 0;
    while i < n
        invariant
            i <= n,
            n == leaf.keys@.len(),
            keys@.len() == i,
            forall|j: int| 0 <= j < i ==> #[trigger] keys@[j]@ == leaf.keys@[j]@,
        decreases n - i,
    {
        keys.push(leaf.keys[i].copy_key());
        i = i + 1;
    }
    let m = leaf.values.len();
    let mut i: usize = 0;
    while i < m
        invariant
            i <= m,
            m == leaf.values@.len(),
            values@.len() == i,
            forall|j: int| 0 <= j < i ==> #[trigger] values@[j] == leaf.values@[j],
        decreases m - i,
    {
        values.push(leaf.values[i].copy_value());
        i = i + 1;
    }
    assert(key_views(keys@) =~= key_views(leaf.keys@));
    assert(values@ =~= leaf.values@);
    LeafNode { keys, values, next_leaf: leaf.next_leaf }
}

/// A forward iterator over the entries of a range, leaf by leaf.
pub struct Cursor<K, V> {
    /// The leaf being read.
    current_leaf: LeafNode<K, V>,
    /// The position of the next entry in `current_leaf`.
    pos: usize,
    /// Where the range ends.
    end: Bound<K>,
}

impl<K: BTreeKey, V> Cursor<K, V> {
    /// Where the range ends.
    pub closed spec fn end_bound(&self) -> Bound<K> {
        self.end
    }

    /// The leaf the cursor is in.
    pub closed spec fn leaf(&self) -> LeafNode<K, V> {
        self.current_leaf
    }

    /// The position of the next entry in the current leaf.
    pub closed spec fn pos(&self) -> usize {
        self.pos
    }

    /// The cursor can read on in `pages`: its position lies within its leaf,
    /// whose keys pair with its values, and the leaf links to a chain.
    pub closed spec fn wf(&self, pages: Seq<BTreeNode<K, V>>) -> bool {
        &&& self.pos <= self.current_leaf.keys@.len()
        &&& self.current_leaf.keys@.len() == self.current_leaf.values@.len()
        &&& pages.len() <= NO_PAGE
        &&& exists|ids: Seq<u64>| chain_ok(pages, self.current_leaf.next_leaf, ids)
    }

    /// The leaves after the current one.
    pub closed spec fn chain(&self, pages: Seq<BTreeNode<K, V>>) -> Seq<u64> {
        choose|ids: Seq<u64>| chain_ok(pages, self.current_leaf.next_leaf, ids)
    }

    /// The keys not read yet, up to the end of the chain.
    pub closed spec fn pending_keys(&self, pages: Seq<BTreeNode<K, V>>) -> Seq<K::V> {
        key_views(self.current_leaf.keys@).subrange(self.pos as int, self.current_leaf.keys@.len() as int)
            + run_keys::<K, V>(pages, self.chain(pages))
    }

    /// The values of the pending keys.
    pub closed spec fn pending_vals(&self, pages: Seq<BTreeNode<K, V>>) -> Seq<V> {
        self.current_leaf.values@.subrange(self.pos as int, self.current_leaf.values@.len() as int)
            + run_vals::<K, V>(pages, self.chain(pages))
    }

    /// The pending keys pair with the pending values.
    pub proof fn lemma_pending_lens(&self, pages: Seq<BTreeNode<K, V>>)
        requires
            self.wf(pages),
        ensures
            self.pending_keys(pages).len() == self.pending_vals(pages).len(),
    {
        crate::order::lemma_run_lens::<K, V>(pages, self.chain(pages));
    }

    /// A cursor at position `start_pos` of `leaf`, reading up to `end`.
    pub fn new(leaf: LeafNode<K, V>, start_pos: usize, end: Bound<K>) -> (r: Self)
        ensures
            r.leaf() == leaf,
            r.pos() == start_pos,
            r.end_bound() == end,
            forall|pages: Seq<BTreeNode<K, V>>, ids: Seq<u64>|
                start_pos <= leaf.keys@.len() && leaf.keys@.len() == leaf.values@.len() && pages.len() <= NO_PAGE
                    && #[trigger] chain_ok(pages, leaf.next_leaf, ids) ==> {
                    &&& r.wf(pages)
                    &&& r.pending_keys(pages) == key_views(leaf.keys@).subrange(start_pos as int, leaf.keys@.len() as int)
                        + run_keys::<K, V>(pages, ids)
                    &&& r.pending_vals(pages) == leaf.values@.subrange(start_pos as int, leaf.values@.len() as int)
                        + run_vals::<K, V>(pages, ids)
                },
    {
        let r = Cursor { current_leaf: leaf, pos: start_pos, end };
        proof {
            assert forall|pages: Seq<BTreeNode<K, V>>, ids: Seq<u64>|
                start_pos <= leaf.keys@.len() && leaf.keys@.len() == leaf.values@.len() && pages.len() <= NO_PAGE
                    && #[trigger] chain_ok(pages, leaf.next_leaf, ids) implies {
                    &&& r.wf(pages)
                    &&& r.pending_keys(pages) == key_views(leaf.keys@).subrange(start_pos as int, leaf.keys@.len() as int)
                        + run_keys::<K, V>(pages, ids)
                    &&& r.pending_vals(pages) == leaf.values@.subrange(start_pos as int, leaf.values@.len() as int)
                        + run_vals::<K, V>(pages, ids)
                } by {
                lemma_chain_unique(pages, leaf.next_leaf, r.chain(pages), ids);
            }
        }
        r
    }
}

impl<K: BTreeKey, V: BTreeValue> Cursor<K, V> {
    /// The next entry of the range, crossing into the next leaf of the chain
    /// where the current one is used up; `None` once the range is used up.
    #[verifier::rlimit(60)]
    pub fn next(&mut self, pager: &Pager<K, V>) -> (r: Result<Option<(K, V)>, BTreeError>)
        requires
            pager.wf(),
            old(self).wf(pager@),
        ensures
            final(self).wf(pager@),
            final(self).end_bound() == old(self).end_bound(),
            ({
                let pk = old(self).pending_keys(pager@);
                let pv = old(self).pending_vals(pager@);
                if pk.len() > 0 && within_end::<K>(old(self).end_bound(), pk[0]) {
                    &&& r matches Ok(Some(p)) && p.0@ == pk[0] && p.1 == pv[0]
                    &&& final(self).pending_keys(pager@) == pk.drop_first()
                    &&& final(self).pending_vals(pager@) == pv.drop_first()
                } else {
                    &&& r matches Ok(None)
                    &&& final(self).pending_keys(pager@) == pk
                    &&& final(self).pending_vals(pager@) == pv
                }
            }),
    {
        let ghost pages = pager@;
        let ghost pk0 = self.pending_keys(pages);
        let ghost pv0 = self.pending_vals(pages);
        loop
            invariant
                pager.wf(),
                pages == pager@,
                self.wf(pages),
                self.end == old(self).end,
                self.pending_keys(pages) == pk0,
                self.pending_vals(pages) == pv0,
                pk0 == old(self).pending_keys(pages),
                pv0 == old(self).pending_vals(pages),
            decreases self.chain(pages).len(),
        {
            let ghost ids = self.chain(pages);
            let ghost kv = key_views(self.current_leaf.keys@);
            let ghost vv = self.current_leaf.values@;
            proof {
                assert(chain_ok(pages, self.current_leaf.next_leaf, ids));
            }
            if self.pos < self.current_leaf.keys.len() {
                let ghost p = self.pos as int;
                assert(pk0[0] == kv[p]);
                assert(pv0[0] == vv[p]);
                let past_end = match &self.end {
                    Bound::Unbounded => false,
                    Bound::Included(hi) => match self.current_leaf.keys[self.pos].compare(hi) {
                        KeyOrdering::Greater => true,
                        _ => false,
                    },
                    Bound::Excluded(hi) => match self.current_leaf.keys[self.pos].compare(hi) {
                        KeyOrdering::Less => false,
                        _ => true,
                    },
                };
                if past_end {
                    proof {
                        assert(self.current_leaf.keys@[p]@ == kv[p]);
                        if self.end is Included {
                            crate::key::lemma_lt_asymmetric::<K>(self.end->Included_0@, kv[p]);
                        }
                    }
                    return Ok(None);
                }
                let k = self.current_leaf.keys[self.pos].copy_key();
                let v = self.current_leaf.values[self.pos].copy_value();
                self.pos = self.pos + 1;
                proof {
                    assert(self.current_leaf.keys@[p]@ == kv[p]);
                    if self.end is Included {
                        crate::key::lemma_lt_total::<K>(kv[p], self.end->Included_0@);
                    }
                    if self.end is Excluded {
                        crate::key::lemma_lt_total::<K>(kv[p], self.end->Excluded_0@);
                    }
                    assert(self.chain(pages) == ids);
                    assert(self.pending_keys(pages) =~= pk0.drop_first());
                    assert(self.pending_vals(pages) =~= pv0.drop_first());
                }
                return Ok(Some((k, v)));
            }
            let next_id = self.current_leaf.next_leaf;
            if next_id == NO_LEAF {
                proof {
                    if ids.len() > 0 {
                        assert(ids[0] < pages.len());
                    }
                    assert(ids.len() == 0);
                    assert(pk0 =~= Seq::<K::V>::empty());
                }
                return Ok(None);
            }
            proof {
                assert(ids.len() > 0);
                assert(ids[0] == next_id);
                assert(ids[0] < pages.len());
            }
            let leaf = match pager.read_node(next_id) {
                BTreeNode::Leaf(l) => copy_leaf(l),
                BTreeNode::Internal(_) => vstd::pervasive::unreached(),
            };
            self.current_leaf = leaf;
            self.pos = 0;
            proof {
                lemma_chain_drop_first(pages, ids);
                lemma_chain_unique(pages, self.current_leaf.next_leaf, self.chain(pages), ids.drop_first());
                lemma_run_first::<K, V>(pages, ids);
                assert(Seq::<K::V>::empty() =~= Seq::<K::V>::empty());
                assert(pk0 =~= self.pending_keys(pages));
                assert(pv0 =~= self.pending_vals(pages));
            }
        }
    }

    /// All remaining entries of the range, in order.
    pub fn collect_all(&mut self, pager: &Pager<K, V>) -> (r: Result<Vec<(K, V)>, BTreeError>)
        requires
            pager.wf(),
            old(self).wf(pager@),
        ensures
            final(self).wf(pager@),
            ({
                let pk = old(self).pending_keys(pager@);
                let pv = old(self).pending_vals(pager@);
                let n = bounded_len::<K>(pk, old(self).end_bound());
                &&& r is Ok
                &&& r->Ok_0@.len() == n
                &&& forall|i: int| 0 <= i < n ==> (#[trigger] r->Ok_0@[i]).0@ == pk[i] && r->Ok_0@[i].1 == pv[i]
                &&& final(self).end_bound() == old(self).end_bound()
                &&& final(self).pending_keys(pager@) == pk.subrange(n as int, pk.len() as int)
                &&& final(self).pending_vals(pager@) == pv.subrange(n as int, pv.len() as int)
                &&& bounded_len::<K>(final(self).pending_keys(pager@), old(self).end_bound()) == 0
            }),
    {
        let ghost pages = pager@;
        let ghost pk0 = self.pending_keys(pages);
        let ghost pv0 = self.pending_vals(pages);
        let ghost end = self.end_bound();
        proof {
            self.lemma_pending_lens(pages);
        }
        let mut result: Vec<(K, V)> = Vec::new();
        loop
            invariant
                pager.wf(),
                pages == pager@,
                self.wf(pages),
                self.end_bound() == end,
                pk0 == old(self).pending_keys(pages),
                pv0 == old(self).pending_vals(pages),
                end == old(self).end_bound(),
                result@.len() <= pk0.len(),
                self.pending_keys(pages) == pk0.subrange(result@.len() as int, pk0.len() as int),
                self.pending_vals(pages) == pv0.subrange(result@.len() as int, pk0.len() as int),
                pv0.len() == pk0.len(),
                result@.len() + bounded_len::<K>(self.pending_keys(pages), end) == bounded_len::<K>(pk0, end),
                forall|i: int| 0 <= i < result@.len() ==> (#[trigger] result@[i]).0@ == pk0[i] && result@[i].1 == pv0[i],
            ensures
                self.wf(pages),
                self.end_bound() == end,
                self.pending_keys(pages) == pk0.subrange(result@.len() as int, pk0.len() as int),
                self.pending_vals(pages) == pv0.subrange(result@.len() as int, pk0.len() as int),
                bounded_len::<K>(self.pending_keys(pages), end) == 0,
                result@.len() == bounded_len::<K>(pk0, end),
                forall|i: int| 0 <= i < result@.len() ==> (#[trigger] result@[i]).0@ == pk0[i] && result@[i].1 == pv0[i],
            decreases self.pending_keys(pages).len(),
        {
            let ghost pk = self.pending_keys(pages);
            let ghost pv = self.pending_vals(pages);
            match self.next(pager) {
                Ok(Some(pair)) => {
                    proof {
                        let n = result@.len() as int;
                        assert(pk[0] == pk0[n]);
                        assert(pv[0] == pv0[n]);
                        assert(pk.drop_first() =~= pk0.subrange(n + 1, pk0.len() as int));
                        assert(pv.drop_first() =~= pv0.subrange(n + 1, pk0.len() as int));
                    }
                    result.push(pair);
                },
                Ok(None) => {
                    break;
                },
                Err(e) => {
                    proof {
                        assert(false);
                    }
                    return Err(e);
                },
            }
        }
        Ok(result)
    }
}

} // verus!
