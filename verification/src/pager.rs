//! The page store: maps page ids to nodes, remembers which pages were
//! written since the last flush, and lays out the page file.
//!
//! File layout:
//!   [0..8]   : u64, little-endian: next free page id (also the page count)
//!   [8..16]  : u64, little-endian: root page id
//!   [PAGE_SIZE * (id + 1) .. PAGE_SIZE * (id + 2)] : the page `id`, which
//!              holds the length of its payload (u64, little-endian), the
//!              payload, and zeros up to `PAGE_SIZE`
use crate::error::BTreeError;
use crate::node::{BTreeNode, InternalNode, LeafNode, NO_PAGE};
use vstd::bytes::{
    lemma_auto_spec_u64_to_from_le_bytes, spec_u64_from_le_bytes, spec_u64_to_le_bytes,
    u64_from_le_bytes, u64_to_le_bytes,
};
use vstd::prelude::*;
use vstd::pervasive::VecAdditionalExecFns;
use vstd::slice::{slice_subrange, slice_to_vec};

verus! {

/// Size in bytes of one page.
pub const PAGE_SIZE: usize = 4096;

/// Size in bytes of the file header.
pub const HEADER_SIZE: u64 = 16;

/// The largest page id whose page ends within a file of at most
/// `u64::MAX` bytes.
pub const MAX_PAGE_ID: u64 = 4503599627370494;

/// Size in bytes of the length field at the start of a page.
pub const LEN_SIZE: usize = 8;

/// The pages of a tree, held in memory and indexed by page id.
pub struct Pager<K, V> {
    /// The id the next allocated page gets; also the number of pages.
    pub next_page_id: u64,
    /// The page id of the root, or `NO_PAGE` when there is none yet.
    pub root_page_id: u64,
    /// The node of each page, indexed by page id.
    pub pages: Vec<BTreeNode<K, V>>,
    /// Which pages were written since the last flush, indexed by page id.
    pub dirty: Vec<bool>,
}

impl<K, V> View for Pager<K, V> {
    type V = Seq<BTreeNode<K, V>>;

    /// The node held in each page, indexed by page id.
    open spec fn view(&self) -> Seq<BTreeNode<K, V>> {
        self.pages@
    }
}

/// An empty leaf, the content of a page that was allocated and not yet written.
pub open spec fn is_blank<K, V>(n: BTreeNode<K, V>) -> bool {
    n matches BTreeNode::Leaf(l) && l.keys@.len() == 0 && l.values@.len() == 0 && l.next_leaf
        == NO_PAGE
}

impl<K, V> Pager<K, V> {
    /// The pager is consistent: one page per allocated id, and ids stay below
    /// `NO_PAGE`.
    pub open spec fn wf(&self) -> bool {
        &&& self.pages@.len() == self.next_page_id
        &&& self.dirty@.len() == self.pages@.len()
        &&& self.next_page_id <= NO_PAGE
    }

    /// The ids of the pages written since the last flush.
    pub open spec fn dirty_ids(&self) -> Set<u64> {
        Set::new(|id: u64| id < self.dirty@.len() && self.dirty@[id as int])
    }
}

/// Going from `o` to `n` loses no page and no dirty mark, and every page of
/// `n` that is new or holds another node than in `o` is dirty in `n`: a
/// flush of the dirty pages of `n` brings storage that held `o` up to date.
pub open spec fn dirty_covers<K, V>(o: Pager<K, V>, n: Pager<K, V>) -> bool {
    &&& o@.len() <= n@.len()
    &&& o.dirty_ids().subset_of(n.dirty_ids())
    &&& forall|id: u64|
        id < n@.len() && (id >= o@.len() || n@[id as int] != o@[id as int]) ==> #[trigger] n.dirty_ids().contains(id)
}

/// Two steps that each keep their changes dirty keep all of them dirty.
pub broadcast proof fn lemma_dirty_covers_trans<K, V>(a: Pager<K, V>, b: Pager<K, V>, c: Pager<K, V>)
    requires
        #[trigger] dirty_covers(a, b),
        #[trigger] dirty_covers(b, c),
    ensures
        dirty_covers(a, c),
{
    assert forall|id: u64| id < c@.len() && (id >= a@.len() || c@[id as int] != a@[id as int]) implies #[trigger] c.dirty_ids().contains(id) by {
        if id < b@.len() && (id >= a@.len() || b@[id as int] != a@[id as int]) {
            assert(b.dirty_ids().contains(id));
        }
    }
}

impl<K, V> Pager<K, V> {

    /// A pager with no pages and no root, as for a new file.
    pub fn new() -> (r: Self)
        ensures
            r.wf(),
            r@ == Seq::<BTreeNode<K, V>>::empty(),
            r.next_page_id == 0,
            r.root_page_id == NO_PAGE,
            r.dirty_ids() == Set::<u64>::empty(),
    {
        let r = Pager { next_page_id: 0, root_page_id: NO_PAGE, pages: Vec::new(), dirty: Vec::new() };
        assert(r.dirty_ids() =~= Set::<u64>::empty());
        r
    }

    /// A pager over pages read back from storage, none of them dirty.
    pub fn from_pages(root_page_id: u64, pages: Vec<BTreeNode<K, V>>) -> (r: Result<Self, BTreeError>)
        ensures
            match r {
                Ok(p) => {
                    &&& p.wf()
                    &&& p@ == pages@
                    &&& p.next_page_id == pages@.len()
                    &&& p.root_page_id == root_page_id
                    &&& p.dirty_ids() == Set::<u64>::empty()
                },
                Err(e) => pages@.len() > NO_PAGE && e == (BTreeError::PagerFull { max: NO_PAGE }),
            },
    {
        let n = pages.len();
        if n as u128 > NO_PAGE as u128 {
            return Err(BTreeError::PagerFull { max: NO_PAGE });
        }
        let mut dirty: Vec<bool> = Vec::new();
        let mut i: usize = 0;
        while i < n
            invariant
                i <= n,
                n == pages@.len(),
                dirty@.len() == i,
                forall|j: int| 0 <= j < i ==> !dirty@[j],
            decreases n - i,
        {
            dirty.push(false);
            i = i + 1;
        }
        let r = Pager { next_page_id: n as u64, root_page_id, pages, dirty };
        assert(r.dirty_ids() =~= Set::<u64>::empty());
        Ok(r)
    }

    /// Allocate a new page and return its id. The page holds an empty leaf
    /// until it is written, and is dirty.
    pub fn alloc_page(&mut self) -> (r: Result<u64, BTreeError>)
        requires
            old(self).wf(),
        ensures
            final(self).wf(),
            final(self).root_page_id == old(self).root_page_id,
            dirty_covers(*old(self), *final(self)),
            match r {
                Ok(id) => {
                    &&& final(self).dirty_ids() == old(self).dirty_ids().insert(id)
                    &&& id == old(self).next_page_id
                    &&& final(self).next_page_id == id + 1
                    &&& final(self)@.len() == old(self)@.len() + 1
                    &&& final(self)@ == old(self)@.push(final(self)@[id as int])
                    &&& is_blank(final(self)@[id as int])
                },
                Err(e) => {
                    &&& old(self).next_page_id == NO_PAGE
                    &&& e == (BTreeError::PagerFull { max: NO_PAGE })
                    &&& *final(self) == *old(self)
                },
            },
    {
        if self.next_page_id == NO_PAGE {
            return Err(BTreeError::PagerFull { max: NO_PAGE });
        }
        let id = self.next_page_id;
        self.pages.push(BTreeNode::Leaf(crate::node::LeafNode { keys: Vec::new(), values: Vec::new(), next_leaf: NO_PAGE }));
        self.dirty.push(true);
        self.next_page_id = id + 1;
        proof {
            assert(self.dirty_ids() =~= old(self).dirty_ids().insert(id));
        }
        Ok(id)
    }

    /// The node stored in page `page_id`.
    pub fn read_node(&self, page_id: u64) -> (r: &BTreeNode<K, V>)
        requires
            self.wf(),
            page_id < self@.len(),
        ensures
            *r == self@[page_id as int],
    {
        let len = self.pages.len();
        assert(page_id < len);
        &self.pages[page_id as usize]
    }

    /// Store `node` in page `page_id`; the page is dirty until the next flush.
    pub fn write_node(&mut self, page_id: u64, node: BTreeNode<K, V>)
        requires
            old(self).wf(),
            page_id < old(self)@.len(),
        ensures
            final(self).wf(),
            final(self)@ == old(self)@.update(page_id as int, node),
            final(self).next_page_id == old(self).next_page_id,
            final(self).root_page_id == old(self).root_page_id,
            final(self).dirty_ids() == old(self).dirty_ids().insert(page_id),
            dirty_covers(*old(self), *final(self)),
    {
        let len = self.pages.len();
        assert(page_id < len);
        self.pages.set(page_id as usize, node);
        self.dirty.set(page_id as usize, true);
        proof {
            assert(self.dirty_ids() =~= old(self).dirty_ids().insert(page_id));
        }
    }

    /// Move the node out of page `page_id`, leaving an empty leaf there; the
    /// page is dirty, and the caller writes it back.
    pub fn take_node(&mut self, page_id: u64) -> (r: BTreeNode<K, V>)
        requires
            old(self).wf(),
            page_id < old(self)@.len(),
        ensures
            final(self).wf(),
            r == old(self)@[page_id as int],
            final(self)@ == old(self)@.update(page_id as int, final(self)@[page_id as int]),
            is_blank(final(self)@[page_id as int]),
            final(self).next_page_id == old(self).next_page_id,
            final(self).root_page_id == old(self).root_page_id,
            final(self).dirty_ids() == old(self).dirty_ids().insert(page_id),
            dirty_covers(*old(self), *final(self)),
    {
        let mut node = BTreeNode::Leaf(crate::node::LeafNode { keys: Vec::new(), values: Vec::new(), next_leaf: NO_PAGE });
        let len = self.pages.len();
        assert(page_id < len);
        self.pages.set_and_swap(page_id as usize, &mut node);
        self.dirty.set(page_id as usize, true);
        proof {
            assert(self.dirty_ids() =~= old(self).dirty_ids().insert(page_id));
        }
        node
    }

    /// Move the leaf out of page `page_id`, leaving an empty leaf there.
    pub(crate) fn take_leaf(&mut self, page_id: u64) -> (r: LeafNode<K, V>)
        requires
            old(self).wf(),
            page_id < old(self)@.len(),
            old(self)@[page_id as int] is Leaf,
        ensures
            final(self).wf(),
            r == old(self)@[page_id as int]->Leaf_0,
            final(self)@ == old(self)@.update(page_id as int, final(self)@[page_id as int]),
            final(self).next_page_id == old(self).next_page_id,
            final(self).root_page_id == old(self).root_page_id,
            final(self).dirty_ids() == old(self).dirty_ids().insert(page_id),
            dirty_covers(*old(self), *final(self)),
    {
        match self.take_node(page_id) {
            BTreeNode::Leaf(l) => l,
            BTreeNode::Internal(_) => {
                proof {
                    assert(false);
                }
                LeafNode { keys: Vec::new(), values: Vec::new(), next_leaf: NO_PAGE }
            },
        }
    }

    /// Move the internal node out of page `page_id`, leaving an empty leaf
    /// there.
    pub(crate) fn take_internal(&mut self, page_id: u64) -> (r: InternalNode<K>)
        requires
            old(self).wf(),
            page_id < old(self)@.len(),
            old(self)@[page_id as int] is Internal,
        ensures
            final(self).wf(),
            r == old(self)@[page_id as int]->Internal_0,
            final(self)@ == old(self)@.update(page_id as int, final(self)@[page_id as int]),
            final(self).next_page_id == old(self).next_page_id,
            final(self).root_page_id == old(self).root_page_id,
            final(self).dirty_ids() == old(self).dirty_ids().insert(page_id),
            dirty_covers(*old(self), *final(self)),
    {
        match self.take_node(page_id) {
            BTreeNode::Internal(n) => n,
            BTreeNode::Leaf(_) => {
                proof {
                    assert(false);
                }
                InternalNode { keys: Vec::new(), children: Vec::new() }
            },
        }
    }

    /// The ids of the pages written since the last flush, in increasing
    /// order; afterwards no page is dirty.
    pub fn take_dirty(&mut self) -> (r: Vec<u64>)
        requires
            old(self).wf(),
        ensures
            final(self).wf(),
            final(self)@ == old(self)@,
            final(self).next_page_id == old(self).next_page_id,
            final(self).root_page_id == old(self).root_page_id,
            final(self).dirty_ids() == Set::<u64>::empty(),
            r@.to_set() == old(self).dirty_ids(),
            forall|i: int, j: int| 0 <= i < j < r@.len() ==> r@[i] < r@[j],
    {
        let mut r: Vec<u64> = Vec::new();
        let n = self.dirty.len();
        let mut i: usize = 0;
        while i < n
            invariant
                n == self.dirty@.len(),
                self.dirty@.len() == old(self).dirty@.len(),
                self.pages@ == old(self).pages@,
                self.next_page_id == old(self).next_page_id,
                self.root_page_id == old(self).root_page_id,
                old(self).wf(),
                i <= n,
                forall|j: int| 0 <= j < i ==> !self.dirty@[j],
                forall|j: int| i <= j < n ==> self.dirty@[j] == old(self).dirty@[j],
                forall|a: int, b: int| 0 <= a < b < r@.len() ==> r@[a] < r@[b],
                forall|a: int|
                    0 <= a < r@.len() ==> r@[a] < i && old(self).dirty@[r@[a] as int],
                forall|id: u64| id < i && old(self).dirty@[id as int] ==> r@.contains(id),
            decreases n - i,
        {
            if self.dirty[i] {
                proof {
                    let r2 = r@.push(i as u64);
                    assert forall|id: u64| id < i + 1 && old(self).dirty@[id as int] implies r2.contains(
                        id,
                    ) by {
                        if id == i {
                            assert(r2[r@.len() as int] == id);
                        } else {
                            assert(r@.contains(id));
                            let a = choose|a: int| 0 <= a < r@.len() && r@[a] == id;
                            assert(r2[a] == id);
                        }
                    }
                }
                r.push(i as u64);
                self.dirty.set(i, false);
            }
            i = i + 1;
        }
        proof {
            assert(self.dirty_ids() =~= Set::<u64>::empty());
            assert forall|id: u64| r@.to_set().contains(id) == old(self).dirty_ids().contains(id) by {
                if r@.to_set().contains(id) {
                    assert(r@.contains(id));
                    let a = choose|a: int| 0 <= a < r@.len() && r@[a] == id;
                }
            }
            assert(r@.to_set() =~= old(self).dirty_ids());
        }
        r
    }
}

/// Byte offset of page `page_id` in the file: the header takes the first
/// page slot.
pub open spec fn spec_page_offset(page_id: u64) -> int {
    PAGE_SIZE * (page_id + 1)
}

/// Byte offset of page `page_id` in the file.
pub fn page_offset(page_id: u64) -> (r: u64)
    requires
        page_id <= MAX_PAGE_ID,
    ensures
        r == spec_page_offset(page_id),
{
    assert((page_id + 1) * 4096 <= (MAX_PAGE_ID + 1) * 4096) by (nonlinear_arith)
        requires
            page_id <= MAX_PAGE_ID,
    ;
    (page_id + 1) * (PAGE_SIZE as u64)
}

/// The bytes of a page that holds `payload`: its length as a little-endian
/// `u64`, the payload, then zeros up to `PAGE_SIZE`.
pub open spec fn spec_frame(payload: Seq<u8>) -> Seq<u8> {
    spec_u64_to_le_bytes(payload.len() as u64) + payload + Seq::new(
        (PAGE_SIZE - LEN_SIZE - payload.len()) as nat,
        |i: int| 0u8,
    )
}

/// The payload a page holds, when it is a whole page whose length field fits.
pub open spec fn spec_unframe(page: Seq<u8>) -> Option<Seq<u8>> {
    let n = spec_u64_from_le_bytes(page.subrange(0, LEN_SIZE as int));
    if page.len() == PAGE_SIZE && n <= PAGE_SIZE - LEN_SIZE {
        Some(page.subrange(LEN_SIZE as int, LEN_SIZE + n))
    } else {
        None
    }
}

/// The bytes of a page that holds `payload`. A payload that does not fit in
/// a page is refused as a corrupt page.
pub fn frame_page(page_id: u64, payload: &[u8]) -> (r: Result<Vec<u8>, BTreeError>)
    ensures
        match r {
            Ok(page) => payload@.len() <= PAGE_SIZE - LEN_SIZE && page@ == spec_frame(payload@),
            Err(e) => payload@.len() > PAGE_SIZE - LEN_SIZE && e == (BTreeError::CorruptPage { page_id }),
        },
{
    if payload.len() > PAGE_SIZE - LEN_SIZE {
        return Err(BTreeError::CorruptPage { page_id });
    }
    let n = payload.len();
    let mut page = u64_to_le_bytes(n as u64);
    let mut i: usize = 0;
    while i < n
        invariant
            i <= n,
            n == payload@.len(),
            n <= PAGE_SIZE - LEN_SIZE,
            page@ == spec_u64_to_le_bytes(n as u64) + payload@.subrange(0, i as int),
        decreases n - i,
    {
        page.push(payload[i]);
        i = i + 1;
        assert(payload@.subrange(0, i as int) =~= payload@.subrange(0, i - 1) + seq![payload@[i - 1]]);
    }
    let ghost front = page@;
    let mut j: usize = LEN_SIZE + n;
    while j < PAGE_SIZE
        invariant
            LEN_SIZE + n <= j <= PAGE_SIZE,
            page@ == front + Seq::new((j - LEN_SIZE - n) as nat, |i: int| 0u8),
        decreases PAGE_SIZE - j,
    {
        page.push(0u8);
        j = j + 1;
        assert(Seq::new((j - LEN_SIZE - n) as nat, |i: int| 0u8) =~= Seq::new((j - 1 - LEN_SIZE - n) as nat, |i: int| 0u8).push(0u8));
    }
    proof {
        lemma_auto_spec_u64_to_from_le_bytes();
        assert(payload@.subrange(0, n as int) =~= payload@);
    }
    Ok(page)
}

/// The payload of a page; a page of the wrong size, or whose length field
/// does not fit, is refused as a corrupt page.
pub fn unframe_page(page_id: u64, page: &[u8]) -> (r: Result<Vec<u8>, BTreeError>)
    ensures
        match r {
            Ok(payload) => spec_unframe(page@) == Some(payload@),
            Err(e) => spec_unframe(page@) is None && e == (BTreeError::CorruptPage { page_id }),
        },
{
    if page.len() != PAGE_SIZE {
        return Err(BTreeError::CorruptPage { page_id });
    }
    let n = u64_from_le_bytes(slice_subrange(page, 0, LEN_SIZE));
    if n > (PAGE_SIZE - LEN_SIZE) as u64 {
        return Err(BTreeError::CorruptPage { page_id });
    }
    let end = LEN_SIZE + n as usize;
    let payload = slice_to_vec(slice_subrange(page, LEN_SIZE, end));
    Ok(payload)
}

/// Unframing a framed page gives back its payload.
pub proof fn lemma_frame_round_trip(payload: Seq<u8>)
    requires
        payload.len() <= PAGE_SIZE - LEN_SIZE,
    ensures
        spec_unframe(spec_frame(payload)) == Some(payload),
{
    lemma_auto_spec_u64_to_from_le_bytes();
    let page = spec_frame(payload);
    let lb = spec_u64_to_le_bytes(payload.len() as u64);
    assert(page.subrange(0, LEN_SIZE as int) =~= lb);
    assert(page.subrange(LEN_SIZE as int, LEN_SIZE + payload.len()) =~= payload);
}

/// The payloads of the pages `0..count` of a page file.
pub open spec fn spec_page_payloads(file: Seq<u8>, count: u64) -> Option<Seq<Seq<u8>>> {
    if count == 0 || count - 1 <= MAX_PAGE_ID && (forall|id: u64|
        id < count ==> spec_page_offset(id) + PAGE_SIZE <= file.len() && #[trigger] spec_unframe(
            file.subrange(spec_page_offset(id), spec_page_offset(id) + PAGE_SIZE),
        ) is Some) {
        Some(
            Seq::new(
                count as nat,
                |id: int|
                    spec_unframe(file.subrange(spec_page_offset(id as u64), spec_page_offset(id as u64) + PAGE_SIZE))->0,
            ),
        )
    } else {
        None
    }
}

/// A file whose page slots hold the frames of some payloads gives those
/// payloads back.
pub proof fn lemma_payloads_of_frames(file: Seq<u8>, payloads: Seq<Seq<u8>>)
    requires
        payloads.len() <= MAX_PAGE_ID + 1,
        forall|i: int| 0 <= i < payloads.len() ==> (#[trigger] payloads[i]).len() <= PAGE_SIZE - LEN_SIZE,
        forall|i: u64|
            i < payloads.len() ==> spec_page_offset(i) + PAGE_SIZE <= file.len() && #[trigger] file.subrange(
                spec_page_offset(i),
                spec_page_offset(i) + PAGE_SIZE,
            ) == spec_frame(payloads[i as int]),
    ensures
        spec_page_payloads(file, payloads.len() as u64) == Some(payloads),
{
    let count = payloads.len() as u64;
    assert forall|id: u64| id < count implies spec_page_offset(id) + PAGE_SIZE <= file.len() && #[trigger] spec_unframe(
        file.subrange(spec_page_offset(id), spec_page_offset(id) + PAGE_SIZE),
    ) == Some(payloads[id as int]) by {
        lemma_frame_round_trip(payloads[id as int]);
    }
    if count > 0 {
        let s = spec_page_payloads(file, count);
        assert(s is Some);
        assert(s->0 =~= payloads) by {
            assert forall|i: int| 0 <= i < payloads.len() implies s->0[i] == payloads[i] by {
                assert(spec_unframe(file.subrange(spec_page_offset(i as u64), spec_page_offset(i as u64) + PAGE_SIZE)) == Some(payloads[i]));
            }
        }
    } else {
        assert(payloads =~= Seq::<Seq<u8>>::empty());
        assert(Seq::new(0nat, |id: int| spec_unframe(file.subrange(spec_page_offset(id as u64), spec_page_offset(id as u64) + PAGE_SIZE))->0) =~= payloads);
    }
}

/// The payloads of the pages `0..count` of the bytes of a page file. A page
/// that lies past the end of the file, or whose frame is broken, is refused
/// as a corrupt page.
pub fn page_payloads(file: &[u8], count: u64) -> (r: Result<Vec<Vec<u8>>, BTreeError>)
    ensures
        match r {
            Ok(v) => {
                &&& spec_page_payloads(file@, count) is Some
                &&& v@.len() == count
                &&& forall|i: int| 0 <= i < count ==> (#[trigger] v@[i])@ == spec_page_payloads(file@, count)->0[i]
            },
            Err(e) => spec_page_payloads(file@, count) is None && e is CorruptPage,
        },
{
    let mut v: Vec<Vec<u8>> = Vec::new();
    if count == 0 {
        return Ok(v);
    }
    if count - 1 > MAX_PAGE_ID {
        return Err(BTreeError::CorruptPage { page_id: count - 1 });
    }
    let mut id: u64 = 0;
    while id < count
        invariant
            id <= count,
            0 < count,
            count - 1 <= MAX_PAGE_ID,
            v@.len() == id,
            forall|i: u64|
                i < id ==> spec_page_offset(i) + PAGE_SIZE <= file@.len() && #[trigger] spec_unframe(
                    file@.subrange(spec_page_offset(i), spec_page_offset(i) + PAGE_SIZE),
                ) is Some,
            forall|i: int|
                0 <= i < id ==> (#[trigger] v@[i])@ == spec_unframe(
                    file@.subrange(spec_page_offset(i as u64), spec_page_offset(i as u64) + PAGE_SIZE),
                )->0,
        decreases count - id,
    {
        let off = page_offset(id);
        if off as u128 + PAGE_SIZE as u128 > file.len() as u128 {
            proof {
                assert(!(spec_page_offset(id) + PAGE_SIZE <= file@.len() && spec_unframe(
                    file@.subrange(spec_page_offset(id), spec_page_offset(id) + PAGE_SIZE),
                ) is Some));
            }
            return Err(BTreeError::CorruptPage { page_id: id });
        }
        let start = off as usize;
        let page = slice_subrange(file, start, start + PAGE_SIZE);
        match unframe_page(id, page) {
            Ok(payload) => {
                v.push(payload);
            },
            Err(e) => {
                return Err(e);
            },
        }
        id = id + 1;
    }
    proof {
        let s = spec_page_payloads(file@, count);
        assert(s is Some);
        assert forall|i: int| 0 <= i < count implies (#[trigger] v@[i])@ == s->0[i] by {
            assert(i as u64 as int == i);
        }
    }
    Ok(v)
}

/// The 16 header bytes: next page id, then root page id, little-endian.
pub open spec fn spec_header(next_page_id: u64, root_page_id: u64) -> Seq<u8> {
    spec_u64_to_le_bytes(next_page_id) + spec_u64_to_le_bytes(root_page_id)
}

/// Encode the file header.
pub fn encode_header(next_page_id: u64, root_page_id: u64) -> (r: Vec<u8>)
    ensures
        r@ == spec_header(next_page_id, root_page_id),
        r@.len() == HEADER_SIZE,
{
    let mut r = u64_to_le_bytes(next_page_id);
    let mut root = u64_to_le_bytes(root_page_id);
    r.append(&mut root);
    r
}

/// Decode the file header from its first 16 bytes: (next page id, root page id).
pub fn decode_header(bytes: &[u8]) -> (r: (u64, u64))
    requires
        bytes@.len() >= HEADER_SIZE,
    ensures
        r.0 == spec_u64_from_le_bytes(bytes@.subrange(0, 8)),
        r.1 == spec_u64_from_le_bytes(bytes@.subrange(8, 16)),
{
    let next = u64_from_le_bytes(slice_subrange(bytes, 0, 8));
    let root = u64_from_le_bytes(slice_subrange(bytes, 8, 16));
    (next, root)
}

/// Decoding an encoded header gives back the two page ids.
pub proof fn lemma_header_round_trip(next_page_id: u64, root_page_id: u64)
    ensures
        spec_header(next_page_id, root_page_id).len() == HEADER_SIZE,
        spec_u64_from_le_bytes(spec_header(next_page_id, root_page_id).subrange(0, 8))
            == next_page_id,
        spec_u64_from_le_bytes(spec_header(next_page_id, root_page_id).subrange(8, 16))
            == root_page_id,
{
    lemma_auto_spec_u64_to_from_le_bytes();
    let h = spec_header(next_page_id, root_page_id);
    assert(h.subrange(0, 8) =~= spec_u64_to_le_bytes(next_page_id));
    assert(h.subrange(8, 16) =~= spec_u64_to_le_bytes(root_page_id));
}

} // verus!
