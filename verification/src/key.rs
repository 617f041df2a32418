//! Key and value types that the tree can store.
//!
//! A key is ordered through its view by a strict total order; the executable
//! comparison agrees with that order, and copying a key keeps its view.
//! A value is copied exactly.
use vstd::prelude::*;
use vstd::string::*;
use vstd::utf8::*;

verus! {

/// The result of comparing two keys.
pub enum KeyOrdering {
    Less,
    Equal,
    Greater,
}

/// A type that can be used as a key of the tree.
pub trait BTreeKey: Sized + View {
    /// The strict order on key views.
    spec fn key_lt(a: Self::V, b: Self::V) -> bool;

    proof fn lemma_key_lt_irreflexive(a: Self::V)
        ensures
            !Self::key_lt(a, a),
    ;

    proof fn lemma_key_lt_transitive(a: Self::V, b: Self::V, c: Self::V)
        requires
            Self::key_lt(a, b),
            Self::key_lt(b, c),
        ensures
            Self::key_lt(a, c),
    ;

    proof fn lemma_key_lt_total(a: Self::V, b: Self::V)
        ensures
            a == b || Self::key_lt(a, b) || Self::key_lt(b, a),
    ;

    /// Three-way comparison that agrees with `key_lt`.
    fn compare(&self, other: &Self) -> (r: KeyOrdering)
        ensures
            r is Less <==> Self::key_lt(self@, other@),
            r is Equal <==> self@ == other@,
            r is Greater <==> Self::key_lt(other@, self@),
    ;

    /// A copy of the key with the same view.
    fn copy_key(&self) -> (r: Self)
        ensures
            r@ == self@,
    ;
}

/// A type that can be stored as a value of the tree.
pub trait BTreeValue: Sized {
    /// An exact copy of the value.
    fn copy_value(&self) -> (r: Self)
        ensures
            r == *self,
    ;
}

/// Strict order of two keys, as a spec function over key views.
pub open spec fn lt<K: BTreeKey>(a: K::V, b: K::V) -> bool {
    K::key_lt(a, b)
}

/// `a` is below `b`, or equal to it.
pub open spec fn le<K: BTreeKey>(a: K::V, b: K::V) -> bool {
    a == b || lt::<K>(a, b)
}

pub broadcast proof fn lemma_lt_transitive<K: BTreeKey>(a: K::V, b: K::V, c: K::V)
    requires
        #[trigger] lt::<K>(a, b),
        #[trigger] lt::<K>(b, c),
    ensures
        lt::<K>(a, c),
{
    K::lemma_key_lt_transitive(a, b, c);
}

pub broadcast proof fn lemma_lt_irreflexive<K: BTreeKey>(a: K::V)
    ensures
        !(#[trigger] lt::<K>(a, a)),
{
    K::lemma_key_lt_irreflexive(a);
}

pub proof fn lemma_lt_total<K: BTreeKey>(a: K::V, b: K::V)
    ensures
        a == b || lt::<K>(a, b) || lt::<K>(b, a),
{
    K::lemma_key_lt_total(a, b);
}

pub proof fn lemma_lt_asymmetric<K: BTreeKey>(a: K::V, b: K::V)
    requires
        lt::<K>(a, b),
    ensures
        !lt::<K>(b, a),
        a != b,
{
    K::lemma_key_lt_irreflexive(a);
    if lt::<K>(b, a) {
        K::lemma_key_lt_transitive(a, b, a);
    }
}

pub broadcast group group_key_order {
    lemma_lt_transitive,
    lemma_lt_irreflexive,
}

// ---------------------------------------------------------------------------
// Lexicographic order on byte sequences.

/// Strict lexicographic order of byte sequences: the order of `&[u8]` and `str`.
pub open spec fn bytes_lt(a: Seq<u8>, b: Seq<u8>) -> bool
    decreases a.len(),
{
    if b.len() == 0 {
        false
    } else if a.len() == 0 {
        true
    } else if a[0] < b[0] {
        true
    } else if a[0] > b[0] {
        false
    } else {
        bytes_lt(a.drop_first(), b.drop_first())
    }
}

proof fn lemma_bytes_lt_irreflexive(a: Seq<u8>)
    ensures
        !bytes_lt(a, a),
    decreases a.len(),
{
    if a.len() > 0 {
        lemma_bytes_lt_irreflexive(a.drop_first());
    }
}

proof fn lemma_bytes_lt_transitive(a: Seq<u8>, b: Seq<u8>, c: Seq<u8>)
    requires
        bytes_lt(a, b),
        bytes_lt(b, c),
    ensures
        bytes_lt(a, c),
    decreases a.len(),
{
    if a.len() > 0 && b.len() > 0 && c.len() > 0 && a[0] == b[0] && b[0] == c[0] {
        lemma_bytes_lt_transitive(a.drop_first(), b.drop_first(), c.drop_first());
    }
}

proof fn lemma_bytes_lt_total(a: Seq<u8>, b: Seq<u8>)
    ensures
        a == b || bytes_lt(a, b) || bytes_lt(b, a),
    decreases a.len(),
{
    if a.len() == 0 {
        if b.len() == 0 {
            assert(a =~= b);
        }
    } else if b.len() > 0 && a[0] == b[0] {
        lemma_bytes_lt_total(a.drop_first(), b.drop_first());
        if a.drop_first() == b.drop_first() {
            assert(a =~= seq![a[0]] + a.drop_first());
            assert(b =~= seq![b[0]] + b.drop_first());
        }
    }
}

/// Comparing the suffixes after an equal prefix decides the order.
proof fn lemma_bytes_lt_skip(a: Seq<u8>, b: Seq<u8>, i: int)
    requires
        0 <= i <= a.len(),
        i <= b.len(),
        a.subrange(0, i) == b.subrange(0, i),
    ensures
        bytes_lt(a, b) == bytes_lt(a.skip(i), b.skip(i)),
    decreases i,
{
    if i > 0 {
        assert(a[0] == a.subrange(0, i)[0]);
        assert(b[0] == b.subrange(0, i)[0]);
        assert(a.drop_first().subrange(0, i - 1) =~= b.drop_first().subrange(0, i - 1)) by {
            assert forall|j: int| 0 <= j < i - 1 implies a.drop_first()[j] == b.drop_first()[j] by {
                assert(a[j + 1] == a.subrange(0, i)[j + 1]);
                assert(b[j + 1] == b.subrange(0, i)[j + 1]);
            }
        }
        lemma_bytes_lt_skip(a.drop_first(), b.drop_first(), i - 1);
        assert(a.drop_first().skip(i - 1) =~= a.skip(i));
        assert(b.drop_first().skip(i - 1) =~= b.skip(i));
    } else {
        assert(a.skip(0) =~= a);
        assert(b.skip(0) =~= b);
    }
}

/// Three-way lexicographic comparison of two byte slices.
pub fn compare_bytes(a: &[u8], b: &[u8]) -> (r: KeyOrdering)
    ensures
        r is Less <==> bytes_lt(a@, b@),
        r is Equal <==> a@ == b@,
        r is Greater <==> bytes_lt(b@, a@),
        r is Less <==> exists|i: int| first_difference(a@, b@, i),
        r is Greater <==> exists|i: int| first_difference(b@, a@, i),
{
    proof {
        law_bytes_lt_exact(a@, b@);
        law_bytes_lt_exact(b@, a@);
    }
    let mut i: usize = 0;
    while i < a.len() && i < b.len()
        invariant
            0 <= i <= a@.len(),
            i <= b@.len(),
            a@.subrange(0, i as int) == b@.subrange(0, i as int),
            bytes_lt(a@, b@) <==> exists|j: int| first_difference(a@, b@, j),
            bytes_lt(b@, a@) <==> exists|j: int| first_difference(b@, a@, j),
        decreases a.len() - i,
    {
        if a[i] < b[i] {
            proof {
                lemma_bytes_lt_skip(a@, b@, i as int);
                lemma_bytes_lt_skip(b@, a@, i as int);
                lemma_bytes_lt_irreflexive(a@);
                assert(a@[i as int] != b@[i as int]);
                assert(a@.skip(i as int)[0] == a@[i as int]);
                assert(b@.skip(i as int)[0] == b@[i as int]);
            }
            return KeyOrdering::Less;
        }
        if a[i] > b[i] {
            proof {
                lemma_bytes_lt_skip(a@, b@, i as int);
                lemma_bytes_lt_skip(b@, a@, i as int);
                assert(a@[i as int] != b@[i as int]);
                assert(a@.skip(i as int)[0] == a@[i as int]);
                assert(b@.skip(i as int)[0] == b@[i as int]);
            }
            return KeyOrdering::Greater;
        }
        proof {
            assert(a@.subrange(0, i + 1) =~= a@.subrange(0, i as int).push(a@[i as int]));
            assert(b@.subrange(0, i + 1) =~= b@.subrange(0, i as int).push(b@[i as int]));
        }
        i = i + 1;
    }
    proof {
        lemma_bytes_lt_skip(a@, b@, i as int);
        lemma_bytes_lt_skip(b@, a@, i as int);
    }
    if i < b.len() {
        proof {
            assert(a@ =~= a@.subrange(0, i as int));
            assert(a@ != b@);
        }
        KeyOrdering::Less
    } else if i < a.len() {
        proof {
            assert(b@ =~= b@.subrange(0, i as int));
            assert(a@ != b@);
        }
        KeyOrdering::Greater
    } else {
        proof {
            assert(a@ =~= a@.subrange(0, i as int));
            assert(b@ =~= b@.subrange(0, i as int));
        }
        KeyOrdering::Equal
    }
}


/// Bytes `a` and `b` first differ at position `i`, where `a` is the lower:
/// they agree before `i`, and there either `a`'s byte, read as an unsigned
/// number, is smaller than `b`'s, or `a` has ended while `b` goes on.
pub open spec fn first_difference(a: Seq<u8>, b: Seq<u8>, i: int) -> bool {
    &&& 0 <= i <= a.len()
    &&& i <= b.len()
    &&& a.subrange(0, i) == b.subrange(0, i)
    &&& if i < a.len() {
        i < b.len() && (a[i] as int) < (b[i] as int)
    } else {
        i < b.len()
    }
}

/// Byte sequences are ordered by their first difference: where `a` and `b`
/// first differ at `i` with `a` the lower (a smaller unsigned byte, or the
/// end of `a`), `a` comes before `b` and not after it.
pub proof fn law_bytes_order(a: Seq<u8>, b: Seq<u8>, i: int)
    requires
        first_difference(a, b, i),
    ensures
        bytes_lt(a, b),
        !bytes_lt(b, a),
{
    lemma_bytes_lt_skip(a, b, i);
    lemma_bytes_lt_skip(b, a, i);
    let sa = a.skip(i);
    let sb = b.skip(i);
    assert(sb.len() > 0 && sb[0] == b[i]);
    if i < a.len() {
        assert(sa.len() > 0 && sa[0] == a[i]);
    } else {
        assert(sa.len() == 0);
    }
}

/// Two different byte sequences first differ somewhere, one way or the
/// other.
proof fn lemma_first_difference_exists(a: Seq<u8>, b: Seq<u8>)
    requires
        a != b,
    ensures
        exists|i: int| first_difference(a, b, i) || first_difference(b, a, i),
    decreases a.len(),
{
    assert(a.subrange(0, 0) =~= b.subrange(0, 0));
    if a.len() == 0 {
        if b.len() == 0 {
            assert(a =~= b);
        }
        assert(first_difference(a, b, 0));
    } else if b.len() == 0 {
        assert(first_difference(b, a, 0));
    } else if a[0] != b[0] {
        if a[0] < b[0] {
            assert(first_difference(a, b, 0));
        } else {
            assert(first_difference(b, a, 0));
        }
    } else {
        let ta = a.drop_first();
        let tb = b.drop_first();
        if ta == tb {
            assert(a =~= seq![a[0]] + ta);
            assert(b =~= seq![b[0]] + tb);
        }
        lemma_first_difference_exists(ta, tb);
        let j = choose|j: int| first_difference(ta, tb, j) || first_difference(tb, ta, j);
        assert(a.subrange(0, j + 1) =~= seq![a[0]] + ta.subrange(0, j));
        assert(b.subrange(0, j + 1) =~= seq![b[0]] + tb.subrange(0, j));
        if first_difference(ta, tb, j) {
            if j < ta.len() {
                assert(a[j + 1] == ta[j] && b[j + 1] == tb[j]);
            }
            assert(first_difference(a, b, j + 1));
        } else {
            if j < tb.len() {
                assert(a[j + 1] == ta[j] && b[j + 1] == tb[j]);
            }
            assert(first_difference(b, a, j + 1));
        }
    }
}

/// `bytes_lt` is exactly the first-difference order: `a` comes before `b`
/// if and only if they first differ with `a` the lower.
pub proof fn law_bytes_lt_exact(a: Seq<u8>, b: Seq<u8>)
    ensures
        bytes_lt(a, b) <==> exists|i: int| first_difference(a, b, i),
{
    if exists|i: int| first_difference(a, b, i) {
        let i = choose|i: int| first_difference(a, b, i);
        law_bytes_order(a, b, i);
    }
    if bytes_lt(a, b) {
        lemma_bytes_lt_irreflexive(a);
        lemma_first_difference_exists(a, b);
        let i = choose|i: int| first_difference(a, b, i) || first_difference(b, a, i);
        if first_difference(b, a, i) {
            law_bytes_order(b, a, i);
        }
    }
}

/// String keys are ordered as `String`'s `Ord` orders them: `a` comes before
/// `b` exactly when their UTF-8 encodings first differ with `a`'s the
/// lower, bytes read as unsigned numbers.
pub proof fn law_string_order(a: Seq<char>, b: Seq<char>)
    ensures
        <String as BTreeKey>::key_lt(a, b) <==> exists|i: int| first_difference(encode_utf8(a), encode_utf8(b), i),
{
    law_bytes_lt_exact(encode_utf8(a), encode_utf8(b));
}

/// `u64` keys are ordered as numbers.
pub proof fn law_u64_order()
    ensures
        forall|a: u64, b: u64| #[trigger] <u64 as BTreeKey>::key_lt(a, b) <==> (a as int) < (b as int),
{
}

/// `u32` keys are ordered as numbers.
pub proof fn law_u32_order()
    ensures
        forall|a: u32, b: u32| #[trigger] <u32 as BTreeKey>::key_lt(a, b) <==> (a as int) < (b as int),
{
}

// ---------------------------------------------------------------------------
// Instances.

impl BTreeKey for u64 {
    open spec fn key_lt(a: u64, b: u64) -> bool {
        a < b
    }

    proof fn lemma_key_lt_irreflexive(a: u64) {
    }

    proof fn lemma_key_lt_transitive(a: u64, b: u64, c: u64) {
    }

    proof fn lemma_key_lt_total(a: u64, b: u64) {
    }

    fn compare(&self, other: &u64) -> (r: KeyOrdering) {
        if *self < *other {
            KeyOrdering::Less
        } else if *self == *other {
            KeyOrdering::Equal
        } else {
            KeyOrdering::Greater
        }
    }

    fn copy_key(&self) -> (r: u64) {
        *self
    }
}

impl BTreeKey for u32 {
    open spec fn key_lt(a: u32, b: u32) -> bool {
        a < b
    }

    proof fn lemma_key_lt_irreflexive(a: u32) {
    }

    proof fn lemma_key_lt_transitive(a: u32, b: u32, c: u32) {
    }

    proof fn lemma_key_lt_total(a: u32, b: u32) {
    }

    fn compare(&self, other: &u32) -> (r: KeyOrdering) {
        if *self < *other {
            KeyOrdering::Less
        } else if *self == *other {
            KeyOrdering::Equal
        } else {
            KeyOrdering::Greater
        }
    }

    fn copy_key(&self) -> (r: u32) {
        *self
    }
}

/// Strings are ordered as `String`'s `Ord` orders them: by their UTF-8 bytes.
impl BTreeKey for String {
    open spec fn key_lt(a: Seq<char>, b: Seq<char>) -> bool {
        bytes_lt(encode_utf8(a), encode_utf8(b))
    }

    proof fn lemma_key_lt_irreflexive(a: Seq<char>) {
        lemma_bytes_lt_irreflexive(encode_utf8(a));
    }

    proof fn lemma_key_lt_transitive(a: Seq<char>, b: Seq<char>, c: Seq<char>) {
        lemma_bytes_lt_transitive(encode_utf8(a), encode_utf8(b), encode_utf8(c));
    }

    proof fn lemma_key_lt_total(a: Seq<char>, b: Seq<char>) {
        lemma_bytes_lt_total(encode_utf8(a), encode_utf8(b));
        encode_utf8_decode_utf8(a);
        encode_utf8_decode_utf8(b);
    }

    fn compare(&self, other: &String) -> (r: KeyOrdering)
        ensures
            r is Less <==> exists|i: int| first_difference(encode_utf8(self@), encode_utf8(other@), i),
            r is Greater <==> exists|i: int| first_difference(encode_utf8(other@), encode_utf8(self@), i),
    {
        let a = self.as_str().as_bytes();
        let b = other.as_str().as_bytes();
        let r = compare_bytes(a, b);
        proof {
            encode_utf8_decode_utf8(self@);
            encode_utf8_decode_utf8(other@);
        }
        r
    }

    fn copy_key(&self) -> (r: String) {
        self.clone()
    }
}

impl BTreeValue for u64 {
    fn copy_value(&self) -> (r: u64) {
        *self
    }
}

impl BTreeValue for u32 {
    fn copy_value(&self) -> (r: u32) {
        *self
    }
}

impl BTreeValue for String {
    fn copy_value(&self) -> (r: String) {
        self.clone()
    }
}

} // verus!
