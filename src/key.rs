use vstd::prelude::*;
use vstd::slice::slice_to_vec;
use vstd::string::StringSliceAdditionalSpecFns;

verus! {

/// Longest key the store accepts, in bytes.
pub const KEY_SIZE_LIMIT: usize = 1024;

/// Three-way lexicographic comparison of `a` and `b` starting at position `i`:
/// -1 when `a` sorts first, 1 when `b` does, 0 when the tails are equal.
pub open spec fn cmp_from(a: Seq<u8>, b: Seq<u8>, i: nat) -> int
    decreases a.len() - i,
{
    if i >= a.len() {
        if i >= b.len() {
            0
        } else {
            -1
        }
    } else if i >= b.len() {
        1
    } else if a[i as int] < b[i as int] {
        -1
    } else if a[i as int] > b[i as int] {
        1
    } else {
        cmp_from(a, b, i + 1)
    }
}

/// Lexicographic byte order on keys.
pub open spec fn key_cmp(a: Seq<u8>, b: Seq<u8>) -> int {
    cmp_from(a, b, 0)
}

pub open spec fn key_lt(a: Seq<u8>, b: Seq<u8>) -> bool {
    key_cmp(a, b) < 0
}

pub open spec fn key_le(a: Seq<u8>, b: Seq<u8>) -> bool {
    key_cmp(a, b) <= 0
}

pub proof fn lemma_cmp_from_antisym(a: Seq<u8>, b: Seq<u8>, i: nat)
    ensures
        cmp_from(a, b, i) == -cmp_from(b, a, i),
    decreases a.len() - i,
{
    if i < a.len() && i < b.len() && a[i as int] == b[i as int] {
        lemma_cmp_from_antisym(a, b, i + 1);
    }
}

pub proof fn lemma_cmp_from_eq(a: Seq<u8>, b: Seq<u8>, i: nat)
    requires
        i <= a.len(),
        i <= b.len(),
        a.subrange(0, i as int) == b.subrange(0, i as int),
    ensures
        cmp_from(a, b, i) == 0 <==> a == b,
    decreases a.len() - i,
{
    if i < a.len() && i < b.len() && a[i as int] == b[i as int] {
        assert(a.subrange(0, (i + 1) as int) =~= a.subrange(0, i as int).push(a[i as int]));
        assert(b.subrange(0, (i + 1) as int) =~= b.subrange(0, i as int).push(b[i as int]));
        lemma_cmp_from_eq(a, b, i + 1);
    } else if i == a.len() && i == b.len() {
        assert(a =~= a.subrange(0, i as int));
        assert(b =~= b.subrange(0, i as int));
    } else if i < a.len() && i < b.len() {
        assert(a[i as int] != b[i as int]);
    } else {
        assert(a.len() != b.len());
    }
}

pub proof fn lemma_cmp_from_trans(a: Seq<u8>, b: Seq<u8>, c: Seq<u8>, i: nat)
    requires
        cmp_from(a, b, i) < 0,
        cmp_from(b, c, i) < 0,
    ensures
        cmp_from(a, c, i) < 0,
    decreases a.len() - i,
{
    if i < a.len() && i < b.len() && i < c.len() && a[i as int] == b[i as int] && b[i as int]
        == c[i as int] {
        lemma_cmp_from_trans(a, b, c, i + 1);
    }
}

/// The byte order is a strict total order.
pub proof fn lemma_key_order(a: Seq<u8>, b: Seq<u8>)
    ensures
        key_cmp(a, b) == -key_cmp(b, a),
        key_cmp(a, b) == 0 <==> a == b,
        -1 <= key_cmp(a, b) <= 1,
{
    lemma_cmp_from_antisym(a, b, 0);
    assert(a.subrange(0, 0) =~= b.subrange(0, 0));
    lemma_cmp_from_eq(a, b, 0);
    lemma_cmp_range(a, b, 0);
}

pub proof fn lemma_cmp_range(a: Seq<u8>, b: Seq<u8>, i: nat)
    ensures
        -1 <= cmp_from(a, b, i) <= 1,
    decreases a.len() - i,
{
    if i < a.len() && i < b.len() && a[i as int] == b[i as int] {
        lemma_cmp_range(a, b, i + 1);
    }
}

pub proof fn lemma_key_lt_trans(a: Seq<u8>, b: Seq<u8>, c: Seq<u8>)
    requires
        key_lt(a, b),
        key_lt(b, c),
    ensures
        key_lt(a, c),
{
    lemma_cmp_from_trans(a, b, c, 0);
}

pub proof fn lemma_key_le_lt_trans(a: Seq<u8>, b: Seq<u8>, c: Seq<u8>)
    requires
        key_le(a, b),
        key_lt(b, c),
    ensures
        key_lt(a, c),
{
    lemma_key_order(a, b);
    if a != b {
        lemma_cmp_from_trans(a, b, c, 0);
    }
}

pub proof fn lemma_key_lt_le_trans(a: Seq<u8>, b: Seq<u8>, c: Seq<u8>)
    requires
        key_lt(a, b),
        key_le(b, c),
    ensures
        key_lt(a, c),
{
    lemma_key_order(b, c);
    if b != c {
        lemma_cmp_from_trans(a, b, c, 0);
    }
}

/// Compares two byte strings in lexicographic order.
pub fn compare_bytes(a: &[u8], b: &[u8]) -> (r: i8)
    ensures
        r as int == key_cmp(a@, b@),
{
    let mut i: usize = 0;
    while i < a.len() && i < b.len()
        invariant
            i <= a@.len(),
            i <= b@.len(),
            cmp_from(a@, b@, i as nat) == cmp_from(a@, b@, 0),
        decreases a@.len() - i,
    {
        if a[i] < b[i] {
            return -1;
        }
        if a[i] > b[i] {
            return 1;
        }
        i = i + 1;
    }
    if i < a.len() {
        1
    } else if i < b.len() {
        -1
    } else {
        0
    }
}

/// Byte-wise equality.
pub fn bytes_equal(a: &[u8], b: &[u8]) -> (r: bool)
    ensures
        r == (a@ == b@),
{
    if a.len() != b.len() {
        return false;
    }
    let mut i: usize = 0;
    while i < a.len()
        invariant
            a@.len() == b@.len(),
            i <= a@.len(),
            forall|j: int| 0 <= j < i ==> a@[j] == b@[j],
        decreases a@.len() - i,
    {
        if a[i] != b[i] {
            return false;
        }
        i = i + 1;
    }
    assert(a@ =~= b@);
    true
}

/// Copies a byte vector element by element.
pub fn copy_bytes(v: &[u8]) -> (r: Vec<u8>)
    ensures
        r@ == v@,
{
    slice_to_vec(v)
}

/// An owned key: a byte string ordered lexicographically.
#[derive(Debug, PartialEq, Eq, PartialOrd, Ord, Hash)]
pub struct Key {
    k: Vec<u8>,
}

impl Key {
    #[verifier::type_invariant]
    spec fn bounded(&self) -> bool {
        self.k@.len() <= KEY_SIZE_LIMIT
    }
}

impl Clone for Key {
    fn clone(&self) -> (r: Key)
        ensures
            r@ == self@,
    {
        self.duplicate()
    }
}

impl View for Key {
    type V = Seq<u8>;

    closed spec fn view(&self) -> Seq<u8> {
        self.k@
    }
}

/// A borrowed-style view of key bytes, kept as its own copy.
#[derive(Clone, Debug, PartialEq, Eq, PartialOrd, Ord, Hash)]
pub struct KeySlice {
    bytes: Vec<u8>,
}

impl View for KeySlice {
    type V = Seq<u8>;

    closed spec fn view(&self) -> Seq<u8> {
        self.bytes@
    }
}

impl KeySlice {
    pub fn new(data: &[u8]) -> (r: KeySlice)
        ensures
            r@ == data@,
    {
        KeySlice { bytes: copy_bytes(data) }
    }

    pub fn len(&self) -> (r: usize)
        ensures
            r == self@.len(),
    {
        self.bytes.len()
    }

    pub fn data(&self) -> (r: &[u8])
        ensures
            r@ == self@,
    {
        self.bytes.as_slice()
    }

    /// Three-way comparison in byte order.
    pub fn compare(&self, other: &KeySlice) -> (r: i8)
        ensures
            r as int == key_cmp(self@, other@),
    {
        compare_bytes(self.bytes.as_slice(), other.bytes.as_slice())
    }

    pub fn equal(&self, other: &KeySlice) -> (r: bool)
        ensures
            r == (self@ == other@),
    {
        bytes_equal(self.bytes.as_slice(), other.bytes.as_slice())
    }

    /// The key's bytes read as text, invalid UTF-8 replaced.
    pub fn to_string(&self) -> (r: String)
        ensures
            r@ == crate::text::lossy_text(self@),
    {
        crate::text::bytes_to_text(self.bytes.as_slice())
    }
}

impl Key {
    pub fn new(s: &str) -> (r: Key)
        requires
            s.spec_bytes().len() <= KEY_SIZE_LIMIT,
        ensures
            r@ == s.spec_bytes(),
    {
        Key { k: copy_bytes(s.as_bytes()) }
    }

    /// The decimal digits of `i` as a key.
    pub fn from_u32(i: u32) -> (r: Key)
        ensures
            r@ == crate::text::decimal(i as nat),
    {
        proof {
            crate::text::lemma_decimal_u32_len(i as nat);
        }
        Key { k: crate::text::u32_to_decimal(i) }
    }

    pub fn from(s: &[u8]) -> (r: Key)
        requires
            s@.len() <= KEY_SIZE_LIMIT,
        ensures
            r@ == s@,
    {
        Key { k: copy_bytes(s) }
    }

    pub fn from_u8_vec(v: Vec<u8>) -> (r: Key)
        requires
            v@.len() <= KEY_SIZE_LIMIT,
        ensures
            r@ == v@,
    {
        Key { k: v }
    }

    /// The key's bytes read as text, invalid UTF-8 replaced.
    pub fn to_string(&self) -> (r: String)
        ensures
            r@ == crate::text::lossy_text(self@),
    {
        crate::text::bytes_to_text(self.k.as_slice())
    }

    pub fn data(&self) -> (r: &[u8])
        ensures
            r@ == self@,
    {
        self.k.as_slice()
    }

    pub fn len(&self) -> (r: usize)
        ensures
            r == self@.len(),
            r <= KEY_SIZE_LIMIT,
    {
        proof {
            use_type_invariant(self);
        }
        self.k.len()
    }

    pub fn equal_u8(&self, data: &[u8]) -> (r: bool)
        ensures
            r == (self@ == data@),
    {
        bytes_equal(self.k.as_slice(), data)
    }

    /// Three-way comparison in byte order.
    pub fn compare(&self, other: &Key) -> (r: i8)
        ensures
            r as int == key_cmp(self@, other@),
    {
        compare_bytes(self.k.as_slice(), other.k.as_slice())
    }

    pub fn lt(&self, other: &Key) -> (r: bool)
        ensures
            r == key_lt(self@, other@),
    {
        self.compare(other) < 0
    }

    pub fn le(&self, other: &Key) -> (r: bool)
        ensures
            r == key_le(self@, other@),
    {
        self.compare(other) <= 0
    }

    pub fn equal(&self, other: &Key) -> (r: bool)
        ensures
            r == (self@ == other@),
    {
        bytes_equal(self.k.as_slice(), other.k.as_slice())
    }

    /// A copy whose bytes are known to equal these.
    pub fn duplicate(&self) -> (r: Key)
        ensures
            r@ == self@,
    {
        proof {
            use_type_invariant(self);
        }
        Key { k: copy_bytes(self.k.as_slice()) }
    }
}

} // verus!
