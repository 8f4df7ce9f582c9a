use vstd::prelude::*;
use vstd::string::StringSliceAdditionalSpecFns;
use crate::key::copy_bytes;

verus! {

/// Longest value the store accepts, in bytes.
pub const VALUE_SIZE_LIMIT: usize = 1024;

/// An owned value: a byte string.
#[derive(Clone, Debug, PartialEq, Eq, PartialOrd, Ord)]
pub struct Value {
    v: Vec<u8>,
}

impl View for Value {
    type V = Seq<u8>;

    closed spec fn view(&self) -> Seq<u8> {
        self.v@
    }
}

/// A value's bytes held as their own copy.
#[derive(Clone, Debug, PartialEq, Eq, PartialOrd, Ord)]
pub struct ValueSlice {
    bytes: Vec<u8>,
}

impl View for ValueSlice {
    type V = Seq<u8>;

    closed spec fn view(&self) -> Seq<u8> {
        self.bytes@
    }
}

impl ValueSlice {
    pub fn new(v: &[u8]) -> (r: ValueSlice)
        ensures
            r@ == v@,
    {
        ValueSlice { bytes: copy_bytes(v) }
    }

    pub fn len(&self) -> (r: usize)
        ensures
            r == self@.len(),
    {
        self.bytes.len()
    }

    pub fn data(&self) -> (r: &[u8])
        ensures
            r@ == self@,
    {
        self.bytes.as_slice()
    }

    /// The bytes read as text, invalid UTF-8 replaced.
    pub fn to_string(&self) -> (r: String)
        ensures
            r@ == crate::text::lossy_text(self@),
    {
        crate::text::bytes_to_text(self.bytes.as_slice())
    }
}

impl Value {
    pub fn from_u8(s: &[u8]) -> (r: Value)
        ensures
            r@ == s@,
    {
        Value { v: copy_bytes(s) }
    }

    pub fn from_vec(v: Vec<u8>) -> (r: Value)
        ensures
            r@ == v@,
    {
        Value { v }
    }

    pub fn new(s: &str) -> (r: Value)
        requires
            s.spec_bytes().len() <= VALUE_SIZE_LIMIT,
        ensures
            r@ == s.spec_bytes(),
    {
        Value { v: copy_bytes(s.as_bytes()) }
    }

    pub fn data(&self) -> (r: &[u8])
        ensures
            r@ == self@,
    {
        self.v.as_slice()
    }

    pub fn len(&self) -> (r: usize)
        ensures
            r == self@.len(),
    {
        self.v.len()
    }

    /// A copy whose bytes are known to equal these.
    pub fn duplicate(&self) -> (r: Value)
        ensures
            r@ == self@,
    {
        Value { v: copy_bytes(self.v.as_slice()) }
    }
}

} // verus!
