use vstd::prelude::*;
use crate::key::{Key, key_lt};
use crate::value::Value;

verus! {

/// `None` marks a deleted key (a tombstone).
pub type ValueWithTag = Option<Value>;

/// One entry as the store iterates it: a key and its value or tombstone.
pub type KVIterItem = (Key, Option<Value>);

/// An entry as plain bytes: the key, and the value or `None` for a tombstone.
pub type EntryModel = (Seq<u8>, Option<Seq<u8>>);

/// What went wrong in an operation of the store.
#[derive(Debug, PartialEq, Eq, Clone, Copy)]
pub enum MyError {
    /// Bytes that do not follow the table, block or record format.
    Corruption,
    /// A key at or over the key size limit.
    KeyTooLarge,
    /// A value at or over the value size limit.
    ValueTooLarge,
    /// A table id that the store does not hold.
    MissingTable,
    /// No file id is left to hand out.
    IdsExhausted,
    /// Entries too many for one table.
    TableTooLarge,
    /// A setting out of its range, such as a table size of 0.
    InvalidConfig,
    /// An empty value, which the table format cannot tell from a tombstone.
    EmptyValue,
    /// The tables broke an invariant; the store takes no more writes.
    Stopped,
}

pub open spec fn tag_view(v: Option<Value>) -> Option<Seq<u8>> {
    match v {
        Some(x) => Some(x@),
        None => None,
    }
}

pub open spec fn found_view(v: Option<ValueWithTag>) -> Option<Option<Seq<u8>>> {
    match v {
        Some(t) => Some(tag_view(t)),
        None => None,
    }
}

pub open spec fn item_view(e: KVIterItem) -> EntryModel {
    (e.0@, tag_view(e.1))
}

pub open spec fn items_view(s: Seq<KVIterItem>) -> Seq<EntryModel> {
    s.map_values(|e: KVIterItem| item_view(e))
}

/// Keys strictly increase along `s`.
pub open spec fn strictly_sorted(s: Seq<EntryModel>) -> bool {
    forall|i: int, j: int| 0 <= i < j < s.len() ==> key_lt(#[trigger] s[i].0, #[trigger] s[j].0)
}

/// The entry that `s` holds for `key`, the first one if several do.
pub open spec fn lookup(s: Seq<EntryModel>, key: Seq<u8>) -> Option<Option<Seq<u8>>>
    decreases s.len(),
{
    if s.len() == 0 {
        None
    } else if s[0].0 == key {
        Some(s[0].1)
    } else {
        lookup(s.drop_first(), key)
    }
}

pub proof fn lemma_lookup_none(s: Seq<EntryModel>, key: Seq<u8>)
    ensures
        lookup(s, key) is None <==> forall|i: int| 0 <= i < s.len() ==> #[trigger] s[i].0 != key,
    decreases s.len(),
{
    if s.len() > 0 {
        lemma_lookup_none(s.drop_first(), key);
        if s[0].0 != key {
            assert forall|i: int| 0 <= i < s.len() && #[trigger] s[i].0 == key implies i > 0
                && s.drop_first()[i - 1].0 == key by {}
        }
    }
}

pub proof fn lemma_lookup_at(s: Seq<EntryModel>, key: Seq<u8>, i: int)
    requires
        0 <= i < s.len(),
        s[i].0 == key,
        forall|j: int| 0 <= j < i ==> #[trigger] s[j].0 != key,
    ensures
        lookup(s, key) == Some(s[i].1),
    decreases s.len(),
{
    if i > 0 {
        lemma_lookup_at(s.drop_first(), key, i - 1);
    }
}

pub proof fn lemma_lookup_append(a: Seq<EntryModel>, b: Seq<EntryModel>, key: Seq<u8>)
    ensures
        lookup(a + b, key) == (if lookup(a, key) is Some {
            lookup(a, key)
        } else {
            lookup(b, key)
        }),
    decreases a.len(),
{
    if a.len() > 0 {
        assert((a + b).drop_first() =~= a.drop_first() + b);
        lemma_lookup_append(a.drop_first(), b, key);
    } else {
        assert(a + b =~= b);
    }
}

/// A copy of an entry with the same bytes.
pub fn copy_item(e: &KVIterItem) -> (r: KVIterItem)
    ensures
        item_view(r) == item_view(*e),
{
    let v = match &e.1 {
        Some(x) => Some(x.duplicate()),
        None => None,
    };
    (e.0.duplicate(), v)
}

} // verus!
