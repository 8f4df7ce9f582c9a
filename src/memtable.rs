use vstd::prelude::*;
use vstd::string::StringSliceAdditionalSpecFns;
use crate::common::{
    EntryModel, KVIterItem, ValueWithTag, copy_item, found_view, item_view, items_view, lookup,
    lemma_lookup_at, lemma_lookup_none, strictly_sorted, tag_view,
};
use crate::key::{Key, key_lt, lemma_key_order, lemma_key_lt_trans, KEY_SIZE_LIMIT};
use crate::value::Value;

verus! {

/// In a sorted sequence, the lookup of a key is the entry at its one position.
pub proof fn lemma_sorted_lookup(s: Seq<EntryModel>, key: Seq<u8>)
    requires
        strictly_sorted(s),
    ensures
        lookup(s, key) is Some <==> exists|i: int| 0 <= i < s.len() && #[trigger] s[i].0 == key,
        forall|i: int| 0 <= i < s.len() && #[trigger] s[i].0 == key ==> lookup(s, key) == Some(s[i].1),
{
    lemma_lookup_none(s, key);
    assert forall|i: int| 0 <= i < s.len() && #[trigger] s[i].0 == key implies lookup(s, key) == Some(
        s[i].1,
    ) by {
        assert forall|j: int| 0 <= j < i implies #[trigger] s[j].0 != key by {
            lemma_key_order(s[j].0, s[i].0);
        }
        lemma_lookup_at(s, key, i);
    }
}

/// The in-memory table of recent writes: entries kept sorted by key.
pub struct Memtable {
    entries: Vec<KVIterItem>,
    size: usize,
}

impl View for Memtable {
    type V = Seq<EntryModel>;

    closed spec fn view(&self) -> Seq<EntryModel> {
        items_view(self.entries@)
    }
}

impl Memtable {
    #[verifier::type_invariant]
    spec fn sorted(&self) -> bool {
        &&& strictly_sorted(items_view(self.entries@))
        &&& forall|i: int|
            0 <= i < self.entries@.len() ==> crate::block::encodable(
                #[trigger] items_view(self.entries@)[i],
            )
    }

    pub fn new() -> (r: Memtable)
        ensures
            r@ == Seq::<EntryModel>::empty(),
            r.approximate_size() == 0,
    {
        let r = Memtable { entries: Vec::new(), size: 0 };
        proof {
            assert(items_view(r.entries@) =~= Seq::<EntryModel>::empty());
        }
        r
    }

    /// Bytes of keys and values inserted so far, saturating.
    pub closed spec fn approximate_size(&self) -> nat {
        self.size as nat
    }

    pub fn size(&self) -> (r: usize)
        ensures
            r == self.approximate_size(),
    {
        self.size
    }

    pub fn len(&self) -> (r: usize)
        ensures
            r == self@.len(),
    {
        self.entries.len()
    }

    /// Index of the first entry whose key does not sort before `key`.
    fn position(&self, key: &Key) -> (r: usize)
        ensures
            r <= self@.len(),
            forall|i: int| 0 <= i < r ==> key_lt(#[trigger] self@[i].0, key@),
            forall|i: int| r <= i < self@.len() ==> !key_lt(#[trigger] self@[i].0, key@),
    {
        proof {
            use_type_invariant(self);
        }
        let mut lo: usize = 0;
        let mut hi: usize = self.entries.len();
        while lo < hi
            invariant
                strictly_sorted(self@),
                lo <= hi <= self@.len(),
                forall|i: int| 0 <= i < lo ==> key_lt(#[trigger] self@[i].0, key@),
                forall|i: int| hi <= i < self@.len() ==> !key_lt(#[trigger] self@[i].0, key@),
            decreases hi - lo,
        {
            let mid = lo + (hi - lo) / 2;
            let ghost m = mid as int;
            proof {
                assert(self@[m] == item_view(self.entries@[m]));
            }
            if self.entries[mid].0.lt(key) {
                proof {
                    assert forall|i: int| 0 <= i < mid + 1 implies key_lt(#[trigger] self@[i].0, key@) by {
                        if i < m {
                            lemma_key_lt_trans(self@[i].0, self@[m].0, key@);
                        }
                    }
                }
                lo = mid + 1;
            } else {
                proof {
                    assert forall|i: int| mid <= i < self@.len() implies !key_lt(
                        #[trigger] self@[i].0,
                        key@,
                    ) by {
                        if i > m && key_lt(self@[i].0, key@) {
                            lemma_key_lt_trans(self@[m].0, self@[i].0, key@);
                        }
                    }
                }
                hi = mid;
            }
        }
        lo
    }

    /// Sets the entry of `key`, a tombstone when `value` is `None`, in place of
    /// any entry it had.
    pub fn insert_option_value(&mut self, key: Key, value: ValueWithTag)
        requires
            crate::block::encodable(item_view((key, value))),
        ensures
            lookup(final(self)@, key@) == Some(tag_view(value)),
            forall|k: Seq<u8>| k != key@ ==> lookup(final(self)@, k) == lookup(old(self)@, k),
            final(self).approximate_size() == if old(self).approximate_size() + key@.len() + match value {
                Some(v) => v@.len(),
                None => 0,
            } > usize::MAX {
                usize::MAX as nat
            } else {
                old(self).approximate_size() + key@.len() + match value {
                    Some(v) => v@.len(),
                    None => 0,
                }
            },
    {
        proof {
            use_type_invariant(&*self);
        }
        let ghost old_v = self@;
        let p = self.position(&key);
        let vlen: usize = match &value {
            Some(v) => v.len(),
            None => 0,
        };
        let kl = key.len();
        let grown = self.size.saturating_add(kl).saturating_add(vlen);
        let ghost e = item_view((key, value));
        let found = p < self.entries.len() && self.entries[p].0.equal(&key);
        let mut entries: Vec<KVIterItem> = Vec::new();
        std::mem::swap(&mut entries, &mut self.entries);
        assert(items_view(entries@) == old_v);
        let ghost before = entries@;
        if found {
            entries.remove(p);
        }
        entries.insert(p, (key, value));
        let ghost nv = items_view(entries@);
        proof {
            let rest_start: int = if found { p as int + 1 } else { p as int };
            assert(nv =~= old_v.subrange(0, p as int) + seq![e] + old_v.subrange(rest_start, old_v.len() as int));
            assert forall|ob: int| rest_start <= ob < old_v.len() implies key_lt(e.0, #[trigger] old_v[ob].0) by {
                assert(!key_lt(old_v[ob].0, key@));
                lemma_key_order(old_v[ob].0, key@);
                if ob > p {
                    assert(key_lt(old_v[p as int].0, old_v[ob].0));
                    assert(!key_lt(old_v[p as int].0, key@));
                    lemma_key_order(old_v[p as int].0, key@);
                    if old_v[p as int].0 != key@ {
                        lemma_key_lt_trans(key@, old_v[p as int].0, old_v[ob].0);
                    }
                } else {
                    assert(!found);
                    assert(old_v[p as int] == item_view(before[p as int]));
                }
            }
            assert forall|a: int, b: int| 0 <= a < b < nv.len() implies key_lt(#[trigger] nv[a].0, #[trigger] nv[b].0) by {
                let oa = if a < p { a } else { a - p - 1 + rest_start };
                let ob = if b < p { b } else { b - p - 1 + rest_start };
                if a < p {
                    assert(nv[a] == old_v[oa]);
                    assert(key_lt(old_v[oa].0, key@));
                }
                if b < p {
                    assert(nv[b] == old_v[ob]);
                } else if b == p {
                    assert(nv[b] == e);
                } else {
                    assert(nv[b] == old_v[ob]);
                    assert(key_lt(e.0, old_v[ob].0));
                    if a < p {
                        lemma_key_lt_trans(old_v[oa].0, e.0, old_v[ob].0);
                    } else if a > p {
                        assert(nv[a] == old_v[oa]);
                        assert(oa < ob);
                    }
                }
            }
            lemma_sorted_lookup(nv, key@);
            assert(nv[p as int] == e);
            assert(nv[p as int].0 == key@);
            assert(lookup(nv, key@) == Some(e.1));
            assert(e.1 == tag_view(value));
            assert forall|i: int| 0 <= i < nv.len() implies crate::block::encodable(#[trigger] nv[i]) by {
                if i < p {
                    assert(nv[i] == old_v[i]);
                } else if i > p {
                    assert(nv[i] == old_v[i - p - 1 + rest_start]);
                }
            }
            assert forall|k: Seq<u8>| k != key@ implies lookup(nv, k) == lookup(old_v, k) by {
                lemma_sorted_lookup(nv, k);
                lemma_sorted_lookup(old_v, k);
                if exists|i: int| 0 <= i < old_v.len() && #[trigger] old_v[i].0 == k {
                    let i = choose|i: int| 0 <= i < old_v.len() && #[trigger] old_v[i].0 == k;
                    let ni = if i < p { i } else { i - rest_start + p + 1 };
                    if found && i == p {
                        assert(old_v[p as int].0 == key@);
                    }
                    assert(nv[ni] == old_v[i]);
                }
                if exists|i: int| 0 <= i < nv.len() && #[trigger] nv[i].0 == k {
                    let i = choose|i: int| 0 <= i < nv.len() && #[trigger] nv[i].0 == k;
                    let oi = if i < p { i } else { i - p - 1 + rest_start };
                    assert(i != p);
                    assert(nv[i] == old_v[oi]);
                }
            }
        }
        *self = Memtable { entries, size: grown };
    }

    pub fn insert(&mut self, key: &Key, value: &Value)
        requires
            0 < value@.len() < 65536,
        ensures
            lookup(final(self)@, key@) == Some(Some(value@)),
            forall|k: Seq<u8>| k != key@ ==> lookup(final(self)@, k) == lookup(old(self)@, k),
    {
        let kl = key.len();
        self.insert_option_value(key.duplicate(), Some(value.duplicate()));
    }

    /// Writes a tombstone for `key`; returns the value it had, if live.
    pub fn delete(&mut self, key: &Key) -> (r: Option<Value>)
        ensures
            lookup(final(self)@, key@) == Some(None::<Seq<u8>>),
            forall|k: Seq<u8>| k != key@ ==> lookup(final(self)@, k) == lookup(old(self)@, k),
            match lookup(old(self)@, key@) {
                Some(Some(v)) => r is Some && r.unwrap()@ == v,
                _ => r is None,
            },
    {
        let prev = self.get(key);
        let kl = key.len();
        self.insert_option_value(key.duplicate(), None);
        match prev {
            Some(Some(v)) => Some(v),
            _ => None,
        }
    }

    /// The entry of `key`: `Some(None)` for a tombstone, `None` when it has none.
    pub fn get(&self, key: &Key) -> (r: Option<ValueWithTag>)
        ensures
            found_view(r) == lookup(self@, key@),
    {
        proof {
            use_type_invariant(self);
            lemma_sorted_lookup(self@, key@);
        }
        let p = self.position(key);
        if p < self.entries.len() && self.entries[p].0.equal(key) {
            proof {
                assert(self@[p as int] == item_view(self.entries@[p as int]));
                assert(self@[p as int].0 == key@);
            }
            let v = match &self.entries[p].1 {
                Some(v) => Some(v.duplicate()),
                None => None,
            };
            proof {
                assert(tag_view(v) == self@[p as int].1);
            }
            Some(v)
        } else {
            proof {
                assert forall|i: int| 0 <= i < self@.len() implies #[trigger] self@[i].0 != key@ by {
                    if i >= p && self@[i].0 == key@ {
                        if i > p {
                            lemma_key_order(self@[p as int].0, key@);
                            assert(key_lt(self@[p as int].0, self@[i].0));
                        }
                    }
                    if i < p {
                        lemma_key_order(self@[i].0, key@);
                    }
                }
            }
            None
        }
    }

    pub fn get_str(&self, key: &str) -> (r: Option<ValueWithTag>)
        requires
            key.spec_bytes().len() <= KEY_SIZE_LIMIT,
        ensures
            found_view(r) == lookup(self@, key.spec_bytes()),
    {
        self.get(&Key::new(key))
    }

    /// A snapshot of the entries in key order, read one by one.
    pub fn iter(&self) -> (r: MemtableIter)
        ensures
            r@ == self@,
    {
        let items = self.entries();
        let r = MemtableIter { items, next_position: 0 };
        proof {
            assert(items_view(r.items@).subrange(0, r.items@.len() as int) =~= items_view(r.items@));
        }
        r
    }

    /// A snapshot of the entries in key order.
    pub fn entries(&self) -> (r: Vec<KVIterItem>)
        ensures
            items_view(r@) == self@,
            strictly_sorted(items_view(r@)),
            forall|i: int| 0 <= i < r@.len() ==> crate::block::encodable(#[trigger] item_view(r@[i])),
    {
        proof {
            use_type_invariant(self);
        }
        let mut out: Vec<KVIterItem> = Vec::new();
        let mut i: usize = 0;
        while i < self.entries.len()
            invariant
                i <= self@.len(),
                items_view(out@) == self@.subrange(0, i as int),
            decreases self@.len() - i,
        {
            let x = copy_item(&self.entries[i]);
            let ghost prev = out@;
            out.push(x);
            proof {
                assert(items_view(out@) =~= items_view(prev).push(item_view(x)));
                assert(self@.subrange(0, i + 1) =~= self@.subrange(0, i as int).push(self@[i as int]));
            }
            i = i + 1;
        }
        proof {
            assert(self@.subrange(0, i as int) =~= self@);
            assert forall|k: int| 0 <= k < out@.len() implies crate::block::encodable(
                #[trigger] item_view(out@[k]),
            ) by {
                assert(item_view(out@[k]) == items_view(out@)[k]);
            }
        }
        out
    }
}

/// Entries of a memory table as they were when it was taken, read in key order.
pub struct MemtableIter {
    items: Vec<KVIterItem>,
    next_position: usize,
}

impl View for MemtableIter {
    type V = Seq<EntryModel>;

    /// The entries not read yet.
    closed spec fn view(&self) -> Seq<EntryModel> {
        items_view(self.items@).subrange(self.next_position as int, self.items@.len() as int)
    }
}

impl MemtableIter {
    #[verifier::type_invariant]
    spec fn position_ok(&self) -> bool {
        self.next_position <= self.items@.len()
    }

    pub fn has_next(&self) -> (r: bool)
        ensures
            r == (self@.len() > 0),
    {
        proof {
            use_type_invariant(self);
        }
        self.next_position < self.items.len()
    }

    /// The next entry in key order.
    pub fn next(&mut self) -> (r: Option<KVIterItem>)
        ensures
            old(self)@.len() == 0 ==> r is None && final(self)@ == old(self)@,
            old(self)@.len() > 0 ==> r is Some && item_view(r.unwrap()) == old(self)@[0]
                && final(self)@ == old(self)@.drop_first(),
    {
        proof {
            use_type_invariant(&*self);
        }
        if self.next_position < self.items.len() {
            let x = copy_item(&self.items[self.next_position]);
            self.next_position = self.next_position + 1;
            proof {
                assert(final(self)@ =~= old(self)@.drop_first());
            }
            Some(x)
        } else {
            None
        }
    }
}

} // verus!
