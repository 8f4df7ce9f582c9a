use vstd::prelude::*;
use vstd::laws_eq::obeys_concrete_eq;

verus! {

/// Index of the entry for `key`, or -1.
pub open spec fn index_of<K, V>(s: Seq<(K, V)>, key: K) -> int
    decreases s.len(),
{
    if s.len() == 0 {
        -1
    } else if s.last().0 == key {
        s.len() - 1
    } else {
        index_of(s.drop_last(), key)
    }
}

/// The entries without the one for `key`.
pub open spec fn without_key<K, V>(s: Seq<(K, V)>, key: K) -> Seq<(K, V)>
    decreases s.len(),
{
    if s.len() == 0 {
        seq![]
    } else if s.last().0 == key {
        without_key(s.drop_last(), key)
    } else {
        without_key(s.drop_last(), key).push(s.last())
    }
}

/// No two entries share a key.
pub open spec fn unique_keys<K, V>(s: Seq<(K, V)>) -> bool {
    forall|i: int, j: int| 0 <= i < j < s.len() ==> s[i].0 != s[j].0
}

proof fn lemma_index_of<K, V>(s: Seq<(K, V)>, key: K)
    ensures
        -1 <= index_of(s, key) < s.len(),
        index_of(s, key) >= 0 ==> s[index_of(s, key)].0 == key,
        index_of(s, key) < 0 ==> forall|i: int| 0 <= i < s.len() ==> s[i].0 != key,
    decreases s.len(),
{
    if s.len() > 0 {
        lemma_index_of(s.drop_last(), key);
        assert forall|i: int| 0 <= i < s.len() - 1 implies s.drop_last()[i] == s[i] by {}
    }
}

/// The newest entry is found where its key is looked up.
pub proof fn lemma_index_last<K, V>(s: Seq<(K, V)>, key: K)
    requires
        s.len() > 0,
        s.last().0 == key,
    ensures
        index_of(s, key) == s.len() - 1,
{
}

proof fn lemma_index_unique<K, V>(s: Seq<(K, V)>, key: K, i: int)
    requires
        unique_keys(s),
        0 <= i < s.len(),
        s[i].0 == key,
    ensures
        index_of(s, key) == i,
{
    lemma_index_of(s, key);
}

proof fn lemma_without_key_remove<K, V>(s: Seq<(K, V)>, key: K, i: int)
    requires
        unique_keys(s),
        0 <= i < s.len(),
        s[i].0 == key,
    ensures
        without_key(s, key) == s.remove(i),
    decreases s.len(),
{
    if i == s.len() - 1 {
        lemma_without_key_absent(s.drop_last(), key);
        assert(s.drop_last() =~= s.remove(i));
    } else {
        let d = s.drop_last();
        assert(d[i] == s[i]);
        assert forall|a: int, b: int| 0 <= a < b < d.len() implies d[a].0 != d[b].0 by {
            assert(d[a] == s[a] && d[b] == s[b]);
        }
        lemma_without_key_remove(d, key, i);
        assert(s.last().0 != key);
        assert(d.remove(i).push(s.last()) =~= s.remove(i));
    }
}

proof fn lemma_without_key_absent<K, V>(s: Seq<(K, V)>, key: K)
    requires
        forall|i: int| 0 <= i < s.len() ==> s[i].0 != key,
    ensures
        without_key(s, key) == s,
    decreases s.len(),
{
    if s.len() > 0 {
        let d = s.drop_last();
        assert forall|i: int| 0 <= i < d.len() implies d[i].0 != key by {
            assert(d[i] == s[i]);
        }
        lemma_without_key_absent(d, key);
        assert(d.push(s.last()) =~= s);
    }
}

/// A bounded map that, when full, evicts the entry set longest ago.
pub struct Lru<K: PartialEq + Copy, V> {
    items: Vec<(K, V)>,
    capacity: usize,
}

impl<K: PartialEq + Copy, V> View for Lru<K, V> {
    type V = Seq<(K, V)>;

    /// Entries, the one set longest ago first.
    closed spec fn view(&self) -> Seq<(K, V)> {
        self.items@
    }
}

impl<K: PartialEq + Copy, V> Lru<K, V> {
    #[verifier::type_invariant]
    spec fn inv(&self) -> bool {
        &&& unique_keys(self.items@)
        &&& self.items@.len() <= self.capacity
        &&& self.capacity > 0
    }

    pub closed spec fn capacity_spec(&self) -> nat {
        self.capacity as nat
    }

    pub fn new(size: usize) -> (r: Lru<K, V>)
        requires
            size > 0,
        ensures
            r@ == Seq::<(K, V)>::empty(),
            r.capacity_spec() == size,
    {
        Lru { items: Vec::new(), capacity: size }
    }

    fn find(&self, key: K) -> (r: Option<usize>)
        requires
            obeys_concrete_eq::<K>(),
        ensures
            match r {
                Some(i) => i < self@.len() && index_of(self@, key) == i,
                None => index_of(self@, key) < 0,
            },
    {
        proof {
            use_type_invariant(self);
            reveal(obeys_concrete_eq);
        }
        let mut i: usize = 0;
        while i < self.items.len()
            invariant
                i <= self@.len(),
                unique_keys(self@),
                obeys_concrete_eq::<K>(),
                forall|j: int| 0 <= j < i ==> self@[j].0 != key,
            decreases self@.len() - i,
        {
            proof {
                reveal(obeys_concrete_eq);
            }
            if self.items[i].0.eq(&key) {
                proof {
                    lemma_index_unique(self@, key, i as int);
                }
                return Some(i);
            }
            i = i + 1;
        }
        proof {
            lemma_index_of(self@, key);
        }
        None
    }

    /// The value set for `key`, if it is still held.
    pub fn get(&self, key: K) -> (r: Option<&V>)
        requires
            obeys_concrete_eq::<K>(),
        ensures
            index_of(self@, key) < 0 ==> r is None,
            index_of(self@, key) >= 0 ==> r is Some && *r.unwrap() == self@[index_of(self@, key)].1,
    {
        match self.find(key) {
            Some(i) => Some(&self.items[i].1),
            None => None,
        }
    }

    /// Removes the entry for `key` and returns its value.
    pub fn delete(&mut self, key: K) -> (r: Option<V>)
        requires
            obeys_concrete_eq::<K>(),
        ensures
            final(self)@ == without_key(old(self)@, key),
            final(self).capacity_spec() == old(self).capacity_spec(),
            index_of(old(self)@, key) < 0 ==> r is None,
            index_of(old(self)@, key) >= 0 ==> r == Some(old(self)@[index_of(old(self)@, key)].1),
    {
        proof {
            use_type_invariant(&*self);
            lemma_index_of(self@, key);
        }
        match self.find(key) {
            Some(i) => {
                let ghost s = self@;
                let mut items: Vec<(K, V)> = Vec::new();
                std::mem::swap(&mut items, &mut self.items);
                let item = items.remove(i);
                proof {
                    lemma_without_key_remove(s, key, i as int);
                    assert forall|a: int, b: int| 0 <= a < b < items@.len() implies items@[a].0
                        != items@[b].0 by {
                        let oa = if a < i { a } else { a + 1 };
                        let ob = if b < i { b } else { b + 1 };
                        assert(items@[a] == s[oa] && items@[b] == s[ob]);
                    }
                }
                *self = Lru { items, capacity: self.capacity };
                Some(item.1)
            },
            None => {
                proof {
                    lemma_without_key_absent(self@, key);
                }
                None
            },
        }
    }

    /// Sets `key` to `value` as the newest entry. A new key in a full map
    /// first evicts the oldest entry.
    pub fn set(&mut self, key: K, value: V)
        requires
            obeys_concrete_eq::<K>(),
        ensures
            final(self).capacity_spec() == old(self).capacity_spec(),
            final(self)@.len() > 0 && final(self)@.last() == (key, value),
            index_of(old(self)@, key) >= 0 ==> final(self)@ == without_key(old(self)@, key).push(
                (key, value),
            ),
            index_of(old(self)@, key) < 0 && old(self)@.len() < old(self).capacity_spec()
                ==> final(self)@ == old(self)@.push((key, value)),
            index_of(old(self)@, key) < 0 && old(self)@.len() == old(self).capacity_spec()
                ==> final(self)@ == old(self)@.drop_first().push((key, value)),
    {
        proof {
            use_type_invariant(&*self);
            lemma_index_of(self@, key);
        }
        let ghost s = self@;
        let cap = self.capacity;
        let pos = self.find(key);
        let mut items: Vec<(K, V)> = Vec::new();
        std::mem::swap(&mut items, &mut self.items);
        match pos {
            Some(i) => {
                items.remove(i);
                proof {
                    lemma_without_key_remove(s, key, i as int);
                }
            },
            None => {
                if items.len() == cap {
                    items.remove(0);
                    proof {
                        assert(s.remove(0) =~= s.drop_first());
                    }
                }
            },
        }
        let ghost mid = items@;
        proof {
            assert forall|a: int, b: int| 0 <= a < b < mid.len() implies mid[a].0 != mid[b].0 by {
                match pos {
                    Some(i) => {
                        let oa = if a < i { a } else { a + 1 };
                        let ob = if b < i { b } else { b + 1 };
                        assert(mid[a] == s[oa] && mid[b] == s[ob]);
                    },
                    None => {
                        if s.len() == cap {
                            assert(mid[a] == s[a + 1] && mid[b] == s[b + 1]);
                        } else {
                            assert(mid[a] == s[a] && mid[b] == s[b]);
                        }
                    },
                }
            }
            assert forall|a: int| 0 <= a < mid.len() implies mid[a].0 != key by {
                match pos {
                    Some(i) => {
                        let oa = if a < i { a } else { a + 1 };
                        assert(mid[a] == s[oa]);
                    },
                    None => {
                        if s.len() == cap {
                            assert(mid[a] == s[a + 1]);
                        } else {
                            assert(mid[a] == s[a]);
                        }
                    },
                }
            }
        }
        items.push((key, value));
        *self = Lru { items, capacity: cap };
    }
}

} // verus!
