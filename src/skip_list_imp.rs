use vstd::prelude::*;
use vstd::laws_eq::obeys_concrete_eq;
use crate::skip_list::pow2;

verus! {

/// Highest index level of the concurrent list.
pub const MAX_LEVEL: usize = 16;

/// `k` is the largest number with `2^k <= len`, capped at `MAX_LEVEL`; 0 for 0.
pub open spec fn is_floor_level(len: nat, k: nat) -> bool {
    &&& len == 0 ==> k == 0
    &&& k <= MAX_LEVEL
    &&& len > 0 && k < MAX_LEVEL ==> pow2(k) <= len < pow2(k + 1)
    &&& len > 0 && k == MAX_LEVEL ==> pow2(MAX_LEVEL as nat) <= len
}

/// The largest `k` with `2^k <= len`, at most `MAX_LEVEL`; 0 for 0.
pub fn max_level(len: usize) -> (r: usize)
    ensures
        is_floor_level(len as nat, r as nat),
{
    if len == 0 {
        return 0;
    }
    let mut k: usize = 0;
    let mut p: usize = 1;
    while p <= len / 2 && k < MAX_LEVEL
        invariant
            p == pow2(k as nat),
            p <= len,
            k <= MAX_LEVEL,
        decreases MAX_LEVEL - k,
    {
        p = p * 2;
        k = k + 1;
    }
    k
}

/// A map from keys to values with the interface of the concurrent skip list.
pub struct SkipListImp<K: PartialEq + Copy, V: Copy> {
    entries: Vec<(K, V)>,
}

/// No two entries share a key.
pub open spec fn keys_unique<K, V>(s: Seq<(K, V)>) -> bool {
    forall|i: int, j: int| 0 <= i < j < s.len() ==> s[i].0 != s[j].0
}

impl<K: PartialEq + Copy, V: Copy> View for SkipListImp<K, V> {
    type V = Seq<(K, V)>;

    closed spec fn view(&self) -> Seq<(K, V)> {
        self.entries@
    }
}

impl<K: PartialEq + Copy, V: Copy> SkipListImp<K, V> {
    #[verifier::type_invariant]
    spec fn inv(&self) -> bool {
        keys_unique(self.entries@)
    }

    pub fn new() -> (r: SkipListImp<K, V>)
        ensures
            r@ == Seq::<(K, V)>::empty(),
    {
        SkipListImp { entries: Vec::new() }
    }

    pub fn len(&self) -> (r: usize)
        ensures
            r == self@.len(),
    {
        self.entries.len()
    }

    fn find(&self, key: K) -> (r: Option<usize>)
        requires
            obeys_concrete_eq::<K>(),
        ensures
            match r {
                Some(i) => i < self@.len() && self@[i as int].0 == key,
                None => forall|i: int| 0 <= i < self@.len() ==> self@[i].0 != key,
            },
    {
        proof {
            reveal(obeys_concrete_eq);
        }
        let mut i: usize = 0;
        while i < self.entries.len()
            invariant
                obeys_concrete_eq::<K>(),
                i <= self@.len(),
                forall|j: int| 0 <= j < i ==> self@[j].0 != key,
            decreases self@.len() - i,
        {
            proof {
                reveal(obeys_concrete_eq);
            }
            if self.entries[i].0.eq(&key) {
                return Some(i);
            }
            i = i + 1;
        }
        None
    }

    /// Sets `key` to `value`; `rand_int` picks the index level and does not
    /// change what is stored.
    pub fn add(&mut self, key: K, value: V, rand_int: usize)
        requires
            obeys_concrete_eq::<K>(),
        ensures
            exists|i: int| 0 <= i < final(self)@.len() && final(self)@[i] == (key, value),
            forall|i: int|
                0 <= i < final(self)@.len() && final(self)@[i].0 == key ==> final(self)@[i].1 == value,
            forall|k: K, v: V|
                k != key ==> (final(self)@.contains((k, v)) <==> old(self)@.contains((k, v))),
    {
        proof {
            use_type_invariant(&*self);
        }
        let pos = self.find(key);
        let ghost s = self@;
        let mut entries: Vec<(K, V)> = Vec::new();
        std::mem::swap(&mut entries, &mut self.entries);
        assert(entries@ == s);
        match pos {
            Some(i) => {
                entries.set(i, (key, value));
                proof {
                    assert forall|a: int, b: int| 0 <= a < b < entries@.len() implies entries@[a].0
                        != entries@[b].0 by {
                        assert(keys_unique(s));
                        assert(s[a].0 != s[b].0);
                        if a == i {
                            assert(entries@[a].0 == key);
                        } else {
                            assert(entries@[a] == s[a]);
                        }
                        if b == i {
                            assert(entries@[b].0 == key);
                        } else {
                            assert(entries@[b] == s[b]);
                        }
                    }
                    assert forall|k: K, v: V| k != key implies (entries@.contains((k, v)) <==> s.contains(
                        (k, v),
                    )) by {
                        if entries@.contains((k, v)) {
                            let j = choose|j: int| 0 <= j < entries@.len() && entries@[j] == (k, v);
                            assert(s[j] == (k, v));
                        }
                        if s.contains((k, v)) {
                            let j = choose|j: int| 0 <= j < s.len() && s[j] == (k, v);
                            assert(entries@[j] == (k, v));
                        }
                    }
                    assert(entries@[i as int] == (key, value));
                }
            },
            None => {
                entries.push((key, value));
                proof {
                    assert forall|a: int, b: int| 0 <= a < b < entries@.len() implies entries@[a].0
                        != entries@[b].0 by {
                        assert(keys_unique(s));
                        if b < s.len() {
                            assert(entries@[a] == s[a] && entries@[b] == s[b]);
                            assert(s[a].0 != s[b].0);
                        } else {
                            assert(entries@[a] == s[a]);
                            assert(entries@[b] == (key, value));
                            assert(s[a].0 != key);
                        }
                    }
                    assert forall|k: K, v: V| k != key implies (entries@.contains((k, v)) <==> s.contains(
                        (k, v),
                    )) by {
                        if entries@.contains((k, v)) {
                            let j = choose|j: int| 0 <= j < entries@.len() && entries@[j] == (k, v);
                            assert(s[j] == (k, v));
                        }
                        if s.contains((k, v)) {
                            let j = choose|j: int| 0 <= j < s.len() && s[j] == (k, v);
                            assert(entries@[j] == (k, v));
                        }
                    }
                    assert(entries@[s.len() as int] == (key, value));
                }
            },
        }
        let ghost ev = entries@;
        let ghost idx: int = match pos {
            Some(i) => i as int,
            None => s.len() as int,
        };
        *self = SkipListImp { entries };
        proof {
            assert(self@ == ev);
            assert(self@[idx] == (key, value));
            assert forall|i: int| 0 <= i < self@.len() && self@[i].0 == key implies self@[i].1 == value by {
                if i != idx {
                    assert(self@[idx].0 == self@[i].0);
                }
            }
        }
    }

    /// The value set for `key`, if any.
    pub fn get(&self, key: K) -> (r: Option<V>)
        requires
            obeys_concrete_eq::<K>(),
        ensures
            r is None <==> forall|i: int| 0 <= i < self@.len() ==> self@[i].0 != key,
            r is Some ==> exists|i: int| 0 <= i < self@.len() && self@[i] == (key, r.unwrap()),
    {
        match self.find(key) {
            Some(i) => Some(self.entries[i].1),
            None => None,
        }
    }

    /// Index level for a new entry: `rand_int` modulo the level count that
    /// `len` entries need.
    pub fn random_level(&self, len: usize, rand_int: usize) -> (r: usize)
        ensures
            exists|m: nat|
                is_floor_level(len as nat, m) && (m == 0 ==> r == 0) && (m > 0 ==> r == rand_int
                    % (m as usize)),
    {
        let m = max_level(len);
        if m == 0 {
            0
        } else {
            rand_int % m
        }
    }
}

} // verus!
