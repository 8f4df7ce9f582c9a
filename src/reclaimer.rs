use vstd::prelude::*;
use crate::level::FileId;

verus! {

/// How often `id` occurs in `s`.
pub open spec fn occurrences(s: Seq<FileId>, id: FileId) -> nat
    decreases s.len(),
{
    if s.len() == 0 {
        0
    } else {
        occurrences(s.drop_last(), id) + if s.last() == id {
            1nat
        } else {
            0nat
        }
    }
}

/// The count held for `id` in a list of (id, count) pairs, 0 where it has none.
pub open spec fn count_in(s: Seq<(FileId, u64)>, id: FileId) -> nat
    decreases s.len(),
{
    if s.len() == 0 {
        0
    } else if s.last().0 == id {
        s.last().1 as nat
    } else {
        count_in(s.drop_last(), id)
    }
}

proof fn lemma_count_at(s: Seq<(FileId, u64)>, id: FileId, i: int)
    requires
        0 <= i < s.len(),
        s[i].0 == id,
        forall|a: int, b: int| 0 <= a < b < s.len() ==> s[a].0 != s[b].0,
    ensures
        count_in(s, id) == s[i].1,
    decreases s.len(),
{
    if i < s.len() - 1 {
        let d = s.drop_last();
        assert(d[i] == s[i]);
        assert forall|a: int, b: int| 0 <= a < b < d.len() implies d[a].0 != d[b].0 by {
            assert(d[a] == s[a] && d[b] == s[b]);
        }
        lemma_count_at(d, id, i);
    }
}

proof fn lemma_count_absent(s: Seq<(FileId, u64)>, id: FileId)
    requires
        forall|i: int| 0 <= i < s.len() ==> s[i].0 != id,
    ensures
        count_in(s, id) == 0,
    decreases s.len(),
{
    if s.len() > 0 {
        let d = s.drop_last();
        assert forall|i: int| 0 <= i < d.len() implies d[i].0 != id by {
            assert(d[i] == s[i]);
        }
        lemma_count_absent(d, id);
    }
}

/// Reference counts of files across live versions; a file whose count
/// drops to zero is to be deleted.
pub struct FileReclaimer {
    counts: Vec<(FileId, u64)>,
}

impl FileReclaimer {
    #[verifier::type_invariant]
    spec fn inv(&self) -> bool {
        &&& forall|a: int, b: int|
            0 <= a < b < self.counts@.len() ==> self.counts@[a].0 != self.counts@[b].0
        &&& forall|a: int| 0 <= a < self.counts@.len() ==> self.counts@[a].1 > 0
    }

    /// References held to file `id`.
    pub closed spec fn count(&self, id: FileId) -> nat {
        count_in(self.counts@, id)
    }

    pub fn new() -> (r: FileReclaimer)
        ensures
            forall|id: FileId| r.count(id) == 0,
    {
        FileReclaimer { counts: Vec::new() }
    }

    /// Index of `id`'s pair, if it has one.
    fn find(&self, id: FileId) -> (r: Option<usize>)
        ensures
            match r {
                Some(i) => i < self.counts@.len() && self.counts@[i as int].0 == id,
                None => forall|i: int| 0 <= i < self.counts@.len() ==> self.counts@[i].0 != id,
            },
    {
        let mut i: usize = 0;
        while i < self.counts.len()
            invariant
                i <= self.counts@.len(),
                forall|j: int| 0 <= j < i ==> self.counts@[j].0 != id,
            decreases self.counts@.len() - i,
        {
            if self.counts[i].0 == id {
                return Some(i);
            }
            i = i + 1;
        }
        None
    }

    /// A new version holds the files `ids`: each gains one reference
    /// (saturating at `u64::MAX`).
    pub fn increment(&mut self, ids: &Vec<FileId>)
        ensures
            forall|id: FileId|
                #[trigger] final(self).count(id) == if old(self).count(id) + occurrences(ids@, id)
                    > u64::MAX {
                    u64::MAX as nat
                } else {
                    old(self).count(id) + occurrences(ids@, id)
                },
    {
        proof {
            use_type_invariant(&*self);
        }
        let ghost orig = self.counts@;
        let mut counts: Vec<(FileId, u64)> = Vec::new();
        std::mem::swap(&mut counts, &mut self.counts);
        assert(counts@ == orig);
        let mut i: usize = 0;
        proof {
            assert(ids@.subrange(0, 0) =~= Seq::<FileId>::empty());
            assert forall|x: FileId| #[trigger] count_in(counts@, x) == count_in(orig, x)
                + occurrences(ids@.subrange(0, 0), x) by {
                assert(occurrences(ids@.subrange(0, 0), x) == 0);
            }
            assert forall|x: FileId| count_in(orig, x) <= u64::MAX by {
                lemma_count_bound(orig, x);
            }
        }
        while i < ids.len()
            invariant
                i <= ids@.len(),
                forall|a: int, b: int| 0 <= a < b < counts@.len() ==> counts@[a].0 != counts@[b].0,
                forall|a: int| 0 <= a < counts@.len() ==> counts@[a].1 > 0,
                forall|x: FileId|
                    #[trigger] count_in(counts@, x) == if count_in(orig, x) + occurrences(
                        ids@.subrange(0, i as int),
                        x,
                    ) > u64::MAX {
                        u64::MAX as nat
                    } else {
                        count_in(orig, x) + occurrences(ids@.subrange(0, i as int), x)
                    },
            decreases ids@.len() - i,
        {
            let id = ids[i];
            let ghost before = counts@;
            let j = find_pair(&counts, id);
            if j < counts.len() {
                let c = counts[j].1;
                let c2 = c.saturating_add(1);
                counts.set(j, (id, c2));
                proof {
                    lemma_count_at(before, id, j as int);
                    assert forall|x: FileId| x != id implies count_in(counts@, x) == count_in(before, x) by {
                        lemma_count_other(before, j as int, (id, c2), x);
                    }
                    assert forall|a: int, b: int| 0 <= a < b < counts@.len() implies counts@[a].0 != counts@[b].0 by {
                        assert(counts@[a].0 == before[a].0 && counts@[b].0 == before[b].0);
                    }
                    lemma_count_at(counts@, id, j as int);
                }
            } else {
                counts.push((id, 1));
                proof {
                    lemma_count_absent(before, id);
                    assert(counts@.drop_last() =~= before);
                }
            }
            proof {
                let pre = ids@.subrange(0, i as int);
                let pre1 = ids@.subrange(0, i + 1);
                assert(pre1.drop_last() =~= pre);
                assert(pre1.last() == id);
                assert forall|x: FileId| #[trigger] count_in(counts@, x) == if count_in(orig, x)
                    + occurrences(pre1, x) > u64::MAX {
                    u64::MAX as nat
                } else {
                    count_in(orig, x) + occurrences(pre1, x)
                } by {
                    assert(occurrences(pre1, x) == occurrences(pre, x) + if x == id {
                        1nat
                    } else {
                        0nat
                    });
                    assert(count_in(before, x) == if count_in(orig, x) + occurrences(pre, x)
                        > u64::MAX {
                        u64::MAX as nat
                    } else {
                        count_in(orig, x) + occurrences(pre, x)
                    });
                }
            }
            i = i + 1;
        }
        proof {
            assert(ids@.subrange(0, i as int) =~= ids@);
        }
        *self = FileReclaimer { counts };
    }

    /// A version is retired and drops its references to the files `ids`
    /// (never below zero). Returns the files whose count reached zero now,
    /// each once: they are to be deleted.
    pub fn decrement(&mut self, ids: &Vec<FileId>) -> (r: Vec<FileId>)
        ensures
            forall|id: FileId|
                #[trigger] final(self).count(id) == if old(self).count(id) <= occurrences(ids@, id) {
                    0
                } else {
                    (old(self).count(id) - occurrences(ids@, id)) as nat
                },
            forall|id: FileId|
                r@.contains(id) <==> old(self).count(id) > 0 && final(self).count(id) == 0,
            r@.no_duplicates(),
    {
        proof {
            use_type_invariant(&*self);
        }
        let ghost orig = self.counts@;
        let mut counts: Vec<(FileId, u64)> = Vec::new();
        std::mem::swap(&mut counts, &mut self.counts);
        assert(counts@ == orig);
        let mut deleted: Vec<FileId> = Vec::new();
        let mut i: usize = 0;
        proof {
            assert(ids@.subrange(0, 0) =~= Seq::<FileId>::empty());
        }
        while i < ids.len()
            invariant
                i <= ids@.len(),
                forall|a: int, b: int| 0 <= a < b < counts@.len() ==> counts@[a].0 != counts@[b].0,
                forall|a: int| 0 <= a < counts@.len() ==> counts@[a].1 > 0,
                forall|x: FileId|
                    #[trigger] count_in(counts@, x) == if count_in(orig, x) <= occurrences(
                        ids@.subrange(0, i as int),
                        x,
                    ) {
                        0
                    } else {
                        (count_in(orig, x) - occurrences(ids@.subrange(0, i as int), x)) as nat
                    },
                forall|x: FileId|
                    deleted@.contains(x) <==> count_in(orig, x) > 0 && count_in(counts@, x) == 0,
                deleted@.no_duplicates(),
            decreases ids@.len() - i,
        {
            let id = ids[i];
            let ghost before = counts@;
            let ghost before_deleted = deleted@;
            let j = find_pair(&counts, id);
            if j < counts.len() {
                let c = counts[j].1;
                proof {
                    lemma_count_at(before, id, j as int);
                }
                if c == 1 {
                    counts.remove(j);
                    deleted.push(id);
                    proof {
                        assert forall|x: FileId| x != id implies count_in(counts@, x) == count_in(before, x) by {
                            lemma_count_removed(before, j as int, x);
                        }
                        assert forall|k: int| 0 <= k < counts@.len() implies counts@[k].0 != id by {
                            let o = if k < j { k } else { k + 1 };
                            assert(counts@[k] == before[o]);
                        }
                        lemma_count_absent(counts@, id);
                        assert forall|a: int, b: int| 0 <= a < b < counts@.len() implies counts@[a].0 != counts@[b].0 by {
                            let oa = if a < j { a } else { a + 1 };
                            let ob = if b < j { b } else { b + 1 };
                            assert(counts@[a] == before[oa] && counts@[b] == before[ob]);
                        }
                        assert forall|a: int| 0 <= a < counts@.len() implies counts@[a].1 > 0 by {
                            let oa = if a < j { a } else { a + 1 };
                            assert(counts@[a] == before[oa]);
                        }
                        assert(!before_deleted.contains(id));
                        assert forall|x: FileId| deleted@.contains(x) <==> count_in(orig, x) > 0 && count_in(counts@, x) == 0 by {
                            if x != id {
                                assert(deleted@.contains(x) <==> before_deleted.contains(x)) by {
                                    if deleted@.contains(x) {
                                        let k = choose|k: int| 0 <= k < deleted@.len() && deleted@[k] == x;
                                        assert(k < before_deleted.len());
                                        assert(before_deleted[k] == x);
                                    }
                                    if before_deleted.contains(x) {
                                        let k = choose|k: int| 0 <= k < before_deleted.len() && before_deleted[k] == x;
                                        assert(deleted@[k] == x);
                                    }
                                }
                            } else {
                                assert(deleted@[deleted@.len() - 1] == id);
                            }
                        }
                        assert forall|a: int, b: int| 0 <= a < b < deleted@.len() implies deleted@[a] != deleted@[b] by {
                            if b == deleted@.len() - 1 {
                                assert(deleted@[a] == before_deleted[a]);
                                assert(before_deleted.contains(deleted@[a]));
                            } else {
                                assert(deleted@[a] == before_deleted[a] && deleted@[b] == before_deleted[b]);
                            }
                        }
                    }
                } else {
                    counts.set(j, (id, c - 1));
                    proof {
                        assert forall|x: FileId| x != id implies count_in(counts@, x) == count_in(before, x) by {
                            lemma_count_other(before, j as int, (id, (c - 1) as u64), x);
                        }
                        assert forall|a: int, b: int| 0 <= a < b < counts@.len() implies counts@[a].0 != counts@[b].0 by {
                            assert(counts@[a].0 == before[a].0 && counts@[b].0 == before[b].0);
                        }
                        lemma_count_at(counts@, id, j as int);
                    }
                }
            } else {
                proof {
                    lemma_count_absent(before, id);
                }
            }
            proof {
                let pre = ids@.subrange(0, i as int);
                let pre1 = ids@.subrange(0, i + 1);
                assert(pre1.drop_last() =~= pre);
                assert(pre1.last() == id);
                assert forall|x: FileId| #[trigger] count_in(counts@, x) == if count_in(orig, x)
                    <= occurrences(pre1, x) {
                    0
                } else {
                    (count_in(orig, x) - occurrences(pre1, x)) as nat
                } by {
                    assert(occurrences(pre1, x) == occurrences(pre, x) + if x == id {
                        1nat
                    } else {
                        0nat
                    });
                    assert(count_in(before, x) == if count_in(orig, x) <= occurrences(pre, x) {
                        0
                    } else {
                        (count_in(orig, x) - occurrences(pre, x)) as nat
                    });
                }
            }
            i = i + 1;
        }
        proof {
            assert(ids@.subrange(0, i as int) =~= ids@);
        }
        *self = FileReclaimer { counts };
        deleted
    }
}

proof fn lemma_count_bound(s: Seq<(FileId, u64)>, x: FileId)
    ensures
        count_in(s, x) <= u64::MAX,
    decreases s.len(),
{
    if s.len() > 0 {
        lemma_count_bound(s.drop_last(), x);
    }
}

/// Index of `id`'s pair in `counts`, or the length where it has none.
fn find_pair(counts: &Vec<(FileId, u64)>, id: FileId) -> (r: usize)
    ensures
        r <= counts@.len(),
        r < counts@.len() ==> counts@[r as int].0 == id,
        r == counts@.len() ==> forall|k: int| 0 <= k < counts@.len() ==> counts@[k].0 != id,
{
    let mut j: usize = 0;
    while j < counts.len()
        invariant
            j <= counts@.len(),
            forall|k: int| 0 <= k < j ==> counts@[k].0 != id,
        decreases counts@.len() - j,
    {
        if counts[j].0 == id {
            return j;
        }
        j = j + 1;
    }
    j
}

proof fn lemma_count_other(s: Seq<(FileId, u64)>, j: int, p: (FileId, u64), x: FileId)
    requires
        0 <= j < s.len(),
        p.0 == s[j].0,
        x != p.0,
    ensures
        count_in(s.update(j, p), x) == count_in(s, x),
    decreases s.len(),
{
    if j < s.len() - 1 {
        lemma_count_other(s.drop_last(), j, p, x);
        assert(s.update(j, p).drop_last() =~= s.drop_last().update(j, p));
    } else {
        assert(s.update(j, p).drop_last() =~= s.drop_last());
    }
}

proof fn lemma_count_removed(s: Seq<(FileId, u64)>, j: int, x: FileId)
    requires
        0 <= j < s.len(),
        x != s[j].0,
    ensures
        count_in(s.remove(j), x) == count_in(s, x),
    decreases s.len(),
{
    if j < s.len() - 1 {
        lemma_count_removed(s.drop_last(), j, x);
        assert(s.remove(j).drop_last() =~= s.drop_last().remove(j));
    } else {
        assert(s.remove(j) =~= s.drop_last());
    }
}

} // verus!
