use vstd::prelude::*;
use crate::common::{
    EntryModel, KVIterItem, copy_item, item_view, items_view, lookup, lemma_lookup_append,
    lemma_lookup_none, lemma_lookup_at, strictly_sorted,
};
use crate::key::{key_lt, lemma_key_order, lemma_key_lt_trans};

verus! {

/// What the sources hold for `key`, taken from the first source that has it.
pub open spec fn lookup_first(sources: Seq<Seq<EntryModel>>, key: Seq<u8>) -> Option<
    Option<Seq<u8>>,
>
    decreases sources.len(),
{
    if sources.len() == 0 {
        None
    } else if lookup_first(sources.drop_last(), key) is Some {
        lookup_first(sources.drop_last(), key)
    } else {
        lookup(sources.last(), key)
    }
}

/// `out` is the sorted merge of the sources: one entry per key that any source
/// holds, the one of the first source that holds it.
pub open spec fn is_merge(out: Seq<EntryModel>, sources: Seq<Seq<EntryModel>>) -> bool {
    &&& strictly_sorted(out)
    &&& forall|key: Seq<u8>| #[trigger] lookup(out, key) == lookup_first(sources, key)
}

proof fn lemma_lookup_some_index(s: Seq<EntryModel>, key: Seq<u8>) -> (i: int)
    requires
        lookup(s, key) is Some,
    ensures
        0 <= i < s.len(),
        s[i].0 == key,
{
    lemma_lookup_none(s, key);
    choose|i: int| 0 <= i < s.len() && s[i].0 == key
}

proof fn lemma_lookup_push(s: Seq<EntryModel>, e: EntryModel, key: Seq<u8>)
    ensures
        lookup(s.push(e), key) == (if lookup(s, key) is Some {
            lookup(s, key)
        } else if e.0 == key {
            Some(e.1)
        } else {
            None
        }),
{
    lemma_lookup_append(s, seq![e], key);
    assert(s + seq![e] =~= s.push(e));
    reveal_with_fuel(lookup, 2);
    assert(seq![e].drop_first() =~= Seq::<EntryModel>::empty());
}

/// Merges two sorted runs; on equal keys the entry of `a` is kept.
pub fn merge_two(a: &Vec<KVIterItem>, b: &Vec<KVIterItem>) -> (r: Vec<KVIterItem>)
    requires
        strictly_sorted(items_view(a@)),
        strictly_sorted(items_view(b@)),
    ensures
        strictly_sorted(items_view(r@)),
        forall|key: Seq<u8>|
            #[trigger] lookup(items_view(r@), key) == (if lookup(items_view(a@), key) is Some {
                lookup(items_view(a@), key)
            } else {
                lookup(items_view(b@), key)
            }),
{
    let ghost av = items_view(a@);
    let ghost bv = items_view(b@);
    let mut out: Vec<KVIterItem> = Vec::new();
    let mut i: usize = 0;
    let mut j: usize = 0;
    proof {
        assert(items_view(out@) =~= Seq::<EntryModel>::empty());
    }
    while i < a.len() || j < b.len()
        invariant
            av == items_view(a@),
            bv == items_view(b@),
            strictly_sorted(av),
            strictly_sorted(bv),
            i <= a@.len(),
            j <= b@.len(),
            strictly_sorted(items_view(out@)),
            forall|k: int|
                0 <= k < out@.len() ==> (i < a@.len() ==> key_lt(
                    #[trigger] items_view(out@)[k].0,
                    av[i as int].0,
                )) && (j < b@.len() ==> key_lt(items_view(out@)[k].0, bv[j as int].0)),
            forall|key: Seq<u8>|
                #[trigger] lookup(items_view(out@), key) == (if lookup(
                    av.subrange(0, i as int),
                    key,
                ) is Some {
                    lookup(av.subrange(0, i as int), key)
                } else {
                    lookup(bv.subrange(0, j as int), key)
                }),
        decreases a@.len() + b@.len() - i - j,
    {
        let ghost ov = items_view(out@);
        let ghost oi = i;
        let ghost oj = j;
        let take_a: bool;
        let take_b: bool;
        if i < a.len() && j < b.len() {
            let c = a[i].0.compare(&b[j].0);
            take_a = c <= 0;
            take_b = c >= 0;
            proof {
                lemma_key_order(av[i as int].0, bv[j as int].0);
            }
        } else {
            take_a = i < a.len();
            take_b = !take_a;
        }
        let x: KVIterItem;
        if take_a {
            x = copy_item(&a[i]);
        } else {
            x = copy_item(&b[j]);
        }
        let ghost xv = item_view(x);
        out.push(x);
        if take_a {
            i = i + 1;
        }
        if take_b {
            j = j + 1;
        }
        proof {
            assert(items_view(out@) =~= ov.push(xv));
            // the new entry sorts after all earlier output
            assert forall|p: int, q: int| 0 <= p < q < items_view(out@).len() implies key_lt(
                #[trigger] items_view(out@)[p].0,
                #[trigger] items_view(out@)[q].0,
            ) by {
                if q == ov.len() {
                    assert(items_view(out@)[p] == ov[p]);
                } else {
                    assert(items_view(out@)[p] == ov[p]);
                    assert(items_view(out@)[q] == ov[q]);
                }
            }
            // everything output so far sorts before what is left
            assert forall|k: int| 0 <= k < out@.len() implies (i < a@.len() ==> key_lt(
                #[trigger] items_view(out@)[k].0,
                av[i as int].0,
            )) && (j < b@.len() ==> key_lt(items_view(out@)[k].0, bv[j as int].0)) by {
                if i < a@.len() {
                    if k < ov.len() {
                        assert(items_view(out@)[k] == ov[k]);
                        if take_a {
                            lemma_key_lt_trans(ov[k].0, av[oi as int].0, av[i as int].0);
                        }
                    } else {
                        if !take_a {
                            lemma_key_order(bv[oj as int].0, av[i as int].0);
                        }
                    }
                }
                if j < b@.len() {
                    if k < ov.len() {
                        assert(items_view(out@)[k] == ov[k]);
                        if take_b {
                            lemma_key_lt_trans(ov[k].0, bv[oj as int].0, bv[j as int].0);
                        }
                    } else {
                        if take_a && !take_b {
                            lemma_key_order(av[oi as int].0, bv[j as int].0);
                        } else {
                            assert(xv.0 == bv[oj as int].0);
                            assert(key_lt(bv[oj as int].0, bv[j as int].0));
                        }
                    }
                }
            }
            assert forall|key: Seq<u8>| #[trigger] lookup(items_view(out@), key) == (if lookup(
                av.subrange(0, i as int),
                key,
            ) is Some {
                lookup(av.subrange(0, i as int), key)
            } else {
                lookup(bv.subrange(0, j as int), key)
            }) by {
                lemma_lookup_push(ov, xv, key);
                if take_a {
                    assert(av.subrange(0, i as int) =~= av.subrange(0, oi as int).push(
                        av[oi as int],
                    ));
                    lemma_lookup_push(av.subrange(0, oi as int), av[oi as int], key);
                }
                if take_b {
                    assert(bv.subrange(0, j as int) =~= bv.subrange(0, oj as int).push(
                        bv[oj as int],
                    ));
                    lemma_lookup_push(bv.subrange(0, oj as int), bv[oj as int], key);
                }
                if key == xv.0 {
                    // the key is new: no earlier output, and so no consumed entry, has it
                    if lookup(ov, key) is Some {
                        let k = lemma_lookup_some_index(ov, key);
                        if take_a {
                            lemma_key_order(ov[k].0, av[oi as int].0);
                        } else {
                            lemma_key_order(ov[k].0, bv[oj as int].0);
                        }
                    }
                    if lookup(av.subrange(0, oi as int), key) is Some {
                        let k = lemma_lookup_some_index(av.subrange(0, oi as int), key);
                        assert(av.subrange(0, oi as int)[k] == av[k]);
                        if take_a {
                            lemma_key_order(av[k].0, av[oi as int].0);
                        }
                    }
                    if lookup(bv.subrange(0, oj as int), key) is Some {
                        let k = lemma_lookup_some_index(bv.subrange(0, oj as int), key);
                        assert(bv.subrange(0, oj as int)[k] == bv[k]);
                        if take_b {
                            lemma_key_order(bv[k].0, bv[oj as int].0);
                        }
                    }
                    if !take_a && oi < a@.len() {
                        lemma_key_order(av[oi as int].0, key);
                    }
                } else {
                    if take_a && !take_b && oj < b@.len() {
                    }
                }
            }
        }
    }
    proof {
        assert(av.subrange(0, i as int) =~= av);
        assert(bv.subrange(0, j as int) =~= bv);
    }
    out
}

pub open spec fn sources_view(sources: Seq<Vec<KVIterItem>>) -> Seq<Seq<EntryModel>> {
    sources.map_values(|v: Vec<KVIterItem>| items_view(v@))
}

/// Merges sorted runs into one: one entry per key, the one of the earliest run
/// that holds the key.
pub fn merge_sources(sources: &Vec<Vec<KVIterItem>>) -> (r: Vec<KVIterItem>)
    requires
        forall|i: int| 0 <= i < sources@.len() ==> strictly_sorted(#[trigger] items_view(sources@[i]@)),
    ensures
        is_merge(items_view(r@), sources_view(sources@)),
{
    let mut acc: Vec<KVIterItem> = Vec::new();
    let mut i: usize = 0;
    proof {
        assert(sources_view(sources@).subrange(0, 0) =~= Seq::<Seq<EntryModel>>::empty());
    }
    while i < sources.len()
        invariant
            i <= sources@.len(),
            forall|k: int| 0 <= k < sources@.len() ==> strictly_sorted(#[trigger] items_view(sources@[k]@)),
            is_merge(items_view(acc@), sources_view(sources@).subrange(0, i as int)),
        decreases sources@.len() - i,
    {
        let next = merge_two(&acc, &sources[i]);
        proof {
            let sv = sources_view(sources@);
            assert(sv.subrange(0, i + 1).drop_last() =~= sv.subrange(0, i as int));
            assert(sv.subrange(0, i + 1).last() == items_view(sources@[i as int]@));
        }
        acc = next;
        i = i + 1;
    }
    proof {
        assert(sources_view(sources@).subrange(0, i as int) =~= sources_view(sources@));
    }
    acc
}

/// Keeps the live entries, dropping tombstones.
pub fn filter_live(s: &Vec<KVIterItem>) -> (r: Vec<KVIterItem>)
    requires
        strictly_sorted(items_view(s@)),
    ensures
        strictly_sorted(items_view(r@)),
        forall|i: int| 0 <= i < r@.len() ==> (#[trigger] r@[i]).1 is Some,
        forall|key: Seq<u8>|
            #[trigger] lookup(items_view(r@), key) == match lookup(items_view(s@), key) {
                Some(Some(v)) => Some(Some(v)),
                _ => None,
            },
        items_view(r@).len() <= items_view(s@).len(),
{
    let ghost sv = items_view(s@);
    let mut out: Vec<KVIterItem> = Vec::new();
    let mut i: usize = 0;
    while i < s.len()
        invariant
            sv == items_view(s@),
            strictly_sorted(sv),
            i <= s@.len(),
            out@.len() <= i,
            strictly_sorted(items_view(out@)),
            forall|k: int| 0 <= k < out@.len() ==> (#[trigger] out@[k]).1 is Some,
            forall|k: int|
                0 <= k < out@.len() ==> i < s@.len() ==> key_lt(
                    #[trigger] items_view(out@)[k].0,
                    sv[i as int].0,
                ),
            forall|key: Seq<u8>|
                #[trigger] lookup(items_view(out@), key) == match lookup(
                    sv.subrange(0, i as int),
                    key,
                ) {
                    Some(Some(v)) => Some(Some(v)),
                    _ => None,
                },
        decreases s@.len() - i,
    {
        let ghost ov = items_view(out@);
        let ghost e = sv[i as int];
        proof {
            assert(sv.subrange(0, i + 1) =~= sv.subrange(0, i as int).push(e));
        }
        if s[i].1.is_some() {
            let x = copy_item(&s[i]);
            out.push(x);
            proof {
                assert(items_view(out@) =~= ov.push(e));
            }
        }
        proof {
            assert forall|key: Seq<u8>| #[trigger] lookup(items_view(out@), key) == match lookup(
                sv.subrange(0, i + 1),
                key,
            ) {
                Some(Some(v)) => Some(Some(v)),
                _ => None,
            } by {
                lemma_lookup_push(sv.subrange(0, i as int), e, key);
                if e.1 is Some {
                    lemma_lookup_push(ov, e, key);
                    if lookup(ov, key) is Some && key == e.0 {
                        let k = lemma_lookup_some_index(ov, key);
                        lemma_key_order(ov[k].0, e.0);
                    }
                }
                if key == e.0 && lookup(sv.subrange(0, i as int), key) is Some {
                    let k = lemma_lookup_some_index(sv.subrange(0, i as int), key);
                    assert(sv.subrange(0, i as int)[k] == sv[k]);
                    lemma_key_order(sv[k].0, e.0);
                }
            }
            assert forall|p: int, q: int| 0 <= p < q < items_view(out@).len() implies key_lt(
                #[trigger] items_view(out@)[p].0,
                #[trigger] items_view(out@)[q].0,
            ) by {
                assert(items_view(out@)[p] == ov[p]);
                if q < ov.len() {
                    assert(items_view(out@)[q] == ov[q]);
                }
            }
            assert forall|k: int| 0 <= k < out@.len() implies i + 1 < s@.len() ==> key_lt(
                #[trigger] items_view(out@)[k].0,
                sv[i + 1].0,
            ) by {
                if i + 1 < s@.len() {
                    if k < ov.len() {
                        assert(items_view(out@)[k] == ov[k]);
                        lemma_key_lt_trans(ov[k].0, e.0, sv[i + 1].0);
                    }
                }
            }
        }
        i = i + 1;
    }
    proof {
        assert(sv.subrange(0, i as int) =~= sv);
    }
    out
}

/// A merged view over sorted runs, read entry by entry.
pub struct SortedKVIter {
    merged: Vec<KVIterItem>,
    next_position: usize,
}

impl View for SortedKVIter {
    type V = Seq<EntryModel>;

    /// The entries not read yet.
    closed spec fn view(&self) -> Seq<EntryModel> {
        items_view(self.merged@).subrange(self.next_position as int, self.merged@.len() as int)
    }
}

impl SortedKVIter {
    #[verifier::type_invariant]
    spec fn position_ok(&self) -> bool {
        self.next_position <= self.merged@.len()
    }

    /// Runs earlier in `iters` win over later ones on equal keys.
    pub fn new(iters: Vec<Vec<KVIterItem>>) -> (r: SortedKVIter)
        requires
            forall|i: int| 0 <= i < iters@.len() ==> strictly_sorted(#[trigger] items_view(iters@[i]@)),
        ensures
            is_merge(r@, sources_view(iters@)),
    {
        let merged = merge_sources(&iters);
        proof {
            assert(items_view(merged@).subrange(0, merged@.len() as int) =~= items_view(merged@));
        }
        SortedKVIter { merged, next_position: 0 }
    }

    pub fn has_next(&self) -> (r: bool)
        ensures
            r == (self@.len() > 0),
    {
        proof {
            use_type_invariant(self);
        }
        self.next_position < self.merged.len()
    }

    /// The next entry in key order.
    pub fn next(&mut self) -> (r: Option<KVIterItem>)
        ensures
            old(self)@.len() == 0 ==> r is None && final(self)@ == old(self)@,
            old(self)@.len() > 0 ==> r is Some && item_view(r.unwrap()) == old(self)@[0]
                && final(self)@ == old(self)@.drop_first(),
    {
        proof {
            use_type_invariant(&*self);
        }
        if self.next_position < self.merged.len() {
            let x = copy_item(&self.merged[self.next_position]);
            self.next_position = self.next_position + 1;
            proof {
                assert(final(self)@ =~= old(self)@.drop_first());
            }
            Some(x)
        } else {
            None
        }
    }
}

} // verus!
