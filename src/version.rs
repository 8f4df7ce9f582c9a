use vstd::prelude::*;
use crate::common::{EntryModel, MyError, ValueWithTag, found_view};
use crate::config::Config;
use crate::key::Key;
use crate::level::{
    CompactSStableResult, FileId, FileMetaModel, Level, LevelChange, SStableFileMeta, TableStore,
    copy_metas, level_sorted, metas_view, store_matches, tables_of,
};
use crate::merge::lookup_first;
use crate::value::Value;

verus! {

/// The level at index `i`, empty where the version has none.
pub open spec fn level_at(v: Seq<Seq<FileMetaModel>>, i: int) -> Seq<FileMetaModel> {
    if 0 <= i < v.len() {
        v[i]
    } else {
        seq![]
    }
}

/// `v` with level `i` replaced by `l`, empty levels added before it if needed.
pub open spec fn set_level(v: Seq<Seq<FileMetaModel>>, i: int, l: Seq<FileMetaModel>) -> Seq<
    Seq<FileMetaModel>,
> {
    if i < v.len() {
        v.update(i, l)
    } else {
        (v + Seq::new((i - v.len()) as nat, |j: int| Seq::<FileMetaModel>::empty())).push(l)
    }
}

/// The level without the tables of file `id`.
pub open spec fn without_id(l: Seq<FileMetaModel>, id: u64) -> Seq<FileMetaModel>
    decreases l.len(),
{
    if l.len() == 0 {
        seq![]
    } else if l.last().0 == id {
        without_id(l.drop_last(), id)
    } else {
        without_id(l.drop_last(), id).push(l.last())
    }
}

/// `n` tables removed at `pos`, and `add` put in their place.
pub open spec fn splice(l: Seq<FileMetaModel>, pos: int, n: int, add: Seq<FileMetaModel>) -> Seq<
    FileMetaModel,
> {
    l.subrange(0, pos) + add + l.subrange(pos + n, l.len() as int)
}

/// The change refers to tables that the version has.
pub open spec fn change_applicable(v: Seq<Seq<FileMetaModel>>, c: &LevelChange) -> bool {
    match c {
        LevelChange::MemtableCompact { .. } => true,
        LevelChange::LevelCompact { compact_from_level, compact_result, .. } => {
            &&& *compact_from_level + 2 <= usize::MAX
            &&& compact_result.position + compact_result.remove_sstables@.len() <= level_at(
                v,
                *compact_from_level + 1,
            ).len()
        },
    }
}

/// The version that a change makes of `v`.
#[verifier::opaque]
pub open spec fn apply_model(v: Seq<Seq<FileMetaModel>>, c: &LevelChange) -> Seq<
    Seq<FileMetaModel>,
> {
    match c {
        LevelChange::MemtableCompact { sstable_file_metas } => set_level(
            v,
            0,
            seq![sstable_file_metas@] + level_at(v, 0),
        ),
        LevelChange::LevelCompact { compact_from_level, compact_sstable, compact_result } => {
            let from = *compact_from_level as int;
            let v1 = set_level(v, from, without_id(level_at(v, from), compact_sstable@.0));
            set_level(
                v1,
                from + 1,
                splice(
                    level_at(v, from + 1),
                    compact_result.position as int,
                    compact_result.remove_sstables@.len() as int,
                    metas_view(compact_result.add_sstables@),
                ),
            )
        },
    }
}

/// The version that replaying `cs` on an empty version gives.
pub open spec fn replay(cs: Seq<LevelChange>) -> Seq<Seq<FileMetaModel>>
    decreases cs.len(),
{
    if cs.len() == 0 {
        seq![]
    } else {
        apply_model(replay(cs.drop_last()), &cs.last())
    }
}

/// The version that applying `cs` in order to `v` gives.
pub open spec fn apply_all(v: Seq<Seq<FileMetaModel>>, cs: Seq<LevelChange>) -> Seq<Seq<FileMetaModel>>
    decreases cs.len(),
{
    if cs.len() == 0 {
        v
    } else {
        apply_model(apply_all(v, cs.drop_last()), &cs.last())
    }
}

/// Every change of `cs` is applicable to the version before it.
pub open spec fn replayable(cs: Seq<LevelChange>) -> bool {
    forall|i: int| 0 <= i < cs.len() ==> change_applicable(replay(cs.subrange(0, i)), &cs[i])
}

/// Manifest replay: replaying the first `n + 1` changes gives the version that
/// applying change `n` to the replay of the first `n` gives.
pub proof fn lemma_replay_step(cs: Seq<LevelChange>, n: int)
    requires
        0 <= n < cs.len(),
    ensures
        replay(cs.subrange(0, n + 1)) == apply_model(replay(cs.subrange(0, n)), &cs[n]),
{
    assert(cs.subrange(0, n + 1).drop_last() =~= cs.subrange(0, n));
}

/// No level from `n + 2` on holds a table: level `n + 1` is the deepest
/// level that a compaction out of level `n` can reach.
pub open spec fn deepest_below(v: Seq<Seq<FileMetaModel>>, n: int) -> bool {
    forall|i: int| n + 2 <= i < v.len() ==> (#[trigger] v[i]).len() == 0
}

/// What a compaction out of level `n` returns: the tables of level `n + 1`
/// that meet the moved table's key range are removed at `position`, and the
/// new tables hold the merge of the moved table (first) and the removed ones,
/// without tombstones when level `n + 1` is the deepest. A table that meets
/// nothing and keeps its tombstones moves down unchanged.
pub open spec fn compaction_result(
    store: &TableStore,
    v: Seq<Seq<FileMetaModel>>,
    c: &LevelChange,
    tables: Seq<(FileId, crate::sstable::SSTable)>,
) -> bool {
    match c {
        LevelChange::LevelCompact { compact_from_level, compact_sstable, compact_result } => {
            let n = *compact_from_level as int;
            let target = level_at(v, n + 1);
            let input = seq![compact_sstable@];
            let removed = metas_view(compact_result.remove_sstables@);
            let add = compact_result.add_sstables@;
            let p = compact_result.position as int;
            let discard = deepest_below(v, n);
            &&& p + removed.len() <= target.len()
            &&& removed == target.subrange(p, p + removed.len())
            &&& forall|i: int|
                0 <= i < target.len() ==> (p <= i < p + removed.len() <==> crate::level::overlaps(
                    #[trigger] target[i],
                    compact_sstable@.1,
                    compact_sstable@.2,
                ))
            &&& forall|k: int| 0 <= k < tables.len() ==> (#[trigger] tables[k]).1.wf()
            &&& if removed.len() == 0 && !discard {
                metas_view(add) == input && tables.len() == 0
            } else {
                &&& add.len() == tables.len()
                &&& forall|k: int|
                    0 <= k < tables.len() ==> (#[trigger] add[k])@ == (
                        tables[k].0,
                        tables[k].1@[0].0,
                        tables[k].1@.last().0,
                    )
                &&& crate::level::compacted(
                    crate::level::concat(crate::level::new_tables_view(tables)),
                    tables_of(store, input) + tables_of(store, removed),
                    discard,
                )
            }
        },
        _ => false,
    }
}

/// Tables of all levels: level 0 first, each level in its own order.
pub open spec fn all_tables(store: &TableStore, v: Seq<Seq<FileMetaModel>>) -> Seq<Seq<EntryModel>>
    decreases v.len(),
{
    if v.len() == 0 {
        seq![]
    } else {
        all_tables(store, v.drop_last()) + tables_of(store, v.last())
    }
}

/// What a read of `key` finds: the value of the first table, in level order,
/// that holds the key; nothing where that entry is a tombstone.
pub open spec fn version_get(store: &TableStore, v: Seq<Seq<FileMetaModel>>, key: Seq<u8>) -> Option<
    Seq<u8>,
> {
    match lookup_first(all_tables(store, v), key) {
        Some(Some(x)) => Some(x),
        _ => None,
    }
}

/// The store holds every table of the version with its recorded key range,
/// and each level from 1 on is in key order.
pub open spec fn consistent(store: &TableStore, v: Seq<Seq<FileMetaModel>>) -> bool {
    &&& forall|i: int| 0 <= i < v.len() ==> store_matches(store, #[trigger] v[i])
    &&& forall|i: int| 1 <= i < v.len() ==> level_sorted(#[trigger] v[i])
}

proof fn lemma_lookup_first_concat(a: Seq<Seq<EntryModel>>, b: Seq<Seq<EntryModel>>, key: Seq<u8>)
    ensures
        lookup_first(a + b, key) == if lookup_first(a, key) is Some {
            lookup_first(a, key)
        } else {
            lookup_first(b, key)
        },
    decreases b.len(),
{
    if b.len() == 0 {
        assert(a + b =~= a);
    } else {
        assert((a + b).drop_last() =~= a + b.drop_last());
        lemma_lookup_first_concat(a, b.drop_last(), key);
    }
}

proof fn lemma_all_tables_concat(store: &TableStore, a: Seq<Seq<FileMetaModel>>, b: Seq<Seq<FileMetaModel>>)
    ensures
        all_tables(store, a + b) == all_tables(store, a) + all_tables(store, b),
    decreases b.len(),
{
    if b.len() == 0 {
        assert(a + b =~= a);
        assert(all_tables(store, a) + all_tables(store, b) =~= all_tables(store, a));
    } else {
        assert((a + b).drop_last() =~= a + b.drop_last());
        lemma_all_tables_concat(store, a, b.drop_last());
        assert(all_tables(store, a + b) =~= all_tables(store, a) + all_tables(store, b));
    }
}

pub open spec fn levels_view(v: Seq<Level>) -> Seq<Seq<FileMetaModel>> {
    v.map_values(|l: Level| l@)
}

pub open spec fn meta_lists_view(v: Seq<Vec<SStableFileMeta>>) -> Seq<Seq<FileMetaModel>> {
    v.map_values(|l: Vec<SStableFileMeta>| metas_view(l@))
}

/// Table count at which a level is compacted: `level_0_file_limit` for level 0,
/// else `expand^level` MiB over the table size, capped at `usize::MAX`.
pub open spec fn level_limit(level: nat, l0: nat, expand: nat, table_size: nat) -> nat {
    if level == 0 {
        l0
    } else {
        let exact = vstd::arithmetic::power::pow(expand as int, level) * 1048576 / table_size as int;
        if exact > usize::MAX {
            usize::MAX as nat
        } else {
            exact as nat
        }
    }
}

/// A read-only snapshot of which tables live in which level.
pub struct Version {
    levels: Vec<Level>,
    config: Config,
}

impl View for Version {
    type V = Seq<Seq<FileMetaModel>>;

    closed spec fn view(&self) -> Seq<Seq<FileMetaModel>> {
        levels_view(self.levels@)
    }
}

fn copy_levels(levels: &Vec<Level>) -> (r: Vec<Vec<SStableFileMeta>>)
    ensures
        meta_lists_view(r@) == levels_view(levels@),
{
    let mut out: Vec<Vec<SStableFileMeta>> = Vec::new();
    let mut i: usize = 0;
    while i < levels.len()
        invariant
            i <= levels@.len(),
            meta_lists_view(out@) == levels_view(levels@).subrange(0, i as int),
        decreases levels@.len() - i,
    {
        let l = levels[i].copy_sstable_meta();
        let ghost prev = out@;
        out.push(l);
        proof {
            assert(meta_lists_view(out@) =~= meta_lists_view(prev).push(levels@[i as int]@));
            assert(levels_view(levels@).subrange(0, i + 1) =~= levels_view(levels@).subrange(
                0,
                i as int,
            ).push(levels@[i as int]@));
        }
        i = i + 1;
    }
    proof {
        assert(levels_view(levels@).subrange(0, i as int) =~= levels_view(levels@));
    }
    out
}

fn into_levels(lists: Vec<Vec<SStableFileMeta>>) -> (r: Vec<Level>)
    ensures
        levels_view(r@) == meta_lists_view(lists@),
{
    let mut lists = lists;
    let ghost orig = meta_lists_view(lists@);
    let mut rev: Vec<Level> = Vec::new();
    while lists.len() > 0
        invariant
            meta_lists_view(lists@) == orig.subrange(0, lists@.len() as int),
            lists@.len() + rev@.len() == orig.len(),
            forall|k: int| 0 <= k < rev@.len() ==> (#[trigger] rev@[k])@ == orig[orig.len() - 1 - k],
        decreases lists@.len(),
    {
        let ghost before = lists@;
        let l = lists.pop().unwrap();
        proof {
            assert(before.last() == l);
            assert(meta_lists_view(before)[lists@.len() as int] == metas_view(l@));
            assert(meta_lists_view(before) == orig.subrange(0, before.len() as int));
            assert(metas_view(l@) == orig[lists@.len() as int]);
            assert(meta_lists_view(lists@) =~= orig.subrange(0, lists@.len() as int));
        }
        let ghost prev = rev@;
        rev.push(Level::new(l));
        proof {
            assert forall|k: int| 0 <= k < rev@.len() implies (#[trigger] rev@[k])@ == orig[orig.len()
                - 1 - k] by {
                if k < prev.len() {
                    assert(rev@[k] == prev[k]);
                }
            }
        }
    }
    let mut out: Vec<Level> = Vec::new();
    while rev.len() > 0
        invariant
            out@.len() + rev@.len() == orig.len(),
            forall|k: int| 0 <= k < rev@.len() ==> (#[trigger] rev@[k])@ == orig[orig.len() - 1 - k],
            levels_view(out@) == orig.subrange(0, out@.len() as int),
        decreases rev@.len(),
    {
        let l = rev.pop().unwrap();
        let ghost prev = out@;
        out.push(l);
        proof {
            assert(levels_view(out@) =~= orig.subrange(0, out@.len() as int));
        }
    }
    proof {
        assert(orig.subrange(0, out@.len() as int) =~= orig);
    }
    out
}

/// Adds empty levels until level `i` exists.
fn ensure_level(lists: &mut Vec<Vec<SStableFileMeta>>, i: usize)
    requires
        i < usize::MAX,
    ensures
        final(lists)@.len() > i,
        meta_lists_view(final(lists)@) == if i < old(lists)@.len() {
            meta_lists_view(old(lists)@)
        } else {
            meta_lists_view(old(lists)@) + Seq::new(
                (i + 1 - old(lists)@.len()) as nat,
                |j: int| Seq::<FileMetaModel>::empty(),
            )
        },
{
    let ghost orig = meta_lists_view(lists@);
    let ghost n0 = lists@.len();
    while lists.len() <= i
        invariant
            i < usize::MAX,
            lists@.len() >= n0,
            n0 > i ==> lists@.len() == n0,
            n0 <= i ==> lists@.len() <= i + 1,
            meta_lists_view(lists@) == orig + Seq::new(
                (lists@.len() - n0) as nat,
                |j: int| Seq::<FileMetaModel>::empty(),
            ),
        decreases i + 1 - lists@.len(),
    {
        let ghost prev = lists@;
        let e: Vec<SStableFileMeta> = Vec::new();
        proof {
            assert(metas_view(e@) =~= Seq::<FileMetaModel>::empty());
        }
        lists.push(e);
        proof {
            assert(lists@ == prev.push(e));
            assert(meta_lists_view(lists@) =~= meta_lists_view(prev).push(metas_view(e@)));
            assert(meta_lists_view(lists@) =~= orig + Seq::new(
                (lists@.len() - n0) as nat,
                |j: int| Seq::<FileMetaModel>::empty(),
            ));
        }
    }
    proof {
        if i < n0 {
            assert(lists@.len() == n0);
            assert(Seq::new((lists@.len() - n0) as nat, |j: int| Seq::<FileMetaModel>::empty())
                =~= Seq::<Seq<FileMetaModel>>::empty());
            assert(meta_lists_view(lists@) =~= orig);
        }
    }
}

/// The tables of `l` except those of file `id`.
fn remove_id(l: &Vec<SStableFileMeta>, id: FileId) -> (r: Vec<SStableFileMeta>)
    ensures
        metas_view(r@) == without_id(metas_view(l@), id),
{
    let ghost lv = metas_view(l@);
    let mut out: Vec<SStableFileMeta> = Vec::new();
    let mut i: usize = 0;
    while i < l.len()
        invariant
            lv == metas_view(l@),
            i <= l@.len(),
            metas_view(out@) == without_id(lv.subrange(0, i as int), id),
        decreases l@.len() - i,
    {
        proof {
            assert(lv.subrange(0, i + 1).drop_last() =~= lv.subrange(0, i as int));
            assert(lv.subrange(0, i + 1).last() == l@[i as int]@);
        }
        if l[i].file_id() != id {
            let x = l[i].duplicate();
            let ghost prev = out@;
            out.push(x);
            proof {
                assert(metas_view(out@) =~= metas_view(prev).push(x@));
            }
        }
        i = i + 1;
    }
    proof {
        assert(lv.subrange(0, i as int) =~= lv);
    }
    out
}

/// `l` with `n` tables removed at `pos` and `add` put in their place.
fn splice_metas(l: &Vec<SStableFileMeta>, pos: usize, n: usize, add: &Vec<SStableFileMeta>) -> (r: Vec<
    SStableFileMeta,
>)
    requires
        pos + n <= l@.len(),
    ensures
        metas_view(r@) == splice(metas_view(l@), pos as int, n as int, metas_view(add@)),
{
    let ghost lv = metas_view(l@);
    let ghost av = metas_view(add@);
    let ln = l.len();
    let mut out: Vec<SStableFileMeta> = Vec::new();
    let mut i: usize = 0;
    while i < pos
        invariant
            lv == metas_view(l@),
            i <= pos,
            pos + n <= l@.len(),
            metas_view(out@) == lv.subrange(0, i as int),
        decreases pos - i,
    {
        let x = l[i].duplicate();
        let ghost prev = out@;
        out.push(x);
        proof {
            assert(metas_view(out@) =~= metas_view(prev).push(x@));
            assert(lv.subrange(0, i + 1) =~= lv.subrange(0, i as int).push(lv[i as int]));
        }
        i = i + 1;
    }
    let mut j: usize = 0;
    while j < add.len()
        invariant
            av == metas_view(add@),
            j <= add@.len(),
            metas_view(out@) == lv.subrange(0, pos as int) + av.subrange(0, j as int),
        decreases add@.len() - j,
    {
        let x = add[j].duplicate();
        let ghost prev = out@;
        out.push(x);
        proof {
            assert(metas_view(out@) =~= metas_view(prev).push(x@));
            assert(av.subrange(0, j + 1) =~= av.subrange(0, j as int).push(av[j as int]));
            assert(lv.subrange(0, pos as int) + av.subrange(0, j + 1) =~= (lv.subrange(0, pos as int)
                + av.subrange(0, j as int)).push(av[j as int]));
        }
        j = j + 1;
    }
    let mut k: usize = pos + n;
    proof {
        assert(av.subrange(0, j as int) =~= av);
        assert(lv.subrange(pos + n, k as int) =~= Seq::<FileMetaModel>::empty());
    }
    while k < l.len()
        invariant
            lv == metas_view(l@),
            pos + n <= k <= l@.len(),
            metas_view(out@) == lv.subrange(0, pos as int) + av + lv.subrange(pos + n, k as int),
        decreases l@.len() - k,
    {
        let x = l[k].duplicate();
        let ghost prev = out@;
        out.push(x);
        proof {
            assert(metas_view(out@) =~= metas_view(prev).push(x@));
            assert(lv.subrange(pos + n, k + 1) =~= lv.subrange(pos + n, k as int).push(lv[k as int]));
            assert(lv.subrange(0, pos as int) + av + lv.subrange(pos + n, k + 1) =~= (lv.subrange(
                0,
                pos as int,
            ) + av + lv.subrange(pos + n, k as int)).push(lv[k as int]));
        }
        k = k + 1;
    }
    out
}

/// Replaces list `i` of `lists`.
fn put_list(lists: &mut Vec<Vec<SStableFileMeta>>, i: usize, l: Vec<SStableFileMeta>)
    requires
        i < old(lists)@.len(),
    ensures
        meta_lists_view(final(lists)@) == meta_lists_view(old(lists)@).update(i as int, metas_view(l@)),
{
    let ghost orig = meta_lists_view(lists@);
    lists.remove(i);
    lists.insert(i, l);
    proof {
        assert(meta_lists_view(lists@) =~= orig.update(i as int, metas_view(l@)));
    }
}

proof fn lemma_set_level_padded(v: Seq<Seq<FileMetaModel>>, i: int, m: int, l: Seq<FileMetaModel>)
    requires
        0 <= i < m,
    ensures
        ({
            let padded = if m <= v.len() {
                v
            } else {
                v + Seq::new((m - v.len()) as nat, |j: int| Seq::<FileMetaModel>::empty())
            };
            &&& padded.len() >= m
            &&& padded[i] == level_at(v, i)
            &&& padded.update(i, l) == set_level(v, i, l) + Seq::new(
                (padded.len() - set_level(v, i, l).len()) as nat,
                |j: int| Seq::<FileMetaModel>::empty(),
            )
        }),
{
    let padded = if m <= v.len() {
        v
    } else {
        v + Seq::new((m - v.len()) as nat, |j: int| Seq::<FileMetaModel>::empty())
    };
    let sl = set_level(v, i, l);
    assert(padded.update(i, l) =~= sl + Seq::new(
        (padded.len() - sl.len()) as nat,
        |j: int| Seq::<FileMetaModel>::empty(),
    ));
}

impl Version {
    /// A version without tables.
    pub fn new(config: Config) -> (r: Version)
        ensures
            r@ == Seq::<Seq<FileMetaModel>>::empty(),
            r.config_spec() == config,
    {
        let r = Version { levels: Vec::new(), config };
        proof {
            assert(r@ =~= Seq::<Seq<FileMetaModel>>::empty());
        }
        r
    }

    pub fn set_config(&mut self, config: Config)
        ensures
            final(self)@ == old(self)@,
            final(self).config_spec() == config,
    {
        self.config = config;
    }

    /// The version that `level_change` makes of this one; this one is unchanged.
    pub fn apply_change(&self, level_change: &LevelChange) -> (r: Version)
        requires
            change_applicable(self@, level_change),
        ensures
            r@ == apply_model(self@, level_change),
            r.config_spec() == self.config_spec(),
    {
        reveal(apply_model);
        let mut lists = copy_levels(&self.levels);
        let ghost v = self@;
        match level_change {
            LevelChange::MemtableCompact { sstable_file_metas } => {
                ensure_level(&mut lists, 0);
                let mut one: Vec<SStableFileMeta> = Vec::new();
                one.push(sstable_file_metas.duplicate());
                let l0 = splice_metas(&lists[0], 0, 0, &one);
                proof {
                    lemma_set_level_padded(v, 0, 1, metas_view(l0@));
                    assert(metas_view(one@) =~= seq![sstable_file_metas@]);
                    assert(metas_view(l0@) =~= seq![sstable_file_metas@] + level_at(v, 0));
                }
                put_list(&mut lists, 0, l0);
                proof {
                    assert(meta_lists_view(lists@) =~= apply_model(v, level_change));
                }
            },
            LevelChange::LevelCompact { compact_from_level, compact_sstable, compact_result } => {
                let from = *compact_from_level;
                ensure_level(&mut lists, from + 1);
                let ghost padded = meta_lists_view(lists@);
                let a = remove_id(&lists[from], compact_sstable.file_id());
                proof {
                    lemma_set_level_padded(v, from as int, from + 2, metas_view(a@));
                }
                put_list(&mut lists, from, a);
                let ghost v1 = set_level(v, from as int, without_id(level_at(v, from as int), compact_sstable@.0));
                proof {
                    assert(meta_lists_view(lists@) =~= v1 + Seq::new(
                        (padded.len() - v1.len()) as nat,
                        |j: int| Seq::<FileMetaModel>::empty(),
                    ));
                    assert(meta_lists_view(lists@)[from + 1] == level_at(v, from + 1));
                }
                let b = splice_metas(
                    &lists[from + 1],
                    compact_result.position,
                    compact_result.remove_sstables.len(),
                    &compact_result.add_sstables,
                );
                let ghost before_b = meta_lists_view(lists@);
                put_list(&mut lists, from + 1, b);
                proof {
                    let sl = set_level(v1, from + 1, metas_view(b@));
                    assert(meta_lists_view(lists@) =~= sl);
                }
            },
        }
        Version { levels: into_levels(lists), config: self.config.duplicate() }
    }
}

impl Version {
    /// Whether `level_change` refers to tables that this version has.
    pub fn can_apply(&self, level_change: &LevelChange) -> (r: bool)
        ensures
            r == change_applicable(self@, level_change),
    {
        match level_change {
            LevelChange::MemtableCompact { .. } => true,
            LevelChange::LevelCompact { compact_from_level, compact_result, .. } => {
                let from = *compact_from_level;
                if from > usize::MAX - 2 {
                    return false;
                }
                let next_len = if from + 1 < self.levels.len() {
                    self.levels[from + 1].len()
                } else {
                    0
                };
                let removed = compact_result.remove_sstables.len();
                compact_result.position <= next_len && removed <= next_len
                    - compact_result.position
            },
        }
    }

    /// Replays level changes on an empty version; `Corruption` where a change
    /// refers to tables that the version before it does not have.
    pub fn from(level_changes: &Vec<LevelChange>, config: Config) -> (r: Result<Version, MyError>)
        ensures
            r is Ok <==> replayable(level_changes@),
            r is Ok ==> r.unwrap()@ == replay(level_changes@),
            r is Ok ==> r.unwrap().config_spec() == config,
            r is Err ==> r == Err::<Version, MyError>(MyError::Corruption),
    {
        let ghost cfg = config;
        let mut v = Version::new(config);
        let mut i: usize = 0;
        proof {
            assert(level_changes@.subrange(0, 0) =~= Seq::<LevelChange>::empty());
        }
        while i < level_changes.len()
            invariant
                i <= level_changes@.len(),
                v.config_spec() == cfg,
                v@ == replay(level_changes@.subrange(0, i as int)),
                forall|k: int|
                    0 <= k < i ==> change_applicable(
                        replay(level_changes@.subrange(0, k)),
                        &#[trigger] level_changes@[k],
                    ),
            decreases level_changes@.len() - i,
        {
            if !v.can_apply(&level_changes[i]) {
                return Err(MyError::Corruption);
            }
            let next = v.apply_change(&level_changes[i]);
            proof {
                lemma_replay_step(level_changes@, i as int);
            }
            v = next;
            i = i + 1;
        }
        proof {
            assert(level_changes@.subrange(0, i as int) =~= level_changes@);
        }
        Ok(v)
    }

    /// One more than the highest level that holds a table; 0 when none does.
    pub fn depth(&self) -> (r: usize)
        ensures
            r <= self@.len(),
            forall|i: int| r <= i < self@.len() ==> (#[trigger] self@[i]).len() == 0,
            r > 0 ==> self@[r - 1].len() > 0,
    {
        let mut d: usize = self.levels.len();
        while d > 0
            invariant
                d <= self@.len(),
                forall|i: int| d <= i < self@.len() ==> (#[trigger] self@[i]).len() == 0,
            decreases d,
        {
            if self.levels[d - 1].len() != 0 {
                return d;
            }
            d = d - 1;
        }
        0
    }

    /// Point read: level 0 newest first, then each deeper level; the first
    /// entry found decides, and a tombstone reads as absent.
    pub fn get(&self, key: &Key, store: &TableStore) -> (r: Result<Option<Value>, MyError>)
        requires
            store.wf(),
            consistent(store, self@),
        ensures
            r is Ok,
            crate::common::tag_view(r.unwrap()) == version_get(store, self@, key@),
    {
        let ghost v = self@;
        let n = self.levels.len();
        let mut i: usize = 0;
        proof {
            assert(v.subrange(0, 0) =~= Seq::<Seq<FileMetaModel>>::empty());
        }
        while i < n
            invariant
                store.wf(),
                consistent(store, v),
                v == self@,
                n == v.len(),
                i <= n,
                lookup_first(all_tables(store, v.subrange(0, i as int)), key@) is None,
            decreases n - i,
        {
            proof {
                assert(store_matches(store, v[i as int]));
                assert(self.levels@[i as int]@ == v[i as int]);
            }
            let res = if i == 0 {
                self.levels[0].get_in_level_0(key, store)
            } else {
                proof {
                    assert(level_sorted(v[i as int]));
                }
                self.levels[i].get(key, store)
            };
            proof {
                let pre = v.subrange(0, i as int);
                let pre1 = v.subrange(0, i + 1);
                assert(pre1.drop_last() =~= pre);
                assert(all_tables(store, pre1) == all_tables(store, pre) + tables_of(store, v[i as int]));
                lemma_lookup_first_concat(all_tables(store, pre), tables_of(store, v[i as int]), key@);
                lemma_all_tables_concat(store, pre1, v.subrange(i + 1, n as int));
                assert(pre1 + v.subrange(i + 1, n as int) =~= v);
                lemma_lookup_first_concat(all_tables(store, pre1), all_tables(store, v.subrange(i + 1, n as int)), key@);
            }
            match res {
                Ok(Some(t)) => {
                    return Ok(t);
                },
                _ => {},
            }
            i = i + 1;
        }
        proof {
            assert(v.subrange(0, i as int) =~= v);
        }
        Ok(None)
    }

    pub fn get_str(&self, key: &str, store: &TableStore) -> (r: Result<Option<Value>, MyError>)
        requires
            store.wf(),
            consistent(store, self@),
            vstd::string::StringSliceAdditionalSpecFns::spec_bytes(key).len() <= crate::key::KEY_SIZE_LIMIT,
        ensures
            r is Ok,
            crate::common::tag_view(r.unwrap()) == version_get(
                store,
                self@,
                vstd::string::StringSliceAdditionalSpecFns::spec_bytes(key),
            ),
    {
        self.get(&Key::new(key), store)
    }

    /// Ids of all files of the version, level by level.
    pub fn all_file_ids(&self) -> (r: Vec<FileId>)
        ensures
            forall|id: FileId|
                r@.contains(id) <==> exists|i: int, j: int|
                    0 <= i < self@.len() && 0 <= j < self@[i].len() && #[trigger] self@[i][j].0 == id,
    {
        let mut out: Vec<FileId> = Vec::new();
        let mut i: usize = 0;
        while i < self.levels.len()
            invariant
                i <= self@.len(),
                forall|id: FileId|
                    out@.contains(id) <==> exists|a: int, j: int|
                        0 <= a < i && 0 <= j < self@[a].len() && #[trigger] self@[a][j].0 == id,
            decreases self@.len() - i,
        {
            let mut ids = self.levels[i].get_all_file_id();
            let ghost prev = out@;
            let ghost idv = ids@;
            out.append(&mut ids);
            proof {
                assert(self.levels@[i as int]@ == self@[i as int]);
                assert forall|id: FileId| out@.contains(id) <==> exists|a: int, j: int|
                    0 <= a < i + 1 && 0 <= j < self@[a].len() && #[trigger] self@[a][j].0 == id by {
                    if out@.contains(id) {
                        let k = choose|k: int| 0 <= k < out@.len() && out@[k] == id;
                        if k < prev.len() {
                            assert(prev[k] == id);
                            assert(prev.contains(id));
                        } else {
                            assert(idv[k - prev.len()] == id);
                            assert(self@[i as int][k - prev.len()].0 == id);
                        }
                    }
                    if exists|a: int, j: int|
                        0 <= a < i + 1 && 0 <= j < self@[a].len() && #[trigger] self@[a][j].0 == id {
                        let (a, j) = choose|a: int, j: int|
                            0 <= a < i + 1 && 0 <= j < self@[a].len() && #[trigger] self@[a][j].0 == id;
                        if a < i {
                            assert(0 <= a < i && 0 <= j < self@[a].len() && self@[a][j].0 == id);
                            assert(prev.contains(id));
                            let k = choose|k: int| 0 <= k < prev.len() && prev[k] == id;
                            assert(out@[k] == id);
                        } else {
                            assert(idv[j] == id);
                            assert(out@[prev.len() + j] == id);
                        }
                    }
                }
            }
            i = i + 1;
        }
        out
    }

    /// Table count above which `level` is compacted.
    pub fn level_file_number_limit(level: usize, config: &Config) -> (r: usize)
        requires
            config.sstable_file_limit > 0,
        ensures
            r == level_limit(
                level as nat,
                config.level_0_file_limit as nat,
                config.level_size_expand_factor as nat,
                config.sstable_file_limit as nat,
            ),
    {
        if level == 0 {
            return config.level_0_file_limit;
        }
        let e = config.level_size_expand_factor as u128;
        let size = config.sstable_file_limit as u128;
        let bound: u128 = (usize::MAX as u128 + 1) * size;
        let ghost target = vstd::arithmetic::power::pow(e as int, level as nat) * 1048576;
        let mut acc: u128 = 1048576;
        let mut k: usize = 0;
        proof {
            vstd::arithmetic::power::lemma_pow0(e as int);
        }
        while k < level
            invariant
                k <= level,
                e == config.level_size_expand_factor,
                size == config.sstable_file_limit,
                size > 0,
                bound == (usize::MAX as u128 + 1) * size,
                acc as int == vstd::arithmetic::power::pow(e as int, k as nat) * 1048576,
                acc < bound,
                target == vstd::arithmetic::power::pow(e as int, level as nat) * 1048576,
            decreases level - k,
        {
            proof {
                vstd::arithmetic::power::lemma_pow_adds(e as int, k as nat, 1);
                vstd::arithmetic::power::lemma_pow1(e as int);
                assert(acc as int * e == vstd::arithmetic::power::pow(e as int, (k + 1) as nat) * 1048576)
                    by (nonlinear_arith)
                    requires
                        acc as int == vstd::arithmetic::power::pow(e as int, k as nat) * 1048576,
                        vstd::arithmetic::power::pow(e as int, (k + 1) as nat) == vstd::arithmetic::power::pow(e as int, k as nat) * e,
                ;
            }
            let next = acc.checked_mul(e);
            match next {
                Some(x) if x < bound => {
                    acc = x;
                },
                _ => {
                    proof {
                        // the product only grows from here on, so the quotient passes usize::MAX
                        assert(e >= 1) by {
                            if e == 0 {
                                assert(acc as int * e == 0) by (nonlinear_arith)
                                    requires e == 0;
                            }
                        }
                        vstd::arithmetic::power::lemma_pow_increases(e as nat, (k + 1) as nat, level as nat);
                        assert(acc as int * e >= bound as int);
                        assert(target >= acc as int * e) by (nonlinear_arith)
                            requires
                                target == vstd::arithmetic::power::pow(e as int, level as nat) * 1048576,
                                acc as int * e == vstd::arithmetic::power::pow(e as int, (k + 1) as nat) * 1048576,
                                vstd::arithmetic::power::pow(e as int, (k + 1) as nat) <= vstd::arithmetic::power::pow(e as int, level as nat),
                        ;
                        assert(target / size as int > usize::MAX) by (nonlinear_arith)
                            requires
                                target >= bound as int,
                                bound as int == (usize::MAX as int + 1) * size as int,
                                size > 0,
                        ;
                    }
                    return usize::MAX;
                },
            }
            k = k + 1;
        }
        let q = acc / size;
        proof {
            assert(q as int == target / size as int);
            assert(q <= usize::MAX) by (nonlinear_arith)
                requires
                    acc < bound,
                    bound as int == (usize::MAX as int + 1) * size as int,
                    size > 0,
                    q as int == acc as int / size as int,
            ;
        }
        q as usize
    }
}

/// A table's first key does not sort after its last.
proof fn lemma_matched_range(store: &TableStore, l: Seq<FileMetaModel>, i: int)
    requires
        store.wf(),
        store_matches(store, l),
        0 <= i < l.len(),
    ensures
        crate::key::key_le(l[i].1, l[i].2),
{
    assert(store.table_of(l[i].0) is Some);
    store.lemma_table_entries(l[i].0);
    store.lemma_table_sorted(l[i].0);
    let t = store.table_of(l[i].0).unwrap();
    crate::key::lemma_key_order(t[0].0, t.last().0);
    if t.len() > 1 {
        assert(crate::key::key_lt(t[0].0, t[t.len() - 1].0));
    }
}

impl Version {
    /// Flushes a memory table into one new level-0 table. `None` when the
    /// memory table is empty: no table, no change.
    pub fn add_memtable_to_level_0(
        &self,
        memtable: &crate::memtable::Memtable,
        files: &mut crate::level::FileStorageManager,
    ) -> (r: Result<Option<(LevelChange, FileId, crate::sstable::SSTable)>, MyError>)
        ensures
            final(files)@ >= old(files)@,
            r is Err ==> final(files)@ == old(files)@,
            r is Err ==> (old(files)@ == u64::MAX && r == Err::<
                Option<(LevelChange, FileId, crate::sstable::SSTable)>,
                MyError,
            >(MyError::IdsExhausted)) || (r == Err::<
                Option<(LevelChange, FileId, crate::sstable::SSTable)>,
                MyError,
            >(MyError::TableTooLarge) && crate::block::encode_entries(memtable@).len()
                >= crate::sstable::SSTABLE_HARD_LIMIT),
            memtable@.len() > 0 && old(files)@ < u64::MAX && crate::block::encode_entries(
                memtable@,
            ).len() < crate::sstable::SSTABLE_HARD_LIMIT ==> r is Ok && r.unwrap() is Some,
            memtable@.len() == 0 ==> r == Ok::<
                Option<(LevelChange, FileId, crate::sstable::SSTable)>,
                MyError,
            >(None),
            r is Ok && r.unwrap() is Some ==> {
                let (c, id, t) = r.unwrap().unwrap();
                &&& t.wf()
                &&& t@ == memtable@
                &&& id == old(files)@
                &&& final(files)@ == old(files)@ + 1
                &&& c matches LevelChange::MemtableCompact { sstable_file_metas }
                    && sstable_file_metas@ == (id, t@[0].0, t@.last().0)
            },
            memtable@.len() > 0 && r is Ok ==> r.unwrap() is Some,
    {
        let entries = memtable.entries();
        if entries.len() == 0 {
            return Ok(None);
        }
        let (t, more, _next) = crate::sstable::SSTable::from_iter_with_file_limit(&entries, 0, 0);
        if more {
            proof {
                let all = crate::common::items_view(entries@);
                let tv = all.subrange(0, _next as int);
                crate::block::lemma_encode_entries_concat(tv, all.subrange(_next as int, all.len() as int));
                assert(tv + all.subrange(_next as int, all.len() as int) =~= all);
            }
            return Err(MyError::TableTooLarge);
        }
        let table = match t {
            Some(t) => t,
            None => {
                return Err(MyError::TableTooLarge);
            },
        };
        proof {
            assert(crate::common::items_view(entries@).subrange(0, entries@.len() as int)
                =~= crate::common::items_view(entries@));
        }
        let id = match files.new_file() {
            Ok(id) => id,
            Err(_) => {
                return Err(MyError::IdsExhausted);
            },
        };
        let meta = SStableFileMeta::from(&table, id);
        proof {
            assert(_next == entries@.len());
            assert(table@ == memtable@);
            assert(id == old(files)@);
        }
        Ok(Some((LevelChange::MemtableCompact { sstable_file_metas: meta }, id, table)))
    }
}

impl Version {
    /// The settings the version schedules compactions with.
    pub closed spec fn config_spec(&self) -> Config {
        self.config
    }

    /// Finds the first level, from 0 on, that holds more tables than its limit,
    /// and compacts its oldest table into the next level: tombstones are
    /// dropped when the next level is the deepest one that holds tables.
    /// `None` when no level is over its limit.
    pub fn compact_one_level(
        &self,
        store: &TableStore,
        files: &mut crate::level::FileStorageManager,
    ) -> (r: Result<Option<(LevelChange, Vec<(FileId, crate::sstable::SSTable)>)>, MyError>)
        requires
            store.wf(),
            consistent(store, self@),
            ids_below(self@, old(files)@),
        ensures
            final(files)@ >= old(files)@,
            r is Err ==> self.config_spec().sstable_file_limit == 0 || final(files)@ == u64::MAX
                || self@.len() > usize::MAX - 3,
            r is Ok && r.unwrap() is None ==> final(files)@ == old(files)@,
            self.config_spec().sstable_file_limit > 0 && (forall|i: int|
                0 <= i < self@.len() ==> (#[trigger] self@[i]).len() <= level_limit(
                    i as nat,
                    self.config_spec().level_0_file_limit as nat,
                    self.config_spec().level_size_expand_factor as nat,
                    self.config_spec().sstable_file_limit as nat,
                )) ==> r == Ok::<Option<(LevelChange, Vec<(FileId, crate::sstable::SSTable)>)>, MyError>(None),
            r is Ok && r.unwrap() is Some ==> (r.unwrap().unwrap().0 matches LevelChange::LevelCompact {
                compact_result,
                ..
            } && forall|k: int|
                0 <= k < compact_result.add_sstables@.len() ==> (
                #[trigger] compact_result.add_sstables@[k])@.0 < final(files)@),
            self.config_spec().sstable_file_limit == 0 ==> r == Err::<
                Option<(LevelChange, Vec<(FileId, crate::sstable::SSTable)>)>,
                MyError,
            >(MyError::InvalidConfig),
            r is Ok && r.unwrap() is None ==> forall|i: int|
                0 <= i < self@.len() ==> (#[trigger] self@[i]).len() <= level_limit(
                    i as nat,
                    self.config_spec().level_0_file_limit as nat,
                    self.config_spec().level_size_expand_factor as nat,
                    self.config_spec().sstable_file_limit as nat,
                ),
            r is Ok && r.unwrap() is Some ==> {
                let (c, tables) = r.unwrap().unwrap();
                &&& change_applicable(self@, &c)
                &&& compaction_result(store, self@, &c, tables@)
                &&& forall|k: int| 0 <= k < tables@.len() ==> (#[trigger] tables@[k]).1.wf()
                &&& c matches LevelChange::LevelCompact { compact_from_level, compact_sstable, .. }
                    && {
                    let n = compact_from_level as int;
                    &&& 0 <= n < self@.len()
                    &&& self@[n].len() > level_limit(
                        n as nat,
                        self.config_spec().level_0_file_limit as nat,
                        self.config_spec().level_size_expand_factor as nat,
                        self.config_spec().sstable_file_limit as nat,
                    )
                    &&& forall|i: int|
                        0 <= i < n ==> (#[trigger] self@[i]).len() <= level_limit(
                            i as nat,
                            self.config_spec().level_0_file_limit as nat,
                            self.config_spec().level_size_expand_factor as nat,
                            self.config_spec().sstable_file_limit as nat,
                        )
                    &&& exists|j: int| 0 <= j < self@[n].len() && self@[n][j] == compact_sstable@
                    &&& forall|j: int| 0 <= j < self@[n].len() ==> compact_sstable@.0 <= (
                    #[trigger] self@[n][j]).0
                }
            },
    {
        if self.config.sstable_file_limit == 0 {
            return Err(MyError::InvalidConfig);
        }
        let n_levels = self.levels.len();
        let mut n: usize = 0;
        while n < n_levels
            invariant
                n <= n_levels,
                n_levels == self@.len(),
                store.wf(),
                consistent(store, self@),
                *files == *old(files),
                ids_below(self@, old(files)@),
                self.config.sstable_file_limit > 0,
                forall|i: int|
                    0 <= i < n ==> (#[trigger] self@[i]).len() <= level_limit(
                        i as nat,
                        self.config.level_0_file_limit as nat,
                        self.config.level_size_expand_factor as nat,
                        self.config.sstable_file_limit as nat,
                    ),
            decreases n_levels - n,
        {
            let limit = Version::level_file_number_limit(n, &self.config);
            proof {
                assert(self.levels@[n as int]@ == self@[n as int]);
            }
            if self.levels[n].len() > limit {
                if n >= usize::MAX - 2 {
                    return Err(MyError::InvalidConfig);
                }
                let picked = self.levels[n].pick_file_to_compact().duplicate();
                let ghost j = choose|j: int| 0 <= j < self@[n as int].len() && self@[n as int][j] == picked@;
                let d = self.depth();
                let discard = n + 2 >= d;
                if n + 1 >= n_levels {
                    // no level below yet: the table moves into a new, deepest level
                    let mut input: Vec<SStableFileMeta> = Vec::new();
                    input.push(picked.duplicate());
                    let below = Level::new(Vec::new());
                    proof {
                        assert(store_matches(store, self@[n as int]));
                        lemma_matched_range(store, self@[n as int], j);
                        assert(store.table_of(self@[n as int][j].0) is Some);
                        assert(metas_view(input@) =~= seq![picked@]);
                        assert(below@ =~= Seq::<FileMetaModel>::empty());
                    }
                    match below.compact_sstable(input, true, store, files) {
                        Err(e) => {
                            return Err(e);
                        },
                        Ok((res, tables)) => {
                            proof {
                                assert(level_at(self@, n + 1) =~= Seq::<FileMetaModel>::empty());
                                assert(res.position + res.remove_sstables@.len() <= 0);
                                assert forall|k: int| 0 <= k < res.add_sstables@.len() implies (
                                #[trigger] res.add_sstables@[k])@.0 < files@ by {
                                    assert(res.add_sstables@[k]@.0 == tables@[k].0);
                                }
                            }
                            let c = LevelChange::LevelCompact {
                                compact_from_level: n,
                                compact_sstable: picked,
                                compact_result: res,
                            };
                            proof {
                                assert(deepest_below(self@, n as int));
                                assert(compaction_result(store, self@, &c, tables@));
                                assert(change_applicable(self@, &c));
                                assert(forall|k: int| 0 <= k < tables@.len() ==> (#[trigger] tables@[k]).1.wf());
                                assert(exists|j: int| 0 <= j < self@[n as int].len() && self@[n as int][j] == picked@);
                            }
                            return Ok(Some((c, tables)));
                        },
                    }
                }
                let mut input: Vec<SStableFileMeta> = Vec::new();
                input.push(picked.duplicate());
                let ghost input_copy = input;
                proof {
                    assert(store_matches(store, self@[n as int]));
                    assert(store_matches(store, self@[n + 1]));
                    assert(level_sorted(self@[n + 1]));
                    assert(self.levels@[n + 1]@ == self@[n + 1]);
                    lemma_matched_range(store, self@[n as int], j);
                    assert(store.table_of(self@[n as int][j].0) is Some);
                    assert(metas_view(input@) =~= seq![picked@]);
                }
                match self.levels[n + 1].compact_sstable(input, discard, store, files) {
                    Err(e) => {
                        return Err(e);
                    },
                    Ok((res, tables)) => {
                        proof {
                            assert(self.levels@[n + 1]@ == level_at(self@, n + 1));
                            assert(self@[n as int][j].0 < old(files)@);
                            assert forall|k: int| 0 <= k < res.add_sstables@.len() implies (
                            #[trigger] res.add_sstables@[k])@.0 < files@ by {
                                if res.remove_sstables@.len() == 0 && !discard {
                                    assert(metas_view(res.add_sstables@) == metas_view(input_copy@));
                                    assert(metas_view(res.add_sstables@)[k] == res.add_sstables@[k]@);
                                } else {
                                    assert(res.add_sstables@[k]@.0 == tables@[k].0);
                                }
                            }
                        }
                        let c = LevelChange::LevelCompact {
                            compact_from_level: n,
                            compact_sstable: picked,
                            compact_result: res,
                        };
                        proof {
                            assert(discard == deepest_below(self@, n as int)) by {
                                if !discard {
                                    assert(self@[d - 1].len() > 0);
                                }
                            }
                            assert(compaction_result(store, self@, &c, tables@));
                            assert(change_applicable(self@, &c));
                            assert(forall|k: int| 0 <= k < tables@.len() ==> (#[trigger] tables@[k]).1.wf());
                            assert(exists|j: int| 0 <= j < self@[n as int].len() && self@[n as int][j] == picked@);
                        }
                        return Ok(Some((c, tables)));
                    },
                }
            }
            n = n + 1;
        }
        Ok(None)
    }
}

impl Version {
    /// Whether the store holds every table of the version with its recorded
    /// key range, and each level from 1 on is in key order.
    pub fn check_consistent(&self, store: &TableStore) -> (r: bool)
        requires
            store.wf(),
        ensures
            r == consistent(store, self@),
    {
        let mut i: usize = 0;
        while i < self.levels.len()
            invariant
                store.wf(),
                i <= self@.len(),
                forall|k: int| 0 <= k < i ==> store_matches(store, #[trigger] self@[k]),
                forall|k: int| 1 <= k < i ==> level_sorted(#[trigger] self@[k]),
            decreases self@.len() - i,
        {
            proof {
                assert(self.levels@[i as int]@ == self@[i as int]);
            }
            if !self.levels[i].check_store(store) {
                return false;
            }
            if i >= 1 && !self.levels[i].check_sorted() {
                return false;
            }
            i = i + 1;
        }
        true
    }
}

impl Version {
    /// File ids of `level` in the level's order, none past the deepest level.
    pub fn level_file_ids(&self, level: usize) -> (r: Vec<FileId>)
        ensures
            level < self@.len() ==> r@ == self@[level as int].map_values(|m: FileMetaModel| m.0),
            level >= self@.len() ==> r@.len() == 0,
    {
        if level < self.levels.len() {
            proof {
                assert(self.levels@[level as int]@ == self@[level as int]);
            }
            self.levels[level].get_all_file_id()
        } else {
            Vec::new()
        }
    }

    /// Number of tables in `level`, 0 past the deepest level.
    pub fn level_len(&self, level: usize) -> (r: usize)
        ensures
            level < self@.len() ==> r == self@[level as int].len(),
            level >= self@.len() ==> r == 0,
    {
        if level < self.levels.len() {
            proof {
                assert(self.levels@[level as int]@ == self@[level as int]);
            }
            self.levels[level].len()
        } else {
            0
        }
    }

    /// Entries of every table of `level`, table by table.
    pub fn level_entries(&self, level: usize, store: &TableStore) -> (r: Vec<crate::common::KVIterItem>)
        requires
            store.wf(),
        ensures
            level >= self@.len() ==> r@.len() == 0,
            level < self@.len() && crate::level::holds_all(store, self@[level as int])
                ==> crate::common::items_view(r@) == crate::level::concat(
                tables_of(store, self@[level as int]),
            ),
    {
        let mut out: Vec<crate::common::KVIterItem> = Vec::new();
        if level >= self.levels.len() {
            return out;
        }
        let ids = self.levels[level].get_all_file_id();
        let ghost l = self@[level as int];
        proof {
            assert(self.levels@[level as int]@ == l);
            assert(crate::common::items_view(out@) =~= crate::level::concat(tables_of(store, l.subrange(0, 0))));
        }
        let mut i: usize = 0;
        while i < ids.len()
            invariant
                store.wf(),
                ids@ == l.map_values(|m: FileMetaModel| m.0),
                i <= ids@.len(),
                crate::level::holds_all(store, l) ==> crate::common::items_view(out@) == crate::level::concat(
                    tables_of(store, l.subrange(0, i as int)),
                ),
            decreases ids@.len() - i,
        {
            let ghost prev = out@;
            match store.get(ids[i]) {
                Some(t) => {
                    match t.iter() {
                        Ok(mut e) => {
                            out.append(&mut e);
                        },
                        Err(_) => {},
                    }
                },
                None => {},
            }
            proof {
                if crate::level::holds_all(store, l) {
                    let ts = tables_of(store, l.subrange(0, i + 1));
                    assert(ts.drop_last() =~= tables_of(store, l.subrange(0, i as int)));
                    assert(ts.last() == store.table_of(l[i as int].0).unwrap());
                    assert(store.table_of(l[i as int].0) is Some);
                    assert(crate::common::items_view(out@) =~= crate::common::items_view(prev) + ts.last());
                }
            }
            i = i + 1;
        }
        proof {
            assert(l.subrange(0, i as int) =~= l);
        }
        out
    }
}

/// In every level from 1 on of a consistent version, the last key of each
/// table sorts before the first key of the next table.
pub proof fn lemma_levels_ordered(store: &TableStore, v: Seq<Seq<FileMetaModel>>, l: int, i: int)
    requires
        consistent(store, v),
        1 <= l < v.len(),
        0 <= i < v[l].len() - 1,
    ensures
        crate::key::key_lt(v[l][i].2, v[l][i + 1].1),
{
    assert(level_sorted(v[l]));
}

/// Every file id of the version is below `n`.
pub open spec fn ids_below(v: Seq<Seq<FileMetaModel>>, n: nat) -> bool {
    forall|i: int, j: int| 0 <= i < v.len() && 0 <= j < v[i].len() ==> (#[trigger] v[i][j]).0 < n
}

proof fn lemma_without_id_below(l: Seq<FileMetaModel>, id: u64, n: nat)
    requires
        forall|j: int| 0 <= j < l.len() ==> (#[trigger] l[j]).0 < n,
    ensures
        forall|j: int| 0 <= j < without_id(l, id).len() ==> (#[trigger] without_id(l, id)[j]).0 < n,
    decreases l.len(),
{
    if l.len() > 0 {
        let d = l.drop_last();
        assert forall|j: int| 0 <= j < d.len() implies (#[trigger] d[j]).0 < n by {
            assert(d[j] == l[j]);
        }
        lemma_without_id_below(d, id, n);
        if l.last().0 != id {
            let w = without_id(d, id);
            assert forall|j: int| 0 <= j < w.push(l.last()).len() implies (#[trigger] w.push(l.last())[j]).0 < n by {
                if j < w.len() {
                    assert(w.push(l.last())[j] == w[j]);
                }
            }
        }
    }
}

/// A change keeps the version's ids below `n` when what it adds is below `n`.
pub proof fn lemma_apply_ids_below(v: Seq<Seq<FileMetaModel>>, c: &LevelChange, n: nat)
    requires
        ids_below(v, n),
        change_applicable(v, c),
        match c {
            LevelChange::MemtableCompact { sstable_file_metas } => sstable_file_metas@.0 < n,
            LevelChange::LevelCompact { compact_result, .. } => forall|k: int|
                0 <= k < compact_result.add_sstables@.len() ==> (
                #[trigger] compact_result.add_sstables@[k])@.0 < n,
        },
    ensures
        ids_below(apply_model(v, c), n),
{
    reveal(apply_model);
    match c {
        LevelChange::MemtableCompact { sstable_file_metas } => {
            let l = seq![sstable_file_metas@] + level_at(v, 0);
            lemma_level_at_below(v, 0, n);
            assert forall|j: int| 0 <= j < l.len() implies (#[trigger] l[j]).0 < n by {
                if j > 0 {
                    assert(l[j] == level_at(v, 0)[j - 1]);
                }
            }
            lemma_set_level_below(v, 0, l, n);
        },
        LevelChange::LevelCompact { compact_from_level, compact_sstable, compact_result } => {
            let from = *compact_from_level as int;
            lemma_level_at_below(v, from, n);
            lemma_level_at_below(v, from + 1, n);
            let a = without_id(level_at(v, from), compact_sstable@.0);
            lemma_without_id_below(level_at(v, from), compact_sstable@.0, n);
            lemma_set_level_below(v, from, a, n);
            let v1 = set_level(v, from, a);
            let nxt = level_at(v, from + 1);
            let add = metas_view(compact_result.add_sstables@);
            let b = splice(nxt, compact_result.position as int, compact_result.remove_sstables@.len() as int, add);
            let p = compact_result.position as int;
            let q = p + compact_result.remove_sstables@.len();
            assert forall|j: int| 0 <= j < b.len() implies (#[trigger] b[j]).0 < n by {
                if j < p {
                    assert(b[j] == nxt[j]);
                } else if j < p + add.len() {
                    assert(b[j] == add[j - p]);
                    assert(add[j - p] == compact_result.add_sstables@[j - p]@);
                } else {
                    assert(b[j] == nxt[q + j - p - add.len()]);
                }
            }
            lemma_set_level_below(v1, from + 1, b, n);
        },
    }
}

proof fn lemma_level_at_below(v: Seq<Seq<FileMetaModel>>, i: int, n: nat)
    requires
        ids_below(v, n),
    ensures
        forall|j: int| 0 <= j < level_at(v, i).len() ==> (#[trigger] level_at(v, i)[j]).0 < n,
{
    if 0 <= i < v.len() {
        assert forall|j: int| 0 <= j < level_at(v, i).len() implies (#[trigger] level_at(v, i)[j]).0 < n by {
            assert(level_at(v, i)[j] == v[i][j]);
        }
    }
}

proof fn lemma_set_level_below(v: Seq<Seq<FileMetaModel>>, i: int, l: Seq<FileMetaModel>, n: nat)
    requires
        0 <= i,
        ids_below(v, n),
        forall|j: int| 0 <= j < l.len() ==> (#[trigger] l[j]).0 < n,
    ensures
        ids_below(set_level(v, i, l), n),
{
    let w = set_level(v, i, l);
    assert forall|a: int, j: int| 0 <= a < w.len() && 0 <= j < w[a].len() implies (#[trigger] w[a][j]).0 < n by {
        if a == i {
        } else if a < v.len() {
            assert(w[a] == v[a]);
        } else {
            assert(w[a].len() == 0);
        }
    }
}

/// Stores that agree on every id below `x` give a version with ids below `x` the same tables.
pub proof fn lemma_all_tables_same(s1: &TableStore, s2: &TableStore, v: Seq<Seq<FileMetaModel>>, x: nat)
    requires
        ids_below(v, x),
        forall|id: FileId| id < x ==> #[trigger] s2.table_of(id) == s1.table_of(id),
    ensures
        all_tables(s2, v) == all_tables(s1, v),
    decreases v.len(),
{
    if v.len() > 0 {
        let d = v.drop_last();
        assert forall|i: int, j: int| 0 <= i < d.len() && 0 <= j < d[i].len() implies (#[trigger] d[i][j]).0 < x by {
            assert(d[i] == v[i]);
        }
        lemma_all_tables_same(s1, s2, d, x);
        let l = v.last();
        assert forall|j: int| 0 <= j < l.len() implies l[j].0 < x by {
            assert(v[v.len() - 1][j] == l[j]);
        }
        assert(tables_of(s2, l) =~= tables_of(s1, l));
    }
}

/// A flushed table is the first table of the version that holds it.
pub proof fn lemma_flush_tables(store: &TableStore, v: Seq<Seq<FileMetaModel>>, m: FileMetaModel, t: Seq<EntryModel>)
    requires
        store.table_of(m.0) == Some(t),
    ensures
        all_tables(store, set_level(v, 0, seq![m] + level_at(v, 0))) == seq![t] + all_tables(store, v),
    decreases v.len(),
{
    let l = seq![m] + level_at(v, 0);
    assert(tables_of(store, l) =~= seq![t] + tables_of(store, level_at(v, 0)));
    if v.len() == 0 {
        let w = set_level(v, 0, l);
        assert(w =~= seq![l]);
        assert(w.drop_last() =~= Seq::<Seq<FileMetaModel>>::empty());
        assert(tables_of(store, level_at(v, 0)) =~= Seq::<Seq<EntryModel>>::empty());
        assert(w.last() == l);
        assert(all_tables(store, w.drop_last()) =~= Seq::<Seq<EntryModel>>::empty());
        assert(all_tables(store, w) == all_tables(store, w.drop_last()) + tables_of(store, w.last()));
        assert(all_tables(store, w) =~= seq![t]);
        assert(all_tables(store, v) =~= Seq::<Seq<EntryModel>>::empty());
    } else if v.len() == 1 {
        let w = set_level(v, 0, l);
        assert(w.drop_last() =~= Seq::<Seq<FileMetaModel>>::empty());
        assert(v.drop_last() =~= Seq::<Seq<FileMetaModel>>::empty());
        assert(w.last() == l);
        assert(v.last() == level_at(v, 0));
        assert(all_tables(store, w.drop_last()) =~= Seq::<Seq<EntryModel>>::empty());
        assert(all_tables(store, v.drop_last()) =~= Seq::<Seq<EntryModel>>::empty());
        assert(all_tables(store, w) == all_tables(store, w.drop_last()) + tables_of(store, w.last()));
        assert(all_tables(store, v) == all_tables(store, v.drop_last()) + tables_of(store, v.last()));
        assert(all_tables(store, w) =~= seq![t] + all_tables(store, v));
    } else {
        let d = v.drop_last();
        let w = set_level(v, 0, l);
        assert(w.drop_last() =~= set_level(d, 0, seq![m] + level_at(d, 0)));
        assert(level_at(d, 0) == level_at(v, 0));
        lemma_flush_tables(store, d, m, t);
        assert(w.last() == v.last());
        assert(all_tables(store, w) =~= seq![t] + all_tables(store, v));
    }
}

/// The first of several tables decides where it holds the key.
pub proof fn lemma_lookup_first_cons(t: Seq<EntryModel>, rest: Seq<Seq<EntryModel>>, key: Seq<u8>)
    ensures
        lookup_first(seq![t] + rest, key) == if crate::common::lookup(t, key) is Some {
            crate::common::lookup(t, key)
        } else {
            lookup_first(rest, key)
        },
{
    lemma_lookup_first_concat(seq![t], rest, key);
    assert(seq![t].drop_last() =~= Seq::<Seq<EntryModel>>::empty());
    assert(seq![t].last() == t);
    assert(lookup_first(Seq::<Seq<EntryModel>>::empty(), key) is None);
    assert(lookup_first(seq![t], key) == crate::common::lookup(t, key));
}

impl Version {
    /// Records the table count of each level up to the depth.
    pub fn record_metrics(&self, metric: &mut crate::metrics::DBMetric)
        ensures
            final(metric)@.len() == old(metric)@.len(),
            forall|i: int|
                0 <= i < final(metric)@.len() ==> final(metric)@[i] == old(metric)@[i] || (i
                    < self@.len() && final(metric)@[i] == self@[i].len()),
    {
        let depth = self.depth();
        let mut i: usize = 0;
        while i < depth
            invariant
                depth <= self@.len(),
                metric@.len() == old(metric)@.len(),
                forall|k: int|
                    0 <= k < metric@.len() ==> metric@[k] == old(metric)@[k] || (k < self@.len()
                        && metric@[k] == self@[k].len()),
            decreases depth - i,
        {
            proof {
                assert(self.levels@[i as int]@ == self@[i as int]);
            }
            let len = self.levels[i].len() as u64;
            metric.set_level_n_file_number(len, i);
            i = i + 1;
        }
    }
}

proof fn lemma_matches_transfer(s1: &TableStore, s2: &TableStore, l: Seq<FileMetaModel>, x: nat)
    requires
        store_matches(s1, l),
        forall|j: int| 0 <= j < l.len() ==> (#[trigger] l[j]).0 < x,
        forall|id: FileId| id < x ==> #[trigger] s2.table_of(id) == s1.table_of(id),
    ensures
        store_matches(s2, l),
{
    assert forall|j: int| 0 <= j < l.len() implies #[trigger] s2.table_of(l[j].0) == s1.table_of(l[j].0) by {
        assert(l[j].0 < x);
    }
}

/// Adding a flushed table as the newest table of level 0 keeps a version
/// consistent with its store.
pub proof fn lemma_flush_consistent(
    s1: &TableStore,
    s2: &TableStore,
    v: Seq<Seq<FileMetaModel>>,
    m: FileMetaModel,
    t: Seq<EntryModel>,
)
    requires
        consistent(s1, v),
        ids_below(v, m.0 as nat),
        forall|id: FileId| id < m.0 ==> #[trigger] s2.table_of(id) == s1.table_of(id),
        s2.table_of(m.0) == Some(t),
        t.len() > 0,
        t[0].0 == m.1,
        t.last().0 == m.2,
    ensures
        consistent(s2, set_level(v, 0, seq![m] + level_at(v, 0))),
{
    let l = seq![m] + level_at(v, 0);
    let w = set_level(v, 0, l);
    let x = m.0 as nat;
    assert forall|i: int| 0 <= i < w.len() implies store_matches(s2, #[trigger] w[i]) by {
        if i == 0 {
            if v.len() > 0 {
                assert(store_matches(s1, v[0]));
                assert forall|j: int| 0 <= j < v[0].len() implies (#[trigger] v[0][j]).0 < x by {}
                lemma_matches_transfer(s1, s2, v[0], x);
            }
            assert(w[0] == l);
            assert forall|j: int| 0 <= j < l.len() implies (#[trigger] s2.table_of(l[j].0)) is Some
                && s2.table_of(l[j].0).unwrap()[0].0 == l[j].1 && s2.table_of(l[j].0).unwrap().last().0
                == l[j].2 by {
                if j > 0 {
                    assert(l[j] == v[0][j - 1]);
                    assert(store_matches(s2, v[0]));
                    assert(s2.table_of(v[0][j - 1].0) is Some);
                }
            }
        } else {
            assert(w[i] == v[i]);
            assert(store_matches(s1, v[i]));
            assert forall|j: int| 0 <= j < v[i].len() implies (#[trigger] v[i][j]).0 < x by {}
            lemma_matches_transfer(s1, s2, v[i], x);
        }
    }
    assert forall|i: int| 1 <= i < w.len() implies level_sorted(#[trigger] w[i]) by {
        assert(w[i] == v[i]);
    }
}

} // verus!
