use vstd::prelude::*;
use crate::common::{EntryModel, MyError, ValueWithTag, found_view, lookup, lemma_lookup_none, strictly_sorted};
use crate::key::{Key, key_le, key_lt, lemma_key_order, lemma_key_lt_trans, lemma_key_le_lt_trans, lemma_key_lt_le_trans};
use crate::merge::lookup_first;
use crate::sstable::SSTable;

verus! {

/// Identifier of a table file.
pub type FileId = u64;

/// Plain contents of a table's file metadata: id, first key, last key.
pub type FileMetaModel = (u64, Seq<u8>, Seq<u8>);

/// Which file holds a table, and the table's key range.
#[derive(Debug)]
pub struct SStableFileMeta {
    file_id: FileId,
    start_key: Key,
    last_key: Key,
}

impl View for SStableFileMeta {
    type V = FileMetaModel;

    closed spec fn view(&self) -> FileMetaModel {
        (self.file_id, self.start_key@, self.last_key@)
    }
}

impl Clone for SStableFileMeta {
    fn clone(&self) -> (r: SStableFileMeta)
        ensures
            r@ == self@,
    {
        self.duplicate()
    }
}

impl SStableFileMeta {
    /// A copy with the same id and keys.
    pub fn duplicate(&self) -> (r: SStableFileMeta)
        ensures
            r@ == self@,
    {
        SStableFileMeta {
            file_id: self.file_id,
            start_key: self.start_key.duplicate(),
            last_key: self.last_key.duplicate(),
        }
    }
}

impl SStableFileMeta {
    pub fn new(start_key: Key, end_key: Key, file_id: FileId) -> (r: SStableFileMeta)
        ensures
            r@ == (file_id, start_key@, end_key@),
    {
        SStableFileMeta { start_key, last_key: end_key, file_id }
    }

    /// The metadata of a table stored under `file_id`.
    pub fn from(sstable: &SSTable, file_id: FileId) -> (r: SStableFileMeta)
        requires
            sstable.wf(),
        ensures
            r@ == (file_id, sstable@[0].0, sstable@.last().0),
    {
        SStableFileMeta { start_key: sstable.start_key(), last_key: sstable.last_key(), file_id }
    }

    pub fn start_key(&self) -> (r: Key)
        ensures
            r@ == self@.1,
    {
        self.start_key.duplicate()
    }

    pub fn last_key(&self) -> (r: Key)
        ensures
            r@ == self@.2,
    {
        self.last_key.duplicate()
    }

    pub fn file_id(&self) -> (r: FileId)
        ensures
            r == self@.0,
    {
        self.file_id
    }

    fn start_ref(&self) -> (r: &Key)
        ensures
            r@ == self@.1,
    {
        &self.start_key
    }

    fn last_ref(&self) -> (r: &Key)
        ensures
            r@ == self@.2,
    {
        &self.last_key
    }
}

pub open spec fn metas_view(v: Seq<SStableFileMeta>) -> Seq<FileMetaModel> {
    v.map_values(|m: SStableFileMeta| m@)
}

/// Copies a list of file metadata.
pub fn copy_metas(v: &Vec<SStableFileMeta>) -> (r: Vec<SStableFileMeta>)
    ensures
        metas_view(r@) == metas_view(v@),
{
    let mut out: Vec<SStableFileMeta> = Vec::new();
    let mut i: usize = 0;
    while i < v.len()
        invariant
            i <= v@.len(),
            metas_view(out@) == metas_view(v@).subrange(0, i as int),
        decreases v@.len() - i,
    {
        let x = v[i].duplicate();
        let ghost prev = out@;
        out.push(x);
        proof {
            assert(out@ == prev.push(x));
            assert(metas_view(out@) =~= metas_view(prev).push(x@));
            assert(metas_view(v@).subrange(0, i + 1) =~= metas_view(v@).subrange(0, i as int).push(
                v@[i as int]@,
            ));
        }
        i = i + 1;
    }
    proof {
        assert(metas_view(v@).subrange(0, i as int) =~= metas_view(v@));
    }
    out
}

/// Index of the first occurrence of `id` in `ids`, or -1.
pub open spec fn find_id(ids: Seq<u64>, id: u64) -> int
    decreases ids.len(),
{
    if ids.len() == 0 {
        -1
    } else if find_id(ids.drop_last(), id) >= 0 {
        find_id(ids.drop_last(), id)
    } else if ids.last() == id {
        ids.len() - 1
    } else {
        -1
    }
}

proof fn lemma_find_id(ids: Seq<u64>, id: u64)
    ensures
        -1 <= find_id(ids, id) < ids.len(),
        find_id(ids, id) >= 0 ==> ids[find_id(ids, id)] == id,
        find_id(ids, id) >= 0 ==> forall|j: int| 0 <= j < find_id(ids, id) ==> ids[j] != id,
        find_id(ids, id) < 0 ==> forall|j: int| 0 <= j < ids.len() ==> ids[j] != id,
    decreases ids.len(),
{
    if ids.len() > 0 {
        lemma_find_id(ids.drop_last(), id);
        assert forall|j: int| 0 <= j < ids.len() - 1 implies ids.drop_last()[j] == ids[j] by {}
    }
}

proof fn lemma_find_id_unique(ids: Seq<u64>, id: u64, j: int)
    requires
        0 <= j < ids.len(),
        ids[j] == id,
        forall|a: int, b: int| 0 <= a < b < ids.len() ==> ids[a] != ids[b],
    ensures
        find_id(ids, id) == j,
{
    lemma_find_id(ids, id);
}

/// Tables loaded in memory, by file id.
pub struct TableStore {
    ids: Vec<FileId>,
    tables: Vec<SSTable>,
}

impl TableStore {
    pub closed spec fn wf(&self) -> bool {
        &&& self.ids@.len() == self.tables@.len()
        &&& forall|j: int, k: int| 0 <= j < k < self.ids@.len() ==> self.ids@[j] != self.ids@[k]
        &&& forall|i: int| 0 <= i < self.tables@.len() ==> (#[trigger] self.tables@[i]).wf()
    }

    /// Entries of the table held under `id`.
    pub closed spec fn table_of(&self, id: FileId) -> Option<Seq<EntryModel>> {
        let i = find_id(self.ids@, id);
        if 0 <= i < self.tables@.len() {
            Some(self.tables@[i]@)
        } else {
            None
        }
    }

    /// Bytes of the table file held under `id`.
    pub closed spec fn bytes_of(&self, id: FileId) -> Option<Seq<u8>> {
        let i = find_id(self.ids@, id);
        if 0 <= i < self.tables@.len() {
            Some(self.tables@[i].bytes())
        } else {
            None
        }
    }

    pub proof fn lemma_table_sorted(&self, id: FileId)
        requires
            self.wf(),
            self.table_of(id) is Some,
        ensures
            strictly_sorted(self.table_of(id).unwrap()),
            self.table_of(id).unwrap().len() > 0,
    {
        let i = find_id(self.ids@, id);
        self.tables@[i].lemma_wf_entries();
    }

    pub proof fn lemma_table_entries(&self, id: FileId)
        requires
            self.wf(),
            self.table_of(id) is Some,
        ensures
            strictly_sorted(self.table_of(id).unwrap()),
            forall|b: int|
                0 <= b < self.table_of(id).unwrap().len() ==> crate::block::encodable(
                    #[trigger] self.table_of(id).unwrap()[b],
                ),
    {
        let i = find_id(self.ids@, id);
        self.tables@[i].lemma_wf_entries();
    }

    pub fn new() -> (r: TableStore)
        ensures
            r.wf(),
            forall|id: FileId| r.table_of(id) is None,
    {
        TableStore { ids: Vec::new(), tables: Vec::new() }
    }

    /// Holds `table` under `id`, in place of any table held there before.
    pub fn insert(&mut self, id: FileId, table: SSTable)
        requires
            old(self).wf(),
            table.wf(),
        ensures
            final(self).wf(),
            final(self).table_of(id) == Some(table@),
            forall|other: FileId|
                other != id ==> final(self).table_of(other) == old(self).table_of(other),
    {
        self.remove(id);
        let ghost mid = *self;
        self.ids.push(id);
        self.tables.push(table);
        proof {
            let n = mid.ids@.len();
            assert(self.ids@.drop_last() == mid.ids@);
            lemma_find_id(mid.ids@, id);
            assert(find_id(self.ids@, id) == n);
            assert forall|j: int, k: int| 0 <= j < k < self.ids@.len() implies self.ids@[j]
                != self.ids@[k] by {
                if k == n {
                    lemma_find_id(mid.ids@, id);
                }
            }
            assert forall|other: FileId| other != id implies self.table_of(other)
                == mid.table_of(other) by {
                lemma_find_id(mid.ids@, other);
            }
        }
    }

    /// Drops the table held under `id`, if any.
    pub fn remove(&mut self, id: FileId)
        requires
            old(self).wf(),
        ensures
            final(self).wf(),
            final(self).table_of(id) is None,
            forall|other: FileId|
                other != id ==> final(self).table_of(other) == old(self).table_of(other),
    {
        let mut i: usize = 0;
        while i < self.ids.len()
            invariant
                self.wf(),
                *self == *old(self),
                i <= self.ids@.len(),
                forall|j: int| 0 <= j < i ==> self.ids@[j] != id,
            decreases self.ids@.len() - i,
        {
            if self.ids[i] == id {
                let ghost before = *self;
                self.ids.remove(i);
                self.tables.remove(i);
                proof {
                    let bi = before.ids@;
                    let ni = self.ids@;
                    assert forall|j: int, k: int| 0 <= j < k < ni.len() implies ni[j] != ni[k] by {
                        let bj = if j < i { j } else { j + 1 };
                        let bk = if k < i { k } else { k + 1 };
                        assert(ni[j] == bi[bj]);
                        assert(ni[k] == bi[bk]);
                    }
                    assert forall|t: int| 0 <= t < self.tables@.len() implies (
                    #[trigger] self.tables@[t]).wf() by {
                        let bt = if t < i { t } else { t + 1 };
                        assert(self.tables@[t] == before.tables@[bt]);
                    }
                    assert forall|j: int| 0 <= j < ni.len() implies ni[j] != id by {
                        let bj = if j < i { j } else { j + 1 };
                        assert(ni[j] == bi[bj]);
                    }
                    lemma_find_id(ni, id);
                    assert forall|other: FileId| other != id implies self.table_of(other)
                        == before.table_of(other) by {
                        lemma_find_id(bi, other);
                        lemma_find_id(ni, other);
                        let f = find_id(bi, other);
                        if f >= 0 {
                            let g = if f < i { f } else { f - 1 };
                            assert(ni[g] == other);
                            lemma_find_id_unique(ni, other, g);
                            assert(self.tables@[g] == before.tables@[f]);
                        } else {
                            assert forall|j: int| 0 <= j < ni.len() implies ni[j] != other by {
                                let bj = if j < i { j } else { j + 1 };
                                assert(ni[j] == bi[bj]);
                            }
                        }
                    }
                }
                return;
            }
            i = i + 1;
        }
        proof {
            lemma_find_id(self.ids@, id);
        }
    }

    /// The table held under `id`.
    pub fn get(&self, id: FileId) -> (r: Option<&SSTable>)
        requires
            self.wf(),
        ensures
            match self.table_of(id) {
                None => r is None,
                Some(t) => r is Some && r.unwrap().wf() && r.unwrap()@ == t && Some(
                    r.unwrap().bytes(),
                ) == self.bytes_of(id),
            },
            self.bytes_of(id) is None <==> self.table_of(id) is None,
    {
        let mut i: usize = 0;
        while i < self.ids.len()
            invariant
                self.wf(),
                i <= self.ids@.len(),
                forall|j: int| 0 <= j < i ==> self.ids@[j] != id,
            decreases self.ids@.len() - i,
        {
            if self.ids[i] == id {
                proof {
                    lemma_find_id(self.ids@, id);
                }
                return Some(&self.tables[i]);
            }
            i = i + 1;
        }
        proof {
            lemma_find_id(self.ids@, id);
        }
        None
    }
}

/// Each table's first key does not sort after its last, and each table's last
/// key sorts before the next table's first key.
pub open spec fn level_sorted(l: Seq<FileMetaModel>) -> bool {
    &&& forall|i: int| 0 <= i < l.len() ==> key_le(#[trigger] l[i].1, l[i].2)
    &&& forall|i: int| 0 <= i < l.len() - 1 ==> key_lt(#[trigger] l[i].2, l[i + 1].1)
}

/// In a sorted level, table ranges are ordered pairwise, not only for neighbours.
pub proof fn lemma_level_sorted_pairwise(l: Seq<FileMetaModel>, i: int, j: int)
    requires
        level_sorted(l),
        0 <= i < j < l.len(),
    ensures
        key_lt(l[i].2, l[j].1),
        key_lt(l[i].2, l[j].2),
    decreases j - i,
{
    assert(key_le(l[j].1, l[j].2));
    if j == i + 1 {
        assert(key_lt(l[i].2, l[i + 1].1));
    } else {
        lemma_level_sorted_pairwise(l, i, j - 1);
        assert(key_lt(l[j - 1].2, l[j].1));
        lemma_key_lt_trans(l[i].2, l[j - 1].2, l[j].1);
    }
    lemma_key_lt_le_trans(l[i].2, l[j].1, l[j].2);
}

pub proof fn lemma_level_last_mono(l: Seq<FileMetaModel>, i: int, j: int)
    requires
        level_sorted(l),
        0 <= i <= j < l.len(),
    ensures
        key_le(l[i].2, l[j].2),
{
    if i < j {
        lemma_level_sorted_pairwise(l, i, j);
    } else {
        lemma_key_order(l[i].2, l[j].2);
    }
}

/// The store holds a table for every file of the level.
pub open spec fn holds_all(store: &TableStore, l: Seq<FileMetaModel>) -> bool {
    forall|i: int| 0 <= i < l.len() ==> (#[trigger] store.table_of(l[i].0)) is Some
}

/// The store holds every table of the level, with the key range that the
/// level records for it.
pub open spec fn store_matches(store: &TableStore, l: Seq<FileMetaModel>) -> bool {
    &&& holds_all(store, l)
    &&& forall|i: int|
        0 <= i < l.len() ==> (#[trigger] store.table_of(l[i].0)).unwrap()[0].0 == l[i].1
            && store.table_of(l[i].0).unwrap().last().0 == l[i].2
}

/// Entries of the level's tables, in the level's order.
pub open spec fn tables_of(store: &TableStore, l: Seq<FileMetaModel>) -> Seq<Seq<EntryModel>> {
    l.map_values(|m: FileMetaModel| store.table_of(m.0).unwrap())
}

proof fn lemma_lookup_first_prefix(s: Seq<Seq<EntryModel>>, k: int, key: Seq<u8>)
    requires
        0 <= k <= s.len(),
        lookup_first(s.subrange(0, k), key) is Some,
    ensures
        lookup_first(s, key) == lookup_first(s.subrange(0, k), key),
    decreases s.len() - k,
{
    if k < s.len() {
        assert(s.subrange(0, k + 1).drop_last() =~= s.subrange(0, k));
        lemma_lookup_first_prefix(s, k + 1, key);
    } else {
        assert(s.subrange(0, k) =~= s);
    }
}

proof fn lemma_lookup_first_only(s: Seq<Seq<EntryModel>>, p: int, key: Seq<u8>)
    requires
        0 <= p < s.len(),
        forall|j: int| 0 <= j < s.len() && j != p ==> lookup(#[trigger] s[j], key) is None,
    ensures
        lookup_first(s, key) == lookup(s[p], key),
    decreases s.len(),
{
    let d = s.drop_last();
    if s.len() - 1 == p {
        lemma_lookup_first_none(d, key);
    } else {
        lemma_lookup_first_only(d, p, key);
    }
}

proof fn lemma_lookup_first_none(s: Seq<Seq<EntryModel>>, key: Seq<u8>)
    requires
        forall|j: int| 0 <= j < s.len() ==> lookup(#[trigger] s[j], key) is None,
    ensures
        lookup_first(s, key) is None,
    decreases s.len(),
{
    if s.len() > 0 {
        lemma_lookup_first_none(s.drop_last(), key);
    }
}

/// A key outside a table's range is not in the table.
proof fn lemma_outside_range(t: Seq<EntryModel>, key: Seq<u8>)
    requires
        strictly_sorted(t),
        t.len() > 0,
        key_lt(t.last().0, key) || key_lt(key, t[0].0),
    ensures
        lookup(t, key) is None,
{
    assert forall|i: int| 0 <= i < t.len() implies #[trigger] t[i].0 != key by {
        let l = t.len() - 1;
        if key_lt(t.last().0, key) {
            if i < l {
                lemma_key_lt_trans(t[i].0, t[l].0, key);
            }
            lemma_key_order(t[i].0, key);
        } else {
            if i > 0 {
                lemma_key_lt_trans(key, t[0].0, t[i].0);
            }
            lemma_key_order(t[i].0, key);
        }
    }
    lemma_lookup_none(t, key);
}

/// A table and the key ranges overlap.
pub open spec fn overlaps(m: FileMetaModel, start: Seq<u8>, end: Seq<u8>) -> bool {
    !key_lt(m.2, start) && !key_lt(end, m.1)
}

/// Tables of one level: for level 0 newest first, for deeper levels in key order.
pub struct Level {
    sstable_file_metas: Vec<SStableFileMeta>,
}

impl View for Level {
    type V = Seq<FileMetaModel>;

    closed spec fn view(&self) -> Seq<FileMetaModel> {
        metas_view(self.sstable_file_metas@)
    }
}

impl Level {
    pub fn new(sstable_metas: Vec<SStableFileMeta>) -> (r: Level)
        ensures
            r@ == metas_view(sstable_metas@),
    {
        Level { sstable_file_metas: sstable_metas }
    }

    pub fn len(&self) -> (r: usize)
        ensures
            r == self@.len(),
    {
        self.sstable_file_metas.len()
    }

    pub fn copy_sstable_meta(&self) -> (r: Vec<SStableFileMeta>)
        ensures
            metas_view(r@) == self@,
    {
        copy_metas(&self.sstable_file_metas)
    }

    /// Ids of the level's files, in the level's order.
    pub fn get_all_file_id(&self) -> (r: Vec<FileId>)
        ensures
            r@ == self@.map_values(|m: FileMetaModel| m.0),
    {
        let mut out: Vec<FileId> = Vec::new();
        let mut i: usize = 0;
        while i < self.sstable_file_metas.len()
            invariant
                i <= self@.len(),
                out@ == self@.subrange(0, i as int).map_values(|m: FileMetaModel| m.0),
            decreases self@.len() - i,
        {
            out.push(self.sstable_file_metas[i].file_id());
            proof {
                assert(out@ =~= self@.subrange(0, i + 1).map_values(|m: FileMetaModel| m.0));
            }
            i = i + 1;
        }
        proof {
            assert(self@.subrange(0, i as int) =~= self@);
        }
        out
    }

    /// The table with the lowest file id, the oldest one.
    pub fn find_oldest_sstable(&self) -> (r: &SStableFileMeta)
        requires
            self@.len() > 0,
        ensures
            exists|i: int| 0 <= i < self@.len() && self@[i] == r@,
            forall|i: int| 0 <= i < self@.len() ==> r@.0 <= #[trigger] self@[i].0,
    {
        let mut best: usize = 0;
        let mut i: usize = 1;
        while i < self.sstable_file_metas.len()
            invariant
                1 <= i <= self@.len(),
                best < self@.len(),
                forall|j: int| 0 <= j < i ==> self@[best as int].0 <= #[trigger] self@[j].0,
            decreases self@.len() - i,
        {
            if self.sstable_file_metas[i].file_id() < self.sstable_file_metas[best].file_id() {
                best = i;
            }
            i = i + 1;
        }
        proof {
            assert(self@[best as int] == self.sstable_file_metas@[best as int]@);
        }
        &self.sstable_file_metas[best]
    }

    /// The table that compaction moves out of this level.
    pub fn pick_file_to_compact(&self) -> (r: &SStableFileMeta)
        requires
            self@.len() > 0,
        ensures
            exists|i: int| 0 <= i < self@.len() && self@[i] == r@,
            forall|i: int| 0 <= i < self@.len() ==> r@.0 <= #[trigger] self@[i].0,
    {
        self.find_oldest_sstable()
    }

    pub fn first_key(&self) -> (r: Key)
        requires
            self@.len() > 0,
        ensures
            r@ == self@[0].1,
    {
        self.sstable_file_metas[0].start_key()
    }

    pub fn last_key(&self) -> (r: Key)
        requires
            self@.len() > 0,
        ensures
            r@ == self@.last().2,
    {
        self.sstable_file_metas[self.sstable_file_metas.len() - 1].last_key()
    }

    /// Number of tables whose last key sorts before `key`; in a sorted level
    /// they are the first ones.
    pub fn partition_last_lt(&self, key: &Key) -> (r: usize)
        requires
            level_sorted(self@),
        ensures
            r <= self@.len(),
            forall|i: int| 0 <= i < r ==> key_lt(#[trigger] self@[i].2, key@),
            forall|i: int| r <= i < self@.len() ==> !key_lt(#[trigger] self@[i].2, key@),
    {
        let mut lo: usize = 0;
        let mut hi: usize = self.sstable_file_metas.len();
        while lo < hi
            invariant
                level_sorted(self@),
                lo <= hi <= self@.len(),
                forall|i: int| 0 <= i < lo ==> key_lt(#[trigger] self@[i].2, key@),
                forall|i: int| hi <= i < self@.len() ==> !key_lt(#[trigger] self@[i].2, key@),
            decreases hi - lo,
        {
            let mid = lo + (hi - lo) / 2;
            let ghost m = mid as int;
            if self.sstable_file_metas[mid].last_ref().lt(key) {
                proof {
                    assert forall|i: int| 0 <= i < mid + 1 implies key_lt(
                        #[trigger] self@[i].2,
                        key@,
                    ) by {
                        lemma_level_last_mono(self@, i, m);
                        lemma_key_le_lt_trans(self@[i].2, self@[m].2, key@);
                    }
                }
                lo = mid + 1;
            } else {
                proof {
                    assert forall|i: int| mid <= i < self@.len() implies !key_lt(
                        #[trigger] self@[i].2,
                        key@,
                    ) by {
                        lemma_level_last_mono(self@, m, i);
                        if key_lt(self@[i].2, key@) {
                            lemma_key_le_lt_trans(self@[m].2, self@[i].2, key@);
                        }
                    }
                }
                hi = mid;
            }
        }
        lo
    }

    /// The contiguous tables whose key ranges meet `[start_key, end_key]`, and
    /// the index of the first; `None` when there are none.
    pub fn key_overlap(&self, start_key: &Key, end_key: &Key) -> (r: Option<
        (Vec<SStableFileMeta>, usize),
    >)
        requires
            level_sorted(self@),
            key_le(start_key@, end_key@),
        ensures
            r is None <==> forall|i: int|
                0 <= i < self@.len() ==> !overlaps(#[trigger] self@[i], start_key@, end_key@),
            r is Some ==> {
                let (v, p) = r.unwrap();
                &&& p + v@.len() <= self@.len()
                &&& metas_view(v@) == self@.subrange(p as int, p + v@.len())
                &&& forall|i: int|
                    0 <= i < self@.len() ==> (p <= i < p + v@.len() <==> overlaps(
                        #[trigger] self@[i],
                        start_key@,
                        end_key@,
                    ))
            },
    {
        let n = self.sstable_file_metas.len();
        let p = self.partition_last_lt(start_key);
        let q0 = self.partition_last_lt(end_key);
        let q = if q0 < n && !end_key.lt(self.sstable_file_metas[q0].start_ref()) {
            q0 + 1
        } else {
            q0
        };
        let ghost l = self@;
        proof {
            assert forall|i: int| 0 <= i < l.len() implies ((p <= i < q) <==> overlaps(
                #[trigger] l[i],
                start_key@,
                end_key@,
            )) by {
                assert(key_le(l[i].1, l[i].2));
                if i < p {
                } else if i >= q {
                    // the table starts after the range ends
                    if i == q0 {
                    } else {
                        assert(i > q0);
                        if q0 < n {
                            lemma_level_sorted_pairwise(l, q0 as int, i);
                            lemma_key_order(l[q0 as int].2, end_key@);
                            lemma_key_le_lt_trans(end_key@, l[q0 as int].2, l[i].1);
                        }
                    }
                } else {
                    // p <= i < q: the table meets the range
                    if i < q0 {
                        lemma_key_order(end_key@, l[i].2);
                        lemma_key_le_lt_trans(l[i].1, l[i].2, end_key@);
                        lemma_key_order(end_key@, l[i].1);
                    }
                }
            }
        }
        if p >= q {
            return None;
        }
        let mut v: Vec<SStableFileMeta> = Vec::new();
        let mut i: usize = p;
        while i < q
            invariant
                p <= i <= q <= self@.len(),
                metas_view(v@) == self@.subrange(p as int, i as int),
            decreases q - i,
        {
            let x = self.sstable_file_metas[i].duplicate();
            let ghost prev = v@;
            v.push(x);
            proof {
                assert(metas_view(v@) =~= metas_view(prev).push(x@));
                assert(self@.subrange(p as int, i + 1) =~= self@.subrange(p as int, i as int).push(
                    self@[i as int],
                ));
            }
            i = i + 1;
        }
        proof {
            assert(overlaps(self@[p as int], start_key@, end_key@));
        }
        Some((v, p))
    }
}

impl Level {
    /// Lookup in level 0: tables newest first, the first entry found wins,
    /// a tombstone included.
    pub fn get_in_level_0(&self, key: &Key, store: &TableStore) -> (r: Result<
        Option<ValueWithTag>,
        MyError,
    >)
        requires
            store.wf(),
        ensures
            holds_all(store, self@) ==> r is Ok && found_view(r.unwrap()) == lookup_first(
                tables_of(store, self@),
                key@,
            ),
            r is Err ==> r == Err::<Option<ValueWithTag>, MyError>(MyError::MissingTable),
    {
        let ghost ts = tables_of(store, self@);
        let mut i: usize = 0;
        while i < self.sstable_file_metas.len()
            invariant
                store.wf(),
                ts == tables_of(store, self@),
                i <= self@.len(),
                forall|j: int| 0 <= j < i ==> (#[trigger] store.table_of(self@[j].0)) is Some,
                lookup_first(ts.subrange(0, i as int), key@) is None,
            decreases self@.len() - i,
        {
            let id = self.sstable_file_metas[i].file_id();
            proof {
                assert(self@[i as int] == self.sstable_file_metas@[i as int]@);
            }
            match store.get(id) {
                None => {
                    proof {
                        assert(store.table_of(self@[i as int].0) is None);
                    }
                    return Err(MyError::MissingTable);
                },
                Some(t) => {
                    let res = t.get(key);
                    proof {
                        assert(ts.subrange(0, i + 1).drop_last() =~= ts.subrange(0, i as int));
                        assert(ts.subrange(0, i + 1).last() == t@);
                    }
                    match res {
                        Ok(Some(v)) => {
                            proof {
                                lemma_lookup_first_prefix(ts, i + 1, key@);
                            }
                            return Ok(Some(v));
                        },
                        _ => {},
                    }
                },
            }
            i = i + 1;
        }
        proof {
            assert(ts.subrange(0, i as int) =~= ts);
        }
        Ok(None)
    }

    /// Lookup in a level of disjoint tables in key order: only the first table
    /// whose last key does not sort before `key` is read.
    pub fn get(&self, key: &Key, store: &TableStore) -> (r: Result<Option<ValueWithTag>, MyError>)
        requires
            store.wf(),
            level_sorted(self@),
            store_matches(store, self@),
        ensures
            r is Ok,
            found_view(r.unwrap()) == lookup_first(tables_of(store, self@), key@),
    {
        let ghost l = self@;
        let ghost ts = tables_of(store, l);
        let p = self.partition_last_lt(key);
        proof {
            assert forall|j: int| 0 <= j < ts.len() && j != p implies lookup(
                #[trigger] ts[j],
                key@,
            ) is None by {
                assert(store.table_of(l[j].0) is Some);
                store.lemma_table_sorted(l[j].0);
                if j < p {
                    lemma_outside_range(ts[j], key@);
                } else {
                    lemma_level_sorted_pairwise(l, p as int, j);
                    lemma_key_order(l[p as int].2, key@);
                    lemma_key_le_lt_trans(key@, l[p as int].2, l[j].1);
                    lemma_outside_range(ts[j], key@);
                }
            }
        }
        if p == self.sstable_file_metas.len() {
            proof {
                lemma_lookup_first_none(ts, key@);
            }
            return Ok(None);
        }
        let id = self.sstable_file_metas[p].file_id();
        proof {
            assert(store.table_of(l[p as int].0) is Some);
            lemma_lookup_first_only(ts, p as int, key@);
        }
        match store.get(id) {
            None => Ok(None),
            Some(t) => t.get(key),
        }
    }
}

/// Hands out increasing file ids.
pub struct FileStorageManager {
    next_file_id: FileId,
}

impl View for FileStorageManager {
    type V = nat;

    /// The id that the next file gets.
    closed spec fn view(&self) -> nat {
        self.next_file_id as nat
    }
}

impl FileStorageManager {
    /// A manager whose first file gets id `first_id`.
    pub fn new(first_id: FileId) -> (r: FileStorageManager)
        ensures
            r@ == first_id,
    {
        FileStorageManager { next_file_id: first_id }
    }

    /// A manager for a directory that already holds files with the given ids:
    /// the next id is one more than the greatest of them, 1 when there are none.
    pub fn from(existing: &Vec<FileId>) -> (r: FileStorageManager)
        requires
            forall|i: int| 0 <= i < existing@.len() ==> existing@[i] < u64::MAX,
        ensures
            forall|i: int| 0 <= i < existing@.len() ==> existing@[i] < r@,
            existing@.len() == 0 ==> r@ == 1,
            existing@.len() > 0 ==> exists|i: int| 0 <= i < existing@.len() && r@ == existing@[i] + 1,
    {
        let mut max: u64 = 0;
        let mut i: usize = 0;
        while i < existing.len()
            invariant
                i <= existing@.len(),
                forall|j: int| 0 <= j < existing@.len() ==> existing@[j] < u64::MAX,
                forall|j: int| 0 <= j < i ==> existing@[j] <= max,
                i == 0 ==> max == 0,
                i > 0 ==> exists|j: int| 0 <= j < i && existing@[j] == max,
            decreases existing@.len() - i,
        {
            if i == 0 || existing[i] > max {
                max = existing[i];
            }
            i = i + 1;
        }
        FileStorageManager { next_file_id: max + 1 }
    }

    /// A fresh id, greater than every id handed out before.
    pub fn new_file(&mut self) -> (r: Result<FileId, MyError>)
        ensures
            r is Ok <==> old(self)@ < u64::MAX,
            r is Err ==> old(self)@ == u64::MAX,
            r is Ok ==> r.unwrap() == old(self)@ && final(self)@ == old(self)@ + 1,
            r is Err ==> r == Err::<FileId, MyError>(MyError::IdsExhausted) && final(self)@ == old(
                self,
            )@,
    {
        if self.next_file_id == u64::MAX {
            return Err(MyError::IdsExhausted);
        }
        let id = self.next_file_id;
        self.next_file_id = id + 1;
        Ok(id)
    }

    pub fn next_id(&self) -> (r: FileId)
        ensures
            r == self@,
    {
        self.next_file_id
    }
}

/// What compacting tables into a level does to that level.
pub struct CompactSStableResult {
    pub remove_sstables: Vec<SStableFileMeta>,
    pub add_sstables: Vec<SStableFileMeta>,
    pub position: usize,
}

impl CompactSStableResult {
    pub fn duplicate(&self) -> (r: CompactSStableResult)
        ensures
            metas_view(r.remove_sstables@) == metas_view(self.remove_sstables@),
            metas_view(r.add_sstables@) == metas_view(self.add_sstables@),
            r.position == self.position,
    {
        CompactSStableResult {
            remove_sstables: copy_metas(&self.remove_sstables),
            add_sstables: copy_metas(&self.add_sstables),
            position: self.position,
        }
    }
}

/// One step from a version to the next.
pub enum LevelChange {
    /// A flushed memory table becomes the newest table of level 0.
    MemtableCompact { sstable_file_metas: SStableFileMeta },
    /// A table leaves `compact_from_level`; the next level changes as the result says.
    LevelCompact {
        compact_from_level: usize,
        compact_sstable: SStableFileMeta,
        compact_result: CompactSStableResult,
    },
}

/// Entries of a sequence of tables, one after another.
pub open spec fn concat(ts: Seq<Seq<EntryModel>>) -> Seq<EntryModel>
    decreases ts.len(),
{
    if ts.len() == 0 {
        seq![]
    } else {
        concat(ts.drop_last()) + ts.last()
    }
}

/// Entries that a compaction writes: the merge of its sources, with
/// tombstones left out when `discard` holds.
pub open spec fn compacted(out: Seq<EntryModel>, sources: Seq<Seq<EntryModel>>, discard: bool) -> bool {
    &&& strictly_sorted(out)
    &&& forall|key: Seq<u8>| #[trigger] lookup(out, key) == if discard {
        match lookup_first(sources, key) {
            Some(Some(v)) => Some(Some(v)),
            _ => None,
        }
    } else {
        lookup_first(sources, key)
    }
    &&& discard ==> forall|i: int| 0 <= i < out.len() ==> (#[trigger] out[i]).1 is Some
}

/// Smallest first key among the tables.
pub open spec fn min_start(l: Seq<FileMetaModel>) -> Seq<u8>
    decreases l.len(),
{
    if l.len() <= 1 {
        l[0].1
    } else if key_lt(l.last().1, min_start(l.drop_last())) {
        l.last().1
    } else {
        min_start(l.drop_last())
    }
}

/// Greatest last key among the tables.
pub open spec fn max_end(l: Seq<FileMetaModel>) -> Seq<u8>
    decreases l.len(),
{
    if l.len() <= 1 {
        l[0].2
    } else if key_lt(max_end(l.drop_last()), l.last().2) {
        l.last().2
    } else {
        max_end(l.drop_last())
    }
}

/// Entries of the new tables, one table after another.
pub open spec fn new_tables_view(v: Seq<(FileId, SSTable)>) -> Seq<Seq<EntryModel>> {
    v.map_values(|p: (FileId, SSTable)| p.1@)
}

pub proof fn lemma_lookup_some_entry(s: Seq<EntryModel>, key: Seq<u8>)
    requires
        lookup(s, key) is Some,
    ensures
        exists|j: int| 0 <= j < s.len() && s[j] == (key, lookup(s, key).unwrap()),
    decreases s.len(),
{
    if s[0].0 != key {
        lemma_lookup_some_entry(s.drop_first(), key);
        let j = choose|j: int|
            0 <= j < s.drop_first().len() && s.drop_first()[j] == (key, lookup(s, key).unwrap());
        assert(s[j + 1] == s.drop_first()[j]);
    } else {
        assert(s[0] == (key, lookup(s, key).unwrap()));
    }
}

proof fn lemma_lookup_first_entry(sources: Seq<Seq<EntryModel>>, key: Seq<u8>)
    requires
        lookup_first(sources, key) is Some,
    ensures
        exists|a: int, j: int|
            0 <= a < sources.len() && 0 <= j < sources[a].len() && sources[a][j] == (
                key,
                lookup_first(sources, key).unwrap(),
            ),
    decreases sources.len(),
{
    let d = sources.drop_last();
    if lookup_first(d, key) is Some {
        lemma_lookup_first_entry(d, key);
        let (a, j) = choose|a: int, j: int|
            0 <= a < d.len() && 0 <= j < d[a].len() && d[a][j] == (
                key,
                lookup_first(d, key).unwrap(),
            );
        assert(sources[a] == d[a]);
    } else {
        lemma_lookup_some_entry(sources.last(), key);
        let j = choose|j: int|
            0 <= j < sources.last().len() && sources.last()[j] == (
                key,
                lookup(sources.last(), key).unwrap(),
            );
        assert(sources[sources.len() - 1] == sources.last());
    }
}

/// Entries of a compaction's output come from its sources, so they keep any
/// property that every source entry has.
proof fn lemma_compacted_encodable(out: Seq<EntryModel>, sources: Seq<Seq<EntryModel>>, discard: bool)
    requires
        compacted(out, sources, discard),
        forall|a: int, j: int|
            0 <= a < sources.len() && 0 <= j < sources[a].len() ==> crate::block::encodable(
                #[trigger] sources[a][j],
            ),
    ensures
        forall|i: int| 0 <= i < out.len() ==> crate::block::encodable(#[trigger] out[i]),
{
    assert forall|i: int| 0 <= i < out.len() implies crate::block::encodable(#[trigger] out[i]) by {
        let k = out[i].0;
        assert forall|j: int| 0 <= j < i implies #[trigger] out[j].0 != k by {
            lemma_key_order(out[j].0, k);
        }
        crate::common::lemma_lookup_at(out, k, i);
        assert(lookup(out, k) == Some(out[i].1));
        assert(lookup_first(sources, k) == Some(out[i].1));
        lemma_lookup_first_entry(sources, k);
    }
}

impl Level {
    /// Smallest first key and greatest last key of the tables.
    pub fn key_range(metas: &Vec<SStableFileMeta>) -> (r: (Key, Key))
        requires
            metas@.len() > 0,
        ensures
            r.0@ == min_start(metas_view(metas@)),
            r.1@ == max_end(metas_view(metas@)),
    {
        let ghost l = metas_view(metas@);
        let mut lo = metas[0].start_key();
        let mut hi = metas[0].last_key();
        let mut i: usize = 1;
        while i < metas.len()
            invariant
                l == metas_view(metas@),
                1 <= i <= metas@.len(),
                lo@ == min_start(l.subrange(0, i as int)),
                hi@ == max_end(l.subrange(0, i as int)),
            decreases metas@.len() - i,
        {
            proof {
                assert(l.subrange(0, i + 1).drop_last() =~= l.subrange(0, i as int));
                assert(l.subrange(0, i + 1).last() == metas@[i as int]@);
            }
            if metas[i].start_ref().lt(&lo) {
                lo = metas[i].start_key();
            }
            if hi.lt(metas[i].last_ref()) {
                hi = metas[i].last_key();
            }
            i = i + 1;
        }
        proof {
            assert(l.subrange(0, i as int) =~= l);
        }
        (lo, hi)
    }

    /// Compacts tables of the level above into this level. Where no table of
    /// this level overlaps their key range, they move in unchanged at the
    /// position that keeps the level in order. Otherwise the input tables
    /// (first, newest) and the overlapping tables are merged, one entry per
    /// key, tombstones dropped when `discard_deleted_kv` holds, and written to
    /// new tables of about `SSTABLE_SIZE_LIMIT` bytes.
    pub fn compact_sstable(
        &self,
        input_sstables_metas: Vec<SStableFileMeta>,
        discard_deleted_kv: bool,
        store: &TableStore,
        files: &mut FileStorageManager,
    ) -> (r: Result<(CompactSStableResult, Vec<(FileId, SSTable)>), MyError>)
        requires
            store.wf(),
            level_sorted(self@),
            store_matches(store, self@),
            input_sstables_metas@.len() > 0,
            forall|i: int| 0 <= i < input_sstables_metas@.len() ==> key_le(
                (#[trigger] input_sstables_metas@[i])@.1,
                input_sstables_metas@[i]@.2,
            ),
            holds_all(store, metas_view(input_sstables_metas@)),
        ensures
            r is Err ==> r == Err::<(CompactSStableResult, Vec<(FileId, SSTable)>), MyError>(
                MyError::IdsExhausted,
            ) && final(files)@ == u64::MAX,
            final(files)@ >= old(files)@,
            r is Ok ==> final(files)@ == old(files)@ + r.unwrap().1@.len(),
            r is Ok ==> {
                let (res, new_tables) = r.unwrap();
                let p = res.position as int;
                let removed = metas_view(res.remove_sstables@);
                let input = metas_view(input_sstables_metas@);
                let start = min_start(input);
                let end = max_end(input);
                &&& p + removed.len() <= self@.len()
                &&& removed == self@.subrange(p, p + removed.len())
                &&& forall|k: int| 0 <= k < new_tables@.len() ==> (#[trigger] new_tables@[k]).1.wf()
                &&& forall|i: int|
                    0 <= i < self@.len() ==> (p <= i < p + removed.len() <==> overlaps(
                        #[trigger] self@[i],
                        start,
                        end,
                    ))
                &&& removed.len() == 0 ==> {
                    &&& forall|i: int| 0 <= i < p ==> key_lt(#[trigger] self@[i].2, start)
                    &&& forall|i: int| p <= i < self@.len() ==> !key_lt(#[trigger] self@[i].2, start)
                }
                &&& removed.len() == 0 && !discard_deleted_kv ==> {
                    &&& metas_view(res.add_sstables@) == input
                    &&& new_tables@.len() == 0
                }
                &&& removed.len() > 0 || discard_deleted_kv ==> {
                    &&& res.add_sstables@.len() == new_tables@.len()
                    &&& forall|k: int|
                        0 <= k < new_tables@.len() ==> (#[trigger] new_tables@[k]).1.wf()
                            && new_tables@[k].0 == old(files)@ + k && res.add_sstables@[k]@ == (
                            new_tables@[k].0,
                            new_tables@[k].1@[0].0,
                            new_tables@[k].1@.last().0,
                        )
                    &&& final(files)@ == old(files)@ + new_tables@.len()
                    &&& compacted(
                        concat(new_tables_view(new_tables@)),
                        tables_of(store, input) + tables_of(store, removed),
                        discard_deleted_kv,
                    )
                }
            },
    {
        let ghost input = metas_view(input_sstables_metas@);
        proof {
            lemma_min_le_max(input);
        }
        let (start_key, end_key) = Level::key_range(&input_sstables_metas);
        let overlap = self.key_overlap(&start_key, &end_key);
        let (overlap_metas, position) = match overlap {
            None => {
                let position = self.partition_last_lt(&start_key);
                proof {
                    assert forall|i: int| 0 <= i < self@.len() implies (position <= i < position
                        + 0 <==> overlaps(#[trigger] self@[i], start_key@, end_key@)) by {}
                    assert(self@.subrange(position as int, position as int) =~= Seq::<
                        FileMetaModel,
                    >::empty());
                }
                if !discard_deleted_kv {
                    let res = CompactSStableResult {
                        remove_sstables: Vec::new(),
                        add_sstables: input_sstables_metas,
                        position,
                    };
                    proof {
                        assert(metas_view(res.remove_sstables@) =~= Seq::<FileMetaModel>::empty());
                    }
                    return Ok((res, Vec::new()));
                }
                let empty: Vec<SStableFileMeta> = Vec::new();
                proof {
                    assert(metas_view(empty@) =~= self@.subrange(position as int, position as int));
                }
                (empty, position)
            },
            Some((v, p)) => (v, p),
        };
        let ghost removed = metas_view(overlap_metas@);
        // gather the sources: input tables first, then the overlapping ones
        let mut sources: Vec<Vec<crate::common::KVIterItem>> = Vec::new();
        let mut i: usize = 0;
        while i < input_sstables_metas.len()
            invariant
                store.wf(),
                input == metas_view(input_sstables_metas@),
                holds_all(store, input),
                i <= input.len(),
                crate::merge::sources_view(sources@) == tables_of(store, input).subrange(
                    0,
                    i as int,
                ),
            decreases input.len() - i,
        {
            let id = input_sstables_metas[i].file_id();
            proof {
                assert(input[i as int] == input_sstables_metas@[i as int]@);
                assert(store.table_of(input[i as int].0) is Some);
            }
            let t = match store.get(id) {
                Some(t) => t,
                None => {
                    proof {
                        assert(false);
                    }
                    return Err(MyError::IdsExhausted);
                },
            };
            let entries = match t.iter() {
                Ok(e) => e,
                Err(_) => Vec::new(),
            };
            let ghost prev = sources@;
            sources.push(entries);
            proof {
                assert(crate::merge::sources_view(sources@) =~= crate::merge::sources_view(
                    prev,
                ).push(t@));
                assert(tables_of(store, input).subrange(0, i + 1) =~= tables_of(
                    store,
                    input,
                ).subrange(0, i as int).push(t@));
            }
            i = i + 1;
        }
        proof {
            assert(tables_of(store, input).subrange(0, i as int) =~= tables_of(
                store,
                input,
            ));
            assert(removed == self@.subrange(
                position as int,
                position + overlap_metas@.len(),
            ));
        }
        let mut j: usize = 0;
        while j < overlap_metas.len()
            invariant
                store.wf(),
                removed == metas_view(overlap_metas@),
                store_matches(store, self@),
                removed == self@.subrange(position as int, position + removed.len()),
                position + removed.len() <= self@.len(),
                j <= removed.len(),
                crate::merge::sources_view(sources@) == tables_of(store, input) + tables_of(
                    store,
                    removed,
                ).subrange(0, j as int),
            decreases removed.len() - j,
        {
            let id = overlap_metas[j].file_id();
            proof {
                assert(removed[j as int] == overlap_metas@[j as int]@);
                assert(removed[j as int] == self@[position + j]);
                assert(store.table_of(self@[position + j].0) is Some);
            }
            let t = match store.get(id) {
                Some(t) => t,
                None => {
                    proof {
                        assert(false);
                    }
                    return Err(MyError::IdsExhausted);
                },
            };
            let entries = match t.iter() {
                Ok(e) => e,
                Err(_) => Vec::new(),
            };
            let ghost prev = sources@;
            sources.push(entries);
            proof {
                assert(crate::merge::sources_view(sources@) =~= crate::merge::sources_view(
                    prev,
                ).push(t@));
                assert(tables_of(store, removed).subrange(0, j + 1) =~= tables_of(
                    store,
                    removed,
                ).subrange(0, j as int).push(t@));
            }
            j = j + 1;
        }
        let ghost sv = crate::merge::sources_view(sources@);
        proof {
            assert(tables_of(store, removed).subrange(0, j as int) =~= tables_of(
                store,
                removed,
            ));
            assert forall|a: int| 0 <= a < sources@.len() implies strictly_sorted(
                #[trigger] crate::common::items_view(sources@[a]@),
            ) && forall|b: int|
                0 <= b < sv[a].len() ==> crate::block::encodable(#[trigger] sv[a][b]) by {
                assert(sv[a] == crate::common::items_view(sources@[a]@));
                if a < input.len() {
                    assert(sv[a] == tables_of(store, input)[a]);
                    lemma_table_of_wf(store, input[a].0);
                } else {
                    assert(sv[a] == tables_of(store, removed)[a - input.len()]);
                    assert(store.table_of(self@[position + a - input.len()].0) is Some);
                    lemma_table_of_wf(store, removed[a - input.len()].0);
                }
            }
        }
        let merged = crate::merge::merge_sources(&sources);
        let out = if discard_deleted_kv {
            crate::merge::filter_live(&merged)
        } else {
            merged
        };
        let ghost ov = crate::common::items_view(out@);
        proof {
            assert(compacted(ov, sv, discard_deleted_kv));
            lemma_compacted_encodable(ov, sv, discard_deleted_kv);
        }
        // write the merged entries to new tables
        let ghost first_id = files@;
        let mut new_tables: Vec<(FileId, SSTable)> = Vec::new();
        let mut added: Vec<SStableFileMeta> = Vec::new();
        let mut next: usize = 0;
        proof {
            assert(concat(new_tables_view(new_tables@)) =~= ov.subrange(0, 0));
            assert forall|b: int| 0 <= b < out@.len() implies crate::block::encodable(
                #[trigger] crate::common::item_view(out@[b]),
            ) by {
                assert(crate::common::item_view(out@[b]) == ov[b]);
            }
        }
        while next < out.len()
            invariant
                ov == crate::common::items_view(out@),
                strictly_sorted(ov),
                forall|b: int| 0 <= b < out@.len() ==> crate::block::encodable(
                    #[trigger] crate::common::item_view(out@[b]),
                ),
                next <= out@.len(),
                concat(new_tables_view(new_tables@)) == ov.subrange(0, next as int),
                added@.len() == new_tables@.len(),
                files@ == first_id + new_tables@.len(),
                forall|k: int|
                    0 <= k < new_tables@.len() ==> (#[trigger] new_tables@[k]).1.wf()
                        && new_tables@[k].0 == first_id + k && added@[k]@ == (
                        new_tables@[k].0,
                        new_tables@[k].1@[0].0,
                        new_tables@[k].1@.last().0,
                    ),
            decreases out@.len() - next,
        {
            proof {
                assert forall|b: int| 0 <= b < out@.len() implies crate::block::encodable(
                    #[trigger] crate::common::item_view(out@[b]),
                ) by {
                    assert(crate::common::item_view(out@[b]) == ov[b]);
                }
            }
            let (t, _more, after) = SSTable::from_iter_with_file_limit(
                &out,
                next,
                crate::sstable::SSTABLE_SIZE_LIMIT,
            );
            let table = match t {
                Some(t) => t,
                None => {
                    proof {
                        assert(false);
                    }
                    return Err(MyError::IdsExhausted);
                },
            };
            let id = match files.new_file() {
                Ok(id) => id,
                Err(_) => {
                    return Err(MyError::IdsExhausted);
                },
            };
            let meta = SStableFileMeta::from(&table, id);
            let ghost tv = table@;
            let ghost prev = new_tables@;
            let ghost prev_added = added@;
            added.push(meta);
            new_tables.push((id, table));
            proof {
                assert(new_tables_view(new_tables@).drop_last() =~= new_tables_view(prev));
                assert(new_tables_view(new_tables@).last() == tv);
                assert(ov.subrange(0, after as int) =~= ov.subrange(0, next as int)
                    + ov.subrange(next as int, after as int));
                assert forall|k: int| 0 <= k < new_tables@.len() implies (
                #[trigger] new_tables@[k]).1.wf() && new_tables@[k].0 == first_id + k
                    && added@[k]@ == (
                    new_tables@[k].0,
                    new_tables@[k].1@[0].0,
                    new_tables@[k].1@.last().0,
                ) by {
                    if k < prev.len() {
                        assert(new_tables@[k] == prev[k]);
                        assert(added@[k] == prev_added[k]);
                    }
                }
            }
            next = after;
        }
        proof {
            assert(ov.subrange(0, next as int) =~= ov);
        }
        let res = CompactSStableResult {
            remove_sstables: overlap_metas,
            add_sstables: added,
            position,
        };
        Ok((res, new_tables))
    }
}

proof fn lemma_table_of_wf(store: &TableStore, id: FileId)
    requires
        store.wf(),
        store.table_of(id) is Some,
    ensures
        strictly_sorted(store.table_of(id).unwrap()),
        forall|b: int|
            0 <= b < store.table_of(id).unwrap().len() ==> crate::block::encodable(
                #[trigger] store.table_of(id).unwrap()[b],
            ),
{
    store.lemma_table_entries(id);
}

proof fn lemma_min_start(l: Seq<FileMetaModel>)
    requires
        l.len() > 0,
    ensures
        forall|i: int| 0 <= i < l.len() ==> key_le(min_start(l), #[trigger] l[i].1),
    decreases l.len(),
{
    if l.len() > 1 {
        let d = l.drop_last();
        lemma_min_start(d);
        let m = min_start(d);
        let last = l.last().1;
        lemma_key_order(last, m);
        assert forall|i: int| 0 <= i < l.len() implies key_le(min_start(l), #[trigger] l[i].1) by {
            lemma_key_order(min_start(l), l[i].1);
            if i < l.len() - 1 {
                assert(l[i] == d[i]);
                if key_lt(last, m) {
                    crate::key::lemma_key_lt_le_trans(last, m, l[i].1);
                }
            }
        }
    } else {
        lemma_key_order(l[0].1, l[0].1);
    }
}

proof fn lemma_max_end(l: Seq<FileMetaModel>)
    requires
        l.len() > 0,
    ensures
        forall|i: int| 0 <= i < l.len() ==> key_le(#[trigger] l[i].2, max_end(l)),
    decreases l.len(),
{
    if l.len() > 1 {
        let d = l.drop_last();
        lemma_max_end(d);
        let m = max_end(d);
        let last = l.last().2;
        lemma_key_order(m, last);
        assert forall|i: int| 0 <= i < l.len() implies key_le(#[trigger] l[i].2, max_end(l)) by {
            lemma_key_order(l[i].2, max_end(l));
            if i < l.len() - 1 {
                assert(l[i] == d[i]);
                if key_lt(m, last) {
                    crate::key::lemma_key_le_lt_trans(l[i].2, m, last);
                }
            }
        }
    } else {
        lemma_key_order(l[0].2, l[0].2);
    }
}

proof fn lemma_min_le_max(l: Seq<FileMetaModel>)
    requires
        l.len() > 0,
        forall|i: int| 0 <= i < l.len() ==> key_le((#[trigger] l[i]).1, l[i].2),
    ensures
        key_le(min_start(l), max_end(l)),
{
    lemma_min_start(l);
    lemma_max_end(l);
    assert(key_le(min_start(l), l[0].1));
    assert(key_le(l[0].1, l[0].2));
    assert(key_le(l[0].2, max_end(l)));
    lemma_key_order(min_start(l), l[0].1);
    lemma_key_order(l[0].1, l[0].2);
    if min_start(l) != l[0].1 {
        crate::key::lemma_key_lt_le_trans(min_start(l), l[0].1, l[0].2);
        lemma_key_order(l[0].2, max_end(l));
        if l[0].2 != max_end(l) {
            lemma_key_lt_trans(min_start(l), l[0].2, max_end(l));
        }
    } else {
        lemma_key_order(l[0].2, max_end(l));
        if l[0].2 != max_end(l) {
            crate::key::lemma_key_le_lt_trans(min_start(l), l[0].2, max_end(l));
        }
    }
}

impl Level {
    /// Whether the store holds every table of the level with its recorded key range.
    pub fn check_store(&self, store: &TableStore) -> (r: bool)
        requires
            store.wf(),
        ensures
            r == store_matches(store, self@),
    {
        let mut i: usize = 0;
        while i < self.sstable_file_metas.len()
            invariant
                store.wf(),
                i <= self@.len(),
                forall|k: int|
                    0 <= k < i ==> (#[trigger] store.table_of(self@[k].0)) is Some
                        && store.table_of(self@[k].0).unwrap()[0].0 == self@[k].1
                        && store.table_of(self@[k].0).unwrap().last().0 == self@[k].2,
            decreases self@.len() - i,
        {
            let m = &self.sstable_file_metas[i];
            proof {
                assert(self@[i as int] == m@);
            }
            match store.get(m.file_id()) {
                None => {
                    return false;
                },
                Some(t) => {
                    proof {
                        t.lemma_wf_entries();
                    }
                    if !t.start_key().equal(m.start_ref()) || !t.last_key().equal(m.last_ref()) {
                        return false;
                    }
                },
            }
            i = i + 1;
        }
        true
    }

    /// Whether the level is in key order with disjoint ranges.
    pub fn check_sorted(&self) -> (r: bool)
        ensures
            r == level_sorted(self@),
    {
        let n = self.sstable_file_metas.len();
        let mut i: usize = 0;
        while i < n
            invariant
                n == self@.len(),
                i <= n,
                forall|k: int| 0 <= k < i ==> key_le(#[trigger] self@[k].1, self@[k].2),
                forall|k: int| 0 <= k < i && k < n - 1 ==> key_lt(#[trigger] self@[k].2, self@[k + 1].1),
            decreases n - i,
        {
            proof {
                assert(self@[i as int] == self.sstable_file_metas@[i as int]@);
            }
            if !self.sstable_file_metas[i].start_ref().le(self.sstable_file_metas[i].last_ref()) {
                return false;
            }
            if i + 1 < n {
                proof {
                    assert(self@[i + 1] == self.sstable_file_metas@[i + 1]@);
                }
                if !self.sstable_file_metas[i].last_ref().lt(self.sstable_file_metas[i + 1].start_ref()) {
                    return false;
                }
            }
            i = i + 1;
        }
        true
    }
}

impl Level {
    /// A cache of table indexes holding up to `capacity` entries.
    pub fn new_cache(capacity: usize) -> (r: crate::sstable_cache::SSTableMetaCache)
        requires
            capacity > 0,
        ensures
            r.capacity() == capacity,
            r.entries().len() == 0,
    {
        crate::sstable_cache::SSTableMetaCache::new(capacity)
    }
}

} // verus!
