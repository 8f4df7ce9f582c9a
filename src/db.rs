use vstd::prelude::*;
use crate::common::{MyError, ValueWithTag, found_view, lookup, tag_view, KVIterItem, items_view};
use crate::config::Config;
use crate::key::Key;
use crate::level::{FileId, FileStorageManager, LevelChange, TableStore};
use crate::memtable::Memtable;
use crate::value::{Value, VALUE_SIZE_LIMIT};
use crate::version::{Version, consistent, version_get};

verus! {

/// Builds the shared cache of table indexes.
pub fn new_sstable_cache(capacity: usize) -> (r: crate::sstable_cache::SSTableMetaCache)
    requires
        capacity > 0,
    ensures
        r.capacity() == capacity,
{
    crate::sstable_cache::SSTableMetaCache::new(capacity)
}

/// Bytes that a write carries: its key and value.
pub fn write_size(key: &Key, value: &ValueWithTag) -> (r: usize)
    requires
        key@.len() + match value {
            Some(v) => v@.len(),
            None => 0,
        } <= usize::MAX,
    ensures
        r == key@.len() + match value {
            Some(v) => v@.len(),
            None => 0,
        },
{
    let k = key.len();
    match value {
        Some(v) => {
            let vl = v.len();
            k + vl
        },
        None => k,
    }
}

/// What a read of `key` finds: the memory table first, then the tables.
pub open spec fn read_model(mt: Seq<crate::common::EntryModel>, store: &TableStore, v: Seq<Seq<crate::level::FileMetaModel>>, key: Seq<u8>) -> Option<Seq<u8>> {
    match lookup(mt, key) {
        Some(Some(x)) => Some(x),
        Some(None) => None,
        None => version_get(store, v, key),
    }
}

/// The store's state in one thread: the memory table, the current version and
/// the tables it names.
pub struct DbCore {
    memtable: Memtable,
    version: Version,
    store: TableStore,
    files: FileStorageManager,
    config: Config,
    stopped: bool,
}

impl DbCore {
    #[verifier::type_invariant]
    spec fn inv(&self) -> bool {
        &&& self.store.wf()
        &&& consistent(&self.store, self.version@)
        &&& crate::version::ids_below(self.version@, self.files@)
        &&& self.version.config_spec() == self.config
    }

    /// What a read of `key` finds now.
    pub closed spec fn read(&self, key: Seq<u8>) -> Option<Seq<u8>> {
        read_model(self.memtable@, &self.store, self.version@, key)
    }

    /// Whether the store stopped taking writes after a broken invariant.
    pub closed spec fn is_stopped(&self) -> bool {
        self.stopped
    }

    /// An empty store.
    pub fn open(config: Config) -> (r: DbCore)
        ensures
            forall|k: Seq<u8>| r.read(k) is None,
            !r.is_stopped(),
    {
        let cfg = config.duplicate();
        let r = DbCore {
            memtable: Memtable::new(),
            version: Version::new(config),
            store: TableStore::new(),
            files: FileStorageManager::new(0),
            config: cfg,
            stopped: false,
        };
        proof {
            assert forall|k: Seq<u8>| r.read(k) is None by {
                assert(crate::version::all_tables(&r.store, r.version@) =~= Seq::empty());
            }
        }
        r
    }

    /// Point read.
    pub fn get(&self, key: &Key) -> (r: Result<Option<Value>, MyError>)
        ensures
            r is Ok,
            tag_view(r.unwrap()) == self.read(key@),
    {
        proof {
            use_type_invariant(self);
        }
        match self.memtable.get(key) {
            Some(Some(v)) => Ok(Some(v)),
            Some(None) => Ok(None),
            None => self.version.get(key, &self.store),
        }
    }

    /// Writes `value` for `key`.
    pub fn put(&mut self, key: Key, value: Value) -> (r: Result<(), MyError>)
        ensures
            r is Ok <==> !old(self).is_stopped() && 0 < value@.len() <= VALUE_SIZE_LIMIT,
            r is Ok ==> final(self).read(key@) == Some(value@),
            r is Ok ==> forall|k: Seq<u8>| k != key@ ==> final(self).read(k) == old(self).read(k),
            r is Err ==> final(self).read(key@) == old(self).read(key@) && forall|k: Seq<u8>|
                final(self).read(k) == old(self).read(k),
            final(self).is_stopped() == old(self).is_stopped(),
    {
        proof {
            use_type_invariant(&*self);
        }
        if self.stopped {
            return Err(MyError::Stopped);
        }
        let vl = value.len();
        if vl == 0 {
            return Err(MyError::EmptyValue);
        }
        if vl > VALUE_SIZE_LIMIT {
            return Err(MyError::ValueTooLarge);
        }
        let mut mt = Memtable::new();
        std::mem::swap(&mut mt, &mut self.memtable);
        mt.insert(&key, &value);
        std::mem::swap(&mut mt, &mut self.memtable);
        Ok(())
    }

    /// Writes a tombstone for `key`.
    pub fn delete(&mut self, key: Key) -> (r: Result<(), MyError>)
        ensures
            r is Ok <==> !old(self).is_stopped(),
            r is Ok ==> final(self).read(key@) is None,
            r is Ok ==> forall|k: Seq<u8>| k != key@ ==> final(self).read(k) == old(self).read(k),
            r is Err ==> forall|k: Seq<u8>| final(self).read(k) == old(self).read(k),
            final(self).is_stopped() == old(self).is_stopped(),
    {
        proof {
            use_type_invariant(&*self);
        }
        if self.stopped {
            return Err(MyError::Stopped);
        }
        let mut mt = Memtable::new();
        std::mem::swap(&mut mt, &mut self.memtable);
        mt.delete(&key);
        std::mem::swap(&mut mt, &mut self.memtable);
        Ok(())
    }
}

impl DbCore {
    pub closed spec fn memtable_view(&self) -> Seq<crate::common::EntryModel> {
        self.memtable@
    }

    pub closed spec fn version_view(&self) -> Seq<Seq<crate::level::FileMetaModel>> {
        self.version@
    }

    /// Entries of the table stored under `id`.
    pub closed spec fn table(&self, id: FileId) -> Option<Seq<crate::common::EntryModel>> {
        self.store.table_of(id)
    }

    /// Bytes written to the memory table since it was created.
    pub closed spec fn memtable_bytes(&self) -> nat {
        self.memtable.approximate_size()
    }

    pub closed spec fn config_spec(&self) -> Config {
        self.config
    }

    /// Bytes written to the memory table, for the rotation threshold.
    pub fn memtable_size(&self) -> (r: usize)
        ensures
            r == self.memtable_bytes(),
    {
        self.memtable.size()
    }

    /// Whether the memory table has grown past its configured limit.
    pub fn memtable_full(&self) -> (r: bool)
        ensures
            r == (self.memtable_bytes() > self.config_spec().memtable_size_limit),
    {
        self.memtable.size() > self.config.memtable_size_limit
    }

    /// One more than the deepest level that holds a table.
    pub fn depth(&self) -> (r: usize)
        ensures
            r <= self.version_view().len(),
            forall|i: int| r <= i < self.version_view().len() ==> (#[trigger] self.version_view()[i]).len() == 0,
            r > 0 ==> self.version_view()[r - 1].len() > 0,
    {
        self.version.depth()
    }

    /// Bytes of the table file stored under `id`.
    pub closed spec fn table_file(&self, id: FileId) -> Option<Seq<u8>> {
        self.store.bytes_of(id)
    }

    /// The bytes of the table file stored under `id`.
    pub fn table_bytes(&self, id: FileId) -> (r: Option<Vec<u8>>)
        ensures
            self.table(id) is None <==> r is None,
            match self.table_file(id) {
                None => r is None,
                Some(b) => r is Some && r.unwrap()@ == b,
            },
    {
        proof {
            use_type_invariant(self);
        }
        match self.store.get(id) {
            Some(t) => Some(crate::key::copy_bytes(t.data())),
            None => None,
        }
    }

    /// Ids of all files that the current version names.
    pub fn all_file_ids(&self) -> (r: Vec<FileId>)
        ensures
            forall|id: FileId|
                r@.contains(id) <==> exists|i: int, j: int|
                    0 <= i < self.version_view().len() && 0 <= j < self.version_view()[i].len()
                        && #[trigger] self.version_view()[i][j].0 == id,
    {
        let r = self.version.all_file_ids();
        proof {
            let v = self.version_view();
            assert(v == self.version@);
            assert forall|id: FileId| r@.contains(id) <==> exists|i: int, j: int|
                0 <= i < v.len() && 0 <= j < v[i].len() && #[trigger] v[i][j].0 == id by {
                if r@.contains(id) {
                    let (i, j) = choose|i: int, j: int|
                        0 <= i < self.version@.len() && 0 <= j < self.version@[i].len()
                            && #[trigger] self.version@[i][j].0 == id;
                    assert(v[i][j].0 == id);
                }
                if exists|i: int, j: int| 0 <= i < v.len() && 0 <= j < v[i].len() && #[trigger] v[i][j].0 == id {
                    let (i, j) = choose|i: int, j: int|
                        0 <= i < v.len() && 0 <= j < v[i].len() && #[trigger] v[i][j].0 == id;
                    assert(self.version@[i][j].0 == id);
                }
            }
        }
        r
    }

    /// Number of tables in `level`, 0 past the deepest level.
    pub fn level_len(&self, level: usize) -> (r: usize)
        ensures
            level < self.version_view().len() ==> r == self.version_view()[level as int].len(),
            level >= self.version_view().len() ==> r == 0,
    {
        self.version.level_len(level)
    }

    /// Settings the store runs with.
    pub fn config(&self) -> (r: &Config)
        ensures
            *r == self.config_spec(),
    {
        &self.config
    }

    /// Entries of the tables of `level`, in the level's order.
    pub closed spec fn level_tables(&self, level: int) -> Seq<Seq<crate::common::EntryModel>> {
        crate::level::tables_of(&self.store, self.version@[level])
    }

    /// Entries of every table of `level`, table by table.
    pub fn level_entries(&self, level: usize) -> (r: Vec<KVIterItem>)
        ensures
            level >= self.version_view().len() ==> r@.len() == 0,
            level < self.version_view().len() ==> items_view(r@) == crate::level::concat(
                self.level_tables(level as int),
            ),
    {
        proof {
            use_type_invariant(self);
        }
        proof {
            if level < self.version@.len() {
                assert(crate::level::store_matches(&self.store, self.version@[level as int]));
            }
        }
        self.version.level_entries(level, &self.store)
    }

    /// The id that the next new table file gets.
    pub closed spec fn next_file_id(&self) -> nat {
        self.files@
    }

    /// Writes the memory table to a new level-0 table and installs the
    /// version that holds it. An empty memory table makes no table and no
    /// change. Reads are unchanged whatever happens.
    pub fn flush(&mut self) -> (r: Result<Option<LevelChange>, MyError>)
        ensures
            old(self).is_stopped() ==> r == Err::<Option<LevelChange>, MyError>(MyError::Stopped),
            !old(self).is_stopped() && old(self).memtable_view().len() == 0 ==> r == Ok::<
                Option<LevelChange>,
                MyError,
            >(None) && final(self).version_view() == old(self).version_view(),
            !old(self).is_stopped() && old(self).memtable_view().len() > 0 && old(self).next_file_id()
                < u64::MAX && crate::block::encode_entries(old(self).memtable_view()).len()
                < crate::sstable::SSTABLE_HARD_LIMIT ==> r is Ok && r.unwrap() is Some,
            r is Err ==> r == Err::<Option<LevelChange>, MyError>(MyError::Stopped) || r
                == Err::<Option<LevelChange>, MyError>(MyError::IdsExhausted) || r == Err::<
                Option<LevelChange>,
                MyError,
            >(MyError::TableTooLarge),
            r is Err ==> final(self).version_view() == old(self).version_view()
                && final(self).memtable_view() == old(self).memtable_view(),
            r is Ok && r.unwrap() is Some ==> {
                let c = r.unwrap().unwrap();
                &&& c matches LevelChange::MemtableCompact { sstable_file_metas }
                    && final(self).table(sstable_file_metas@.0) == Some(old(self).memtable_view())
                    && sstable_file_metas@.0 == old(self).next_file_id()
                &&& final(self).version_view() == crate::version::apply_model(old(self).version_view(), &c)
                &&& final(self).memtable_view().len() == 0
            },
            forall|k: Seq<u8>| #[trigger] final(self).read(k) == old(self).read(k),
            final(self).is_stopped() == old(self).is_stopped(),
            final(self).config_spec() == old(self).config_spec(),
            r == Ok::<Option<LevelChange>, MyError>(None) ==> final(self).version_view() == old(
                self,
            ).version_view(),
    {
        proof {
            use_type_invariant(&*self);
        }
        if self.stopped {
            return Err(MyError::Stopped);
        }
        if self.memtable.len() == 0 {
            return Ok(None);
        }
        let mut version = Version::new(self.config.duplicate());
        std::mem::swap(&mut version, &mut self.version);
        let mut store = TableStore::new();
        std::mem::swap(&mut store, &mut self.store);
        let mut files = FileStorageManager::new(0);
        std::mem::swap(&mut files, &mut self.files);
        let mut mt = Memtable::new();
        std::mem::swap(&mut mt, &mut self.memtable);
        let ghost old_store = store;
        let ghost first_id = files@;
        match version.add_memtable_to_level_0(&mt, &mut files) {
            Err(e) => {
                std::mem::swap(&mut files, &mut self.files);
                std::mem::swap(&mut store, &mut self.store);
                std::mem::swap(&mut version, &mut self.version);
                std::mem::swap(&mut mt, &mut self.memtable);
                Err(e)
            },
            Ok(None) => {
                std::mem::swap(&mut files, &mut self.files);
                std::mem::swap(&mut store, &mut self.store);
                std::mem::swap(&mut version, &mut self.version);
                std::mem::swap(&mut mt, &mut self.memtable);
                Ok(None)
            },
            Ok(Some((c, id, t))) => {
                proof {
                    t.lemma_wf_entries();
                }
                let ghost tv = t@;
                store.insert(id, t);
                let ghost m = match &c {
                    LevelChange::MemtableCompact { sstable_file_metas } => sstable_file_metas@,
                    _ => arbitrary(),
                };
                proof {
                    crate::version::lemma_apply_ids_below(version@, &c, files@);
                    assert forall|other: FileId| other < m.0 implies #[trigger] store.table_of(other)
                        == old_store.table_of(other) by {}
                    crate::version::lemma_flush_consistent(&old_store, &store, version@, m, tv);
                    reveal(crate::version::apply_model);
                }
                let nv = version.apply_change(&c);
                std::mem::swap(&mut files, &mut self.files);
                std::mem::swap(&mut store, &mut self.store);
                let mut nv = nv;
                std::mem::swap(&mut nv, &mut self.version);
                proof {
                    reveal(crate::version::apply_model);
                    let v = version@;
                    crate::version::lemma_all_tables_same(&old(self).store, &self.store, v, m.0 as nat);
                    crate::version::lemma_flush_tables(&self.store, v, m, mt@);
                    assert forall|k: Seq<u8>| #[trigger] self.read(k) == old(self).read(k) by {
                        crate::version::lemma_lookup_first_cons(mt@, crate::version::all_tables(&self.store, v), k);
                    }
                }
                Ok(Some(c))
            },
        }
    }

    /// One step of the compaction cascade: compacts the first level over its
    /// limit, installs the new version and returns its change; `None` when no
    /// level is over its limit.
    pub fn compact_step(&mut self) -> (r: Result<Option<LevelChange>, MyError>)
        ensures
            old(self).is_stopped() ==> r == Err::<Option<LevelChange>, MyError>(MyError::Stopped),
            r is Ok && r.unwrap() is None ==> final(self).version_view() == old(self).version_view(),
            r is Ok && r.unwrap() is None ==> forall|i: int|
                0 <= i < old(self).version_view().len() ==> (#[trigger] old(self).version_view()[i]).len()
                    <= crate::version::level_limit(
                    i as nat,
                    old(self).config_spec().level_0_file_limit as nat,
                    old(self).config_spec().level_size_expand_factor as nat,
                    old(self).config_spec().sstable_file_limit as nat,
                ),
            !old(self).is_stopped() && old(self).config_spec().sstable_file_limit > 0 && (forall|i: int|
                0 <= i < old(self).version_view().len() ==> (#[trigger] old(self).version_view()[i]).len()
                    <= crate::version::level_limit(
                    i as nat,
                    old(self).config_spec().level_0_file_limit as nat,
                    old(self).config_spec().level_size_expand_factor as nat,
                    old(self).config_spec().sstable_file_limit as nat,
                )) ==> r == Ok::<Option<LevelChange>, MyError>(None),
            r is Err ==> old(self).is_stopped() || final(self).is_stopped() || old(self).config_spec().sstable_file_limit
                == 0 || final(self).next_file_id() == u64::MAX || old(self).version_view().len()
                > usize::MAX - 3,
            r is Err && !final(self).is_stopped() ==> forall|k: Seq<u8>| #[trigger] final(self).read(k)
                == old(self).read(k),
            r is Ok && r.unwrap() is Some ==> final(self).version_view() == crate::version::apply_model(
                old(self).version_view(),
                &r.unwrap().unwrap(),
            ),
            final(self).memtable_view() == old(self).memtable_view(),
            final(self).config_spec() == old(self).config_spec(),
    {
        proof {
            use_type_invariant(&*self);
        }
        if self.stopped {
            return Err(MyError::Stopped);
        }
        let mut version = Version::new(self.config.duplicate());
        std::mem::swap(&mut version, &mut self.version);
        let mut store = TableStore::new();
        std::mem::swap(&mut store, &mut self.store);
        let mut files = FileStorageManager::new(0);
        std::mem::swap(&mut files, &mut self.files);
        proof {
            assert(version.config_spec() == old(self).config_spec());
            assert(version@ == old(self).version_view());
        }
        match version.compact_one_level(&store, &mut files) {
            Err(e) => {
                std::mem::swap(&mut files, &mut self.files);
                std::mem::swap(&mut store, &mut self.store);
                std::mem::swap(&mut version, &mut self.version);
                Err(e)
            },
            Ok(None) => {
                std::mem::swap(&mut files, &mut self.files);
                std::mem::swap(&mut store, &mut self.store);
                std::mem::swap(&mut version, &mut self.version);
                Ok(None)
            },
            Ok(Some((c, tables))) => {
                proof {
                    crate::version::lemma_apply_ids_below(version@, &c, files@);
                }
                let mut tables = tables;
                while tables.len() > 0
                    invariant
                        store.wf(),
                        forall|k: int| 0 <= k < tables@.len() ==> (#[trigger] tables@[k]).1.wf(),
                    decreases tables@.len(),
                {
                    let (id, t) = tables.pop().unwrap();
                    store.insert(id, t);
                }
                let nv = version.apply_change(&c);
                let ok = nv.check_consistent(&store);
                std::mem::swap(&mut store, &mut self.store);
                std::mem::swap(&mut files, &mut self.files);
                if ok {
                    let mut nv = nv;
                    std::mem::swap(&mut nv, &mut self.version);
                    Ok(Some(c))
                } else {
                    self.stopped = true;
                    Err(MyError::Stopped)
                }
            },
        }
    }
}

impl DbCore {
    /// The work that follows writes, in one thread: flushes the memory table
    /// when it is past its limit, then runs up to `max_steps` steps of the
    /// compaction cascade. Returns the changes installed, in order.
    pub fn maintain(&mut self, max_steps: usize) -> (r: Result<Vec<LevelChange>, MyError>)
        ensures
            old(self).is_stopped() ==> r is Err,
            r is Ok ==> final(self).version_view() == crate::version::apply_all(
                old(self).version_view(),
                r.unwrap()@,
            ),
            r is Ok && r.unwrap()@.len() < max_steps ==> forall|i: int|
                0 <= i < final(self).version_view().len() ==> (#[trigger] final(self).version_view()[i]).len()
                    <= crate::version::level_limit(
                    i as nat,
                    final(self).config_spec().level_0_file_limit as nat,
                    final(self).config_spec().level_size_expand_factor as nat,
                    final(self).config_spec().sstable_file_limit as nat,
                ),
    {
        let ghost v0 = self.version_view();
        let mut changes: Vec<LevelChange> = Vec::new();
        proof {
            assert(crate::version::apply_all(v0, changes@) == v0);
        }
        if self.memtable_full() {
            match self.flush() {
                Err(e) => {
                    return Err(e);
                },
                Ok(Some(c)) => {
                    changes.push(c);
                    proof {
                        assert(changes@.drop_last() =~= Seq::<LevelChange>::empty());
                        assert(crate::version::apply_all(v0, changes@.drop_last()) == v0);
                    }
                },
                Ok(None) => {},
            }
        } else if self.stopped {
            return Err(MyError::Stopped);
        }
        let ghost c0 = changes@.len();
        let mut i: usize = 0;
        while i < max_steps
            invariant
                !old(self).is_stopped(),
                c0 <= 1,
                changes@.len() == c0 + i,
                v0 == old(self).version_view(),
                self.version_view() == crate::version::apply_all(v0, changes@),
                self.config_spec() == old(self).config_spec(),
            decreases max_steps - i,
        {
            let ghost before = changes@;
            match self.compact_step() {
                Err(e) => {
                    return Err(e);
                },
                Ok(Some(c)) => {
                    changes.push(c);
                    proof {
                        assert(changes@.drop_last() == before);
                    }
                },
                Ok(None) => {
                    return Ok(changes);
                },
            }
            i = i + 1;
        }
        Ok(changes)
    }
}

/// The entry that the last record of `s` for `key` wrote, if any.
pub open spec fn last_write(s: Seq<crate::common::EntryModel>, key: Seq<u8>) -> Option<Option<Seq<u8>>>
    decreases s.len(),
{
    if s.len() == 0 {
        None
    } else if s.last().0 == key {
        Some(s.last().1)
    } else {
        last_write(s.drop_last(), key)
    }
}

impl DbCore {
    /// What the tables of the current version give for `key`.
    pub closed spec fn tables_read(&self, key: Seq<u8>) -> Option<Seq<u8>> {
        version_get(&self.store, self.version@, key)
    }

    /// Entries of the memory table in key order, as the log would replay them.
    pub fn memtable_entries(&self) -> (r: Vec<KVIterItem>)
        ensures
            items_view(r@) == self.memtable_view(),
    {
        self.memtable.entries()
    }

    /// Rebuilds a store after a restart: replays the manifest's changes,
    /// loads the table files (by id), checks that they agree with the
    /// version, and replays the log's records into a fresh memory table.
    /// New file ids come after every id in `existing_ids` and in `tables`.
    pub fn recover(
        config: Config,
        changes: &Vec<LevelChange>,
        tables: &Vec<(FileId, Vec<u8>)>,
        existing_ids: &Vec<FileId>,
        wal: &Vec<KVIterItem>,
    ) -> (r: Result<DbCore, MyError>)
        ensures
            r is Ok ==> r.unwrap().version_view() == crate::version::replay(changes@),
            r is Ok ==> !r.unwrap().is_stopped() && r.unwrap().config_spec() == config,
            r is Ok ==> forall|k: Seq<u8>|
                #[trigger] lookup(r.unwrap().memtable_view(), k) == last_write(items_view(wal@), k),
            r is Ok ==> forall|k: Seq<u8>|
                #[trigger] r.unwrap().read(k) == match last_write(items_view(wal@), k) {
                    Some(Some(x)) => Some(x),
                    Some(None) => None,
                    None => r.unwrap().tables_read(k),
                },
            !crate::version::replayable(changes@) ==> r == Err::<DbCore, MyError>(MyError::Corruption),
            r is Err ==> r == Err::<DbCore, MyError>(MyError::Corruption) || r == Err::<
                DbCore,
                MyError,
            >(MyError::IdsExhausted),
    {
        let cfg = config.duplicate();
        let version = match Version::from(changes, config) {
            Ok(v) => v,
            Err(_) => {
                return Err(MyError::Corruption);
            },
        };
        let mut store = TableStore::new();
        let mut ids: Vec<FileId> = Vec::new();
        let mut i: usize = 0;
        while i < tables.len()
            invariant
                store.wf(),
                crate::version::replayable(changes@),
            decreases tables@.len() - i,
        {
            let t = match crate::sstable::SSTable::from_file(tables[i].1.as_slice()) {
                Ok(t) => t,
                Err(_) => {
                    return Err(MyError::Corruption);
                },
            };
            store.insert(tables[i].0, t);
            ids.push(tables[i].0);
            i = i + 1;
        }
        let mut k: usize = 0;
        while k < existing_ids.len()
            invariant
                crate::version::replayable(changes@),
            decreases existing_ids@.len() - k,
        {
            ids.push(existing_ids[k]);
            k = k + 1;
        }
        let mut m: usize = 0;
        while m < ids.len()
            invariant
                crate::version::replayable(changes@),
                forall|a: int| 0 <= a < m ==> ids@[a] < u64::MAX,
            decreases ids@.len() - m,
        {
            if ids[m] == u64::MAX {
                return Err(MyError::IdsExhausted);
            }
            m = m + 1;
        }
        let files = FileStorageManager::from(&ids);
        if !version.check_consistent(&store) {
            return Err(MyError::Corruption);
        }
        let live = version.all_file_ids();
        let next = files.next_id();
        let mut q: usize = 0;
        while q < live.len()
            invariant
                q <= live@.len(),
                next == files@,
                forall|a: int| 0 <= a < q ==> live@[a] < next,
            decreases live@.len() - q,
        {
            if live[q] >= next {
                return Err(MyError::Corruption);
            }
            q = q + 1;
        }
        proof {
            let v = version@;
            assert forall|i: int, j: int| 0 <= i < v.len() && 0 <= j < v[i].len() implies (
            #[trigger] v[i][j]).0 < files@ by {
                assert(live@.contains(v[i][j].0));
                let a = choose|a: int| 0 <= a < live@.len() && live@[a] == v[i][j].0;
            }
        }
        let ghost log = items_view(wal@);
        let mut memtable = Memtable::new();
        let mut w: usize = 0;
        proof {
            assert(log.subrange(0, 0) =~= Seq::<crate::common::EntryModel>::empty());
        }
        while w < wal.len()
            invariant
                log == items_view(wal@),
                w <= wal@.len(),
                forall|key: Seq<u8>| #[trigger] lookup(memtable@, key) == last_write(log.subrange(0, w as int), key),
            decreases wal@.len() - w,
        {
            let e = &wal[w];
            let kl = e.0.len();
            proof {
                assert(log.subrange(0, w + 1).drop_last() =~= log.subrange(0, w as int));
                assert(log.subrange(0, w + 1).last() == crate::common::item_view(*e));
            }
            match &e.1 {
                Some(v) => {
                    if v.len() == 0 || v.len() >= 65536 {
                        return Err(MyError::Corruption);
                    }
                    memtable.insert(&e.0, v);
                },
                None => {
                    let _ = memtable.delete(&e.0);
                },
            }
            w = w + 1;
        }
        proof {
            assert(log.subrange(0, w as int) =~= log);
        }
        Ok(DbCore { memtable, version, store, files, config: cfg, stopped: false })
    }
}

} // verus!
