use vstd::prelude::*;
use crate::level::FileId;
use crate::lru::{Lru, index_of};
use crate::sstable::SStableBlockMeta;

verus! {

/// A bounded cache of table indexes by file id; when full, the entry set
/// longest ago goes.
pub struct SSTableMetaCache {
    lru: Lru<FileId, SStableBlockMeta>,
}

impl SSTableMetaCache {
    /// Entries, the one set longest ago first.
    pub closed spec fn entries(&self) -> Seq<(FileId, SStableBlockMeta)> {
        self.lru@
    }

    pub closed spec fn capacity(&self) -> nat {
        self.lru.capacity_spec()
    }

    pub fn new(capacity: usize) -> (r: SSTableMetaCache)
        requires
            capacity > 0,
        ensures
            r.entries() == Seq::<(FileId, SStableBlockMeta)>::empty(),
            r.capacity() == capacity,
    {
        SSTableMetaCache { lru: Lru::new(capacity) }
    }

    /// Caches the index of file `file_id`.
    pub fn add(&mut self, sstable_meta: SStableBlockMeta, file_id: FileId)
        ensures
            final(self).capacity() == old(self).capacity(),
            index_of(final(self).entries(), file_id) >= 0,
            final(self).entries().last() == (file_id, sstable_meta),
    {
        proof {
            broadcast use vstd::laws_eq::group_laws_eq;
        }
        self.lru.set(file_id, sstable_meta);
        proof {
            let s = self.entries();
            assert(s.last().0 == file_id);
            crate::lru::lemma_index_last(s, file_id);
        }
    }

    /// The cached index of file `file_id`.
    pub fn get(&self, file_id: FileId) -> (r: Option<&SStableBlockMeta>)
        ensures
            index_of(self.entries(), file_id) < 0 ==> r is None,
            index_of(self.entries(), file_id) >= 0 ==> r is Some && *r.unwrap() == self.entries()[index_of(
                self.entries(),
                file_id,
            )].1,
    {
        proof {
            broadcast use vstd::laws_eq::group_laws_eq;
        }
        self.lru.get(file_id)
    }
}

} // verus!
