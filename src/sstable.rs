use vstd::prelude::*;
use crate::block::{
    Block, BlockBuilder, BlockMeta, BlockMetaModel, BLOCK_SIZE, encodable, encode_entries,
    encode_entry, encode_metas, lemma_block_round_trip, lemma_encode_entries_push, lemma_find_in,
};
use crate::common::{
    EntryModel, KVIterItem, MyError, ValueWithTag, found_view, item_view, items_view, lookup,
    lemma_lookup_append, lemma_lookup_none, strictly_sorted,
};
use crate::codec::{le_bytes, read_le, write_le};
use crate::key::{Key, key_le, key_lt, lemma_key_order, lemma_key_le_lt_trans, KEY_SIZE_LIMIT};

verus! {

/// Target size of a table file, in bytes.
pub const SSTABLE_SIZE_LIMIT: usize = 2097152;

/// Size at which a table is closed whatever its limit, so that offsets fit in 32 bits.
pub const SSTABLE_HARD_LIMIT: usize = 1073741824;

/// The block index of one table.
#[derive(Debug)]
pub struct SStableBlockMeta {
    block_metas: Vec<BlockMeta>,
}

impl View for SStableBlockMeta {
    type V = Seq<BlockMetaModel>;

    closed spec fn view(&self) -> Seq<BlockMetaModel> {
        self.block_metas@.map_values(|m: BlockMeta| m@)
    }
}

impl SStableBlockMeta {
    pub fn new(block_metas: Vec<BlockMeta>) -> (r: SStableBlockMeta)
        ensures
            r@ == block_metas@.map_values(|m: BlockMeta| m@),
    {
        SStableBlockMeta { block_metas }
    }

    pub fn len(&self) -> (r: usize)
        ensures
            r == self@.len(),
    {
        self.block_metas.len()
    }

    /// Last key of the last block.
    pub fn last_key(&self) -> (r: Key)
        requires
            self@.len() > 0,
        ensures
            r@ == self@.last().1,
    {
        self.block_metas[self.block_metas.len() - 1].last_key().duplicate()
    }

    /// First key of the first block.
    pub fn first_key(&self) -> (r: Key)
        requires
            self@.len() > 0,
        ensures
            r@ == self@[0].0,
    {
        self.block_metas[0].start_key().duplicate()
    }
}

/// Block `j` of a table: its metadata agrees with the entries it holds, and
/// its bytes in `data` are those entries encoded.
pub open spec fn block_ok(
    data: Seq<u8>,
    entries: Seq<EntryModel>,
    starts: Seq<int>,
    m: BlockMetaModel,
    j: int,
) -> bool {
    &&& 0 <= starts[j] < starts[j + 1] <= entries.len()
    &&& m.4 == starts[j + 1] - starts[j]
    &&& m.0 == entries[starts[j]].0
    &&& m.1 == entries[starts[j + 1] - 1].0
    &&& m.2 + m.3 <= data.len()
    &&& data.subrange(m.2 as int, (m.2 + m.3) as int) == encode_entries(
        entries.subrange(starts[j], starts[j + 1]),
    )
}

/// A sorted table held in memory: the bytes of its file and its block index.
pub struct SSTable {
    sstable_metas: SStableBlockMeta,
    data: Vec<u8>,
    entries: Ghost<Seq<EntryModel>>,
    starts: Ghost<Seq<int>>,
    block_bytes: Ghost<nat>,
}

impl View for SSTable {
    type V = Seq<EntryModel>;

    closed spec fn view(&self) -> Seq<EntryModel> {
        self.entries@
    }
}

impl SSTable {
    /// The table's blocks cover its entries in order, and its entries are
    /// sorted, encodable and not empty.
    pub closed spec fn wf(&self) -> bool {
        let metas = self.sstable_metas@;
        let starts = self.starts@;
        let entries = self.entries@;
        &&& metas.len() > 0
        &&& starts.len() == metas.len() + 1
        &&& starts[0] == 0
        &&& starts[metas.len() as int] == entries.len()
        &&& forall|j: int|
            0 <= j < metas.len() ==> block_ok(self.data@, entries, starts, #[trigger] metas[j], j)
        &&& strictly_sorted(entries)
        &&& forall|i: int| 0 <= i < entries.len() ==> encodable(#[trigger] entries[i])
    }

    /// The table's block index.
    pub closed spec fn index(&self) -> Seq<BlockMetaModel> {
        self.sstable_metas@
    }

    /// Bytes that the blocks take at the start of the file.
    pub closed spec fn blocks_len(&self) -> nat {
        self.block_bytes@
    }

    /// Bytes of the table file.
    pub closed spec fn bytes(&self) -> Seq<u8> {
        self.data@
    }

    pub fn data(&self) -> (r: &[u8])
        ensures
            r@ == self.bytes(),
    {
        self.data.as_slice()
    }

    pub fn block_metadata(&self) -> (r: &SStableBlockMeta)
        ensures
            r@ == self.index(),
            self.wf() ==> r@.len() > 0,
    {
        &self.sstable_metas
    }

    pub fn start_key(&self) -> (r: Key)
        requires
            self.wf(),
        ensures
            self@.len() > 0,
            r@ == self@[0].0,
    {
        proof {
            assert(block_ok(self.data@, self.entries@, self.starts@, self.sstable_metas@[0], 0));
        }
        self.sstable_metas.first_key()
    }

    pub fn last_key(&self) -> (r: Key)
        requires
            self.wf(),
        ensures
            self@.len() > 0,
            r@ == self@.last().0,
    {
        proof {
            let n = self.sstable_metas@.len() - 1;
            assert(block_ok(self.data@, self.entries@, self.starts@, self.sstable_metas@[n], n));
        }
        self.sstable_metas.last_key()
    }

    /// Number of entries in the table.
    pub fn entry_number(&self) -> (r: usize)
        requires
            self.wf(),
            self@.len() <= usize::MAX,
        ensures
            r == self@.len(),
    {
        let mut res: usize = 0;
        let mut j: usize = 0;
        let n = self.sstable_metas.block_metas.len();
        while j < n
            invariant
                self.wf(),
                self@.len() <= usize::MAX,
                n == self.sstable_metas@.len(),
                j <= n,
                res == self.starts@[j as int],
            decreases n - j,
        {
            proof {
                assert(block_ok(
                    self.data@,
                    self.entries@,
                    self.starts@,
                    self.sstable_metas@[j as int],
                    j as int,
                ));
                assert(self.sstable_metas@[j as int] == self.sstable_metas.block_metas@[j as int]@);
                lemma_starts_le(self, j as int + 1);
            }
            res = res + self.sstable_metas.block_metas[j].entry_number();
            j = j + 1;
        }
        res
    }

    /// Bytes of block `j`.
    fn read_block(&self, j: usize) -> (r: Block)
        requires
            self.wf(),
            j < self.sstable_metas@.len(),
        ensures
            r@ == encode_entries(
                self@.subrange(self.starts@[j as int], self.starts@[j as int + 1]),
            ),
    {
        let m = &self.sstable_metas.block_metas[j];
        proof {
            assert(self.sstable_metas@[j as int] == m@);
            assert(block_ok(self.data@, self.entries@, self.starts@, m@, j as int));
        }
        let dl = self.data.len();
        let off = m.block_offset() as usize;
        let size = m.size();
        let bytes = crate::key::copy_bytes(
            vstd::slice::slice_subrange(self.data.as_slice(), off, off + size),
        );
        assert(bytes@.subrange(0, size as int) =~= bytes@);
        Block::new(bytes, size)
    }

    /// Entries of block `j`, decoded.
    fn block_entries(&self, j: usize) -> (r: Vec<KVIterItem>)
        requires
            self.wf(),
            j < self.sstable_metas@.len(),
        ensures
            items_view(r@) == self@.subrange(self.starts@[j as int], self.starts@[j as int + 1]),
    {
        let block = self.read_block(j);
        let ghost s = self@.subrange(self.starts@[j as int], self.starts@[j as int + 1]);
        proof {
            assert(block_ok(
                self.data@,
                self.entries@,
                self.starts@,
                self.sstable_metas@[j as int],
                j as int,
            ));
            assert forall|i: int| 0 <= i < s.len() implies encodable(#[trigger] s[i]) by {
                assert(s[i] == self.entries@[self.starts@[j as int] + i]);
            }
            lemma_block_round_trip(s);
        }
        match block.into_iter() {
            Ok(v) => v,
            Err(_) => {
                proof {
                    assert(false);
                }
                Vec::new()
            },
        }
    }

    /// Point lookup: the entry for `key`, a tombstone included, or `None`.
    pub fn get(&self, key: &Key) -> (r: Result<Option<ValueWithTag>, MyError>)
        requires
            self.wf(),
        ensures
            r is Ok,
            found_view(r.unwrap()) == lookup(self@, key@),
    {
        let n = self.sstable_metas.block_metas.len();
        let ghost entries = self.entries@;
        let ghost starts = self.starts@;
        let ghost metas = self.sstable_metas@;
        proof {
            assert(block_ok(self.data@, entries, starts, metas[n - 1], n - 1));
        }
        if self.sstable_metas.block_metas[n - 1].last_key().lt(key) {
            proof {
                assert forall|i: int| 0 <= i < entries.len() implies #[trigger] entries[i].0
                    != key@ by {
                    let last = entries.len() - 1;
                    if i < last {
                        lemma_key_lt_trans_local(entries[i].0, entries[last].0, key@);
                    }
                    lemma_key_order(entries[i].0, key@);
                }
                lemma_lookup_none(entries, key@);
            }
            return Ok(None);
        }
        let mut lo: usize = 0;
        let mut hi: usize = n - 1;
        while lo < hi
            invariant
                self.wf(),
                n == metas.len(),
                metas == self.sstable_metas@,
                lo <= hi < n,
                !key_lt(metas[hi as int].1, key@),
                lo == 0 || key_lt(metas[lo - 1].1, key@),
            decreases hi - lo,
        {
            let mid = lo + (hi - lo) / 2;
            proof {
                assert(metas[mid as int] == self.sstable_metas.block_metas@[mid as int]@);
            }
            if self.sstable_metas.block_metas[mid].last_key().lt(key) {
                lo = mid + 1;
            } else {
                hi = mid;
            }
        }
        let p = lo;
        let m = &self.sstable_metas.block_metas[p];
        proof {
            assert(metas[p as int] == m@);
        }
        let block = self.read_block(p);
        let res = block.find(key, m.entry_number());
        proof {
            let s = entries.subrange(starts[p as int], starts[p as int + 1]);
            assert(block_ok(self.data@, entries, starts, metas[p as int], p as int));
            assert forall|i: int| 0 <= i < s.len() implies encodable(#[trigger] s[i]) by {
                assert(s[i] == entries[starts[p as int] + i]);
            }
            lemma_block_round_trip(s);
            lemma_find_in(encode_entries(s), 0, key@);
            lemma_lookup_in_block(self, p as int, key@);
        }
        match res {
            Ok(x) => Ok(x),
            Err(_) => {
                proof {
                    assert(false);
                }
                Ok(None)
            },
        }
    }

    /// All entries of the table, in order.
    pub fn iter(&self) -> (r: Result<Vec<KVIterItem>, MyError>)
        requires
            self.wf(),
        ensures
            r is Ok,
            items_view(r.unwrap()@) == self@,
    {
        let n = self.sstable_metas.block_metas.len();
        let mut out: Vec<KVIterItem> = Vec::new();
        let mut j: usize = 0;
        while j < n
            invariant
                self.wf(),
                n == self.sstable_metas@.len(),
                j <= n,
                items_view(out@) == self@.subrange(0, self.starts@[j as int]),
            decreases n - j,
        {
            let mut b = self.block_entries(j);
            let ghost prev = out@;
            let ghost bv = b@;
            out.append(&mut b);
            proof {
                lemma_starts_le(self, j as int + 1);
                assert(block_ok(
                    self.data@,
                    self.entries@,
                    self.starts@,
                    self.sstable_metas@[j as int],
                    j as int,
                ));
                assert(out@ == prev + bv);
                assert(items_view(out@) =~= items_view(prev) + items_view(bv));
                assert(self@.subrange(0, self.starts@[j as int + 1]) =~= self@.subrange(
                    0,
                    self.starts@[j as int],
                ) + self@.subrange(self.starts@[j as int], self.starts@[j as int + 1]));
            }
            j = j + 1;
        }
        proof {
            assert(self@.subrange(0, self.starts@[n as int]) =~= self@);
        }
        Ok(out)
    }
}

proof fn lemma_key_lt_trans_local(a: Seq<u8>, b: Seq<u8>, c: Seq<u8>)
    requires
        key_lt(a, b),
        key_lt(b, c),
    ensures
        key_lt(a, c),
{
    crate::key::lemma_key_lt_trans(a, b, c);
}

/// Block starts never exceed the number of entries.
proof fn lemma_starts_le(t: &SSTable, j: int)
    requires
        t.wf(),
        0 <= j <= t.sstable_metas@.len(),
    ensures
        0 <= t.starts@[j] <= t.entries@.len(),
{
    if j < t.sstable_metas@.len() {
        assert(block_ok(t.data@, t.entries@, t.starts@, t.sstable_metas@[j], j));
    }
}

/// Block starts increase.
proof fn lemma_starts_mono(t: &SSTable, i: int, j: int)
    requires
        t.wf(),
        0 <= i <= j <= t.sstable_metas@.len(),
    ensures
        t.starts@[i] <= t.starts@[j],
    decreases j - i,
{
    if i < j {
        assert(block_ok(t.data@, t.entries@, t.starts@, t.sstable_metas@[i], i));
        lemma_starts_mono(t, i + 1, j);
    }
}

/// Where the last key of block `p - 1` sorts before `key`, and `key` does not
/// sort after the last key of block `p`, only block `p` can hold `key`.
proof fn lemma_lookup_in_block(t: &SSTable, p: int, key: Seq<u8>)
    requires
        t.wf(),
        0 <= p < t.sstable_metas@.len(),
        !key_lt(t.sstable_metas@[p].1, key),
        p == 0 || key_lt(t.sstable_metas@[p - 1].1, key),
    ensures
        lookup(t@, key) == lookup(t@.subrange(t.starts@[p], t.starts@[p + 1]), key),
{
    let e = t.entries@;
    let st = t.starts@;
    let metas = t.sstable_metas@;
    let n = metas.len();
    assert(block_ok(t.data@, e, st, metas[p], p));
    lemma_starts_mono(t, p + 1, n as int);
    let a = e.subrange(0, st[p]);
    let b = e.subrange(st[p], st[p + 1]);
    let c = e.subrange(st[p + 1], e.len() as int);
    assert(e =~= a + b + c);
    assert forall|i: int| 0 <= i < a.len() implies #[trigger] a[i].0 != key by {
        assert(block_ok(t.data@, e, st, metas[p - 1], p - 1));
        let l = st[p] - 1;
        if i < l {
            crate::key::lemma_key_lt_trans(e[i].0, e[l].0, key);
        }
        lemma_key_order(e[i].0, key);
    }
    lemma_lookup_none(a, key);
    assert forall|i: int| 0 <= i < c.len() implies #[trigger] c[i].0 != key by {
        let l = st[p + 1] - 1;
        lemma_key_order(metas[p].1, key);
        assert(key_le(key, e[l].0));
        assert(key_lt(e[l].0, e[st[p + 1] + i].0));
        lemma_key_le_lt_trans(key, e[l].0, e[st[p + 1] + i].0);
        lemma_key_order(key, e[st[p + 1] + i].0);
    }
    lemma_lookup_none(c, key);
    lemma_lookup_append(a + b, c, key);
    lemma_lookup_append(a, b, key);
}

/// The file ends with the block index: the metadata entries from `blocks_len`,
/// then their count and `blocks_len`, each as a u64.
pub open spec fn trailer_ok(bytes: Seq<u8>, blocks_len: nat, metas: Seq<BlockMetaModel>) -> bool {
    bytes == bytes.subrange(0, blocks_len as int) + encode_metas(metas) + le_bytes(
        metas.len(),
        8,
    ) + le_bytes(blocks_len, 8)
}

/// Block `j` stays described the same when entries, starts and bytes are extended.
proof fn lemma_block_ok_extend(
    data: Seq<u8>,
    e: Seq<EntryModel>,
    st: Seq<int>,
    data2: Seq<u8>,
    e2: Seq<EntryModel>,
    st2: Seq<int>,
    m: BlockMetaModel,
    j: int,
)
    requires
        0 <= j,
        j + 1 < st.len(),
        block_ok(data, e, st, m, j),
        data.len() <= data2.len(),
        data2.subrange(0, data.len() as int) == data,
        e.len() <= e2.len(),
        e2.subrange(0, e.len() as int) == e,
        st.len() <= st2.len(),
        st2.subrange(0, st.len() as int) == st,
    ensures
        block_ok(data2, e2, st2, m, j),
{
    assert(st2[j] == st[j]);
    assert(st2[j + 1] == st[j + 1]);
    assert(e2[st[j]] == e[st[j]]);
    assert(e2[st[j + 1] - 1] == e[st[j + 1] - 1]);
    assert(e2.subrange(st[j], st[j + 1]) =~= e.subrange(st[j], st[j + 1]));
    assert(data2.subrange(m.2 as int, (m.2 + m.3) as int) =~= data.subrange(
        m.2 as int,
        (m.2 + m.3) as int,
    ));
}

impl SSTable {
    /// Builds one table from `kv[start..]`: entries go into blocks of about
    /// `BLOCK_SIZE` bytes, and the table stops after the block at which its
    /// block bytes reach `limit_file_size` (when that is not 0) or
    /// `SSTABLE_HARD_LIMIT`. Returns the table (`None` when nothing is left),
    /// whether entries remain, and the index of the first entry not taken.
    pub fn from_iter_with_file_limit(
        kv: &Vec<KVIterItem>,
        start: usize,
        limit_file_size: usize,
    ) -> (r: (Option<SSTable>, bool, usize))
        requires
            start <= kv@.len(),
            strictly_sorted(items_view(kv@)),
            forall|i: int| 0 <= i < kv@.len() ==> encodable(#[trigger] item_view(kv@[i])),
        ensures
            start == kv@.len() ==> r.0 is None && !r.1 && r.2 == start,
            start < kv@.len() ==> {
                &&& r.0 is Some
                &&& r.0.unwrap().wf()
                &&& start < r.2 <= kv@.len()
                &&& r.0.unwrap()@ == items_view(kv@).subrange(start as int, r.2 as int)
                &&& r.0.unwrap().blocks_len() == encode_entries(r.0.unwrap()@).len()
                &&& r.1 == (r.2 < kv@.len())
                &&& r.1 ==> (limit_file_size > 0 && r.0.unwrap().blocks_len() >= limit_file_size)
                    || r.0.unwrap().blocks_len() >= SSTABLE_HARD_LIMIT
                &&& trailer_ok(
                    r.0.unwrap().bytes(),
                    r.0.unwrap().blocks_len(),
                    r.0.unwrap().index(),
                )
            },
    {
        let n = kv.len();
        if start >= n {
            return (None, false, start);
        }
        let ghost ev = items_view(kv@);
        let mut builder = BlockBuilder::new();
        let mut data: Vec<u8> = Vec::new();
        let mut metas: Vec<BlockMeta> = Vec::new();
        let mut i: usize = start;
        let mut block_first: usize = start;
        let mut stop = false;
        let ghost mut starts: Seq<int> = seq![0];
        proof {
            crate::codec::lemma_pow256_values();
            assert(ev.subrange(start as int, start as int) =~= Seq::<EntryModel>::empty());
        }
        while i < n && !stop
            invariant
                n == kv@.len(),
                ev == items_view(kv@),
                strictly_sorted(ev),
                forall|k: int| 0 <= k < kv@.len() ==> encodable(#[trigger] item_view(kv@[k])),
                start <= block_first <= i <= n,
                start < i || (block_first == start && metas@.len() == 0),
                stop ==> block_first == i && i < n,
                stop ==> (limit_file_size > 0 && data@.len() >= limit_file_size) || data@.len()
                    >= SSTABLE_HARD_LIMIT,
                i == n ==> block_first == i,
                builder@ == encode_entries(ev.subrange(block_first as int, i as int)),
                data@ == encode_entries(ev.subrange(start as int, block_first as int)),
                builder@.len() <= BLOCK_SIZE,
                !stop && i < n ==> data@.len() < SSTABLE_HARD_LIMIT,
                data@.len() < SSTABLE_HARD_LIMIT + 2 * BLOCK_SIZE + 2 * KEY_SIZE_LIMIT + 65540,
                starts.len() == metas@.len() + 1,
                starts[0] == 0,
                starts.last() == block_first - start,
                forall|j: int|
                    0 <= j < metas@.len() ==> block_ok(
                        data@,
                        ev.subrange(start as int, block_first as int),
                        starts,
                        #[trigger] metas@[j]@,
                        j,
                    ),
                forall|j: int|
                    0 <= j < metas@.len() ==> (#[trigger] metas@[j]@).2 + metas@[j]@.3
                        <= data@.len(),
                metas@.len() == 0 ==> data@.len() == 0,
                metas@.len() > 0 ==> metas@.last()@.2 + metas@.last()@.3 == data@.len(),
            decreases n - i, (if stop { 0int } else { 1int }),
        {
            let item = &kv[i];
            proof {
                assert(encodable(item_view(kv@[i as int])));
                lemma_encode_entries_push(
                    ev.subrange(block_first as int, i as int),
                    item_view(*item),
                );
                assert(ev.subrange(block_first as int, i as int).push(item_view(*item))
                    =~= ev.subrange(block_first as int, i + 1));
            }
            proof {
                crate::block::lemma_encode_entry_size(item_view(*item));
            }
            builder.append(&item.0, &item.1);
            i = i + 1;
            if builder.len() > BLOCK_SIZE || i == n {
                let ghost old_data = data@;
                let ghost old_entries = ev.subrange(start as int, block_first as int);
                let ghost old_starts = starts;
                let ghost old_metas = metas@;
                let first = kv[block_first].0.duplicate();
                let last = kv[i - 1].0.duplicate();
                let meta = BlockMeta::new(
                    first,
                    last,
                    i - block_first,
                    builder.len(),
                    data.len() as u64,
                );
                builder.flush(&mut data);
                metas.push(meta);
                proof {
                    starts = starts.push(i - start);
                    let e2 = ev.subrange(start as int, i as int);
                    assert(e2.subrange(0, old_entries.len() as int) =~= old_entries);
                    assert(data@.subrange(0, old_data.len() as int) =~= old_data);
                    assert(starts.subrange(0, old_starts.len() as int) =~= old_starts);
                    assert forall|j: int| 0 <= j < metas@.len() implies block_ok(
                        data@,
                        e2,
                        starts,
                        #[trigger] metas@[j]@,
                        j,
                    ) by {
                        if j < old_metas.len() {
                            assert(metas@[j] == old_metas[j]);
                            lemma_block_ok_extend(
                                old_data,
                                old_entries,
                                old_starts,
                                data@,
                                e2,
                                starts,
                                metas@[j]@,
                                j,
                            );
                        } else {
                            assert(e2.subrange(starts[j], starts[j + 1]) =~= ev.subrange(
                                block_first as int,
                                i as int,
                            ));
                            assert(data@.subrange(
                                old_data.len() as int,
                                data@.len() as int,
                            ) =~= encode_entries(ev.subrange(block_first as int, i as int)));
                        }
                    }
                    assert forall|j: int| 0 <= j < metas@.len() implies (
                    #[trigger] metas@[j]@).2 + metas@[j]@.3 <= data@.len() by {
                        if j < old_metas.len() {
                            assert(metas@[j] == old_metas[j]);
                        }
                    }
                }
                proof {
                    crate::block::lemma_encode_entries_concat(
                        ev.subrange(start as int, block_first as int),
                        ev.subrange(block_first as int, i as int),
                    );
                    assert(ev.subrange(start as int, block_first as int) + ev.subrange(
                        block_first as int,
                        i as int,
                    ) =~= ev.subrange(start as int, i as int));
                }
                block_first = i;
                proof {
                    assert(ev.subrange(block_first as int, i as int) =~= Seq::<EntryModel>::empty());
                }
                if i < n && ((limit_file_size > 0 && data.len() >= limit_file_size) || data.len()
                    >= SSTABLE_HARD_LIMIT) {
                    stop = true;
                }
            }
        }
        let has_next = i < n;
        let blocks_len = data.len();
        let ghost entries = ev.subrange(start as int, i as int);
        let ghost block_data = data@;
        let mut j: usize = 0;
        while j < metas.len()
            invariant
                0 <= j <= metas@.len(),
                blocks_len == block_data.len(),
                blocks_len < SSTABLE_HARD_LIMIT + 2 * BLOCK_SIZE + 2 * KEY_SIZE_LIMIT + 65540,
                forall|k: int|
                    0 <= k < metas@.len() ==> (#[trigger] metas@[k]@).2 + metas@[k]@.3
                        <= block_data.len(),
                forall|k: int|
                    0 <= k < metas@.len() ==> block_ok(
                        block_data,
                        entries,
                        starts,
                        #[trigger] metas@[k]@,
                        k,
                    ),
                data@ == block_data + crate::block::encode_metas(
                    metas@.subrange(0, j as int).map_values(|m: BlockMeta| m@),
                ),
            decreases metas@.len() - j,
        {
            let ghost before = data@;
            proof {
                let m = metas@[j as int]@;
                assert(block_ok(block_data, entries, starts, m, j as int));
                crate::block::lemma_encode_entries_min(
                    entries.subrange(starts[j as int], starts[j as int + 1]),
                );
            }
            metas[j].write_to_binary(&mut data);
            proof {
                let s = metas@.subrange(0, j + 1).map_values(|m: BlockMeta| m@);
                assert(s.drop_last() =~= metas@.subrange(0, j as int).map_values(
                    |m: BlockMeta| m@,
                ));
                assert(s.last() == metas@[j as int]@);
            }
            j = j + 1;
        }
        proof {
            assert(metas@.subrange(0, metas@.len() as int) =~= metas@);
        }
        let nm = metas.len();
        let ghost before_counts = data@;
        write_le(&mut data, nm as u64, 8);
        write_le(&mut data, blocks_len as u64, 8);
        let table = SSTable {
            sstable_metas: SStableBlockMeta::new(metas),
            data,
            entries: Ghost(entries),
            starts: Ghost(starts),
            block_bytes: Ghost(blocks_len as nat),
        };
        proof {
            assert(table.data@.subrange(0, blocks_len as int) =~= block_data);
            assert(entries.subrange(0, entries.len() as int) =~= entries);
            assert(starts.subrange(0, starts.len() as int) =~= starts);
            assert(table.data@ =~= block_data + crate::block::encode_metas(
                table.sstable_metas@,
            ) + le_bytes(nm as nat, 8) + le_bytes(blocks_len as nat, 8));
            assert forall|k: int| 0 <= k < table.sstable_metas@.len() implies block_ok(
                table.data@,
                table.entries@,
                table.starts@,
                #[trigger] table.sstable_metas@[k],
                k,
            ) by {
                assert(table.sstable_metas@[k] == metas@[k]@);
                lemma_block_ok_extend(
                    block_data,
                    entries,
                    starts,
                    table.data@,
                    entries,
                    starts,
                    metas@[k]@,
                    k,
                );
            }
            assert forall|a: int, b: int| 0 <= a < b < entries.len() implies key_lt(
                #[trigger] entries[a].0,
                #[trigger] entries[b].0,
            ) by {
                assert(entries[a] == ev[start + a]);
                assert(entries[b] == ev[start + b]);
            }
            assert forall|a: int| 0 <= a < entries.len() implies encodable(
                #[trigger] entries[a],
            ) by {
                assert(entries[a] == ev[start + a]);
                assert(ev[start + a] == item_view(kv@[start + a]));
            }
        }
        (Some(table), has_next, i)
    }

    /// Builds one table from `kv[start..]` with the default size limit.
    pub fn from_iter(kv: &Vec<KVIterItem>, start: usize) -> (r: (Option<SSTable>, bool, usize))
        requires
            start <= kv@.len(),
            strictly_sorted(items_view(kv@)),
            forall|i: int| 0 <= i < kv@.len() ==> encodable(#[trigger] item_view(kv@[i])),
        ensures
            start == kv@.len() ==> r.0 is None && !r.1 && r.2 == start,
            start < kv@.len() ==> {
                &&& r.0 is Some
                &&& r.0.unwrap().wf()
                &&& start < r.2 <= kv@.len()
                &&& r.0.unwrap()@ == items_view(kv@).subrange(start as int, r.2 as int)
                &&& r.1 == (r.2 < kv@.len())
            },
    {
        Self::from_iter_with_file_limit(kv, start, SSTABLE_SIZE_LIMIT)
    }
}

impl SSTable {
    /// A well-formed table holds sorted, encodable entries, at least one.
    pub proof fn lemma_wf_entries(&self)
        requires
            self.wf(),
        ensures
            self@.len() > 0,
            strictly_sorted(self@),
            forall|i: int| 0 <= i < self@.len() ==> encodable(#[trigger] self@[i]),
    {
        assert(block_ok(self.data@, self.entries@, self.starts@, self.sstable_metas@[0], 0));
    }
}

proof fn lemma_loaded_block(
    data: Seq<u8>,
    prev: Seq<EntryModel>,
    st: Seq<int>,
    iv: Seq<EntryModel>,
    ms: Seq<BlockMetaModel>,
    j: int,
)
    requires
        0 <= j < ms.len(),
        st.len() == j + 1,
        st[0] == 0,
        st.last() == prev.len(),
        forall|k: int| 0 <= k < j ==> block_ok(data, prev, st, #[trigger] ms[k], k),
        iv.len() > 0,
        ms[j].4 == iv.len(),
        ms[j].0 == iv[0].0,
        ms[j].1 == iv.last().0,
        ms[j].2 + ms[j].3 <= data.len(),
        data.subrange(ms[j].2 as int, (ms[j].2 + ms[j].3) as int) == encode_entries(iv),
    ensures
        forall|k: int|
            0 <= k < j + 1 ==> block_ok(data, prev + iv, st.push((prev.len() + iv.len()) as int), #[trigger] ms[k], k),
{
    let e2 = prev + iv;
    let st2 = st.push((prev.len() + iv.len()) as int);
    assert(e2.subrange(0, prev.len() as int) =~= prev);
    assert(st2.subrange(0, st.len() as int) =~= st);
    assert(data.subrange(0, data.len() as int) =~= data);
    assert forall|k: int| 0 <= k < j + 1 implies block_ok(data, e2, st2, #[trigger] ms[k], k) by {
        if k < j {
            lemma_block_ok_extend(data, prev, st, data, e2, st2, ms[k], k);
        } else {
            assert(e2.subrange(st2[k], st2[k + 1]) =~= iv);
            assert(e2[st2[k]] == iv[0]);
            assert(e2[st2[k + 1] - 1] == iv[iv.len() - 1]);
        }
    }
}

/// Checks that the entries are in strictly increasing key order and that
/// the block format holds each of them unchanged.
pub fn check_entries(kv: &Vec<KVIterItem>) -> (r: bool)
    ensures
        r ==> strictly_sorted(items_view(kv@)),
        r ==> forall|i: int| 0 <= i < kv@.len() ==> encodable(#[trigger] item_view(kv@[i])),
{
    let ghost v = items_view(kv@);
    let mut i: usize = 0;
    while i < kv.len()
        invariant
            v == items_view(kv@),
            i <= kv@.len(),
            strictly_sorted(v.subrange(0, i as int)),
            forall|k: int| 0 <= k < i ==> encodable(#[trigger] item_view(kv@[k])),
        decreases kv@.len() - i,
    {
        let kl = kv[i].0.len();
        match &kv[i].1 {
            Some(x) => {
                if x.len() == 0 || x.len() >= 65536 {
                    return false;
                }
            },
            None => {},
        }
        if i > 0 {
            if !kv[i - 1].0.lt(&kv[i].0) {
                return false;
            }
        }
        proof {
            let p = v.subrange(0, i as int);
            let grown = v.subrange(0, i + 1);
            assert forall|a: int, b: int| 0 <= a < b < grown.len() implies key_lt(
                #[trigger] grown[a].0,
                #[trigger] grown[b].0,
            ) by {
                if b < i {
                    assert(grown[a] == p[a] && grown[b] == p[b]);
                } else if a < i - 1 {
                    assert(grown[a] == p[a]);
                    assert(p[a].0 == v[a].0);
                    assert(key_lt(v[a].0, v[i - 1].0)) by {
                        assert(p[i - 1] == v[i - 1]);
                    }
                    crate::key::lemma_key_lt_trans(v[a].0, v[i - 1].0, v[i as int].0);
                }
            }
            assert(item_view(kv@[i as int]) == v[i as int]);
        }
        i = i + 1;
    }
    proof {
        assert(v.subrange(0, i as int) =~= v);
    }
    true
}

impl SSTable {
    /// Loads a table from the bytes of its file: reads the trailer and the
    /// block index, decodes every block, and checks that the entries are
    /// sorted and that each block agrees with its index entry. The table
    /// keeps the file's bytes as they are.
    pub fn from_file(data: &[u8]) -> (r: Result<SSTable, MyError>)
        ensures
            r is Ok ==> r.unwrap().wf() && r.unwrap().bytes() == data@,
            r is Err ==> r == Err::<SSTable, MyError>(MyError::Corruption),
    {
        let n = data.len();
        if n < 16 {
            return Err(MyError::Corruption);
        }
        let count = read_le(data, n - 16, 8);
        let mo = read_le(data, n - 8, 8);
        if mo > (n - 16) as u64 || count > n as u64 || count == 0 {
            return Err(MyError::Corruption);
        }
        let mo = mo as usize;
        let (metas, end) = match BlockMeta::build_block_metas(data, mo, count as usize) {
            Ok(x) => x,
            Err(_) => {
                return Err(MyError::Corruption);
            },
        };
        if end != n - 16 || metas.len() == 0 {
            return Err(MyError::Corruption);
        }
        let mut all: Vec<KVIterItem> = Vec::new();
        let ghost mut starts: Seq<int> = seq![0];
        let mut j: usize = 0;
        while j < metas.len()
            invariant
                n == data@.len(),
                mo <= n - 16,
                j <= metas@.len(),
                starts.len() == j + 1,
                starts[0] == 0,
                starts.last() == all@.len(),
                forall|k: int|
                    0 <= k < j ==> block_ok(data@, items_view(all@), starts, #[trigger] metas@[k]@, k),
            decreases metas@.len() - j,
        {
            let m = &metas[j];
            let off = m.block_offset();
            let size = m.size();
            if off > mo as u64 || size > mo - off as usize {
                return Err(MyError::Corruption);
            }
            let off = off as usize;
            let bytes = crate::key::copy_bytes(vstd::slice::slice_subrange(data, off, off + size));
            proof {
                assert(bytes@.subrange(0, size as int) =~= bytes@);
            }
            let block = Block::new(bytes, size);
            let ghost bv = block@;
            let mut items = match block.into_iter() {
                Ok(v) => v,
                Err(_) => {
                    return Err(MyError::Corruption);
                },
            };
            let c = items.len();
            if c == 0 || c != m.entry_number() || !items[0].0.equal(m.start_key())
                || !items[c - 1].0.equal(m.last_key()) {
                return Err(MyError::Corruption);
            }
            let ghost prev = all@;
            let ghost iv = items_view(items@);
            proof {
                crate::block::lemma_parse_all_canonical(bv, 0);
                assert(bv.subrange(0, bv.len() as int) =~= bv);
                assert(iv[0] == item_view(items@[0]));
                assert(iv[c - 1] == item_view(items@[c - 1]));
            }
            all.append(&mut items);
            proof {
                assert(items_view(all@) =~= items_view(prev) + iv);
                let ms = metas@.map_values(|mm: BlockMeta| mm@);
                assert forall|k: int| 0 <= k < j implies block_ok(data@, items_view(prev), starts, #[trigger] ms[k], k) by {
                    assert(ms[k] == metas@[k]@);
                }
                assert(ms[j as int] == m@);
                lemma_loaded_block(data@, items_view(prev), starts, iv, ms, j as int);
                starts = starts.push(all@.len() as int);
                assert forall|k: int| 0 <= k < j + 1 implies block_ok(data@, items_view(all@), starts, #[trigger] metas@[k]@, k) by {
                    assert(ms[k] == metas@[k]@);
                }
            }
            j = j + 1;
        }
        if !check_entries(&all) {
            return Err(MyError::Corruption);
        }
        let table = SSTable {
            sstable_metas: SStableBlockMeta::new(metas),
            data: crate::key::copy_bytes(data),
            entries: Ghost(items_view(all@)),
            starts: Ghost(starts),
            block_bytes: Ghost(mo as nat),
        };
        proof {
            assert forall|k: int| 0 <= k < table.sstable_metas@.len() implies block_ok(
                table.data@,
                table.entries@,
                table.starts@,
                #[trigger] table.sstable_metas@[k],
                k,
            ) by {
                assert(table.sstable_metas@[k] == metas@[k]@);
            }
            assert forall|i: int| 0 <= i < table.entries@.len() implies encodable(
                #[trigger] table.entries@[i],
            ) by {
                assert(table.entries@[i] == item_view(all@[i]));
            }
        }
        Ok(table)
    }
}

impl SSTable {
    /// Each block's first key does not sort after its last key.
    pub proof fn lemma_block_range(&self, j: int)
        requires
            self.wf(),
            0 <= j < self.index().len(),
        ensures
            key_le(self.index()[j].0, self.index()[j].1),
    {
        let m = self.sstable_metas@;
        assert(block_ok(self.data@, self.entries@, self.starts@, m[j], j));
        let a = self.starts@[j];
        let b = self.starts@[j + 1] - 1;
        lemma_key_order(self.entries@[a].0, self.entries@[b].0);
    }

    /// Within a table, the last key of each block sorts before the first key
    /// of the next block.
    pub proof fn lemma_blocks_ordered(&self, j: int)
        requires
            self.wf(),
            0 <= j < self.index().len() - 1,
        ensures
            key_lt(self.index()[j].1, self.index()[j + 1].0),
    {
        let m = self.sstable_metas@;
        self.lemma_block_range(j);
        assert(block_ok(self.data@, self.entries@, self.starts@, m[j], j));
        assert(block_ok(self.data@, self.entries@, self.starts@, m[j + 1], j + 1));
    }
}

} // verus!
