use vstd::prelude::*;
use crate::codec::{le_bytes, le_value, lemma_le_round_trip, lemma_le_value_bound, pow256, read_le, write_le};
use crate::common::{EntryModel, KVIterItem, MyError, ValueWithTag, item_view, items_view, lookup, tag_view};
use crate::key::{copy_bytes, Key, KEY_SIZE_LIMIT};
use crate::value::Value;

verus! {

/// Size after which a block is closed, in bytes.
pub const BLOCK_SIZE: usize = 4096;

/// Bytes of one entry: `[keylen u16][key][vallen u16][value]`, `vallen = 0` for a tombstone.
pub open spec fn encode_entry(e: EntryModel) -> Seq<u8> {
    le_bytes(e.0.len(), 2) + e.0 + match e.1 {
        Some(v) => le_bytes(v.len(), 2) + v,
        None => le_bytes(0, 2),
    }
}

/// Bytes of a sequence of entries, one after another.
pub open spec fn encode_entries(s: Seq<EntryModel>) -> Seq<u8>
    decreases s.len(),
{
    if s.len() == 0 {
        seq![]
    } else {
        encode_entry(s[0]) + encode_entries(s.drop_first())
    }
}

/// An entry that the block format can hold and give back unchanged.
pub open spec fn encodable(e: EntryModel) -> bool {
    e.0.len() <= KEY_SIZE_LIMIT && match e.1 {
        Some(v) => 0 < v.len() < 65536,
        None => true,
    }
}

/// An entry that the block format can hold; a live empty value reads back as a tombstone.
pub open spec fn storable(e: EntryModel) -> bool {
    e.0.len() <= KEY_SIZE_LIMIT && match e.1 {
        Some(v) => v.len() < 65536,
        None => true,
    }
}

/// The entry starting at `pos`, and the position after it.
pub open spec fn parse_entry(b: Seq<u8>, pos: int) -> Option<(EntryModel, int)> {
    if pos < 0 || pos + 2 > b.len() {
        None
    } else {
        let kl = le_value(b.subrange(pos, pos + 2)) as int;
        let kend = pos + 2 + kl;
        if kl > KEY_SIZE_LIMIT || kend + 2 > b.len() {
            None
        } else {
            let vl = le_value(b.subrange(kend, kend + 2)) as int;
            let vend = kend + 2 + vl;
            if vend > b.len() {
                None
            } else if vl == 0 {
                Some(((b.subrange(pos + 2, kend), None), vend))
            } else {
                Some(((b.subrange(pos + 2, kend), Some(b.subrange(kend + 2, vend))), vend))
            }
        }
    }
}

/// All entries from `pos` to the end of `b`; `None` if the bytes are malformed.
pub open spec fn parse_all(b: Seq<u8>, pos: int) -> Option<Seq<EntryModel>>
    decreases b.len() - pos,
{
    if pos < 0 || pos >= b.len() {
        if pos == b.len() {
            Some(seq![])
        } else {
            None
        }
    } else {
        match parse_entry(b, pos) {
            None => None,
            Some((e, p)) => if p <= pos || p > b.len() {
                None
            } else {
                match parse_all(b, p) {
                    None => None,
                    Some(rest) => Some(seq![e] + rest),
                }
            },
        }
    }
}

/// Lookup of `key` among the first `n` entries from `pos`: `None` if those are
/// malformed, `Some(None)` if none of them has the key.
pub open spec fn find_in(b: Seq<u8>, pos: int, n: nat, key: Seq<u8>) -> Option<
    Option<Option<Seq<u8>>>,
>
    decreases n,
{
    if n == 0 {
        Some(None)
    } else {
        match parse_entry(b, pos) {
            None => None,
            Some((e, p)) => if e.0 == key {
                Some(Some(e.1))
            } else {
                find_in(b, p, (n - 1) as nat, key)
            },
        }
    }
}

pub proof fn lemma_encode_entry_len(e: EntryModel)
    ensures
        encode_entry(e).len() >= 4,
{
    crate::codec::lemma_le_bytes_len(e.0.len(), 2);
    match e.1 {
        Some(v) => crate::codec::lemma_le_bytes_len(v.len(), 2),
        None => crate::codec::lemma_le_bytes_len(0, 2),
    }
}

pub proof fn lemma_encode_entry_size(e: EntryModel)
    requires
        storable(e),
    ensures
        4 <= encode_entry(e).len() <= 4 + KEY_SIZE_LIMIT + 65535,
{
    crate::codec::lemma_le_bytes_len(e.0.len(), 2);
    match e.1 {
        Some(v) => crate::codec::lemma_le_bytes_len(v.len(), 2),
        None => crate::codec::lemma_le_bytes_len(0, 2),
    }
}

/// Each entry takes at least four bytes.
pub proof fn lemma_encode_entries_min(s: Seq<EntryModel>)
    ensures
        encode_entries(s).len() >= 4 * s.len(),
    decreases s.len(),
{
    if s.len() > 0 {
        lemma_encode_entry_len(s[0]);
        lemma_encode_entries_min(s.drop_first());
    }
}

pub proof fn lemma_parse_entry(pre: Seq<u8>, e: EntryModel, post: Seq<u8>)
    requires
        encodable(e),
    ensures
        parse_entry(pre + encode_entry(e) + post, pre.len() as int) == Some(
            (e, (pre.len() + encode_entry(e).len()) as int),
        ),
{
    let b = pre + encode_entry(e) + post;
    let pos = pre.len() as int;
    reveal_with_fuel(pow256, 3);
    lemma_le_round_trip(e.0.len(), 2);
    let kl = e.0.len() as int;
    assert(b.subrange(pos, pos + 2) =~= le_bytes(e.0.len(), 2));
    assert(b.subrange(pos + 2, pos + 2 + kl) =~= e.0);
    match e.1 {
        Some(v) => {
            lemma_le_round_trip(v.len(), 2);
            assert(b.subrange(pos + 2 + kl, pos + 4 + kl) =~= le_bytes(v.len(), 2));
            assert(b.subrange(pos + 4 + kl, pos + 4 + kl + v.len()) =~= v);
        },
        None => {
            lemma_le_round_trip(0, 2);
            assert(b.subrange(pos + 2 + kl, pos + 4 + kl) =~= le_bytes(0, 2));
        },
    }
}

pub proof fn lemma_parse_all(pre: Seq<u8>, s: Seq<EntryModel>)
    requires
        forall|i: int| 0 <= i < s.len() ==> encodable(#[trigger] s[i]),
    ensures
        parse_all(pre + encode_entries(s), pre.len() as int) == Some(s),
    decreases s.len(),
{
    let b = pre + encode_entries(s);
    let pos = pre.len() as int;
    if s.len() == 0 {
        assert(b =~= pre);
    } else {
        let rest = s.drop_first();
        let pre2 = pre + encode_entry(s[0]);
        let pos2 = pre2.len() as int;
        assert(b =~= pre + encode_entry(s[0]) + encode_entries(rest));
        assert(pre2 + encode_entries(rest) =~= b);
        assert(encodable(s[0]));
        lemma_parse_entry(pre, s[0], encode_entries(rest));
        lemma_encode_entry_len(s[0]);
        assert(parse_entry(b, pos) == Some((s[0], pos2)));
        assert forall|i: int| 0 <= i < rest.len() implies encodable(#[trigger] rest[i]) by {
            assert(rest[i] == s[i + 1]);
        }
        lemma_parse_all(pre2, rest);
        assert(parse_all(b, pos2) == Some(rest));
        assert(pos2 > pos && pos2 <= b.len());
        assert(seq![s[0]] + rest =~= s);
        assert(parse_all(b, pos) == Some(seq![s[0]] + rest));
    }
}

/// Decoding the bytes of encodable entries gives the entries back.
pub proof fn lemma_block_round_trip(s: Seq<EntryModel>)
    requires
        forall|i: int| 0 <= i < s.len() ==> encodable(#[trigger] s[i]),
    ensures
        parse_all(encode_entries(s), 0) == Some(s),
{
    lemma_parse_all(seq![], s);
    assert(Seq::<u8>::empty() + encode_entries(s) =~= encode_entries(s));
}

/// What parses as an entry is that entry's encoding, and the entry is encodable.
pub proof fn lemma_parse_entry_canonical(b: Seq<u8>, pos: int)
    requires
        parse_entry(b, pos) is Some,
    ensures
        ({
            let (e, p) = parse_entry(b, pos).unwrap();
            &&& pos < p <= b.len()
            &&& b.subrange(pos, p) == encode_entry(e)
            &&& encodable(e)
        }),
{
    let (e, p) = parse_entry(b, pos).unwrap();
    let kx = b.subrange(pos, pos + 2);
    let kl = le_value(kx) as int;
    let kend = pos + 2 + kl;
    let vx = b.subrange(kend, kend + 2);
    let vl = le_value(vx) as int;
    crate::codec::lemma_le_bytes_of_value(kx);
    crate::codec::lemma_le_bytes_of_value(vx);
    lemma_le_value_bound(vx);
    crate::codec::lemma_pow256_values();
    assert(b.subrange(pos, p) =~= kx + b.subrange(pos + 2, kend) + vx + b.subrange(kend + 2, p));
    if vl == 0 {
        assert(b.subrange(kend + 2, p) =~= Seq::<u8>::empty());
        assert(b.subrange(pos, p) =~= encode_entry(e));
    } else {
        assert(b.subrange(pos, p) =~= encode_entry(e));
    }
}

/// What parses as a sequence of entries is their encoding, and each is encodable.
pub proof fn lemma_parse_all_canonical(b: Seq<u8>, pos: int)
    requires
        parse_all(b, pos) is Some,
    ensures
        0 <= pos <= b.len(),
        b.subrange(pos, b.len() as int) == encode_entries(parse_all(b, pos).unwrap()),
        forall|i: int|
            0 <= i < parse_all(b, pos).unwrap().len() ==> encodable(
                #[trigger] parse_all(b, pos).unwrap()[i],
            ),
    decreases b.len() - pos,
{
    let s = parse_all(b, pos).unwrap();
    if pos >= b.len() {
        assert(b.subrange(pos, b.len() as int) =~= Seq::<u8>::empty());
        assert(s =~= Seq::<EntryModel>::empty());
    } else {
        let (e, p) = parse_entry(b, pos).unwrap();
        lemma_parse_entry_canonical(b, pos);
        lemma_parse_all_canonical(b, p);
        let rest = parse_all(b, p).unwrap();
        assert(s == seq![e] + rest);
        assert(s.drop_first() =~= rest);
        assert(b.subrange(pos, b.len() as int) =~= b.subrange(pos, p) + b.subrange(p, b.len() as int));
        assert forall|i: int| 0 <= i < s.len() implies encodable(#[trigger] s[i]) by {
            if i > 0 {
                assert(s[i] == rest[i - 1]);
            }
        }
    }
}

pub proof fn lemma_find_in(b: Seq<u8>, pos: int, key: Seq<u8>)
    requires
        parse_all(b, pos) is Some,
    ensures
        find_in(b, pos, parse_all(b, pos).unwrap().len(), key) == Some(
            lookup(parse_all(b, pos).unwrap(), key),
        ),
    decreases b.len() - pos,
{
    let s = parse_all(b, pos).unwrap();
    if pos < b.len() {
        let (e, p) = parse_entry(b, pos).unwrap();
        lemma_find_in(b, p, key);
        assert(s.drop_first() =~= parse_all(b, p).unwrap());
    }
}

/// Encoding distributes over concatenation.
pub proof fn lemma_encode_entries_concat(a: Seq<EntryModel>, b: Seq<EntryModel>)
    ensures
        encode_entries(a + b) == encode_entries(a) + encode_entries(b),
    decreases a.len(),
{
    if a.len() == 0 {
        assert(a + b =~= b);
        assert(encode_entries(a) =~= Seq::<u8>::empty());
        assert(encode_entries(a) + encode_entries(b) =~= encode_entries(b));
    } else {
        assert((a + b).drop_first() =~= a.drop_first() + b);
        assert((a + b)[0] == a[0]);
        lemma_encode_entries_concat(a.drop_first(), b);
        assert(encode_entries(a + b) =~= encode_entries(a) + encode_entries(b));
    }
}

pub proof fn lemma_encode_entries_push(s: Seq<EntryModel>, e: EntryModel)
    ensures
        encode_entries(s.push(e)) == encode_entries(s) + encode_entry(e),
    decreases s.len(),
{
    if s.len() == 0 {
        reveal_with_fuel(encode_entries, 2);
        assert(s.push(e).drop_first() =~= Seq::<EntryModel>::empty());
        assert(encode_entries(s.push(e)) =~= encode_entry(e));
    } else {
        lemma_encode_entries_push(s.drop_first(), e);
        assert(s.push(e).drop_first() =~= s.drop_first().push(e));
        assert(encode_entries(s.push(e)) =~= encode_entries(s) + encode_entry(e));
    }
}

/// Bytes of one block: entries as the format lays them out.
pub struct Block {
    content: Vec<u8>,
}

impl View for Block {
    type V = Seq<u8>;

    closed spec fn view(&self) -> Seq<u8> {
        self.content@
    }
}

impl Block {
    /// A block made of the first `size` bytes of `content`.
    pub fn new(content: Vec<u8>, size: usize) -> (r: Block)
        requires
            size <= content@.len(),
        ensures
            r@ == content@.subrange(0, size as int),
    {
        let mut c = content;
        c.truncate(size);
        assert(c@ =~= content@.subrange(0, size as int));
        Block { content: c }
    }

    /// Lookup of `key` among the first `entry_number` entries.
    pub fn find(&self, key: &Key, entry_number: usize) -> (r: Result<Option<ValueWithTag>, MyError>)
        ensures
            match find_in(self@, 0, entry_number as nat, key@) {
                None => r == Err::<Option<ValueWithTag>, MyError>(MyError::Corruption),
                Some(x) => r is Ok && match x {
                    None => r.unwrap() is None,
                    Some(t) => r.unwrap() is Some && tag_view(r.unwrap().unwrap()) == t,
                },
            },
    {
        let mut position: usize = 0;
        let mut count: usize = 0;
        while count < entry_number
            invariant
                count <= entry_number,
                find_in(self@, 0, entry_number as nat, key@) == find_in(
                    self@,
                    position as int,
                    (entry_number - count) as nat,
                    key@,
                ),
            decreases entry_number - count,
        {
            match read_kv_at(self.content.as_slice(), position) {
                None => {
                    return Err(MyError::Corruption);
                },
                Some((k, v, p)) => {
                    count = count + 1;
                    if key.equal_u8(k.as_slice()) {
                        return Ok(
                            Some(
                                match v {
                                    Some(x) => Some(Value::from_vec(x)),
                                    None => None,
                                },
                            ),
                        );
                    }
                    position = p;
                },
            }
        }
        Ok(None)
    }

    /// All entries of the block, in order.
    pub fn into_iter(self) -> (r: Result<Vec<KVIterItem>, MyError>)
        ensures
            match parse_all(self@, 0) {
                None => r == Err::<Vec<KVIterItem>, MyError>(MyError::Corruption),
                Some(s) => r is Ok && items_view(r.unwrap()@) == s,
            },
    {
        decode_entries(self.content.as_slice(), 0)
    }
}

/// Decodes the entries from `pos` to the end of `b`.
pub fn decode_entries(b: &[u8], pos: usize) -> (r: Result<Vec<KVIterItem>, MyError>)
    requires
        pos <= b@.len(),
    ensures
        match parse_all(b@, pos as int) {
            None => r == Err::<Vec<KVIterItem>, MyError>(MyError::Corruption),
            Some(s) => r is Ok && items_view(r.unwrap()@) == s,
        },
{
    let mut out: Vec<KVIterItem> = Vec::new();
    let mut position: usize = pos;
    let ghost mut done: Seq<EntryModel> = seq![];
    while position < b.len()
        invariant
            pos <= position <= b@.len(),
            items_view(out@) == done,
            parse_all(b@, pos as int) == match parse_all(b@, position as int) {
                None => None,
                Some(rest) => Some(done + rest),
            },
        decreases b@.len() - position,
    {
        match read_kv_at(b, position) {
            None => {
                return Err(MyError::Corruption);
            },
            Some((k, v, p)) => {
                let ghost e = (k@, match &v {
                    Some(x) => Some(x@),
                    None => None,
                });
                if p <= position {
                    return Err(MyError::Corruption);
                }
                let item: KVIterItem = (
                    Key::from_u8_vec(k),
                    match v {
                        Some(x) => Some(Value::from_vec(x)),
                        None => None,
                    },
                );
                out.push(item);
                proof {
                    assert(item_view(item) == e);
                    assert(items_view(out@) =~= done.push(e));
                    match parse_all(b@, p as int) {
                        None => {},
                        Some(rest) => {
                            assert(done + (seq![e] + rest) =~= done.push(e) + rest);
                        },
                    }
                    done = done.push(e);
                }
                position = p;
            },
        }
    }
    assert(done + Seq::<EntryModel>::empty() =~= done);
    Ok(out)
}

/// Reads the entry at `position`: key bytes, value bytes or `None` for a
/// tombstone, and the position after the entry.
pub fn read_kv_at(b: &[u8], position: usize) -> (r: Option<(Vec<u8>, Option<Vec<u8>>, usize)>)
    ensures
        match parse_entry(b@, position as int) {
            None => r is None,
            Some((e, p)) => r is Some && r.unwrap().0@ == e.0 && r.unwrap().2 == p && match e.1 {
                None => r.unwrap().1 is None,
                Some(v) => r.unwrap().1 is Some && r.unwrap().1.unwrap()@ == v,
            },
        },
{
    let n = b.len();
    if position > n || n - position < 2 {
        return None;
    }
    let kl = read_le(b, position, 2) as usize;
    proof {
        lemma_le_value_bound(b@.subrange(position as int, position + 2));
        reveal_with_fuel(pow256, 3);
    }
    if kl > KEY_SIZE_LIMIT || n - position - 2 < kl || n - position - 2 - kl < 2 {
        return None;
    }
    let kend = position + 2 + kl;
    let vl = read_le(b, kend, 2) as usize;
    proof {
        lemma_le_value_bound(b@.subrange(kend as int, kend + 2));
    }
    if n - kend - 2 < vl {
        return None;
    }
    let vend = kend + 2 + vl;
    let key = copy_bytes(vstd::slice::slice_subrange(b, position + 2, kend));
    if vl == 0 {
        Some((key, None, vend))
    } else {
        let val = copy_bytes(vstd::slice::slice_subrange(b, kend + 2, vend));
        Some((key, Some(val), vend))
    }
}

/// Accumulates the bytes of one block.
pub struct BlockBuilder {
    content: Vec<u8>,
}

impl View for BlockBuilder {
    type V = Seq<u8>;

    closed spec fn view(&self) -> Seq<u8> {
        self.content@
    }
}

impl BlockBuilder {
    pub fn new() -> (r: BlockBuilder)
        ensures
            r@ == Seq::<u8>::empty(),
    {
        BlockBuilder { content: Vec::new() }
    }

    pub fn len(&self) -> (r: usize)
        ensures
            r == self@.len(),
    {
        self.content.len()
    }

    /// Appends one entry in the block format.
    pub fn append(&mut self, key: &Key, value: &ValueWithTag)
        requires
            storable(item_view((*key, *value))),
            old(self)@.len() + 2 * KEY_SIZE_LIMIT + 65540 <= usize::MAX,
        ensures
            final(self)@ == old(self)@ + encode_entry(item_view((*key, *value))),
    {
        proof {
            reveal_with_fuel(pow256, 3);
        }
        let kl = key.len();
        write_le(&mut self.content, kl as u64, 2);
        self.content.extend_from_slice(key.data());
        match value {
            Some(v) => {
                write_le(&mut self.content, v.len() as u64, 2);
                self.content.extend_from_slice(v.data());
            },
            None => {
                write_le(&mut self.content, 0, 2);
            },
        }
        assert(final(self)@ =~= old(self)@ + encode_entry(item_view((*key, *value))));
    }

    /// Moves the accumulated bytes to the end of `w`, leaving the builder empty.
    pub fn flush(&mut self, w: &mut Vec<u8>)
        ensures
            final(w)@ == old(w)@ + old(self)@,
            final(self)@ == Seq::<u8>::empty(),
    {
        w.append(&mut self.content);
    }
}

/// Where one block lies in a table file, and its key range.
#[derive(Debug)]
pub struct BlockMeta {
    start_key: Key,
    last_key: Key,
    block_offset: u64,
    size: usize,
    entry_number: usize,
}

/// Plain contents of a block's metadata: first key, last key, offset, size, entry count.
pub type BlockMetaModel = (Seq<u8>, Seq<u8>, nat, nat, nat);

impl View for BlockMeta {
    type V = BlockMetaModel;

    closed spec fn view(&self) -> BlockMetaModel {
        (
            self.start_key@,
            self.last_key@,
            self.block_offset as nat,
            self.size as nat,
            self.entry_number as nat,
        )
    }
}

/// Bytes of one block metadata entry.
pub open spec fn encode_meta(m: BlockMetaModel) -> Seq<u8> {
    le_bytes(m.0.len(), 2) + m.0 + le_bytes(m.1.len(), 2) + m.1 + le_bytes(m.2, 4) + le_bytes(
        m.3,
        4,
    ) + le_bytes(m.4, 4)
}

/// Bytes of a sequence of block metadata entries.
pub open spec fn encode_metas(s: Seq<BlockMetaModel>) -> Seq<u8>
    decreases s.len(),
{
    if s.len() == 0 {
        seq![]
    } else {
        encode_metas(s.drop_last()) + encode_meta(s.last())
    }
}

/// The metadata entry at `pos`, and the position after it.
pub open spec fn parse_meta(b: Seq<u8>, pos: int) -> Option<(BlockMetaModel, int)> {
    if pos < 0 || pos + 2 > b.len() {
        None
    } else {
        let sl = le_value(b.subrange(pos, pos + 2)) as int;
        let send = pos + 2 + sl;
        if sl > KEY_SIZE_LIMIT || send + 2 > b.len() {
            None
        } else {
            let ll = le_value(b.subrange(send, send + 2)) as int;
            let lend = send + 2 + ll;
            if ll > KEY_SIZE_LIMIT || lend + 12 > b.len() {
                None
            } else {
                Some(
                    (
                        (
                            b.subrange(pos + 2, send),
                            b.subrange(send + 2, lend),
                            le_value(b.subrange(lend, lend + 4)),
                            le_value(b.subrange(lend + 4, lend + 8)),
                            le_value(b.subrange(lend + 8, lend + 12)),
                        ),
                        lend + 12,
                    ),
                )
            }
        }
    }
}

/// `n` metadata entries from `pos`, and the position after them.
pub open spec fn parse_metas(b: Seq<u8>, pos: int, n: nat) -> Option<(Seq<BlockMetaModel>, int)>
    decreases n,
{
    if n == 0 {
        Some((seq![], pos))
    } else {
        match parse_metas(b, pos, (n - 1) as nat) {
            None => None,
            Some((s, p)) => match parse_meta(b, p) {
                None => None,
                Some((m, q)) => Some((s.push(m), q)),
            },
        }
    }
}

impl BlockMeta {
    pub fn entry_number(&self) -> (r: usize)
        ensures
            r == self@.4,
    {
        self.entry_number
    }

    pub fn start_key(&self) -> (r: &Key)
        ensures
            r@ == self@.0,
    {
        &self.start_key
    }

    pub fn last_key(&self) -> (r: &Key)
        ensures
            r@ == self@.1,
    {
        &self.last_key
    }

    pub fn block_offset(&self) -> (r: u64)
        ensures
            r == self@.2,
    {
        self.block_offset
    }

    pub fn entry_size(&self) -> (r: usize)
        ensures
            r == self@.4,
    {
        self.entry_number
    }

    pub fn size(&self) -> (r: usize)
        ensures
            r == self@.3,
    {
        self.size
    }

    pub fn new(start_key: Key, k: Key, number: usize, size: usize, block_offset: u64) -> (r:
        BlockMeta)
        ensures
            r@ == (start_key@, k@, block_offset as nat, size as nat, number as nat),
    {
        BlockMeta { start_key, last_key: k, entry_number: number, size, block_offset }
    }

    /// Appends this entry in the metadata format.
    pub fn write_to_binary(&self, out: &mut Vec<u8>)
        requires
            self@.2 < 0x1_0000_0000,
            self@.3 < 0x1_0000_0000,
            self@.4 < 0x1_0000_0000,
        ensures
            final(out)@ == old(out)@ + encode_meta(self@),
    {
        proof {
            reveal_with_fuel(pow256, 5);
        }
        let sl = self.start_key.len();
        let ll = self.last_key.len();
        write_le(out, sl as u64, 2);
        out.extend_from_slice(self.start_key.data());
        write_le(out, ll as u64, 2);
        out.extend_from_slice(self.last_key.data());
        write_le(out, self.block_offset, 4);
        write_le(out, self.size as u64, 4);
        write_le(out, self.entry_number as u64, 4);
        assert(final(out)@ =~= old(out)@ + encode_meta(self@));
    }

    /// Reads the metadata entry at `pos`, and the position after it.
    pub fn read_from_binary(b: &[u8], pos: usize) -> (r: Result<(BlockMeta, usize), MyError>)
        ensures
            match parse_meta(b@, pos as int) {
                None => r == Err::<(BlockMeta, usize), MyError>(MyError::Corruption),
                Some((m, p)) => r is Ok && r.unwrap().0@ == m && r.unwrap().1 == p,
            },
    {
        let n = b.len();
        if pos > n || n - pos < 2 {
            return Err(MyError::Corruption);
        }
        let sl = read_le(b, pos, 2) as usize;
        proof {
            lemma_le_value_bound(b@.subrange(pos as int, pos + 2));
            reveal_with_fuel(pow256, 5);
        }
        if sl > KEY_SIZE_LIMIT || n - pos - 2 < sl || n - pos - 2 - sl < 2 {
            return Err(MyError::Corruption);
        }
        let send = pos + 2 + sl;
        let ll = read_le(b, send, 2) as usize;
        proof {
            lemma_le_value_bound(b@.subrange(send as int, send + 2));
        }
        if ll > KEY_SIZE_LIMIT || n - send - 2 < ll || n - send - 2 - ll < 12 {
            return Err(MyError::Corruption);
        }
        let lend = send + 2 + ll;
        let start_key = Key::from(vstd::slice::slice_subrange(b, pos + 2, send));
        let last_key = Key::from(vstd::slice::slice_subrange(b, send + 2, lend));
        let off = read_le(b, lend, 4);
        let size = read_le(b, lend + 4, 4);
        let count = read_le(b, lend + 8, 4);
        proof {
            lemma_le_value_bound(b@.subrange(lend + 4, lend + 8));
            lemma_le_value_bound(b@.subrange(lend + 8, lend + 12));
        }
        Ok(
            (
                BlockMeta {
                    start_key,
                    last_key,
                    block_offset: off,
                    size: size as usize,
                    entry_number: count as usize,
                },
                lend + 12,
            ),
        )
    }

    /// Reads `number` metadata entries from `pos`, one after another.
    pub fn build_block_metas(data: &[u8], pos: usize, number: usize) -> (r: Result<
        (Vec<BlockMeta>, usize),
        MyError,
    >)
        ensures
            match parse_metas(data@, pos as int, number as nat) {
                None => r == Err::<(Vec<BlockMeta>, usize), MyError>(MyError::Corruption),
                Some((s, p)) => r is Ok && r.unwrap().0@.map_values(|m: BlockMeta| m@) == s
                    && r.unwrap().1 == p,
            },
    {
        let mut result: Vec<BlockMeta> = Vec::new();
        let mut count: usize = 0;
        let mut position: usize = pos;
        while count < number
            invariant
                count <= number,
                parse_metas(data@, pos as int, count as nat) == Some(
                    (result@.map_values(|m: BlockMeta| m@), position as int),
                ),
            decreases number - count,
        {
            let ghost before = result@.map_values(|m: BlockMeta| m@);
            match BlockMeta::read_from_binary(data, position) {
                Err(e) => {
                    proof {
                        lemma_parse_metas_fail(data@, pos as int, (count + 1) as nat, number as nat);
                    }
                    return Err(e);
                },
                Ok((m, p)) => {
                    result.push(m);
                    assert(result@.map_values(|m: BlockMeta| m@) =~= before.push(m@));
                    position = p;
                    count = count + 1;
                },
            }
        }
        Ok((result, position))
    }
}

pub proof fn lemma_parse_metas_fail(b: Seq<u8>, pos: int, k: nat, n: nat)
    requires
        k <= n,
        parse_metas(b, pos, k) is None,
    ensures
        parse_metas(b, pos, n) is None,
    decreases n - k,
{
    if k < n {
        lemma_parse_metas_fail(b, pos, k + 1, n);
    }
}

} // verus!
