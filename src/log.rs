use vstd::prelude::*;
use crate::block::{BlockBuilder, encodable, encode_entries, encode_entry, parse_entry, storable, lemma_parse_entry, lemma_encode_entry_len};
use crate::codec::{le_bytes, le_value, lemma_le_round_trip, lemma_pow256_values, read_le, write_le};
use crate::common::{EntryModel, KVIterItem, MyError, ValueWithTag, item_view, items_view};
use crate::key::{Key, KEY_SIZE_LIMIT};

verus! {

/// Complete records from `pos` on, up to the first one that is cut short or malformed.
pub open spec fn parse_records(b: Seq<u8>, pos: int) -> Seq<EntryModel>
    decreases b.len() - pos,
{
    if pos < 0 || pos >= b.len() {
        seq![]
    } else {
        match parse_entry(b, pos) {
            None => seq![],
            Some((e, p)) => if p <= pos || p > b.len() {
                seq![]
            } else {
                seq![e] + parse_records(b, p)
            },
        }
    }
}

/// Bytes of one log record: the entry in the block format.
pub fn encode_wal_record(key: &Key, value: &ValueWithTag) -> (r: Vec<u8>)
    requires
        storable(item_view((*key, *value))),
    ensures
        r@ == encode_entry(item_view((*key, *value))),
{
    let mut b = BlockBuilder::new();
    b.append(key, value);
    let mut out: Vec<u8> = Vec::new();
    b.flush(&mut out);
    assert(out@ =~= encode_entry(item_view((*key, *value))));
    out
}

/// Replays a log: every complete record in order, stopping without error at
/// a record cut short by a crash.
pub fn replay_wal(b: &[u8]) -> (r: Vec<KVIterItem>)
    ensures
        items_view(r@) == parse_records(b@, 0),
{
    let mut out: Vec<KVIterItem> = Vec::new();
    let mut position: usize = 0;
    let ghost mut done: Seq<EntryModel> = seq![];
    while position < b.len()
        invariant
            position <= b@.len(),
            items_view(out@) == done,
            parse_records(b@, 0) == done + parse_records(b@, position as int),
        decreases b@.len() - position,
    {
        match crate::block::read_kv_at(b, position) {
            None => {
                assert(parse_records(b@, position as int) =~= Seq::<EntryModel>::empty());
                assert(done + Seq::<EntryModel>::empty() =~= done);
                return out;
            },
            Some((k, v, p)) => {
                let ghost e = (k@, match &v {
                    Some(x) => Some(x@),
                    None => None,
                });
                if p <= position {
                    assert(parse_records(b@, position as int) =~= Seq::<EntryModel>::empty());
                    assert(done + Seq::<EntryModel>::empty() =~= done);
                    return out;
                }
                let item: KVIterItem = (
                    Key::from_u8_vec(k),
                    match v {
                        Some(x) => Some(crate::value::Value::from_vec(x)),
                        None => None,
                    },
                );
                out.push(item);
                proof {
                    assert(item_view(item) == e);
                    assert(items_view(out@) =~= done.push(e));
                    assert(done + (seq![e] + parse_records(b@, p as int)) =~= done.push(e)
                        + parse_records(b@, p as int));
                    done = done.push(e);
                }
                position = p;
            },
        }
    }
    assert(parse_records(b@, position as int) =~= Seq::<EntryModel>::empty());
    assert(done + Seq::<EntryModel>::empty() =~= done);
    out
}

/// A record cut short is not read.
proof fn lemma_cut_entry(pre: Seq<u8>, e: EntryModel, m: int)
    requires
        encodable(e),
        0 <= m < encode_entry(e).len(),
    ensures
        parse_entry(pre + encode_entry(e).subrange(0, m), pre.len() as int) is None,
{
    let b = pre + encode_entry(e).subrange(0, m);
    let pos = pre.len() as int;
    let full = pre + encode_entry(e);
    lemma_parse_entry(pre, e, Seq::<u8>::empty());
    assert(full + Seq::<u8>::empty() =~= full);
    lemma_pow256_values();
    lemma_le_round_trip(e.0.len(), 2);
    let kl = e.0.len() as int;
    if pos + 2 <= b.len() {
        assert(b.subrange(pos, pos + 2) =~= full.subrange(pos, pos + 2));
        if pos + 2 + kl + 2 <= b.len() {
            assert(b.subrange(pos + 2 + kl, pos + 4 + kl) =~= full.subrange(pos + 2 + kl, pos + 4 + kl));
        }
    }
}

proof fn lemma_records_prefix(pre: Seq<u8>, s: Seq<EntryModel>, tail: Seq<u8>, e: EntryModel, m: int)
    requires
        forall|i: int| 0 <= i < s.len() ==> encodable(#[trigger] s[i]),
        encodable(e),
        0 <= m < encode_entry(e).len(),
        tail == encode_entry(e).subrange(0, m),
    ensures
        parse_records(pre + encode_entries(s) + tail, pre.len() as int) == s,
    decreases s.len(),
{
    let b = pre + encode_entries(s) + tail;
    let pos = pre.len() as int;
    if s.len() == 0 {
        assert(b =~= pre + tail);
        if m > 0 {
            lemma_cut_entry(pre, e, m);
        }
    } else {
        let rest = s.drop_first();
        let pre2 = pre + encode_entry(s[0]);
        assert(b =~= pre + encode_entry(s[0]) + (encode_entries(rest) + tail));
        assert(pre2 + encode_entries(rest) + tail =~= b);
        assert(encodable(s[0]));
        lemma_parse_entry(pre, s[0], encode_entries(rest) + tail);
        lemma_encode_entry_len(s[0]);
        assert forall|i: int| 0 <= i < rest.len() implies encodable(#[trigger] rest[i]) by {
            assert(rest[i] == s[i + 1]);
        }
        lemma_records_prefix(pre2, rest, tail, e, m);
        assert(seq![s[0]] + rest =~= s);
    }
}

/// A log whose last record was cut short by a crash replays to the complete
/// records before it.
pub proof fn lemma_wal_truncated(s: Seq<EntryModel>, e: EntryModel, m: int)
    requires
        forall|i: int| 0 <= i < s.len() ==> encodable(#[trigger] s[i]),
        encodable(e),
        0 <= m < encode_entry(e).len(),
    ensures
        parse_records(encode_entries(s) + encode_entry(e).subrange(0, m), 0) == s,
{
    lemma_records_prefix(Seq::<u8>::empty(), s, encode_entry(e).subrange(0, m), e, m);
    assert(Seq::<u8>::empty() + encode_entries(s) + encode_entry(e).subrange(0, m) =~= encode_entries(s)
        + encode_entry(e).subrange(0, m));
}

/// Payloads from `pos` to the end, each framed as `[length u64][payload]`;
/// `None` when the bytes end inside a frame.
pub open spec fn parse_frames(b: Seq<u8>, pos: int) -> Option<Seq<Seq<u8>>>
    decreases b.len() - pos,
{
    if pos < 0 || pos >= b.len() {
        if pos == b.len() {
            Some(seq![])
        } else {
            None
        }
    } else if pos + 8 > b.len() {
        None
    } else {
        let n = le_value(b.subrange(pos, pos + 8)) as int;
        if n > b.len() - pos - 8 {
            None
        } else {
            match parse_frames(b, pos + 8 + n) {
                None => None,
                Some(rest) => Some(seq![b.subrange(pos + 8, pos + 8 + n)] + rest),
            }
        }
    }
}

/// Bytes of one manifest record: the payload's length as a u64, then the payload.
pub fn frame_record(payload: &[u8]) -> (r: Vec<u8>)
    ensures
        r@ == le_bytes(payload@.len(), 8) + payload@,
{
    proof {
        lemma_pow256_values();
    }
    let mut out: Vec<u8> = Vec::new();
    write_le(&mut out, payload.len() as u64, 8);
    out.extend_from_slice(payload);
    assert(out@ =~= le_bytes(payload@.len(), 8) + payload@);
    out
}

/// Reads the payloads of a manifest; `Corruption` when it ends inside a frame.
pub fn read_records(b: &[u8]) -> (r: Result<Vec<Vec<u8>>, MyError>)
    ensures
        match parse_frames(b@, 0) {
            None => r == Err::<Vec<Vec<u8>>, MyError>(MyError::Corruption),
            Some(s) => r is Ok && r.unwrap()@.map_values(|v: Vec<u8>| v@) == s,
        },
{
    let n = b.len();
    let mut out: Vec<Vec<u8>> = Vec::new();
    let mut pos: usize = 0;
    let ghost mut done: Seq<Seq<u8>> = seq![];
    while pos < n
        invariant
            n == b@.len(),
            pos <= n,
            out@.map_values(|v: Vec<u8>| v@) == done,
            parse_frames(b@, 0) == match parse_frames(b@, pos as int) {
                None => None,
                Some(rest) => Some(done + rest),
            },
        decreases n - pos,
    {
        if n - pos < 8 {
            return Err(MyError::Corruption);
        }
        let len = read_le(b, pos, 8);
        if len > (n - pos - 8) as u64 {
            return Err(MyError::Corruption);
        }
        let l = len as usize;
        let payload = crate::key::copy_bytes(vstd::slice::slice_subrange(b, pos + 8, pos + 8 + l));
        let ghost pv = payload@;
        out.push(payload);
        proof {
            assert(out@.map_values(|v: Vec<u8>| v@) =~= done.push(pv));
            match parse_frames(b@, pos + 8 + l) {
                None => {},
                Some(rest) => {
                    assert(done + (seq![pv] + rest) =~= done.push(pv) + rest);
                },
            }
            done = done.push(pv);
        }
        pos = pos + 8 + l;
    }
    assert(done + Seq::<Seq<u8>>::empty() =~= done);
    Ok(out)
}

} // verus!
