//! Reading a log back: the index that replaying its records in order gives.

use std::collections::HashMap;

use vstd::prelude::*;
use vstd::slice::slice_subrange;

use crate::error::KvError;
use crate::record::{
    i64_from_le, key_bytes, key_of_bits, le_value, lemma_key_round_trip, lemma_len_round_trip,
    len_bytes, remove_record, set_record, u64_from_le, OpType, REMOVE_RECORD_LEN, SET_HEADER_LEN,
};

verus! {

broadcast use vstd::std_specs::hash::group_hash_axioms;

/// Where the payload of a set record lies in the log.
#[derive(Clone, Copy, Debug)]
pub struct ValuePos {
    /// Offset of the first payload byte.
    pub offset: u64,
    /// Number of payload bytes.
    pub size: u64,
}

/// For each key seen in a log: where its latest value lies, or `None` when
/// its latest record removed it.
pub type MemIndex = HashMap<i64, Option<ValuePos>>;

/// Replays the records of `data` from `pos` on into `idx`; `None` when a
/// record has an unknown tag or runs past the end of `data`.
pub open spec fn parse_from(data: Seq<u8>, pos: int, idx: Map<i64, Option<ValuePos>>) -> Option<
    Map<i64, Option<ValuePos>>,
>
    decreases data.len() - pos,
{
    if pos >= data.len() {
        Some(idx)
    } else if data[pos] == 0 {
        if pos + SET_HEADER_LEN > data.len() {
            None
        } else {
            let key = key_of_bits(le_value(data.subrange(pos + 1, pos + 9))) as i64;
            let n = le_value(data.subrange(pos + 9, pos + 17));
            if pos + SET_HEADER_LEN + n > data.len() {
                None
            } else {
                parse_from(
                    data,
                    pos + SET_HEADER_LEN + n,
                    idx.insert(key, Some(ValuePos { offset: (pos + 17) as u64, size: n as u64 })),
                )
            }
        }
    } else if data[pos] == 1 {
        if pos + REMOVE_RECORD_LEN > data.len() {
            None
        } else {
            let key = key_of_bits(le_value(data.subrange(pos + 1, pos + 9))) as i64;
            parse_from(data, pos + REMOVE_RECORD_LEN, idx.insert(key, None))
        }
    } else {
        None
    }
}

/// The index that a whole log gives, or `None` for a malformed log.
pub open spec fn log_index(data: Seq<u8>) -> Option<Map<i64, Option<ValuePos>>> {
    parse_from(data, 0, Map::empty())
}

/// The live values that `idx` points at in `log`.
pub open spec fn values_of(log: Seq<u8>, idx: Map<i64, Option<ValuePos>>) -> Map<i64, Seq<u8>> {
    Map::new(
        |k: i64| idx.contains_key(k) && idx[k] is Some,
        |k: i64|
            log.subrange(
                idx[k]->Some_0.offset as int,
                idx[k]->Some_0.offset + idx[k]->Some_0.size,
            ),
    )
}

/// The live values that a log holds, or `None` for a malformed log.
pub open spec fn log_contents(data: Seq<u8>) -> Option<Map<i64, Seq<u8>>> {
    match log_index(data) {
        Some(idx) => Some(values_of(data, idx)),
        None => None,
    }
}

/// Where the index puts the value of `k`, if it is live.
pub open spec fn pos_of(m: Map<i64, Option<ValuePos>>, k: i64) -> Option<ValuePos> {
    if m.contains_key(k) {
        m[k]
    } else {
        None
    }
}

/// The bytes that the set record of `k`'s live value takes.
pub open spec fn live_record_len(idx: Map<i64, Option<ValuePos>>, k: i64) -> nat {
    match pos_of(idx, k) {
        Some(p) => (SET_HEADER_LEN + p.size) as nat,
        None => 0,
    }
}

/// The bytes that the set records of the live values of `ks` take.
pub open spec fn live_total(ks: Seq<i64>, idx: Map<i64, Option<ValuePos>>) -> nat
    decreases ks.len(),
{
    if ks.len() == 0 {
        0
    } else {
        live_total(ks.drop_last(), idx) + live_record_len(idx, ks.last())
    }
}

/// Changing the entry of a key that `ks` lacks leaves their total alone.
pub proof fn lemma_live_total_other(
    ks: Seq<i64>,
    idx: Map<i64, Option<ValuePos>>,
    k: i64,
    e: Option<ValuePos>,
)
    requires
        !ks.contains(k),
    ensures
        live_total(ks, idx.insert(k, e)) == live_total(ks, idx),
    decreases ks.len(),
{
    if ks.len() > 0 {
        let init = ks.drop_last();
        assert(!init.contains(k)) by {
            if init.contains(k) {
                let j = choose|j: int| 0 <= j < init.len() && init[j] == k;
                assert(ks[j] == k);
            }
        }
        assert(ks.last() != k) by {
            assert(ks[ks.len() - 1] == ks.last());
        }
        lemma_live_total_other(init, idx, k, e);
        assert(pos_of(idx.insert(k, e), ks.last()) == pos_of(idx, ks.last()));
    }
}

/// Changing the entry of a key that `ks` holds once swaps its record's
/// length in their total.
pub proof fn lemma_live_total_insert(
    ks: Seq<i64>,
    idx: Map<i64, Option<ValuePos>>,
    k: i64,
    e: Option<ValuePos>,
)
    requires
        ks.no_duplicates(),
        ks.contains(k),
    ensures
        live_total(ks, idx.insert(k, e)) + live_record_len(idx, k) == live_total(ks, idx)
            + live_record_len(idx.insert(k, e), k),
    decreases ks.len(),
{
    let init = ks.drop_last();
    if ks.last() == k {
        assert(!init.contains(k)) by {
            if init.contains(k) {
                let j = choose|j: int| 0 <= j < init.len() && init[j] == k;
                assert(ks[j] == ks[ks.len() - 1]);
            }
        }
        lemma_live_total_other(init, idx, k, e);
    } else {
        let j = choose|j: int| 0 <= j < ks.len() && ks[j] == k;
        assert(j != ks.len() - 1);
        assert(init[j] == k);
        lemma_live_total_insert(init, idx, k, e);
        assert(pos_of(idx.insert(k, e), ks.last()) == pos_of(idx, ks.last()));
    }
}

/// A prefix of `ks` takes no more bytes than all of `ks`.
pub proof fn lemma_live_total_prefix(ks: Seq<i64>, idx: Map<i64, Option<ValuePos>>, j: int)
    requires
        0 <= j <= ks.len(),
    ensures
        live_total(ks.subrange(0, j), idx) <= live_total(ks, idx),
    decreases ks.len(),
{
    if j < ks.len() {
        lemma_live_total_prefix(ks.drop_last(), idx, j);
        assert(ks.drop_last().subrange(0, j) =~= ks.subrange(0, j));
    } else {
        assert(ks.subrange(0, j) =~= ks);
    }
}

/// Replaying more bytes after a part that replays exactly to its end
/// continues from the index that part gave.
pub proof fn lemma_parse_extend(
    data: Seq<u8>,
    extra: Seq<u8>,
    pos: int,
    idx: Map<i64, Option<ValuePos>>,
)
    requires
        0 <= pos <= data.len(),
        parse_from(data, pos, idx) is Some,
    ensures
        parse_from(data + extra, pos, idx) == parse_from(
            data + extra,
            data.len() as int,
            parse_from(data, pos, idx)->Some_0,
        ),
    decreases data.len() - pos,
{
    let all = data + extra;
    if pos < data.len() {
        assert(all[pos] == data[pos]);
        if data[pos] == 0 {
            assert(all.subrange(pos + 1, pos + 9) =~= data.subrange(pos + 1, pos + 9));
            assert(all.subrange(pos + 9, pos + 17) =~= data.subrange(pos + 9, pos + 17));
            let key = key_of_bits(le_value(data.subrange(pos + 1, pos + 9))) as i64;
            let n = le_value(data.subrange(pos + 9, pos + 17));
            lemma_parse_extend(
                data,
                extra,
                pos + SET_HEADER_LEN + n,
                idx.insert(key, Some(ValuePos { offset: (pos + 17) as u64, size: n as u64 })),
            );
        } else {
            assert(all.subrange(pos + 1, pos + 9) =~= data.subrange(pos + 1, pos + 9));
            let key = key_of_bits(le_value(data.subrange(pos + 1, pos + 9))) as i64;
            lemma_parse_extend(data, extra, pos + REMOVE_RECORD_LEN, idx.insert(key, None));
        }
    }
}

/// Appending a set record to a well-formed log points its key at the new
/// payload.
pub proof fn lemma_parse_append_set(data: Seq<u8>, key: i64, value: Seq<u8>)
    requires
        log_index(data) is Some,
        data.len() + SET_HEADER_LEN + value.len() <= u64::MAX,
    ensures
        log_index(data + set_record(key, value)) == Some(
            log_index(data)->Some_0.insert(
                key,
                Some(ValuePos { offset: (data.len() + 17) as u64, size: value.len() as u64 }),
            ),
        ),
{
    let rec = set_record(key, value);
    let all = data + rec;
    let p = data.len() as int;
    lemma_parse_extend(data, rec, 0, Map::empty());
    lemma_key_round_trip(key);
    lemma_len_round_trip(value.len() as u64);
    assert(all[p as int] == 0);
    assert(all.subrange(p + 1, p + 9) =~= key_bytes(key));
    assert(all.subrange(p + 9, p + 17) =~= len_bytes(value.len()));
    let m = log_index(data)->Some_0.insert(
        key,
        Some(ValuePos { offset: (p + 17) as u64, size: value.len() as u64 }),
    );
    assert(parse_from(all, p + SET_HEADER_LEN + value.len(), m) == Some(m));
}

/// Appending a remove record to a well-formed log marks its key removed.
pub proof fn lemma_parse_append_remove(data: Seq<u8>, key: i64)
    requires
        log_index(data) is Some,
    ensures
        log_index(data + remove_record(key)) == Some(log_index(data)->Some_0.insert(key, None)),
{
    let rec = remove_record(key);
    let all = data + rec;
    let p = data.len() as int;
    lemma_parse_extend(data, rec, 0, Map::empty());
    lemma_key_round_trip(key);
    assert(all[p as int] == 1);
    assert(all.subrange(p + 1, p + 9) =~= key_bytes(key));
    let m = log_index(data)->Some_0.insert(key, None);
    assert(parse_from(all, p + REMOVE_RECORD_LEN, m) == Some(m));
}

/// Every payload that replaying gives lies inside the log.
pub proof fn lemma_parse_in_bounds(data: Seq<u8>, pos: int, idx: Map<i64, Option<ValuePos>>)
    requires
        0 <= pos,
        parse_from(data, pos, idx) is Some,
        data.len() <= u64::MAX,
        forall|k: i64|
            #[trigger] idx.contains_key(k) && idx[k] is Some ==> idx[k]->Some_0.offset
                + idx[k]->Some_0.size <= data.len(),
    ensures
        forall|k: i64|
            #[trigger] parse_from(data, pos, idx)->Some_0.contains_key(k) && parse_from(
                data,
                pos,
                idx,
            )->Some_0[k] is Some ==> parse_from(data, pos, idx)->Some_0[k]->Some_0.offset
                + parse_from(data, pos, idx)->Some_0[k]->Some_0.size <= data.len(),
    decreases data.len() - pos,
{
    if pos < data.len() {
        if data[pos] == 0 {
            let key = key_of_bits(le_value(data.subrange(pos + 1, pos + 9))) as i64;
            let n = le_value(data.subrange(pos + 9, pos + 17));
            lemma_parse_in_bounds(
                data,
                pos + SET_HEADER_LEN + n,
                idx.insert(key, Some(ValuePos { offset: (pos + 17) as u64, size: n as u64 })),
            );
        } else {
            let key = key_of_bits(le_value(data.subrange(pos + 1, pos + 9))) as i64;
            lemma_parse_in_bounds(data, pos + REMOVE_RECORD_LEN, idx.insert(key, None));
        }
    }
}

/// Builds the index of a log by replaying its records in order: the latest
/// record of each key wins. Payloads are skipped by their length, not read.
/// Also returns each key of the index once, in the order of first sight.
pub fn load_index(data: &[u8]) -> (r: Result<(MemIndex, Vec<i64>), KvError>)
    ensures
        match r {
            Ok((idx, keys)) => {
                &&& log_index(data@) == Some(idx@)
                &&& keys@.no_duplicates()
                &&& keys@.to_set() == idx@.dom()
                &&& live_total(keys@, idx@) <= data@.len()
            },
            Err(e) => log_index(data@) is None && e is InvalidFormat,
        },
{
    let mut index: MemIndex = HashMap::new();
    let mut keys: Vec<i64> = Vec::new();
    let len = data.len();
    let mut offset: usize = 0;
    proof {
        assert(keys@.to_set() =~= index@.dom());
    }
    while offset < len
        invariant
            len == data@.len(),
            offset <= len,
            log_index(data@) == parse_from(data@, offset as int, index@),
            keys@.no_duplicates(),
            keys@.to_set() == index@.dom(),
            live_total(keys@, index@) <= offset,
        decreases len - offset,
    {
        let op = OpType::from_u8(data[offset])?;
        if len - offset < REMOVE_RECORD_LEN as usize {
            return Err(KvError::InvalidFormat);
        }
        let key = i64_from_le(slice_subrange(data, offset + 1, offset + 9));
        proof {
            assert(data@.subrange(offset + 1, offset + 9) =~= data@.subrange(
                offset + 1,
                offset + 9,
            ).subrange(0, 8));
        }
        let entry: Option<ValuePos>;
        let ghost start = offset;
        match op {
            OpType::SetValue => {
                if len - offset < SET_HEADER_LEN as usize {
                    return Err(KvError::InvalidFormat);
                }
                let value_size = u64_from_le(slice_subrange(data, offset + 9, offset + 17));
                proof {
                    assert(data@.subrange(offset + 9, offset + 17) =~= data@.subrange(
                        offset + 9,
                        offset + 17,
                    ).subrange(0, 8));
                }
                if value_size > (len - offset - SET_HEADER_LEN as usize) as u64 {
                    return Err(KvError::InvalidFormat);
                }
                entry = Some(ValuePos { offset: (offset + 17) as u64, size: value_size });
                offset = offset + SET_HEADER_LEN as usize + value_size as usize;
            },
            OpType::Remove => {
                entry = None;
                offset = offset + REMOVE_RECORD_LEN as usize;
            },
        }
        let ghost old_keys = keys@;
        let ghost old_index = index@;
        proof {
            assert(live_record_len(old_index.insert(key, entry), key) <= offset - start);
        }
        if !index.contains_key(&key) {
            keys.push(key);
            proof {
                old_keys.lemma_push_to_set_commute(key);
                assert(!old_keys.contains(key)) by {
                    if old_keys.contains(key) {
                        assert(old_keys.to_set().contains(key));
                    }
                }
                lemma_live_total_other(old_keys, old_index, key, entry);
                assert(keys@.drop_last() == old_keys);
            }
        } else {
            proof {
                assert(old_keys.to_set().contains(key));
                lemma_live_total_insert(old_keys, old_index, key, entry);
            }
        }
        proof {
            assert(keys@.to_set() =~= index@.dom().insert(key));
        }
        index.insert(key, entry);
    }
    Ok((index, keys))
}

} // verus!
