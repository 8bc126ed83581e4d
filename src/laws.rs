//! Laws of the store's operations, stated over its contents: what a get
//! answers after a run of sets and removes.
//!
//! They speak the language of `KvDb`'s contracts: `set(k, v)` on an open
//! store leaves `old@.insert(k, encode_utf8(v@))` and returns
//! `lookup(old@, k)`, `remove(k)` leaves `old@.remove(k)` and returns
//! `lookup(old@, k)`, and `get(k)` returns `lookup(old@, k)`, whether or not
//! a compaction ran and whether or not the cache held the key.

use vstd::prelude::*;
use vstd::utf8::encode_utf8;

use crate::db::{lemma_text_round_trip, lookup};

verus! {

/// A write to the store.
pub enum WriteOp {
    /// Sets a key to a text.
    Put { key: i64, value: Seq<char> },
    /// Removes a key.
    Delete { key: i64 },
}

/// The contents after applying one write to `m`.
pub open spec fn apply_op(m: Map<i64, Seq<u8>>, op: WriteOp) -> Map<i64, Seq<u8>> {
    match op {
        WriteOp::Put { key, value } => m.insert(key, encode_utf8(value)),
        WriteOp::Delete { key } => m.remove(key),
    }
}

/// The contents after applying the writes of `ops` in order to `m`.
pub open spec fn apply_ops(m: Map<i64, Seq<u8>>, ops: Seq<WriteOp>) -> Map<i64, Seq<u8>>
    decreases ops.len(),
{
    if ops.len() == 0 {
        m
    } else {
        apply_op(apply_ops(m, ops.drop_last()), ops.last())
    }
}

/// What a get of `k` answers after `ops` on `m`, read off the last write of
/// `k`: its text for a set, nothing for a remove, and the answer on `m`
/// when no write touches `k`.
pub open spec fn latest_answer(m: Map<i64, Seq<u8>>, ops: Seq<WriteOp>, k: i64) -> Option<
    Seq<char>,
>
    decreases ops.len(),
{
    if ops.len() == 0 {
        lookup(m, k)
    } else {
        match ops.last() {
            WriteOp::Put { key, value } => if key == k {
                Some(value)
            } else {
                latest_answer(m, ops.drop_last(), k)
            },
            WriteOp::Delete { key } => if key == k {
                None
            } else {
                latest_answer(m, ops.drop_last(), k)
            },
        }
    }
}

/// After any run of sets and removes, a get returns the text of the most
/// recent set of the key, or nothing when its most recent write removed it
/// or no write touched it on a store that lacked it.
pub proof fn lemma_get_after_writes(m: Map<i64, Seq<u8>>, ops: Seq<WriteOp>, k: i64)
    ensures
        lookup(apply_ops(m, ops), k) == latest_answer(m, ops, k),
    decreases ops.len(),
{
    if ops.len() > 0 {
        lemma_get_after_writes(m, ops.drop_last(), k);
        match ops.last() {
            WriteOp::Put { key, value } => {
                lemma_text_round_trip(value);
            },
            WriteOp::Delete { key } => {},
        }
    }
}

/// A get right after a set returns the text that was set.
pub proof fn lemma_set_then_get(m: Map<i64, Seq<u8>>, k: i64, v: Seq<char>)
    ensures
        lookup(m.insert(k, encode_utf8(v)), k) == Some(v),
{
    lemma_text_round_trip(v);
}

/// A get after a set and then a remove of the same key returns nothing.
pub proof fn lemma_set_remove_then_get(m: Map<i64, Seq<u8>>, k: i64, v: Seq<char>)
    ensures
        lookup(m.insert(k, encode_utf8(v)).remove(k), k) is None,
{
}

/// Removing a key twice leaves the store as removing it once, and the
/// second remove finds nothing to return.
pub proof fn lemma_remove_twice(m: Map<i64, Seq<u8>>, k: i64)
    ensures
        m.remove(k).remove(k) == m.remove(k),
        lookup(m.remove(k), k) is None,
{
    assert(m.remove(k).remove(k) =~= m.remove(k));
}

/// After two sets of one key, a get returns the second text, and the
/// second set returns the first.
pub proof fn lemma_set_twice(m: Map<i64, Seq<u8>>, k: i64, v1: Seq<char>, v2: Seq<char>)
    ensures
        lookup(m.insert(k, encode_utf8(v1)), k) == Some(v1),
        lookup(m.insert(k, encode_utf8(v1)).insert(k, encode_utf8(v2)), k) == Some(v2),
{
    lemma_text_round_trip(v1);
    lemma_text_round_trip(v2);
}

} // verus!
