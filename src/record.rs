//! The on-disk record format: every integer is little-endian.
//!
//! A set record is a tag byte `0`, the key (8 bytes), the value length
//! (8 bytes) and the value. A remove record is a tag byte `1` and the key.

use byteorder::{ByteOrder, LittleEndian};

use crate::error::KvError;
use vstd::prelude::*;

verus! {

/// Bytes before the payload of a set record: tag, key, value length.
pub const SET_HEADER_LEN: u64 = 17;

/// Length of a remove record: tag and key.
pub const REMOVE_RECORD_LEN: u64 = 9;

/// `256` raised to `w`.
pub open spec fn pow256(w: nat) -> nat
    decreases w,
{
    if w == 0 {
        1
    } else {
        256 * pow256((w - 1) as nat)
    }
}

/// The number that the little-endian bytes `s` encode.
pub open spec fn le_value(s: Seq<u8>) -> nat
    decreases s.len(),
{
    if s.len() == 0 {
        0
    } else {
        s[0] as nat + 256 * le_value(s.drop_first())
    }
}

/// The `w` low bytes of `n`, least significant first.
pub open spec fn le_bytes(n: nat, w: nat) -> Seq<u8>
    decreases w,
{
    if w == 0 {
        Seq::empty()
    } else {
        seq![(n % 256) as u8] + le_bytes(n / 256, (w - 1) as nat)
    }
}

/// The two's complement bit pattern of `k`, read as an unsigned number.
pub open spec fn key_bits(k: i64) -> nat {
    if k >= 0 {
        k as nat
    } else {
        (k + 0x1_0000_0000_0000_0000) as nat
    }
}

/// The signed number whose two's complement bit pattern is `n`.
pub open spec fn key_of_bits(n: nat) -> int {
    if n < 0x8000_0000_0000_0000 {
        n as int
    } else {
        n - 0x1_0000_0000_0000_0000
    }
}

/// The eight bytes that encode a key.
pub open spec fn key_bytes(k: i64) -> Seq<u8> {
    le_bytes(key_bits(k), 8)
}

/// The eight bytes that encode a length.
pub open spec fn len_bytes(n: nat) -> Seq<u8> {
    le_bytes(n, 8)
}

/// The bytes of a set record for `key` and `value`.
pub open spec fn set_record(key: i64, value: Seq<u8>) -> Seq<u8> {
    seq![0u8] + key_bytes(key) + len_bytes(value.len()) + value
}

/// The bytes of a remove record for `key`.
pub open spec fn remove_record(key: i64) -> Seq<u8> {
    seq![1u8] + key_bytes(key)
}

pub proof fn lemma_le_bytes_len(n: nat, w: nat)
    ensures
        le_bytes(n, w).len() == w,
    decreases w,
{
    if w > 0 {
        lemma_le_bytes_len(n / 256, (w - 1) as nat);
    }
}

pub proof fn lemma_le_round_trip(n: nat, w: nat)
    requires
        n < pow256(w),
    ensures
        le_value(le_bytes(n, w)) == n,
    decreases w,
{
    if w > 0 {
        let p = pow256((w - 1) as nat);
        assert(n / 256 < p) by (nonlinear_arith)
            requires
                n < 256 * p,
        ;
        lemma_le_round_trip(n / 256, (w - 1) as nat);
        let s = le_bytes(n, w);
        assert(s.drop_first() =~= le_bytes(n / 256, (w - 1) as nat));
        assert(n == n % 256 + 256 * (n / 256));
    }
}

pub proof fn lemma_pow256_8()
    ensures
        pow256(8) == 0x1_0000_0000_0000_0000,
{
    reveal_with_fuel(pow256, 9);
}

/// Decoding the bytes of a key gives the key back.
pub proof fn lemma_key_round_trip(k: i64)
    ensures
        key_bytes(k).len() == 8,
        key_of_bits(le_value(key_bytes(k))) == k as int,
{
    lemma_pow256_8();
    lemma_le_bytes_len(key_bits(k), 8);
    lemma_le_round_trip(key_bits(k), 8);
}

/// Decoding the bytes of a length gives the length back.
pub proof fn lemma_len_round_trip(n: u64)
    ensures
        len_bytes(n as nat).len() == 8,
        le_value(len_bytes(n as nat)) == n as nat,
{
    lemma_pow256_8();
    lemma_le_bytes_len(n as nat, 8);
    lemma_le_round_trip(n as nat, 8);
}

/// The kind of a log record, from its tag byte.
#[derive(Clone, Copy, Debug, PartialEq, Eq, Structural)]
pub enum OpType {
    SetValue,
    Remove,
}

/// The tag byte that a record of kind `op` starts with.
pub open spec fn op_tag(op: OpType) -> u8 {
    match op {
        OpType::SetValue => 0u8,
        OpType::Remove => 1u8,
    }
}

impl OpType {
    /// Reads a tag byte: `0` is a set, `1` a remove, any other byte is
    /// refused.
    pub fn from_u8(value: u8) -> (r: Result<OpType, KvError>)
        ensures
            r matches Ok(op) ==> op_tag(op) == value,
            r matches Err(e) ==> e is InvalidFormat,
            r is Err <==> value > 1,
    {
        match value {
            0 => Ok(OpType::SetValue),
            1 => Ok(OpType::Remove),
            _ => Err(KvError::InvalidFormat),
        }
    }
}

/// Relies on byteorder's `LittleEndian::write_u64`: it stores `n` in eight
/// bytes, least significant first.
#[verifier::external_body]
fn u64_to_le(n: u64) -> (r: Vec<u8>)
    ensures
        r@ == le_bytes(n as nat, 8),
{
    let mut buf = vec![0u8; 8];
    LittleEndian::write_u64(&mut buf, n);
    buf
}

/// Relies on byteorder's `LittleEndian::write_i64`: it stores the two's
/// complement bits of `n` in eight bytes, least significant first.
#[verifier::external_body]
fn i64_to_le(n: i64) -> (r: Vec<u8>)
    ensures
        r@ == key_bytes(n),
{
    let mut buf = vec![0u8; 8];
    LittleEndian::write_i64(&mut buf, n);
    buf
}

/// Relies on byteorder's `LittleEndian::read_u64`: it reads the first eight
/// bytes of `buf` as an unsigned number, least significant first. It panics
/// on a shorter buffer.
#[verifier::external_body]
pub(crate) fn u64_from_le(buf: &[u8]) -> (r: u64)
    requires
        buf@.len() >= 8,
    ensures
        r as nat == le_value(buf@.subrange(0, 8)),
{
    LittleEndian::read_u64(buf)
}

/// Relies on byteorder's `LittleEndian::read_i64`: it reads the first eight
/// bytes of `buf` as a two's complement number, least significant first. It
/// panics on a shorter buffer.
#[verifier::external_body]
pub(crate) fn i64_from_le(buf: &[u8]) -> (r: i64)
    requires
        buf@.len() >= 8,
    ensures
        r as int == key_of_bits(le_value(buf@.subrange(0, 8))),
{
    LittleEndian::read_i64(buf)
}

fn append_bytes(out: &mut Vec<u8>, bytes: &[u8])
    ensures
        final(out)@ == old(out)@ + bytes@,
{
    let mut i: usize = 0;
    while i < bytes.len()
        invariant
            i <= bytes@.len(),
            out@ == old(out)@ + bytes@.subrange(0, i as int),
        decreases bytes@.len() - i,
    {
        out.push(bytes[i]);
        i = i + 1;
        assert(bytes@.subrange(0, i as int) =~= bytes@.subrange(0, i - 1) + seq![bytes@[i - 1]]);
    }
    assert(bytes@.subrange(0, i as int) =~= bytes@);
}

/// Appends a set record for `key` and `value` to `out`.
pub fn write_set_record(out: &mut Vec<u8>, key: i64, value: &[u8])
    ensures
        final(out)@ == old(out)@ + set_record(key, value@),
{
    out.push(0u8);
    let k = i64_to_le(key);
    append_bytes(out, k.as_slice());
    let n = u64_to_le(value.len() as u64);
    append_bytes(out, n.as_slice());
    append_bytes(out, value);
    assert(final(out)@ =~= old(out)@ + set_record(key, value@));
}

/// Appends a remove record for `key` to `out`.
pub fn write_remove_record(out: &mut Vec<u8>, key: i64)
    ensures
        final(out)@ == old(out)@ + remove_record(key),
{
    out.push(1u8);
    let k = i64_to_le(key);
    append_bytes(out, k.as_slice());
    assert(final(out)@ =~= old(out)@ + remove_record(key));
}

} // verus!
