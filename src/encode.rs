use vstd::prelude::*;

use byteorder::ByteOrder;
use lindera_core::word_entry::{WordEntry, WordId};

use crate::text::views_of;

verus! {

/// The `k` low bytes of `n`, least significant first.
pub open spec fn le_bytes(n: nat, k: nat) -> Seq<u8>
    decreases k,
{
    if k == 0 {
        Seq::empty()
    } else {
        seq![(n % 256) as u8] + le_bytes(n / 256, (k - 1) as nat)
    }
}

/// The number that little-endian bytes stand for.
pub open spec fn le_value(b: Seq<u8>) -> nat
    decreases b.len(),
{
    if b.len() == 0 {
        0
    } else {
        b[0] as nat + 256 * le_value(b.drop_first())
    }
}

pub open spec fn le_u16(n: u16) -> Seq<u8> {
    le_bytes(n as nat, 2)
}

pub open spec fn le_i16(n: i16) -> Seq<u8> {
    le_bytes((if n < 0 { n + 0x1_0000 } else { n as int }) as nat, 2)
}

pub open spec fn le_u32(n: u32) -> Seq<u8> {
    le_bytes(n as nat, 4)
}

pub open spec fn le_u64(n: nat) -> Seq<u8> {
    le_bytes(n, 8)
}

/// Byte strings one after another, each preceded by its length.
pub open spec fn framed_strings(fields: Seq<Seq<u8>>) -> Seq<u8>
    decreases fields.len(),
{
    if fields.len() == 0 {
        Seq::empty()
    } else {
        framed_strings(fields.drop_last()) + le_u64(fields.last().len()) + fields.last()
    }
}

/// A sequence of byte strings in bincode's default encoding: the count as a
/// little-endian `u64`, then each string as its length (`u64`) and its bytes.
pub open spec fn bincode_strings(fields: Seq<Seq<u8>>) -> Seq<u8> {
    le_u64(fields.len()) + framed_strings(fields)
}

/// The low 16 bits of `n`, which is what `n as u16` keeps.
pub open spec fn low_u16(n: u32) -> u16 {
    (n % 0x1_0000) as u16
}

/// The low 16 bits of `n` read as two's complement, which is what
/// `n as i16` keeps (adding 2^31, a multiple of 2^16, makes the value
/// non-negative without changing those bits).
pub open spec fn low_i16(n: i32) -> i16 {
    let m = (n + 0x8000_0000) % 0x1_0000;
    (if m >= 0x8000 { m - 0x1_0000 } else { m }) as i16
}

pub fn truncate_u16(n: u32) -> (r: u16)
    ensures
        r == low_u16(n),
{
    (n % 0x1_0000) as u16
}

pub fn truncate_i16(n: i32) -> (r: i16)
    ensures
        r == low_i16(n),
{
    let w: u64 = (n as i64 + 0x8000_0000) as u64;
    let m: u64 = w % 0x1_0000;
    if m >= 0x8000 {
        (m as i64 - 0x1_0000) as i16
    } else {
        m as i16
    }
}

/// The fixed-width record of one dictionary entry.
pub open spec fn entry_bytes(word_id: u32, word_cost: i16, cost_id: u16) -> Seq<u8> {
    le_u32(word_id) + le_i16(word_cost) + le_u16(cost_id)
}

/// Relies on byteorder's `LittleEndian::write_u32`: the four bytes of `n`,
/// least significant first.
#[verifier::external_body]
pub(crate) fn u32_le_bytes(n: u32) -> (r: Vec<u8>)
    ensures
        r@ == le_u32(n),
{
    let mut buf = vec![0u8; 4];
    byteorder::LittleEndian::write_u32(&mut buf, n);
    buf
}

/// Relies on byteorder's `LittleEndian::write_i16`: the two bytes of the
/// two's complement of `n`, least significant first.
#[verifier::external_body]
pub(crate) fn i16_le_bytes(n: i16) -> (r: Vec<u8>)
    ensures
        r@ == le_i16(n),
{
    let mut buf = vec![0u8; 2];
    byteorder::LittleEndian::write_i16(&mut buf, n);
    buf
}

/// Relies on lindera_core's `WordEntry::serialize`, which writes the word id
/// (`u32`), the word cost (`i16`) and the cost id (`u16`), each little-endian.
/// Its only errors are those of the writer, and a `Vec` accepts every write.
#[verifier::external_body]
pub(crate) fn entry_record(word_id: u32, word_cost: i16, cost_id: u16) -> (r: Vec<u8>)
    ensures
        r@ == entry_bytes(word_id, word_cost, cost_id),
{
    let entry = WordEntry { word_id: WordId(word_id, true), word_cost, cost_id };
    let mut buf: Vec<u8> = Vec::with_capacity(WordEntry::SERIALIZED_LEN);
    match entry.serialize(&mut buf) {
        Ok(()) => buf,
        Err(_) => Vec::new(),
    }
}

/// Relies on `bincode::serialize` (fixed-width integers, little-endian, no
/// size limit): a `Vec` is its length as `u64` and then its elements, and a
/// byte is one byte, so a vector of byte strings encodes exactly as the same
/// vector of `String`s. With no size limit and a length known for every
/// sequence, this encoding has no error.
#[verifier::external_body]
pub(crate) fn encode_strings(fields: &Vec<Vec<u8>>) -> (r: Vec<u8>)
    ensures
        r@ == bincode_strings(views_of(fields@)),
{
    match bincode::serialize(fields) {
        Ok(b) => b,
        Err(_) => Vec::new(),
    }
}

} // verus!
