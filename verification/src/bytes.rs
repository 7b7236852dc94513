//! Little-endian 32-bit integer fields and the bridge between byte
//! buffers and `String` values.

use vstd::prelude::*;
use vstd::arithmetic::div_mod::lemma_fundamental_div_mod_converse;
use vstd::utf8::{encode_utf8, valid_utf8};

verus! {

/// The four little-endian bytes of `v`.
pub open spec fn le32(v: u32) -> Seq<u8> {
    seq![
        (v % 256) as u8,
        ((v / 256) % 256) as u8,
        ((v / 0x1_0000) % 256) as u8,
        ((v / 0x100_0000) % 256) as u8,
    ]
}

/// The value spelled by four little-endian bytes.
pub open spec fn le32_value(b: Seq<u8>) -> u32
    recommends
        b.len() == 4,
{
    (b[0] + b[1] * 256 + b[2] * 0x1_0000 + b[3] * 0x100_0000) as u32
}

/// Reading back the bytes of a value gives the value.
pub proof fn lemma_le32_roundtrip(v: u32)
    ensures
        le32_value(le32(v)) == v,
{
}

/// Any four bytes are exactly the little-endian bytes of their value.
pub proof fn lemma_le32_complete(b: Seq<u8>)
    requires
        b.len() == 4,
    ensures
        le32(le32_value(b)) =~= b,
{
    let v: int = b[0] + b[1] * 256 + b[2] * 0x1_0000 + b[3] * 0x100_0000;
    lemma_fundamental_div_mod_converse(v, 256, b[1] + b[2] * 256 + b[3] * 0x1_0000, b[0] as int);
    lemma_fundamental_div_mod_converse(v / 256, 256, b[2] + b[3] * 256, b[1] as int);
    lemma_fundamental_div_mod_converse(v / 0x1_0000, 256, b[3] as int, b[2] as int);
    lemma_fundamental_div_mod_converse(v / 0x100_0000, 256, 0, b[3] as int);
}

/// Appends the four little-endian bytes of `v` to `buffer`.
pub fn push_le32(buffer: &mut Vec<u8>, v: u32)
    ensures
        final(buffer)@ =~= old(buffer)@ + le32(v),
{
    buffer.push((v % 256) as u8);
    buffer.push(((v / 256) % 256) as u8);
    buffer.push(((v / 0x1_0000) % 256) as u8);
    buffer.push(((v / 0x100_0000) % 256) as u8);
}

/// Reads the little-endian `u32` at `offset`.
pub fn read_le32(data: &[u8], offset: usize) -> (v: u32)
    requires
        offset + 4 <= data@.len(),
    ensures
        v == le32_value(data@.subrange(offset as int, offset as int + 4)),
        data@.subrange(offset as int, offset as int + 4) =~= le32(v),
{
    let v: u32 = data[offset] as u32 + data[offset + 1] as u32 * 256 + data[offset + 2] as u32
        * 0x1_0000 + data[offset + 3] as u32 * 0x100_0000;
    proof {
        lemma_le32_complete(data@.subrange(offset as int, offset as int + 4));
    }
    v
}

/// `n` zero bytes.
pub open spec fn zero_bytes(n: nat) -> Seq<u8> {
    Seq::new(n, |i: int| 0u8)
}

/// The four big-endian bytes of `v`.
pub open spec fn be32(v: u32) -> Seq<u8> {
    seq![
        ((v / 0x100_0000) % 256) as u8,
        ((v / 0x1_0000) % 256) as u8,
        ((v / 256) % 256) as u8,
        (v % 256) as u8,
    ]
}

/// The value spelled by four big-endian bytes.
pub open spec fn be32_value(b: Seq<u8>) -> u32
    recommends
        b.len() == 4,
{
    (b[0] * 0x100_0000 + b[1] * 0x1_0000 + b[2] * 256 + b[3]) as u32
}

/// Reading back the big-endian bytes of a value gives the value.
pub proof fn lemma_be32_roundtrip(v: u32)
    ensures
        be32_value(be32(v)) == v,
{
}

/// Any four bytes are exactly the big-endian bytes of their value.
pub proof fn lemma_be32_complete(b: Seq<u8>)
    requires
        b.len() == 4,
    ensures
        be32(be32_value(b)) =~= b,
{
    let v: int = b[0] * 0x100_0000 + b[1] * 0x1_0000 + b[2] * 256 + b[3];
    lemma_fundamental_div_mod_converse(v, 256, b[0] * 0x1_0000 + b[1] * 256 + b[2], b[3] as int);
    lemma_fundamental_div_mod_converse(v / 256, 256, b[0] * 256 + b[1], b[2] as int);
    lemma_fundamental_div_mod_converse(v / 0x1_0000, 256, b[0] as int, b[1] as int);
    lemma_fundamental_div_mod_converse(v / 0x100_0000, 256, 0, b[0] as int);
}

/// Appends a byte slice to `buffer`.
pub fn push_bytes(buffer: &mut Vec<u8>, data: &[u8])
    ensures
        final(buffer)@ =~= old(buffer)@ + data@,
{
    buffer.extend_from_slice(data);
    proof {
        assert(buffer@ =~= old(buffer)@ + data@);
    }
}

/// Decides whether the four bytes at `offset` spell `expected`.
pub fn check_word(data: &[u8], offset: usize, expected: u32) -> (b: bool)
    requires
        offset + 4 <= data@.len(),
    ensures
        b == (data@.subrange(offset as int, offset as int + 4) == le32(expected)),
{
    let v = read_le32(data, offset);
    proof {
        lemma_le32_roundtrip(expected);
        lemma_le32_roundtrip(v);
    }
    v == expected
}

/// Relies on `String::from_utf8`: it succeeds exactly on valid UTF-8
/// input and returns the string those bytes spell.
#[verifier::external_body]
pub(crate) fn bytes_to_string(v: Vec<u8>) -> (r: Option<String>)
    ensures
        match r {
            Some(s) => valid_utf8(v@) && encode_utf8(s@) == v@,
            None => !valid_utf8(v@),
        },
{
    String::from_utf8(v).ok()
}

} // verus!
