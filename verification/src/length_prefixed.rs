//! Length-prefixed binary row encoding.
//!
//! Format: `[count: u32][column_id: u32][len: u32][bytes]...`, every
//! integer a fixed four-byte little-endian field.

use vstd::prelude::*;
use vstd::slice::{slice_subrange, slice_to_vec, slice_index_get};
use vstd::utf8::{
    decode_utf8, valid_utf8, encode_utf8_decode_utf8, decode_utf8_encode_utf8,
    encode_utf8_valid_utf8,
};
use crate::bytes::{
    le32, le32_value, lemma_le32_roundtrip, lemma_le32_complete, push_le32, read_le32, push_bytes,
    bytes_to_string,
};
use crate::codec::{
    CodecError, RowEncoder, row_view, value_bytes, values_fit_u32, row_fits_u32, check_row_fits,
};

verus! {

/// Row codec with fixed four-byte little-endian headers.
#[derive(Debug, Clone, Copy, Default)]
pub struct LengthPrefixedEncoder;

/// The bytes of one `(column_id, value)` field.
pub open spec fn lp_field(p: (u32, Seq<char>)) -> Seq<u8> {
    le32(p.0) + le32(value_bytes(p.1).len() as u32) + value_bytes(p.1)
}

/// The concatenated fields of a row.
pub open spec fn lp_fields(rv: Seq<(u32, Seq<char>)>) -> Seq<u8>
    decreases rv.len(),
{
    if rv.len() == 0 {
        Seq::empty()
    } else {
        lp_field(rv[0]) + lp_fields(rv.skip(1))
    }
}

/// The complete encoding of a row: the pair count, then the fields.
pub open spec fn lp_encode(rv: Seq<(u32, Seq<char>)>) -> Seq<u8> {
    le32(rv.len() as u32) + lp_fields(rv)
}

/// Parses exactly `count` fields covering all of `s`.
pub open spec fn lp_decode_fields(s: Seq<u8>, count: nat) -> Option<Seq<(u32, Seq<char>)>>
    decreases count,
{
    if count == 0 {
        if s.len() == 0 {
            Some(Seq::empty())
        } else {
            None
        }
    } else if s.len() < 8 {
        None
    } else {
        let id = le32_value(s.subrange(0, 4));
        let len = le32_value(s.subrange(4, 8)) as int;
        if s.len() < 8 + len {
            None
        } else {
            let b = s.subrange(8, 8 + len);
            if !valid_utf8(b) {
                None
            } else {
                match lp_decode_fields(s.skip(8 + len), (count - 1) as nat) {
                    None => None,
                    Some(rest) => Some(seq![(id, decode_utf8(b))] + rest),
                }
            }
        }
    }
}

/// Parses a complete length-prefixed buffer.
pub open spec fn lp_decode(s: Seq<u8>) -> Option<Seq<(u32, Seq<char>)>> {
    if s.len() < 4 {
        None
    } else {
        lp_decode_fields(s.skip(4), le32_value(s.subrange(0, 4)) as nat)
    }
}

proof fn lemma_lp_fields_concat(a: Seq<(u32, Seq<char>)>, b: Seq<(u32, Seq<char>)>)
    ensures
        lp_fields(a + b) == lp_fields(a) + lp_fields(b),
    decreases a.len(),
{
    if a.len() == 0 {
        assert(a + b =~= b);
        assert(lp_fields(a) + lp_fields(b) =~= lp_fields(b));
    } else {
        assert((a + b).skip(1) =~= a.skip(1) + b);
        lemma_lp_fields_concat(a.skip(1), b);
        assert(lp_fields(a + b) =~= lp_fields(a) + lp_fields(b));
    }
}

/// Decoding inverts encoding, field by field.
proof fn lemma_lp_fields_roundtrip(rv: Seq<(u32, Seq<char>)>)
    requires
        values_fit_u32(rv),
    ensures
        lp_decode_fields(lp_fields(rv), rv.len()) == Some(rv),
    decreases rv.len(),
{
    broadcast use encode_utf8_valid_utf8, encode_utf8_decode_utf8;

    if rv.len() > 0 {
        let s = lp_fields(rv);
        let p = rv[0];
        let vb = value_bytes(p.1);
        let len = vb.len() as int;
        assert(s.subrange(0, 4) =~= le32(p.0));
        assert(s.subrange(4, 8) =~= le32(len as u32));
        lemma_le32_roundtrip(p.0);
        lemma_le32_roundtrip(len as u32);
        assert(s.subrange(8, 8 + len) =~= vb);
        assert(s.skip(8 + len) =~= lp_fields(rv.skip(1)));
        assert(values_fit_u32(rv.skip(1)));
        lemma_lp_fields_roundtrip(rv.skip(1));
        assert(seq![(p.0, p.1)] + rv.skip(1) =~= rv);
    }
}

/// Whatever the field parser accepts is exactly the encoding of what it
/// returns.
#[verifier::rlimit(30)]
proof fn lemma_lp_decode_fields_sound(s: Seq<u8>, count: nat)
    ensures
        lp_decode_fields(s, count) matches Some(rv) ==> rv.len() == count && s == lp_fields(rv)
            && values_fit_u32(rv),
    decreases count,
{
    if count > 0 && lp_decode_fields(s, count) is Some {
        let id = le32_value(s.subrange(0, 4));
        let len = le32_value(s.subrange(4, 8)) as int;
        let b = s.subrange(8, 8 + len);
        decode_utf8_encode_utf8(b);
        lemma_lp_decode_fields_sound(s.skip(8 + len), (count - 1) as nat);
        let rest = lp_decode_fields(s.skip(8 + len), (count - 1) as nat)->Some_0;
        let rv = seq![(id, decode_utf8(b))] + rest;
        assert(rv.skip(1) =~= rest);
        assert(rv[0] == (id, decode_utf8(b)));
        assert(value_bytes(rv[0].1) == b);
        assert(b.len() == len);
        lemma_le32_complete(s.subrange(0, 4));
        lemma_le32_complete(s.subrange(4, 8));
        assert(lp_field(rv[0]) == le32(id) + le32(len as u32) + b);
        assert(lp_fields(rv) == lp_field(rv[0]) + lp_fields(rest));
        assert(s =~= le32(id) + le32(len as u32) + b + s.skip(8 + len)) by {
            assert(le32(id) =~= s.subrange(0, 4));
            assert(le32(len as u32) =~= s.subrange(4, 8));
            assert(s =~= s.subrange(0, 4) + s.subrange(4, 8) + b + s.skip(8 + len));
        }
        assert(s == lp_fields(rv));
        assert forall|i: int| 0 <= i < rv.len() implies (#[trigger] value_bytes(
            rv[i].1,
        )).len() <= u32::MAX by {
            if i > 0 {
                assert(value_bytes(rest[i - 1].1).len() <= u32::MAX);
            }
        }
    }
}

/// Decoding inverts encoding for every representable row.
pub proof fn lemma_lp_roundtrip(rv: Seq<(u32, Seq<char>)>)
    requires
        row_fits_u32(rv),
    ensures
        lp_decode(lp_encode(rv)) == Some(rv),
{
    let s = lp_encode(rv);
    assert(s.subrange(0, 4) =~= le32(rv.len() as u32));
    lemma_le32_roundtrip(rv.len() as u32);
    assert(s.skip(4) =~= lp_fields(rv));
    lemma_lp_fields_roundtrip(rv);
}

/// A buffer the decoder accepts is exactly the encoding of the returned
/// row.
pub proof fn lemma_lp_sound(s: Seq<u8>)
    ensures
        lp_decode(s) matches Some(rv) ==> s == lp_encode(rv) && row_fits_u32(rv),
{
    if s.len() >= 4 && lp_decode(s) is Some {
        let count = le32_value(s.subrange(0, 4));
        lemma_lp_decode_fields_sound(s.skip(4), count as nat);
        let rv = lp_decode(s)->Some_0;
        lemma_le32_complete(s.subrange(0, 4));
        assert(s =~= s.subrange(0, 4) + s.skip(4));
        assert(s == lp_encode(rv));
    }
}

/// Parses a complete length-prefixed buffer, strictly.
fn lp_decode_exec(data: &[u8]) -> (r: Result<Vec<(u32, String)>, CodecError>)
    ensures
        match lp_decode(data@) {
            Some(rv) => r matches Ok(out) && row_view(out@) == rv,
            None => r == Err::<Vec<(u32, String)>, CodecError>(CodecError::MalformedInput),
        },
{
    broadcast use encode_utf8_decode_utf8;

    if data.len() < 4 {
        return Err(CodecError::MalformedInput);
    }
    let count = read_le32(data, 0);
    let mut out: Vec<(u32, String)> = Vec::new();
    let mut k: u32 = 0;
    let mut offset: usize = 4;
    proof {
        assert(row_view(out@) + lp_decode_fields(data@.skip(4), count as nat)->Some_0 =~= lp_decode_fields(
            data@.skip(4),
            count as nat,
        )->Some_0);
    }
    while k < count
        invariant
            4 <= offset <= data@.len(),
            k <= count,
            out@.len() == k,
            count == le32_value(data@.subrange(0, 4)),
            data@.len() >= 4,
            match lp_decode_fields(data@.skip(offset as int), (count - k) as nat) {
                None => lp_decode_fields(data@.skip(4), count as nat) is None,
                Some(rest) => lp_decode_fields(data@.skip(4), count as nat) == Some(
                    row_view(out@) + rest,
                ),
            },
        decreases count - k,
    {
        let ghost s = data@.skip(offset as int);
        if data.len() - offset < 8 {
            return Err(CodecError::MalformedInput);
        }
        let id = read_le32(data, offset);
        let len32 = read_le32(data, offset + 4);
        let len = len32 as usize;
        proof {
            assert(s.subrange(0, 4) =~= data@.subrange(offset as int, offset as int + 4));
            assert(s.subrange(4, 8) =~= data@.subrange(offset as int + 4, offset as int + 8));
        }
        if data.len() - (offset + 8) < len {
            return Err(CodecError::MalformedInput);
        }
        let vb = slice_to_vec(slice_subrange(data, offset + 8, offset + 8 + len));
        proof {
            assert(s.subrange(8, 8 + len as int) =~= data@.subrange(
                offset as int + 8,
                offset as int + 8 + len as int,
            ));
        }
        match bytes_to_string(vb) {
            None => {
                return Err(CodecError::MalformedInput);
            },
            Some(val) => {
                proof {
                    encode_utf8_decode_utf8(val@);
                    assert(decode_utf8(s.subrange(8, 8 + len as int)) == val@);
                    assert(s.skip(8 + len as int) =~= data@.skip(offset as int + 8 + len as int));
                    let rest0 = lp_decode_fields(
                        data@.skip(offset as int + 8 + len as int),
                        (count - k - 1) as nat,
                    );
                    if rest0 is Some {
                        assert(row_view(out@.push((id, val))) =~= row_view(out@).push(
                            (id, val@),
                        ));
                        assert(row_view(out@) + (seq![(id, val@)] + rest0->Some_0) =~= row_view(
                            out@.push((id, val)),
                        ) + rest0->Some_0);
                    }
                }
                out.push((id, val));
                offset = offset + 8 + len;
                k = k + 1;
            },
        }
    }
    if offset != data.len() {
        return Err(CodecError::MalformedInput);
    }
    proof {
        assert(data@.skip(offset as int).len() == 0);
        assert(row_view(out@) + Seq::<(u32, Seq<char>)>::empty() =~= row_view(out@));
    }
    Ok(out)
}

impl RowEncoder for LengthPrefixedEncoder {
    open spec fn spec_name(&self) -> Seq<char> {
        "length_prefixed"@
    }

    open spec fn encodable(&self, rv: Seq<(u32, Seq<char>)>) -> bool {
        row_fits_u32(rv)
    }

    open spec fn spec_encode(&self, rv: Seq<(u32, Seq<char>)>) -> Seq<u8> {
        lp_encode(rv)
    }

    fn name(&self) -> (r: &'static str) {
        "length_prefixed"
    }

    fn check_encodable(&self, row: &[(u32, String)]) -> (b: bool) {
        check_row_fits(row)
    }

    fn encode(&self, buffer: &mut Vec<u8>, row: &[(u32, String)]) {
        let ghost rv = row_view(row@);
        let ghost prior = buffer@;
        push_le32(buffer, row.len() as u32);
        let mut k: usize = 0;
        proof {
            assert(lp_fields(rv.take(0)) =~= Seq::<u8>::empty());
            assert(buffer@ =~= prior + le32(rv.len() as u32) + lp_fields(rv.take(0)));
        }
        while k < row.len()
            invariant
                k <= row@.len(),
                rv == row_view(row@),
                row_fits_u32(rv),
                buffer@ == prior + le32(rv.len() as u32) + lp_fields(rv.take(k as int)),
            decreases row@.len() - k,
        {
            let pair = slice_index_get(row, k);
            push_le32(buffer, pair.0);
            let vb: &[u8] = pair.1.as_str().as_bytes();
            proof {
                assert(value_bytes(rv[k as int].1).len() <= u32::MAX);
            }
            push_le32(buffer, vb.len() as u32);
            push_bytes(buffer, vb);
            proof {
                lemma_lp_fields_concat(rv.take(k as int), seq![rv[k as int]]);
                assert(rv.take(k as int + 1) =~= rv.take(k as int) + seq![rv[k as int]]);
                assert(seq![rv[k as int]].skip(1) =~= Seq::<(u32, Seq<char>)>::empty());
                assert(lp_fields(Seq::<(u32, Seq<char>)>::empty()) =~= Seq::<u8>::empty());
                assert(lp_fields(seq![rv[k as int]]) =~= lp_field(rv[k as int]));
                assert(buffer@ =~= prior + le32(rv.len() as u32) + lp_fields(
                    rv.take(k as int + 1),
                ));
            }
            k = k + 1;
        }
        proof {
            assert(rv.take(rv.len() as int) =~= rv);
            assert(buffer@ =~= prior + lp_encode(rv));
        }
    }

    fn decode(&self, data: &[u8]) -> (r: Result<Vec<(u32, String)>, CodecError>) {
        let r = lp_decode_exec(data);
        proof {
            lemma_lp_sound(data@);
            assert forall|rv: Seq<(u32, Seq<char>)>|
                row_fits_u32(rv) && data@ == lp_encode(rv) implies (r matches Ok(out) && row_view(
                out@,
            ) == rv) by {
                lemma_lp_roundtrip(rv);
            }
        }
        r
    }
}

} // verus!
