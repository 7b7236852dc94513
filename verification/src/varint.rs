//! LEB128 variable-length integers: seven value bits per byte, low group
//! first, with the high bit of every byte but the last set as a
//! continuation marker.

use vstd::prelude::*;
use vstd::arithmetic::div_mod::{lemma_fundamental_div_mod, lemma_fundamental_div_mod_converse};
use vstd::slice::{slice_subrange, slice_to_vec, slice_index_get};
use vstd::utf8::{
    decode_utf8, valid_utf8, encode_utf8_decode_utf8, decode_utf8_encode_utf8,
    encode_utf8_valid_utf8,
};
use crate::bytes::{push_bytes, bytes_to_string};
use crate::codec::{
    CodecError, RowEncoder, row_view, value_bytes, values_fit_u32, row_fits_u32, check_row_fits,
};

verus! {

/// `128^n`.
pub open spec fn pow128(n: nat) -> nat
    decreases n,
{
    if n == 0 {
        1
    } else {
        128 * pow128((n - 1) as nat)
    }
}

proof fn lemma_pow128_bounds()
    ensures
        pow128(0) == 1,
        pow128(1) == 128,
        pow128(2) == 0x4000,
        pow128(3) == 0x20_0000,
        pow128(4) == 0x1000_0000,
        pow128(5) == 0x8_0000_0000,
{
    assert(pow128(0) == 1);
    assert(pow128(1) == 128);
    assert(pow128(2) == 0x4000);
    assert(pow128(3) == 0x20_0000);
    assert(pow128(4) == 0x1000_0000);
    assert(pow128(5) == 0x8_0000_0000);
}

/// The LEB128 encoding of `v`.
pub open spec fn varint_bytes(v: nat) -> Seq<u8>
    decreases v,
{
    if v < 128 {
        seq![v as u8]
    } else {
        seq![(v % 128 + 128) as u8] + varint_bytes(v / 128)
    }
}

/// Reads one LEB128 value from the front of `data`: the raw value and the
/// count of bytes consumed.  `None` on a missing terminator byte and on a
/// non-minimal encoding (a continuation byte leading into value zero).
pub open spec fn varint_value(data: Seq<u8>) -> Option<(nat, int)>
    decreases data.len(),
{
    if data.len() == 0 {
        None
    } else if data[0] < 128 {
        Some((data[0] as nat, 1))
    } else {
        match varint_value(data.skip(1)) {
            None => None,
            Some((w, n)) => if w == 0 {
                None
            } else {
                Some(((data[0] - 128) as nat + 128 * w, n + 1))
            },
        }
    }
}

/// Reads one LEB128 `u32` from the front of `data`; `None` also when the
/// raw value does not fit in 32 bits.
pub open spec fn varint_decode(data: Seq<u8>) -> Option<(u32, int)> {
    match varint_value(data) {
        None => None,
        Some((v, n)) => if v <= u32::MAX {
            Some((v as u32, n))
        } else {
            None
        },
    }
}

/// The encoding of any value is read back exactly, whatever follows it.
pub proof fn lemma_varint_roundtrip(v: nat, rest: Seq<u8>)
    ensures
        varint_value(varint_bytes(v) + rest) == Some((v, varint_bytes(v).len() as int)),
    decreases v,
{
    let data = varint_bytes(v) + rest;
    if v < 128 {
        assert(data[0] == v as u8);
    } else {
        let b: u8 = (v % 128 + 128) as u8;
        assert(data[0] == b);
        assert(data.skip(1) =~= varint_bytes(v / 128) + rest);
        lemma_varint_roundtrip(v / 128, rest);
        lemma_fundamental_div_mod(v as int, 128);
        assert((b - 128) as nat + 128 * (v / 128) == v);
    }
}

/// Whatever `varint_value` reads, the bytes it consumed are exactly the
/// encoding of the value it returned.
pub proof fn lemma_varint_value_sound(data: Seq<u8>)
    ensures
        varint_value(data) matches Some((v, n)) ==> 1 <= n <= data.len() && data.subrange(0, n)
            =~= varint_bytes(v),
    decreases data.len(),
{
    if data.len() > 0 && data[0] >= 128 {
        lemma_varint_value_sound(data.skip(1));
        if let Some((w, n)) = varint_value(data.skip(1)) {
            if w != 0 {
                let v = (data[0] - 128) as nat + 128 * w;
                assert(128 * w >= 128 * 1) by (nonlinear_arith)
                    requires
                        w >= 1,
                ;
                lemma_fundamental_div_mod_converse(v as int, 128, w as int, (data[0] - 128) as int);
                assert(varint_bytes(v) =~= seq![data[0]] + varint_bytes(w));
                assert(data.subrange(0, n + 1) =~= seq![data[0]] + data.skip(1).subrange(0, n));
            }
        }
    }
}

/// Appends the LEB128 encoding of `value` to `buffer`.
pub fn encode_varint(buffer: &mut Vec<u8>, value: u32)
    ensures
        final(buffer)@ == old(buffer)@ + varint_bytes(value as nat),
{
    let mut v: u32 = value;
    while v >= 128
        invariant
            old(buffer)@ + varint_bytes(value as nat) =~= buffer@ + varint_bytes(v as nat),
        decreases v,
    {
        buffer.push((v % 128 + 128) as u8);
        assert(varint_bytes(v as nat) =~= seq![(v % 128 + 128) as u8] + varint_bytes(
            (v / 128) as nat,
        ));
        v = v / 128;
    }
    buffer.push(v as u8);
    assert(final(buffer)@ =~= old(buffer)@ + varint_bytes(value as nat));
}

/// Reads one LEB128 `u32` from the front of `data`, returning the value
/// and the count of bytes consumed; fails exactly when `varint_decode`
/// reads nothing.
pub fn decode_varint(data: &[u8]) -> (r: Result<(u32, usize), CodecError>)
    ensures
        match varint_decode(data@) {
            Some((v, n)) => r == Ok::<(u32, usize), CodecError>((v, n as usize)),
            None => r == Err::<(u32, usize), CodecError>(CodecError::MalformedInput),
        },
{
    let mut i: usize = 0;
    let mut acc: u64 = 0;
    let mut pow: u64 = 1;
    proof {
        assert(data@.skip(0) =~= data@);
    }
    loop
        invariant
            0 <= i <= 5,
            i <= data@.len(),
            pow == pow128(i as nat),
            acc < pow,
            pow <= 0x8_0000_0000u64,
            match varint_value(data@.skip(i as int)) {
                None => varint_value(data@) is None,
                Some((w, n)) => if i > 0 && w == 0 {
                    varint_value(data@) is None
                } else {
                    varint_value(data@) == Some::<(nat, int)>((acc as nat + pow as nat * w, i + n))
                },
            },
        decreases 5 - i,
    {
        proof {
            lemma_pow128_bounds();
        }
        if i >= data.len() {
            assert(data@.skip(i as int).len() == 0);
            return Err(CodecError::MalformedInput);
        }
        if i == 5 {
            proof {
                if let Some((w, n)) = varint_value(data@.skip(5)) {
                    if w != 0 {
                        assert(pow as nat * w >= pow as nat * 1) by (nonlinear_arith)
                            requires
                                w >= 1,
                                pow >= 0,
                        ;
                        assert(acc as nat + pow as nat * w > u32::MAX);
                    }
                }
            }
            return Err(CodecError::MalformedInput);
        }
        let b: u8 = data[i];
        assert(data@.skip(i as int)[0] == b);
        if b < 128 {
            assert(varint_value(data@.skip(i as int)) == Some::<(nat, int)>((b as nat, 1)));
            if i > 0 && b == 0 {
                return Err(CodecError::MalformedInput);
            }
            assert(acc + pow * (b as u64) < pow * 128) by (nonlinear_arith)
                requires
                    acc < pow,
                    b < 128,
                    pow >= 1,
            ;
            let value: u64 = acc + pow * (b as u64);
            if value > 0xffff_ffffu64 {
                return Err(CodecError::MalformedInput);
            }
            return Ok((value as u32, i + 1));
        } else {
            assert(data@.skip(i as int).skip(1) =~= data@.skip(i as int + 1));
            proof {
                if let Some((w2, n2)) = varint_value(data@.skip(i as int + 1)) {
                    if w2 != 0 {
                        assert(acc as nat + pow as nat * ((b - 128) as nat + 128 * w2) == (acc
                            as nat + pow as nat * ((b - 128) as nat)) + (pow as nat * 128) * w2)
                            by (nonlinear_arith);
                    }
                }
            }
            assert(acc + pow * ((b - 128) as u64) < pow * 128) by (nonlinear_arith)
                requires
                    acc < pow,
                    128 <= b < 256,
                    pow >= 1,
            ;
            acc = acc + pow * ((b - 128) as u64);
            pow = pow * 128;
            i = i + 1;
        }
    }
}

/// Decoding inverts encoding for any `u32`, whatever follows.
pub proof fn lemma_varint_decode_roundtrip(v: u32, rest: Seq<u8>)
    ensures
        varint_decode(varint_bytes(v as nat) + rest) == Some(
            (v, varint_bytes(v as nat).len() as int),
        ),
{
    lemma_varint_roundtrip(v as nat, rest);
}

/// What `varint_decode` consumed is exactly the encoding of its value.
pub proof fn lemma_varint_decode_sound(data: Seq<u8>)
    ensures
        varint_decode(data) matches Some((v, n)) ==> 1 <= n <= data.len() && data.subrange(0, n)
            =~= varint_bytes(v as nat),
{
    lemma_varint_value_sound(data);
}

/// Row codec with LEB128 integer fields.
///
/// Format: `[count: varint][column_id: varint][len: varint][bytes]...`.
#[derive(Debug, Clone, Copy, Default)]
pub struct VarintEncoder;

/// The bytes of one `(column_id, value)` field.
pub open spec fn vi_field(p: (u32, Seq<char>)) -> Seq<u8> {
    varint_bytes(p.0 as nat) + varint_bytes(value_bytes(p.1).len()) + value_bytes(p.1)
}

/// The concatenated fields of a row.
pub open spec fn vi_fields(rv: Seq<(u32, Seq<char>)>) -> Seq<u8>
    decreases rv.len(),
{
    if rv.len() == 0 {
        Seq::empty()
    } else {
        vi_field(rv[0]) + vi_fields(rv.skip(1))
    }
}

/// The complete encoding of a row: the pair count, then the fields.
pub open spec fn vi_encode(rv: Seq<(u32, Seq<char>)>) -> Seq<u8> {
    varint_bytes(rv.len()) + vi_fields(rv)
}

/// Parses exactly `count` fields covering all of `s`.
pub open spec fn vi_decode_fields(s: Seq<u8>, count: nat) -> Option<Seq<(u32, Seq<char>)>>
    decreases count,
{
    if count == 0 {
        if s.len() == 0 {
            Some(Seq::empty())
        } else {
            None
        }
    } else {
        match varint_decode(s) {
            None => None,
            Some((id, n1)) => match varint_decode(s.skip(n1)) {
                None => None,
                Some((len32, n2)) => {
                    let len = len32 as int;
                    if s.len() < n1 + n2 + len {
                        None
                    } else {
                        let b = s.subrange(n1 + n2, n1 + n2 + len);
                        if !valid_utf8(b) {
                            None
                        } else {
                            match vi_decode_fields(s.skip(n1 + n2 + len), (count - 1) as nat) {
                                None => None,
                                Some(rest) => Some(seq![(id, decode_utf8(b))] + rest),
                            }
                        }
                    }
                },
            },
        }
    }
}

/// Parses a complete varint-framed buffer.
pub open spec fn vi_decode(s: Seq<u8>) -> Option<Seq<(u32, Seq<char>)>> {
    match varint_decode(s) {
        None => None,
        Some((count, n)) => vi_decode_fields(s.skip(n), count as nat),
    }
}

proof fn lemma_vi_fields_concat(a: Seq<(u32, Seq<char>)>, b: Seq<(u32, Seq<char>)>)
    ensures
        vi_fields(a + b) == vi_fields(a) + vi_fields(b),
    decreases a.len(),
{
    if a.len() == 0 {
        assert(a + b =~= b);
        assert(vi_fields(a) + vi_fields(b) =~= vi_fields(b));
    } else {
        assert((a + b).skip(1) =~= a.skip(1) + b);
        lemma_vi_fields_concat(a.skip(1), b);
        assert(vi_fields(a + b) =~= vi_fields(a) + vi_fields(b));
    }
}

/// Decoding inverts encoding, field by field.
#[verifier::rlimit(30)]
proof fn lemma_vi_fields_roundtrip(rv: Seq<(u32, Seq<char>)>)
    requires
        values_fit_u32(rv),
    ensures
        vi_decode_fields(vi_fields(rv), rv.len()) == Some(rv),
    decreases rv.len(),
{
    broadcast use encode_utf8_valid_utf8, encode_utf8_decode_utf8;

    if rv.len() > 0 {
        let s = vi_fields(rv);
        let p = rv[0];
        let vb = value_bytes(p.1);
        let len = vb.len() as int;
        let h1 = varint_bytes(p.0 as nat);
        let h2 = varint_bytes(vb.len());
        let n1 = h1.len() as int;
        let n2 = h2.len() as int;
        assert(s =~= h1 + (h2 + (vb + vi_fields(rv.skip(1)))));
        lemma_varint_decode_roundtrip(p.0, h2 + (vb + vi_fields(rv.skip(1))));
        assert(s.skip(n1) =~= h2 + (vb + vi_fields(rv.skip(1))));
        assert(vb.len() <= u32::MAX);
        assert(varint_bytes(vb.len()) == varint_bytes((vb.len() as u32) as nat));
        lemma_varint_decode_roundtrip(vb.len() as u32, vb + vi_fields(rv.skip(1)));
        assert(s.subrange(n1 + n2, n1 + n2 + len) =~= vb);
        assert(s.skip(n1 + n2 + len) =~= vi_fields(rv.skip(1)));
        assert(values_fit_u32(rv.skip(1)));
        lemma_vi_fields_roundtrip(rv.skip(1));
        assert(seq![(p.0, p.1)] + rv.skip(1) =~= rv);
    }
}

/// Whatever the field parser accepts is exactly the encoding of what it
/// returns.
#[verifier::rlimit(30)]
proof fn lemma_vi_decode_fields_sound(s: Seq<u8>, count: nat)
    ensures
        vi_decode_fields(s, count) matches Some(rv) ==> rv.len() == count && s == vi_fields(rv)
            && values_fit_u32(rv),
    decreases count,
{
    if count > 0 && vi_decode_fields(s, count) is Some {
        let (id, n1) = varint_decode(s)->Some_0;
        let (len32, n2) = varint_decode(s.skip(n1))->Some_0;
        let len = len32 as int;
        let b = s.subrange(n1 + n2, n1 + n2 + len);
        decode_utf8_encode_utf8(b);
        lemma_varint_decode_sound(s);
        lemma_varint_decode_sound(s.skip(n1));
        lemma_vi_decode_fields_sound(s.skip(n1 + n2 + len), (count - 1) as nat);
        let rest = vi_decode_fields(s.skip(n1 + n2 + len), (count - 1) as nat)->Some_0;
        let rv = seq![(id, decode_utf8(b))] + rest;
        assert(rv.skip(1) =~= rest);
        assert(rv[0] == (id, decode_utf8(b)));
        assert(value_bytes(rv[0].1) == b);
        assert(b.len() == len);
        assert(varint_bytes(value_bytes(rv[0].1).len()) == varint_bytes(len32 as nat));
        assert(vi_field(rv[0]) == varint_bytes(id as nat) + varint_bytes(len32 as nat) + b);
        assert(vi_fields(rv) == vi_field(rv[0]) + vi_fields(rest));
        assert(s =~= varint_bytes(id as nat) + varint_bytes(len32 as nat) + b + s.skip(
            n1 + n2 + len,
        )) by {
            assert(varint_bytes(id as nat) =~= s.subrange(0, n1));
            assert(varint_bytes(len32 as nat) =~= s.skip(n1).subrange(0, n2));
            assert(s.skip(n1).subrange(0, n2) =~= s.subrange(n1, n1 + n2));
            assert(s =~= s.subrange(0, n1) + s.subrange(n1, n1 + n2) + b + s.skip(n1 + n2 + len));
        }
        assert(s == vi_fields(rv));
        assert forall|i: int| 0 <= i < rv.len() implies (#[trigger] value_bytes(
            rv[i].1,
        )).len() <= u32::MAX by {
            if i > 0 {
                assert(value_bytes(rest[i - 1].1).len() <= u32::MAX);
            }
        }
    }
}

/// Decoding inverts encoding for every representable row.
pub proof fn lemma_vi_roundtrip(rv: Seq<(u32, Seq<char>)>)
    requires
        row_fits_u32(rv),
    ensures
        vi_decode(vi_encode(rv)) == Some(rv),
{
    let s = vi_encode(rv);
    assert(varint_bytes(rv.len()) == varint_bytes((rv.len() as u32) as nat));
    lemma_varint_decode_roundtrip(rv.len() as u32, vi_fields(rv));
    let n = varint_bytes(rv.len()).len() as int;
    assert(s.skip(n) =~= vi_fields(rv));
    lemma_vi_fields_roundtrip(rv);
}

/// A buffer the decoder accepts is exactly the encoding of the returned
/// row.
pub proof fn lemma_vi_sound(s: Seq<u8>)
    ensures
        vi_decode(s) matches Some(rv) ==> s == vi_encode(rv) && row_fits_u32(rv),
{
    if vi_decode(s) is Some {
        let (count, n) = varint_decode(s)->Some_0;
        lemma_varint_decode_sound(s);
        lemma_vi_decode_fields_sound(s.skip(n), count as nat);
        let rv = vi_decode(s)->Some_0;
        assert(s =~= s.subrange(0, n) + s.skip(n));
        assert(varint_bytes(rv.len()) == varint_bytes(count as nat));
        assert(s == vi_encode(rv));
    }
}

/// Parses a complete varint-framed buffer, strictly.
fn vi_decode_exec(data: &[u8]) -> (r: Result<Vec<(u32, String)>, CodecError>)
    ensures
        match vi_decode(data@) {
            Some(rv) => r matches Ok(out) && row_view(out@) == rv,
            None => r == Err::<Vec<(u32, String)>, CodecError>(CodecError::MalformedInput),
        },
{
    broadcast use encode_utf8_decode_utf8;

    let (count, hdr) = match decode_varint(data) {
        Ok(p) => p,
        Err(_) => {
            return Err(CodecError::MalformedInput);
        },
    };
    proof {
        lemma_varint_decode_sound(data@);
        let (v, n) = varint_decode(data@)->Some_0;
        assert(n <= data@.len());
        assert(data@.len() <= usize::MAX) by {
            assert(vstd::slice::spec_slice_len(data) == data@.len());
        }
        assert(hdr as int == n);
    }
    let mut out: Vec<(u32, String)> = Vec::new();
    let mut k: u32 = 0;
    let mut offset: usize = hdr;
    proof {
        assert(row_view(out@) + vi_decode_fields(data@.skip(hdr as int), count as nat)->Some_0
            =~= vi_decode_fields(data@.skip(hdr as int), count as nat)->Some_0);
    }
    while k < count
        invariant
            offset <= data@.len(),
            k <= count,
            out@.len() == k,
            varint_decode(data@) == Some::<(u32, int)>((count, hdr as int)),
            match vi_decode_fields(data@.skip(offset as int), (count - k) as nat) {
                None => vi_decode_fields(data@.skip(hdr as int), count as nat) is None,
                Some(rest) => vi_decode_fields(data@.skip(hdr as int), count as nat) == Some(
                    row_view(out@) + rest,
                ),
            },
        decreases count - k,
    {
        let ghost s = data@.skip(offset as int);
        let sub = slice_subrange(data, offset, data.len());
        let (id, n1) = match decode_varint(sub) {
            Ok(p) => p,
            Err(_) => {
                return Err(CodecError::MalformedInput);
            },
        };
        proof {
            lemma_varint_decode_sound(s);
        }
        let sub2 = slice_subrange(data, offset + n1, data.len());
        proof {
            assert(sub2@ =~= s.skip(n1 as int));
        }
        let (len32, n2) = match decode_varint(sub2) {
            Ok(p) => p,
            Err(_) => {
                return Err(CodecError::MalformedInput);
            },
        };
        proof {
            lemma_varint_decode_sound(s.skip(n1 as int));
        }
        let len = len32 as usize;
        if data.len() - (offset + n1 + n2) < len {
            return Err(CodecError::MalformedInput);
        }
        let vb = slice_to_vec(slice_subrange(data, offset + n1 + n2, offset + n1 + n2 + len));
        proof {
            assert(s.skip(n1 as int).subrange(0, n2 as int) =~= s.subrange(
                n1 as int,
                n1 as int + n2 as int,
            ));
            assert(s.subrange(n1 as int + n2 as int, n1 as int + n2 as int + len as int)
                =~= data@.subrange(
                offset as int + n1 as int + n2 as int,
                offset as int + n1 as int + n2 as int + len as int,
            ));
        }
        match bytes_to_string(vb) {
            None => {
                return Err(CodecError::MalformedInput);
            },
            Some(val) => {
                proof {
                    encode_utf8_decode_utf8(val@);
                    assert(decode_utf8(
                        s.subrange(n1 as int + n2 as int, n1 as int + n2 as int + len as int),
                    ) == val@);
                    assert(s.skip(n1 as int + n2 as int + len as int) =~= data@.skip(
                        offset as int + n1 as int + n2 as int + len as int,
                    ));
                    let rest0 = vi_decode_fields(
                        data@.skip(offset as int + n1 as int + n2 as int + len as int),
                        (count - k - 1) as nat,
                    );
                    if rest0 is Some {
                        assert(row_view(out@.push((id, val))) =~= row_view(out@).push((id, val@)));
                        assert(row_view(out@) + (seq![(id, val@)] + rest0->Some_0) =~= row_view(
                            out@.push((id, val)),
                        ) + rest0->Some_0);
                    }
                }
                out.push((id, val));
                offset = offset + n1 + n2 + len;
                k = k + 1;
            },
        }
    }
    if offset != data.len() {
        return Err(CodecError::MalformedInput);
    }
    proof {
        assert(data@.skip(offset as int).len() == 0);
        assert(row_view(out@) + Seq::<(u32, Seq<char>)>::empty() =~= row_view(out@));
    }
    Ok(out)
}

impl RowEncoder for VarintEncoder {
    open spec fn spec_name(&self) -> Seq<char> {
        "varint"@
    }

    open spec fn encodable(&self, rv: Seq<(u32, Seq<char>)>) -> bool {
        row_fits_u32(rv)
    }

    open spec fn spec_encode(&self, rv: Seq<(u32, Seq<char>)>) -> Seq<u8> {
        vi_encode(rv)
    }

    fn name(&self) -> (r: &'static str) {
        "varint"
    }

    fn check_encodable(&self, row: &[(u32, String)]) -> (b: bool) {
        check_row_fits(row)
    }

    fn encode(&self, buffer: &mut Vec<u8>, row: &[(u32, String)]) {
        let ghost rv = row_view(row@);
        let ghost prior = buffer@;
        encode_varint(buffer, row.len() as u32);
        let mut k: usize = 0;
        proof {
            assert(varint_bytes(rv.len()) == varint_bytes((rv.len() as u32) as nat));
            assert(vi_fields(rv.take(0)) =~= Seq::<u8>::empty());
            assert(buffer@ =~= prior + varint_bytes(rv.len()) + vi_fields(rv.take(0)));
        }
        while k < row.len()
            invariant
                k <= row@.len(),
                rv == row_view(row@),
                row_fits_u32(rv),
                buffer@ == prior + varint_bytes(rv.len()) + vi_fields(rv.take(k as int)),
            decreases row@.len() - k,
        {
            let pair = slice_index_get(row, k);
            encode_varint(buffer, pair.0);
            let vb: &[u8] = pair.1.as_str().as_bytes();
            proof {
                assert(value_bytes(rv[k as int].1).len() <= u32::MAX);
            }
            encode_varint(buffer, vb.len() as u32);
            push_bytes(buffer, vb);
            proof {
                lemma_vi_fields_concat(rv.take(k as int), seq![rv[k as int]]);
                assert(rv.take(k as int + 1) =~= rv.take(k as int) + seq![rv[k as int]]);
                assert(seq![rv[k as int]].skip(1) =~= Seq::<(u32, Seq<char>)>::empty());
                assert(vi_fields(Seq::<(u32, Seq<char>)>::empty()) =~= Seq::<u8>::empty());
                assert(vi_fields(seq![rv[k as int]]) =~= vi_field(rv[k as int]));
                assert(varint_bytes(value_bytes(rv[k as int].1).len()) == varint_bytes(
                    (vb@.len() as u32) as nat,
                ));
                assert(buffer@ =~= prior + varint_bytes(rv.len()) + vi_fields(
                    rv.take(k as int + 1),
                ));
            }
            k = k + 1;
        }
        proof {
            assert(rv.take(rv.len() as int) =~= rv);
            assert(buffer@ =~= prior + vi_encode(rv));
        }
    }

    fn decode(&self, data: &[u8]) -> (r: Result<Vec<(u32, String)>, CodecError>) {
        let r = vi_decode_exec(data);
        proof {
            lemma_vi_sound(data@);
            assert forall|rv: Seq<(u32, Seq<char>)>|
                row_fits_u32(rv) && data@ == vi_encode(rv) implies (r matches Ok(out) && row_view(
                out@,
            ) == rv) by {
                lemma_vi_roundtrip(rv);
            }
        }
        r
    }
}

/// Varint byte length tracks the seven-bit groups of the value: zero
/// takes one byte, and the length grows by one exactly when the value
/// crosses a power of 128.
pub proof fn lemma_varint_bytes_len(v: nat)
    ensures
        varint_bytes(v).len() >= 1,
        v == 0 ==> varint_bytes(v).len() == 1,
        v >= 1 ==> pow128((varint_bytes(v).len() - 1) as nat) <= v < pow128(
            varint_bytes(v).len() as nat,
        ),
    decreases v,
{
    if v < 128 {
        assert(pow128(0) == 1);
        assert(pow128(1) == 128);
    } else {
        lemma_varint_bytes_len(v / 128);
        let k = varint_bytes(v / 128).len();
        assert(varint_bytes(v).len() == k + 1);
        assert(v / 128 >= 1);
        assert(pow128((k - 1) as nat) <= v / 128 < pow128(k as nat));
        assert(pow128(k as nat) == 128 * pow128((k - 1) as nat));
        assert(pow128((k + 1) as nat) == 128 * pow128(k as nat));
        assert(v < 128 * pow128(k as nat)) by (nonlinear_arith)
            requires
                v / 128 < pow128(k as nat),
                v >= 0,
        ;
        assert(128 * pow128((k - 1) as nat) <= v) by (nonlinear_arith)
            requires
                pow128((k - 1) as nat) <= v / 128,
                v >= 0,
        ;
    }
}

} // verus!
