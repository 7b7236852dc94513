//! Memcomparable row encoding: order-preserving, self-delimiting
//! serialization of `(column_id, value)` pairs through the
//! `memcomparable` crate.
//!
//! Each pair is the column id as four big-endian bytes, then the value
//! bytes in the group format: a `0`/`1` empty marker, then, for
//! non-empty values, groups of eight bytes padded with zeros, each
//! followed by a marker byte — `9` when more data follows, else the
//! count of meaningful bytes in the final group.  Byte-lexicographic
//! comparison of two encodings matches pairwise comparison of the rows.

use vstd::prelude::*;
use vstd::utf8::{
    decode_utf8, encode_utf8, valid_utf8, encode_utf8_decode_utf8, decode_utf8_encode_utf8,
    encode_utf8_valid_utf8,
};
use crate::bytes::{be32, be32_value, lemma_be32_roundtrip, lemma_be32_complete, zero_bytes};
use crate::codec::{
    CodecError, RowEncoder, row_view, value_bytes, lex_lt, lex_lt_at, lemma_lex_lt_by_diff,
    lemma_lex_lt_concat,
};

verus! {

/// Row codec in the memcomparable format.
#[derive(Debug, Clone, Copy, Default)]
pub struct MemcomparableEncoder;

/// The group encoding of non-empty content: eight-byte groups, each
/// closed by a marker — `9` before another group, else the number of
/// meaningful bytes in this final group, the rest zero padding.
pub open spec fn mc_groups(b: Seq<u8>) -> Seq<u8>
    decreases b.len(),
{
    if b.len() <= 8 {
        b + zero_bytes((8 - b.len()) as nat) + seq![b.len() as u8]
    } else {
        b.take(8) + seq![9u8] + mc_groups(b.skip(8))
    }
}

/// The memcomparable bytes of one byte string: `0` for the empty
/// string, else `1` and the group encoding.
pub open spec fn mc_str(b: Seq<u8>) -> Seq<u8> {
    if b.len() == 0 {
        seq![0u8]
    } else {
        seq![1u8] + mc_groups(b)
    }
}

/// The bytes of one `(column_id, value)` field.
pub open spec fn mc_field(p: (u32, Seq<char>)) -> Seq<u8> {
    be32(p.0) + mc_str(value_bytes(p.1))
}

/// The complete encoding of a row: the fields, concatenated, with no
/// count or length prefix.
pub open spec fn mc_fields(rv: Seq<(u32, Seq<char>)>) -> Seq<u8>
    decreases rv.len(),
{
    if rv.len() == 0 {
        Seq::empty()
    } else {
        mc_field(rv[0]) + mc_fields(rv.skip(1))
    }
}

/// Reads one group-encoded byte string from the front of `s`: the
/// content and the count of bytes consumed.  Strict: padding bytes in
/// the final group must be zero.
pub open spec fn mc_read_groups(s: Seq<u8>) -> Option<(Seq<u8>, int)>
    decreases s.len(),
{
    if s.len() < 9 {
        None
    } else {
        let marker = s[8];
        if 1 <= marker <= 8 {
            if s.subrange(marker as int, 8) == zero_bytes((8 - marker) as nat) {
                Some((s.subrange(0, marker as int), 9))
            } else {
                None
            }
        } else if marker == 9 {
            match mc_read_groups(s.skip(9)) {
                None => None,
                Some((b, n)) => Some((s.subrange(0, 8) + b, n + 9)),
            }
        } else {
            None
        }
    }
}

/// Reads one memcomparable byte string from the front of `s`.
pub open spec fn mc_read_str(s: Seq<u8>) -> Option<(Seq<u8>, int)> {
    if s.len() < 1 {
        None
    } else if s[0] == 0 {
        Some((Seq::empty(), 1))
    } else if s[0] == 1 {
        match mc_read_groups(s.skip(1)) {
            None => None,
            Some((b, n)) => Some((b, n + 1)),
        }
    } else {
        None
    }
}

/// Parses a complete memcomparable buffer into a row.
pub open spec fn mc_decode(s: Seq<u8>) -> Option<Seq<(u32, Seq<char>)>>
    decreases s.len(),
{
    if s.len() == 0 {
        Some(Seq::empty())
    } else if s.len() < 4 {
        None
    } else {
        let id = be32_value(s.subrange(0, 4));
        match mc_read_str(s.skip(4)) {
            None => None,
            Some((b, n)) => if n < 1 || 4 + n > s.len() {
                None
            } else if !valid_utf8(b) {
                None
            } else {
                match mc_decode(s.skip(4 + n)) {
                    None => None,
                    Some(rest) => Some(seq![(id, decode_utf8(b))] + rest),
                }
            },
        }
    }
}

proof fn lemma_mc_read_groups_roundtrip(b: Seq<u8>, rest: Seq<u8>)
    requires
        b.len() >= 1,
    ensures
        mc_read_groups(mc_groups(b) + rest) == Some((b, mc_groups(b).len() as int)),
    decreases b.len(),
{
    let s = mc_groups(b) + rest;
    if b.len() <= 8 {
        let m = b.len() as int;
        assert(s[8] == m as u8);
        assert(s.subrange(m, 8) =~= zero_bytes((8 - m) as nat));
        assert(s.subrange(0, m) =~= b);
        assert(mc_groups(b).len() == 9);
    } else {
        assert(s[8] == 9u8);
        assert(s.skip(9) =~= mc_groups(b.skip(8)) + rest);
        lemma_mc_read_groups_roundtrip(b.skip(8), rest);
        assert(s.subrange(0, 8) =~= b.take(8));
        assert(b.take(8) + b.skip(8) =~= b);
    }
}

proof fn lemma_mc_read_groups_sound(s: Seq<u8>)
    ensures
        mc_read_groups(s) matches Some((b, n)) ==> b.len() >= 1 && 9 <= n <= s.len()
            && s.subrange(0, n) =~= mc_groups(b),
    decreases s.len(),
{
    if s.len() >= 9 {
        let marker = s[8];
        if 1 <= marker <= 8 {
            if s.subrange(marker as int, 8) == zero_bytes((8 - marker) as nat) {
                let b = s.subrange(0, marker as int);
                assert(mc_groups(b) =~= b + zero_bytes((8 - marker) as nat) + seq![marker]);
                assert(s.subrange(0, 9) =~= b + zero_bytes((8 - marker) as nat) + seq![marker]);
            }
        } else if marker == 9 {
            lemma_mc_read_groups_sound(s.skip(9));
            if let Some((b2, n2)) = mc_read_groups(s.skip(9)) {
                let b = s.subrange(0, 8) + b2;
                assert(b.len() > 8);
                assert(b.take(8) =~= s.subrange(0, 8));
                assert(b.skip(8) =~= b2);
                assert(s.subrange(0, n2 + 9) =~= s.subrange(0, 8) + seq![9u8] + s.skip(9).subrange(
                    0,
                    n2,
                ));
                assert(mc_groups(b) =~= s.subrange(0, 8) + seq![9u8] + mc_groups(b2));
            }
        }
    }
}

proof fn lemma_mc_read_str_roundtrip(b: Seq<u8>, rest: Seq<u8>)
    ensures
        mc_read_str(mc_str(b) + rest) == Some((b, mc_str(b).len() as int)),
{
    let s = mc_str(b) + rest;
    if b.len() == 0 {
        assert(s[0] == 0u8);
        assert(b =~= Seq::<u8>::empty());
    } else {
        assert(s[0] == 1u8);
        assert(s.skip(1) =~= mc_groups(b) + rest);
        lemma_mc_read_groups_roundtrip(b, rest);
    }
}

proof fn lemma_mc_read_str_sound(s: Seq<u8>)
    ensures
        mc_read_str(s) matches Some((b, n)) ==> 1 <= n <= s.len() && s.subrange(0, n) =~= mc_str(
            b,
        ),
{
    if s.len() >= 1 && s[0] == 0 {
        assert(s.subrange(0, 1) =~= seq![0u8]);
    }
    if s.len() >= 1 && s[0] == 1 {
        lemma_mc_read_groups_sound(s.skip(1));
        if let Some((b, n)) = mc_read_groups(s.skip(1)) {
            assert(s.subrange(0, n + 1) =~= seq![1u8] + s.skip(1).subrange(0, n));
        }
    }
}

/// Decoding inverts encoding for every row.
#[verifier::rlimit(50)]
pub proof fn lemma_mc_roundtrip(rv: Seq<(u32, Seq<char>)>)
    ensures
        mc_decode(mc_fields(rv)) == Some(rv),
    decreases rv.len(),
{
    broadcast use encode_utf8_valid_utf8, encode_utf8_decode_utf8;

    if rv.len() > 0 {
        let s = mc_fields(rv);
        let p = rv[0];
        let vb = value_bytes(p.1);
        let tail = mc_fields(rv.skip(1));
        assert(s =~= be32(p.0) + (mc_str(vb) + tail));
        assert(s.subrange(0, 4) =~= be32(p.0));
        lemma_be32_roundtrip(p.0);
        assert(s.skip(4) =~= mc_str(vb) + tail);
        lemma_mc_read_str_roundtrip(vb, tail);
        let n = mc_str(vb).len() as int;
        assert(s.len() == 4 + n + tail.len());
        assert(s.skip(4 + n) =~= tail);
        lemma_mc_roundtrip(rv.skip(1));
        assert(seq![(p.0, p.1)] + rv.skip(1) =~= rv);
    }
}

/// A buffer the decoder accepts is exactly the encoding of the row it
/// returns.
#[verifier::rlimit(50)]
pub proof fn lemma_mc_sound(s: Seq<u8>)
    ensures
        mc_decode(s) matches Some(rv) ==> s == mc_fields(rv),
    decreases s.len(),
{
    broadcast use decode_utf8_encode_utf8;

    if s.len() >= 4 && mc_decode(s) is Some {
        let id = be32_value(s.subrange(0, 4));
        let (b, n) = mc_read_str(s.skip(4))->Some_0;
        lemma_mc_read_str_sound(s.skip(4));
        lemma_mc_sound(s.skip(4 + n));
        let rest = mc_decode(s.skip(4 + n))->Some_0;
        let rv = seq![(id, decode_utf8(b))] + rest;
        assert(rv.skip(1) =~= rest);
        assert(rv[0] == (id, decode_utf8(b)));
        assert(value_bytes(rv[0].1) == b);
        lemma_be32_complete(s.subrange(0, 4));
        assert(mc_fields(rv) == mc_field(rv[0]) + mc_fields(rest));
        assert(s =~= be32(id) + mc_str(b) + s.skip(4 + n)) by {
            assert(be32(id) =~= s.subrange(0, 4));
            assert(mc_str(b) =~= s.skip(4).subrange(0, n));
            assert(s =~= s.subrange(0, 4) + s.skip(4).subrange(0, n) + s.skip(4 + n));
        }
        assert(s == mc_fields(rv));
    }
}

/// Relies on `memcomparable::Serializer` and `serde::Serialize` for
/// `u32`: serializing appends the four big-endian bytes of the value.
#[verifier::external_body]
fn mc_put_u32(buffer: &mut Vec<u8>, v: u32)
    ensures
        final(buffer)@ == old(buffer)@ + be32(v),
{
    let mut ser = memcomparable::Serializer::new(&mut *buffer);
    serde::Serialize::serialize(&v, &mut ser).unwrap();
}

/// Relies on `memcomparable::Serializer` and `serde::Serialize` for
/// `str`: serializing appends the group encoding of the UTF-8 bytes.
#[verifier::external_body]
fn mc_put_str(buffer: &mut Vec<u8>, s: &str)
    ensures
        final(buffer)@ == old(buffer)@ + mc_str(encode_utf8(s@)),
{
    let mut ser = memcomparable::Serializer::new(&mut *buffer);
    serde::Serialize::serialize(s, &mut ser).unwrap();
}

/// Relies on `memcomparable::Deserializer` for `u32`: it reads exactly
/// the four bytes at the front as a big-endian value.
#[verifier::external_body]
fn mc_take_u32(data: &[u8], offset: usize) -> (r: u32)
    requires
        offset + 4 <= data@.len(),
    ensures
        r == be32_value(data@.subrange(offset as int, offset as int + 4)),
{
    let mut de = memcomparable::Deserializer::new(&data[offset..]);
    let r: u32 = serde::Deserialize::deserialize(&mut de).unwrap();
    r
}

/// Relies on `memcomparable::Deserializer` for `String`: it reads the
/// group-encoded bytes at the front and converts them with
/// `String::from_utf8`, failing exactly on invalid UTF-8.  The caller
/// must have checked the framing with `mc_read_str` first: that rules
/// out the short reads on which the crate would panic, and on such
/// input the crate's reader (which does not look at padding bytes)
/// consumes the same count of bytes and returns the same content as
/// the checked framing.
#[verifier::external_body]
fn mc_take_str(data: &[u8], offset: usize) -> (r: Option<(String, usize)>)
    requires
        offset <= data@.len(),
        mc_read_str(data@.skip(offset as int)) is Some,
    ensures
        r matches Some((s, m)) ==> m == mc_read_str(data@.skip(offset as int))->Some_0.1
            && encode_utf8(s@) == mc_read_str(data@.skip(offset as int))->Some_0.0,
        valid_utf8(mc_read_str(data@.skip(offset as int))->Some_0.0) ==> r is Some,
        r is None ==> !valid_utf8(mc_read_str(data@.skip(offset as int))->Some_0.0),
{
    let mut de = memcomparable::Deserializer::new(&data[offset..]);
    let res: Result<String, memcomparable::Error> = serde::Deserialize::deserialize(&mut de);
    match res {
        Ok(s) => {
            let n = de.position();
            Some((s, n))
        },
        Err(_) => None,
    }
}

/// Checks the framing of one memcomparable byte string at `offset` and
/// returns the count of bytes it spans.
fn mc_scan_str(data: &[u8], offset: usize) -> (r: Option<usize>)
    requires
        offset <= data@.len(),
    ensures
        match mc_read_str(data@.skip(offset as int)) {
            Some((b, n)) => r == Some(n as usize),
            None => r is None,
        },
{
    let ghost s = data@.skip(offset as int);
    if data.len() == offset {
        return None;
    }
    let first = data[offset];
    assert(s[0] == first);
    if first == 0 {
        return Some(1);
    }
    if first != 1 {
        return None;
    }
    let mut pos: usize = offset + 1;
    let ghost mut acc = Seq::<u8>::empty();
    proof {
        assert(s.skip(1) =~= data@.skip(offset as int + 1));
        if let Some((b, n)) = mc_read_groups(data@.skip(pos as int)) {
            assert(acc + b =~= b);
        }
    }
    loop
        invariant
            offset + 1 <= pos <= data@.len(),
            s == data@.skip(offset as int),
            s.len() >= 1 && s[0] == 1,
            match mc_read_groups(data@.skip(pos as int)) {
                None => mc_read_str(s) is None,
                Some((b, n)) => mc_read_str(s) == Some::<(Seq<u8>, int)>(
                    (acc + b, (pos - offset) + n),
                ),
            },
        decreases data@.len() - pos,
    {
        let ghost g = data@.skip(pos as int);
        if data.len() - pos < 9 {
            return None;
        }
        let marker = data[pos + 8];
        assert(g[8] == marker);
        if 1 <= marker && marker <= 8 {
            let mut j: usize = marker as usize;
            let mut padding_ok: bool = true;
            while j < 8
                invariant
                    marker <= j <= 8,
                    1 <= marker <= 8,
                    pos + 9 <= data@.len(),
                    data@.len() <= usize::MAX,
                    g == data@.skip(pos as int),
                    g.len() >= 9,
                    padding_ok ==> forall|i: int| marker <= i < j ==> g[i] == 0u8,
                    !padding_ok ==> exists|i: int| marker <= i < 8 && g[i] != 0u8,
                decreases 8 - j,
            {
                if data[pos + j] != 0 {
                    proof {
                        assert(g[j as int] != 0u8);
                    }
                    padding_ok = false;
                }
                j = j + 1;
            }
            if padding_ok {
                proof {
                    assert(g.subrange(marker as int, 8) =~= zero_bytes((8 - marker) as nat));
                }
                return Some(pos + 9 - offset);
            } else {
                proof {
                    let i = choose|i: int| marker <= i < 8 && g[i] != 0u8;
                    assert(g.subrange(marker as int, 8) != zero_bytes((8 - marker) as nat)) by {
                        assert(g.subrange(marker as int, 8)[i - marker] != 0u8);
                        assert(zero_bytes((8 - marker) as nat)[i - marker] == 0u8);
                    }
                }
                return None;
            }
        } else if marker == 9 {
            proof {
                assert(g.skip(9) =~= data@.skip(pos as int + 9));
                if let Some((b2, n2)) = mc_read_groups(data@.skip(pos as int + 9)) {
                    assert((acc + g.subrange(0, 8)) + b2 =~= acc + (g.subrange(0, 8) + b2));
                }
            }
            proof {
                acc = acc + g.subrange(0, 8);
            }
            pos = pos + 9;
        } else {
            return None;
        }
    }
}

/// Parses a complete memcomparable buffer, strictly.
fn mc_decode_exec(data: &[u8]) -> (r: Result<Vec<(u32, String)>, CodecError>)
    ensures
        match mc_decode(data@) {
            Some(rv) => r matches Ok(out) && row_view(out@) == rv,
            None => r == Err::<Vec<(u32, String)>, CodecError>(CodecError::MalformedInput),
        },
{
    broadcast use encode_utf8_decode_utf8;

    let mut out: Vec<(u32, String)> = Vec::new();
    let mut offset: usize = 0;
    proof {
        assert(data@.skip(0) =~= data@);
        if let Some(rest) = mc_decode(data@) {
            assert(row_view(out@) + rest =~= rest);
        }
    }
    while offset < data.len()
        invariant
            offset <= data@.len(),
            match mc_decode(data@.skip(offset as int)) {
                None => mc_decode(data@) is None,
                Some(rest) => mc_decode(data@) == Some(row_view(out@) + rest),
            },
        decreases data@.len() - offset,
    {
        let ghost s = data@.skip(offset as int);
        if data.len() - offset < 4 {
            return Err(CodecError::MalformedInput);
        }
        let id = mc_take_u32(data, offset);
        proof {
            assert(s.subrange(0, 4) =~= data@.subrange(offset as int, offset as int + 4));
            assert(s.skip(4) =~= data@.skip(offset as int + 4));
        }
        let n = match mc_scan_str(data, offset + 4) {
            Some(n) => n,
            None => {
                return Err(CodecError::MalformedInput);
            },
        };
        proof {
            lemma_mc_read_str_sound(s.skip(4));
        }
        match mc_take_str(data, offset + 4) {
            None => {
                return Err(CodecError::MalformedInput);
            },
            Some((val, m)) => {
                proof {
                    let (b, n0) = mc_read_str(s.skip(4))->Some_0;
                    encode_utf8_decode_utf8(val@);
                    encode_utf8_valid_utf8(val@);
                    assert(valid_utf8(b));
                    assert(decode_utf8(b) == val@);
                    assert(s.len() >= 4);
                    assert(id == be32_value(s.subrange(0, 4)));
                    assert(1 <= n0 && 4 + n0 <= s.len());
                    assert(n as int == n0);
                    assert(s.skip(4 + n0) =~= data@.skip(offset as int + 4 + n0));
                    let rest0 = mc_decode(data@.skip(offset as int + 4 + n0));
                    assert(mc_decode(s) == (match rest0 {
                        None => None::<Seq<(u32, Seq<char>)>>,
                        Some(rest) => Some(seq![(id, decode_utf8(b))] + rest),
                    }));
                    if rest0 is Some {
                        assert(row_view(out@.push((id, val))) =~= row_view(out@).push((id, val@)));
                        assert(row_view(out@) + (seq![(id, val@)] + rest0->Some_0) =~= row_view(
                            out@.push((id, val)),
                        ) + rest0->Some_0);
                    }
                }
                out.push((id, val));
                offset = offset + 4 + n;
            },
        }
    }
    proof {
        assert(data@.skip(offset as int).len() == 0);
        assert(row_view(out@) + Seq::<(u32, Seq<char>)>::empty() =~= row_view(out@));
    }
    Ok(out)
}

impl RowEncoder for MemcomparableEncoder {
    open spec fn spec_name(&self) -> Seq<char> {
        "memcomparable"@
    }

    open spec fn encodable(&self, rv: Seq<(u32, Seq<char>)>) -> bool {
        true
    }

    open spec fn spec_encode(&self, rv: Seq<(u32, Seq<char>)>) -> Seq<u8> {
        mc_fields(rv)
    }

    fn name(&self) -> (r: &'static str) {
        "memcomparable"
    }

    fn check_encodable(&self, row: &[(u32, String)]) -> (b: bool) {
        true
    }

    fn encode(&self, buffer: &mut Vec<u8>, row: &[(u32, String)]) {
        let ghost rv = row_view(row@);
        let ghost prior = buffer@;
        let mut k: usize = 0;
        proof {
            assert(mc_fields(rv.take(0)) =~= Seq::<u8>::empty());
            assert(buffer@ =~= prior + mc_fields(rv.take(0)));
        }
        while k < row.len()
            invariant
                k <= row@.len(),
                rv == row_view(row@),
                buffer@ == prior + mc_fields(rv.take(k as int)),
            decreases row@.len() - k,
        {
            let pair = vstd::slice::slice_index_get(row, k);
            mc_put_u32(buffer, pair.0);
            mc_put_str(buffer, pair.1.as_str());
            proof {
                lemma_mc_fields_concat(rv.take(k as int), seq![rv[k as int]]);
                assert(rv.take(k as int + 1) =~= rv.take(k as int) + seq![rv[k as int]]);
                assert(seq![rv[k as int]].skip(1) =~= Seq::<(u32, Seq<char>)>::empty());
                assert(mc_fields(Seq::<(u32, Seq<char>)>::empty()) =~= Seq::<u8>::empty());
                assert(mc_fields(seq![rv[k as int]]) =~= mc_field(rv[k as int]));
                assert(buffer@ =~= prior + mc_fields(rv.take(k as int + 1)));
            }
            k = k + 1;
        }
        proof {
            assert(rv.take(rv.len() as int) =~= rv);
        }
    }

    fn decode(&self, data: &[u8]) -> (r: Result<Vec<(u32, String)>, CodecError>) {
        let r = mc_decode_exec(data);
        proof {
            lemma_mc_sound(data@);
            assert forall|rv: Seq<(u32, Seq<char>)>| data@ == mc_fields(rv) implies (r matches Ok(
                out,
            ) && row_view(out@) == rv) by {
                lemma_mc_roundtrip(rv);
            }
        }
        r
    }
}

proof fn lemma_mc_fields_concat(a: Seq<(u32, Seq<char>)>, b: Seq<(u32, Seq<char>)>)
    ensures
        mc_fields(a + b) == mc_fields(a) + mc_fields(b),
    decreases a.len(),
{
    if a.len() == 0 {
        assert(a + b =~= b);
        assert(mc_fields(a) + mc_fields(b) =~= mc_fields(b));
    } else {
        assert((a + b).skip(1) =~= a.skip(1) + b);
        lemma_mc_fields_concat(a.skip(1), b);
        assert(mc_fields(a + b) =~= mc_fields(a) + mc_fields(b));
    }
}

proof fn lemma_mc_groups_index(z: Seq<u8>)
    requires
        z.len() >= 1,
    ensures
        mc_groups(z).len() >= 9,
        forall|j: int|
            0 <= j < 8 ==> mc_groups(z)[j] == (if j < z.len() {
                z[j]
            } else {
                0u8
            }),
        mc_groups(z)[8] == (if z.len() <= 8 {
            z.len() as u8
        } else {
            9u8
        }),
{
}

proof fn lemma_first_nonzero(s: Seq<u8>, lo: int, hi: int)
    requires
        0 <= lo <= hi <= s.len(),
        exists|j: int| #![auto] lo <= j < hi && s[j] != 0u8,
    ensures
        exists|j: int|
            #![auto]
            lo <= j < hi && s[j] != 0u8 && (forall|m: int| lo <= m < j ==> s[m] == 0u8),
    decreases hi - lo,
{
    let j0 = choose|j: int| #![auto] lo <= j < hi && s[j] != 0u8;
    if s[lo] != 0u8 {
        assert(lo <= lo < hi && s[lo] != 0u8 && (forall|m: int| lo <= m < lo ==> s[m] == 0u8));
    } else {
        assert(lo + 1 <= j0 < hi && s[j0] != 0u8);
        lemma_first_nonzero(s, lo + 1, hi);
        let j = choose|j: int|
            #![auto]
            lo + 1 <= j < hi && s[j] != 0u8 && (forall|m: int| lo + 1 <= m < j ==> s[m] == 0u8);
        assert(forall|m: int| lo <= m < j ==> s[m] == 0u8);
        assert(lo <= j < hi && s[j] != 0u8 && (forall|m: int| lo <= m < j ==> s[m] == 0u8));
    }
}

#[verifier::rlimit(60)]
proof fn lemma_mc_groups_order(x: Seq<u8>, y: Seq<u8>, s: Seq<u8>, t: Seq<u8>, i: int)
    requires
        x.len() >= 1,
        y.len() >= 1,
        lex_lt_at(x, y, i),
    ensures
        lex_lt(mc_groups(x) + s, mc_groups(y) + t),
    decreases x.len(),
{
    lemma_mc_groups_index(x);
    lemma_mc_groups_index(y);
    let a = mc_groups(x) + s;
    let b = mc_groups(y) + t;
    if i < 8 && i < x.len() {
        assert forall|m: int| 0 <= m < i implies a[m] == b[m] by {
            assert(x.take(i)[m] == y.take(i)[m]);
        }
        assert(a.take(i) =~= b.take(i));
        assert(a[i] == x[i] && b[i] == y[i]);
        lemma_lex_lt_by_diff(a, b, i);
    } else if i >= 8 {
        if x.len() == 8 {
            assert forall|m: int| 0 <= m < 8 implies a[m] == b[m] by {
                assert(x.take(i)[m] == y.take(i)[m]);
            }
            assert(a.take(8) =~= b.take(8));
            assert(a[8] == 8u8 && b[8] == 9u8);
            lemma_lex_lt_by_diff(a, b, 8);
        } else {
            assert(x.len() > 8 && y.len() > 8);
            assert forall|m: int| 0 <= m < 8 implies x[m] == y[m] by {
                assert(x.take(i)[m] == y.take(i)[m]);
            }
            let p = x.take(8) + seq![9u8];
            assert(a =~= p + (mc_groups(x.skip(8)) + s));
            assert(b =~= p + (mc_groups(y.skip(8)) + t)) by {
                assert(y.take(8) =~= x.take(8));
            }
            assert(lex_lt_at(x.skip(8), y.skip(8), i - 8)) by {
                assert forall|m: int| 0 <= m < i - 8 implies x.skip(8)[m] == y.skip(8)[m] by {
                    assert(x.take(i)[m + 8] == y.take(i)[m + 8]);
                }
                assert(x.skip(8).take(i - 8) =~= y.skip(8).take(i - 8));
            }
            lemma_mc_groups_order(x.skip(8), y.skip(8), s, t, i - 8);
            lemma_lex_lt_concat(p, mc_groups(x.skip(8)) + s, mc_groups(y.skip(8)) + t);
        }
    } else {
        let xl = x.len() as int;
        assert(i == xl && xl < 8 && xl < y.len());
        let hi: int = if y.len() <= 8 {
            y.len() as int
        } else {
            8
        };
        if exists|j: int| #![auto] xl <= j < hi && y[j] != 0u8 {
            lemma_first_nonzero(y, xl, hi);
            let j = choose|j: int|
                #![auto]
                xl <= j < hi && y[j] != 0u8 && (forall|m: int| xl <= m < j ==> y[m] == 0u8);
            assert forall|m: int| 0 <= m < j implies a[m] == b[m] by {
                if m < xl {
                    assert(x.take(i)[m] == y.take(i)[m]);
                } else {
                    assert(a[m] == 0u8 && b[m] == y[m] && y[m] == 0u8);
                }
            }
            assert(a.take(j) =~= b.take(j));
            assert(a[j] == 0u8 && b[j] == y[j]);
            lemma_lex_lt_by_diff(a, b, j);
        } else {
            assert forall|m: int| 0 <= m < 8 implies a[m] == b[m] by {
                if m < xl {
                    assert(x.take(i)[m] == y.take(i)[m]);
                } else if m < hi {
                    assert(y[m] == 0u8);
                }
            }
            assert(a.take(8) =~= b.take(8));
            assert(a[8] == xl as u8);
            assert(a[8] < b[8]);
            lemma_lex_lt_by_diff(a, b, 8);
        }
    }
}

proof fn lemma_mc_str_order(x: Seq<u8>, y: Seq<u8>, s: Seq<u8>, t: Seq<u8>)
    requires
        lex_lt(x, y),
    ensures
        lex_lt(mc_str(x) + s, mc_str(y) + t),
{
    let i = choose|i: int| lex_lt_at(x, y, i);
    let a = mc_str(x) + s;
    let b = mc_str(y) + t;
    if x.len() == 0 {
        assert(a[0] == 0u8 && b[0] == 1u8);
        assert(a.take(0) =~= b.take(0));
        lemma_lex_lt_by_diff(a, b, 0);
    } else {
        assert(a =~= seq![1u8] + (mc_groups(x) + s));
        assert(b =~= seq![1u8] + (mc_groups(y) + t));
        lemma_mc_groups_order(x, y, s, t, i);
        lemma_lex_lt_concat(seq![1u8], mc_groups(x) + s, mc_groups(y) + t);
    }
}

/// Order preservation: two rows of equal arity and matching column ids
/// that agree on the value bytes of every column before `k`, where row
/// `ra`'s value at `k` is byte-lexicographically smaller, encode to
/// byte-lexicographically ordered buffers.
pub proof fn lemma_mc_order_preserving(
    ra: Seq<(u32, Seq<char>)>,
    rb: Seq<(u32, Seq<char>)>,
    k: int,
)
    requires
        ra.len() == rb.len(),
        forall|i: int| 0 <= i < ra.len() ==> ra[i].0 == rb[i].0,
        0 <= k < ra.len(),
        forall|i: int| 0 <= i < k ==> value_bytes(ra[i].1) == value_bytes(rb[i].1),
        lex_lt(value_bytes(ra[k].1), value_bytes(rb[k].1)),
    ensures
        lex_lt(mc_fields(ra), mc_fields(rb)),
{
    assert forall|i: int| 0 <= i < k implies ra[i] == rb[i] by {
        encode_utf8_decode_utf8(ra[i].1);
        encode_utf8_decode_utf8(rb[i].1);
        assert(ra[i].1 == rb[i].1);
    }
    assert(ra.take(k) =~= rb.take(k));
    lemma_mc_fields_concat(ra.take(k), ra.skip(k));
    lemma_mc_fields_concat(rb.take(k), rb.skip(k));
    assert(ra.take(k) + ra.skip(k) =~= ra);
    assert(rb.take(k) + rb.skip(k) =~= rb);
    let head = mc_fields(ra.take(k));
    assert(ra.skip(k)[0] == ra[k]);
    assert(rb.skip(k)[0] == rb[k]);
    let tail_a = mc_fields(ra.skip(k).skip(1));
    let tail_b = mc_fields(rb.skip(k).skip(1));
    let x = value_bytes(ra[k].1);
    let y = value_bytes(rb[k].1);
    let p = head + be32(ra[k].0);
    assert(mc_fields(ra) =~= p + (mc_str(x) + tail_a));
    assert(mc_fields(rb) =~= p + (mc_str(y) + tail_b));
    lemma_mc_str_order(x, y, tail_a, tail_b);
    lemma_lex_lt_concat(p, mc_str(x) + tail_a, mc_str(y) + tail_b);
}

} // verus!
