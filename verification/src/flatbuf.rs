//! FlatBuffer row encoding: a typed table holding a vector of
//! `(column_id, label_value)` entries, laid out canonically.
//!
//! The buffer is little-endian and four-byte aligned throughout:
//!
//! * bytes 0..4: root offset, pointing at the root table (byte 12);
//! * bytes 4..12: the root table's vtable (size 6, table size 8, one
//!   field at offset 4) and two bytes of padding;
//! * bytes 12..24: the root table — a signed offset back to its vtable
//!   and the offset of the entry vector — and the vector's length `n`;
//! * bytes 24..24+4n: one forward offset per entry table;
//! * next 8 bytes: the entries' shared vtable (size 8, table size 12,
//!   `column_id` at offset 4, `label_value` at offset 8);
//! * 12 bytes per entry: a signed offset back to the shared vtable, the
//!   column id, and the forward offset of the value string;
//! * one block per value: its byte length, the bytes, a terminating
//!   zero, and zero padding to the next four-byte boundary.
//!
//! The decoder is strict: it accepts exactly the buffers this encoder
//! produces, which keeps decoding a total inverse of encoding.

use vstd::prelude::*;
use vstd::slice::{slice_subrange, slice_to_vec, slice_index_get};
use vstd::utf8::{
    decode_utf8, valid_utf8, encode_utf8_decode_utf8, decode_utf8_encode_utf8,
    encode_utf8_valid_utf8,
};
use crate::bytes::{
    le32, le32_value, lemma_le32_roundtrip, lemma_le32_complete, push_le32, read_le32, push_bytes,
    bytes_to_string, check_word,
};
use crate::codec::{CodecError, RowEncoder, row_view, value_bytes, values_fit_u32};
use crate::bytes::zero_bytes;

verus! {

/// Row codec in the canonical FlatBuffer layout.
#[derive(Debug, Clone, Copy, Default)]
pub struct FlatBufferEncoder;

/// The size of one value's string block: length word, bytes, and a
/// zero terminator padded to a four-byte boundary.
pub open spec fn fb_blk(l: int) -> int {
    4 + ((l + 4) / 4) * 4
}

/// One value's string block.
pub open spec fn fb_str_block(b: Seq<u8>) -> Seq<u8> {
    le32(b.len() as u32) + b + zero_bytes((fb_blk(b.len() as int) - 4 - b.len()) as nat)
}

/// The string blocks of a row's values, in order.
pub open spec fn fb_strings(rv: Seq<(u32, Seq<char>)>) -> Seq<u8>
    decreases rv.len(),
{
    if rv.len() == 0 {
        Seq::empty()
    } else {
        fb_str_block(value_bytes(rv[0].1)) + fb_strings(rv.skip(1))
    }
}

/// The combined size of a row's string blocks.
pub open spec fn fb_strings_size(rv: Seq<(u32, Seq<char>)>) -> int
    decreases rv.len(),
{
    if rv.len() == 0 {
        0
    } else {
        fb_blk(value_bytes(rv[0].1).len() as int) + fb_strings_size(rv.skip(1))
    }
}

/// The vector of forward offsets to the entry tables, from index `i`.
pub open spec fn fb_vec_offsets(n: int, i: int) -> Seq<u8>
    decreases n - i,
{
    if i >= n {
        Seq::empty()
    } else {
        le32((4 * n + 8 + 8 * i) as u32) + fb_vec_offsets(n, i + 1)
    }
}

/// The entry tables from index `i` on, where `pre` is the combined size
/// of the string blocks of the earlier entries.
pub open spec fn fb_entries(rv: Seq<(u32, Seq<char>)>, n: int, i: int, pre: int) -> Seq<u8>
    decreases rv.len(),
{
    if rv.len() == 0 {
        Seq::empty()
    } else {
        le32((8 + 12 * i) as u32) + le32(rv[0].0) + le32((12 * (n - i) + pre - 8) as u32)
            + fb_entries(
            rv.skip(1),
            n,
            i + 1,
            pre + fb_blk(value_bytes(rv[0].1).len() as int),
        )
    }
}

/// The twenty header bytes every buffer opens with: root offset, the
/// root vtable with its padding, the root table, and the vector offset.
pub open spec fn fb_head_prefix() -> Seq<u8> {
    le32(12) + le32(0x0008_0006) + le32(4) + le32(8) + le32(4)
}

/// The entries' shared vtable.
pub open spec fn fb_vt1() -> Seq<u8> {
    le32(0x000C_0008) + le32(0x0008_0004)
}

/// The total size of a row's encoding.
pub open spec fn fb_size(rv: Seq<(u32, Seq<char>)>) -> int {
    if rv.len() == 0 {
        24
    } else {
        32 + 16 * rv.len() + fb_strings_size(rv)
    }
}

/// The rows this format can represent: the whole buffer must stay
/// within a FlatBuffer's two-gigabyte offset range.
pub open spec fn fb_encodable(rv: Seq<(u32, Seq<char>)>) -> bool {
    fb_size(rv) <= 0x7fff_ffff && values_fit_u32(rv)
}

/// The complete encoding of a row.
pub open spec fn fb_encode(rv: Seq<(u32, Seq<char>)>) -> Seq<u8> {
    if rv.len() == 0 {
        fb_head_prefix() + le32(0)
    } else {
        fb_head_prefix() + le32(rv.len() as u32) + fb_vec_offsets(rv.len() as int, 0) + fb_vt1()
            + fb_entries(rv, rv.len() as int, 0, 0) + fb_strings(rv)
    }
}

/// Whether the vector's offsets from index `i` hold their canonical
/// values.
pub open spec fn fb_vec_ok(s: Seq<u8>, n: int, i: int) -> bool
    decreases n - i,
{
    if i >= n {
        true
    } else {
        s.subrange(24 + 4 * i, 28 + 4 * i) == le32((4 * n + 8 + 8 * i) as u32) && fb_vec_ok(
            s,
            n,
            i + 1,
        )
    }
}

/// Parses the entry tables `e` against the string blocks `g`, from
/// entry `i` of `n` with `pre` string bytes already consumed.
pub open spec fn fb_dec_pairs(e: Seq<u8>, g: Seq<u8>, n: int, i: int, pre: int) -> Option<
    Seq<(u32, Seq<char>)>,
>
    decreases g.len(),
{
    if i >= n {
        if e.len() == 0 && g.len() == 0 {
            Some(Seq::empty())
        } else {
            None
        }
    } else if e.len() < 12 || g.len() < 4 {
        None
    } else if e.subrange(0, 4) != le32((8 + 12 * i) as u32) {
        None
    } else {
        let id = le32_value(e.subrange(4, 8));
        let l = le32_value(g.subrange(0, 4)) as int;
        let blk = fb_blk(l);
        if e.subrange(8, 12) != le32((12 * (n - i) + pre - 8) as u32) {
            None
        } else if g.len() < blk {
            None
        } else if g.subrange(4 + l, blk) != zero_bytes((blk - 4 - l) as nat) {
            None
        } else {
            let b = g.subrange(4, 4 + l);
            if !valid_utf8(b) {
                None
            } else {
                match fb_dec_pairs(e.skip(12), g.skip(blk), n, i + 1, pre + blk) {
                    None => None,
                    Some(rest) => Some(seq![(id, decode_utf8(b))] + rest),
                }
            }
        }
    }
}

/// Parses a complete canonical FlatBuffer row buffer.
pub open spec fn fb_decode(s: Seq<u8>) -> Option<Seq<(u32, Seq<char>)>> {
    if s.len() > 0x7fff_ffff {
        None
    } else if s.len() < 24 {
        None
    } else if s.take(20) != fb_head_prefix() {
        None
    } else {
        let n = le32_value(s.subrange(20, 24)) as int;
        if n == 0 {
            if s.len() == 24 {
                Some(Seq::empty())
            } else {
                None
            }
        } else if s.len() < 32 + 16 * n {
            None
        } else if !fb_vec_ok(s, n, 0) {
            None
        } else if s.subrange(24 + 4 * n, 32 + 4 * n) != fb_vt1() {
            None
        } else {
            fb_dec_pairs(s.subrange(32 + 4 * n, 32 + 16 * n), s.skip(32 + 16 * n), n, 0, 0)
        }
    }
}

proof fn lemma_fb_strings_len(rv: Seq<(u32, Seq<char>)>)
    ensures
        fb_strings(rv).len() == fb_strings_size(rv),
        fb_strings_size(rv) >= 0,
        rv.len() > 0 ==> fb_strings_size(rv) >= 8,
    decreases rv.len(),
{
    if rv.len() > 0 {
        lemma_fb_strings_len(rv.skip(1));
        let l = value_bytes(rv[0].1).len() as int;
        assert(fb_str_block(value_bytes(rv[0].1)).len() == fb_blk(l));
    }
}

proof fn lemma_fb_entries_len(rv: Seq<(u32, Seq<char>)>, n: int, i: int, pre: int)
    ensures
        fb_entries(rv, n, i, pre).len() == 12 * rv.len(),
    decreases rv.len(),
{
    if rv.len() > 0 {
        lemma_fb_entries_len(
            rv.skip(1),
            n,
            i + 1,
            pre + fb_blk(value_bytes(rv[0].1).len() as int),
        );
    }
}

proof fn lemma_fb_vec_offsets_len(n: int, i: int)
    requires
        i <= n,
    ensures
        fb_vec_offsets(n, i).len() == 4 * (n - i),
    decreases n - i,
{
    if i < n {
        lemma_fb_vec_offsets_len(n, i + 1);
    }
}

proof fn lemma_fb_encode_len(rv: Seq<(u32, Seq<char>)>)
    ensures
        fb_encode(rv).len() == fb_size(rv),
{
    if rv.len() > 0 {
        lemma_fb_strings_len(rv);
        lemma_fb_entries_len(rv, rv.len() as int, 0, 0);
        lemma_fb_vec_offsets_len(rv.len() as int, 0);
    }
}

proof fn lemma_fb_vec_ok_from(s: Seq<u8>, n: int, i: int)
    requires
        0 <= i <= n,
        24 + 4 * n <= s.len(),
        s.subrange(24 + 4 * i, 24 + 4 * n) == fb_vec_offsets(n, i),
    ensures
        fb_vec_ok(s, n, i),
    decreases n - i,
{
    if i < n {
        lemma_fb_vec_offsets_len(n, i + 1);
        assert(s.subrange(24 + 4 * i, 28 + 4 * i) =~= fb_vec_offsets(n, i).subrange(0, 4));
        assert(fb_vec_offsets(n, i).subrange(0, 4) =~= le32((4 * n + 8 + 8 * i) as u32));
        assert(s.subrange(24 + 4 * (i + 1), 24 + 4 * n) =~= fb_vec_offsets(n, i).subrange(
            4,
            4 * (n - i),
        ));
        assert(fb_vec_offsets(n, i).subrange(4, 4 * (n - i)) =~= fb_vec_offsets(n, i + 1));
        lemma_fb_vec_ok_from(s, n, i + 1);
    }
}

proof fn lemma_fb_vec_section(s: Seq<u8>, n: int, i: int)
    requires
        0 <= i <= n,
        24 + 4 * n <= s.len(),
        fb_vec_ok(s, n, i),
    ensures
        s.subrange(24 + 4 * i, 24 + 4 * n) == fb_vec_offsets(n, i),
    decreases n - i,
{
    if i < n {
        lemma_fb_vec_section(s, n, i + 1);
        assert(s.subrange(24 + 4 * i, 24 + 4 * n) =~= le32((4 * n + 8 + 8 * i) as u32)
            + fb_vec_offsets(n, i + 1)) by {
            assert(s.subrange(24 + 4 * i, 24 + 4 * n) =~= s.subrange(24 + 4 * i, 28 + 4 * i)
                + s.subrange(24 + 4 * (i + 1), 24 + 4 * n));
        }
    } else {
        assert(s.subrange(24 + 4 * i, 24 + 4 * n) =~= fb_vec_offsets(n, i));
    }
}

#[verifier::rlimit(60)]
proof fn lemma_fb_pairs_roundtrip(rv: Seq<(u32, Seq<char>)>, n: int, i: int, pre: int)
    requires
        values_fit_u32(rv),
        0 <= i,
        0 <= pre,
        i + rv.len() == n,
    ensures
        fb_dec_pairs(fb_entries(rv, n, i, pre), fb_strings(rv), n, i, pre) == Some(rv),
    decreases rv.len(),
{
    broadcast use encode_utf8_valid_utf8, encode_utf8_decode_utf8;

    if rv.len() == 0 {
        assert(rv =~= Seq::<(u32, Seq<char>)>::empty());
    } else {
        let e = fb_entries(rv, n, i, pre);
        let g = fb_strings(rv);
        let p = rv[0];
        let vb = value_bytes(p.1);
        let l = vb.len() as int;
        let blk = fb_blk(l);
        lemma_fb_entries_len(rv, n, i, pre);
        lemma_fb_strings_len(rv);
        lemma_fb_strings_len(rv.skip(1));
        assert(fb_str_block(vb).len() == blk);
        assert(e.subrange(0, 4) =~= le32((8 + 12 * i) as u32));
        assert(e.subrange(4, 8) =~= le32(p.0));
        lemma_le32_roundtrip(p.0);
        assert(e.subrange(8, 12) =~= le32((12 * (n - i) + pre - 8) as u32));
        assert(g.subrange(0, 4) =~= le32(l as u32));
        lemma_le32_roundtrip(l as u32);
        assert(g.len() >= blk);
        assert(g.subrange(4 + l, blk) =~= zero_bytes((blk - 4 - l) as nat));
        assert(g.subrange(4, 4 + l) =~= vb);
        assert(e.skip(12) =~= fb_entries(rv.skip(1), n, i + 1, pre + blk));
        assert(g.skip(blk) =~= fb_strings(rv.skip(1)));
        assert(values_fit_u32(rv.skip(1)));
        lemma_fb_pairs_roundtrip(rv.skip(1), n, i + 1, pre + blk);
        assert(seq![(p.0, p.1)] + rv.skip(1) =~= rv);
    }
}

proof fn lemma_values_fit_cons(p: (u32, Seq<char>), rest: Seq<(u32, Seq<char>)>)
    requires
        value_bytes(p.1).len() <= u32::MAX,
        values_fit_u32(rest),
    ensures
        values_fit_u32(seq![p] + rest),
{
    let rv = seq![p] + rest;
    assert forall|j: int| 0 <= j < rv.len() implies (#[trigger] value_bytes(
        rv[j].1,
    )).len() <= u32::MAX by {
        if j > 0 {
            assert(value_bytes(rest[j - 1].1).len() <= u32::MAX);
        }
    }
}

#[verifier::rlimit(100)]
#[verifier::spinoff_prover]
proof fn lemma_fb_pairs_sound(e: Seq<u8>, g: Seq<u8>, n: int, i: int, pre: int)
    requires
        i <= n,
    ensures
        fb_dec_pairs(e, g, n, i, pre) matches Some(rv) ==> rv.len() == n - i && e == fb_entries(
            rv,
            n,
            i,
            pre,
        ) && g == fb_strings(rv) && values_fit_u32(rv) && fb_strings_size(rv) == g.len(),
    decreases g.len(),
{
    if i >= n {
        if e.len() == 0 && g.len() == 0 {
            assert(e =~= fb_entries(Seq::<(u32, Seq<char>)>::empty(), n, i, pre));
            assert(g =~= fb_strings(Seq::<(u32, Seq<char>)>::empty()));
        }
    } else if fb_dec_pairs(e, g, n, i, pre) is Some {
        let id = le32_value(e.subrange(4, 8));
        let l = le32_value(g.subrange(0, 4)) as int;
        let blk = fb_blk(l);
        let b = g.subrange(4, 4 + l);
        decode_utf8_encode_utf8(b);
        lemma_fb_pairs_sound(e.skip(12), g.skip(blk), n, i + 1, pre + blk);
        let rest = fb_dec_pairs(e.skip(12), g.skip(blk), n, i + 1, pre + blk)->Some_0;
        let rv = seq![(id, decode_utf8(b))] + rest;
        assert(rv.skip(1) =~= rest);
        assert(rv[0] == (id, decode_utf8(b)));
        assert(value_bytes(rv[0].1) == b);
        assert(b.len() == l);
        assert(e == fb_entries(rv, n, i, pre)) by {
            lemma_le32_complete(e.subrange(4, 8));
            assert(le32((8 + 12 * i) as u32) =~= e.subrange(0, 4));
            assert(le32(id) =~= e.subrange(4, 8));
            assert(le32((12 * (n - i) + pre - 8) as u32) =~= e.subrange(8, 12));
            assert(e =~= e.subrange(0, 4) + e.subrange(4, 8) + e.subrange(8, 12) + e.skip(12));
            assert(e =~= le32((8 + 12 * i) as u32) + le32(id) + le32(
                (12 * (n - i) + pre - 8) as u32,
            ) + e.skip(12));
        }
        assert(g == fb_strings(rv)) by {
            lemma_le32_complete(g.subrange(0, 4));
            assert(le32(b.len() as u32) =~= g.subrange(0, 4));
            assert(g.subrange(0, blk) =~= g.subrange(0, 4) + b + g.subrange(4 + l, blk));
            assert(fb_str_block(b) =~= g.subrange(0, blk));
            assert(g =~= g.subrange(0, blk) + g.skip(blk));
        }
        assert(fb_strings_size(rv) == g.len()) by {
            lemma_fb_strings_len(rv);
        }
        lemma_values_fit_cons((id, decode_utf8(b)), rest);
        assert(values_fit_u32(rv));
    }
}

/// Decoding inverts encoding for every representable row.
#[verifier::rlimit(60)]
pub proof fn lemma_fb_roundtrip(rv: Seq<(u32, Seq<char>)>)
    requires
        fb_encodable(rv),
    ensures
        fb_decode(fb_encode(rv)) == Some(rv),
{
    let s = fb_encode(rv);
    lemma_fb_encode_len(rv);
    let n = rv.len() as int;
    if rv.len() == 0 {
        assert(s.take(20) =~= fb_head_prefix());
        assert(s.subrange(20, 24) =~= le32(0));
        lemma_le32_roundtrip(0);
        assert(rv =~= Seq::<(u32, Seq<char>)>::empty());
    } else {
        lemma_fb_strings_len(rv);
        lemma_fb_entries_len(rv, n, 0, 0);
        lemma_fb_vec_offsets_len(n, 0);
        assert(s.take(20) =~= fb_head_prefix());
        assert(s.subrange(20, 24) =~= le32(n as u32));
        lemma_le32_roundtrip(n as u32);
        assert(s.subrange(24, 24 + 4 * n) =~= fb_vec_offsets(n, 0));
        lemma_fb_vec_ok_from(s, n, 0);
        assert(s.subrange(24 + 4 * n, 32 + 4 * n) =~= fb_vt1());
        assert(s.subrange(32 + 4 * n, 32 + 16 * n) =~= fb_entries(rv, n, 0, 0));
        assert(s.skip(32 + 16 * n) =~= fb_strings(rv));
        lemma_fb_pairs_roundtrip(rv, n, 0, 0);
    }
}

/// A buffer the decoder accepts is exactly the encoding of the row it
/// returns.
#[verifier::rlimit(100)]
#[verifier::spinoff_prover]
pub proof fn lemma_fb_sound(s: Seq<u8>)
    ensures
        fb_decode(s) matches Some(rv) ==> s == fb_encode(rv) && fb_encodable(rv),
{
    if fb_decode(s) is Some {
        let rv = fb_decode(s)->Some_0;
        let n = le32_value(s.subrange(20, 24)) as int;
        lemma_le32_complete(s.subrange(20, 24));
        if n == 0 {
            assert(rv =~= Seq::<(u32, Seq<char>)>::empty());
            assert(s =~= s.take(20) + s.subrange(20, 24));
            assert(s == fb_encode(rv));
        } else {
            lemma_fb_vec_section(s, n, 0);
            lemma_fb_pairs_sound(s.subrange(32 + 4 * n, 32 + 16 * n), s.skip(32 + 16 * n), n, 0, 0);
            assert(rv.len() == n);
            assert(le32(rv.len() as u32) =~= s.subrange(20, 24));
            assert(s =~= s.take(20) + s.subrange(20, 24) + s.subrange(24, 24 + 4 * n) + s.subrange(
                24 + 4 * n,
                32 + 4 * n,
            ) + s.subrange(32 + 4 * n, 32 + 16 * n) + s.skip(32 + 16 * n));
            assert(s == fb_encode(rv));
            lemma_fb_strings_len(rv);
            assert(fb_size(rv) == s.len());
        }
    }
}

proof fn lemma_fb_strings_size_concat(a: Seq<(u32, Seq<char>)>, b: Seq<(u32, Seq<char>)>)
    ensures
        fb_strings_size(a + b) == fb_strings_size(a) + fb_strings_size(b),
    decreases a.len(),
{
    if a.len() == 0 {
        assert(a + b =~= b);
    } else {
        assert((a + b).skip(1) =~= a.skip(1) + b);
        lemma_fb_strings_size_concat(a.skip(1), b);
        assert((a + b)[0] == a[0]);
    }
}

/// Decides whether this format can represent a row: its whole encoding
/// must fit the two-gigabyte offset range, and every value's byte
/// length a 32-bit field.
pub fn check_fb_encodable(row: &[(u32, String)]) -> (b: bool)
    ensures
        b == fb_encodable(row_view(row@)),
{
    let ghost rv = row_view(row@);
    let n = row.len();
    proof {
        lemma_fb_strings_len(rv);
    }
    if n == 0 {
        return true;
    }
    if n as u64 > 0x07ff_ffff {
        return false;
    }
    let mut size: u64 = 32 + 16 * (n as u64);
    if size > 0x7fff_ffff {
        return false;
    }
    let mut k: usize = 0;
    proof {
        assert(rv.take(0) =~= Seq::<(u32, Seq<char>)>::empty());
    }
    while k < n
        invariant
            k <= n,
            n == rv.len(),
            rv == row_view(row@),
            n >= 1,
            size == 32 + 16 * (n as int) + fb_strings_size(rv.take(k as int)),
            size <= 0x7fff_ffff,
            forall|i: int| 0 <= i < k ==> (#[trigger] value_bytes(rv[i].1)).len() <= u32::MAX,
        decreases n - k,
    {
        let pair = slice_index_get(row, k);
        let vb: &[u8] = pair.1.as_str().as_bytes();
        let l = vb.len();
        proof {
            assert(value_bytes(rv[k as int].1) == vb@);
        }
        if l as u64 > 0xffff_ffff {
            proof {
                assert(value_bytes(rv[k as int].1).len() > u32::MAX);
            }
            return false;
        }
        let blk: u64 = 4 + ((l as u64 + 4) / 4) * 4;
        proof {
            assert(blk == fb_blk(vb@.len() as int));
            lemma_fb_strings_size_concat(rv.take(k as int), seq![rv[k as int]]);
            assert(rv.take(k as int + 1) =~= rv.take(k as int) + seq![rv[k as int]]);
            assert(seq![rv[k as int]].skip(1) =~= Seq::<(u32, Seq<char>)>::empty());
            assert(fb_strings_size(Seq::<(u32, Seq<char>)>::empty()) == 0);
            assert(seq![rv[k as int]][0] == rv[k as int]);
            assert(fb_strings_size(seq![rv[k as int]]) == fb_blk(
                value_bytes(rv[k as int].1).len() as int,
            ));
        }
        size = size + blk;
        if size > 0x7fff_ffff {
            proof {
                lemma_fb_strings_size_concat(rv.take(k as int + 1), rv.skip(k as int + 1));
                assert(rv.take(k as int + 1) + rv.skip(k as int + 1) =~= rv);
                lemma_fb_strings_len(rv.skip(k as int + 1));
                assert(fb_size(rv) > 0x7fff_ffff);
            }
            return false;
        }
        k = k + 1;
    }
    proof {
        assert(rv.take(rv.len() as int) =~= rv);
    }
    true
}

/// Checks the entry vector's forward offsets against their canonical
/// values.
fn fb_check_vec(data: &[u8], n: usize) -> (b: bool)
    requires
        0 < n,
        32 + 16 * (n as int) <= data@.len(),
        data@.len() <= 0x7fff_ffff,
    ensures
        b == fb_vec_ok(data@, n as int, 0),
{
    let ghost nn = n as int;
    let mut i: usize = 0;
    while i < n
        invariant
            0 < n,
            nn == n as int,
            i <= n,
            data@.len() >= 32 + 16 * nn,
            data@.len() <= 0x7fff_ffff,
            fb_vec_ok(data@, nn, 0) == fb_vec_ok(data@, nn, i as int),
        decreases n - i,
    {
        let off: u64 = 4 * (n as u64) + 8 + 8 * (i as u64);
        if !check_word(data, 24 + 4 * i, off as u32) {
            proof {
                assert(!fb_vec_ok(data@, nn, i as int));
            }
            return false;
        }
        i = i + 1;
    }
    proof {
        assert(fb_vec_ok(data@, nn, nn));
    }
    true
}

/// Parses the entry tables and string blocks of a buffer whose header
/// has already been validated.
#[verifier::rlimit(100)]
fn fb_parse_pairs(data: &[u8], n: usize) -> (r: Result<Vec<(u32, String)>, CodecError>)
    requires
        0 < n,
        32 + 16 * (n as int) <= data@.len(),
        data@.len() <= 0x7fff_ffff,
    ensures
        match fb_dec_pairs(
            data@.subrange(32 + 4 * (n as int), 32 + 16 * (n as int)),
            data@.skip(32 + 16 * (n as int)),
            n as int,
            0,
            0,
        ) {
            Some(rv) => r matches Ok(out) && row_view(out@) == rv,
            None => r == Err::<Vec<(u32, String)>, CodecError>(CodecError::MalformedInput),
        },
{
    let len = data.len();
    let sbase: usize = 32 + 16 * n;
    let ghost nn = n as int;
    let ghost e_sec = data@.subrange(32 + 4 * nn, 32 + 16 * nn);
    let ghost top = fb_dec_pairs(e_sec, data@.skip(32 + 16 * nn), nn, 0, 0);
    let mut out: Vec<(u32, String)> = Vec::new();
    let mut k: usize = 0;
    let mut gpos: usize = sbase;
    proof {
        assert(e_sec.skip(0) =~= e_sec);
        if let Some(rest) = top {
            assert(row_view(out@) + rest =~= rest);
        }
    }
    while k < n
        invariant
            0 < n,
            nn == n as int,
            k <= n,
            out@.len() == k,
            len == data@.len(),
            sbase == 32 + 16 * nn,
            sbase <= gpos <= data@.len(),
            data@.len() <= 0x7fff_ffff,
            data@.len() >= 32 + 16 * nn,
            e_sec == data@.subrange(32 + 4 * nn, 32 + 16 * nn),
            top == fb_dec_pairs(e_sec, data@.skip(32 + 16 * nn), nn, 0, 0),
            match fb_dec_pairs(
                e_sec.skip(12 * k as int),
                data@.skip(gpos as int),
                nn,
                k as int,
                gpos - sbase,
            ) {
                None => top is None,
                Some(rest) => top == Some(row_view(out@) + rest),
            },
        decreases n - k,
    {
        let ghost e_i = e_sec.skip(12 * k as int);
        let ghost g_i = data@.skip(gpos as int);
        let epos: usize = 32 + 4 * n + 12 * k;
        proof {
            assert(e_i.len() == 12 * (nn - k));
            assert(e_i.subrange(0, 4) =~= data@.subrange(epos as int, epos as int + 4));
            assert(e_i.subrange(4, 8) =~= data@.subrange(epos as int + 4, epos as int + 8));
            assert(e_i.subrange(8, 12) =~= data@.subrange(epos as int + 8, epos as int + 12));
        }
        let soff: u64 = 8 + 12 * (k as u64);
        if !check_word(data, epos, soff as u32) {
            proof {
                assert(e_i.subrange(0, 4) != le32((8 + 12 * k as int) as u32));
            }
            return Err(CodecError::MalformedInput);
        }
        let id = read_le32(data, epos + 4);
        let gl = len - gpos;
        if gl < 4 {
            return Err(CodecError::MalformedInput);
        }
        proof {
            assert(g_i.subrange(0, 4) =~= data@.subrange(gpos as int, gpos as int + 4));
        }
        let l32 = read_le32(data, gpos);
        let l = l32 as usize;
        let blk64: u64 = 4 + ((l32 as u64 + 4) / 4) * 4;
        let stroff: u64 = 12 * ((n - k) as u64) + ((gpos - sbase) as u64) + 8;
        if !check_word(data, epos + 8, (stroff - 16) as u32) {
            proof {
                assert(stroff - 16 == 12 * (nn - k) + (gpos - sbase) - 8);
                assert(e_i.subrange(8, 12) != le32((12 * (nn - k) + (gpos - sbase) - 8) as u32));
            }
            return Err(CodecError::MalformedInput);
        }
        if (gl as u64) < blk64 {
            return Err(CodecError::MalformedInput);
        }
        let blk = blk64 as usize;
        proof {
            assert(blk == fb_blk(l as int));
            assert(4 + l < blk <= gl);
        }
        if !fb_check_zero_tail(data, gpos, l, blk) {
            return Err(CodecError::MalformedInput);
        }
        proof {
            assert(g_i.subrange(4, 4 + l) =~= data@.subrange(gpos as int + 4, gpos as int + 4 + l));
        }
        let vb = slice_to_vec(slice_subrange(data, gpos + 4, gpos + 4 + l));
        match bytes_to_string(vb) {
            None => {
                return Err(CodecError::MalformedInput);
            },
            Some(val) => {
                proof {
                    let b = g_i.subrange(4, 4 + l);
                    encode_utf8_decode_utf8(val@);
                    encode_utf8_valid_utf8(val@);
                    assert(valid_utf8(b));
                    assert(decode_utf8(b) == val@);
                    assert(e_i.skip(12) =~= e_sec.skip(12 * (k as int + 1)));
                    assert(g_i.skip(blk as int) =~= data@.skip(gpos as int + blk));
                    let rest0 = fb_dec_pairs(
                        e_sec.skip(12 * (k as int + 1)),
                        data@.skip(gpos as int + blk),
                        nn,
                        k as int + 1,
                        gpos + blk - sbase,
                    );
                    assert(fb_dec_pairs(e_i, g_i, nn, k as int, gpos - sbase) == (match rest0 {
                        None => None::<Seq<(u32, Seq<char>)>>,
                        Some(rest) => Some(seq![(id, decode_utf8(b))] + rest),
                    }));
                    if rest0 is Some {
                        assert(row_view(out@.push((id, val))) =~= row_view(out@).push((id, val@)));
                        assert(row_view(out@) + (seq![(id, val@)] + rest0->Some_0) =~= row_view(
                            out@.push((id, val)),
                        ) + rest0->Some_0);
                    }
                }
                out.push((id, val));
                gpos = gpos + blk;
                k = k + 1;
            },
        }
    }
    proof {
        assert(e_sec.skip(12 * nn).len() == 0);
    }
    if gpos != len {
        return Err(CodecError::MalformedInput);
    }
    proof {
        assert(data@.skip(gpos as int).len() == 0);
        assert(row_view(out@) + Seq::<(u32, Seq<char>)>::empty() =~= row_view(out@));
    }
    Ok(out)
}

/// Checks that a string block's terminator and padding bytes are zero.
fn fb_check_zero_tail(data: &[u8], gpos: usize, l: usize, blk: usize) -> (b: bool)
    requires
        4 + l < blk,
        gpos + blk <= data@.len(),
        blk == fb_blk(l as int),
    ensures
        b == (data@.skip(gpos as int).subrange(4 + l, blk as int) == zero_bytes(
            (blk - 4 - l) as nat,
        )),
{
    let ghost g_i = data@.skip(gpos as int);
    proof {
        assert(data@.len() == vstd::slice::spec_slice_len(data));
    }
    let mut j: usize = 4 + l;
    let mut padding_ok: bool = true;
    while j < blk
        invariant
            4 + l <= j <= blk,
            gpos + blk <= data@.len(),
            data@.len() <= usize::MAX,
            g_i == data@.skip(gpos as int),
            g_i.len() >= blk,
            padding_ok ==> forall|m: int| 4 + l <= m < j ==> g_i[m] == 0u8,
            !padding_ok ==> exists|m: int| #![auto] 4 + l <= m < blk && g_i[m] != 0u8,
        decreases blk - j,
    {
        if data[gpos + j] != 0 {
            proof {
                assert(g_i[j as int] != 0u8);
            }
            padding_ok = false;
        }
        j = j + 1;
    }
    if padding_ok {
        proof {
            assert(g_i.subrange(4 + l, blk as int) =~= zero_bytes((blk - 4 - l) as nat));
        }
        true
    } else {
        proof {
            let m = choose|m: int| #![auto] 4 + l <= m < blk && g_i[m] != 0u8;
            assert(g_i.subrange(4 + l, blk as int) != zero_bytes((blk - 4 - l) as nat)) by {
                assert(g_i.subrange(4 + l, blk as int)[m - 4 - l] != 0u8);
                assert(zero_bytes((blk - 4 - l) as nat)[m - 4 - l] == 0u8);
            }
        }
        false
    }
}

/// Parses a complete canonical FlatBuffer buffer, strictly.
#[verifier::rlimit(100)]
fn fb_decode_exec(data: &[u8]) -> (r: Result<Vec<(u32, String)>, CodecError>)
    ensures
        match fb_decode(data@) {
            Some(rv) => r matches Ok(out) && row_view(out@) == rv,
            None => r == Err::<Vec<(u32, String)>, CodecError>(CodecError::MalformedInput),
        },
{
    let len = data.len();
    if len > 0x7fff_ffff {
        return Err(CodecError::MalformedInput);
    }
    if len < 24 {
        return Err(CodecError::MalformedInput);
    }
    proof {
        assert(fb_head_prefix().subrange(0, 4) =~= le32(12));
        assert(fb_head_prefix().subrange(4, 8) =~= le32(0x0008_0006));
        assert(fb_head_prefix().subrange(8, 12) =~= le32(4));
        assert(fb_head_prefix().subrange(12, 16) =~= le32(8));
        assert(fb_head_prefix().subrange(16, 20) =~= le32(4));
        assert(data@.take(20).subrange(0, 4) =~= data@.subrange(0, 4));
        assert(data@.take(20).subrange(4, 8) =~= data@.subrange(4, 8));
        assert(data@.take(20).subrange(8, 12) =~= data@.subrange(8, 12));
        assert(data@.take(20).subrange(12, 16) =~= data@.subrange(12, 16));
        assert(data@.take(20).subrange(16, 20) =~= data@.subrange(16, 20));
    }
    let head_ok = check_word(data, 0, 12) && check_word(data, 4, 0x0008_0006) && check_word(
        data,
        8,
        4,
    ) && check_word(data, 12, 8) && check_word(data, 16, 4);
    if !head_ok {
        proof {
            assert(data@.take(20) != fb_head_prefix());
        }
        return Err(CodecError::MalformedInput);
    }
    proof {
        assert(data@.take(20) =~= data@.subrange(0, 4) + data@.subrange(4, 8) + data@.subrange(
            8,
            12,
        ) + data@.subrange(12, 16) + data@.subrange(16, 20));
        assert(data@.take(20) == fb_head_prefix());
    }
    let n32 = read_le32(data, 20);
    let n = n32 as usize;
    if n == 0 {
        if len == 24 {
            let out: Vec<(u32, String)> = Vec::new();
            proof {
                assert(row_view(out@) =~= Seq::<(u32, Seq<char>)>::empty());
            }
            return Ok(out);
        } else {
            return Err(CodecError::MalformedInput);
        }
    }
    if (len as u64) < 32 + 16 * (n as u64) {
        return Err(CodecError::MalformedInput);
    }
    let ghost nn = n as int;
    if !fb_check_vec(data, n) {
        return Err(CodecError::MalformedInput);
    }
    proof {
        assert(fb_vt1().subrange(0, 4) =~= le32(0x000C_0008));
        assert(fb_vt1().subrange(4, 8) =~= le32(0x0008_0004));
        assert(data@.subrange(24 + 4 * nn, 32 + 4 * nn).subrange(0, 4) =~= data@.subrange(
            24 + 4 * nn,
            28 + 4 * nn,
        ));
        assert(data@.subrange(24 + 4 * nn, 32 + 4 * nn).subrange(4, 8) =~= data@.subrange(
            28 + 4 * nn,
            32 + 4 * nn,
        ));
    }
    if !(check_word(data, 24 + 4 * n, 0x000C_0008) && check_word(data, 28 + 4 * n, 0x0008_0004)) {
        proof {
            assert(data@.subrange(24 + 4 * nn, 32 + 4 * nn) != fb_vt1());
        }
        return Err(CodecError::MalformedInput);
    }
    proof {
        assert(data@.subrange(24 + 4 * nn, 32 + 4 * nn) =~= data@.subrange(24 + 4 * nn, 28 + 4 * nn)
            + data@.subrange(28 + 4 * nn, 32 + 4 * nn));
        assert(data@.subrange(24 + 4 * nn, 32 + 4 * nn) == fb_vt1());
    }
    fb_parse_pairs(data, n)
}

impl RowEncoder for FlatBufferEncoder {
    open spec fn spec_name(&self) -> Seq<char> {
        "flatbuffer"@
    }

    open spec fn encodable(&self, rv: Seq<(u32, Seq<char>)>) -> bool {
        fb_encodable(rv)
    }

    open spec fn spec_encode(&self, rv: Seq<(u32, Seq<char>)>) -> Seq<u8> {
        fb_encode(rv)
    }

    fn name(&self) -> (r: &'static str) {
        "flatbuffer"
    }

    fn check_encodable(&self, row: &[(u32, String)]) -> (b: bool) {
        check_fb_encodable(row)
    }

    #[verifier::rlimit(100)]
    fn encode(&self, buffer: &mut Vec<u8>, row: &[(u32, String)]) {
        let ghost rv = row_view(row@);
        let ghost prior = buffer@;
        let n = row.len();
        let ghost nn = n as int;
        proof {
            lemma_fb_strings_len(rv);
        }
        push_le32(buffer, 12);
        push_le32(buffer, 0x0008_0006);
        push_le32(buffer, 4);
        push_le32(buffer, 8);
        push_le32(buffer, 4);
        push_le32(buffer, n as u32);
        proof {
            assert(buffer@ =~= prior + (fb_head_prefix() + le32(n as u32)));
        }
        if n == 0 {
            proof {
                assert(buffer@ =~= prior + fb_encode(rv));
            }
            return ;
        }
        let ghost base = prior + (fb_head_prefix() + le32(n as u32));
        let mut i: usize = 0;
        while i < n
            invariant
                0 < n <= 0x07ff_ffff,
                nn == n as int,
                n == rv.len(),
                i <= n,
                fb_size(rv) <= 0x7fff_ffff,
                fb_strings_size(rv) >= 0,
                buffer@ + fb_vec_offsets(nn, i as int) == base + fb_vec_offsets(nn, 0),
            decreases n - i,
        {
            let off: u64 = 4 * (n as u64) + 8 + 8 * (i as u64);
            push_le32(buffer, off as u32);
            proof {
                assert(fb_vec_offsets(nn, i as int) =~= le32((4 * nn + 8 + 8 * i) as u32)
                    + fb_vec_offsets(nn, i as int + 1));
                assert(buffer@ + fb_vec_offsets(nn, i as int + 1) =~= base + fb_vec_offsets(
                    nn,
                    0,
                ));
            }
            i = i + 1;
        }
        proof {
            assert(fb_vec_offsets(nn, nn) =~= Seq::<u8>::empty());
            assert(buffer@ =~= base + fb_vec_offsets(nn, 0));
        }
        push_le32(buffer, 0x000C_0008);
        push_le32(buffer, 0x0008_0004);
        let ghost base2 = base + fb_vec_offsets(nn, 0) + fb_vt1();
        proof {
            assert(buffer@ =~= base2);
            assert(rv.skip(0) =~= rv);
        }
        let mut pre: u64 = 0;
        let mut k: usize = 0;
        while k < n
            invariant
                0 < n <= 0x07ff_ffff,
                nn == n as int,
                n == rv.len(),
                k <= n,
                rv == row_view(row@),
                fb_encodable(rv),
                fb_strings_size(rv) == pre + fb_strings_size(rv.skip(k as int)),
                fb_strings_size(rv) <= 0x7fff_ffff,
                pre <= 0x7fff_ffff,
                buffer@ + fb_entries(rv.skip(k as int), nn, k as int, pre as int) == base2
                    + fb_entries(rv, nn, 0, 0),
            decreases n - k,
        {
            let pair = slice_index_get(row, k);
            let soff: u64 = 8 + 12 * (k as u64);
            push_le32(buffer, soff as u32);
            push_le32(buffer, pair.0);
            let vb: &[u8] = pair.1.as_str().as_bytes();
            let l = vb.len();
            proof {
                assert(value_bytes(rv[k as int].1) == vb@);
                assert(value_bytes(rv[k as int].1).len() <= u32::MAX);
                lemma_fb_strings_len(rv.skip(k as int + 1));
                assert(fb_strings_size(rv.skip(k as int)) == fb_blk(l as int) + fb_strings_size(
                    rv.skip(k as int + 1),
                )) by {
                    assert(rv.skip(k as int).skip(1) =~= rv.skip(k as int + 1));
                    assert(rv.skip(k as int)[0] == rv[k as int]);
                }
            }
            let blk: u64 = 4 + ((l as u64 + 4) / 4) * 4;
            let stroff: u64 = 12 * ((n - k) as u64) + pre - 8;
            push_le32(buffer, stroff as u32);
            proof {
                let tail = fb_entries(rv.skip(k as int + 1), nn, k as int + 1, pre as int + fb_blk(
                    l as int,
                ));
                assert(fb_entries(rv.skip(k as int), nn, k as int, pre as int) =~= le32(
                    (8 + 12 * k as int) as u32,
                ) + le32(rv[k as int].0) + le32((12 * (nn - k) + pre - 8) as u32) + tail) by {
                    assert(rv.skip(k as int).skip(1) =~= rv.skip(k as int + 1));
                    assert(rv.skip(k as int)[0] == rv[k as int]);
                }
                assert(buffer@ + tail =~= base2 + fb_entries(rv, nn, 0, 0));
                assert(blk == fb_blk(l as int));
            }
            pre = pre + blk;
            k = k + 1;
        }
        proof {
            assert(fb_entries(rv.skip(nn), nn, nn, pre as int) =~= Seq::<u8>::empty()) by {
                assert(rv.skip(nn).len() == 0);
            }
            assert(buffer@ =~= base2 + fb_entries(rv, nn, 0, 0));
        }
        let ghost base3 = base2 + fb_entries(rv, nn, 0, 0);
        let mut m: usize = 0;
        while m < n
            invariant
                nn == n as int,
                n == rv.len(),
                m <= n,
                rv == row_view(row@),
                fb_encodable(rv),
                buffer@ + fb_strings(rv.skip(m as int)) == base3 + fb_strings(rv),
            decreases n - m,
        {
            let pair = slice_index_get(row, m);
            let vb: &[u8] = pair.1.as_str().as_bytes();
            let l = vb.len();
            proof {
                assert(value_bytes(rv[m as int].1) == vb@);
                assert(value_bytes(rv[m as int].1).len() <= u32::MAX);
            }
            push_le32(buffer, l as u32);
            push_bytes(buffer, vb);
            let pad: usize = 4 - (l % 4);
            let ghost before = buffer@;
            let mut j: usize = 0;
            while j < pad
                invariant
                    j <= pad,
                    buffer@ == before + zero_bytes(j as nat),
                decreases pad - j,
            {
                buffer.push(0u8);
                proof {
                    assert(before + zero_bytes(j as nat + 1) =~= (before + zero_bytes(
                        j as nat,
                    )).push(0u8));
                }
                j = j + 1;
            }
            proof {
                assert(pad == fb_blk(l as int) - 4 - l);
                assert(fb_str_block(vb@) =~= le32(l as u32) + vb@ + zero_bytes(pad as nat));
                assert(fb_strings(rv.skip(m as int)) =~= fb_str_block(vb@) + fb_strings(
                    rv.skip(m as int + 1),
                )) by {
                    assert(rv.skip(m as int).skip(1) =~= rv.skip(m as int + 1));
                    assert(rv.skip(m as int)[0] == rv[m as int]);
                }
                assert(buffer@ + fb_strings(rv.skip(m as int + 1)) =~= base3 + fb_strings(rv));
            }
            m = m + 1;
        }
        proof {
            assert(fb_strings(rv.skip(nn)) =~= Seq::<u8>::empty()) by {
                assert(rv.skip(nn).len() == 0);
            }
            assert(buffer@ =~= base3 + fb_strings(rv));
            assert(buffer@ =~= prior + fb_encode(rv));
        }
    }

    fn decode(&self, data: &[u8]) -> (r: Result<Vec<(u32, String)>, CodecError>) {
        let r = fb_decode_exec(data);
        proof {
            lemma_fb_sound(data@);
            assert forall|rv: Seq<(u32, Seq<char>)>|
                fb_encodable(rv) && data@ == fb_encode(rv) implies (r matches Ok(out) && row_view(
                out@,
            ) == rv) by {
                lemma_fb_roundtrip(rv);
            }
        }
        r
    }
}

} // verus!
