//! The row-codec capability: a common contract for encoding and decoding
//! rows of `(column_id, value)` pairs.

use vstd::prelude::*;
use vstd::slice::slice_index_get;
use vstd::utf8::encode_utf8;

verus! {

/// A decode-time failure: the buffer is not a complete encoding of any row.
#[derive(Clone, Copy, Debug, PartialEq, Eq, Structural)]
pub enum CodecError {
    /// The buffer is truncated, carries an invalid framing byte, or holds
    /// value bytes that are not valid UTF-8.
    MalformedInput,
}

/// The mathematical value of a row: each pair keeps its column id and the
/// character sequence of its value.
pub open spec fn row_view(row: Seq<(u32, String)>) -> Seq<(u32, Seq<char>)> {
    Seq::new(row.len(), |i: int| (row[i].0, row[i].1@))
}

/// The UTF-8 bytes of one row value.
pub open spec fn value_bytes(v: Seq<char>) -> Seq<u8> {
    encode_utf8(v)
}

/// `a` agrees with `b` up to position `i`, where either `a` ends while
/// `b` continues, or `a`'s byte is the smaller.
pub open spec fn lex_lt_at(a: Seq<u8>, b: Seq<u8>, i: int) -> bool {
    0 <= i <= a.len() && i < b.len() && a.take(i) == b.take(i) && (i == a.len() || a[i] < b[i])
}

/// Strict byte-lexicographic order: `a` is a proper prefix of `b`, or
/// the first differing byte of `a` is the smaller.
pub open spec fn lex_lt(a: Seq<u8>, b: Seq<u8>) -> bool {
    exists|i: int| lex_lt_at(a, b, i)
}

/// Exhibits byte-lexicographic order from one differing position.
pub proof fn lemma_lex_lt_by_diff(a: Seq<u8>, b: Seq<u8>, i: int)
    requires
        0 <= i < a.len(),
        i < b.len(),
        a.take(i) == b.take(i),
        a[i] < b[i],
    ensures
        lex_lt(a, b),
{
    assert(lex_lt_at(a, b, i));
}

/// A shared prefix does not disturb byte-lexicographic order.
pub proof fn lemma_lex_lt_concat(p: Seq<u8>, u: Seq<u8>, v: Seq<u8>)
    requires
        lex_lt(u, v),
    ensures
        lex_lt(p + u, p + v),
{
    let i = choose|i: int| lex_lt_at(u, v, i);
    assert((p + u).take(p.len() + i) =~= p + u.take(i));
    assert((p + v).take(p.len() + i) =~= p + v.take(i));
    assert(lex_lt_at(p + u, p + v, p.len() + i));
}

/// Every value's byte length fits a 32-bit length field.
pub open spec fn values_fit_u32(rv: Seq<(u32, Seq<char>)>) -> bool {
    forall|i: int| 0 <= i < rv.len() ==> (#[trigger] value_bytes(rv[i].1)).len() <= u32::MAX
}

/// The pair count and every value's byte length fit 32 bits.
pub open spec fn row_fits_u32(rv: Seq<(u32, Seq<char>)>) -> bool {
    rv.len() <= u32::MAX && values_fit_u32(rv)
}

/// Decides whether the pair count and every value's byte length fit a
/// 32-bit field.
pub fn check_row_fits(row: &[(u32, String)]) -> (b: bool)
    ensures
        b == row_fits_u32(row_view(row@)),
{
    let ghost rv = row_view(row@);
    if row.len() > u32::MAX as usize {
        return false;
    }
    let mut k: usize = 0;
    while k < row.len()
        invariant
            k <= row@.len(),
            rv == row_view(row@),
            rv.len() <= u32::MAX,
            forall|i: int| 0 <= i < k ==> (#[trigger] value_bytes(rv[i].1)).len() <= u32::MAX,
        decreases row@.len() - k,
    {
        let pair = slice_index_get(row, k);
        let vb: &[u8] = pair.1.as_str().as_bytes();
        if vb.len() > u32::MAX as usize {
            proof {
                assert(value_bytes(rv[k as int].1).len() > u32::MAX);
            }
            return false;
        }
        proof {
            assert(value_bytes(rv[k as int].1).len() <= u32::MAX);
        }
        k = k + 1;
    }
    true
}

/// A codec for rows of `(column_id, value)` pairs.
///
/// Every implementation fixes one wire format, given exactly by
/// `spec_encode`.  `decode` is strict: it accepts a buffer if and only if
/// the buffer is the encoding of some row, and then returns that row.
pub trait RowEncoder {
    /// The characters of the stable name this codec reports.
    spec fn spec_name(&self) -> Seq<char>;

    /// Which rows this codec can represent (width limits of the format).
    spec fn encodable(&self, rv: Seq<(u32, Seq<char>)>) -> bool;

    /// The exact bytes this codec produces for a row.
    spec fn spec_encode(&self, rv: Seq<(u32, Seq<char>)>) -> Seq<u8>;

    /// A stable identifier for the codec, used for reporting only.
    fn name(&self) -> (r: &'static str)
        ensures
            r@ == self.spec_name(),
    ;

    /// Decides `encodable` for a concrete row.
    fn check_encodable(&self, row: &[(u32, String)]) -> (b: bool)
        ensures
            b == self.encodable(row_view(row@)),
    ;

    /// Appends the encoding of `row` to `buffer`; prior content is kept.
    fn encode(&self, buffer: &mut Vec<u8>, row: &[(u32, String)])
        requires
            self.encodable(row_view(row@)),
        ensures
            final(buffer)@ == old(buffer)@ + self.spec_encode(row_view(row@)),
    ;

    /// Parses a complete encoded buffer back into a row.
    ///
    /// Succeeds exactly on the buffers that `encode` produces, and then
    /// returns the encoded row; anything else is `MalformedInput`.
    fn decode(&self, data: &[u8]) -> (r: Result<Vec<(u32, String)>, CodecError>)
        ensures
            (r matches Ok(out) ==> self.encodable(row_view(out@)) && data@ == self.spec_encode(
                row_view(out@),
            )),
            forall|rv: Seq<(u32, Seq<char>)>|
                self.encodable(rv) && data@ == #[trigger] self.spec_encode(rv) ==> (r matches Ok(
                    out,
                ) && row_view(out@) == rv),
            (r matches Err(e) ==> e == CodecError::MalformedInput),
    ;
}

/// Encodes a row into a fresh buffer.
pub fn encode_to_vec<E: RowEncoder>(encoder: &E, row: &[(u32, String)]) -> (out: Vec<u8>)
    requires
        encoder.encodable(row_view(row@)),
    ensures
        out@ == encoder.spec_encode(row_view(row@)),
{
    let mut buffer: Vec<u8> = Vec::new();
    encoder.encode(&mut buffer, row);
    buffer
}

/// Encodes a row into a fresh buffer after checking that the codec can
/// represent it; returns `None` exactly when it cannot.
pub fn try_encode_to_vec<E: RowEncoder>(encoder: &E, row: &[(u32, String)]) -> (out: Option<
    Vec<u8>,
>)
    ensures
        match out {
            Some(v) => encoder.encodable(row_view(row@)) && v@ == encoder.spec_encode(
                row_view(row@),
            ),
            None => !encoder.encodable(row_view(row@)),
        },
{
    if encoder.check_encodable(row) {
        Some(encode_to_vec(encoder, row))
    } else {
        None
    }
}

} // verus!
