//! Binary row codecs and a streaming identity hasher for label rows.
//!
//! A row is an ordered sequence of `(column_id, value)` pairs.  The
//! codec modules turn a row into an opaque byte key and back; the
//! hashing modules fold a row's label names and values into a stable
//! 64-bit identifier.

use vstd::prelude::*;
use vstd::slice::slice_to_vec;
use vstd::utf8::encode_utf8;

pub mod bytes;
pub mod codec;
pub mod flatbuf;
pub mod hashers;
pub mod length_prefixed;
pub mod memcomp;
pub mod ts_id_gen;
pub mod varint;

pub use codec::{CodecError, RowEncoder, encode_to_vec, try_encode_to_vec, check_row_fits};
pub use flatbuf::FlatBufferEncoder;
pub use length_prefixed::LengthPrefixedEncoder;
pub use memcomp::MemcomparableEncoder;
pub use varint::{VarintEncoder, encode_varint, decode_varint};
pub use ts_id_gen::{SeededHasher, TsIdGenerator, hash_label_names, compute_ts_id};
pub use hashers::{
    StdHasher64, Xxh3Hasher, Xxh64Hasher, Fx64Hasher, Mur3Hasher, DefaultTsIdGenerator,
    FxTsIdGenerator, Mur3TsIdGenerator, Xx3TsIdGenerator, Xx64TsIdGenerator,
};

use crate::codec::row_view;
use crate::ts_id_gen::schema_seed;

verus! {

/// A parsed label data set: the schema's ordered names, the schema
/// seed derived from them, and the per-row value lists.
pub struct Labels {
    pub label_names: Vec<String>,
    pub label_name_hash: u64,
    pub label_values: Vec<Vec<String>>,
}

/// The UTF-8 bytes of each string in a list, in order.
pub open spec fn strings_bytes(names: Seq<String>) -> Seq<Seq<u8>> {
    Seq::new(names.len(), |i: int| encode_utf8(names[i]@))
}

/// Builds a label set from parsed header names and value records,
/// computing the schema seed with hash algorithm `H`.
pub fn build_labels<H: SeededHasher>(
    label_names: Vec<String>,
    label_values: Vec<Vec<String>>,
) -> (r: Labels)
    ensures
        r.label_names == label_names,
        r.label_values == label_values,
        r.label_name_hash == schema_seed::<H>(strings_bytes(label_names@)),
{
    let name_bytes = strings_to_bytes(&label_names);
    let label_name_hash = ts_id_gen::hash_label_names::<H>(name_bytes.as_slice());
    Labels { label_names, label_name_hash, label_values }
}

/// Copies each string's UTF-8 bytes into a byte vector.
pub fn strings_to_bytes(values: &Vec<String>) -> (out: Vec<Vec<u8>>)
    ensures
        out.deep_view() == strings_bytes(values@),
{
    let mut out: Vec<Vec<u8>> = Vec::new();
    let mut k: usize = 0;
    while k < values.len()
        invariant
            k <= values@.len(),
            out@.len() == k,
            forall|i: int| 0 <= i < k ==> (#[trigger] out@[i])@ == encode_utf8(values@[i]@),
        decreases values@.len() - k,
    {
        let vb = slice_to_vec(values[k].as_str().as_bytes());
        out.push(vb);
        k = k + 1;
    }
    proof {
        assert forall|i: int| 0 <= i < out@.len() implies out.deep_view()[i] == strings_bytes(
            values@,
        )[i] by {
            assert(out.deep_view()[i] =~= out@[i]@);
        }
        assert(out.deep_view() =~= strings_bytes(values@));
    }
    out
}

/// Encodes every row with one codec, one buffer per row; `None` exactly
/// when some row is beyond the codec's width limits.
pub fn encode_rows<E: RowEncoder>(encoder: &E, rows: &Vec<Vec<(u32, String)>>) -> (out: Option<
    Vec<Vec<u8>>,
>)
    ensures
        match out {
            Some(bufs) => bufs@.len() == rows@.len() && forall|i: int|
                0 <= i < rows@.len() ==> (#[trigger] bufs@[i])@ == encoder.spec_encode(
                    row_view(rows@[i]@),
                ),
            None => exists|i: int|
                0 <= i < rows@.len() && !encoder.encodable(row_view(#[trigger] rows@[i]@)),
        },
{
    let mut bufs: Vec<Vec<u8>> = Vec::new();
    let mut k: usize = 0;
    while k < rows.len()
        invariant
            k <= rows@.len(),
            bufs@.len() == k,
            forall|i: int|
                0 <= i < k ==> (#[trigger] bufs@[i])@ == encoder.spec_encode(row_view(rows@[i]@)),
        decreases rows@.len() - k,
    {
        let row: &Vec<(u32, String)> = &rows[k];
        match try_encode_to_vec(encoder, row.as_slice()) {
            Some(buf) => {
                bufs.push(buf);
            },
            None => {
                return None;
            },
        }
        k = k + 1;
    }
    Some(bufs)
}

} // verus!
