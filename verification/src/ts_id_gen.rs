//! Time-series identity hashing: a generic accumulator over a streaming
//! 64-bit hash, driven by the two-phase schema/row protocol.
//!
//! Phase one hashes the ordered label names once per schema and yields a
//! schema seed; phase two starts each row's hasher from that seed and
//! absorbs only the row's values.  Every absorbed field is followed by
//! the single delimiter byte `0xFF`.

use vstd::prelude::*;

verus! {

/// A streaming 64-bit hash capability with deterministic seeding.
///
/// A hasher's abstract state is the pair of its starting point (the
/// default state, or a 64-bit seed) and the ordered sequence of write
/// calls absorbed so far; `spec_digest` names the algorithm's digest as
/// a pure function of that state.  Implementations for outside hash
/// algorithms are expected to uphold exactly this: the digest depends on
/// nothing but the seed and the writes.
pub trait SeededHasher: Sized {
    /// The seed this hasher started from; `None` for the default state.
    spec fn init(&self) -> Option<u64>;

    /// The byte slices absorbed so far, one entry per write call.
    spec fn writes(&self) -> Seq<Seq<u8>>;

    /// The algorithm's digest as a function of the starting state and
    /// the absorbed writes.
    spec fn spec_digest(init: Option<u64>, writes: Seq<Seq<u8>>) -> u64;

    /// A hasher in the algorithm's default state.
    fn default_state() -> (r: Self)
        ensures
            r.init() == None::<u64>,
            r.writes() == Seq::<Seq<u8>>::empty(),
    ;

    /// A hasher whose state is seeded from a 64-bit value.
    fn from_seed(seed: u64) -> (r: Self)
        ensures
            r.init() == Some(seed),
            r.writes() == Seq::<Seq<u8>>::empty(),
    ;

    /// Absorbs one byte slice.
    fn write(&mut self, bytes: &[u8])
        ensures
            final(self).init() == old(self).init(),
            final(self).writes() == old(self).writes().push(bytes@),
    ;

    /// The digest of everything absorbed so far.
    fn finish(&self) -> (r: u64)
        ensures
            r == Self::spec_digest(self.init(), self.writes()),
    ;
}

/// The write calls a field list produces: each field's bytes, then the
/// one-byte `0xFF` delimiter.
pub open spec fn delimited_writes(vals: Seq<Seq<u8>>) -> Seq<Seq<u8>>
    decreases vals.len(),
{
    if vals.len() == 0 {
        Seq::empty()
    } else {
        seq![vals[0], seq![0xFFu8]] + delimited_writes(vals.skip(1))
    }
}

/// The digest of one write session: start at `init`, then absorb each
/// field of `vals` followed by the delimiter.
pub open spec fn session_digest<H: SeededHasher>(init: Option<u64>, vals: Seq<Seq<u8>>) -> u64 {
    H::spec_digest(init, delimited_writes(vals))
}

/// The schema seed: the session digest of the label names from the
/// default state.
pub open spec fn schema_seed<H: SeededHasher>(names: Seq<Seq<u8>>) -> u64 {
    session_digest::<H>(None, names)
}

/// The identifier the two-phase protocol assigns to a row: the values'
/// session digest, seeded by the schema seed of the names.
pub open spec fn two_phase_ts_id<H: SeededHasher>(
    names: Seq<Seq<u8>>,
    values: Seq<Seq<u8>>,
) -> u64 {
    session_digest::<H>(Some(schema_seed::<H>(names)), values)
}

/// A single-use identifier generator over a streaming hasher.
pub struct TsIdGenerator<H> {
    hasher: H,
}

impl<H: SeededHasher> TsIdGenerator<H> {
    /// The seed the underlying hasher started from.
    pub closed spec fn init(&self) -> Option<u64> {
        self.hasher.init()
    }

    /// The write calls absorbed so far.
    pub closed spec fn writes(&self) -> Seq<Seq<u8>> {
        self.hasher.writes()
    }

    /// Wraps an existing hasher.
    pub fn new(hasher: H) -> (r: Self)
        ensures
            r.init() == hasher.init(),
            r.writes() == hasher.writes(),
    {
        TsIdGenerator { hasher }
    }

    /// A generator whose hash state is seeded from `seed`.
    pub fn from_seed(seed: u64) -> (r: Self)
        ensures
            r.init() == Some(seed),
            r.writes() == Seq::<Seq<u8>>::empty(),
    {
        TsIdGenerator { hasher: H::from_seed(seed) }
    }

    /// Absorbs the ordered label names, each followed by the delimiter.
    pub fn write_label_names(&mut self, label_names: &[Vec<u8>])
        ensures
            final(self).init() == old(self).init(),
            final(self).writes() == old(self).writes() + delimited_writes(
                label_names.deep_view(),
            ),
    {
        self.write_delimited(label_names);
    }

    /// Absorbs the ordered label values, each followed by the delimiter.
    pub fn write_label_values(&mut self, label_values: &[Vec<u8>])
        ensures
            final(self).init() == old(self).init(),
            final(self).writes() == old(self).writes() + delimited_writes(
                label_values.deep_view(),
            ),
    {
        self.write_delimited(label_values);
    }

    /// Consumes the generator and returns the accumulated digest.
    pub fn build_ts_id(self) -> (r: u64)
        ensures
            r == H::spec_digest(self.init(), self.writes()),
    {
        self.hasher.finish()
    }

    /// Absorbs the label names and returns the digest without consuming
    /// the generator.
    pub fn write_label_names_and_finish(&mut self, label_names: &[Vec<u8>]) -> (r: u64)
        ensures
            final(self).init() == old(self).init(),
            final(self).writes() == old(self).writes() + delimited_writes(
                label_names.deep_view(),
            ),
            r == H::spec_digest(final(self).init(), final(self).writes()),
    {
        self.write_delimited(label_names);
        self.hasher.finish()
    }

    fn write_delimited(&mut self, vals: &[Vec<u8>])
        ensures
            final(self).init() == old(self).init(),
            final(self).writes() == old(self).writes() + delimited_writes(vals.deep_view()),
    {
        let ghost vv = vals.deep_view();
        let mut delim: Vec<u8> = Vec::new();
        delim.push(0xFFu8);
        proof {
            assert(delim@ =~= seq![0xFFu8]);
            assert(old(self).writes() + delimited_writes(vv.take(0)) =~= old(self).writes());
        }
        let mut k: usize = 0;
        while k < vals.len()
            invariant
                k <= vals@.len(),
                vv == vals.deep_view(),
                vv.len() == vals@.len(),
                delim@ == seq![0xFFu8],
                self.hasher.init() == old(self).hasher.init(),
                self.hasher.writes() == old(self).hasher.writes() + delimited_writes(
                    vv.take(k as int),
                ),
            decreases vals@.len() - k,
        {
            let v = vstd::slice::slice_index_get(vals, k);
            self.hasher.write(v.as_slice());
            self.hasher.write(delim.as_slice());
            proof {
                lemma_delimited_writes_concat(vv.take(k as int), seq![vv[k as int]]);
                assert(vv.take(k as int + 1) =~= vv.take(k as int) + seq![vv[k as int]]);
                assert(seq![vv[k as int]].skip(1) =~= Seq::<Seq<u8>>::empty());
                assert(delimited_writes(Seq::<Seq<u8>>::empty()) =~= Seq::<Seq<u8>>::empty());
                assert(delimited_writes(seq![vv[k as int]]) =~= seq![
                    vv[k as int],
                    seq![0xFFu8],
                ]);
                assert(v@ == vv[k as int]);
                assert(self.hasher.writes() =~= old(self).hasher.writes() + delimited_writes(
                    vv.take(k as int + 1),
                ));
            }
            k = k + 1;
        }
        proof {
            assert(vv.take(vv.len() as int) =~= vv);
        }
    }
}

impl<H: SeededHasher> Default for TsIdGenerator<H> {
    /// A generator over a hasher in its default state.
    fn default() -> (r: Self)
        ensures
            r.init() == None::<u64>,
            r.writes() == Seq::<Seq<u8>>::empty(),
    {
        TsIdGenerator { hasher: H::default_state() }
    }
}

proof fn lemma_delimited_writes_concat(a: Seq<Seq<u8>>, b: Seq<Seq<u8>>)
    ensures
        delimited_writes(a + b) == delimited_writes(a) + delimited_writes(b),
    decreases a.len(),
{
    if a.len() == 0 {
        assert(a + b =~= b);
        assert(delimited_writes(a) + delimited_writes(b) =~= delimited_writes(b));
    } else {
        assert((a + b).skip(1) =~= a.skip(1) + b);
        lemma_delimited_writes_concat(a.skip(1), b);
        assert(delimited_writes(a + b) =~= delimited_writes(a) + delimited_writes(b));
    }
}

/// Computes the schema seed of the ordered label names.
pub fn hash_label_names<H: SeededHasher>(label_names: &[Vec<u8>]) -> (r: u64)
    ensures
        r == schema_seed::<H>(label_names.deep_view()),
{
    let mut generator = TsIdGenerator::<H>::default();
    generator.write_label_names(label_names);
    proof {
        assert(Seq::<Seq<u8>>::empty() + delimited_writes(label_names.deep_view())
            =~= delimited_writes(label_names.deep_view()));
    }
    generator.build_ts_id()
}

/// Computes a row identifier from a schema seed and the row's ordered
/// values.  For a fixed hash algorithm the result is a pure function of
/// `(seed, values)`: repeated generator instances always agree.
pub fn compute_ts_id<H: SeededHasher>(seed: u64, label_values: &[Vec<u8>]) -> (r: u64)
    ensures
        r == session_digest::<H>(Some(seed), label_values.deep_view()),
{
    let mut generator = TsIdGenerator::<H>::from_seed(seed);
    generator.write_label_values(label_values);
    proof {
        assert(Seq::<Seq<u8>>::empty() + delimited_writes(label_values.deep_view())
            =~= delimited_writes(label_values.deep_view()));
    }
    generator.build_ts_id()
}

/// Identity determinism: a row identifier depends on nothing but the
/// schema seed and the ordered value bytes; two independent sessions
/// over equal inputs produce the same identifier.
pub proof fn lemma_ts_id_deterministic<H: SeededHasher>(
    seed_a: u64,
    vals_a: Seq<Seq<u8>>,
    seed_b: u64,
    vals_b: Seq<Seq<u8>>,
)
    requires
        seed_a == seed_b,
        vals_a == vals_b,
    ensures
        session_digest::<H>(Some(seed_a), vals_a) == session_digest::<H>(Some(seed_b), vals_b),
{
}

/// Seed equivalence: hashing a row's values from the schema seed of its
/// label names is exactly the two-phase identifier of the pair, so the
/// seed may be computed once and reused for every row of the schema.
pub proof fn lemma_seed_equivalence<H: SeededHasher>(names: Seq<Seq<u8>>, values: Seq<Seq<u8>>)
    ensures
        session_digest::<H>(Some(schema_seed::<H>(names)), values) == two_phase_ts_id::<H>(
            names,
            values,
        ),
{
}

} // verus!
