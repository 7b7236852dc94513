//! Concrete streaming hashers behind the [`SeededHasher`] capability.
//!
//! `StdHasher64` wraps the standard library's `DefaultHasher` and is
//! verified against its vstd model.  The remaining hashers wrap outside
//! hash algorithms; each call into an outside crate stands behind a
//! trusted wrapper whose contract says only that the digest is a pure
//! function of the seed and the absorbed writes.

use vstd::prelude::*;
use core::hash::Hasher;
use std::collections::hash_map::DefaultHasher;
use vstd::std_specs::hash::DefaultHasherAdditionalSpecFns;
use crate::ts_id_gen::{SeededHasher, TsIdGenerator};

verus! {

/// The eight little-endian bytes of `v`.
pub open spec fn u64_le_bytes(v: u64) -> Seq<u8> {
    seq![
        (v % 0x100) as u8,
        ((v / 0x100) % 0x100) as u8,
        ((v / 0x1_0000) % 0x100) as u8,
        ((v / 0x100_0000) % 0x100) as u8,
        ((v / 0x1_0000_0000) % 0x100) as u8,
        ((v / 0x100_0000_0000) % 0x100) as u8,
        ((v / 0x1_0000_0000_0000) % 0x100) as u8,
        ((v / 0x100_0000_0000_0000) % 0x100) as u8,
    ]
}

fn u64_le_bytes_exec(v: u64) -> (r: Vec<u8>)
    ensures
        r@ == u64_le_bytes(v),
{
    let mut r: Vec<u8> = Vec::new();
    r.push((v % 0x100) as u8);
    r.push(((v / 0x100) % 0x100) as u8);
    r.push(((v / 0x1_0000) % 0x100) as u8);
    r.push(((v / 0x100_0000) % 0x100) as u8);
    r.push(((v / 0x1_0000_0000) % 0x100) as u8);
    r.push(((v / 0x100_0000_0000) % 0x100) as u8);
    r.push(((v / 0x1_0000_0000_0000) % 0x100) as u8);
    r.push(((v / 0x100_0000_0000_0000) % 0x100) as u8);
    proof {
        assert(r@ =~= u64_le_bytes(v));
    }
    r
}

/// The write calls that seeding performs before any caller write: none
/// for the default state, one eight-byte write for a seed.
pub open spec fn seed_writes(init: Option<u64>) -> Seq<Seq<u8>> {
    match init {
        None => Seq::empty(),
        Some(seed) => seq![u64_le_bytes(seed)],
    }
}

/// The standard library's `DefaultHasher` as a seedable streaming
/// hasher; seeding absorbs the seed's little-endian bytes first.
pub struct StdHasher64 {
    inner: DefaultHasher,
    start: Ghost<Option<u64>>,
}

impl StdHasher64 {
    #[verifier::type_invariant]
    closed spec fn wf(self) -> bool {
        match self.start@ {
            None => true,
            Some(seed) => self.inner@.len() >= 1 && self.inner@[0] == u64_le_bytes(seed),
        }
    }
}

impl SeededHasher for StdHasher64 {
    closed spec fn init(&self) -> Option<u64> {
        self.start@
    }

    closed spec fn writes(&self) -> Seq<Seq<u8>> {
        match self.start@ {
            None => self.inner@,
            Some(_) => self.inner@.skip(1),
        }
    }

    open spec fn spec_digest(init: Option<u64>, writes: Seq<Seq<u8>>) -> u64 {
        DefaultHasher::spec_finish(seed_writes(init) + writes)
    }

    fn default_state() -> (r: Self) {
        let r = StdHasher64 { inner: DefaultHasher::new(), start: Ghost(None) };
        proof {
            assert(r.writes() =~= Seq::<Seq<u8>>::empty());
        }
        r
    }

    fn from_seed(seed: u64) -> (r: Self) {
        let mut inner = DefaultHasher::new();
        let seed_bytes = u64_le_bytes_exec(seed);
        inner.write(seed_bytes.as_slice());
        let r = StdHasher64 { inner, start: Ghost(Some(seed)) };
        proof {
            assert(r.inner@ =~= seq![u64_le_bytes(seed)]);
            assert(r.writes() =~= Seq::<Seq<u8>>::empty());
        }
        r
    }

    fn write(&mut self, bytes: &[u8]) {
        proof {
            use_type_invariant(&*self);
        }
        let mut tmp = StdHasher64 { inner: DefaultHasher::new(), start: Ghost(None) };
        core::mem::swap(self, &mut tmp);
        let StdHasher64 { inner: mut inner, start } = tmp;
        inner.write(bytes);
        *self = StdHasher64 { inner, start: Ghost(start@) };
        proof {
            if self.start@ is Some {
                assert(self.writes() =~= old(self).writes().push(bytes@));
            }
        }
    }

    fn finish(&self) -> (r: u64) {
        proof {
            use_type_invariant(self);
            assert(self.inner@ =~= seed_writes(self.start@) + self.writes());
        }
        self.inner.finish()
    }
}

#[verifier::external_type_specification]
#[verifier::external_body]
pub struct ExXxh64(xxhash_rust::xxh64::Xxh64);

#[verifier::external_type_specification]
#[verifier::external_body]
pub struct ExXxh3(xxhash_rust::xxh3::Xxh3);

#[verifier::external_type_specification]
#[verifier::external_body]
pub struct ExFxHasher64(fxhash::FxHasher64);

#[verifier::external_type_specification]
#[verifier::external_body]
pub struct ExHasher128(mur3::Hasher128);

/// The digest xxHash64 yields for a starting state and a sequence of
/// write calls; `None` stands for the default state (seed 0).
pub uninterp spec fn xxh64_digest(init: Option<u64>, writes: Seq<Seq<u8>>) -> u64;

/// The digest XXH3 yields for a starting state and a sequence of write
/// calls; `None` stands for the default (unseeded) state.
pub uninterp spec fn xxh3_digest(init: Option<u64>, writes: Seq<Seq<u8>>) -> u64;

/// The digest FxHash yields for a starting state and a sequence of
/// write calls; a seed is absorbed as one 64-bit word.
pub uninterp spec fn fx64_digest(init: Option<u64>, writes: Seq<Seq<u8>>) -> u64;

/// The first 64 bits of the MurmurHash3 x64/128 digest for a starting
/// state and a sequence of write calls; only the seed's low 32 bits
/// reach the algorithm.
pub uninterp spec fn mur3_digest(init: Option<u64>, writes: Seq<Seq<u8>>) -> u64;

/// xxHash64 as a seedable streaming hasher.
pub struct Xxh64Hasher {
    inner: xxhash_rust::xxh64::Xxh64,
    start: Ghost<Option<u64>>,
    log: Ghost<Seq<Seq<u8>>>,
}

impl Xxh64Hasher {
    /// Relies on `Xxh64::default`, which is `Xxh64::new(0)`: a fresh
    /// hasher in the algorithm's default state with nothing absorbed.
    #[verifier::external_body]
    fn hasher_new() -> (r: Self)
        ensures
            r.init() == None::<u64>,
            r.writes() == Seq::<Seq<u8>>::empty(),
    {
        Xxh64Hasher {
            inner: xxhash_rust::xxh64::Xxh64::new(0),
            start: Ghost(None),
            log: Ghost(Seq::empty()),
        }
    }

    /// Relies on `Xxh64::new(seed)`: a fresh hasher whose state is a
    /// function of the seed, with nothing absorbed.
    #[verifier::external_body]
    fn hasher_seeded(seed: u64) -> (r: Self)
        ensures
            r.init() == Some(seed),
            r.writes() == Seq::<Seq<u8>>::empty(),
    {
        Xxh64Hasher {
            inner: xxhash_rust::xxh64::Xxh64::new(seed),
            start: Ghost(Some(seed)),
            log: Ghost(Seq::empty()),
        }
    }

    /// Relies on `Xxh64::update` (through `Hasher::write`): absorbing
    /// bytes appends them to the write log and touches nothing else.
    #[verifier::external_body]
    fn hasher_write(&mut self, bytes: &[u8])
        ensures
            final(self).init() == old(self).init(),
            final(self).writes() == old(self).writes().push(bytes@),
    {
        core::hash::Hasher::write(&mut self.inner, bytes);
    }

    /// Relies on `Xxh64::digest` (through `Hasher::finish`): the digest
    /// is a pure function of the seed and the absorbed writes.
    #[verifier::external_body]
    fn hasher_finish(&self) -> (r: u64)
        ensures
            r == xxh64_digest(self.init(), self.writes()),
    {
        core::hash::Hasher::finish(&self.inner)
    }
}

impl SeededHasher for Xxh64Hasher {
    closed spec fn init(&self) -> Option<u64> {
        self.start@
    }

    closed spec fn writes(&self) -> Seq<Seq<u8>> {
        self.log@
    }

    open spec fn spec_digest(init: Option<u64>, writes: Seq<Seq<u8>>) -> u64 {
        xxh64_digest(init, writes)
    }

    fn default_state() -> (r: Self) {
        Self::hasher_new()
    }

    fn from_seed(seed: u64) -> (r: Self) {
        Self::hasher_seeded(seed)
    }

    fn write(&mut self, bytes: &[u8]) {
        self.hasher_write(bytes);
    }

    fn finish(&self) -> (r: u64) {
        self.hasher_finish()
    }
}

/// XXH3 as a seedable streaming hasher.
pub struct Xxh3Hasher {
    inner: xxhash_rust::xxh3::Xxh3,
    start: Ghost<Option<u64>>,
    log: Ghost<Seq<Seq<u8>>>,
}

impl Xxh3Hasher {
    /// Relies on `Xxh3::default`: a fresh hasher in the algorithm's
    /// default state with nothing absorbed.
    #[verifier::external_body]
    fn hasher_new() -> (r: Self)
        ensures
            r.init() == None::<u64>,
            r.writes() == Seq::<Seq<u8>>::empty(),
    {
        Xxh3Hasher {
            inner: xxhash_rust::xxh3::Xxh3::new(),
            start: Ghost(None),
            log: Ghost(Seq::empty()),
        }
    }

    /// Relies on `Xxh3::with_seed(seed)`: a fresh hasher whose state is
    /// a function of the seed, with nothing absorbed.
    #[verifier::external_body]
    fn hasher_seeded(seed: u64) -> (r: Self)
        ensures
            r.init() == Some(seed),
            r.writes() == Seq::<Seq<u8>>::empty(),
    {
        Xxh3Hasher {
            inner: xxhash_rust::xxh3::Xxh3::with_seed(seed),
            start: Ghost(Some(seed)),
            log: Ghost(Seq::empty()),
        }
    }

    /// Relies on `Xxh3::update` (through `Hasher::write`): absorbing
    /// bytes appends them to the write log and touches nothing else.
    #[verifier::external_body]
    fn hasher_write(&mut self, bytes: &[u8])
        ensures
            final(self).init() == old(self).init(),
            final(self).writes() == old(self).writes().push(bytes@),
    {
        core::hash::Hasher::write(&mut self.inner, bytes);
    }

    /// Relies on `Xxh3::digest` (through `Hasher::finish`): the digest
    /// is a pure function of the seed and the absorbed writes.
    #[verifier::external_body]
    fn hasher_finish(&self) -> (r: u64)
        ensures
            r == xxh3_digest(self.init(), self.writes()),
    {
        core::hash::Hasher::finish(&self.inner)
    }
}

impl SeededHasher for Xxh3Hasher {
    closed spec fn init(&self) -> Option<u64> {
        self.start@
    }

    closed spec fn writes(&self) -> Seq<Seq<u8>> {
        self.log@
    }

    open spec fn spec_digest(init: Option<u64>, writes: Seq<Seq<u8>>) -> u64 {
        xxh3_digest(init, writes)
    }

    fn default_state() -> (r: Self) {
        Self::hasher_new()
    }

    fn from_seed(seed: u64) -> (r: Self) {
        Self::hasher_seeded(seed)
    }

    fn write(&mut self, bytes: &[u8]) {
        self.hasher_write(bytes);
    }

    fn finish(&self) -> (r: u64) {
        self.hasher_finish()
    }
}

/// FxHash (64-bit) as a seedable streaming hasher.
pub struct Fx64Hasher {
    inner: fxhash::FxHasher64,
    start: Ghost<Option<u64>>,
    log: Ghost<Seq<Seq<u8>>>,
}

impl Fx64Hasher {
    /// Relies on `FxHasher64::default`: a fresh hasher in the
    /// algorithm's default state with nothing absorbed.
    #[verifier::external_body]
    fn hasher_new() -> (r: Self)
        ensures
            r.init() == None::<u64>,
            r.writes() == Seq::<Seq<u8>>::empty(),
    {
        Fx64Hasher {
            inner: fxhash::FxHasher64::default(),
            start: Ghost(None),
            log: Ghost(Seq::empty()),
        }
    }

    /// Relies on `FxHasher64::default` and `Hasher::write_u64`: the
    /// seeded state absorbs the seed as one 64-bit word, so it is a
    /// function of the seed alone, with nothing else absorbed.
    #[verifier::external_body]
    fn hasher_seeded(seed: u64) -> (r: Self)
        ensures
            r.init() == Some(seed),
            r.writes() == Seq::<Seq<u8>>::empty(),
    {
        let mut inner = fxhash::FxHasher64::default();
        core::hash::Hasher::write_u64(&mut inner, seed);
        Fx64Hasher { inner, start: Ghost(Some(seed)), log: Ghost(Seq::empty()) }
    }

    /// Relies on `FxHasher64`'s `Hasher::write`: absorbing bytes
    /// appends them to the write log and touches nothing else.
    #[verifier::external_body]
    fn hasher_write(&mut self, bytes: &[u8])
        ensures
            final(self).init() == old(self).init(),
            final(self).writes() == old(self).writes().push(bytes@),
    {
        core::hash::Hasher::write(&mut self.inner, bytes);
    }

    /// Relies on `FxHasher64`'s `Hasher::finish`: the digest is a pure
    /// function of the seed and the absorbed writes.
    #[verifier::external_body]
    fn hasher_finish(&self) -> (r: u64)
        ensures
            r == fx64_digest(self.init(), self.writes()),
    {
        core::hash::Hasher::finish(&self.inner)
    }
}

impl SeededHasher for Fx64Hasher {
    closed spec fn init(&self) -> Option<u64> {
        self.start@
    }

    closed spec fn writes(&self) -> Seq<Seq<u8>> {
        self.log@
    }

    open spec fn spec_digest(init: Option<u64>, writes: Seq<Seq<u8>>) -> u64 {
        fx64_digest(init, writes)
    }

    fn default_state() -> (r: Self) {
        Self::hasher_new()
    }

    fn from_seed(seed: u64) -> (r: Self) {
        Self::hasher_seeded(seed)
    }

    fn write(&mut self, bytes: &[u8]) {
        self.hasher_write(bytes);
    }

    fn finish(&self) -> (r: u64) {
        self.hasher_finish()
    }
}

/// MurmurHash3 x64/128 as a seedable streaming hasher; the 64-bit
/// digest is the first half of the 128-bit one.
pub struct Mur3Hasher {
    inner: mur3::Hasher128,
    start: Ghost<Option<u64>>,
    log: Ghost<Seq<Seq<u8>>>,
}

impl Mur3Hasher {
    /// Relies on `Hasher128::with_seed(0)`: the algorithm's default
    /// state, with nothing absorbed.
    #[verifier::external_body]
    fn hasher_new() -> (r: Self)
        ensures
            r.init() == None::<u64>,
            r.writes() == Seq::<Seq<u8>>::empty(),
    {
        Mur3Hasher {
            inner: mur3::Hasher128::with_seed(0),
            start: Ghost(None),
            log: Ghost(Seq::empty()),
        }
    }

    /// Relies on `Hasher128::with_seed`: a fresh hasher whose state is
    /// a function of the seed (the algorithm takes its low 32 bits),
    /// with nothing absorbed.
    #[verifier::external_body]
    fn hasher_seeded(seed: u64) -> (r: Self)
        ensures
            r.init() == Some(seed),
            r.writes() == Seq::<Seq<u8>>::empty(),
    {
        Mur3Hasher {
            inner: mur3::Hasher128::with_seed(seed as u32),
            start: Ghost(Some(seed)),
            log: Ghost(Seq::empty()),
        }
    }

    /// Relies on `Hasher128`'s `Hasher::write`: absorbing bytes appends
    /// them to the write log and touches nothing else.
    #[verifier::external_body]
    fn hasher_write(&mut self, bytes: &[u8])
        ensures
            final(self).init() == old(self).init(),
            final(self).writes() == old(self).writes().push(bytes@),
    {
        core::hash::Hasher::write(&mut self.inner, bytes);
    }

    /// Relies on `Hasher128`'s `Hasher::finish`: the digest is a pure
    /// function of the seed and the absorbed writes.
    #[verifier::external_body]
    fn hasher_finish(&self) -> (r: u64)
        ensures
            r == mur3_digest(self.init(), self.writes()),
    {
        core::hash::Hasher::finish(&self.inner)
    }
}

impl SeededHasher for Mur3Hasher {
    closed spec fn init(&self) -> Option<u64> {
        self.start@
    }

    closed spec fn writes(&self) -> Seq<Seq<u8>> {
        self.log@
    }

    open spec fn spec_digest(init: Option<u64>, writes: Seq<Seq<u8>>) -> u64 {
        mur3_digest(init, writes)
    }

    fn default_state() -> (r: Self) {
        Self::hasher_new()
    }

    fn from_seed(seed: u64) -> (r: Self) {
        Self::hasher_seeded(seed)
    }

    fn write(&mut self, bytes: &[u8]) {
        self.hasher_write(bytes);
    }

    fn finish(&self) -> (r: u64) {
        self.hasher_finish()
    }
}

pub type DefaultTsIdGenerator = TsIdGenerator<StdHasher64>;

pub type FxTsIdGenerator = TsIdGenerator<Fx64Hasher>;

pub type Mur3TsIdGenerator = TsIdGenerator<Mur3Hasher>;

pub type Xx3TsIdGenerator = TsIdGenerator<Xxh3Hasher>;

pub type Xx64TsIdGenerator = TsIdGenerator<Xxh64Hasher>;

} // verus!
