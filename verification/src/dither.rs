//! Sub-quantum phase dither for the sample seam.
//!
//! The timer reads integer nanoseconds, so a sample's error depends on where it happens to land
//! on the clock lattice. Spinning a random, sub-quantum amount *outside* the timed interval
//! before each sample re-rolls that phase, which makes the quantization error zero-mean across
//! a run instead of a coherent bias.
//!
//! - [`Dither::spin`] is the seam call: run between samples, never inside a measured interval.
//! - [`Dither::rand_u64`] exposes the raw stream for callers wanting coarser randomness, such as
//!   the harness's block sleep lengths.

use vstd::prelude::*;

verus! {

/// Dither span in neutral spin iterations (~0.4-0.5 ns each, so ~26-32 ns, spanning ~3 clock
/// quanta).
pub const DITHER_SPAN: u64 = 64;

/// The seed used when the wall clock cannot be read: any per-invocation variation suffices for
/// phase dither, and a fixed one still dithers.
pub const FALLBACK_SEED: u64 = 0x9E37_79B9_7F4A_7C15;

/// The xorshift64* multiplier.
pub const XORSHIFT_MUL: u64 = 0x2545_F491_4F6C_DD1D;

/// One xorshift step of the state: shifts by 12 right, 25 left, 27 right, each xored in.
pub open spec fn xorshift(x: u64) -> u64 {
    let a = x ^ (x >> 12u64);
    let b = a ^ ((a << 25u64) & 0xffff_ffff_ffff_ffffu64);
    b ^ (b >> 27u64)
}

/// The output for a stepped state: the state times [`XORSHIFT_MUL`], wrapping.
pub open spec fn scramble(x: u64) -> u64 {
    ((x as nat * XORSHIFT_MUL as nat) % 0x1_0000_0000_0000_0000) as u64
}

/// Xorshift64* PRNG for dither lengths. No external dep; phase randomization needs rough
/// uniformity, not statistical rigor.
pub struct XorShift64(pub u64);

impl XorShift64 {
    /// Next pseudo-random u64.
    pub fn next(&mut self) -> (r: u64)
        ensures
            final(self).0 == xorshift(old(self).0),
            r == scramble(xorshift(old(self).0)),
    {
        let x0 = self.0;
        let mut x = x0;
        x ^= x >> 12;
        let a = x;
        x ^= x << 25;
        let b = x;
        x ^= x >> 27;
        assert(x == xorshift(x0)) by (bit_vector)
            requires
                a == x0 ^ (x0 >> 12u64),
                b == a ^ (a << 25u64),
                x == b ^ (b >> 27u64),
        ;
        self.0 = x;
        x.wrapping_mul(XORSHIFT_MUL)
    }
}

/// A nonzero state stays nonzero: each xorshift stage is invertible, so the generator never
/// falls into the all-zero state that would repeat forever.
pub proof fn lemma_xorshift_nonzero(x: u64)
    requires
        x != 0,
    ensures
        xorshift(x) != 0,
{
    assert(x != 0 ==> xorshift(x) != 0) by (bit_vector);
}

/// The wall clock's reading type, carried from the read to the measure.
#[verifier::external_type_specification]
#[verifier::external_body]
pub struct ExSystemTime(std::time::SystemTime);

/// `std::time::SystemTime::now`: the wall clock now. Nothing is promised of the reading, which
/// depends on the moment and the machine.
#[verifier::external_body]
fn wall_clock_now() -> std::time::SystemTime {
    std::time::SystemTime::now()
}

/// `SystemTime::duration_since` with `UNIX_EPOCH`: the time since the epoch, `None` for a
/// clock set before it. Nothing is promised of the value, which depends on the reading.
#[verifier::external_body]
fn since_epoch(t: &std::time::SystemTime) -> Option<std::time::Duration> {
    t.duration_since(std::time::UNIX_EPOCH).ok()
}

/// `Duration::subsec_nanos`: the fractional part of a duration in nanoseconds, which std
/// documents as always less than one billion.
#[verifier::external_body]
fn subsec_nanos(d: &std::time::Duration) -> (r: u32)
    ensures
        r < 1_000_000_000,
{
    d.subsec_nanos()
}

/// An operation the optimizer cannot see through, so a spin loop survives compilation.
#[verifier::external_body]
fn opaque_step() {
    std::hint::black_box(1u64);
}

/// The seed for a clock reading: the reading made odd, or [`FALLBACK_SEED`] without one.
pub open spec fn seed_of(nanos: Option<u32>) -> u64 {
    match nanos {
        Some(n) => (n as u64 | 1u64),
        None => FALLBACK_SEED,
    }
}

/// Sub-quantum phase dither: a random `0..DITHER_SPAN` neutral spin, run *outside* the timed
/// interval before each sample.
pub struct Dither(pub XorShift64);

impl Dither {
    /// The generator's state.
    pub open spec fn state(&self) -> u64 {
        self.0.0
    }

    /// New dither source, seeded from wall-clock nanos (any per-invocation variation suffices
    /// for phase dither). The seed is odd, so never the all-zero state.
    pub fn new() -> (d: Dither)
        ensures
            d.state() % 2 == 1,
    {
        let now = wall_clock_now();
        let nanos = match since_epoch(&now) {
            Some(d) => Some(subsec_nanos(&d)),
            None => None,
        };
        Dither::seeded(nanos)
    }

    /// A dither source seeded from a clock reading, as [`Dither::new`] seeds it.
    pub fn seeded(nanos: Option<u32>) -> (d: Dither)
        ensures
            d.state() == seed_of(nanos),
            d.state() % 2 == 1,
    {
        let seed = match nanos {
            Some(n) => (n as u64) | 1,
            None => FALLBACK_SEED,
        };
        assert(seed % 2 == 1) by (bit_vector)
            requires
                seed == FALLBACK_SEED || exists|m: u64| seed == (m | 1u64),
        ;
        Dither(XorShift64(seed))
    }

    /// Spin a random `0..DITHER_SPAN` iterations to re-roll the next sample's phase on the clock
    /// lattice. Returns the iterations spun.
    pub fn spin(&mut self) -> (r: u64)
        ensures
            final(self).state() == xorshift(old(self).state()),
            r == scramble(xorshift(old(self).state())) % DITHER_SPAN,
            r < DITHER_SPAN,
    {
        let r = self.0.next() % DITHER_SPAN;
        let mut i: u64 = 0;
        while i < r
            invariant
                i <= r,
            decreases r - i,
        {
            opaque_step();
            i = i + 1;
        }
        r
    }

    /// Next raw pseudo-random u64, for callers needing coarser randomness (e.g. the harness's
    /// block sleep lengths).
    pub fn rand_u64(&mut self) -> (r: u64)
        ensures
            final(self).state() == xorshift(old(self).state()),
            r == scramble(xorshift(old(self).state())),
    {
        self.0.next()
    }
}

/// A dither seeded odd never reaches the all-zero state, however many draws it makes: each draw
/// keeps a nonzero state nonzero.
pub proof fn lemma_draws_keep_state_nonzero(d0: u64, d1: u64)
    requires
        d0 != 0,
        d1 == xorshift(d0),
    ensures
        d1 != 0,
{
    lemma_xorshift_nonzero(d0);
}

impl Default for Dither {
    /// Same as [`Dither::new`].
    fn default() -> (d: Dither)
        ensures
            d.state() % 2 == 1,
    {
        Dither::new()
    }
}

} // verus!
