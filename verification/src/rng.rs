//! Sources of randomness for the collapser.
//!
//! A generation run draws uniform numbers below a bound. The numbers
//! come either from the process-wide generator of the `rand` crate,
//! or from a small deterministic generator of this crate, so that a
//! run can be replayed exactly from a seed.

use vstd::prelude::*;

verus! {

#[verifier::external_type_specification]
#[verifier::external_body]
pub struct ExThreadRng(rand::rngs::ThreadRng);

/// Relies on `rand::thread_rng` handing back the thread-local
/// generator; nothing is assumed of the values it will produce.
#[verifier::external_body]
fn fresh_thread_rng() -> rand::rngs::ThreadRng {
    rand::thread_rng()
}

/// Relies on `rand::Rng::gen_range` over `0..bound` returning a value
/// of that range, as its documentation states; it panics on an empty
/// range, so the bound must be positive. Nothing is assumed about
/// which value comes back.
#[verifier::external_body]
fn thread_gen_below(rng: &mut rand::rngs::ThreadRng, bound: u64) -> (r: u64)
    requires
        bound >= 1,
    ensures
        r < bound,
{
    rand::Rng::gen_range(rng, 0..bound)
}

/// One step of the deterministic generator (a 64-bit xorshift).
/// A non-zero state never steps to zero.
pub open spec fn xorshift_next(s: u64) -> u64 {
    let a = s ^ (s << 13);
    let b = a ^ (a >> 7);
    b ^ (b << 17)
}

fn xorshift_step(s: u64) -> (r: u64)
    ensures
        r == xorshift_next(s),
{
    let a = s ^ (s << 13);
    let b = a ^ (a >> 7);
    b ^ (b << 17)
}

/// A source of uniform draws below a caller-chosen bound.
pub enum RngSource {
    /// The `rand` crate's thread-local generator.
    External(rand::rngs::ThreadRng),
    /// A deterministic generator holding its current state; two
    /// sources built from the same seed produce the same draws.
    Seeded(u64),
}

impl RngSource {
    /// A source backed by the process-wide generator.
    pub fn from_entropy() -> RngSource {
        RngSource::External(fresh_thread_rng())
    }

    /// A deterministic source. A zero seed is replaced by a fixed
    /// non-zero constant, since the xorshift generator would be stuck
    /// at zero.
    pub fn seeded(seed: u64) -> (r: RngSource)
        ensures
            r == RngSource::Seeded(
                if seed == 0 {
                    0x9E3779B97F4A7C15u64
                } else {
                    seed
                },
            ),
    {
        if seed == 0 {
            RngSource::Seeded(0x9E3779B97F4A7C15u64)
        } else {
            RngSource::Seeded(seed)
        }
    }

    /// Draw a number below `bound`. For a seeded source the draw and
    /// the successor state are exact functions of the old state, so a
    /// seeded run is reproducible.
    pub fn next_below(&mut self, bound: u64) -> (r: u64)
        requires
            bound >= 1,
        ensures
            r < bound,
            *old(self) is Seeded ==> *final(self) == RngSource::Seeded(
                xorshift_next((*old(self))->Seeded_0),
            ) && r == xorshift_next((*old(self))->Seeded_0) % bound,
            *old(self) is External ==> *final(self) is External,
    {
        match self {
            RngSource::External(rng) => thread_gen_below(rng, bound),
            RngSource::Seeded(s) => {
                let ns = xorshift_step(*s);
                *s = ns;
                ns % bound
            },
        }
    }
}

} // verus!
