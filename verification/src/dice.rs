//! The seeded random source that drives generation.
//!
//! The items marked `external_body` and the functions without a body are
//! not proved: they state what the `rand` crate's standard generator is
//! taken to do. The generator is a deterministic machine, so a draw is a
//! function of the generator's state and of the bound alone; the functions
//! without a body give those functions a name.

use rand::rngs::StdRng;
use rand::Rng;
use rand::SeedableRng;
use vstd::prelude::*;

verus! {

/// `rand::rngs::StdRng`, the generator that is seeded and drawn from. Its
/// fields are its own business: a value is only carried along.
#[verifier::external_type_specification]
#[verifier::external_body]
pub struct ExStdRng(rand::rngs::StdRng);

/// The internal state of a generator, as a sequence of words. It is all
/// that the generator's next numbers depend on.
pub uninterp spec fn rng_state(rng: StdRng) -> Seq<u32>;

/// The state in which `StdRng::seed_from_u64` leaves a new generator.
pub uninterp spec fn seeded_state(seed: u64) -> Seq<u32>;

/// What `gen_range(0..bound)` does to a generator in state `state`: the
/// number it returns, and the state it leaves behind.
pub uninterp spec fn drawn(state: Seq<u32>, bound: u64) -> (u64, Seq<u32>);

/// `StdRng::seed_from_u64`: a new generator whose state depends on the seed
/// alone.
#[verifier::external_body]
pub(crate) fn seeded(seed: u64) -> (rng: StdRng)
    ensures
        rng_state(rng) == seeded_state(seed),
{
    StdRng::seed_from_u64(seed)
}

/// `Rng::gen_range` on `0..bound`: the number drawn is below `bound`, and it
/// and the state left behind are those that `drawn` names. The range must
/// not be empty, or `gen_range` panics.
#[verifier::external_body]
pub(crate) fn draw_below(rng: &mut StdRng, bound: u64) -> (r: u64)
    requires
        bound > 0,
    ensures
        r < bound,
        (r, rng_state(*final(rng))) == drawn(rng_state(*old(rng)), bound),
{
    rng.gen_range(0..bound)
}

/// `rand::thread_rng` and then `Rng::gen_range` on `0..bound`: a number below
/// `bound` from the generator that the system seeds for each thread. Which
/// number is a matter of chance, so nothing more is said of it. The range
/// must not be empty, or `gen_range` panics; `thread_rng` itself panics
/// only where the system has no randomness to give.
#[verifier::external_body]
pub(crate) fn chance_below(bound: u64) -> (r: u64)
    requires
        bound > 0,
    ensures
        r < bound,
{
    rand::thread_rng().gen_range(0..bound)
}

/// The number that a draw below `bound` yields in state `state`. A state
/// that no generator can be in may have no proper draw; it yields 0.
pub open spec fn pick(state: Seq<u32>, bound: int) -> int {
    let r = drawn(state, bound as u64).0;
    if r < bound {
        r as int
    } else {
        0
    }
}

/// The state that a draw below `bound` leaves behind.
pub open spec fn rolled(state: Seq<u32>, bound: int) -> Seq<u32> {
    drawn(state, bound as u64).1
}

/// Draws an index below `bound`.
pub fn roll(rng: &mut StdRng, bound: usize) -> (r: usize)
    requires
        bound > 0,
    ensures
        r < bound,
        r == pick(rng_state(*old(rng)), bound as int),
        rng_state(*final(rng)) == rolled(rng_state(*old(rng)), bound as int),
{
    let r = draw_below(rng, bound as u64);
    r as usize
}

} // verus!
