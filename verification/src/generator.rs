//! The source of random probes: a generator whose whole state is one `u64`.

use vstd::prelude::*;

verus! {

/// The state that `fastrand::Rng::usize` leaves its generator in, and the
/// number that it returns, when it is asked for a number of the range
/// `0..=upper` on a generator in the state `state`.
pub uninterp spec fn drawn(state: u64, upper: usize) -> (u64, usize);

/// One call of `fastrand::Rng::usize` on the range `0..=upper`, made on a
/// generator that holds `state`.
///
/// A `fastrand::Rng` holds one `u64` and nothing else: `Rng::with_seed` makes
/// the generator that holds `state`, and `Rng::get_seed` reads what it holds
/// after the call. The contract claims two things: that the state afterwards
/// and the number returned depend on the two arguments alone, which it says
/// by naming them, and that the number lies in the range asked for.
#[verifier::external_body]
fn draw(state: u64, upper: usize) -> (step: (u64, usize))
    ensures
        step == drawn(state, upper),
        step.1 <= upper,
{
    let mut rng = fastrand::Rng::with_seed(state);
    let number = rng.usize(0..=upper);
    (rng.get_seed(), number)
}

/// The state after a draw from `0..=upper` in the state `state`, and the
/// offset drawn.
///
/// This is `drawn(state, upper)` for every draw that is made, since no draw
/// exceeds `upper`. It is kept within the range here so that what is proved
/// of sampling runs holds whatever `drawn` is.
pub open spec fn probe(state: u64, upper: usize) -> (u64, usize) {
    let step = drawn(state, upper);
    (
        step.0,
        if step.1 <= upper {
            step.1
        } else {
            upper
        },
    )
}

/// One call of `fastrand::u64` on the full range: a number taken from the
/// thread's own generator, of which nothing is known beforehand.
#[verifier::external_body]
fn ambient_seed() -> u64 {
    fastrand::u64(..)
}

/// A generator of probe offsets. Its view is its state; two generators in the
/// same state give the same offsets.
#[derive(Debug, Clone)]
pub struct Generator {
    state: u64,
}

impl View for Generator {
    type V = u64;

    closed spec fn view(&self) -> u64 {
        self.state
    }
}

impl Generator {
    /// A generator that starts in the state `seed`.
    pub fn with_seed(seed: u64) -> (generator: Generator)
        ensures
            generator@ == seed,
    {
        Generator { state: seed }
    }

    /// A generator that starts in a state of the thread's choosing.
    pub fn from_entropy() -> Generator {
        Generator { state: ambient_seed() }
    }

    /// The state the generator is in.
    pub fn state(&self) -> (state: u64)
        ensures
            state == self@,
    {
        self.state
    }

    /// Draws an offset from 0 up to and including `upper`.
    pub fn offset(&mut self, upper: usize) -> (offset: usize)
        ensures
            (final(self)@, offset) == probe(old(self)@, upper),
            offset <= upper,
    {
        let (next, offset) = draw(self.state, upper);
        self.state = next;
        offset
    }
}

} // verus!
