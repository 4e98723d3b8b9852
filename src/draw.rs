//! Where the randomness of skip assignment comes from, and the rule that turns
//! one draw into a decision.

use vstd::prelude::*;

verus! {

/// Draws are uniform over `0..PERCENT`.
pub const PERCENT: u64 = 100;

/// Each position of distance between a node and a skip candidate lowers the
/// threshold a draw has to beat by this much.
pub const DISTANCE_WEIGHT: u64 = 5;

/// A source of draws for skip assignment.
///
/// Draws lie in `0..PERCENT` and are meant to be uniform there; a draw only
/// decides which node adopts a skip link. Tests can substitute a scripted
/// source to make assignment deterministic.
pub trait PercentSource {
    fn draw(&mut self) -> (r: u64)
        ensures
            r < PERCENT,
    ;
}

/// The default source: the calling thread's random number generator.
pub struct ThreadRandom;

/// Relies on rand's `Range::new(low, high)` sampled with `ind_sample` on
/// `thread_rng()`: the result lies in `low..high`; `Range::new` panics unless
/// `low < high`.
#[verifier::external_body]
fn draw_in_range(low: u64, high: u64) -> (r: u64)
    requires
        low < high,
    ensures
        low <= r < high,
{
    let between = rand::distributions::Range::new(low, high);
    let mut rng = rand::thread_rng();
    rand::distributions::IndependentSample::ind_sample(&between, &mut rng)
}

impl PercentSource for ThreadRandom {
    fn draw(&mut self) -> (r: u64) {
        draw_in_range(0, PERCENT)
    }
}

/// The threshold a draw must exceed for the node at `position` to adopt a
/// skip link to the node at `candidate`: it falls with the distance between
/// them, reaching zero once the candidate is twenty or more positions past the
/// node's successor.
pub open spec fn skip_threshold(position: int, candidate: int) -> int {
    let offset = (candidate - position - 1) * DISTANCE_WEIGHT;
    if offset > PERCENT {
        0
    } else {
        PERCENT - offset
    }
}

/// Whether the node at `position` adopts a skip link to the node at
/// `candidate`, given the draw `draw`.
pub fn adopts_skip(position: usize, candidate: usize, draw: u64) -> (r: bool)
    requires
        position < candidate,
    ensures
        r == (draw > skip_threshold(position as int, candidate as int)),
{
    let gap = candidate - position - 1;
    let threshold: u64 = if gap > (PERCENT / DISTANCE_WEIGHT) as usize {
        0
    } else {
        PERCENT - (gap as u64) * DISTANCE_WEIGHT
    };
    draw > threshold
}

} // verus!
