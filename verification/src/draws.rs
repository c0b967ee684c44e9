//! A record of the random draws that generation makes.
//!
//! What a draw gives rests on chance, so a generated value cannot be stated
//! as a function of the inputs. What can be stated is how it is made from
//! the draws: every draw below appends what was asked for (the range, or the
//! ratio of a coin) and what came back to a `DrawLog`. The log's entries can
//! only be added here, by making the draw, so a contract that speaks of the
//! log speaks of the draws actually made.
use vstd::prelude::*;
use rand_chacha::ChaCha8Rng;
use crate::rng::{draw_i32_in, draw_ratio, draw_u32_in, draw_u8_in, draw_usize_in};

verus! {

/// One draw: a value from the inclusive range `low..=high`, or a coin that
/// comes up with probability `numerator / denominator`.
pub enum Draw {
    Range { low: int, high: int, value: int },
    Coin { numerator: nat, denominator: nat, value: bool },
}

/// The draws made so far, in order.
pub struct DrawLog {
    draws: Ghost<Seq<Draw>>,
}

impl DrawLog {
    /// The draws made so far, in order.
    pub closed spec fn draws(&self) -> Seq<Draw> {
        self.draws@
    }

    /// A log with no draws yet.
    pub fn new() -> (log: Self)
        ensures
            log.draws() == Seq::<Draw>::empty(),
    {
        DrawLog { draws: Ghost(Seq::empty()) }
    }
}

/// The draws made after the first `before.len()` of `after`.
pub open spec fn added(before: Seq<Draw>, after: Seq<Draw>) -> Seq<Draw> {
    after.skip(before.len() as int)
}

/// `after` is `before` with more draws made after it.
pub open spec fn extends(before: Seq<Draw>, after: Seq<Draw>) -> bool {
    &&& before.len() <= after.len()
    &&& forall|i: int| 0 <= i < before.len() ==> #[trigger] after[i] == before[i]
}

/// `d` is a draw from `low..=high` that gave `value`.
pub open spec fn drew(d: Draw, low: int, high: int, value: int) -> bool {
    d == Draw::Range { low, high, value }
}

/// A `usize` from `low..=high`, recorded.
pub fn draw_index(rng: &mut ChaCha8Rng, log: &mut DrawLog, low: usize, high: usize) -> (r: usize)
    requires
        low <= high,
    ensures
        low <= r <= high,
        final(log).draws() == old(log).draws().push(Draw::Range { low: low as int, high: high as int, value: r as int }),
{
    let r = draw_usize_in(rng, low, high);
    proof {
        log.draws@ = log.draws@.push(Draw::Range { low: low as int, high: high as int, value: r as int });
    }
    r
}

/// A `u32` from `low..=high`, recorded.
pub fn draw_u32_range(rng: &mut ChaCha8Rng, log: &mut DrawLog, low: u32, high: u32) -> (r: u32)
    requires
        low <= high,
    ensures
        low <= r <= high,
        final(log).draws() == old(log).draws().push(Draw::Range { low: low as int, high: high as int, value: r as int }),
{
    let r = draw_u32_in(rng, low, high);
    proof {
        log.draws@ = log.draws@.push(Draw::Range { low: low as int, high: high as int, value: r as int });
    }
    r
}

/// An `i32` from `low..=high`, recorded.
pub fn draw_i32_range(rng: &mut ChaCha8Rng, log: &mut DrawLog, low: i32, high: i32) -> (r: i32)
    requires
        low <= high,
    ensures
        low <= r <= high,
        final(log).draws() == old(log).draws().push(Draw::Range { low: low as int, high: high as int, value: r as int }),
{
    let r = draw_i32_in(rng, low, high);
    proof {
        log.draws@ = log.draws@.push(Draw::Range { low: low as int, high: high as int, value: r as int });
    }
    r
}

/// A `u8` from `low..=high`, recorded.
pub fn draw_u8_range(rng: &mut ChaCha8Rng, log: &mut DrawLog, low: u8, high: u8) -> (r: u8)
    requires
        low <= high,
    ensures
        low <= r <= high,
        final(log).draws() == old(log).draws().push(Draw::Range { low: low as int, high: high as int, value: r as int }),
{
    let r = draw_u8_in(rng, low, high);
    proof {
        log.draws@ = log.draws@.push(Draw::Range { low: low as int, high: high as int, value: r as int });
    }
    r
}

/// A coin that comes up with probability `numerator / denominator`, recorded.
pub fn draw_coin(rng: &mut ChaCha8Rng, log: &mut DrawLog, numerator: u32, denominator: u32) -> (r: bool)
    requires
        numerator <= denominator,
        denominator > 0,
    ensures
        numerator == 0 ==> !r,
        numerator == denominator ==> r,
        final(log).draws() == old(log).draws().push(
            Draw::Coin { numerator: numerator as nat, denominator: denominator as nat, value: r },
        ),
{
    let r = draw_ratio(rng, numerator, denominator);
    proof {
        log.draws@ = log.draws@.push(
            Draw::Coin { numerator: numerator as nat, denominator: denominator as nat, value: r },
        );
    }
    r
}

} // verus!
