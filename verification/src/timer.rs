//! The timer: the next interrupt and the time in microseconds.
use vstd::prelude::*;
use crate::configs::{BOARD_CLOCK_FREQ, TICKS_PER_SEC};

verus! {

/// Microseconds per second.
pub const MICRO_PER_SEC: usize = 1_000_000;

/// The counter value at which the next timer interrupt is due, one tick after `now`.
pub fn set_next_trigger(now: usize) -> (r: usize)
    requires
        now + BOARD_CLOCK_FREQ / TICKS_PER_SEC <= usize::MAX,
    ensures
        r == now + BOARD_CLOCK_FREQ / TICKS_PER_SEC,
{
    now + BOARD_CLOCK_FREQ / TICKS_PER_SEC
}

/// The time counter value `now` in microseconds since the hart was reset.
pub fn get_timer_us(now: usize) -> (r: usize)
    requires
        now * MICRO_PER_SEC <= usize::MAX,
    ensures
        r == (now * MICRO_PER_SEC) as int / BOARD_CLOCK_FREQ as int,
{
    now * MICRO_PER_SEC / BOARD_CLOCK_FREQ
}

} // verus!
