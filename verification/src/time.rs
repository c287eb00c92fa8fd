//! Frame-clock arithmetic on nanosecond counts: the clamp applied to each
//! frame's real delta, and the fixed-timestep accumulator that turns real
//! time into whole simulation steps.
use vstd::prelude::*;

verus! {

/// The fixed simulation step: a 60 Hz tick, in nanoseconds.
pub const FIXED_DELTA_NANOS: u64 = 16_666_666;

/// The longest real delta one frame may report, in nanoseconds; a longer
/// stall (a breakpoint, a dragged window) counts as this much.
pub const MAX_DELTA_NANOS: u64 = 250_000_000;

/// A raw frame delta capped at [`MAX_DELTA_NANOS`].
pub open spec fn clamped(raw: u64) -> u64 {
    if raw < MAX_DELTA_NANOS {
        raw
    } else {
        MAX_DELTA_NANOS
    }
}

/// A frame's real delta after the clamp.
pub fn clamp_delta(raw: u64) -> (r: u64)
    ensures
        r == clamped(raw),
{
    if raw < MAX_DELTA_NANOS {
        raw
    } else {
        MAX_DELTA_NANOS
    }
}

/// Drains whole fixed steps from `accumulator`: the time left over and
/// the number of steps taken.
pub fn drain_fixed_steps(accumulator: u64, fixed_delta: u64) -> (r: (u64, u32))
    requires
        fixed_delta > 0,
        accumulator / fixed_delta <= u32::MAX,
    ensures
        r.0 == accumulator % fixed_delta,
        r.1 == accumulator / fixed_delta,
        r.0 < fixed_delta,
{
    let mut acc = accumulator;
    let mut steps: u32 = 0;
    while acc >= fixed_delta
        invariant
            fixed_delta > 0,
            accumulator / fixed_delta <= u32::MAX,
            acc + steps * fixed_delta == accumulator,
        decreases acc,
    {
        proof {
            assert((steps + 1) * fixed_delta <= accumulator) by (nonlinear_arith)
                requires
                    acc + steps * fixed_delta == accumulator,
                    acc >= fixed_delta,
            ;
            assert(steps + 1 <= accumulator / fixed_delta) by (nonlinear_arith)
                requires
                    (steps + 1) * fixed_delta <= accumulator,
                    fixed_delta > 0,
            ;
        }
        acc = acc - fixed_delta;
        steps = steps + 1;
        proof {
            assert(acc + steps * fixed_delta == accumulator) by (nonlinear_arith)
                requires
                    acc + fixed_delta + (steps - 1) * fixed_delta == accumulator,
            ;
        }
    }
    proof {
        vstd::arithmetic::div_mod::lemma_fundamental_div_mod_converse(
            accumulator as int,
            fixed_delta as int,
            steps as int,
            acc as int,
        );
    }
    (acc, steps)
}

/// Steps are conserved: the leftover plus the drained steps account for
/// the whole accumulator, and the leftover is less than one step.
pub proof fn law_fixed_steps_account_for_all_time(accumulator: u64, fixed_delta: u64)
    requires
        fixed_delta > 0,
    ensures
        (accumulator / fixed_delta) * fixed_delta + accumulator % fixed_delta == accumulator,
        accumulator % fixed_delta < fixed_delta,
{
    vstd::arithmetic::div_mod::lemma_fundamental_div_mod(accumulator as int, fixed_delta as int);
    vstd::arithmetic::mul::lemma_mul_is_commutative(
        (accumulator / fixed_delta) as int,
        fixed_delta as int,
    );
}

/// The real-time side of the frame clock, in nanoseconds: the last
/// frame's delta, the real time elapsed, the fixed-step accumulator, the
/// fixed steps the last frame yielded, and the frame count.
pub struct RealClock {
    pub real_delta: u64,
    pub real_elapsed: u64,
    pub accumulator: u64,
    pub steps_this_frame: u32,
    pub frame: u64,
}

/// Advances the real-time clock by one frame of `raw` nanoseconds: the
/// delta is clamped, added to the elapsed time and banked in the
/// accumulator, which then yields every whole fixed step it holds and
/// keeps the remainder; the frame count goes up by one.
pub fn advance_real(clock: &mut RealClock, raw: u64, fixed_delta: u64)
    requires
        fixed_delta > 0,
        old(clock).real_elapsed + clamped(raw) <= u64::MAX,
        old(clock).accumulator + clamped(raw) <= u64::MAX,
        (old(clock).accumulator + clamped(raw)) / (fixed_delta as int) <= u32::MAX,
        old(clock).frame < u64::MAX,
    ensures
        final(clock).real_delta == clamped(raw),
        final(clock).real_elapsed == old(clock).real_elapsed + clamped(raw),
        final(clock).accumulator == (old(clock).accumulator + clamped(raw)) % (fixed_delta as int),
        final(clock).steps_this_frame == (old(clock).accumulator + clamped(raw)) / (
        fixed_delta as int),
        final(clock).frame == old(clock).frame + 1,
{
    let d = clamp_delta(raw);
    clock.real_delta = d;
    clock.real_elapsed = clock.real_elapsed + d;
    clock.frame = clock.frame + 1;
    let banked = clock.accumulator + d;
    let (rest, steps) = drain_fixed_steps(banked, fixed_delta);
    clock.accumulator = rest;
    clock.steps_this_frame = steps;
}


/// The frame clamp is the minimum of the raw delta and the 250 ms cap:
/// it never exceeds the cap, it leaves any delta up to the cap as it is,
/// and it turns any longer delta into exactly the cap.
pub proof fn law_clamp_is_min_with_cap(raw: u64)
    ensures
        MAX_DELTA_NANOS == 250_000_000,
        clamped(raw) <= MAX_DELTA_NANOS,
        clamped(raw) <= raw,
        raw <= MAX_DELTA_NANOS ==> clamped(raw) == raw,
        raw >= MAX_DELTA_NANOS ==> clamped(raw) == MAX_DELTA_NANOS,
{
}

/// One frame of the real-time clock banks exactly the clamped delta:
/// the fixed steps it yields times the fixed step, plus what stays in the
/// accumulator, is the old accumulator plus a delta of at most 250 ms.
pub proof fn law_frame_banks_at_most_the_cap(acc: u64, raw: u64, fixed_delta: u64)
    requires
        fixed_delta > 0,
    ensures
        ((acc + clamped(raw)) / (fixed_delta as int)) * fixed_delta + (acc + clamped(raw)) % (
        fixed_delta as int) == acc + clamped(raw),
        acc + clamped(raw) <= acc + MAX_DELTA_NANOS,
{
    vstd::arithmetic::div_mod::lemma_fundamental_div_mod(acc + clamped(raw), fixed_delta as int);
    vstd::arithmetic::mul::lemma_mul_is_commutative(
        (acc + clamped(raw)) / (fixed_delta as int),
        fixed_delta as int,
    );
}

} // verus!
