//! The actuator task's decisions: how one control period is split into an
//! on-phase and an off-phase.
//!
//! The split is fixed once per period from a single reading of the setpoint,
//! so a setpoint that changes during a period cannot cut a phase short; it
//! takes effect with the next period.

use crate::decimal::{digits_value, millionths, pow10};
use crate::state::{clamp_setpoint, ControlState, FULL_POWER};
use vstd::arithmetic::div_mod::{lemma_div_denominator, lemma_hoist_over_denominator};
use vstd::prelude::*;

verus! {

/// Length of one control period, in milliseconds.
pub const PERIOD_MS: u32 = 100;

/// The on-time of a period for a setpoint in millionths: the setpoint's share
/// of the period rounded to the nearest millisecond, halves up, and never more
/// than the period.
pub open spec fn on_time(setpoint: u32) -> int {
    let nearest = (2 * (setpoint * PERIOD_MS) + FULL_POWER) / (2 * FULL_POWER);
    if nearest > PERIOD_MS {
        PERIOD_MS as int
    } else {
        nearest
    }
}

/// State of the switched output.
#[derive(Clone, Copy, Debug, PartialEq, Eq, Structural)]
pub enum Level {
    Low,
    High,
}

/// One stretch of a period: the output is driven to `level` and held there
/// for `hold_ms` milliseconds.
#[derive(Clone, Copy, Debug, PartialEq, Eq, Structural)]
pub struct Phase {
    pub level: Level,
    pub hold_ms: u32,
}

/// The split of one control period, in milliseconds.
#[derive(Clone, Copy, Debug, PartialEq, Eq, Structural)]
pub struct PeriodPlan {
    /// Time with the output high, at the start of the period.
    pub on_ms: u32,
    /// Time with the output low, for the rest of the period.
    pub off_ms: u32,
}

/// The plan of a period that starts with the given setpoint.
pub open spec fn plan_for(setpoint: u32) -> PeriodPlan {
    PeriodPlan {
        on_ms: on_time(setpoint) as u32,
        off_ms: (PERIOD_MS - on_time(setpoint)) as u32,
    }
}

/// The phases that carry out a plan, in order. A side of the split that is
/// zero gets no phase: a period that is fully off or fully on is one
/// uninterrupted phase, without a pulse.
pub open spec fn phases_of(plan: PeriodPlan) -> Seq<Phase> {
    if plan.on_ms == 0 {
        seq![Phase { level: Level::Low, hold_ms: plan.off_ms }]
    } else if plan.off_ms == 0 {
        seq![Phase { level: Level::High, hold_ms: plan.on_ms }]
    } else {
        seq![
            Phase { level: Level::High, hold_ms: plan.on_ms },
            Phase { level: Level::Low, hold_ms: plan.off_ms },
        ]
    }
}

/// The hold times of `phases`, added up.
pub open spec fn total_hold(phases: Seq<Phase>) -> nat
    decreases phases.len(),
{
    if phases.len() == 0 {
        0
    } else {
        total_hold(phases.drop_last()) + phases.last().hold_ms as nat
    }
}

/// For every setpoint the on-time lies within the period, the two sides of
/// the plan add up to the period exactly, and so do the hold times of the
/// phases that carry it out, none of which is empty.
pub proof fn lemma_plan_fills_period(setpoint: u32)
    ensures
        0 <= on_time(setpoint) <= PERIOD_MS,
        plan_for(setpoint).on_ms == on_time(setpoint),
        plan_for(setpoint).on_ms + plan_for(setpoint).off_ms == PERIOD_MS,
        total_hold(phases_of(plan_for(setpoint))) == PERIOD_MS,
        ({
            let phases = phases_of(plan_for(setpoint));
            forall|i: int| 0 <= i < phases.len() ==> (#[trigger] phases[i]).hold_ms > 0
        }),
{
    lemma_share_of_period(setpoint);
    let phases = phases_of(plan_for(setpoint));
    reveal_with_fuel(total_hold, 3);
    if phases.len() == 2 {
        assert(phases.drop_last().drop_last() =~= Seq::<Phase>::empty());
    } else {
        assert(phases.drop_last() =~= Seq::<Phase>::empty());
    }
}

/// The product in [`on_time`], written out.
proof fn lemma_share_of_period(setpoint: u32)
    ensures
        setpoint * PERIOD_MS == setpoint * 100,
{
    assert(setpoint * PERIOD_MS == setpoint * 100) by (nonlinear_arith)
        requires
            PERIOD_MS == 100,
    ;
}

/// Splits one control period for the given setpoint, in millionths of full
/// power.
pub fn plan_period(setpoint: u32) -> (plan: PeriodPlan)
    ensures
        plan == plan_for(setpoint),
        plan.on_ms + plan.off_ms == PERIOD_MS,
{
    proof {
        lemma_share_of_period(setpoint);
    }
    let share: u64 = setpoint as u64 * PERIOD_MS as u64;
    let nearest: u64 = (2 * share + FULL_POWER as u64) / (2 * FULL_POWER as u64);
    let on_ms: u32 = if nearest > PERIOD_MS as u64 {
        PERIOD_MS
    } else {
        nearest as u32
    };
    PeriodPlan { on_ms, off_ms: PERIOD_MS - on_ms }
}

/// Reads the setpoint once, at the start of a period, and splits the period
/// for it.
pub fn begin_period(state: &ControlState) -> (plan: PeriodPlan)
    ensures
        plan == plan_for(state@.setpoint),
        plan.on_ms + plan.off_ms == PERIOD_MS,
{
    plan_period(state.read().setpoint)
}

impl PeriodPlan {
    /// The phases that carry out the plan, in order.
    pub fn phases(&self) -> (phases: Vec<Phase>)
        ensures
            phases@ == phases_of(*self),
    {
        let mut phases: Vec<Phase> = Vec::new();
        if self.on_ms == 0 {
            phases.push(Phase { level: Level::Low, hold_ms: self.off_ms });
        } else if self.off_ms == 0 {
            phases.push(Phase { level: Level::High, hold_ms: self.on_ms });
        } else {
            phases.push(Phase { level: Level::High, hold_ms: self.on_ms });
            phases.push(Phase { level: Level::Low, hold_ms: self.off_ms });
        }
        phases
    }
}

/// The share of the period that a written fraction asks for, in
/// milliseconds: the number that `digits` and `exponent` write, times the
/// period, rounded to the nearest integer, halves up. No digit is left out of
/// account.
pub open spec fn written_share(digits: Seq<u8>, exponent: int) -> nat {
    let shift = exponent + 2;
    if shift >= 0 {
        digits_value(digits) * pow10(shift as nat)
    } else {
        (2 * digits_value(digits) + pow10((-shift) as nat)) / (2 * pow10((-shift) as nat))
    }
}

/// Keeping a written fraction in millionths, rounded down, costs the
/// actuator nothing: the on-time planned from the stored setpoint is the
/// on-time of the fraction as it was written, with all its digits.
pub proof fn lemma_stored_setpoint_keeps_on_time(digits: Seq<u8>, exponent: int)
    ensures
        ({
            let stored = clamp_setpoint(millionths(digits, exponent) as int) as u32;
            let share = written_share(digits, exponent);
            on_time(stored) == if share > PERIOD_MS {
                PERIOD_MS as int
            } else {
                share as int
            }
        }),
{
    let number = digits_value(digits) as int;
    let stored = clamp_setpoint(millionths(digits, exponent) as int) as u32;
    lemma_share_of_period(stored);
    assert(on_time(stored) == (stored + 5000) / 10_000);
    reveal_with_fuel(pow10, 5);
    let share = written_share(digits, exponent) as int;
    if exponent + 2 >= 0 {
        let low = pow10((exponent + 2) as nat) as int;
        lemma_pow10_adds_four((exponent + 2) as nat);
        assert(number * (low * 10_000) == (number * low) * 10_000) by (nonlinear_arith);
        assert(number * low >= 0) by (nonlinear_arith)
            requires
                number >= 0,
                low >= 0,
        ;
        assert(share == number * low);
        assert(millionths(digits, exponent) == share * 10_000);
    } else if exponent + 6 >= 0 {
        let places = -(exponent + 2);
        assert(1 <= places <= 4);
        if places == 1 {
            assert(number * pow10(3) == number * 1000) by (nonlinear_arith)
                requires
                    pow10(3) == 1000,
            ;
            assert(millionths(digits, exponent) == number * 1000);
            assert(share == (2 * number + 10) / 20);
            lemma_reduce_fraction(number + 5, 1000, 10);
            lemma_reduce_fraction(number + 5, 2, 10);
        } else if places == 2 {
            assert(number * pow10(2) == number * 100) by (nonlinear_arith)
                requires
                    pow10(2) == 100,
            ;
            assert(millionths(digits, exponent) == number * 100);
            assert(share == (2 * number + 100) / 200);
            lemma_reduce_fraction(number + 50, 100, 100);
            lemma_reduce_fraction(number + 50, 2, 100);
        } else if places == 3 {
            assert(number * pow10(1) == number * 10) by (nonlinear_arith)
                requires
                    pow10(1) == 10,
            ;
            assert(millionths(digits, exponent) == number * 10);
            assert(share == (2 * number + 1000) / 2000);
            lemma_reduce_fraction(number + 500, 10, 1000);
            lemma_reduce_fraction(number + 500, 2, 1000);
        } else {
            assert(number * pow10(0) == number) by (nonlinear_arith)
                requires
                    pow10(0) == 1,
            ;
            assert(millionths(digits, exponent) == number);
            assert(share == (2 * number + 10_000) / 20_000);
            lemma_reduce_fraction(number + 5000, 2, 10_000);
        }
        let wanted = millionths(digits, exponent) as int;
        assert(stored == if wanted > 1_000_000 {
            1_000_000
        } else {
            wanted
        });
    } else {
        let dropped = (-(exponent + 6)) as nat;
        let unit = pow10(dropped) as int;
        lemma_pow10_adds_four(dropped);
        assert(unit >= 1) by {
            lemma_pow10_positive(dropped);
        }
        let kept = number / unit;
        // (kept + 5000) / 10000 is (number + 5000 * unit) / (unit * 10000),
        lemma_hoist_over_denominator(number, 5000, unit as nat);
        assert(5000 * unit >= 0);
        lemma_div_denominator(number + 5000 * unit, unit, 10_000);
        // and so is the share, once its fraction is reduced by two.
        lemma_div_denominator(2 * number + unit * 10_000, 2, unit * 10_000);
        assert((2 * number + unit * 10_000) / 2 == number + 5000 * unit);
        assert(2 * (unit * 10_000) == 2 * pow10(dropped + 4)) by (nonlinear_arith)
            requires
                pow10(dropped + 4) == unit * 10_000,
        ;
        assert(millionths(digits, exponent) == kept);
        assert(kept + 5000 == (number + 5000 * unit) / unit);
        assert((kept + 5000) / 10_000 == (number + 5000 * unit) / (unit * 10_000));
        assert(share == (2 * number + unit * 10_000) / (2 * (unit * 10_000)));
        assert(share == (kept + 5000) / 10_000);
    }
}

/// A fraction keeps its value when a common factor is taken out.
proof fn lemma_reduce_fraction(x: int, factor: int, d: int)
    requires
        0 <= x,
        0 < factor,
        0 < d,
    ensures
        (factor * x) / (factor * d) == x / d,
{
    assert(0 <= factor * x) by (nonlinear_arith)
        requires
            0 <= x,
            0 < factor,
    ;
    lemma_div_denominator(factor * x, factor, d);
    assert((factor * x) / factor == x) by (nonlinear_arith)
        requires
            0 < factor,
    ;
}

proof fn lemma_pow10_positive(n: nat)
    ensures
        pow10(n) >= 1,
    decreases n,
{
    if n > 0 {
        lemma_pow10_positive((n - 1) as nat);
    }
}

proof fn lemma_pow10_adds_four(n: nat)
    ensures
        pow10(n + 4) == pow10(n) * 10_000,
{
    reveal_with_fuel(pow10, 5);
}

} // verus!
