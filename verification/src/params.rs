//! Run parameters and the generation timer.
//!
//! [`CellParams`] holds the play/pause flag and the generation period that
//! gate the engine; the engine itself never stores them. [`NextGenTimer`]
//! is the repeating timer that fires once per period; changing the period
//! re-arms it from zero rather than letting it fire with stale timing, so a
//! configuration change never causes a double advance on one tick.

use vstd::arithmetic::div_mod::lemma_mod_add_multiples_vanish;
use vstd::arithmetic::div_mod::lemma_mod_division_less_than_divisor;
use vstd::prelude::*;

verus! {

/// The externally owned controls of the generation loop: whether the
/// simulation is playing, and the period between generations.
#[derive(Clone, Copy, Debug, PartialEq, Eq, Structural)]
pub struct CellParams {
    /// Whether generations advance on their own.
    pub playing: bool,
    /// Milliseconds between two generations; always positive.
    pub period_ms: u64,
}

impl Default for CellParams {
    /// The simulation starts playing, one generation per second.
    fn default() -> (r: Self)
        ensures
            r.playing == true,
            r.period_ms == 1000,
    {
        CellParams { playing: true, period_ms: 1000 }
    }
}

/// A repeating timer: accumulates elapsed time and fires whenever a full
/// period has passed, keeping the overshoot as the new phase.
#[derive(Clone, Copy, Debug)]
pub struct NextGenTimer {
    /// The period, in milliseconds; always positive.
    pub period_ms: u64,
    /// Time accumulated since the last firing; always below the period.
    pub elapsed_ms: u64,
}

impl NextGenTimer {
    /// Representation invariant: a positive period, a phase below it.
    pub open spec fn wf(&self) -> bool {
        0 < self.period_ms && self.elapsed_ms < self.period_ms
    }

    /// A fresh timer with the given period, starting at phase zero.
    pub fn new(period_ms: u64) -> (r: Self)
        requires
            period_ms > 0,
        ensures
            r.wf(),
            r.period_ms == period_ms,
            r.elapsed_ms == 0,
    {
        NextGenTimer { period_ms, elapsed_ms: 0 }
    }

    /// Advance the timer by `delta_ms`. Returns whether at least one full
    /// period has elapsed since the last firing; the phase wraps modulo the
    /// period, so on average the timer fires once per period.
    pub fn tick(&mut self, delta_ms: u64) -> (fired: bool)
        requires
            old(self).wf(),
        ensures
            final(self).wf(),
            final(self).period_ms == old(self).period_ms,
            fired == (old(self).elapsed_ms + delta_ms >= old(self).period_ms),
            fired ==> final(self).elapsed_ms as int == (old(self).elapsed_ms + delta_ms) as int
                % old(self).period_ms as int,
            !fired ==> final(self).elapsed_ms == old(self).elapsed_ms + delta_ms,
    {
        let remaining = self.period_ms - self.elapsed_ms;
        if delta_ms < remaining {
            self.elapsed_ms = self.elapsed_ms + delta_ms;
            false
        } else {
            let over = delta_ms - remaining;
            proof {
                lemma_mod_add_multiples_vanish(over as int, self.period_ms as int);
                lemma_mod_division_less_than_divisor(over as int, self.period_ms as int);
            }
            self.elapsed_ms = over % self.period_ms;
            true
        }
    }

    /// Give the timer a new period and restart its phase from zero.
    pub fn set_period(&mut self, period_ms: u64)
        requires
            period_ms > 0,
        ensures
            final(self).wf(),
            final(self).period_ms == period_ms,
            final(self).elapsed_ms == 0,
    {
        self.period_ms = period_ms;
        self.elapsed_ms = 0;
    }
}

/// Keep the timer in step with the parameters: a changed period re-arms the
/// timer from zero (never an immediate stale firing), an unchanged period
/// leaves the timer untouched.
pub fn check_cell_params_changed(params: &CellParams, timer: &mut NextGenTimer)
    requires
        old(timer).wf(),
        params.period_ms > 0,
    ensures
        final(timer).wf(),
        final(timer).period_ms == params.period_ms,
        params.period_ms == old(timer).period_ms ==> *final(timer) == *old(timer),
        params.period_ms != old(timer).period_ms ==> final(timer).elapsed_ms == 0,
{
    if params.period_ms != timer.period_ms {
        timer.set_period(params.period_ms);
    }
}

} // verus!
