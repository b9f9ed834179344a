//! A one-shot countdown measured in nanoseconds.
//!
//! It keeps the rules of a once-mode game-engine timer: ticking adds the frame
//! time to the elapsed time (saturating), the timer finishes when the elapsed
//! time reaches the duration, a finished timer stays at its duration and
//! ignores further ticks, and resetting starts it over unfinished.
use vstd::prelude::*;

verus! {

/// What a timer holds: time elapsed, its duration, and whether it has finished.
pub struct TimerView {
    pub elapsed: nat,
    pub duration: nat,
    pub finished: bool,
}

/// A timer of `duration` nanoseconds that has not started.
pub open spec fn fresh(duration: nat) -> TimerView {
    TimerView { elapsed: 0, duration, finished: false }
}

/// The timer after one tick of `delta` nanoseconds.
pub open spec fn ticked(v: TimerView, delta: nat) -> TimerView {
    if v.finished {
        v
    } else if v.elapsed + delta >= v.duration {
        TimerView { elapsed: v.duration, duration: v.duration, finished: true }
    } else {
        TimerView { elapsed: v.elapsed + delta, duration: v.duration, finished: false }
    }
}

/// The timer after a tick for each delta of `deltas`, in order.
pub open spec fn ticked_all(v: TimerView, deltas: Seq<nat>) -> TimerView
    decreases deltas.len(),
{
    if deltas.len() == 0 {
        v
    } else {
        ticked(ticked_all(v, deltas.drop_last()), deltas.last())
    }
}

/// The sum of a sequence of durations.
pub open spec fn total(deltas: Seq<nat>) -> nat
    decreases deltas.len(),
{
    if deltas.len() == 0 {
        0
    } else {
        total(deltas.drop_last()) + deltas.last()
    }
}

/// A reachable timer state: never past its duration, and at its duration once finished.
pub open spec fn timer_wf(v: TimerView) -> bool {
    v.elapsed <= v.duration && (v.finished ==> v.elapsed == v.duration)
}

/// One-shot countdown in nanoseconds.
#[derive(Clone, Copy, Debug)]
pub struct OnceTimer {
    elapsed: u64,
    duration: u64,
    finished: bool,
}

impl View for OnceTimer {
    type V = TimerView;

    closed spec fn view(&self) -> TimerView {
        TimerView { elapsed: self.elapsed as nat, duration: self.duration as nat, finished: self.finished }
    }
}

impl OnceTimer {
    #[verifier::type_invariant]
    closed spec fn inv(self) -> bool {
        timer_wf(self@)
    }

    /// A timer of `duration_nanos` nanoseconds that has not started.
    pub fn new(duration_nanos: u64) -> (t: OnceTimer)
        ensures
            t@ == fresh(duration_nanos as nat),
            timer_wf(t@),
    {
        OnceTimer { elapsed: 0, duration: duration_nanos, finished: false }
    }

    /// Advances the timer by `delta_nanos` nanoseconds.
    pub fn tick(&mut self, delta_nanos: u64)
        ensures
            final(self)@ == ticked(old(self)@, delta_nanos as nat),
            timer_wf(old(self)@),
            timer_wf(final(self)@),
    {
        proof {
            use_type_invariant(&*self);
        }
        if !self.finished {
            let remaining = self.duration - self.elapsed;
            if delta_nanos >= remaining {
                self.elapsed = self.duration;
                self.finished = true;
            } else {
                self.elapsed = self.elapsed + delta_nanos;
            }
        }
    }

    /// Starts the timer over: nothing elapsed, not finished.
    pub fn reset(&mut self)
        ensures
            final(self)@ == fresh(old(self)@.duration),
            timer_wf(final(self)@),
    {
        proof {
            use_type_invariant(&*self);
        }
        *self = OnceTimer { elapsed: 0, duration: self.duration, finished: false };
    }

    /// Whether the timer has reached its duration.
    pub fn is_finished(&self) -> (b: bool)
        ensures
            b == self@.finished,
            timer_wf(self@),
    {
        proof {
            use_type_invariant(self);
        }
        self.finished
    }

    /// Nanoseconds elapsed so far.
    pub fn elapsed_nanos(&self) -> (n: u64)
        ensures
            n == self@.elapsed,
    {
        self.elapsed
    }

    /// The duration in nanoseconds.
    pub fn duration_nanos(&self) -> (n: u64)
        ensures
            n == self@.duration,
    {
        self.duration
    }
}

/// Ticking by `a` and then by `b` leaves a timer where one tick by `a + b` would.
pub proof fn lemma_tick_additive(v: TimerView, a: nat, b: nat)
    requires
        timer_wf(v),
    ensures
        ticked(ticked(v, a), b) == ticked(v, a + b),
        timer_wf(ticked(v, a)),
{
}

/// After at least one tick, a fresh timer has finished exactly when the ticks
/// add up to its duration.
pub proof fn lemma_finishes_at_duration(duration: nat, deltas: Seq<nat>)
    requires
        deltas.len() > 0,
    ensures
        ticked_all(fresh(duration), deltas).finished <==> total(deltas) >= duration,
{
    lemma_ticked_all_is_one_tick(fresh(duration), deltas);
}

/// A run of ticks acts as one tick by their sum.
pub proof fn lemma_ticked_all_is_one_tick(v: TimerView, deltas: Seq<nat>)
    requires
        timer_wf(v),
        deltas.len() > 0,
    ensures
        ticked_all(v, deltas) == ticked(v, total(deltas)),
    decreases deltas.len(),
{
    if deltas.len() > 1 {
        lemma_ticked_all_is_one_tick(v, deltas.drop_last());
        lemma_tick_additive(v, total(deltas.drop_last()), deltas.last());
    } else {
        assert(deltas.drop_last().len() == 0);
        assert(ticked_all(v, deltas.drop_last()) == v);
        assert(total(deltas.drop_last()) == 0);
    }
}

} // verus!
