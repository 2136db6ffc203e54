//! The polling schedule: a timer fires every `BASE_TICK_MS`, and the
//! monitors are sampled once the interval chosen in the toolbar has passed.
use vstd::prelude::*;

verus! {

/// The period of the timer that drives the update loop.
pub const BASE_TICK_MS: u64 = 500;

/// The longest interval that the toolbar offers.
pub const MAX_INTERVAL_MS: u64 = 2000;

/// The interval, in milliseconds, of toolbar entry `selected`
/// ("0.5 s", "1 s", "2 s"; anything else counts as the default, 1 s).
pub open spec fn interval_of(selected: u32) -> u64 {
    if selected == 0 {
        500
    } else if selected == 2 {
        2000
    } else {
        1000
    }
}

/// The polling interval for toolbar entry `selected`.
pub fn poll_interval_ms(selected: u32) -> (ms: u64)
    ensures
        ms == interval_of(selected),
{
    match selected {
        0 => 500,
        2 => 2000,
        _ => 1000,
    }
}

/// One timer tick from `elapsed` milliseconds since the last sample: the new
/// elapsed time, and the time to report when a sample is due.
pub open spec fn tick_spec(elapsed: nat, selected: u32) -> (nat, Option<u64>) {
    let next = (elapsed + BASE_TICK_MS) as nat;
    if next < interval_of(selected) {
        (next, None)
    } else {
        (0, Some(next as u64))
    }
}

/// Counts the time since the last sample.
pub struct PollTimer {
    elapsed_ms: u64,
}

impl View for PollTimer {
    type V = nat;

    /// Milliseconds since the last sample.
    closed spec fn view(&self) -> nat {
        self.elapsed_ms as nat
    }
}

impl PollTimer {
    #[verifier::type_invariant]
    spec fn inv(self) -> bool {
        self.elapsed_ms < MAX_INTERVAL_MS
    }

    /// A timer that has not yet counted any time.
    pub fn new() -> (t: Self)
        ensures
            t@ == 0,
    {
        PollTimer { elapsed_ms: 0 }
    }

    /// Advances the timer by one tick. Returns the time since the last sample
    /// when a sample is due (and starts counting again from zero), `None`
    /// when the tick is to be skipped.
    pub fn tick(&mut self, selected: u32) -> (r: Option<u64>)
        ensures
            (final(self)@, r) == tick_spec(old(self)@, selected),
            final(self)@ < MAX_INTERVAL_MS,
    {
        proof {
            use_type_invariant(&*self);
        }
        let next = self.elapsed_ms + BASE_TICK_MS;
        if next < poll_interval_ms(selected) {
            self.elapsed_ms = next;
            None
        } else {
            self.elapsed_ms = 0;
            Some(next)
        }
    }
}

/// A sample is never taken before the chosen interval has passed, and the
/// time reported is the time counted since the previous sample.
pub proof fn lemma_tick_never_early(elapsed: nat, selected: u32)
    requires
        elapsed < MAX_INTERVAL_MS,
    ensures
        tick_spec(elapsed, selected).1 matches Some(ms) ==> ms >= interval_of(selected) && ms
            == elapsed + BASE_TICK_MS,
        tick_spec(elapsed, selected).1 is None ==> tick_spec(elapsed, selected).0 == elapsed
            + BASE_TICK_MS,
{
}

/// `n` ticks from a fresh count with an unchanged selection.
pub open spec fn run_ticks(elapsed: nat, selected: u32, n: nat) -> (nat, Seq<Option<u64>>)
    decreases n,
{
    if n == 0 {
        (elapsed, Seq::empty())
    } else {
        let (e, out) = run_ticks(elapsed, selected, (n - 1) as nat);
        let (e2, r) = tick_spec(e, selected);
        (e2, out.push(r))
    }
}

/// With an unchanged selection the monitors are sampled exactly once per
/// interval: starting from zero, the first `interval / BASE_TICK_MS - 1`
/// ticks are skipped, the next one reports the full interval, and the count
/// starts over from zero.
pub proof fn lemma_steady_period(selected: u32)
    ensures
        ({
            let p = (interval_of(selected) / BASE_TICK_MS) as nat;
            let (e, out) = run_ticks(0, selected, p);
            &&& e == 0
            &&& out.len() == p
            &&& out[p - 1] == Some(interval_of(selected))
            &&& forall|i: int| 0 <= i < p - 1 ==> out[i] is None
        }),
{
    reveal_with_fuel(run_ticks, 5);
}

} // verus!
