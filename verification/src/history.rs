//! The sample histories behind the scrolling graphs: two minutes of samples
//! at the chosen polling interval.
use std::collections::VecDeque;
use crate::poll::{interval_of, poll_interval_ms};
use vstd::prelude::*;

verus! {

/// How much time each graph covers, in milliseconds (two minutes).
pub const HISTORY_MS: u64 = 120_000;

/// The most samples a history ever needs: two minutes at the shortest
/// polling interval.
pub const MAX_HISTORY_LEN: usize = 240;

/// How many samples cover two minutes when polling with toolbar entry
/// `selected`.
pub open spec fn capacity_of(selected: u32) -> nat {
    (HISTORY_MS / interval_of(selected)) as nat
}

/// The number of samples that make up two minutes of history at the polling
/// interval of toolbar entry `selected`: 240, 120 or 60.
pub fn history_capacity(selected: u32) -> (n: usize)
    ensures
        n == capacity_of(selected),
        n <= MAX_HISTORY_LEN,
{
    let ms = poll_interval_ms(selected);
    (HISTORY_MS / ms) as usize
}

/// The newest `cap` elements of `s` (all of `s` when it is no longer).
pub open spec fn window<T>(s: Seq<T>, cap: nat) -> Seq<T> {
    if s.len() <= cap {
        s
    } else {
        s.subrange(s.len() - cap, s.len() as int)
    }
}

/// What one `push_history` with capacity `cap` does to a history `h`: the
/// sample is appended and the oldest samples beyond `cap` are dropped.
pub open spec fn pushed<T>(h: Seq<T>, value: T, cap: nat) -> Seq<T> {
    window(h.push(value), cap)
}

/// The history left by pushing `values`, in order, into an empty one.
pub open spec fn replay<T>(values: Seq<T>, cap: nat) -> Seq<T>
    decreases values.len(),
{
    if values.len() == 0 {
        Seq::empty()
    } else {
        pushed(replay(values.drop_last(), cap), values.last(), cap)
    }
}

/// An empty history with room for a full window.
pub fn new_history<T>() -> (h: VecDeque<T>)
    ensures
        h@ == Seq::<T>::empty(),
{
    VecDeque::with_capacity(MAX_HISTORY_LEN + 1)
}

/// Pushes one sample into a history of `capacity` samples, evicting the
/// oldest samples beyond the capacity (more than one when the capacity has
/// just shrunk).
pub fn push_history<T>(history: &mut VecDeque<T>, value: T, capacity: usize)
    ensures
        final(history)@ == pushed(old(history)@, value, capacity as nat),
{
    let ghost t = old(history)@.push(value);
    history.push_back(value);
    assert(history@.subrange(0, history@.len() as int) =~= history@);
    while history.len() > capacity
        invariant
            t.len() >= history@.len(),
            history@.len() < t.len() ==> history@.len() >= capacity,
            history@ == t.subrange(t.len() - history@.len(), t.len() as int),
        decreases history@.len(),
    {
        let _ = history.pop_front();
        assert(history@ =~= t.subrange(t.len() - history@.len(), t.len() as int));
    }
    assert(t.len() > capacity ==> history@.len() == capacity);
}

/// Two minutes of history: at each polling interval the capacity times the
/// interval is exactly `HISTORY_MS`.
pub proof fn lemma_capacity_spans_history(selected: u32)
    ensures
        capacity_of(selected) * interval_of(selected) == HISTORY_MS,
        capacity_of(selected) <= MAX_HISTORY_LEN,
{
    if selected == 0 {
        assert(capacity_of(selected) == 240);
    } else if selected == 2 {
        assert(capacity_of(selected) == 60);
    } else {
        assert(capacity_of(selected) == 120);
    }
}

/// Pushing a sample onto the window of a sample stream gives the window of
/// the stream extended by that sample: a history always holds exactly the
/// newest `cap` samples.
pub proof fn lemma_push_keeps_window<T>(s: Seq<T>, value: T, cap: nat)
    ensures
        pushed(window(s, cap), value, cap) == window(s.push(value), cap),
{
    let t = s.push(value);
    let w = window(s, cap);
    if s.len() > cap {
        assert(window(w.push(value), cap) =~= window(t, cap));
    }
}

/// A history fed from empty with any sequence of samples at one capacity
/// holds the newest `cap` of them, oldest first, and never more than `cap`:
/// with the capacity of the chosen polling interval, the samples of the last
/// two minutes.
pub proof fn lemma_replay_is_window<T>(values: Seq<T>, cap: nat)
    ensures
        replay(values, cap) == window(values, cap),
        replay(values, cap).len() <= cap,
    decreases values.len(),
{
    if values.len() > 0 {
        let init = values.drop_last();
        lemma_replay_is_window(init, cap);
        lemma_push_keeps_window(init, values.last(), cap);
        assert(init.push(values.last()) =~= values);
    } else {
        assert(window(values, cap) =~= Seq::<T>::empty());
    }
}

/// A push never leaves a history longer than its capacity, and when the
/// capacity is at least one the pushed sample is the newest one.
pub proof fn lemma_push_bounded<T>(h: Seq<T>, value: T, cap: nat)
    ensures
        pushed(h, value, cap).len() <= cap,
        cap >= 1 ==> pushed(h, value, cap).last() == value,
        h.len() < cap ==> pushed(h, value, cap) == h.push(value),
{
}

} // verus!
