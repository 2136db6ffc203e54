use std::collections::VecDeque;
use sysmon::history::{history_capacity, new_history, push_history, HISTORY_MS, MAX_HISTORY_LEN};
use sysmon::poll::{poll_interval_ms, PollTimer, BASE_TICK_MS};

#[test]
fn history_keeps_the_newest_samples() {
    let cap = history_capacity(1);
    assert_eq!(cap, 120);
    let mut h: VecDeque<u32> = new_history();
    assert!(h.is_empty());
    for i in 0..300u32 {
        push_history(&mut h, i, cap);
        assert!(h.len() <= cap);
        assert_eq!(*h.back().unwrap(), i);
    }
    assert_eq!(h.len(), cap);
    let expected: Vec<u32> = (180..300).collect();
    assert_eq!(h.iter().copied().collect::<Vec<u32>>(), expected);
}

#[test]
fn history_fills_before_evicting() {
    let mut h: VecDeque<(f64, f64)> = new_history();
    push_history(&mut h, (1.0, 2.0), 120);
    push_history(&mut h, (3.0, 4.0), 120);
    assert_eq!(h.len(), 2);
    assert_eq!(h[0], (1.0, 2.0));
}

#[test]
fn history_covers_two_minutes_at_every_interval() {
    assert_eq!(history_capacity(0), 240);
    assert_eq!(history_capacity(1), 120);
    assert_eq!(history_capacity(2), 60);
    assert_eq!(history_capacity(9), 120);
    for sel in 0..3u32 {
        assert_eq!(history_capacity(sel) as u64 * poll_interval_ms(sel), HISTORY_MS);
        assert!(history_capacity(sel) <= MAX_HISTORY_LEN);
    }
}

#[test]
fn history_shrinks_when_the_interval_grows() {
    let mut h: VecDeque<u32> = new_history();
    for i in 0..240u32 {
        push_history(&mut h, i, history_capacity(0));
    }
    assert_eq!(h.len(), 240);
    push_history(&mut h, 1000, history_capacity(2));
    assert_eq!(h.len(), 60);
    let mut expected: Vec<u32> = (181..240).collect();
    expected.push(1000);
    assert_eq!(h.iter().copied().collect::<Vec<u32>>(), expected);
}

#[test]
fn interval_choices() {
    assert_eq!(poll_interval_ms(0), 500);
    assert_eq!(poll_interval_ms(1), 1000);
    assert_eq!(poll_interval_ms(2), 2000);
    assert_eq!(poll_interval_ms(7), 1000);
    assert_eq!(BASE_TICK_MS, 500);
}

#[test]
fn timer_fires_once_per_interval() {
    let mut t = PollTimer::new();
    // 2 s: three skipped ticks, then a sample reporting 2000 ms.
    assert_eq!(t.tick(2), None);
    assert_eq!(t.tick(2), None);
    assert_eq!(t.tick(2), None);
    assert_eq!(t.tick(2), Some(2000));
    assert_eq!(t.tick(2), None);
    // 0.5 s: every tick.
    let mut t = PollTimer::new();
    assert_eq!(t.tick(0), Some(500));
    assert_eq!(t.tick(0), Some(500));
    // 1 s default.
    let mut t = PollTimer::new();
    assert_eq!(t.tick(1), None);
    assert_eq!(t.tick(1), Some(1000));
}

#[test]
fn timer_switching_to_a_shorter_interval_fires_at_once() {
    let mut t = PollTimer::new();
    assert_eq!(t.tick(2), None);
    assert_eq!(t.tick(2), None);
    assert_eq!(t.tick(0), Some(1500));
}
