use evacuation::timer::{Timer, TimerMode};

#[test]
fn a_timer_that_runs_once_stops_at_its_duration() {
    let mut timer = Timer::new(100, TimerMode::Once);
    assert_eq!(timer.elapsed, 0);
    assert!(!timer.finished);
    timer.tick(30);
    assert_eq!((timer.elapsed, timer.finished), (30, false));
    timer.tick(80);
    assert_eq!((timer.elapsed, timer.finished), (100, true));
    timer.tick(500);
    assert_eq!((timer.elapsed, timer.finished), (100, true));
    assert_eq!(timer.duration, 100);
}

#[test]
fn a_timer_that_runs_once_finishes_on_the_dot() {
    let mut timer = Timer::new(100, TimerMode::Once);
    timer.tick(99);
    assert!(!timer.finished);
    timer.tick(1);
    assert_eq!((timer.elapsed, timer.finished), (100, true));
}

#[test]
fn a_timer_that_repeats_starts_over() {
    let mut timer = Timer::new(100, TimerMode::Repeating);
    timer.tick(250);
    assert_eq!((timer.elapsed, timer.finished), (50, true));
    timer.tick(10);
    assert_eq!((timer.elapsed, timer.finished), (60, false));
    timer.tick(40);
    assert_eq!((timer.elapsed, timer.finished), (0, true));
}

#[test]
fn a_timer_without_duration_is_finished_at_once() {
    let mut once = Timer::new(0, TimerMode::Once);
    once.tick(0);
    assert_eq!((once.elapsed, once.finished), (0, true));
    let mut repeating = Timer::new(0, TimerMode::Repeating);
    repeating.tick(7);
    assert_eq!((repeating.elapsed, repeating.finished), (0, true));
}

#[test]
fn a_timer_takes_the_longest_times() {
    let mut timer = Timer::new(u32::MAX, TimerMode::Repeating);
    timer.tick(u32::MAX - 1);
    assert_eq!((timer.elapsed, timer.finished), (u32::MAX - 1, false));
    timer.tick(u32::MAX);
    assert_eq!((timer.elapsed, timer.finished), (u32::MAX - 1, true));
}
