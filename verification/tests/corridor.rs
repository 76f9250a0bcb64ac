use mtdynamic::corridor::ThreadCorridor;
use mtdynamic::direction::Direction;

#[test]
fn direction_reverses() {
    assert_eq!(Direction::Up.reversed(), Direction::Down);
    assert_eq!(Direction::Down.reversed(), Direction::Up);
    assert_eq!(Direction::Up.factor(), 1);
    assert_eq!(Direction::Down.factor(), -1);
}

#[test]
fn corridor_starts_at_max() {
    let c = ThreadCorridor::new(16);
    assert_eq!(c.num_threads(), 16);
    assert_eq!(c.max_threads(), 16);
}

#[test]
fn corridor_halves_step_inside_corridor() {
    let mut c = ThreadCorridor::new(16);
    // Step 16 halves to 8, heading down.
    assert_eq!(c.step(false, false), 8);
    // Worse than before: turn up, step 4.
    assert_eq!(c.step(false, true), 12);
    // Better: keep going up, step 2.
    assert_eq!(c.step(false, false), 14);
    // Step 1 stays 1.
    assert_eq!(c.step(false, false), 15);
    assert_eq!(c.step(false, false), 16);
    // Clamped at the maximum.
    assert_eq!(c.step(false, false), 16);
}

#[test]
fn corridor_falls_back_outside_corridor() {
    let mut c = ThreadCorridor::new(16);
    assert_eq!(c.step(false, false), 8);
    assert_eq!(c.step(false, true), 12);
    // Outside the corridor: down by half the thread count.
    assert_eq!(c.step(true, false), 6);
    assert_eq!(c.step(true, true), 3);
    assert_eq!(c.step(true, false), 2);
    assert_eq!(c.step(true, false), 1);
    // Never below one thread.
    assert_eq!(c.step(true, false), 1);
}

#[test]
fn corridor_with_one_thread() {
    let mut c = ThreadCorridor::new(1);
    for _ in 0..5 {
        assert_eq!(c.step(false, true), 1);
        assert_eq!(c.step(true, false), 1);
    }
}

#[test]
fn corridor_with_nonpositive_maximum() {
    // `max(1).min(max)` yields the maximum when it is below one.
    let mut c = ThreadCorridor::new(-3);
    assert_eq!(c.step(true, false), -3);
    let mut c = ThreadCorridor::new(0);
    assert_eq!(c.step(false, false), 0);
}

#[test]
fn corridor_near_i32_limits() {
    let mut c = ThreadCorridor::new(i32::MAX);
    let n = c.step(false, false);
    assert_eq!(n, i32::MAX - i32::MAX / 2);
    let n = c.step(false, true);
    assert!(n >= 1 && n <= i32::MAX);
}

#[test]
fn runtime_step_never_below_one() {
    // `i32::max(1, i32::min(max, n))` gives one where the maximum is below one.
    let mut c = ThreadCorridor::new(0);
    assert_eq!(c.step_runtime(false, false), 1);
    let mut c = ThreadCorridor::new(-3);
    assert_eq!(c.step_runtime(true, false), 1);
}

#[test]
fn runtime_step_moves_like_corridor_step() {
    let mut a = ThreadCorridor::new(16);
    let mut b = ThreadCorridor::new(16);
    for &(outside, slower) in &[(false, false), (false, true), (true, false), (false, true), (false, false)] {
        assert_eq!(a.step(outside, slower), b.step_runtime(outside, slower));
    }
}
