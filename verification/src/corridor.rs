use vstd::prelude::*;

use crate::direction::Direction;

verus! {

/// `v.max(1).min(max)` on mathematical integers.
pub open spec fn clamp_threads(v: int, max: int) -> int {
    let lo = if v < 1 { 1 } else { v };
    if lo > max { max } else { lo }
}

/// `i32::max(1, i32::min(max, v))` on mathematical integers: the runtime
/// controller's order, which gives one where `max` is below one.
pub open spec fn clamp_threads_runtime(v: int, max: int) -> int {
    let hi = if v > max { max } else { v };
    if hi < 1 { 1 } else { hi }
}

/// Integer division by two that rounds toward zero, as Rust's `/` does.
pub open spec fn half(v: int) -> int {
    if v >= 0 { v / 2 } else { -((-v) / 2) }
}

/// `i32::max(1, v)`.
pub open spec fn at_least_one(v: int) -> int {
    if v < 1 { 1 } else { v }
}

/// The abstract state of a corridor controller's thread-count search.
pub struct CorridorView {
    pub num_threads: int,
    pub max_threads: int,
    pub step_size: int,
    pub step_direction: Direction,
}

/// The direction and size of the step that follows `s` when the measured
/// speedup fell outside the corridor (`outside`) or, inside it, when the new
/// measurement was worse than the previous one (`slower`).
pub open spec fn next_move(s: CorridorView, outside: bool, slower: bool) -> (Direction, int) {
    if outside {
        (Direction::Down, at_least_one(half(s.num_threads)))
    } else {
        let d = if slower {
            match s.step_direction {
                Direction::Up => Direction::Down,
                Direction::Down => Direction::Up,
            }
        } else {
            s.step_direction
        };
        (d, at_least_one(half(s.step_size)))
    }
}

/// The state after one step of the corridor controller, which keeps its
/// thread count with `v.max(1).min(max)`.
pub open spec fn corridor_next(s: CorridorView, outside: bool, slower: bool) -> CorridorView {
    let (dir, size) = next_move(s, outside, slower);
    CorridorView {
        num_threads: clamp_threads(s.num_threads + dir.sign() * size, s.max_threads),
        max_threads: s.max_threads,
        step_size: size,
        step_direction: dir,
    }
}

/// The state after one step of the runtime controller, which keeps its
/// thread count with `i32::max(1, i32::min(max, v))`.
pub open spec fn runtime_next(s: CorridorView, outside: bool, slower: bool) -> CorridorView {
    let (dir, size) = next_move(s, outside, slower);
    CorridorView {
        num_threads: clamp_threads_runtime(s.num_threads + dir.sign() * size, s.max_threads),
        max_threads: s.max_threads,
        step_size: size,
        step_direction: dir,
    }
}

/// The integer part of a corridor controller: the thread count it
/// recommends, the largest thread count it may recommend, and the size and
/// direction of its next step.  The measurements that decide each step are
/// compared by the caller, which hands over the outcome.
pub struct ThreadCorridor {
    num_threads: i32,
    max_threads: i32,
    step_size: i32,
    step_direction: Direction,
}

impl View for ThreadCorridor {
    type V = CorridorView;

    closed spec fn view(&self) -> CorridorView {
        CorridorView {
            num_threads: self.num_threads as int,
            max_threads: self.max_threads as int,
            step_size: self.step_size as int,
            step_direction: self.step_direction,
        }
    }
}

fn clamp_i64(v: i64, max: i32) -> (r: i32)
    ensures
        r == clamp_threads(v as int, max as int),
{
    let lo: i64 = if v < 1 { 1 } else { v };
    if lo > max as i64 {
        max
    } else {
        lo as i32
    }
}

fn clamp_runtime_i64(v: i64, max: i32) -> (r: i32)
    ensures
        r == clamp_threads_runtime(v as int, max as int),
{
    let hi: i64 = if v > max as i64 { max as i64 } else { v };
    if hi < 1 {
        1
    } else {
        hi as i32
    }
}

fn half_i32(v: i32) -> (r: i32)
    ensures
        r == half(v as int),
{
    if v >= 0 {
        v / 2
    } else {
        let w: i64 = -(v as i64);
        let h: i64 = w / 2;
        (-h) as i32
    }
}

impl ThreadCorridor {
    /// Starts at `max_threads`, stepping down by `max_threads`.
    pub fn new(max_threads: i32) -> (c: ThreadCorridor)
        ensures
            c@ == (CorridorView {
                num_threads: max_threads as int,
                max_threads: max_threads as int,
                step_size: max_threads as int,
                step_direction: Direction::Down,
            }),
    {
        ThreadCorridor {
            num_threads: max_threads,
            max_threads,
            step_size: max_threads,
            step_direction: Direction::Down,
        }
    }

    /// The thread count currently recommended.
    pub fn num_threads(&self) -> (r: i32)
        ensures
            r == self@.num_threads,
    {
        self.num_threads
    }

    /// The largest thread count this corridor recommends.
    pub fn max_threads(&self) -> (r: i32)
        ensures
            r == self@.max_threads,
    {
        self.max_threads
    }

    /// Sets the direction and size of the next step, and returns the thread
    /// count it leads to before that count is kept within bounds.
    fn advance(&mut self, outside: bool, slower: bool) -> (target: i64)
        ensures
            (final(self)@.step_direction, final(self)@.step_size) == next_move(old(self)@, outside, slower),
            final(self)@.num_threads == old(self)@.num_threads,
            final(self)@.max_threads == old(self)@.max_threads,
            target == old(self)@.num_threads + final(self)@.step_direction.sign() * final(self)@.step_size,
    {
        if outside {
            self.step_direction = Direction::Down;
            let h = half_i32(self.num_threads);
            self.step_size = if h < 1 { 1 } else { h };
        } else {
            if slower {
                self.step_direction = self.step_direction.reversed();
            }
            let h = half_i32(self.step_size);
            self.step_size = if h < 1 { 1 } else { h };
        }
        let delta: i64 = match self.step_direction {
            Direction::Up => self.step_size as i64,
            Direction::Down => -(self.step_size as i64),
        };
        self.num_threads as i64 + delta
    }

    /// Takes one step of the corridor controller and returns the new thread
    /// count.
    ///
    /// `outside` tells that the speedup measured at the current thread count
    /// fell below the corridor; `slower` that the measurement is worse than
    /// the previous one.  Outside the corridor the controller heads down by
    /// half the current thread count; inside it, it turns around when the
    /// measurement got worse and halves its step.  Either way the step is at
    /// least one thread, and the result is kept with `v.max(1).min(max)`: it
    /// lies between one and `max_threads` when `max_threads` is at least one.
    pub fn step(&mut self, outside: bool, slower: bool) -> (r: i32)
        ensures
            final(self)@ == corridor_next(old(self)@, outside, slower),
            r == final(self)@.num_threads,
            final(self)@.step_size >= 1,
            old(self)@.max_threads >= 1 ==> 1 <= r <= old(self)@.max_threads,
            outside ==> final(self)@.step_direction == Direction::Down,
    {
        let target = self.advance(outside, slower);
        self.num_threads = clamp_i64(target, self.max_threads);
        self.num_threads
    }

    /// Takes one step of the runtime controller, which moves as `step` does
    /// but keeps its thread count with `i32::max(1, i32::min(max, v))`: the
    /// result is never below one, and never above `max_threads` when
    /// `max_threads` is at least one.
    pub fn step_runtime(&mut self, outside: bool, slower: bool) -> (r: i32)
        ensures
            final(self)@ == runtime_next(old(self)@, outside, slower),
            r == final(self)@.num_threads,
            final(self)@.step_size >= 1,
            r >= 1,
            old(self)@.max_threads >= 1 ==> r <= old(self)@.max_threads,
            outside ==> final(self)@.step_direction == Direction::Down,
    {
        let target = self.advance(outside, slower);
        self.num_threads = clamp_runtime_i64(target, self.max_threads);
        self.num_threads
    }
}

/// How a step sets its direction and size.  Outside the corridor the
/// controller heads down by half its thread count; inside it, it turns
/// around exactly when the new measurement is slower than the previous one
/// and halves its step.  Halving rounds down, and a step is never smaller
/// than one thread.
pub proof fn lemma_step_direction_and_size(s: CorridorView, outside: bool, slower: bool)
    ensures
        outside ==> next_move(s, outside, slower).0 == Direction::Down,
        !outside && slower ==> next_move(s, outside, slower).0.sign() == -s.step_direction.sign(),
        !outside && !slower ==> next_move(s, outside, slower).0 == s.step_direction,
        next_move(s, outside, slower).1 >= 1,
        outside && s.num_threads >= 2 ==> 2 * next_move(s, outside, slower).1 <= s.num_threads < 2
            * next_move(s, outside, slower).1 + 2,
        outside && s.num_threads < 2 ==> next_move(s, outside, slower).1 == 1,
        !outside && s.step_size >= 2 ==> 2 * next_move(s, outside, slower).1 <= s.step_size < 2
            * next_move(s, outside, slower).1 + 2,
        !outside && s.step_size < 2 ==> next_move(s, outside, slower).1 == 1,
{
}

/// A corridor step moves the thread count by its step in its direction, and
/// keeps the result between one and `max_threads`: a target within those
/// bounds is taken as it is, one below one gives one, and one above
/// `max_threads` gives `max_threads`.  Nothing else changes but the step.
pub proof fn lemma_step_moves_within_bounds(s: CorridorView, outside: bool, slower: bool)
    requires
        s.max_threads >= 1,
    ensures
        ({
            let n = corridor_next(s, outside, slower);
            let target = s.num_threads + n.step_direction.sign() * n.step_size;
            &&& (n.step_direction, n.step_size) == next_move(s, outside, slower)
            &&& n.max_threads == s.max_threads
            &&& 1 <= target <= s.max_threads ==> n.num_threads == target
            &&& target < 1 ==> n.num_threads == 1
            &&& target > s.max_threads ==> n.num_threads == s.max_threads
        }),
{
}

/// The runtime step moves exactly as the corridor step does.  Its thread
/// count is `max(1, min(max_threads, target))`: never below one, equal to
/// the target where the target lies between one and `max_threads`, and
/// `max_threads` where the target exceeds it (when `max_threads` is at least
/// one); where `max_threads` is below one it is one.  So where
/// `max_threads` is at least one the two steps agree.
pub proof fn lemma_runtime_step_clamps(s: CorridorView, outside: bool, slower: bool)
    ensures
        ({
            let n = runtime_next(s, outside, slower);
            let c = corridor_next(s, outside, slower);
            let target = s.num_threads + n.step_direction.sign() * n.step_size;
            &&& n.step_direction == c.step_direction
            &&& n.step_size == c.step_size
            &&& n.max_threads == s.max_threads
            &&& n.num_threads >= 1
            &&& 1 <= target <= s.max_threads ==> n.num_threads == target
            &&& target > s.max_threads && s.max_threads >= 1 ==> n.num_threads == s.max_threads
            &&& target < 1 ==> n.num_threads == 1
            &&& s.max_threads < 1 ==> n.num_threads == 1
            &&& s.max_threads >= 1 ==> n.num_threads == c.num_threads
        }),
{
}

} // verus!
