use vstd::prelude::*;

verus! {

/// A controller that a letterbox consults for one region: it recommends a
/// thread count for each run, and learns from the scores of a round of runs.
pub trait Controller<Score>: Sized {
    /// The thread count the controller recommends for the next run, as each
    /// implementation defines it.
    spec fn recommended_threads(&self) -> i32;

    /// `next` is a state the controller may reach by learning from `scores`,
    /// as each implementation defines it.
    spec fn evolves_to(&self, scores: Vec<Score>, next: Self) -> bool;

    /// `next` is the state the controller may be in after it has handed out
    /// its recommendation, as each implementation defines it.
    spec fn advances_to(&self, next: Self) -> bool;

    /// Learns from the scores of the last round of runs.
    fn evolve(&mut self, scores: Vec<Score>)
        ensures
            old(self).evolves_to(scores, *final(self)),
    ;

    /// The thread count to use for the next run: the one the controller
    /// recommends.
    fn num_threads(&mut self) -> (r: i32)
        ensures
            r == old(self).recommended_threads(),
            old(self).advances_to(*final(self)),
    ;
}

/// Makes a controller for a program that may use up to `max_threads`
/// threads.
pub trait Builder<Ctrl> {
    fn build(&self, max_threads: i32) -> Ctrl;
}

} // verus!
