use vstd::prelude::*;

use crate::corridor::{clamp_threads, half};

verus! {

/// One candidate thread count of the genetic controller's population.
#[derive(Clone, Debug, PartialEq, Eq, PartialOrd, Ord, Structural)]
pub struct Chromosome {
    pub num_threads: i32,
}

/// `rand::random_range(low..=high)` on `i32`: a value drawn from the
/// thread-local generator.  Claimed: it lies between `low` and `high`, both
/// included (rand panics on an empty range, left out here).  Nothing is
/// claimed of how the values are distributed.
#[verifier::external_body]
fn random_between(low: i32, high: i32) -> (r: i32)
    requires
        low <= high,
    ensures
        low <= r <= high,
{
    rand::random_range(low..=high)
}

/// The chromosome halfway between `a` and `b`, rounded toward zero.
pub open spec fn crossover_of(a: Chromosome, b: Chromosome) -> Chromosome {
    Chromosome { num_threads: half(a.num_threads + b.num_threads) as i32 }
}

/// `c` moved one thread up (`up`) or down, then kept between one and `max`.
pub open spec fn mutation_of(c: Chromosome, max: int, up: bool) -> Chromosome {
    Chromosome {
        num_threads: clamp_threads(c.num_threads + (if up { 1int } else { -1int }), max) as i32,
    }
}

/// `c` recommends between one and `max` threads.
pub open spec fn in_range(c: Chromosome, max: int) -> bool {
    1 <= c.num_threads <= max
}

impl Chromosome {
    pub fn new(num_threads: i32) -> (c: Chromosome)
        ensures
            c.num_threads == num_threads,
    {
        Chromosome { num_threads }
    }

    /// A random chromosome for immigration, recommending between one and
    /// `max_threads` threads.
    pub fn rand(max_threads: i32) -> (c: Chromosome)
        requires
            max_threads >= 1,
        ensures
            in_range(c, max_threads as int),
    {
        let num_threads = random_between(1, max_threads);
        Chromosome::new(num_threads)
    }

    /// The child of two chromosomes: the mean of their thread counts,
    /// rounded toward zero.
    pub fn crossover(&self, other: &Chromosome) -> (c: Chromosome)
        ensures
            c == crossover_of(*self, *other),
    {
        let sum: i64 = self.num_threads as i64 + other.num_threads as i64;
        let num_threads: i64 = if sum >= 0 {
            sum / 2
        } else {
            -((-sum) / 2)
        };
        Chromosome { num_threads: num_threads as i32 }
    }

    /// Moves one thread up (`up`) or down and keeps the result between one
    /// and `max_threads`: the step of a mutation once its direction is known.
    pub fn shift(&mut self, up: bool, max_threads: i32)
        ensures
            *final(self) == mutation_of(*old(self), max_threads as int, up),
    {
        let delta: i64 = if up { 1 } else { -1 };
        let moved: i64 = self.num_threads as i64 + delta;
        let lo: i64 = if moved < 1 { 1 } else { moved };
        self.num_threads = if lo > max_threads as i64 { max_threads } else { lo as i32 };
    }

    /// Adds or subtracts one thread, at random, and keeps the result between
    /// one and `max_threads`.
    pub fn mutate(&mut self, max_threads: i32)
        ensures
            *final(self) == mutation_of(*old(self), max_threads as int, true) || *final(self)
                == mutation_of(*old(self), max_threads as int, false),
    {
        let coin = random_between(0, 1);
        self.shift(coin == 1, max_threads);
    }
}

/// A child's thread count is the mean of its parents', rounded toward zero:
/// twice it is the parents' sum, or one off toward zero when the sum is odd,
/// and it lies between the two parents.
pub proof fn lemma_crossover_is_mean(a: Chromosome, b: Chromosome)
    ensures
        ({
            let sum = a.num_threads + b.num_threads;
            let c = crossover_of(a, b).num_threads;
            &&& sum >= 0 ==> 2 * c == sum || 2 * c == sum - 1
            &&& sum < 0 ==> 2 * c == sum || 2 * c == sum + 1
            &&& (a.num_threads <= c <= b.num_threads || b.num_threads <= c <= a.num_threads)
        }),
{
}

/// A mutation moves the thread count by exactly one thread in its
/// direction when the result stays between one and `max`; otherwise it
/// stops at the bound it crossed.
pub proof fn lemma_mutation_moves_one(c: Chromosome, max: int, up: bool)
    requires
        max >= 1,
        c.num_threads < i32::MAX,
    ensures
        ({
            let t = c.num_threads + if up { 1int } else { -1int };
            let m = mutation_of(c, max, up).num_threads;
            &&& 1 <= t <= max ==> m == t
            &&& t < 1 ==> m == 1
            &&& t > max ==> m == max
        }),
{
}

} // verus!
