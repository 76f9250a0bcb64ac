use vstd::prelude::*;

use permutation::Permutation;

use crate::chromosome::{crossover_of, in_range, mutation_of, Chromosome};
use crate::ranking::{
    apply_ranking, is_bijection, permutation_indices, permutation_is_forward, permuted, ranking_is_valid,
    ranking_len,
};

verus! {

/// `rand::random_range(0..upper)` on `usize`: a value drawn from the
/// thread-local generator.  Claimed: it is below `upper` (rand panics on an
/// empty range, left out here).  Nothing is claimed of how the values are
/// distributed.
#[verifier::external_body]
fn random_below(upper: usize) -> (r: usize)
    requires
        0 < upper,
    ensures
        r < upper,
{
    rand::random_range(0..upper)
}

// ---------------------------------------------------------------------------
// The initial population
// ---------------------------------------------------------------------------

/// `a / b` rounded to the nearest integer, halves away from zero (`b > 0`).
pub open spec fn round_ratio(a: int, b: int) -> int {
    if a >= 0 {
        (2 * a + b) / (2 * b)
    } else {
        -((-2 * a + b) / (2 * b))
    }
}

/// The thread count of chromosome `i` in a fresh population of `size`:
/// `1 + round(i * (max - 1) / (size - 1))`, an even spread from one to
/// `max`.  A population of one holds a single chromosome of one thread.
pub open spec fn spread_threads(i: int, max: int, size: int) -> int {
    if size <= 1 {
        1
    } else {
        1 + round_ratio(i * (max - 1), size - 1)
    }
}

proof fn lemma_round_ratio_bounds(i: int, c: int, d: int)
    requires
        0 <= i <= d,
        0 < d,
    ensures
        c >= 0 ==> 0 <= round_ratio(i * c, d) <= c,
        c < 0 ==> c <= round_ratio(i * c, d) <= 0,
{
    if c >= 0 {
        assert(0 <= i * c <= d * c) by (nonlinear_arith)
            requires
                0 <= i <= d,
                c >= 0,
        ;
        assert(0 <= 2 * (i * c) + d);
        vstd::arithmetic::div_mod::lemma_div_is_ordered(2 * (i * c) + d, 2 * (d * c) + d, 2 * d);
        vstd::arithmetic::div_mod::lemma_div_is_ordered(0, 2 * (i * c) + d, 2 * d);
        assert((2 * (d * c) + d) == (2 * d) * c + d) by (nonlinear_arith);
        vstd::arithmetic::div_mod::lemma_div_multiples_vanish_fancy(c, d, 2 * d);
        vstd::arithmetic::div_mod::lemma_div_of0(2 * d);
    } else {
        let e = -c;
        assert(0 <= i * e <= d * e) by (nonlinear_arith)
            requires
                0 <= i <= d,
                e >= 0,
        ;
        assert(i * c == -(i * e)) by (nonlinear_arith)
            requires
                e == -c,
        ;
        assert(-2 * (i * c) + d == 2 * (i * e) + d);
        vstd::arithmetic::div_mod::lemma_div_is_ordered(2 * (i * e) + d, 2 * (d * e) + d, 2 * d);
        vstd::arithmetic::div_mod::lemma_div_is_ordered(0, 2 * (i * e) + d, 2 * d);
        assert((2 * (d * e) + d) == (2 * d) * e + d) by (nonlinear_arith);
        vstd::arithmetic::div_mod::lemma_div_multiples_vanish_fancy(e, d, 2 * d);
        vstd::arithmetic::div_mod::lemma_div_of0(2 * d);
        if i * c >= 0 {
            assert(i * e == 0);
            assert(round_ratio(i * c, d) == d / (2 * d));
            vstd::arithmetic::div_mod::lemma_div_multiples_vanish_fancy(0, d, 2 * d);
        }
    }
}

proof fn lemma_spread_ends(max: int, size: int)
    requires
        size >= 2,
    ensures
        spread_threads(0, max, size) == 1,
        spread_threads(size - 1, max, size) == max,
{
    let c = max - 1;
    let d = size - 1;
    vstd::arithmetic::div_mod::lemma_div_multiples_vanish_fancy(0, d, 2 * d);
    assert(0 * c == 0);
    if c >= 0 {
        assert(2 * (d * c) + d == (2 * d) * c + d) by (nonlinear_arith);
        vstd::arithmetic::div_mod::lemma_div_multiples_vanish_fancy(c, d, 2 * d);
    } else {
        let e = -c;
        assert(d * c == -(d * e)) by (nonlinear_arith)
            requires
                e == -c,
        ;
        assert(d * e >= 0) by (nonlinear_arith)
            requires
                e > 0,
                d > 0,
        ;
        assert(-2 * (d * c) + d == (2 * d) * e + d) by (nonlinear_arith)
            requires
                d * c == -(d * e),
        ;
        vstd::arithmetic::div_mod::lemma_div_multiples_vanish_fancy(e, d, 2 * d);
        if d * c >= 0 {
            assert(d * e == 0);
            assert(false) by (nonlinear_arith)
                requires
                    d * e == 0,
                    d > 0,
                    e > 0,
            ;
        }
    }
}

proof fn lemma_spread_monotone(i: int, j: int, max: int, size: int)
    requires
        0 <= i <= j < size,
        max >= 1,
    ensures
        spread_threads(i, max, size) <= spread_threads(j, max, size),
{
    if size > 1 {
        let c = max - 1;
        let d = size - 1;
        assert(0 <= i * c <= j * c) by (nonlinear_arith)
            requires
                0 <= i <= j,
                c >= 0,
        ;
        vstd::arithmetic::div_mod::lemma_div_is_ordered(2 * (i * c) + d, 2 * (j * c) + d, 2 * d);
    }
}

/// Thread count of chromosome `i` of a fresh population of `size`.
fn spread_value(i: usize, max_threads: i32, size: usize) -> (r: i32)
    requires
        i < size,
    ensures
        r == spread_threads(i as int, max_threads as int, size as int),
{
    if size == 1 {
        return 1;
    }
    let c: i128 = max_threads as i128 - 1;
    let d: i128 = (size - 1) as i128;
    proof {
        lemma_round_ratio_bounds(i as int, c as int, d as int);
        assert(-0x1_0000_0000 <= c < 0x1_0000_0000);
        assert(-0x1_0000_0000_0000_0000_0000_0000 <= i * c <= 0x1_0000_0000_0000_0000_0000_0000)
            by (nonlinear_arith)
            requires
                0 <= i < 0x1_0000_0000_0000_0000,
                -0x1_0000_0000 <= c < 0x1_0000_0000,
        ;
    }
    let a: i128 = i as i128 * c;
    let q: i128 = if a >= 0 {
        (2 * a + d) / (2 * d)
    } else {
        -((-2 * a + d) / (2 * d))
    };
    (1 + q) as i32
}

// ---------------------------------------------------------------------------
// Sorting by thread count
// ---------------------------------------------------------------------------

/// The chromosomes of `s` are in ascending order of thread count.
pub open spec fn sorted_by_threads(s: Seq<Chromosome>) -> bool {
    forall|i: int, j: int| 0 <= i <= j < s.len() ==> #[trigger] s[i].num_threads <= #[trigger] s[j].num_threads
}

proof fn lemma_swap_multiset<A>(s: Seq<A>, i: int, j: int)
    requires
        0 <= i < s.len(),
        0 <= j < s.len(),
    ensures
        s.update(i, s[j]).update(j, s[i]).to_multiset() =~= s.to_multiset(),
{
    broadcast use vstd::seq_lib::group_to_multiset_ensures;
    broadcast use vstd::multiset::group_multiset_axioms;

    let s1 = s.update(i, s[j]);
    assert(s1.to_multiset() == s.to_multiset().insert(s[j]).remove(s[i]));
    assert(s1.update(j, s[i]).to_multiset() == s1.to_multiset().insert(s[i]).remove(s1[j]));
    if i == j {
        assert(s1 =~= s);
        assert(s1.update(j, s[i]) =~= s);
    } else {
        assert(s1[j] == s[j]);
    }
}

/// Sorts the chromosomes by thread count, as `Vec::sort` does for the
/// derived order of `Chromosome`.
fn sort_by_threads(v: &mut Vec<Chromosome>)
    ensures
        final(v)@.to_multiset() =~= old(v)@.to_multiset(),
        final(v)@.len() == old(v)@.len(),
        sorted_by_threads(final(v)@),
{
    let n = v.len();
    let mut i: usize = 0;
    while i < n
        invariant
            n == v@.len(),
            i <= n,
            v@.to_multiset() =~= old(v)@.to_multiset(),
            forall|a: int, b: int| 0 <= a <= b < i ==> #[trigger] v@[a].num_threads <= #[trigger] v@[b].num_threads,
            forall|a: int, b: int| 0 <= a < i <= b < n ==> #[trigger] v@[a].num_threads <= #[trigger] v@[b].num_threads,
        decreases n - i,
    {
        let mut m: usize = i;
        let mut k: usize = i + 1;
        while k < n
            invariant
                n == v@.len(),
                i <= m < n,
                i < k <= n,
                m < k,
                forall|b: int| i <= b < k ==> v@[m as int].num_threads <= #[trigger] v@[b].num_threads,
            decreases n - k,
        {
            if v[k].num_threads < v[m].num_threads {
                m = k;
            }
            k += 1;
        }
        let a = Chromosome { num_threads: v[i].num_threads };
        let b = Chromosome { num_threads: v[m].num_threads };
        proof {
            lemma_swap_multiset(v@, i as int, m as int);
        }
        let ghost before = v@;
        v.set(i, b);
        v.set(m, a);
        assert(v@ =~= before.update(i as int, before[m as int]).update(m as int, before[i as int]));
        i += 1;
    }
}

// ---------------------------------------------------------------------------
// The genetic controller
// ---------------------------------------------------------------------------

/// The abstract state of a genetic controller.
pub struct GeneticView {
    pub max_threads: int,
    pub population: Seq<Chromosome>,
    pub sample_index: int,
}

/// A controller that evolves a population of thread counts.  Between two
/// evolutions it recommends each chromosome of the population once, in
/// turn; each evolution keeps the chromosomes that scored best, breeds
/// children from them and lets in random immigrants.
pub struct GeneticController {
    max_threads: i32,
    population: Vec<Chromosome>,
    sample_index: usize,
}

impl View for GeneticController {
    type V = GeneticView;

    closed spec fn view(&self) -> GeneticView {
        GeneticView {
            max_threads: self.max_threads as int,
            population: self.population@,
            sample_index: self.sample_index as int,
        }
    }
}

/// `child` is bred from two of `parents`: their crossover, which is
/// mutated by one thread exactly when the mutation draw (a value that
/// `draw` may return) says so.
pub open spec fn is_offspring<F: Fn() -> bool>(child: Chromosome, parents: Seq<Chromosome>, max: int, draw: F) -> bool {
    exists|a: int, b: int, mutates: bool|
        0 <= a < parents.len() && 0 <= b < parents.len() && #[trigger] draw.ensures((), mutates) && {
            let x = crossover_of(#[trigger] parents[a], #[trigger] parents[b]);
            if mutates {
                child == mutation_of(x, max, true) || child == mutation_of(x, max, false)
            } else {
                child == x
            }
        }
}

/// `next` is a generation that may follow the population `ranked`, ordered
/// best first: the first `survival` chromosomes survive, those from
/// `survival` up to `size - immigration` are offspring of the survivors,
/// those from `size - immigration` up to `size` are random immigrants, and
/// those past `size` stay.
pub open spec fn is_next_generation<F: Fn() -> bool>(
    next: Seq<Chromosome>,
    ranked: Seq<Chromosome>,
    size: int,
    survival: int,
    immigration: int,
    max: int,
    draw: F,
) -> bool {
    let start = size - immigration;
    &&& next.len() == ranked.len()
    &&& forall|k: int|
        0 <= k < next.len() ==> {
            if start <= k < size {
                in_range(#[trigger] next[k], max)
            } else if survival <= k < start {
                is_offspring(next[k], ranked.subrange(0, survival), max, draw)
            } else {
                next[k] == ranked[k]
            }
        }
}

impl GeneticController {
    /// The turn lies within the population.
    pub closed spec fn wf(&self) -> bool {
        self.population@.len() > 0 ==> self.sample_index < self.population@.len()
    }

    /// Every chromosome recommends between one and `max_threads` threads.
    pub open spec fn in_bounds(&self) -> bool {
        &&& self@.max_threads >= 1
        &&& forall|k: int| 0 <= k < self@.population.len() ==> in_range(#[trigger] self@.population[k], self@.max_threads)
    }

    /// A population of `population_size` chromosomes spread evenly over the
    /// valid thread counts, from one to `max_threads`, rather than drawn at
    /// random: fewer duplicates, and a better chance to meet the optimum at
    /// once.
    pub fn new(max_threads: i32, population_size: usize) -> (c: GeneticController)
        ensures
            c@.max_threads == max_threads,
            c@.sample_index == 0,
            c@.population.len() == population_size,
            forall|i: int| 0 <= i < population_size ==> (#[trigger] c@.population[i]).num_threads
                == spread_threads(i, max_threads as int, population_size as int),
            c.wf(),
            max_threads >= 1 ==> c.in_bounds(),
            max_threads >= 1 ==> sorted_by_threads(c@.population),
            population_size >= 2 ==> c@.population[0].num_threads == 1,
            population_size >= 2 ==> c@.population[population_size - 1].num_threads == max_threads,
    {
        let mut population: Vec<Chromosome> = Vec::new();
        let mut i: usize = 0;
        while i < population_size
            invariant
                i <= population_size,
                population@.len() == i,
                forall|k: int| 0 <= k < i ==> (#[trigger] population@[k]).num_threads
                    == spread_threads(k, max_threads as int, population_size as int),
            decreases population_size - i,
        {
            let v = spread_value(i, max_threads, population_size);
            population.push(Chromosome::new(v));
            i += 1;
        }
        let c = GeneticController { max_threads, population, sample_index: 0 };
        proof {
            if population_size >= 2 {
                lemma_spread_ends(max_threads as int, population_size as int);
            }
            if max_threads >= 1 {
                assert forall|k: int| 0 <= k < population_size implies in_range(
                    #[trigger] c.population@[k],
                    max_threads as int,
                ) by {
                    if population_size > 1 {
                        lemma_round_ratio_bounds(k, max_threads - 1, population_size - 1);
                    }
                }
                assert forall|a: int, b: int| 0 <= a <= b < population_size implies #[trigger] c.population@[a].num_threads
                    <= #[trigger] c.population@[b].num_threads by {
                    lemma_spread_monotone(a, b, max_threads as int, population_size as int);
                }
            }
        }
        c
    }

    /// The thread count to try next: the chromosome whose turn it is.  The
    /// turns go round the population, so that between two evolutions every
    /// chromosome is applied once.  After the last chromosome the turn comes
    /// back to the first: the population is gone through again every
    /// `population_size` calls, rather than read past its end.
    pub fn num_threads(&mut self) -> (r: i32)
        requires
            old(self).wf(),
            old(self)@.population.len() > 0,
        ensures
            r == old(self)@.population[old(self)@.sample_index].num_threads,
            final(self)@.sample_index == (old(self)@.sample_index + 1) % (old(self)@.population.len() as int),
            final(self)@.population == old(self)@.population,
            final(self)@.max_threads == old(self)@.max_threads,
            final(self).wf(),
            old(self).in_bounds() ==> final(self).in_bounds(),
    {
        let r = self.population[self.sample_index].num_threads;
        let len = self.population.len();
        let next = self.sample_index + 1;
        proof {
            let len = self.population@.len() as int;
            if next < len {
                vstd::arithmetic::div_mod::lemma_small_mod(next as nat, len as nat);
            } else {
                vstd::arithmetic::div_mod::lemma_mod_self_0(len);
            }
        }
        self.sample_index = if next == len { 0 } else { next };
        r
    }

    /// The population, in its current order.
    pub fn population(&self) -> (r: &Vec<Chromosome>)
        ensures
            r@ == self@.population,
    {
        &self.population
    }

    /// The position of the chromosome whose turn it is.
    pub fn sample_index(&self) -> (r: usize)
        ensures
            r == self@.sample_index,
    {
        self.sample_index
    }

    /// The largest thread count the controller recommends.
    pub fn max_threads(&self) -> (r: i32)
        ensures
            r == self@.max_threads,
    {
        self.max_threads
    }
}

/// The ranking orders a population of `len` chromosomes: it holds every
/// position below `len` exactly once.
pub open spec fn ranking_fits(ranking: Permutation, len: int) -> bool {
    permutation_indices(ranking).len() == len && is_bijection(permutation_indices(ranking))
}

/// The counts of one evolution suit a population of `len` chromosomes:
/// no more immigrants come than there are places; when children are bred,
/// there is at least one survivor to breed them from and their places lie
/// in the population; when immigrants come, their places lie in the
/// population and there is at least one thread count (`max`) for them.  (`len` is within `isize::MAX`, as the length of any vector of
/// chromosomes is.)
pub open spec fn counts_fit(
    population_size: int,
    survival_count: int,
    immigration_count: int,
    len: int,
    max: int,
) -> bool {
    &&& len <= isize::MAX
    &&& immigration_count <= population_size
    &&& survival_count < population_size - immigration_count ==> survival_count > 0 && population_size
        - immigration_count <= len
    &&& immigration_count > 0 ==> max >= 1 && population_size <= len
}

/// `post` is what one evolution of `pre` can give: the population, ranked
/// best first by `ranking`, is replaced by a next generation of it and then
/// sorted by thread count.  The bounds and the turn stay.
pub open spec fn evolved<F: Fn() -> bool>(
    pre: GeneticView,
    post: GeneticView,
    ranking: Permutation,
    population_size: int,
    survival_count: int,
    immigration_count: int,
    draw: F,
) -> bool {
    let ranked = permuted(pre.population, permutation_indices(ranking), permutation_is_forward(ranking));
    &&& post.max_threads == pre.max_threads
    &&& post.sample_index == pre.sample_index
    &&& post.population.len() == pre.population.len()
    &&& sorted_by_threads(post.population)
    &&& exists|next: Seq<Chromosome>|
        is_next_generation(next, ranked, population_size, survival_count, immigration_count, pre.max_threads, draw)
            && #[trigger] next.to_multiset() =~= post.population.to_multiset()
}

proof fn lemma_permuted_in_range(s: Seq<Chromosome>, idx: Seq<usize>, forward: bool, max: int)
    requires
        idx.len() == s.len(),
        is_bijection(idx),
        forall|k: int| 0 <= k < s.len() ==> in_range(#[trigger] s[k], max),
    ensures
        permuted(s, idx, forward).len() == s.len(),
        forall|k: int| 0 <= k < s.len() ==> in_range(#[trigger] permuted(s, idx, forward)[k], max),
{
    let p = permuted(s, idx, forward);
    assert forall|j: int| 0 <= j < s.len() implies in_range(#[trigger] p[j], max) by {
        if !forward {
            assert(idx[j] < idx.len());
        } else if exists|k: int| 0 <= k < idx.len() && idx[k] == j {
            let k = choose|k: int| 0 <= k < idx.len() && idx[k] == j;
            assert(in_range(s[k], max));
        } else {
            assert(in_range(s[j], max));
        }
    }
}

proof fn lemma_crossover_in_range(a: Chromosome, b: Chromosome, max: int)
    requires
        in_range(a, max),
        in_range(b, max),
    ensures
        in_range(crossover_of(a, b), max),
{
}

impl GeneticController {
    /// One evolution.  `ranking` orders the population best first (the
    /// permutation that sorts the scores); `population_size`,
    /// `survival_count` and `immigration_count` come from the
    /// configuration; `mutation_draw` tells, once per child, whether that
    /// child mutates.
    ///
    /// The population is reordered by the ranking.  Each place from
    /// `survival_count` up to `population_size - immigration_count` receives
    /// the crossover of two random survivors, mutated when the draw says so;
    /// each place from there up to `population_size` receives a random
    /// immigrant.  Last, the population is sorted by thread count, so that
    /// the running program sees as few changes as it can.
    pub fn evolve<F: Fn() -> bool>(
        &mut self,
        ranking: Permutation,
        population_size: usize,
        survival_count: usize,
        immigration_count: usize,
        mutation_draw: &F,
    )
        requires
            old(self).wf(),
            ranking_fits(ranking, old(self)@.population.len() as int),
            counts_fit(
                population_size as int,
                survival_count as int,
                immigration_count as int,
                old(self)@.population.len() as int,
                old(self)@.max_threads,
            ),
            mutation_draw.requires(()),
        ensures
            final(self).wf(),
            old(self).in_bounds() ==> final(self).in_bounds(),
            evolved(
                old(self)@,
                final(self)@,
                ranking,
                population_size as int,
                survival_count as int,
                immigration_count as int,
                *mutation_draw,
            ),
    {
        let ghost pre = self@;
        let ghost idx = permutation_indices(ranking);
        let ghost forward = permutation_is_forward(ranking);
        let mut ranking = ranking;
        let n = self.population.len();
        let max_threads = self.max_threads;
        let ghost bounded = self.in_bounds();
        proof {
            if bounded {
                lemma_permuted_in_range(pre.population, idx, forward, max_threads as int);
            }
        }
        apply_ranking(&mut ranking, &mut self.population);
        let ghost ranked = self.population@;
        assert(ranked == permuted(pre.population, idx, forward));

        let immigration_start = population_size - immigration_count;

        // Replace chromosomes by children of the best performing chromosomes
        let mut i: usize = survival_count;
        while i < immigration_start
            invariant
                n == self.population@.len(),
                n == ranked.len(),
                self.max_threads == max_threads,
                self.sample_index == pre.sample_index,
                bounded ==> max_threads >= 1,
                survival_count < immigration_start ==> immigration_start <= n,
                survival_count <= i,
                survival_count <= immigration_start ==> i <= immigration_start,
                survival_count > immigration_start ==> i == survival_count,
                survival_count < immigration_start ==> 0 < survival_count,
                mutation_draw.requires(()),
                bounded ==> forall|k: int| 0 <= k < n ==> in_range(#[trigger] ranked[k], max_threads as int),
                forall|k: int|
                    0 <= k < n ==> {
                        if survival_count <= k < i {
                            is_offspring(
                                #[trigger] self.population@[k],
                                ranked.subrange(0, survival_count as int),
                                max_threads as int,
                                *mutation_draw,
                            ) && (bounded ==> in_range(self.population@[k], max_threads as int))
                        } else {
                            self.population@[k] == ranked[k]
                        }
                    },
            decreases immigration_start - i,
        {
            let a = random_below(survival_count);
            let b = random_below(survival_count);
            let mut child = self.population[a].crossover(&self.population[b]);
            let ghost x = child;
            proof {
                if bounded {
                    lemma_crossover_in_range(ranked[a as int], ranked[b as int], max_threads as int);
                }
            }
            let mutates = mutation_draw();
            if mutates {
                child.mutate(max_threads);
            }
            proof {
                let parents = ranked.subrange(0, survival_count as int);
                assert(parents[a as int] == ranked[a as int]);
                assert(parents[b as int] == ranked[b as int]);
                assert(x == crossover_of(parents[a as int], parents[b as int]));
                assert(mutation_draw.ensures((), mutates));
            }
            self.population.set(i, child);
            i += 1;
        }

        // Fill remaining chromosomes by immigration
        let mut i: usize = immigration_start;
        while i < population_size
            invariant
                n == self.population@.len(),
                n == ranked.len(),
                self.max_threads == max_threads,
                self.sample_index == pre.sample_index,
                bounded ==> max_threads >= 1,
                immigration_start < population_size ==> max_threads >= 1,
                immigration_start <= i <= population_size,
                immigration_start < population_size ==> population_size <= n,
                bounded ==> forall|k: int| 0 <= k < n ==> in_range(#[trigger] ranked[k], max_threads as int),
                forall|k: int|
                    0 <= k < n ==> {
                        if immigration_start <= k < i {
                            in_range(#[trigger] self.population@[k], max_threads as int)
                        } else if survival_count <= k < immigration_start {
                            is_offspring(
                                self.population@[k],
                                ranked.subrange(0, survival_count as int),
                                max_threads as int,
                                *mutation_draw,
                            ) && (bounded ==> in_range(self.population@[k], max_threads as int))
                        } else {
                            self.population@[k] == ranked[k]
                        }
                    },
            decreases population_size - i,
        {
            let immigrant = Chromosome::rand(max_threads);
            self.population.set(i, immigrant);
            i += 1;
        }
        let ghost next = self.population@;
        assert(is_next_generation(
            next,
            ranked,
            population_size as int,
            survival_count as int,
            immigration_count as int,
            max_threads as int,
            *mutation_draw,
        ));

        // Sort the population by recommended thread count, to minimise
        // changes in the running program.
        sort_by_threads(&mut self.population);
        proof {
            broadcast use vstd::seq_lib::group_to_multiset_ensures;

            assert forall|k: int| bounded && 0 <= k < n implies in_range(#[trigger] self.population@[k], max_threads as int) by {
                let c = self.population@[k];
                assert(self.population@.contains(c));
                assert(next.to_multiset().count(c) > 0);
                assert(next.contains(c));
                let j = choose|j: int| 0 <= j < next.len() && next[j] == c;
                assert(in_range(next[j], max_threads as int));
            }
            assert(next.to_multiset() =~= self.population@.to_multiset());
        }
    }

    /// One evolution, as `evolve` describes it, where the ranking and the
    /// counts suit the population; otherwise the controller stays as it is
    /// and the result is `false`.
    pub fn try_evolve<F: Fn() -> bool>(
        &mut self,
        ranking: Permutation,
        population_size: usize,
        survival_count: usize,
        immigration_count: usize,
        mutation_draw: &F,
    ) -> (done: bool)
        requires
            old(self).wf(),
            mutation_draw.requires(()),
        ensures
            final(self).wf(),
            old(self).in_bounds() ==> final(self).in_bounds(),
            done == (ranking_fits(ranking, old(self)@.population.len() as int) && counts_fit(
                population_size as int,
                survival_count as int,
                immigration_count as int,
                old(self)@.population.len() as int,
                old(self)@.max_threads,
            )),
            done ==> evolved(
                old(self)@,
                final(self)@,
                ranking,
                population_size as int,
                survival_count as int,
                immigration_count as int,
                *mutation_draw,
            ),
            !done ==> final(self)@ == old(self)@,
    {
        let n = self.population.len();
        if n > isize::MAX as usize || ranking_len(&ranking) != n || !ranking_is_valid(&ranking) {
            return false;
        }
        if immigration_count > population_size {
            return false;
        }
        let immigration_start = population_size - immigration_count;
        if survival_count < immigration_start && (survival_count == 0 || immigration_start > n) {
            return false;
        }
        if immigration_count > 0 && (self.max_threads < 1 || population_size > n) {
            return false;
        }
        self.evolve(ranking, population_size, survival_count, immigration_count, mutation_draw);
        true
    }
}
/// The chromosomes that rank best survive an evolution: each of the first
/// `survival_count` chromosomes of the ranking that no immigrant replaces is
/// still in the population afterwards.
pub proof fn lemma_survivors_remain<F: Fn() -> bool>(
    draw: F,
    pre: GeneticView,
    post: GeneticView,
    ranking: Permutation,
    population_size: int,
    survival_count: int,
    immigration_count: int,
    k: int,
)
    requires
        evolved(pre, post, ranking, population_size, survival_count, immigration_count, draw),
        0 <= k < survival_count,
        k < population_size - immigration_count,
        k < pre.population.len(),
    ensures
        post.population.contains(
            permuted(pre.population, permutation_indices(ranking), permutation_is_forward(ranking))[k],
        ),
{
    broadcast use vstd::seq_lib::group_to_multiset_ensures;

    let ranked = permuted(pre.population, permutation_indices(ranking), permutation_is_forward(ranking));
    let next = choose|next: Seq<Chromosome>|
        is_next_generation(next, ranked, population_size, survival_count, immigration_count, pre.max_threads, draw)
            && #[trigger] next.to_multiset() =~= post.population.to_multiset();
    assert(next[k] == ranked[k]);
    assert(next.contains(next[k]));
    assert(post.population.to_multiset().count(ranked[k]) > 0);
}


/// Without mutation and immigration, an evolution stays within the survivors:
/// where the draw never says to mutate, no immigrant comes in and the whole
/// population takes part, every thread count afterwards lies between the
/// least and the greatest thread count of the surviving chromosomes.
pub proof fn lemma_unmutated_stays_within_survivors<F: Fn() -> bool>(
    draw: F,
    pre: GeneticView,
    post: GeneticView,
    ranking: Permutation,
    survival_count: int,
    lo: int,
    hi: int,
)
    requires
        evolved(pre, post, ranking, pre.population.len() as int, survival_count, 0, draw),
        0 <= survival_count,
        forall|m: bool| #[trigger] draw.ensures((), m) ==> !m,
        forall|k: int|
            0 <= k < survival_count && k < pre.population.len() ==> lo <= (#[trigger] permuted(
                pre.population,
                permutation_indices(ranking),
                permutation_is_forward(ranking),
            )[k]).num_threads <= hi,
    ensures
        forall|k: int| 0 <= k < post.population.len() ==> lo <= (#[trigger] post.population[k]).num_threads <= hi,
{
    broadcast use vstd::seq_lib::group_to_multiset_ensures;

    let size = pre.population.len() as int;
    let ranked = permuted(pre.population, permutation_indices(ranking), permutation_is_forward(ranking));
    let next = choose|next: Seq<Chromosome>|
        is_next_generation(next, ranked, size, survival_count, 0, pre.max_threads, draw)
            && #[trigger] next.to_multiset() =~= post.population.to_multiset();
    assert forall|j: int| 0 <= j < next.len() implies lo <= (#[trigger] next[j]).num_threads <= hi by {
        if survival_count <= j < size {
            let parents = ranked.subrange(0, survival_count);
            assert(is_offspring(next[j], parents, pre.max_threads, draw));
            let (a, b, mutates) = choose|a: int, b: int, mutates: bool|
                0 <= a < parents.len() && 0 <= b < parents.len() && #[trigger] draw.ensures((), mutates) && {
                    let x = crossover_of(#[trigger] parents[a], #[trigger] parents[b]);
                    if mutates {
                        next[j] == mutation_of(x, pre.max_threads, true) || next[j] == mutation_of(x, pre.max_threads, false)
                    } else {
                        next[j] == x
                    }
                };
            assert(!mutates);
            assert(ranked.len() == size);
            assert(parents[a] == ranked[a] && parents[b] == ranked[b]);
            assert(lo <= ranked[a].num_threads <= hi);
            assert(lo <= ranked[b].num_threads <= hi);
        } else {
            assert(next[j] == ranked[j]);
        }
    }
    assert forall|k: int| 0 <= k < post.population.len() implies lo <= (#[trigger] post.population[k]).num_threads <= hi by {
        let c = post.population[k];
        assert(post.population.contains(c));
        assert(next.to_multiset().count(c) > 0);
        assert(next.contains(c));
        let j = choose|j: int| 0 <= j < next.len() && next[j] == c;
        assert(lo <= next[j].num_threads <= hi);
    }
}

} // verus!
