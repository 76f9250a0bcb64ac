use mtdynamic::chromosome::Chromosome;
use mtdynamic::genetic::GeneticController;

fn spread_by_float(i: usize, max_threads: i32, population_size: usize) -> i32 {
    1 + (i as f64 * (max_threads - 1) as f64 / (population_size - 1) as f64).round() as i32
}

#[test]
fn chromosome_new_keeps_count() {
    assert_eq!(Chromosome::new(7).num_threads, 7);
}

#[test]
fn crossover_is_mean_toward_zero() {
    let a = Chromosome::new(3);
    let b = Chromosome::new(6);
    assert_eq!(a.crossover(&b).num_threads, 4);
    assert_eq!(b.crossover(&a).num_threads, 4);
    assert_eq!(Chromosome::new(-3).crossover(&Chromosome::new(0)).num_threads, -1);
    assert_eq!(Chromosome::new(8).crossover(&Chromosome::new(8)).num_threads, 8);
    let big = Chromosome::new(i32::MAX);
    assert_eq!(big.crossover(&big).num_threads, i32::MAX);
}

#[test]
fn mutate_moves_one_thread_within_bounds() {
    for _ in 0..50 {
        let mut c = Chromosome::new(5);
        c.mutate(10);
        assert!(c.num_threads == 4 || c.num_threads == 6);
        let mut c = Chromosome::new(1);
        c.mutate(10);
        assert!(c.num_threads == 1 || c.num_threads == 2);
        let mut c = Chromosome::new(10);
        c.mutate(10);
        assert!(c.num_threads == 9 || c.num_threads == 10);
    }
}

#[test]
fn rand_stays_in_range() {
    for _ in 0..100 {
        let c = Chromosome::rand(4);
        assert!(c.num_threads >= 1 && c.num_threads <= 4);
    }
    assert_eq!(Chromosome::rand(1).num_threads, 1);
}

#[test]
fn initial_population_is_even_spread() {
    for &(max, size) in &[(16, 20), (8, 20), (64, 7), (3, 10), (100, 2), (1, 5)] {
        let g = GeneticController::new(max, size);
        let pop = g.population();
        assert_eq!(pop.len(), size);
        for (i, c) in pop.iter().enumerate() {
            assert_eq!(c.num_threads, spread_by_float(i, max, size), "max {} size {} i {}", max, size, i);
        }
        assert_eq!(pop[0].num_threads, 1);
        assert_eq!(pop[size - 1].num_threads, max);
    }
}

#[test]
fn initial_population_exact_values() {
    let g = GeneticController::new(16, 20);
    let v: Vec<i32> = g.population().iter().map(|c| c.num_threads).collect();
    assert_eq!(v, vec![1, 2, 3, 3, 4, 5, 6, 7, 7, 8, 9, 10, 10, 11, 12, 13, 14, 14, 15, 16]);
}

#[test]
fn tiny_populations() {
    let g = GeneticController::new(5, 1);
    assert_eq!(g.population().len(), 1);
    assert_eq!(g.population()[0].num_threads, 1);
    let g = GeneticController::new(5, 0);
    assert!(g.population().is_empty());
}

#[test]
fn num_threads_goes_round_the_population() {
    let mut g = GeneticController::new(9, 3);
    assert_eq!(g.num_threads(), 1);
    assert_eq!(g.num_threads(), 5);
    assert_eq!(g.num_threads(), 9);
    assert_eq!(g.num_threads(), 1);
    assert_eq!(g.num_threads(), 5);
}

#[test]
fn evolve_keeps_survivors_and_sorts() {
    let mut g = GeneticController::new(16, 20);
    // The lower the score, the better: chromosome 19 (16 threads) is best.
    let scores: Vec<f32> = (0..20).map(|i| (20 - i) as f32).collect();
    let ranking = permutation::sort_by(&scores, |a, b| a.partial_cmp(b).unwrap());
    let done = g.try_evolve(ranking, 20, 10, 5, &|| true);
    assert!(done);
    let pop: Vec<i32> = g.population().iter().map(|c| c.num_threads).collect();
    assert_eq!(pop.len(), 20);
    for w in pop.windows(2) {
        assert!(w[0] <= w[1]);
    }
    for &n in &pop {
        assert!(n >= 1 && n <= 16);
    }
    // The ten best survivors: the last ten of the initial spread.
    let survivors = [10, 10, 11, 12, 13, 14, 14, 15, 16, 9];
    let mut remaining = pop.clone();
    for s in survivors.iter() {
        let at = remaining.iter().position(|x| x == s).expect("survivor kept");
        remaining.remove(at);
    }
    // Children of survivors lie between 8 and 16.
    assert_eq!(remaining.len(), 10);
}

#[test]
fn evolve_without_children_or_immigrants_only_sorts() {
    let mut g = GeneticController::new(10, 4);
    let before: Vec<i32> = g.population().iter().map(|c| c.num_threads).collect();
    let scores = vec![0.5f32, 0.1, 0.3, 0.2];
    let ranking = permutation::sort_by(&scores, |a, b| a.partial_cmp(b).unwrap());
    assert!(g.try_evolve(ranking, 4, 4, 0, &|| false));
    let after: Vec<i32> = g.population().iter().map(|c| c.num_threads).collect();
    assert_eq!(before, after);
}

#[test]
fn evolve_rejects_unfitting_ranking() {
    let mut g = GeneticController::new(10, 4);
    let before: Vec<i32> = g.population().iter().map(|c| c.num_threads).collect();
    let scores = vec![0.5f32, 0.1, 0.3];
    let ranking = permutation::sort_by(&scores, |a, b| a.partial_cmp(b).unwrap());
    assert!(!g.try_evolve(ranking, 4, 2, 1, &|| false));
    let after: Vec<i32> = g.population().iter().map(|c| c.num_threads).collect();
    assert_eq!(before, after);
}

#[test]
fn evolve_rejects_unfitting_counts() {
    let mut g = GeneticController::new(10, 4);
    let scores = vec![0.5f32, 0.1, 0.3, 0.2];
    let ranking = permutation::sort_by(&scores, |a, b| a.partial_cmp(b).unwrap());
    // More immigrants than places.
    assert!(!g.try_evolve(ranking.clone(), 4, 2, 5, &|| false));
    // Children but no survivor to breed them from.
    assert!(!g.try_evolve(ranking.clone(), 4, 0, 1, &|| false));
    // A population size beyond the population.
    assert!(!g.try_evolve(ranking, 5, 2, 1, &|| false));
}

#[test]
fn evolve_with_immigrants_only() {
    let mut g = GeneticController::new(3, 6);
    let scores = vec![1.0f32; 6];
    let ranking = permutation::sort_by(&scores, |a, b| a.partial_cmp(b).unwrap());
    assert!(g.try_evolve(ranking, 6, 0, 6, &|| false));
    for c in g.population() {
        assert!(c.num_threads >= 1 && c.num_threads <= 3);
    }
}

#[test]
fn evolve_with_forward_ranking() {
    // A ranking in forward form moves the element at k to position idx[k].
    let mut g = GeneticController::new(4, 4);
    let ranking = permutation::Permutation::oneline(vec![3, 2, 1, 0]);
    assert!(g.try_evolve(ranking, 4, 1, 0, &|| false));
    // The survivor is the chromosome moved to the front: the last one, 4.
    for c in g.population().iter() {
        assert_eq!(c.num_threads, 4);
    }
}

#[test]
fn shift_moves_in_the_given_direction() {
    let mut c = Chromosome::new(5);
    c.shift(true, 10);
    assert_eq!(c.num_threads, 6);
    c.shift(false, 10);
    c.shift(false, 10);
    assert_eq!(c.num_threads, 4);
    let mut low = Chromosome::new(1);
    low.shift(false, 10);
    assert_eq!(low.num_threads, 1);
    let mut high = Chromosome::new(10);
    high.shift(true, 10);
    assert_eq!(high.num_threads, 10);
}

#[test]
fn evolve_with_no_place_to_fill_accepts_any_size() {
    let mut g = GeneticController::new(10, 4);
    let scores = vec![0.5f32, 0.1, 0.3, 0.2];
    let ranking = permutation::sort_by(&scores, |a, b| a.partial_cmp(b).unwrap());
    // Survivors fill the configured size, no immigrant: nothing is placed.
    assert!(g.try_evolve(ranking, 6, 6, 0, &|| false));
    assert_eq!(g.population().len(), 4);
}

#[test]
fn evolve_without_mutation_keeps_children_between_survivors() {
    let mut g = GeneticController::new(16, 16);
    let scores: Vec<f32> = (0..16).map(|i| i as f32).collect();
    let ranking = permutation::sort_by(&scores, |a, b| a.partial_cmp(b).unwrap());
    // The four best are the four lowest thread counts: 1, 2, 3, 4.
    assert!(g.try_evolve(ranking, 16, 4, 0, &|| false));
    for c in g.population() {
        assert!(c.num_threads >= 1 && c.num_threads <= 4);
    }
}
