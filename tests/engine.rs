use genetic_algorithms::convergence::Convergence;
use genetic_algorithms::generation::{first_best, is_better, total_fitness, tournament_winner};
use genetic_algorithms::{epoch, initialise, ConfigError, FitnessOrder, Generation, OneMax, TSPath, ELITE_COUNT};

fn scores_of(gen: &Generation<OneMax>) -> Vec<u64> {
    gen.population().iter().map(|g| g.fitness()).collect()
}

#[test]
fn generation_smaller_than_twice_the_elite_is_refused() {
    assert_eq!(ELITE_COUNT, 5);
    let r: Result<Generation<OneMax>, ConfigError> = Generation::new(9, FitnessOrder::Max);
    assert_eq!(r.unwrap_err(), ConfigError::PopulationTooSmall);
    let g: Generation<OneMax> = Generation::new(10, FitnessOrder::Max).unwrap();
    assert_eq!(g.get_population_size(), 10);
    assert_eq!(g.get_order(), FitnessOrder::Max);
    assert!(!g.is_full());
}

#[test]
fn population_size_stays_fixed_over_epochs() {
    let mut gen: Generation<OneMax> = Generation::new(30, FitnessOrder::Max).unwrap();
    initialise(&mut gen);
    assert!(gen.is_full());
    for _ in 0..25 {
        let scores = scores_of(&gen);
        epoch(&mut gen, &scores);
        assert_eq!(gen.population().len(), 30);
        assert_eq!(gen.get_population_size(), 30);
    }
}

#[test]
fn average_is_mean_of_scores() {
    let mut gen: Generation<OneMax> = Generation::new(12, FitnessOrder::Max).unwrap();
    initialise(&mut gen);
    let scores = scores_of(&gen);
    let sum: u128 = scores.iter().map(|s| *s as u128).sum();
    epoch(&mut gen, &scores);
    let mean = gen.get_average_fitness();
    assert_eq!(mean.sum, sum);
    assert_eq!(mean.count, 12);
}

#[test]
fn best_fitness_never_worsens() {
    let mut gen: Generation<OneMax> = Generation::new(20, FitnessOrder::Max).unwrap();
    initialise(&mut gen);
    let mut best = gen.get_best_fitness(&scores_of(&gen));
    for _ in 0..40 {
        let scores = scores_of(&gen);
        let champion = gen.get_best_solution(&scores);
        epoch(&mut gen, &scores);
        assert_eq!(gen.population()[0].bits(), champion.bits());
        let now = gen.get_best_fitness(&scores_of(&gen));
        assert!(now >= best);
        best = now;
    }
}

#[test]
fn best_queries_are_idempotent() {
    let mut gen: Generation<OneMax> = Generation::new(10, FitnessOrder::Min).unwrap();
    initialise(&mut gen);
    let scores = scores_of(&gen);
    let f1 = gen.get_best_fitness(&scores);
    let f2 = gen.get_best_fitness(&scores);
    assert_eq!(f1, f2);
    let s1 = gen.get_best_solution(&scores);
    let s2 = gen.get_best_solution(&scores);
    assert_eq!(s1.bits(), s2.bits());
    assert_eq!(s1.fitness(), f1);
    assert_eq!(*scores.iter().min().unwrap(), f1);
}

#[test]
fn elite_holds_the_top_five_best_first() {
    let mut gen: Generation<TSPath> = Generation::new(10, FitnessOrder::Min).unwrap();
    let cities: Vec<usize> = (0..8).collect();
    for _ in 0..10 {
        gen.push(TSPath::new(&cities, 0, 0).unwrap());
    }
    let before: Vec<Vec<usize>> = gen.population().iter().map(|t| t.get_path().clone()).collect();
    let scores = vec![50, 7, 30, 7, 90, 1, 60, 20, 40, 80];
    epoch(&mut gen, &scores);
    let after = gen.population();
    assert_eq!(after[0].get_path(), &before[5]);
    assert_eq!(after[1].get_path(), &before[1]);
    assert_eq!(after[2].get_path(), &before[3]);
    assert_eq!(after[3].get_path(), &before[7]);
    assert_eq!(after[4].get_path(), &before[2]);
    assert_eq!(gen.get_average_fitness().sum, 385);
}

#[test]
fn tournament_prefers_strictly_better_and_ties_go_second() {
    let scores = vec![3, 9, 3];
    assert_eq!(tournament_winner(&scores, FitnessOrder::Max, 1, 0), 1);
    assert_eq!(tournament_winner(&scores, FitnessOrder::Max, 0, 1), 1);
    assert_eq!(tournament_winner(&scores, FitnessOrder::Min, 1, 0), 0);
    assert_eq!(tournament_winner(&scores, FitnessOrder::Max, 0, 2), 2);
    assert_eq!(tournament_winner(&scores, FitnessOrder::Max, 2, 0), 0);
}

#[test]
fn first_best_takes_the_earliest_tie() {
    assert_eq!(first_best(&vec![4, 8, 2, 8], FitnessOrder::Max), 1);
    assert_eq!(first_best(&vec![4, 8, 2, 2], FitnessOrder::Min), 2);
    assert!(is_better(FitnessOrder::Min, 1, 2));
    assert!(!is_better(FitnessOrder::Max, 2, 2));
}

#[test]
fn total_fitness_handles_large_scores() {
    assert_eq!(total_fitness(&vec![]), 0);
    assert_eq!(total_fitness(&vec![u64::MAX, u64::MAX]), 2 * (u64::MAX as u128));
}

#[test]
fn convergence_stops_after_patience_without_improvement() {
    let mut progress = Convergence::new(FitnessOrder::Min, 2, 100);
    assert!(progress.should_continue());
    assert!(progress.record(50, 500));
    assert_eq!(progress.since_improvement, 0);
    assert!(!progress.record(50, 500));
    assert_eq!(progress.since_improvement, 1);
    assert!(progress.should_continue());
    assert!(!progress.record(60, 400));
    assert_eq!(progress.since_improvement, 0);
    assert_eq!(progress.best_average_sum, Some(400));
    assert!(!progress.record(55, 450));
    assert!(!progress.record(51, 401));
    assert!(!progress.should_continue());
    assert_eq!(progress.best, Some(50));
    assert_eq!(progress.generations, 5);
}

#[test]
fn convergence_stops_at_the_ceiling() {
    let mut progress = Convergence::new(FitnessOrder::Max, 10, 3);
    let mut runs = 0;
    let mut score = 0;
    while progress.should_continue() {
        score += 1;
        assert!(progress.record(score, score as u128));
        runs += 1;
    }
    assert_eq!(runs, 3);
}
