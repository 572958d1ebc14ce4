use genetic_algorithms::bitstring::{target_pattern, GENOME_LENGTH};
use genetic_algorithms::travelling_salesperson::{mutation_operator_for, tour_edges, MutationOperator, RATE_SCALE};
use genetic_algorithms::{ConfigError, DeceptiveString, Genotype, OneMax, RandomGenotype, TSPath, TargetString};

fn sorted(v: &[usize]) -> Vec<usize> {
    let mut s = v.to_vec();
    s.sort();
    s
}

#[test]
fn one_max_all_ones_scores_thirty() {
    let ones = OneMax::from_bits(vec![1; 30]).unwrap();
    assert_eq!(ones.fitness(), 30);
    let zeros = OneMax::from_bits(vec![0; 30]).unwrap();
    assert_eq!(zeros.fitness(), 0);
}

#[test]
fn one_max_crossover_at_fifteen_gives_fifteen_ones_each() {
    let ones = OneMax::from_bits(vec![1; 30]).unwrap();
    let zeros = OneMax::from_bits(vec![0; 30]).unwrap();
    let (c0, c1) = OneMax::crossover_at(&ones, &zeros, 15);
    assert_eq!(c0.fitness(), 15);
    assert_eq!(c1.fitness(), 15);
    assert_eq!(&c0.bits()[..15], &[1u8; 15][..]);
    assert_eq!(&c0.bits()[15..], &[0u8; 15][..]);
    assert_eq!(&c1.bits()[..15], &[0u8; 15][..]);
}

#[test]
fn bitstrings_of_wrong_shape_are_refused() {
    assert!(OneMax::from_bits(vec![1; 29]).is_none());
    assert!(OneMax::from_bits(vec![]).is_none());
    let mut bits = vec![0u8; 30];
    bits[3] = 2;
    assert!(TargetString::from_bits(bits).is_none());
}

#[test]
fn flip_changes_one_digit() {
    let zeros = OneMax::from_bits(vec![0; 30]).unwrap();
    let one = zeros.flip(7);
    assert_eq!(one.fitness(), 1);
    assert_eq!(one.bits()[7], 1);
    assert_eq!(one.flip(7).fitness(), 0);
}

#[test]
fn target_string_counts_agreement() {
    let pattern = target_pattern();
    assert_eq!(pattern.len(), GENOME_LENGTH);
    let exact = TargetString::from_bits(pattern.clone()).unwrap();
    assert_eq!(exact.fitness(), 30);
    let inverse: Vec<u8> = pattern.iter().map(|b| 1 - b).collect();
    assert_eq!(TargetString::from_bits(inverse).unwrap().fitness(), 0);
    assert_eq!(TargetString::from_bits(vec![1; 30]).unwrap().fitness(), 18);
}

#[test]
fn deceptive_string_rewards_total_disagreement() {
    let pattern = target_pattern();
    let inverse: Vec<u8> = pattern.iter().map(|b| 1 - b).collect();
    assert_eq!(DeceptiveString::from_bits(inverse.clone()).unwrap().fitness(), 30);
    assert_eq!(DeceptiveString::from_bits(pattern.clone()).unwrap().fitness(), 30);
    let mut near = inverse.clone();
    near[0] = pattern[0];
    assert_eq!(DeceptiveString::from_bits(near).unwrap().fitness(), 1);
}

#[test]
fn random_bitstrings_are_well_formed() {
    for _ in 0..20 {
        let g = OneMax::random();
        assert_eq!(g.bits().len(), 30);
        assert!(g.bits().iter().all(|b| *b <= 1));
    }
    let a = OneMax::random();
    let b = OneMax::random();
    let (c0, c1) = OneMax::crossover(&a, &b);
    assert_eq!(c0.bits().len(), 30);
    assert_eq!(c0.fitness() + c1.fitness(), a.fitness() + b.fitness());
    let m = c0.mutation();
    assert_eq!(m.bits().len(), 30);
}

#[test]
fn tour_of_no_cities_is_refused() {
    assert_eq!(TSPath::new(&vec![], 0, 0).unwrap_err(), ConfigError::NoCities);
}

#[test]
fn new_tour_shuffles_the_cities() {
    let cities: Vec<usize> = (1..=40).collect();
    let tour = TSPath::new(&cities, 50_000, 900_000).unwrap();
    assert_eq!(tour.length(), 40);
    assert_eq!(sorted(tour.get_path()), cities);
    assert_ne!(tour.get_path(), &cities);
    assert_eq!(tour.mutation_rate(), 50_000);
    assert_eq!(tour.crossover_rate(), 900_000);
}

#[test]
fn tour_operators_with_zero_rates_change_nothing() {
    let cities: Vec<usize> = (0..12).collect();
    let x = TSPath::new(&cities, 0, 0).unwrap();
    let y = TSPath::new(&cities, 0, 0).unwrap();
    assert_eq!(x.mutation().get_path(), x.get_path());
    let (c0, c1) = TSPath::crossover(&x, &y);
    assert_eq!(c0.get_path(), x.get_path());
    assert_eq!(c1.get_path(), y.get_path());
}

#[test]
fn tour_operators_keep_permutations() {
    let cities: Vec<usize> = (0..25).collect();
    let x = TSPath::new(&cities, RATE_SCALE, RATE_SCALE).unwrap();
    let y = TSPath::new(&cities, RATE_SCALE, RATE_SCALE).unwrap();
    let mut changed = false;
    for _ in 0..50 {
        let m = x.mutation();
        assert_eq!(sorted(m.get_path()), cities);
        changed |= m.get_path() != x.get_path();
        let (c0, c1) = TSPath::crossover(&x, &y);
        assert_eq!(sorted(c0.get_path()), cities);
        assert_eq!(sorted(c1.get_path()), cities);
    }
    assert!(changed);
}

#[test]
fn mutation_operator_weights() {
    assert!(matches!(mutation_operator_for(1), MutationOperator::Swap));
    assert!(matches!(mutation_operator_for(25), MutationOperator::Swap));
    assert!(matches!(mutation_operator_for(26), MutationOperator::ReverseSequence));
    assert!(matches!(mutation_operator_for(75), MutationOperator::ReverseSequence));
    assert!(matches!(mutation_operator_for(76), MutationOperator::PartialShuffle));
    assert!(matches!(mutation_operator_for(100), MutationOperator::PartialShuffle));
}

#[test]
fn tour_edges_close_the_loop() {
    assert_eq!(tour_edges(&vec![0, 1, 2, 3]), vec![(0, 1), (1, 2), (2, 3), (3, 0)]);
    assert_eq!(tour_edges(&vec![5]), vec![(5, 5)]);
    assert!(tour_edges(&vec![]).is_empty());
}
