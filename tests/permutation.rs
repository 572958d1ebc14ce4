use genetic_algorithms::permutation::{
    order_crossover_at, partially_mapped_crossover_at, reverse_sequence_mutation_at,
    swap_mutation_at,
};

fn is_permutation(s: &[usize], base: &[usize]) -> bool {
    let mut a = s.to_vec();
    let mut b = base.to_vec();
    a.sort();
    b.sort();
    a == b
}

#[test]
fn pmx_segment_one_to_two_on_reversed_parents() {
    let a = vec![0, 1, 2, 3];
    let b = vec![3, 2, 1, 0];
    let (c0, c1) = partially_mapped_crossover_at(&a, &b, 1, 2);
    assert_eq!(c0, vec![0, 2, 1, 3]);
    assert_eq!(c1, vec![3, 1, 2, 0]);
    assert!(is_permutation(&c0, &a));
    assert!(is_permutation(&c1, &a));
}

#[test]
fn pmx_translates_collisions_through_the_mapping() {
    let a = vec![1, 2, 3, 4, 5, 6, 7, 8, 9];
    let b = vec![9, 3, 7, 8, 2, 6, 5, 1, 4];
    let (c0, c1) = partially_mapped_crossover_at(&a, &b, 3, 5);
    assert_eq!(c1, vec![9, 3, 7, 4, 5, 6, 2, 1, 8]);
    assert_eq!(c0, vec![1, 5, 3, 8, 2, 6, 7, 4, 9]);
}

#[test]
fn pmx_follows_a_chain_of_collisions() {
    let a = vec![0, 1, 2, 3, 4];
    let b = vec![1, 2, 3, 0, 4];
    let (c0, c1) = partially_mapped_crossover_at(&a, &b, 1, 2);
    assert_eq!(c1, vec![3, 1, 2, 0, 4]);
    assert_eq!(c0, vec![0, 2, 3, 1, 4]);
}

#[test]
fn pmx_whole_tour_swaps_parents() {
    let a = vec![4, 2, 0, 1, 3];
    let b = vec![0, 1, 2, 3, 4];
    let (c0, c1) = partially_mapped_crossover_at(&a, &b, 0, 4);
    assert_eq!(c0, b);
    assert_eq!(c1, a);
}

#[test]
fn ox_fills_empty_slots_in_second_parent_order() {
    let a = vec![0, 1, 2, 3, 4, 5];
    let b = vec![5, 4, 3, 2, 1, 0];
    let keep = vec![true, false, true, false, false, false];
    let (c0, c1) = order_crossover_at(&a, &b, &keep);
    assert_eq!(c0, vec![0, 5, 2, 4, 3, 1]);
    assert_eq!(c1, vec![2, 1, 0, 3, 4, 5]);
}

#[test]
fn ox_keeping_nothing_copies_second_parent() {
    let a = vec![3, 0, 2, 1];
    let b = vec![1, 3, 0, 2];
    let keep = vec![false; 4];
    let (c0, c1) = order_crossover_at(&a, &b, &keep);
    assert_eq!(c0, b);
    assert_eq!(c1, a);
}

#[test]
fn ox_children_are_permutations() {
    let a = vec![7, 3, 9, 1, 5, 0];
    let b = vec![0, 1, 3, 5, 7, 9];
    let keep = vec![false, true, true, false, true, false];
    let (c0, c1) = order_crossover_at(&a, &b, &keep);
    assert!(is_permutation(&c0, &a));
    assert!(is_permutation(&c1, &a));
    assert_eq!(c0[1], 3);
    assert_eq!(c0[2], 9);
    assert_eq!(c0[4], 5);
    assert_eq!(c1[0], 7);
    assert_eq!(c1[3], 1);
    assert_eq!(c1[5], 0);
}

#[test]
fn swap_exchanges_two_positions() {
    assert_eq!(swap_mutation_at(&vec![0, 1, 2, 3], 0, 3), vec![3, 1, 2, 0]);
    assert_eq!(swap_mutation_at(&vec![0, 1, 2, 3], 2, 2), vec![0, 1, 2, 3]);
}

#[test]
fn reverse_sequence_reverses_segment() {
    assert_eq!(reverse_sequence_mutation_at(&vec![0, 1, 2, 3, 4], 1, 3), vec![0, 3, 2, 1, 4]);
    assert_eq!(reverse_sequence_mutation_at(&vec![0, 1, 2, 3, 4], 0, 4), vec![4, 3, 2, 1, 0]);
    assert_eq!(reverse_sequence_mutation_at(&vec![0, 1, 2], 1, 1), vec![0, 1, 2]);
}
