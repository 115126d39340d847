use genetic::binary::{
    crossover_binaria, decode_genes, flip_bits, initial_population_binaria, one_point_crossover,
    ordering_pop_coded, IndividualCoded,
};
use genetic::trio::{draw_candidates, TrioSelection};
use genetic::StdRng;
use rand::SeedableRng;

fn ind(bits: &[usize]) -> IndividualCoded {
    IndividualCoded { solution: bits.to_vec() }
}

#[test]
fn initial_population_binaria_gives_random_bits() {
    let mut rng = StdRng::seed_from_u64(2);
    let pop = initial_population_binaria(6, &mut rng, 4);
    assert_eq!(pop.len(), 6);
    let mut ones = 0;
    for i in &pop {
        assert_eq!(i.solution.len(), 40);
        assert!(i.solution.iter().all(|&b| b <= 1));
        ones += i.solution.iter().filter(|&&b| b == 1).count();
    }
    assert!(ones > 0 && ones < 240);
}

#[test]
fn one_point_crossover_exchanges_tails() {
    let (c1, c2) = one_point_crossover(&ind(&[1, 1, 1, 1]), &ind(&[0, 0, 0, 0]), 2);
    assert_eq!(c1.solution, vec![1, 1, 0, 0]);
    assert_eq!(c2.solution, vec![0, 0, 1, 1]);
}

#[test]
fn one_point_crossover_with_a_longer_second_parent() {
    let (c1, c2) = one_point_crossover(&ind(&[1, 1]), &ind(&[0, 0, 0]), 1);
    assert_eq!(c1.solution, vec![1, 0]);
    assert_eq!(c2.solution, vec![0, 1, 0]);
}

#[test]
fn one_point_crossover_at_zero_swaps_the_parents() {
    let (c1, c2) = one_point_crossover(&ind(&[1, 0, 1]), &ind(&[0, 1, 1]), 0);
    assert_eq!(c1.solution, vec![0, 1, 1]);
    assert_eq!(c2.solution, vec![1, 0, 1]);
}

#[test]
fn one_point_crossover_undoes_itself() {
    let a = ind(&[1, 0, 0, 1, 1, 0]);
    let b = ind(&[0, 0, 1, 1, 0, 1]);
    let (c1, c2) = one_point_crossover(&a, &b, 3);
    let (d1, d2) = one_point_crossover(&c1, &c2, 3);
    assert_eq!(d1.solution, a.solution);
    assert_eq!(d2.solution, b.solution);
}

#[test]
fn crossover_binaria_cuts_at_some_point() {
    let a = ind(&[1; 12]);
    let b = ind(&[0; 12]);
    let mut rng = StdRng::seed_from_u64(8);
    let mut points = Vec::new();
    for _ in 0..10 {
        let (c1, c2) = crossover_binaria(&a, &b, &mut rng);
        let point = c1.solution.iter().position(|&x| x == 0).unwrap_or(12);
        assert!(point < 12);
        assert!(c1.solution[..point].iter().all(|&x| x == 1));
        assert!(c1.solution[point..].iter().all(|&x| x == 0));
        assert!(c2.solution[..point].iter().all(|&x| x == 0));
        assert!(c2.solution[point..].iter().all(|&x| x == 1));
        points.push(point);
    }
    assert!(points.iter().any(|&p| p != points[0]));
}

#[test]
fn flip_bits_inverts_the_marked_bits_and_twice_restores() {
    let a = ind(&[1, 0, 1, 0]);
    let flags = vec![true, true, false, false];
    let f = flip_bits(&a, &flags);
    assert_eq!(f.solution, vec![0, 1, 1, 0]);
    assert_eq!(flip_bits(&f, &flags).solution, a.solution);
    assert_eq!(flip_bits(&a, &vec![false; 4]).solution, a.solution);
}

#[test]
fn decode_genes_reads_groups_most_significant_first() {
    let genes = decode_genes(&ind(&[1, 0, 1, 0, 1, 1]), 3);
    let mut expected: Vec<Vec<u64>> = vec![vec![5], vec![3]];
    expected.resize(10, vec![]);
    assert_eq!(genes, expected);
}

#[test]
fn decode_genes_full_individual() {
    let mut bits = Vec::new();
    for g in 0..10usize {
        for k in (0..4).rev() {
            bits.push((g >> k) & 1);
        }
    }
    let expected: Vec<Vec<u64>> = (0..10u64).map(|g| vec![g]).collect();
    assert_eq!(decode_genes(&ind(&bits), 4), expected);
}

#[test]
fn decode_genes_widest_single_digit() {
    let genes = decode_genes(&ind(&[1; 64]), 64);
    assert_eq!(genes[0], vec![u64::MAX]);
    assert!(genes[1..].iter().all(|g| g.is_empty()));
}

#[test]
fn decode_genes_splits_long_groups_into_64_bit_digits() {
    // 66 bits: a leading 1, then 65 ones: value 2^66 - 1 -> digits [2^64-1, 3]
    let genes = decode_genes(&ind(&[1; 66]), 66);
    assert_eq!(genes[0], vec![u64::MAX, 3]);
    // 65 bits: 1 followed by 64 zeros -> 2^64 -> digits [0, 1]
    let mut bits = vec![1usize];
    bits.extend(vec![0usize; 64]);
    assert_eq!(decode_genes(&ind(&bits), 65)[0], vec![0, 1]);
}

#[test]
fn decode_genes_ignores_zero_bits_past_the_tenth_group() {
    let mut bits = vec![1usize; 10];
    bits.extend(vec![0usize; 5]);
    let genes = decode_genes(&ind(&bits), 1);
    assert_eq!(genes, vec![vec![1u64]; 10]);
}

#[test]
fn decode_genes_of_empty_individual_is_zero() {
    assert_eq!(decode_genes(&ind(&[]), 5), vec![Vec::<u64>::new(); 10]);
    assert_eq!(decode_genes(&ind(&[]), 0), vec![Vec::<u64>::new(); 10]);
}

#[test]
fn ordering_pop_coded_ranks_by_keys() {
    let mut pop = vec![ind(&[0]), ind(&[1]), ind(&[0, 0]), ind(&[1, 1])];
    ordering_pop_coded(&mut pop, &vec![30, 10, 30, 5]);
    let got: Vec<Vec<usize>> = pop.iter().map(|i| i.solution.clone()).collect();
    assert_eq!(got, vec![vec![1, 1], vec![1], vec![0], vec![0, 0]]);
}

#[test]
fn draw_candidates_gives_five_positions() {
    let mut rng = StdRng::seed_from_u64(31);
    let c = draw_candidates(&mut rng, 7);
    assert_eq!(c.len(), 5);
    assert!(c.iter().all(|&x| x < 7));
    let mut rng = StdRng::seed_from_u64(31);
    let mut all = Vec::new();
    for _ in 0..10 {
        all.extend(draw_candidates(&mut rng, 100));
    }
    assert!(all.iter().any(|&x| x != 0));
}

#[test]
fn trio_selection_groups_distinct_winners() {
    let mut s = TrioSelection::new(4);
    assert!(!s.is_complete());
    for w in [1, 1, 2, 3] {
        s.record_winner(w);
    }
    assert!(!s.is_complete());
    for w in [2, 5, 2, 7] {
        s.record_winner(w);
    }
    assert!(s.is_complete());
    assert_eq!(s.into_parents(), vec![1, 2, 3, 2, 5, 7]);
}

#[test]
fn trio_selection_needs_three_halves_of_the_population() {
    let mut s = TrioSelection::new(3);
    // needs 3 * 3 / 2 = 4 parents: two groups
    for w in [0, 1, 2] {
        s.record_winner(w);
    }
    assert!(!s.is_complete());
    for w in [0, 1, 2] {
        s.record_winner(w);
    }
    assert!(s.is_complete());
    assert_eq!(s.into_parents().len(), 6);
}

#[test]
fn trio_selection_of_empty_population_is_complete() {
    let s = TrioSelection::new(0);
    assert!(s.is_complete());
    assert!(s.into_parents().is_empty());
}

#[test]
fn fill_to_size_pads_with_the_best_and_cuts_the_rest() {
    let best = ind(&[1, 1]);
    let mut few = vec![ind(&[0, 0])];
    genetic::binary::fill_to_size(&mut few, &best, 3);
    let got: Vec<Vec<usize>> = few.iter().map(|i| i.solution.clone()).collect();
    assert_eq!(got, vec![vec![0, 0], vec![1, 1], vec![1, 1]]);
    let mut many = vec![ind(&[0]), ind(&[1]), ind(&[0, 1])];
    genetic::binary::fill_to_size(&mut many, &best, 1);
    assert_eq!(many.len(), 1);
    assert_eq!(many[0].solution, vec![0]);
}

#[test]
fn replace_generation_keeps_the_best() {
    // offspring better: it becomes the best
    let (pop, best, key) =
        genetic::binary::replace_generation(vec![ind(&[1]), ind(&[0])], ind(&[1, 1]), 50, 10);
    assert_eq!(pop.len(), 2);
    assert_eq!(best.solution, vec![1]);
    assert_eq!(key, 10);
    // offspring not better: the best replaces the last offspring
    let (pop, best, key) =
        genetic::binary::replace_generation(vec![ind(&[1]), ind(&[0])], ind(&[1, 1]), 50, 50);
    assert_eq!(pop[0].solution, vec![1]);
    assert_eq!(pop[1].solution, vec![1, 1]);
    assert_eq!(best.solution, vec![1, 1]);
    assert_eq!(key, 50);
}

#[test]
fn crossover_children_share_the_parents_bits() {
    let a = ind(&[1, 0, 1, 1, 0]);
    let b = ind(&[0, 0, 1, 0, 1]);
    for point in 0..5 {
        let (c1, c2) = one_point_crossover(&a, &b, point);
        for i in 0..5 {
            assert_eq!(c1.solution[i] + c2.solution[i], a.solution[i] + b.solution[i]);
            assert!(c1.solution[i] <= 1 && c2.solution[i] <= 1);
        }
    }
}

#[test]
fn decoded_genes_stay_below_two_to_the_digits() {
    let mut rng = StdRng::seed_from_u64(19);
    for indiv in initial_population_binaria(20, &mut rng, 3) {
        assert!(decode_genes(&indiv, 3).iter().all(|g| g.len() == 1 && g[0] < 8));
    }
}
