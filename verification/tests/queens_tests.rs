use genetic::evolution::{
    evolve_generation, pair_child, select_parents, tournament_winners, GaParams,
};
use genetic::queens::{
    board_from_rows, cross, cross_columns, fitness, initial_population, move_topmost_queen,
    mutation, orderin_sols, repair_solutions, Individual, Probability,
};
use genetic::StdRng;
use rand::{Rng, SeedableRng};

fn individual(rows: &[usize]) -> Individual {
    let board = board_from_rows(&rows.to_vec());
    let mut ind = Individual { board, atack: 999 };
    fitness(&mut ind);
    ind
}

fn queens(board: &Vec<Vec<u8>>) -> usize {
    board.iter().map(|r| r.iter().filter(|&&c| c == 1).count()).sum()
}

fn column_counts(board: &Vec<Vec<u8>>) -> Vec<usize> {
    (0..8).map(|c| (0..8).filter(|&r| board[r][c] == 1).count()).collect()
}

#[test]
fn board_from_rows_places_one_queen_per_column() {
    let b = board_from_rows(&vec![0, 1, 2, 3, 4, 5, 6, 7]);
    for r in 0..8 {
        for c in 0..8 {
            assert_eq!(b[r][c], if r == c { 1 } else { 0 });
        }
    }
}

#[test]
fn fitness_counts_a_full_diagonal() {
    let mut ind = Individual { board: board_from_rows(&vec![0, 1, 2, 3, 4, 5, 6, 7]), atack: 0 };
    assert_eq!(fitness(&mut ind), 0);
    assert_eq!(ind.atack, 28);
}

#[test]
fn fitness_of_a_solution_is_zero() {
    assert_eq!(individual(&[0, 4, 7, 5, 2, 6, 1, 3]).atack, 0);
}

#[test]
fn fitness_counts_a_full_row() {
    assert_eq!(individual(&[0, 0, 0, 0, 0, 0, 0, 0]).atack, 28);
}

#[test]
fn fitness_counts_pairs_exactly() {
    // rows 0,2,4,6,1,3,5,7: diagonal pairs only
    let ind = individual(&[0, 2, 4, 6, 1, 3, 5, 7]);
    let rows = [0i32, 2, 4, 6, 1, 3, 5, 7];
    let mut expected = 0;
    for a in 0..8 {
        for b in (a + 1)..8 {
            if rows[a] == rows[b] || (rows[a] - rows[b]).abs() == (a as i32 - b as i32).abs() {
                expected += 1;
            }
        }
    }
    assert_eq!(ind.atack, expected);
}

#[test]
fn fitness_does_not_count_columns() {
    let mut board = vec![vec![0u8; 8]; 8];
    for r in 0..8 {
        board[r][0] = 1;
    }
    let mut ind = Individual { board, atack: 5 };
    fitness(&mut ind);
    assert_eq!(ind.atack, 0);
}

#[test]
fn fitness_of_an_empty_board_is_zero() {
    let mut ind = Individual { board: vec![vec![0u8; 8]; 8], atack: 3 };
    fitness(&mut ind);
    assert_eq!(ind.atack, 0);
}

#[test]
fn fitness_ignores_cells_that_are_not_one() {
    let mut board = vec![vec![2u8; 8]; 8];
    board[0][0] = 1;
    board[1][1] = 1;
    let mut ind = Individual { board, atack: 0 };
    fitness(&mut ind);
    assert_eq!(ind.atack, 1);
}

#[test]
fn initial_population_has_one_queen_per_column_and_true_counts() {
    let mut rng = StdRng::seed_from_u64(1);
    let pop = initial_population(20, &mut rng);
    assert_eq!(pop.len(), 20);
    let mut some_queen_off_row_zero = false;
    for ind in &pop {
        assert_eq!(column_counts(&ind.board), vec![1; 8]);
        let mut copy = ind.duplicate();
        fitness(&mut copy);
        assert_eq!(copy.atack, ind.atack);
        for r in 1..8 {
            for c in 0..8 {
                if ind.board[r][c] == 1 {
                    some_queen_off_row_zero = true;
                }
            }
        }
    }
    assert!(some_queen_off_row_zero);
}

#[test]
fn initial_population_of_size_zero() {
    let mut rng = StdRng::seed_from_u64(3);
    assert!(initial_population(0, &mut rng).is_empty());
}

#[test]
fn cross_columns_takes_each_column_from_the_chosen_parent() {
    let p1 = individual(&[0, 0, 0, 0, 0, 0, 0, 0]);
    let p2 = individual(&[7, 7, 7, 7, 7, 7, 7, 7]);
    let child = cross_columns(&p1, &p2, &vec![false, true, false, true, false, true, false, true]);
    let expected = individual(&[0, 7, 0, 7, 0, 7, 0, 7]);
    assert_eq!(child.board, expected.board);
    assert_eq!(child.atack, expected.atack);
    assert_eq!(child.atack, 13);
    assert_eq!(cross_columns(&p1, &p2, &vec![false; 8]).board, p1.board);
    assert_eq!(cross_columns(&p1, &p2, &vec![true; 8]).board, p2.board);
}

#[test]
fn cross_with_itself_gives_itself() {
    let p = individual(&[3, 1, 4, 1, 5, 2, 6, 5]);
    let mut rng = StdRng::seed_from_u64(9);
    let child = cross(&p, &p, &mut rng);
    assert_eq!(child.board, p.board);
    assert_eq!(child.atack, p.atack);
}

#[test]
fn cross_takes_every_column_from_a_parent() {
    let p1 = individual(&[0, 1, 2, 3, 4, 5, 6, 7]);
    let p2 = individual(&[7, 6, 5, 4, 3, 2, 1, 0]);
    let mut rng = StdRng::seed_from_u64(4);
    let child = cross(&p1, &p2, &mut rng);
    for c in 0..8 {
        let col: Vec<u8> = (0..8).map(|r| child.board[r][c]).collect();
        let c1: Vec<u8> = (0..8).map(|r| p1.board[r][c]).collect();
        let c2: Vec<u8> = (0..8).map(|r| p2.board[r][c]).collect();
        assert!(col == c1 || col == c2);
    }
    assert_eq!(column_counts(&child.board), vec![1; 8]);
}

#[test]
fn mutation_with_zero_rate_changes_nothing() {
    let mut ind = individual(&[1, 3, 5, 7, 0, 2, 4, 6]);
    let before = ind.board.clone();
    let mut rng = StdRng::seed_from_u64(5);
    for _ in 0..20 {
        mutation(&mut ind, Probability { numerator: 0, denominator: 10 }, &mut rng);
    }
    assert_eq!(ind.board, before);
}

#[test]
fn mutation_moves_one_queen_and_keeps_the_count() {
    let mut rng = StdRng::seed_from_u64(6);
    let mut moved = 0;
    for _ in 0..30 {
        let mut ind = individual(&[1, 3, 5, 7, 0, 2, 4, 6]);
        let before = ind.board.clone();
        mutation(&mut ind, Probability { numerator: 1, denominator: 1 }, &mut rng);
        assert_eq!(queens(&ind.board), 8);
        let diff = (0..8).flat_map(|r| (0..8).map(move |c| (r, c)))
            .filter(|&(r, c)| ind.board[r][c] != before[r][c])
            .count();
        assert!(diff == 0 || diff == 2);
        if diff == 2 {
            moved += 1;
        }
        let mut copy = ind.duplicate();
        fitness(&mut copy);
        assert_eq!(copy.atack, ind.atack);
    }
    assert!(moved > 0);
}

#[test]
fn repair_leaves_a_valid_board_and_draws_nothing() {
    let mut ind = individual(&[2, 4, 6, 0, 3, 1, 7, 5]);
    let before = ind.board.clone();
    let mut rng = StdRng::seed_from_u64(11);
    let mut witness = rng.clone();
    repair_solutions(&mut ind, &mut rng);
    assert_eq!(ind.board, before);
    assert_eq!(rng.gen::<u64>(), witness.gen::<u64>());
}

#[test]
fn repair_brings_the_board_to_eight_queens() {
    let mut rng = StdRng::seed_from_u64(12);
    // too many: two full columns; too few: an empty board
    let mut full = vec![vec![0u8; 8]; 8];
    for r in 0..8 {
        full[r][0] = 1;
        full[r][5] = 1;
    }
    for board in [full, vec![vec![0u8; 8]; 8]] {
        let mut ind = Individual { board, atack: 0 };
        repair_solutions(&mut ind, &mut rng);
        assert_eq!(queens(&ind.board), 8);
        assert!(ind.board.iter().all(|r| r.iter().all(|&c| c <= 1)));
        let mut copy = ind.duplicate();
        fitness(&mut copy);
        assert_eq!(copy.atack, ind.atack);
    }
}

#[test]
fn repair_keeps_cells_that_are_not_bits() {
    let mut board = vec![vec![0u8; 8]; 8];
    board[3][3] = 9;
    board[0][0] = 1;
    board[1][0] = 1;
    let mut ind = Individual { board, atack: 0 };
    let mut rng = StdRng::seed_from_u64(13);
    repair_solutions(&mut ind, &mut rng);
    assert_eq!(ind.board[3][3], 9);
    assert_eq!(column_counts(&ind.board)[0], 1);
}

#[test]
fn orderin_sols_ranks_by_attacks_stably() {
    let a = individual(&[0, 0, 0, 0, 0, 0, 0, 0]); // 28
    let b = individual(&[0, 4, 7, 5, 2, 6, 1, 3]); // 0
    let c = individual(&[0, 1, 2, 3, 4, 5, 6, 7]); // 28
    let d = individual(&[1, 3, 5, 7, 2, 0, 6, 4]);
    let d_atack = d.atack;
    let mut sols = vec![a, b, c, d];
    let idx = orderin_sols(&mut sols);
    let mut expected: Vec<(u32, usize)> = vec![(28, 0), (0, 1), (28, 2), (d_atack, 3)];
    expected.sort_by(|x, y| x.0.cmp(&y.0));
    assert_eq!(idx, expected.iter().map(|e| e.1).collect::<Vec<_>>());
    assert_eq!(sols[0].atack, 0);
    assert_eq!(sols[0].board, board_from_rows(&vec![0, 4, 7, 5, 2, 6, 1, 3]));
    let pos_a = idx.iter().position(|&i| i == 0).unwrap();
    let pos_c = idx.iter().position(|&i| i == 2).unwrap();
    assert!(pos_a < pos_c);
}

fn params() -> GaParams {
    GaParams {
        population_size: 30,
        tournament_size: 5,
        best_tournament_size: 3,
        parents_target: 15,
        crossover: Probability { numerator: 9, denominator: 10 },
        mutation: Probability { numerator: 1, denominator: 10 },
    }
}

#[test]
fn select_parents_gathers_an_even_number_of_parents() {
    let mut rng = StdRng::seed_from_u64(21);
    let pop = initial_population(30, &mut rng);
    let (parents, tournaments) = select_parents(&pop, &params(), &mut rng);
    // 5 tournaments of 3 parents = 15, the odd last one is dropped
    assert_eq!(tournaments, 5);
    assert_eq!(parents.len(), 14);
}

#[test]
fn evolve_generation_keeps_size_order_and_best() {
    let mut rng = StdRng::seed_from_u64(15);
    let mut pop = initial_population(30, &mut rng);
    for _ in 0..5 {
        let best_before = pop.iter().map(|i| i.atack).min().unwrap();
        let report = evolve_generation(&mut pop, &params(), &mut rng);
        assert_eq!(report.children, 7);
        assert_eq!(report.tournaments, 5);
        assert_eq!(pop.len(), 30);
        assert!(pop.windows(2).all(|w| w[0].atack <= w[1].atack));
        assert!(pop[0].atack <= best_before);
        for ind in &pop {
            assert_eq!(queens(&ind.board), 8);
            assert!(ind.atack <= 28);
            let mut copy = ind.duplicate();
            fitness(&mut copy);
            assert_eq!(copy.atack, ind.atack);
        }
    }
}

#[test]
fn evolve_generation_without_parents_only_sorts() {
    let mut rng = StdRng::seed_from_u64(16);
    let mut pop = initial_population(10, &mut rng);
    let mut expected: Vec<u32> = pop.iter().map(|i| i.atack).collect();
    expected.sort();
    let mut p = params();
    p.population_size = 10;
    p.parents_target = 0;
    let report = evolve_generation(&mut pop, &p, &mut rng);
    assert_eq!(report.children, 0);
    assert_eq!(pop.iter().map(|i| i.atack).collect::<Vec<_>>(), expected);
}

#[test]
fn tournament_winners_are_the_fewest_attacks_in_draw_order() {
    let pop = vec![
        individual(&[0, 0, 0, 0, 0, 0, 0, 0]), // 28
        individual(&[0, 1, 2, 3, 4, 5, 6, 7]), // 28
        individual(&[0, 4, 7, 5, 2, 6, 1, 3]), // 0
        individual(&[7, 7, 7, 7, 7, 7, 7, 7]), // 28
    ];
    let winners = tournament_winners(&pop, &vec![3, 0, 2], 2);
    assert_eq!(winners.len(), 2);
    assert_eq!(winners[0].board, pop[2].board);
    assert_eq!(winners[1].board, pop[3].board);
    assert!(tournament_winners(&pop, &vec![1, 0], 0).is_empty());
}

#[test]
fn repair_never_removes_a_queen_alone_in_its_column() {
    let rows = [5usize, 2, 7, 1, 4, 0, 6, 3];
    let mut board = board_from_rows(&rows.to_vec());
    // a second queen in column 2, and column 6 emptied
    board[0][2] = 1;
    board[6][6] = 0;
    let mut rng = StdRng::seed_from_u64(17);
    for _ in 0..10 {
        let mut ind = Individual { board: board.clone(), atack: 0 };
        repair_solutions(&mut ind, &mut rng);
        for c in [0usize, 1, 3, 4, 5, 7] {
            assert_eq!(ind.board[rows[c]][c], 1);
        }
        assert_eq!(queens(&ind.board), 8);
    }
}

#[test]
fn attack_counts_never_exceed_twenty_eight() {
    let mut rng = StdRng::seed_from_u64(18);
    for ind in initial_population(200, &mut rng) {
        assert!(ind.atack <= 28);
    }
}

#[test]
fn move_topmost_queen_moves_to_an_empty_cell() {
    let mut ind = individual(&[3, 1, 4, 1, 5, 2, 6, 0]);
    move_topmost_queen(&mut ind, 0, 0, 0);
    let mut expected = board_from_rows(&vec![3, 1, 4, 1, 5, 2, 6, 0]);
    expected[3][0] = 0;
    expected[0][0] = 1;
    assert_eq!(ind.board, expected);
    let mut recount = ind.duplicate();
    fitness(&mut recount);
    assert_eq!(recount.atack, ind.atack);
}

#[test]
fn move_topmost_queen_takes_the_topmost_of_several() {
    let mut board = vec![vec![0u8; 8]; 8];
    board[2][5] = 1;
    board[6][5] = 1;
    let mut ind = Individual { board, atack: 0 };
    move_topmost_queen(&mut ind, 5, 7, 7);
    assert_eq!(ind.board[2][5], 0);
    assert_eq!(ind.board[6][5], 1);
    assert_eq!(ind.board[7][7], 1);
}

#[test]
fn move_topmost_queen_leaves_the_board_when_it_cannot_move() {
    let rows = vec![0, 1, 2, 3, 4, 5, 6, 7];
    let mut ind = individual(&rows);
    // target taken by another queen
    move_topmost_queen(&mut ind, 0, 1, 1);
    assert_eq!(ind.board, board_from_rows(&rows));
    // target is the queen's own cell
    move_topmost_queen(&mut ind, 2, 2, 2);
    assert_eq!(ind.board, board_from_rows(&rows));
    // empty column
    let mut empty = Individual { board: vec![vec![0u8; 8]; 8], atack: 0 };
    move_topmost_queen(&mut empty, 4, 0, 0);
    assert_eq!(empty.board, vec![vec![0u8; 8]; 8]);
}

#[test]
fn repair_keeps_one_own_queen_per_crowded_column_and_adds_on_top() {
    let mut rng = StdRng::seed_from_u64(23);
    for _ in 0..20 {
        let mut board = vec![vec![0u8; 8]; 8];
        for r in [1usize, 4, 6] {
            board[r][2] = 1;
        }
        board[5][7] = 1;
        let old = board.clone();
        let mut ind = Individual { board, atack: 0 };
        repair_solutions(&mut ind, &mut rng);
        assert!([1usize, 4, 6].iter().any(|&r| ind.board[r][2] == 1));
        assert_eq!(ind.board[5][7], 1);
        for r in 0..8 {
            for c in 0..8 {
                if old[r][c] == 0 && ind.board[r][c] == 1 {
                    assert!((0..r).all(|r2| ind.board[r2][c] == 1));
                }
                if old[r][c] == 1 && ind.board[r][c] == 0 {
                    assert_eq!(c, 2);
                }
            }
        }
        assert_eq!(queens(&ind.board), 8);
    }
}

#[test]
fn fitness_reads_the_top_left_corner_of_a_larger_board() {
    let mut board = vec![vec![0u8; 10]; 9];
    for c in 0..8 {
        board[c][c] = 1; // full diagonal: 28 pairs
    }
    board[8][9] = 1; // outside the 8x8 corner: not read
    board[0][9] = 1;
    let mut ind = Individual { board: board.clone(), atack: 0 };
    assert_eq!(fitness(&mut ind), 0);
    assert_eq!(ind.atack, 28);
    assert_eq!(ind.board, board);
}

#[test]
fn repair_thins_a_crowded_column_even_with_eight_queens() {
    // column 0 holds queens on rows 3 and 5, column 1 is empty: eight queens
    let rows = [3usize, 0, 1, 2, 4, 6, 7, 0];
    let mut board = vec![vec![0u8; 8]; 8];
    for c in [0usize, 2, 3, 4, 5, 6, 7] {
        board[rows[c]][c] = 1;
    }
    board[5][0] = 1;
    assert_eq!(queens(&board), 8);
    let mut rng = StdRng::seed_from_u64(31);
    for _ in 0..20 {
        let mut ind = Individual { board: board.clone(), atack: 0 };
        repair_solutions(&mut ind, &mut rng);
        assert_eq!(queens(&ind.board), 8);
        assert!(!(ind.board[3][0] == 1 && ind.board[5][0] == 1));
        for c in 0..8 {
            let low = (0..8)
                .filter(|&r| ind.board[r][c] == 1 && (0..r).any(|r0| ind.board[r0][c] == 0))
                .count();
            assert!(low <= 1);
        }
    }
}

#[test]
fn pair_child_copies_the_fitter_parent_when_not_crossed() {
    let a = individual(&[0, 0, 0, 0, 0, 0, 0, 0]); // 28
    let b = individual(&[0, 4, 7, 5, 2, 6, 1, 3]); // 0
    let c = individual(&[0, 1, 2, 3, 4, 5, 6, 7]); // 28
    let child = pair_child(&a, &b, false, &Vec::new());
    assert_eq!(child.board, b.board);
    assert_eq!(child.atack, 0);
    let child = pair_child(&b, &a, false, &Vec::new());
    assert_eq!(child.board, b.board);
    // a tie copies the second parent
    let child = pair_child(&a, &c, false, &Vec::new());
    assert_eq!(child.board, c.board);
    assert_eq!(child.atack, 28);
}

#[test]
fn pair_child_crosses_the_drawn_columns() {
    let a = individual(&[0, 0, 0, 0, 0, 0, 0, 0]);
    let b = individual(&[7, 7, 7, 7, 7, 7, 7, 7]);
    let take = vec![false, true, false, true, false, true, false, true];
    let child = pair_child(&a, &b, true, &take);
    assert_eq!(child.board, board_from_rows(&vec![0, 7, 0, 7, 0, 7, 0, 7]));
    assert_eq!(child.board, cross_columns(&a, &b, &take).board);
    // 4 queens on row 0, 4 on row 7: 6 + 6 pairs, and the corners (0, 0), (7, 7)
    assert_eq!(child.atack, 13);
}

#[test]
fn evolve_generation_without_crossover_or_mutation_only_copies() {
    let mut rng = StdRng::seed_from_u64(32);
    let mut pop = initial_population(30, &mut rng);
    let boards: Vec<Vec<Vec<u8>>> = pop.iter().map(|i| i.board.clone()).collect();
    let mut p = params();
    p.crossover = Probability { numerator: 0, denominator: 10 };
    p.mutation = Probability { numerator: 0, denominator: 10 };
    for _ in 0..3 {
        let report = evolve_generation(&mut pop, &p, &mut rng);
        assert_eq!(report.children, 7);
        for ind in &pop {
            assert!(boards.contains(&ind.board));
        }
    }
}

#[test]
fn evolve_generation_without_parents_accepts_any_tournament_settings() {
    let mut rng = StdRng::seed_from_u64(33);
    let mut pop = initial_population(4, &mut rng);
    let p = GaParams {
        population_size: 4,
        tournament_size: 9,
        best_tournament_size: 0,
        parents_target: 0,
        crossover: Probability { numerator: 5, denominator: 0 },
        mutation: Probability { numerator: 5, denominator: 0 },
    };
    let (parents, tournaments) = select_parents(&pop, &p, &mut rng);
    assert!(parents.is_empty());
    assert_eq!(tournaments, 0);
    let report = evolve_generation(&mut pop, &p, &mut rng);
    assert_eq!(report.tournaments, 0);
    assert_eq!(report.children, 0);
    assert_eq!(pop.len(), 4);
}

#[test]
fn mirrored_boards_have_the_same_attack_count() {
    let mut rng = StdRng::seed_from_u64(34);
    for _ in 0..30 {
        let board: Vec<Vec<u8>> = (0..8)
            .map(|_| (0..8).map(|_| if rng.gen_bool(0.3) { 1u8 } else { 0u8 }).collect())
            .collect();
        let mut x = Individual { board: board.clone(), atack: 0 };
        let mut y = Individual { board: (0..8).map(|r| board[7 - r].clone()).collect(), atack: 0 };
        let mut z = Individual {
            board: board.iter().map(|row| row.iter().rev().cloned().collect()).collect(),
            atack: 0,
        };
        fitness(&mut x);
        fitness(&mut y);
        fitness(&mut z);
        assert_eq!(x.atack, y.atack);
        assert_eq!(y.atack, z.atack);
    }
    // a full diagonal stays a full diagonal
    let mut d = individual(&[0, 1, 2, 3, 4, 5, 6, 7]);
    let mut e = individual(&[7, 6, 5, 4, 3, 2, 1, 0]);
    fitness(&mut d);
    fitness(&mut e);
    assert_eq!(d.atack, 28);
    assert_eq!(e.atack, 28);
}
