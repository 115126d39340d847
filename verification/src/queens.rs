//! Individuals of the eight-queens genetic algorithm and their operators:
//! random creation, attack counting, column crossover, queen-moving
//! mutation, repair, and ranking by attacks.

use vstd::prelude::*;
use crate::board::{
    abs_diff, attacks, attacks_after, attacks_upto, board_attacks, board_binary, board_covers, board_of_rows,
    board_wf, cells, column_queens, crossed, is_queen_cell, one_queen_per_column, queen_cells,
    queen_count, row_queens, rows_queens, same_column, set_cell, moved_topmost, lemma_topmost_skip, lemma_at_most_one_per_column_count, lemma_column_two_queens,
    lemma_attacks_after_bound, lemma_attacks_upto_bound, lemma_board_of_rows_one_per_column,
    lemma_cells_index, lemma_cells_push, lemma_column_queens_same, lemma_column_queens_set_other,
    lemma_column_queens_set_same, lemma_full_column, lemma_one_per_column_count,
    lemma_queen_cells_exact, lemma_queen_count_ge_column, lemma_queen_count_set,
    lemma_rows_queens_len, lemma_column_has_queen,
};
use crate::rng::{gen_index, gen_range_i32, gen_ratio};
use crate::StdRng;
use crate::ordering::{is_stable_order, key_before, stable_order};

verus! {

/// A candidate solution: the board and its number of attacking pairs.
pub struct Individual {
    pub board: Vec<Vec<u8>>,
    pub atack: u32,
}

impl Individual {
    /// The board as a matrix of cells.
    pub open spec fn cells(&self) -> Seq<Seq<u8>> {
        cells(self.board@)
    }

    /// An 8x8 board whose recorded attack count is the true one.
    pub open spec fn valid(&self) -> bool {
        &&& board_wf(self.cells())
        &&& self.atack == board_attacks(self.cells())
    }
}

fn abs_diff_usize(a: usize, b: usize) -> (r: usize)
    ensures
        r == abs_diff(a as int, b as int),
{
    if a >= b {
        a - b
    } else {
        b - a
    }
}

fn attacks_exec(p: (usize, usize), q: (usize, usize)) -> (r: bool)
    ensures
        r == attacks(p, q),
{
    if p.0 == q.0 {
        true
    } else {
        abs_diff_usize(p.0, q.0) == abs_diff_usize(p.1, q.1)
    }
}

/// The queens of an 8x8 board in reading order.
fn queen_positions(board: &Vec<Vec<u8>>) -> (positions: Vec<(usize, usize)>)
    requires
        board_covers(cells(board@)),
    ensures
        positions@ == queen_cells(cells(board@)),
{
    let ghost b = cells(board@);
    let mut positions: Vec<(usize, usize)> = Vec::new();
    let mut i: usize = 0;
    while i < 8
        invariant
            b == cells(board@),
            board_covers(b),
            i <= 8,
            positions@ == rows_queens(b, i as int),
        decreases 8 - i,
    {
        let mut j: usize = 0;
        while j < 8
            invariant
                b == cells(board@),
                board_covers(b),
                i < 8,
                j <= 8,
                positions@ == rows_queens(b, i as int) + row_queens(b, i as int, j as int),
            decreases 8 - j,
        {
            assert(board@[i as int]@ == b[i as int]);
            if board[i][j] == 1 {
                positions.push((i, j));
                assert(positions@ =~= rows_queens(b, i as int) + row_queens(
                    b,
                    i as int,
                    j + 1,
                ));
            } else {
                assert(positions@ =~= rows_queens(b, i as int) + row_queens(
                    b,
                    i as int,
                    j + 1,
                ));
            }
            j += 1;
        }
        i += 1;
    }
    positions
}

/// Number of attacking pairs among the queens of an 8x8 board.
fn count_attacks(board: &Vec<Vec<u8>>) -> (count: u32)
    requires
        board_covers(cells(board@)),
    ensures
        count == board_attacks(cells(board@)),
{
    let positions = queen_positions(board);
    let ghost ps = positions@;
    let n = positions.len();
    proof {
        lemma_rows_queens_len(cells(board@), 8);
    }
    let mut atack: u32 = 0;
    let mut a: usize = 0;
    while a < n
        invariant
            ps == positions@,
            n == ps.len(),
            n <= 64,
            a <= n,
            atack == attacks_upto(ps, a as int),
        decreases n - a,
    {
        proof {
            lemma_attacks_upto_bound(ps, a as int);
            assert(a * n <= 64 * 64) by (nonlinear_arith)
                requires
                    a <= 64,
                    n <= 64,
            ;
        }
        let mut bi: usize = a + 1;
        while bi < n
            invariant
                ps == positions@,
                n == ps.len(),
                n <= 64,
                a < n,
                a + 1 <= bi <= n,
                attacks_upto(ps, a as int) <= 64 * 64,
                atack == attacks_upto(ps, a as int) + attacks_after(ps, a as int, bi as int),
            decreases n - bi,
        {
            proof {
                lemma_attacks_after_bound(ps, a as int, bi as int);
            }
            if attacks_exec(positions[a], positions[bi]) {
                atack += 1;
            }
            bi += 1;
        }
        a += 1;
    }
    atack
}

/// Recounts the attacking pairs of the individual's board (its top-left 8x8
/// cells) and records the count. Returns 0 (the score itself is kept in
/// `atack`).
pub fn fitness(individual: &mut Individual) -> (fit: i32)
    requires
        board_covers(old(individual).cells()),
    ensures
        final(individual).board@ == old(individual).board@,
        final(individual).atack == board_attacks(old(individual).cells()),
        board_wf(old(individual).cells()) ==> final(individual).valid(),
        fit == 0,
{
    individual.atack = count_attacks(&individual.board);
    0
}


/// A copy of a row of cells.
fn copy_row(row: &Vec<u8>) -> (r: Vec<u8>)
    ensures
        r@ == row@,
{
    let mut r: Vec<u8> = Vec::new();
    let mut j: usize = 0;
    while j < row.len()
        invariant
            j <= row.len(),
            r@ == row@.take(j as int),
        decreases row.len() - j,
    {
        r.push(row[j]);
        j += 1;
        assert(r@ =~= row@.take(j as int));
    }
    assert(row@.take(row.len() as int) =~= row@);
    r
}

/// A copy of a board.
fn copy_board(board: &Vec<Vec<u8>>) -> (r: Vec<Vec<u8>>)
    ensures
        cells(r@) == cells(board@),
{
    let mut r: Vec<Vec<u8>> = Vec::new();
    let mut i: usize = 0;
    while i < board.len()
        invariant
            i <= board.len(),
            cells(r@) == cells(board@).take(i as int),
        decreases board.len() - i,
    {
        let row = copy_row(&board[i]);
        proof {
            lemma_cells_push(r@, row);
        }
        r.push(row);
        i += 1;
        assert(cells(r@) =~= cells(board@).take(i as int));
    }
    assert(cells(board@).take(board.len() as int) =~= cells(board@));
    r
}

/// Writes `v` into cell (`r`, `c`).
fn set_board_cell(board: &mut Vec<Vec<u8>>, r: usize, c: usize, v: u8)
    requires
        board_wf(cells(old(board)@)),
        r < 8,
        c < 8,
    ensures
        cells(final(board)@) == set_cell(cells(old(board)@), r as int, c as int, v),
        board_wf(cells(final(board)@)),
{
    let ghost b = cells(board@);
    assert(board@[r as int]@ == b[r as int]);
    let mut row = copy_row(&board[r]);
    row.set(c, v);
    board.set(r, row);
    assert(cells(board@) =~= set_cell(b, r as int, c as int, v));
}

/// A board of 8x8 empty cells.
fn empty_board() -> (board: Vec<Vec<u8>>)
    ensures
        cells(board@) == Seq::new(8, |r: int| Seq::new(8, |c: int| 0u8)),
{
    let mut board: Vec<Vec<u8>> = Vec::new();
    let mut i: usize = 0;
    while i < 8
        invariant
            i <= 8,
            cells(board@) == Seq::new(i as nat, |r: int| Seq::new(8, |c: int| 0u8)),
        decreases 8 - i,
    {
        let mut row: Vec<u8> = Vec::new();
        let mut j: usize = 0;
        while j < 8
            invariant
                j <= 8,
                row@ == Seq::new(j as nat, |c: int| 0u8),
            decreases 8 - j,
        {
            row.push(0);
            j += 1;
            assert(row@ =~= Seq::new(j as nat, |c: int| 0u8));
        }
        proof {
            lemma_cells_push(board@, row);
        }
        board.push(row);
        i += 1;
        assert(cells(board@) =~= Seq::new(i as nat, |r: int| Seq::new(8, |c: int| 0u8)));
    }
    board
}

/// The board with one queen per column, in column `c` on row `rows[c]`.
pub fn board_from_rows(rows: &Vec<usize>) -> (board: Vec<Vec<u8>>)
    requires
        rows.len() == 8,
        forall|c: int| 0 <= c < 8 ==> #[trigger] rows@[c] < 8,
    ensures
        cells(board@) == board_of_rows(rows@),
{
    let mut board = empty_board();
    assert(cells(board@) =~= Seq::new(
        8,
        |r: int| Seq::new(8, |c: int| if c < 0 && rows@[c] == r { 1u8 } else { 0u8 }),
    )) by {
        assert forall|r: int| 0 <= r < 8 implies #[trigger] cells(board@)[r] =~= Seq::new(
            8,
            |c: int| if c < 0 && rows@[c] == r { 1u8 } else { 0u8 },
        ) by {}
    }
    let mut i: usize = 0;
    while i < 8
        invariant
            rows.len() == 8,
            forall|c: int| 0 <= c < 8 ==> #[trigger] rows@[c] < 8,
            i <= 8,
            cells(board@) == Seq::new(
                8,
                |r: int| Seq::new(8, |c: int| if c < i && rows@[c] == r { 1u8 } else { 0u8 }),
            ),
        decreases 8 - i,
    {
        let ghost before = cells(board@);
        set_board_cell(&mut board, rows[i], i, 1);
        i += 1;
        assert(cells(board@) =~= Seq::new(
            8,
            |r: int| Seq::new(8, |c: int| if c < i && rows@[c] == r { 1u8 } else { 0u8 }),
        )) by {
            assert forall|r: int| 0 <= r < 8 implies #[trigger] cells(board@)[r] =~= Seq::new(
                8,
                |c: int| if c < i && rows@[c] == r { 1u8 } else { 0u8 },
            ) by {}
        }
    }
    assert(cells(board@) =~= board_of_rows(rows@)) by {
        assert forall|r: int| 0 <= r < 8 implies #[trigger] cells(board@)[r] =~= board_of_rows(
            rows@,
        )[r] by {}
    }
    board
}

impl Individual {
    /// A copy of the individual.
    pub fn duplicate(&self) -> (r: Individual)
        ensures
            r.cells() == self.cells(),
            r.atack == self.atack,
    {
        Individual { board: copy_board(&self.board), atack: self.atack }
    }
}

/// A random population of `population_size` individuals: each has one queen
/// per column, on a row drawn uniformly, and its attack count recorded.
pub fn initial_population(population_size: usize, rng: &mut StdRng) -> (population: Vec<
    Individual,
>)
    ensures
        population.len() == population_size,
        forall|k: int|
            0 <= k < population.len() ==> #[trigger] population@[k].valid()
                && one_queen_per_column(population@[k].cells()) && queen_count(
                population@[k].cells(),
            ) == 8,
{
    let mut population: Vec<Individual> = Vec::new();
    let mut n: usize = 0;
    while n < population_size
        invariant
            n <= population_size,
            population.len() == n,
            forall|k: int|
                0 <= k < population.len() ==> #[trigger] population@[k].valid()
                    && one_queen_per_column(population@[k].cells()) && queen_count(
                    population@[k].cells(),
                ) == 8,
        decreases population_size - n,
    {
        let mut rows: Vec<usize> = Vec::new();
        let mut i: usize = 0;
        while i < 8
            invariant
                i <= 8,
                rows.len() == i,
                forall|c: int| 0 <= c < i ==> #[trigger] rows@[c] < 8,
            decreases 8 - i,
        {
            let queen_position = gen_index(rng, 0, 8);
            rows.push(queen_position);
            i += 1;
        }
        let board = board_from_rows(&rows);
        proof {
            lemma_board_of_rows_one_per_column(rows@);
            lemma_one_per_column_count(board_of_rows(rows@));
        }
        let atack = count_attacks(&board);
        population.push(Individual { board, atack });
        n += 1;
    }
    population
}

/// The child whose column `c` is taken from `parent2` when `take_second[c]`,
/// else from `parent1`, with its attack count recorded.
pub fn cross_columns(parent1: &Individual, parent2: &Individual, take_second: &Vec<bool>) -> (child:
    Individual)
    requires
        board_wf(parent1.cells()),
        board_wf(parent2.cells()),
        take_second.len() == 8,
    ensures
        child.cells() == crossed(parent1.cells(), parent2.cells(), take_second@),
        child.valid(),
        board_binary(parent1.cells()) && board_binary(parent2.cells()) ==> board_binary(
            child.cells(),
        ),
{
    let ghost b1 = parent1.cells();
    let ghost b2 = parent2.cells();
    let ghost target = crossed(b1, b2, take_second@);
    let mut board: Vec<Vec<u8>> = Vec::new();
    let mut j: usize = 0;
    while j < 8
        invariant
            b1 == parent1.cells(),
            b2 == parent2.cells(),
            board_wf(b1),
            board_wf(b2),
            take_second.len() == 8,
            target == crossed(b1, b2, take_second@),
            j <= 8,
            cells(board@) == target.take(j as int),
        decreases 8 - j,
    {
        assert(parent1.board@[j as int]@ == b1[j as int]);
        assert(parent2.board@[j as int]@ == b2[j as int]);
        let mut row: Vec<u8> = Vec::new();
        let mut i: usize = 0;
        while i < 8
            invariant
                b1 == parent1.cells(),
                b2 == parent2.cells(),
                board_wf(b1),
                board_wf(b2),
                parent1.board@[j as int]@ == b1[j as int],
                parent2.board@[j as int]@ == b2[j as int],
                take_second.len() == 8,
                target == crossed(b1, b2, take_second@),
                j < 8,
                i <= 8,
                row@ == target[j as int].take(i as int),
            decreases 8 - i,
        {
            if take_second[i] {
                row.push(parent2.board[j][i]);
            } else {
                row.push(parent1.board[j][i]);
            }
            i += 1;
            assert(row@ =~= target[j as int].take(i as int));
        }
        assert(row@ =~= target[j as int]);
        proof {
            lemma_cells_push(board@, row);
        }
        board.push(row);
        j += 1;
        assert(cells(board@) =~= target.take(j as int));
    }
    assert(cells(board@) =~= target);
    proof {
        if board_binary(b1) && board_binary(b2) {
            assert forall|r: int, c: int| 0 <= r < 8 && 0 <= c < 8 implies #[trigger] target[r][c]
                <= 1 by {
                assert(b1[r][c] <= 1);
                assert(b2[r][c] <= 1);
            }
        }
    }
    let atack = count_attacks(&board);
    Individual { board, atack }
}

/// Eight fair draws, one per column: `true` takes that column from the
/// second parent.
pub(crate) fn draw_columns(rng: &mut StdRng) -> (take_second: Vec<bool>)
    ensures
        take_second.len() == 8,
{
    let mut take_second: Vec<bool> = Vec::new();
    let mut i: usize = 0;
    while i < 8
        invariant
            i <= 8,
            take_second.len() == i,
        decreases 8 - i,
    {
        let flag = gen_range_i32(rng, 0, 2);
        take_second.push(flag != 0);
        i += 1;
    }
    take_second
}

/// Crossover: each column of the child comes from `parent1` or `parent2`,
/// chosen by a fair random draw per column.
pub fn cross(parent1: &Individual, parent2: &Individual, rng: &mut StdRng) -> (child: Individual)
    requires
        board_wf(parent1.cells()),
        board_wf(parent2.cells()),
    ensures
        exists|take_second: Seq<bool>|
            take_second.len() == 8 && child.cells() == crossed(
                parent1.cells(),
                parent2.cells(),
                take_second,
            ),
        child.valid(),
        board_binary(parent1.cells()) && board_binary(parent2.cells()) ==> board_binary(
            child.cells(),
        ),
{
    let take_second = draw_columns(rng);
    let child = cross_columns(parent1, parent2, &take_second);
    assert(take_second@.len() == 8 && child.cells() == crossed(
        parent1.cells(),
        parent2.cells(),
        take_second@,
    ));
    child
}


/// A probability held as the fraction `numerator / denominator`.
#[derive(Clone, Copy, Debug)]
pub struct Probability {
    pub numerator: u32,
    pub denominator: u32,
}

impl Probability {
    /// A fraction between 0 and 1 with a nonzero denominator.
    pub open spec fn wf(&self) -> bool {
        0 < self.denominator && self.numerator <= self.denominator
    }
}

/// What a mutation with probability `rate` can do: leave the board as it is
/// (only when the mutation can be skipped, that is `rate` is below 1), or
/// move the topmost queen of a column to a cell that is empty once that queen
/// is lifted (only when `rate` is above 0).
pub open spec fn mutation_outcome(rate: Probability, before: Seq<Seq<u8>>, after: Seq<Seq<u8>>) -> bool {
    ||| rate.numerator != rate.denominator && after == before
    ||| rate.numerator != 0 && exists|c: int, r2: int, c2: int|
        0 <= c < 8 && 0 <= r2 < 8 && 0 <= c2 < 8 && after == #[trigger] moved_topmost(
            before,
            c,
            r2,
            c2,
        )
}

/// Lifts the topmost queen of column `col` and puts it down on
/// (`r2`, `c2`) when that cell is empty once the queen is lifted; leaves the
/// board as it is when the column is empty or the cell is taken. The attack
/// count is recounted.
pub fn move_topmost_queen(child: &mut Individual, col: usize, r2: usize, c2: usize)
    requires
        board_wf(old(child).cells()),
        col < 8,
        r2 < 8,
        c2 < 8,
    ensures
        final(child).cells() == moved_topmost(old(child).cells(), col as int, r2 as int, c2 as int),
        final(child).valid(),
        queen_count(final(child).cells()) == queen_count(old(child).cells()),
        board_binary(old(child).cells()) ==> board_binary(final(child).cells()),
{
    let ghost b0 = child.cells();
    let mut row: usize = 0;
    proof {
        lemma_cells_index(child.board@);
    }
    while row < 8 && child.board[row][col] != 1
        invariant
            child.cells() == b0,
            forall|r: int| 0 <= r < 8 ==> #[trigger] child.board@[r]@ == b0[r],
            board_wf(b0),
            row <= 8,
            col < 8,
            forall|r3: int| 0 <= r3 < row ==> #[trigger] b0[r3][col as int] != 1,
        decreases 8 - row,
    {
        row += 1;
    }
    proof {
        lemma_topmost_skip(b0, col as int, row as int);
    }
    if row < 8 {
        assert(child.board@[r2 as int]@ == b0[r2 as int]);
        if (r2 == row && c2 == col) || child.board[r2][c2] == 0 {
            set_board_cell(&mut child.board, row, col, 0);
            let ghost b1 = child.cells();
            set_board_cell(&mut child.board, r2, c2, 1);
            proof {
                lemma_queen_count_set(b0, row as int, col as int, 0);
                lemma_queen_count_set(b1, r2 as int, c2 as int, 1);
                if board_binary(b0) {
                    let b2 = child.cells();
                    assert forall|r: int, c: int| 0 <= r < 8 && 0 <= c < 8 implies #[trigger] b2[r][c]
                        <= 1 by {
                        assert(b0[r][c] <= 1);
                    }
                }
            }
        }
    }
    fitness(child);
}

/// Mutation: with the given probability, the queen of a randomly drawn
/// column (its topmost queen, if the column has several) moves to a randomly
/// drawn empty cell. The attack count is recounted in every case.
///
/// Empty cells are drawn until one is found; the draws are capped at
/// `u64::MAX`, after which the queen goes back to the cell it left.
pub fn mutation(child: &mut Individual, mutation_rate: Probability, rng: &mut StdRng)
    requires
        board_wf(old(child).cells()),
        mutation_rate.wf(),
    ensures
        final(child).valid(),
        queen_count(final(child).cells()) == queen_count(old(child).cells()),
        mutation_outcome(mutation_rate, old(child).cells(), final(child).cells()),
        mutation_rate.numerator == 0 ==> final(child).cells() == old(child).cells(),
        board_binary(old(child).cells()) ==> board_binary(final(child).cells()),
{
    let ghost b0 = child.cells();
    let flag = gen_ratio(rng, mutation_rate.numerator, mutation_rate.denominator);
    if flag {
        let col = gen_index(rng, 0, 8);
        let mut row: usize = 0;
        proof {
            lemma_cells_index(child.board@);
        }
        while row < 8 && child.board[row][col] != 1
            invariant
                child.cells() == b0,
                forall|r: int| 0 <= r < 8 ==> #[trigger] child.board@[r]@ == b0[r],
                board_wf(b0),
                row <= 8,
                col < 8,
                forall|r3: int| 0 <= r3 < row ==> #[trigger] b0[r3][col as int] != 1,
            decreases 8 - row,
        {
            row += 1;
        }
        proof {
            lemma_topmost_skip(b0, col as int, row as int);
        }
        if row < 8 {
            // cells are drawn until one is empty once the queen is lifted
            let mut row_2 = gen_index(rng, 0, 8);
            let mut col_2 = gen_index(rng, 0, 8);
            let mut tries: u64 = 0;
            while tries < u64::MAX && !((row_2 == row && col_2 == col)
                || child.board[row_2][col_2] == 0)
                invariant
                    child.cells() == b0,
                    forall|r: int| 0 <= r < 8 ==> #[trigger] child.board@[r]@ == b0[r],
                    board_wf(b0),
                    row_2 < 8,
                    col_2 < 8,
                    row < 8,
                    col < 8,
                decreases u64::MAX - tries,
            {
                row_2 = gen_index(rng, 0, 8);
                col_2 = gen_index(rng, 0, 8);
                tries += 1;
            }
            if !((row_2 == row && col_2 == col) || child.board[row_2][col_2] == 0) {
                row_2 = row;
                col_2 = col;
            }
            move_topmost_queen(child, col, row_2, col_2);
            assert(child.cells() == moved_topmost(b0, col as int, row_2 as int, col_2 as int));
        } else {
            assert(b0 == moved_topmost(b0, col as int, 0, 0));
        }
    }
    fitness(child);
}

/// Every cell keeps its value or holds 0 or 1 both before and after.
pub open spec fn changes_binary(before: Seq<Seq<u8>>, after: Seq<Seq<u8>>) -> bool {
    forall|r: int, c: int|
        0 <= r < 8 && 0 <= c < 8 ==> #[trigger] after[r][c] == before[r][c] || (before[r][c] <= 1
            && after[r][c] <= 1)
}

/// A queen alone in its column in `before`, in a column below `upto`, is
/// still on the board in `after`.
pub open spec fn lone_queens_kept(before: Seq<Seq<u8>>, after: Seq<Seq<u8>>, upto: int) -> bool {
    forall|r: int, c: int|
        0 <= r < 8 && 0 <= c < upto && before[r][c] == 1 && column_queens(before, c, 8) == 1
            ==> #[trigger] after[r][c] == 1
}

/// The columns from `from` on are as in `before`.
spec fn untouched_from(before: Seq<Seq<u8>>, after: Seq<Seq<u8>>, from: int) -> bool {
    forall|r: int, c: int| 0 <= r < 8 && from <= c < 8 ==> #[trigger] after[r][c] == before[r][c]
}

/// The columns below `upto` hold at most one queen each.
spec fn columns_at_most_one(b: Seq<Seq<u8>>, upto: int) -> bool {
    forall|c: int| 0 <= c < upto ==> #[trigger] column_queens(b, c, 8) <= 1
}

/// `qp` lists every queen of `b` exactly once.
spec fn tracks_queens(b: Seq<Seq<u8>>, qp: Seq<(usize, usize)>) -> bool {
    &&& qp.no_duplicates()
    &&& forall|x: (usize, usize)| #[trigger] qp.contains(x) <==> is_queen_cell(b, x)
    &&& qp.len() == queen_count(b)
}

proof fn lemma_remove_no_dup<A>(s: Seq<A>, i: int)
    requires
        s.no_duplicates(),
        0 <= i < s.len(),
    ensures
        s.remove(i).no_duplicates(),
        forall|x: A| #[trigger] s.remove(i).contains(x) <==> (s.contains(x) && x != s[i]),
{
    let t = s.remove(i);
    assert forall|x: A| #[trigger] t.contains(x) <==> (s.contains(x) && x != s[i]) by {
        if t.contains(x) {
            let w = choose|w: int| 0 <= w < t.len() && t[w] == x;
            if w < i {
                assert(s[w] == x);
            } else {
                assert(s[w + 1] == x);
            }
        }
        if s.contains(x) && x != s[i] {
            let w = choose|w: int| 0 <= w < s.len() && s[w] == x;
            if w < i {
                assert(t[w] == x);
            } else {
                assert(t[w - 1] == x);
            }
        }
    }
}

proof fn lemma_push_no_dup<A>(s: Seq<A>, y: A)
    requires
        s.no_duplicates(),
        !s.contains(y),
    ensures
        s.push(y).no_duplicates(),
        forall|x: A| #[trigger] s.push(y).contains(x) <==> (s.contains(x) || x == y),
{
    let t = s.push(y);
    assert forall|x: A| #[trigger] t.contains(x) <==> (s.contains(x) || x == y) by {
        if t.contains(x) {
            let w = choose|w: int| 0 <= w < t.len() && t[w] == x;
            if w < s.len() {
                assert(s[w] == x);
            }
        }
        if s.contains(x) {
            let w = choose|w: int| 0 <= w < s.len() && s[w] == x;
            assert(t[w] == x);
        }
        if x == y {
            assert(t[s.len() as int] == x);
        }
    }
}

/// Position of `x` in `qp`, if it occurs there.
fn find_cell(qp: &Vec<(usize, usize)>, x: (usize, usize)) -> (pos: Option<usize>)
    ensures
        match pos {
            Some(p) => p < qp.len() && qp@[p as int] == x,
            None => !qp@.contains(x),
        },
{
    let mut p: usize = 0;
    while p < qp.len()
        invariant
            p <= qp.len(),
            forall|w: int| 0 <= w < p ==> qp@[w] != x,
        decreases qp.len() - p,
    {
        if qp[p].0 == x.0 && qp[p].1 == x.1 {
            return Some(p);
        }
        p += 1;
    }
    None
}

/// Whether column `col` holds a queen.
fn column_has_queen(board: &Vec<Vec<u8>>, col: usize) -> (r: bool)
    requires
        board_wf(cells(board@)),
        col < 8,
    ensures
        r == exists|row: int| 0 <= row < 8 && #[trigger] cells(board@)[row][col as int] == 1,
{
    proof {
        lemma_cells_index(board@);
    }
    let mut row: usize = 0;
    while row < 8
        invariant
            board_wf(cells(board@)),
            forall|r: int| 0 <= r < 8 ==> #[trigger] board@[r]@ == cells(board@)[r],
            col < 8,
            row <= 8,
            forall|r: int| 0 <= r < row ==> #[trigger] cells(board@)[r][col as int] != 1,
        decreases 8 - row,
    {
        if board[row][col] == 1 {
            return true;
        }
        row += 1;
    }
    false
}

/// Clears the queen on (`r`, `c`) and drops it from the queen list.
fn clear_queen(board: &mut Vec<Vec<u8>>, qp: &mut Vec<(usize, usize)>, r: usize, c: usize)
    requires
        board_wf(cells(old(board)@)),
        tracks_queens(cells(old(board)@), old(qp)@),
        r < 8,
        c < 8,
        cells(old(board)@)[r as int][c as int] == 1,
    ensures
        cells(final(board)@) == set_cell(cells(old(board)@), r as int, c as int, 0),
        board_wf(cells(final(board)@)),
        tracks_queens(cells(final(board)@), final(qp)@),
        final(qp).len() + 1 == old(qp).len(),
{
    let ghost b = cells(board@);
    set_board_cell(board, r, c, 0);
    proof {
        lemma_queen_count_set(b, r as int, c as int, 0);
        assert(qp@.contains((r, c)));
    }
    if let Some(pos) = find_cell(qp, (r, c)) {
        proof {
            lemma_remove_no_dup(qp@, pos as int);
        }
        qp.remove(pos);
    }
}

/// Puts a queen on the empty cell (`r`, `c`) and adds it to the queen list.
fn place_queen(board: &mut Vec<Vec<u8>>, qp: &mut Vec<(usize, usize)>, r: usize, c: usize)
    requires
        board_wf(cells(old(board)@)),
        tracks_queens(cells(old(board)@), old(qp)@),
        r < 8,
        c < 8,
        cells(old(board)@)[r as int][c as int] == 0,
    ensures
        cells(final(board)@) == set_cell(cells(old(board)@), r as int, c as int, 1),
        board_wf(cells(final(board)@)),
        tracks_queens(cells(final(board)@), final(qp)@),
        final(qp).len() == old(qp).len() + 1,
{
    let ghost b = cells(board@);
    set_board_cell(board, r, c, 1);
    proof {
        lemma_queen_count_set(b, r as int, c as int, 1);
        lemma_push_no_dup(qp@, (r, c));
    }
    qp.push((r, c));
}

/// Every column that held a queen in `before` still holds one of those
/// queens in `after`.
pub open spec fn own_queens_kept(before: Seq<Seq<u8>>, after: Seq<Seq<u8>>, upto: int) -> bool {
    forall|c: int|
        0 <= c < upto && #[trigger] column_queens(before, c, 8) >= 1 ==> exists|r: int|
            0 <= r < 8 && before[r][c] == 1 && after[r][c] == 1
}

/// A queen of `before` is missing from `after` only where its column held
/// two or more queens.
pub open spec fn removed_only_crowded(before: Seq<Seq<u8>>, after: Seq<Seq<u8>>) -> bool {
    forall|r: int, c: int|
        0 <= r < 8 && 0 <= c < 8 && before[r][c] == 1 && #[trigger] after[r][c] != 1
            ==> column_queens(before, c, 8) >= 2
}

/// A queen added on an empty cell has no empty cell above it in its column.
pub open spec fn added_on_top(before: Seq<Seq<u8>>, after: Seq<Seq<u8>>) -> bool {
    forall|r: int, c: int|
        0 <= r < 8 && 0 <= c < 8 && before[r][c] == 0 && #[trigger] after[r][c] == 1 ==> forall|
            r2: int,
        |
            0 <= r2 < r ==> #[trigger] after[r2][c] != 0
}

/// Some cell above row `r` of column `c` is empty.
pub open spec fn empty_above(b: Seq<Seq<u8>>, r: int, c: int) -> bool {
    exists|r0: int| 0 <= r0 < r && #[trigger] b[r0][c] == 0
}

/// In every column, at most one queen has an empty cell above it.
pub open spec fn thinned(b: Seq<Seq<u8>>) -> bool {
    forall|c: int, r1: int, r2: int|
        #![trigger empty_above(b, r1, c), empty_above(b, r2, c)]
        0 <= c < 8 && 0 <= r1 < 8 && 0 <= r2 < 8 && b[r1][c] == 1 && b[r2][c] == 1
            && empty_above(b, r1, c) && empty_above(b, r2, c) ==> r1 == r2
}

/// A board with at most one queen per column is thinned.
proof fn lemma_thinned_at_most_one(b: Seq<Seq<u8>>)
    requires
        board_wf(b),
        columns_at_most_one(b, 8),
    ensures
        thinned(b),
{
    assert forall|c: int, r1: int, r2: int|
        0 <= c < 8 && 0 <= r1 < 8 && 0 <= r2 < 8 && b[r1][c] == 1 && b[r2][c] == 1
            && empty_above(b, r1, c) && empty_above(b, r2, c) implies r1 == r2 by {
        assert(column_queens(b, c, 8) <= 1);
        if r1 < r2 {
            lemma_column_two_queens(b, c, r1, r2, 8);
        } else if r2 < r1 {
            lemma_column_two_queens(b, c, r2, r1, 8);
        }
    }
}

/// A queen put on an empty cell with no empty cell above it keeps the board
/// thinned.
proof fn lemma_thinned_place(b: Seq<Seq<u8>>, row: int, col: int)
    requires
        board_wf(b),
        thinned(b),
        0 <= row < 8,
        0 <= col < 8,
        b[row][col] == 0,
        forall|r: int| 0 <= r < row ==> #[trigger] b[r][col] != 0,
    ensures
        thinned(set_cell(b, row, col, 1)),
{
    let nb = set_cell(b, row, col, 1);
    assert forall|c: int, r: int| 0 <= c < 8 && 0 <= r < 8 && #[trigger] empty_above(nb, r, c)
        implies empty_above(b, r, c) && !(r == row && c == col) by {
        let r0 = choose|r0: int| 0 <= r0 < r && #[trigger] nb[r0][c] == 0;
        assert(b[r0][c] == 0);
    }
    assert forall|c: int, r1: int, r2: int|
        0 <= c < 8 && 0 <= r1 < 8 && 0 <= r2 < 8 && nb[r1][c] == 1 && nb[r2][c] == 1
            && empty_above(nb, r1, c) && empty_above(nb, r2, c) implies r1 == r2 by {
        assert(empty_above(b, r1, c) && empty_above(b, r2, c));
        assert(b[r1][c] == 1 && b[r2][c] == 1);
    }
}

/// What a repair does to the cells of a board, whatever it draws.
pub open spec fn repair_outcome(before: Seq<Seq<u8>>, after: Seq<Seq<u8>>) -> bool {
    &&& board_wf(after)
    &&& thinned(after)
    &&& changes_binary(before, after)
    &&& board_binary(before) ==> board_binary(after) && queen_count(after) == 8
    &&& one_queen_per_column(before) ==> after == before
    &&& lone_queens_kept(before, after, 8)
    &&& own_queens_kept(before, after, 8)
    &&& removed_only_crowded(before, after)
    &&& added_on_top(before, after)
}

/// No empty cell of `before` holds a queen in `after`.
spec fn no_additions(before: Seq<Seq<u8>>, after: Seq<Seq<u8>>) -> bool {
    forall|r: int, c: int| 0 <= r < 8 && 0 <= c < 8 && before[r][c] == 0 ==> #[trigger] after[r][c] == 0
}

/// Writing a 0 or 1 over a cell holding 0 or 1 keeps the cells binary-changed.
proof fn lemma_write_bit(b0: Seq<Seq<u8>>, bb: Seq<Seq<u8>>, r: int, c: int, v: u8)
    requires
        board_wf(bb),
        0 <= r < 8,
        0 <= c < 8,
        v <= 1,
        bb[r][c] <= 1,
        changes_binary(b0, bb),
    ensures
        changes_binary(b0, set_cell(bb, r, c, v)),
        board_binary(bb) ==> board_binary(set_cell(bb, r, c, v)),
{
    let nb = set_cell(bb, r, c, v);
    assert forall|r1: int, c1: int| 0 <= r1 < 8 && 0 <= c1 < 8 implies #[trigger] nb[r1][c1]
        == b0[r1][c1] || (b0[r1][c1] <= 1 && nb[r1][c1] <= 1) by {
        assert(bb[r1][c1] == b0[r1][c1] || (b0[r1][c1] <= 1 && bb[r1][c1] <= 1));
    }
    if board_binary(bb) {
        assert forall|r1: int, c1: int| 0 <= r1 < 8 && 0 <= c1 < 8 implies #[trigger] nb[r1][c1]
            <= 1 by {
            assert(bb[r1][c1] <= 1);
        }
    }
}

/// Clearing a queen in one column keeps, in every other column, the queens
/// that witnessed `own_queens_kept`.
proof fn lemma_own_kept_clear(b0: Seq<Seq<u8>>, bb: Seq<Seq<u8>>, r: int, col: int, upto: int)
    requires
        board_wf(bb),
        0 <= r < 8,
        0 <= col < 8,
        upto <= col,
        own_queens_kept(b0, bb, upto),
    ensures
        own_queens_kept(b0, set_cell(bb, r, col, 0), upto),
{
    let nb = set_cell(bb, r, col, 0);
    assert forall|c: int| 0 <= c < upto && #[trigger] column_queens(b0, c, 8) >= 1 implies exists|
        r1: int,
    | 0 <= r1 < 8 && b0[r1][c] == 1 && nb[r1][c] == 1 by {
        let r1 = choose|r1: int| 0 <= r1 < 8 && b0[r1][c] == 1 && bb[r1][c] == 1;
        assert(nb[r1][c] == 1);
    }
}

/// Putting a queen on an empty cell keeps every queen.
proof fn lemma_own_kept_place(b0: Seq<Seq<u8>>, bb: Seq<Seq<u8>>, r: int, col: int)
    requires
        board_wf(bb),
        0 <= r < 8,
        0 <= col < 8,
        bb[r][col] == 0,
        own_queens_kept(b0, bb, 8),
        lone_queens_kept(b0, bb, 8),
    ensures
        own_queens_kept(b0, set_cell(bb, r, col, 1), 8),
        lone_queens_kept(b0, set_cell(bb, r, col, 1), 8),
{
    let nb = set_cell(bb, r, col, 1);
    assert forall|c: int| 0 <= c < 8 && #[trigger] column_queens(b0, c, 8) >= 1 implies exists|
        r1: int,
    | 0 <= r1 < 8 && b0[r1][c] == 1 && nb[r1][c] == 1 by {
        let r1 = choose|r1: int| 0 <= r1 < 8 && b0[r1][c] == 1 && bb[r1][c] == 1;
        assert(nb[r1][c] == 1);
    }
    assert forall|r1: int, c: int|
        0 <= r1 < 8 && 0 <= c < 8 && b0[r1][c] == 1 && column_queens(b0, c, 8) == 1 implies #[trigger] nb[r1][c]
        == 1 by {
        assert(bb[r1][c] == 1);
    }
}

/// Repair: leaves one queen in each column that holds several, removing
/// randomly chosen extra queens, then, while the board has fewer than eight
/// queens, puts a queen on the first empty row of a randomly drawn column
/// (redrawing up to ten times while the drawn column already holds a queen).
/// The attack count is recounted.
pub fn repair_solutions(individual: &mut Individual, rng: &mut StdRng)
    requires
        board_wf(old(individual).cells()),
    ensures
        final(individual).valid(),
        repair_outcome(old(individual).cells(), final(individual).cells()),
        one_queen_per_column(old(individual).cells()) ==> *final(rng) == *old(rng),
{
    let ghost b0 = individual.cells();
    let ghost rng0 = *rng;
    let ghost keep = one_queen_per_column(b0);
    let mut queens_positions = queen_positions(&individual.board);
    proof {
        lemma_queen_cells_exact(b0);
        if keep {
            lemma_one_per_column_count(b0);
        }
    }
    let mut col: usize = 0;
    while col < 8
        invariant
            board_wf(individual.cells()),
            tracks_queens(individual.cells(), queens_positions@),
            changes_binary(b0, individual.cells()),
            board_binary(b0) ==> board_binary(individual.cells()),
            keep == one_queen_per_column(b0),
            keep ==> individual.cells() == b0 && *rng == rng0,
            keep ==> queen_count(b0) == 8,
            col <= 8,
            board_wf(b0),
            lone_queens_kept(b0, individual.cells(), col as int),
            own_queens_kept(b0, individual.cells(), col as int),
            no_additions(b0, individual.cells()),
            untouched_from(b0, individual.cells(), col as int),
            columns_at_most_one(individual.cells(), col as int),
        decreases 8 - col,
    {
        let ghost b = individual.cells();
        proof {
            lemma_cells_index(individual.board@);
        }
        let mut queens_in_col: Vec<usize> = Vec::new();
        let mut row: usize = 0;
        while row < 8
            invariant
                b == individual.cells(),
                board_wf(b),
                forall|r: int| 0 <= r < 8 ==> #[trigger] individual.board@[r]@ == b[r],
                col < 8,
                row <= 8,
                queens_in_col.len() == column_queens(b, col as int, row as int),
                forall|p: int|
                    0 <= p < queens_in_col.len() ==> #[trigger] queens_in_col@[p] < row && b[queens_in_col@[p] as int][col as int] == 1,
                forall|p: int, q: int|
                    0 <= p < q < queens_in_col.len() ==> #[trigger] queens_in_col@[p]
                        < #[trigger] queens_in_col@[q],
            decreases 8 - row,
        {
            if individual.board[row][col] == 1 {
                queens_in_col.push(row);
            }
            row += 1;
        }
        proof {
            assert(same_column(b, col as int, b0, col as int));
            lemma_column_queens_same(b, col as int, b0, col as int, 8);
        }
        while queens_in_col.len() > 1
            invariant
                board_wf(b0),
                queens_in_col.len() == column_queens(individual.cells(), col as int, 8),
                column_queens(b0, col as int, 8) == 1 ==> queens_in_col.len() <= 1,
                column_queens(b0, col as int, 8) >= 1 ==> queens_in_col.len() >= 1,
                column_queens(b0, col as int, 8) == 1 ==> forall|r: int|
                    0 <= r < 8 ==> #[trigger] individual.cells()[r][col as int] == b0[r][col as int],
                lone_queens_kept(b0, individual.cells(), col as int),
                own_queens_kept(b0, individual.cells(), col as int),
                no_additions(b0, individual.cells()),
                untouched_from(b0, individual.cells(), col + 1),
                columns_at_most_one(individual.cells(), col as int),
                board_wf(individual.cells()),
                tracks_queens(individual.cells(), queens_positions@),
                changes_binary(b0, individual.cells()),
                board_binary(b0) ==> board_binary(individual.cells()),
                keep == one_queen_per_column(b0),
                keep ==> queens_in_col.len() <= 1,
                keep ==> individual.cells() == b0 && *rng == rng0,
                keep ==> queen_count(b0) == 8,
                col < 8,
                forall|p: int|
                    0 <= p < queens_in_col.len() ==> #[trigger] queens_in_col@[p] < 8
                        && individual.cells()[queens_in_col@[p] as int][col as int] == 1
                        && b0[queens_in_col@[p] as int][col as int] == 1,
                forall|p: int, q: int|
                    0 <= p < q < queens_in_col.len() ==> #[trigger] queens_in_col@[p]
                        < #[trigger] queens_in_col@[q],
            decreases queens_in_col.len(),
        {
            let idx = gen_index(rng, 0, queens_in_col.len());
            let row = queens_in_col.remove(idx);
            let ghost bb = individual.cells();
            clear_queen(&mut individual.board, &mut queens_positions, row, col);
            proof {
                let nb = individual.cells();
                lemma_write_bit(b0, bb, row as int, col as int, 0);
                lemma_own_kept_clear(b0, bb, row as int, col as int, col as int);
                lemma_column_queens_set_same(bb, row as int, col as int, 0, 8);
                assert forall|c: int| 0 <= c < col implies #[trigger] column_queens(nb, c, 8) <= 1 by {
                    lemma_column_queens_set_other(bb, row as int, col as int, 0, c, 8);
                }
                assert forall|p: int| 0 <= p < queens_in_col.len() implies #[trigger] queens_in_col@[p] < 8
                    && nb[queens_in_col@[p] as int][col as int] == 1 by {
                    assert(queens_in_col@[p] != row);
                }
            }
        }
        proof {
            let nb = individual.cells();
            assert forall|r: int, c: int| 0 <= r < 8 && 0 <= c < col + 1 && b0[r][c] == 1
                && column_queens(b0, c, 8) == 1 implies #[trigger] nb[r][c] == 1 by {
                if c == col {
                    assert(nb[r][c] == b0[r][c]);
                }
            }
            assert forall|c: int| 0 <= c < col + 1 && #[trigger] column_queens(b0, c, 8) >= 1 implies exists|
                r1: int,
            | 0 <= r1 < 8 && b0[r1][c] == 1 && nb[r1][c] == 1 by {
                if c == col {
                    let r1 = queens_in_col@[0] as int;
                    assert(b0[r1][c] == 1 && nb[r1][c] == 1);
                }
            }
        }
        col += 1;
    }
    proof {
        lemma_at_most_one_per_column_count(individual.cells());
        lemma_thinned_at_most_one(individual.cells());
    }
    if queens_positions.len() > 8 {
        let remove = queens_positions.len() - 8;
        let mut k: usize = 0;
        while k < remove
            invariant
                board_wf(individual.cells()),
                tracks_queens(individual.cells(), queens_positions@),
                changes_binary(b0, individual.cells()),
                board_binary(b0) ==> board_binary(individual.cells()),
                k <= remove,
                queens_positions.len() + k == 8 + remove,
                queens_positions.len() <= 8,
                thinned(individual.cells()),
                lone_queens_kept(b0, individual.cells(), 8),
                own_queens_kept(b0, individual.cells(), 8),
                no_additions(b0, individual.cells()),
            decreases remove - k,
        {
            let index = gen_index(rng, 0, queens_positions.len());
            let pos = queens_positions[index];
            proof {
                assert(queens_positions@.contains(pos));
            }
            clear_queen(&mut individual.board, &mut queens_positions, pos.0, pos.1);
            k += 1;
        }
    }
    if queens_positions.len() < 8 {
        let add = 8 - queens_positions.len();
        let mut k: usize = 0;
        while k < add
            invariant
                board_wf(individual.cells()),
                board_wf(b0),
                tracks_queens(individual.cells(), queens_positions@),
                changes_binary(b0, individual.cells()),
                board_binary(b0) ==> board_binary(individual.cells()),
                board_binary(b0) ==> queens_positions.len() + add == 8 + k,
                queens_positions.len() + add <= 8 + k,
                k <= add,
                add <= 8,
                thinned(individual.cells()),
                lone_queens_kept(b0, individual.cells(), 8),
                own_queens_kept(b0, individual.cells(), 8),
                added_on_top(b0, individual.cells()),
            decreases add - k,
        {
            let mut col = gen_index(rng, 0, 8);
            let mut attempts: u32 = 0;
            while column_has_queen(&individual.board, col) && attempts < 10
                invariant
                    board_wf(individual.cells()),
                    col < 8,
                    attempts <= 10,
                decreases 10 - attempts,
            {
                col = gen_index(rng, 0, 8);
                attempts += 1;
            }
            let ghost bb = individual.cells();
            proof {
                lemma_cells_index(individual.board@);
                if board_binary(b0) && forall|r: int| 0 <= r < 8 ==> #[trigger] bb[r][col as int] != 0 {
                    assert forall|r: int| 0 <= r < 8 implies #[trigger] bb[r][col as int] == 1 by {
                        assert(bb[r][col as int] <= 1);
                    }
                    lemma_full_column(bb, col as int, 8);
                    lemma_queen_count_ge_column(bb, col as int);
                    assert(false);
                }
            }
            let mut row: usize = 0;
            while row < 8 && individual.board[row][col] != 0
                invariant
                    bb == individual.cells(),
                    board_wf(bb),
                    forall|r: int| 0 <= r < 8 ==> #[trigger] individual.board@[r]@ == bb[r],
                    col < 8,
                    row <= 8,
                    forall|r: int| 0 <= r < row ==> #[trigger] bb[r][col as int] != 0,
                decreases 8 - row,
            {
                row += 1;
            }
            if row < 8 {
                place_queen(&mut individual.board, &mut queens_positions, row, col);
                proof {
                    let nb = individual.cells();
                    lemma_write_bit(b0, bb, row as int, col as int, 1);
                    lemma_own_kept_place(b0, bb, row as int, col as int);
                    lemma_thinned_place(bb, row as int, col as int);
                    assert forall|r: int, c: int|
                        0 <= r < 8 && 0 <= c < 8 && b0[r][c] == 0 && #[trigger] nb[r][c] == 1 implies forall|
                        r2: int,
                    | 0 <= r2 < r ==> #[trigger] nb[r2][c] != 0 by {
                        if r == row && c == col {
                            assert forall|r2: int| 0 <= r2 < r implies #[trigger] nb[r2][c] != 0 by {
                                assert(bb[r2][col as int] != 0);
                            }
                        } else {
                            assert(bb[r][c] == 1);
                            assert forall|r2: int| 0 <= r2 < r implies #[trigger] nb[r2][c] != 0 by {
                                assert(bb[r2][c] != 0);
                            }
                        }
                    }
                }
            }
            k += 1;
        }
    }
    proof {
        let fb = individual.cells();
        assert forall|r: int, c: int|
            0 <= r < 8 && 0 <= c < 8 && b0[r][c] == 1 && #[trigger] fb[r][c] != 1 implies column_queens(b0, c, 8) >= 2 by {
            lemma_column_has_queen(b0, c, r, 8);
        }
    }
    fitness(individual);
}

/// The attack counts of a population, as sort keys.
pub open spec fn attack_keys(s: Seq<Individual>) -> Seq<u64> {
    Seq::new(s.len(), |i: int| s[i].atack as u64)
}

/// Same board and same attack count.
pub open spec fn same_individual(a: Individual, b: Individual) -> bool {
    a.cells() == b.cells() && a.atack == b.atack
}

/// Sorts the individuals by attack count, ties kept in their previous order,
/// and returns, for each new position, the old position of its individual.
pub fn orderin_sols(solutions: &mut Vec<Individual>) -> (sol_indx: Vec<usize>)
    ensures
        is_stable_order(attack_keys(old(solutions)@), sol_indx@),
        final(solutions).len() == old(solutions).len(),
        forall|i: int|
            0 <= i < final(solutions).len() ==> same_individual(
                #[trigger] final(solutions)@[i],
                old(solutions)@[sol_indx@[i] as int],
            ),
        forall|i: int, j: int|
            0 <= i <= j < final(solutions).len() ==> #[trigger] final(solutions)@[i].atack
                <= #[trigger] final(solutions)@[j].atack,
{
    let ghost s0 = solutions@;
    let mut keys: Vec<u64> = Vec::new();
    let mut i: usize = 0;
    while i < solutions.len()
        invariant
            s0 == solutions@,
            i <= solutions.len(),
            keys@ == attack_keys(s0).take(i as int),
        decreases solutions.len() - i,
    {
        keys.push(solutions[i].atack as u64);
        i += 1;
        assert(keys@ =~= attack_keys(s0).take(i as int));
    }
    assert(keys@ =~= attack_keys(s0));
    let sol_indx = stable_order(&keys);
    let mut sorted: Vec<Individual> = Vec::new();
    let mut k: usize = 0;
    while k < sol_indx.len()
        invariant
            s0 == solutions@,
            keys@ == attack_keys(s0),
            is_stable_order(keys@, sol_indx@),
            k <= sol_indx.len(),
            sorted.len() == k,
            forall|p: int|
                0 <= p < k ==> same_individual(#[trigger] sorted@[p], s0[sol_indx@[p] as int]),
        decreases sol_indx.len() - k,
    {
        let copy = solutions[sol_indx[k]].duplicate();
        sorted.push(copy);
        k += 1;
    }
    *solutions = sorted;
    proof {
        let f = solutions@;
        assert forall|i: int, j: int| 0 <= i <= j < f.len() implies #[trigger] f[i].atack
            <= #[trigger] f[j].atack by {
            if i < j {
                assert(key_before(keys@, sol_indx@[i] as int, sol_indx@[j] as int));
            }
        }
    }
    sol_indx
}

} // verus!
