//! The mathematical model of an eight-queens board.
//!
//! A board is an 8x8 matrix of cells; a cell holding 1 has a queen, any other
//! value is empty. Two queens attack each other when they share a row or a
//! diagonal (columns are not compared: the algorithm keeps one queen per
//! column by construction and repair).

use vstd::prelude::*;

verus! {

/// The cells of a board held as a vector of rows.
pub open spec fn cells(b: Seq<Vec<u8>>) -> Seq<Seq<u8>> {
    b.map_values(|row: Vec<u8>| row@)
}

/// Eight rows of eight cells.
pub open spec fn board_wf(b: Seq<Seq<u8>>) -> bool {
    &&& b.len() == 8
    &&& forall|r: int| 0 <= r < 8 ==> #[trigger] b[r].len() == 8
}

/// At least eight rows of at least eight cells: the 8x8 board read is the
/// top-left corner.
pub open spec fn board_covers(b: Seq<Seq<u8>>) -> bool {
    &&& b.len() >= 8
    &&& forall|r: int| 0 <= r < 8 ==> #[trigger] b[r].len() >= 8
}

/// Every cell is 0 or 1.
pub open spec fn board_binary(b: Seq<Seq<u8>>) -> bool {
    forall|r: int, c: int| 0 <= r < 8 && 0 <= c < 8 ==> #[trigger] b[r][c] <= 1
}

pub open spec fn abs_diff(a: int, b: int) -> int {
    if a >= b { a - b } else { b - a }
}

/// Queens on cells `p` and `q` attack each other: same row, or same diagonal.
pub open spec fn attacks(p: (usize, usize), q: (usize, usize)) -> bool {
    p.0 == q.0 || abs_diff(p.0 as int, q.0 as int) == abs_diff(p.1 as int, q.1 as int)
}

/// The queens of row `r` in columns below `j`, left to right, as (row, column).
pub open spec fn row_queens(b: Seq<Seq<u8>>, r: int, j: int) -> Seq<(usize, usize)>
    decreases j,
{
    if j <= 0 {
        Seq::empty()
    } else if b[r][j - 1] == 1 {
        row_queens(b, r, j - 1).push((r as usize, (j - 1) as usize))
    } else {
        row_queens(b, r, j - 1)
    }
}

/// The queens of the rows below `i`, in reading order (row by row).
pub open spec fn rows_queens(b: Seq<Seq<u8>>, i: int) -> Seq<(usize, usize)>
    decreases i,
{
    if i <= 0 {
        Seq::empty()
    } else {
        rows_queens(b, i - 1) + row_queens(b, i - 1, 8)
    }
}

/// All queens of the board in reading order.
pub open spec fn queen_cells(b: Seq<Seq<u8>>) -> Seq<(usize, usize)> {
    rows_queens(b, 8)
}

/// Number of queens of `ps[a]` attacked by the queens `ps[a+1..n]`.
pub open spec fn attacks_after(ps: Seq<(usize, usize)>, a: int, n: int) -> nat
    decreases n - a,
{
    if n <= a + 1 {
        0
    } else {
        attacks_after(ps, a, n - 1) + if attacks(ps[a], ps[n - 1]) { 1nat } else { 0nat }
    }
}

/// Number of attacking pairs whose first queen is among `ps[0..m]`.
pub open spec fn attacks_upto(ps: Seq<(usize, usize)>, m: int) -> nat
    decreases m,
{
    if m <= 0 {
        0
    } else {
        attacks_upto(ps, m - 1) + attacks_after(ps, m - 1, ps.len() as int)
    }
}

/// Number of unordered pairs of queens in `ps` that attack each other.
pub open spec fn attack_pairs(ps: Seq<(usize, usize)>) -> nat {
    attacks_upto(ps, ps.len() as int)
}

/// Number of attacking pairs of queens on the board.
pub open spec fn board_attacks(b: Seq<Seq<u8>>) -> nat {
    attack_pairs(queen_cells(b))
}

/// Number of queens on the board.
pub open spec fn queen_count(b: Seq<Seq<u8>>) -> nat {
    queen_cells(b).len()
}

/// Number of queens in column `c` among the rows below `i`.
pub open spec fn column_queens(b: Seq<Seq<u8>>, c: int, i: int) -> nat
    decreases i,
{
    if i <= 0 {
        0
    } else {
        column_queens(b, c, i - 1) + if b[i - 1][c] == 1 { 1nat } else { 0nat }
    }
}

/// One queen in every column, every other cell 0: a queen placement that is
/// a permutation of rows over columns.
pub open spec fn one_queen_per_column(b: Seq<Seq<u8>>) -> bool {
    &&& board_wf(b)
    &&& board_binary(b)
    &&& forall|c: int| 0 <= c < 8 ==> #[trigger] column_queens(b, c, 8) == 1
}

/// Set one cell of the board.
pub open spec fn set_cell(b: Seq<Seq<u8>>, r: int, c: int, v: u8) -> Seq<Seq<u8>> {
    b.update(r, b[r].update(c, v))
}

pub proof fn lemma_cells_index(b: Seq<Vec<u8>>)
    ensures
        cells(b).len() == b.len(),
        forall|r: int| 0 <= r < b.len() ==> #[trigger] b[r]@ == cells(b)[r],
{
}

pub proof fn lemma_cells_push(s: Seq<Vec<u8>>, v: Vec<u8>)
    ensures
        cells(s.push(v)) == cells(s).push(v@),
{
    assert(cells(s.push(v)) =~= cells(s).push(v@));
}

pub proof fn lemma_row_queens_len(b: Seq<Seq<u8>>, r: int, j: int)
    requires
        0 <= j,
    ensures
        row_queens(b, r, j).len() <= j,
    decreases j,
{
    if j > 0 {
        lemma_row_queens_len(b, r, j - 1);
    }
}

pub proof fn lemma_rows_queens_len(b: Seq<Seq<u8>>, i: int)
    requires
        0 <= i,
    ensures
        rows_queens(b, i).len() <= 8 * i,
    decreases i,
{
    if i > 0 {
        lemma_rows_queens_len(b, i - 1);
        lemma_row_queens_len(b, i - 1, 8);
    }
}

pub proof fn lemma_attacks_after_bound(ps: Seq<(usize, usize)>, a: int, n: int)
    requires
        0 <= a,
    ensures
        attacks_after(ps, a, n) <= if n > a { n - a - 1 } else { 0 },
    decreases n - a,
{
    if n > a + 1 {
        lemma_attacks_after_bound(ps, a, n - 1);
    }
}

proof fn lemma_attacks_upto_pairs(ps: Seq<(usize, usize)>, m: int)
    requires
        0 <= m <= ps.len(),
    ensures
        2 * attacks_upto(ps, m) <= m * (2 * ps.len() - m - 1),
    decreases m,
{
    if m > 0 {
        let n = ps.len() as int;
        lemma_attacks_upto_pairs(ps, m - 1);
        lemma_attacks_after_bound(ps, m - 1, n);
        assert((m - 1) * (2 * n - (m - 1) - 1) + 2 * (n - m) == m * (2 * n - m - 1))
            by (nonlinear_arith);
    }
}

/// Law: `n` queens form at most `n * (n - 1) / 2` attacking pairs; eight
/// queens at most 28.
pub proof fn lemma_attacks_at_most_pairs(b: Seq<Seq<u8>>)
    ensures
        2 * board_attacks(b) <= queen_count(b) * (queen_count(b) - 1),
        queen_count(b) == 8 ==> board_attacks(b) <= 28,
{
    let ps = queen_cells(b);
    lemma_attacks_upto_pairs(ps, ps.len() as int);
}

pub proof fn lemma_attacks_upto_bound(ps: Seq<(usize, usize)>, m: int)
    requires
        0 <= m,
    ensures
        attacks_upto(ps, m) <= m * ps.len(),
    decreases m,
{
    if m > 0 {
        lemma_attacks_upto_bound(ps, m - 1);
        lemma_attacks_after_bound(ps, m - 1, ps.len() as int);
        assert((m - 1) * ps.len() + ps.len() == m * ps.len()) by (nonlinear_arith);
    }
}

} // verus!

verus! {

/// The board with, in column `c`, a single queen on row `rows[c]`.
pub open spec fn board_of_rows(rows: Seq<usize>) -> Seq<Seq<u8>> {
    Seq::new(8, |r: int| Seq::new(8, |c: int| if rows[c] == r { 1u8 } else { 0u8 }))
}

/// Column `c` of the child comes from `b2` when `take_second[c]`, else from `b1`.
pub open spec fn crossed(b1: Seq<Seq<u8>>, b2: Seq<Seq<u8>>, take_second: Seq<bool>) -> Seq<Seq<u8>> {
    Seq::new(
        8,
        |r: int| Seq::new(8, |c: int| if take_second[c] { b2[r][c] } else { b1[r][c] }),
    )
}

/// Column `c` of `a` and column `d` of `b` hold the same cells.
pub open spec fn same_column(a: Seq<Seq<u8>>, c: int, b: Seq<Seq<u8>>, d: int) -> bool {
    forall|r: int| 0 <= r < 8 ==> #[trigger] a[r][c] == b[r][d]
}

pub proof fn lemma_column_queens_same(a: Seq<Seq<u8>>, c: int, b: Seq<Seq<u8>>, d: int, i: int)
    requires
        same_column(a, c, b, d),
        0 <= i <= 8,
    ensures
        column_queens(a, c, i) == column_queens(b, d, i),
    decreases i,
{
    if i > 0 {
        lemma_column_queens_same(a, c, b, d, i - 1);
        assert(a[i - 1][c] == b[i - 1][d]);
    }
}

/// A column whose only queen stands on row `q` has one queen.
pub proof fn lemma_column_single(b: Seq<Seq<u8>>, c: int, q: int, i: int)
    requires
        0 <= q < 8,
        0 <= i <= 8,
        forall|r: int| 0 <= r < 8 ==> (#[trigger] b[r][c] == 1 <==> r == q),
    ensures
        column_queens(b, c, i) == if q < i { 1nat } else { 0nat },
    decreases i,
{
    if i > 0 {
        lemma_column_single(b, c, q, i - 1);
        assert(b[i - 1][c] == 1 <==> i - 1 == q);
    }
}

/// Law: a board built from one row index per column has exactly one queen
/// in each column.
pub proof fn lemma_board_of_rows_one_per_column(rows: Seq<usize>)
    requires
        rows.len() == 8,
        forall|c: int| 0 <= c < 8 ==> #[trigger] rows[c] < 8,
    ensures
        one_queen_per_column(board_of_rows(rows)),
{
    let b = board_of_rows(rows);
    assert forall|c: int| 0 <= c < 8 implies #[trigger] column_queens(b, c, 8) == 1 by {
        assert forall|r: int| 0 <= r < 8 implies (#[trigger] b[r][c] == 1 <==> r == rows[c]) by {}
        lemma_column_single(b, c, rows[c] as int, 8);
    }
}

/// Law: crossing two boards that each have one queen per column, column by
/// column, gives a board with one queen per column.
pub proof fn lemma_crossed_one_per_column(b1: Seq<Seq<u8>>, b2: Seq<Seq<u8>>, take_second: Seq<bool>)
    requires
        one_queen_per_column(b1),
        one_queen_per_column(b2),
        take_second.len() == 8,
    ensures
        one_queen_per_column(crossed(b1, b2, take_second)),
{
    let b = crossed(b1, b2, take_second);
    assert forall|c: int| 0 <= c < 8 implies #[trigger] column_queens(b, c, 8) == 1 by {
        if take_second[c] {
            lemma_column_queens_same(b, c, b2, c, 8);
        } else {
            lemma_column_queens_same(b, c, b1, c, 8);
        }
    }
    assert forall|r: int, c: int| 0 <= r < 8 && 0 <= c < 8 implies #[trigger] b[r][c] <= 1 by {
        assert(b1[r][c] <= 1);
        assert(b2[r][c] <= 1);
    }
}

} // verus!

verus! {

/// Whether cell `x` of the board holds a queen.
pub open spec fn is_queen_cell(b: Seq<Seq<u8>>, x: (usize, usize)) -> bool {
    x.0 < 8 && x.1 < 8 && b[x.0 as int][x.1 as int] == 1
}

proof fn lemma_row_queens_same_row(b1: Seq<Seq<u8>>, b2: Seq<Seq<u8>>, r: int, j: int)
    requires
        b1[r] == b2[r],
    ensures
        row_queens(b1, r, j) == row_queens(b2, r, j),
    decreases j,
{
    if j > 0 {
        lemma_row_queens_same_row(b1, b2, r, j - 1);
    }
}

proof fn lemma_row_queens_set_len(b: Seq<Seq<u8>>, r: int, c: int, v: u8, j: int)
    requires
        board_wf(b),
        0 <= r < 8,
        0 <= c < 8,
        0 <= j <= 8,
    ensures
        row_queens(set_cell(b, r, c, v), r, j).len() + (if c < j && b[r][c] == 1 { 1int } else { 0 })
            == row_queens(b, r, j).len() + (if c < j && v == 1 { 1int } else { 0 }),
    decreases j,
{
    if j > 0 {
        lemma_row_queens_set_len(b, r, c, v, j - 1);
    }
}

proof fn lemma_rows_queens_set_len(b: Seq<Seq<u8>>, r: int, c: int, v: u8, i: int)
    requires
        board_wf(b),
        0 <= r < 8,
        0 <= c < 8,
        0 <= i <= 8,
    ensures
        rows_queens(set_cell(b, r, c, v), i).len() + (if r < i && b[r][c] == 1 { 1int } else { 0 })
            == rows_queens(b, i).len() + (if r < i && v == 1 { 1int } else { 0 }),
    decreases i,
{
    if i > 0 {
        lemma_rows_queens_set_len(b, r, c, v, i - 1);
        let b2 = set_cell(b, r, c, v);
        if i - 1 == r {
            lemma_row_queens_set_len(b, r, c, v, 8);
        } else {
            lemma_row_queens_same_row(b2, b, i - 1, 8);
        }
    }
}

/// Writing one cell changes the number of queens by what the cell loses and
/// gains.
pub proof fn lemma_queen_count_set(b: Seq<Seq<u8>>, r: int, c: int, v: u8)
    requires
        board_wf(b),
        0 <= r < 8,
        0 <= c < 8,
    ensures
        queen_count(set_cell(b, r, c, v)) + (if b[r][c] == 1 { 1int } else { 0 })
            == queen_count(b) + (if v == 1 { 1int } else { 0 }),
        board_wf(set_cell(b, r, c, v)),
{
    lemma_rows_queens_set_len(b, r, c, v, 8);
}

proof fn lemma_row_queens_shape(b: Seq<Seq<u8>>, r: int, j: int)
    requires
        board_wf(b),
        0 <= r < 8,
        0 <= j <= 8,
    ensures
        forall|p: int|
            0 <= p < row_queens(b, r, j).len() ==> (#[trigger] row_queens(b, r, j)[p]).0 == r
                && row_queens(b, r, j)[p].1 < j && is_queen_cell(b, row_queens(b, r, j)[p]),
        forall|p: int, q: int|
            0 <= p < q < row_queens(b, r, j).len() ==> (#[trigger] row_queens(b, r, j)[p]).1
                < (#[trigger] row_queens(b, r, j)[q]).1,
        forall|c: int|
            0 <= c < j && b[r][c] == 1 ==> #[trigger] row_queens(b, r, j).contains(
                (r as usize, c as usize),
            ),
    decreases j,
{
    if j > 0 {
        lemma_row_queens_shape(b, r, j - 1);
        let s = row_queens(b, r, j - 1);
        if b[r][j - 1] == 1 {
            let t = s.push((r as usize, (j - 1) as usize));
            assert forall|c: int| 0 <= c < j && b[r][c] == 1 implies #[trigger] t.contains(
                (r as usize, c as usize),
            ) by {
                if c < j - 1 {
                    assert(s.contains((r as usize, c as usize)));
                    let w = choose|w: int| 0 <= w < s.len() && s[w] == (r as usize, c as usize);
                    assert(t[w] == (r as usize, c as usize));
                } else {
                    assert(t[s.len() as int] == (r as usize, c as usize));
                }
            }
        }
    }
}

/// Reading-order key of a cell.
pub open spec fn cell_key(x: (usize, usize)) -> int {
    8 * x.0 + x.1
}

proof fn lemma_rows_queens_shape(b: Seq<Seq<u8>>, i: int)
    requires
        board_wf(b),
        0 <= i <= 8,
    ensures
        forall|p: int|
            0 <= p < rows_queens(b, i).len() ==> (#[trigger] rows_queens(b, i)[p]).0 < i
                && is_queen_cell(b, rows_queens(b, i)[p]),
        forall|p: int, q: int|
            0 <= p < q < rows_queens(b, i).len() ==> cell_key(#[trigger] rows_queens(b, i)[p])
                < cell_key(#[trigger] rows_queens(b, i)[q]),
        forall|x: (usize, usize)|
            x.0 < i && is_queen_cell(b, x) ==> #[trigger] rows_queens(b, i).contains(x),
    decreases i,
{
    if i > 0 {
        lemma_rows_queens_shape(b, i - 1);
        lemma_row_queens_shape(b, i - 1, 8);
        let s = rows_queens(b, i - 1);
        let t = row_queens(b, i - 1, 8);
        let u = s + t;
        assert(u == rows_queens(b, i));
        assert forall|p: int, q: int| 0 <= p < q < u.len() implies cell_key(#[trigger] u[p])
            < cell_key(#[trigger] u[q]) by {
            if q < s.len() {
            } else if p < s.len() {
                assert(u[q] == t[q - s.len()]);
            } else {
                assert(u[q] == t[q - s.len()]);
                assert(u[p] == t[p - s.len()]);
            }
        }
        assert forall|x: (usize, usize)| x.0 < i && is_queen_cell(b, x) implies #[trigger] u.contains(x) by {
            if x.0 < i - 1 {
                assert(s.contains(x));
                let w = choose|w: int| 0 <= w < s.len() && s[w] == x;
                assert(u[w] == x);
            } else {
                let c = x.1 as int;
                assert(b[i - 1][c] == 1);
                assert(t.contains(((i - 1) as usize, c as usize)));
                assert(x == ((i - 1) as usize, c as usize));
                let w = choose|w: int| 0 <= w < t.len() && t[w] == x;
                assert(u[s.len() + w] == x);
            }
        }
    }
}

/// The queens in reading order are exactly the queen cells, each listed once.
pub proof fn lemma_queen_cells_exact(b: Seq<Seq<u8>>)
    requires
        board_wf(b),
    ensures
        queen_cells(b).no_duplicates(),
        forall|x: (usize, usize)| #[trigger] queen_cells(b).contains(x) <==> is_queen_cell(b, x),
{
    lemma_rows_queens_shape(b, 8);
    let s = queen_cells(b);
    assert forall|p: int, q: int| 0 <= p < s.len() && 0 <= q < s.len() && p != q implies s[p]
        != s[q] by {
        if p < q {
            assert(cell_key(s[p]) < cell_key(s[q]));
        } else {
            assert(cell_key(s[q]) < cell_key(s[p]));
        }
    }
}

proof fn lemma_row_has_column_queen(b: Seq<Seq<u8>>, r: int, c: int, j: int)
    requires
        board_wf(b),
        0 <= r < 8,
        0 <= c < 8,
        0 <= j <= 8,
    ensures
        row_queens(b, r, j).len() >= if c < j && b[r][c] == 1 { 1int } else { 0 },
    decreases j,
{
    if j > 0 {
        lemma_row_has_column_queen(b, r, c, j - 1);
    }
}

proof fn lemma_rows_cover_column(b: Seq<Seq<u8>>, c: int, i: int)
    requires
        board_wf(b),
        0 <= c < 8,
        0 <= i <= 8,
    ensures
        rows_queens(b, i).len() >= column_queens(b, c, i),
    decreases i,
{
    if i > 0 {
        lemma_rows_cover_column(b, c, i - 1);
        lemma_row_has_column_queen(b, i - 1, c, 8);
    }
}

/// The board holds at least as many queens as any one of its columns.
pub proof fn lemma_queen_count_ge_column(b: Seq<Seq<u8>>, c: int)
    requires
        board_wf(b),
        0 <= c < 8,
    ensures
        queen_count(b) >= column_queens(b, c, 8),
{
    lemma_rows_cover_column(b, c, 8);
}

/// A column with no empty cell on a binary board holds eight queens.
pub proof fn lemma_full_column(b: Seq<Seq<u8>>, c: int, i: int)
    requires
        board_wf(b),
        0 <= c < 8,
        0 <= i <= 8,
        forall|r: int| 0 <= r < 8 ==> #[trigger] b[r][c] == 1,
    ensures
        column_queens(b, c, i) == i,
    decreases i,
{
    if i > 0 {
        lemma_full_column(b, c, i - 1);
    }
}

/// Sum of the queens of the columns below `k`, counted in the rows below `i`.
pub open spec fn columns_total(b: Seq<Seq<u8>>, i: int, k: int) -> nat
    decreases k,
{
    if k <= 0 {
        0
    } else {
        columns_total(b, i, k - 1) + column_queens(b, k - 1, i)
    }
}

proof fn lemma_columns_total_step(b: Seq<Seq<u8>>, i: int, k: int)
    requires
        board_wf(b),
        1 <= i <= 8,
        0 <= k <= 8,
    ensures
        columns_total(b, i, k) == columns_total(b, i - 1, k) + row_queens(b, i - 1, k).len(),
    decreases k,
{
    if k > 0 {
        lemma_columns_total_step(b, i, k - 1);
    }
}

proof fn lemma_rows_equal_columns(b: Seq<Seq<u8>>, i: int)
    requires
        board_wf(b),
        0 <= i <= 8,
    ensures
        rows_queens(b, i).len() == columns_total(b, i, 8),
    decreases i,
{
    if i > 0 {
        lemma_rows_equal_columns(b, i - 1);
        lemma_columns_total_step(b, i, 8);
    } else {
        lemma_columns_total_zero(b, 8);
    }
}

proof fn lemma_columns_total_zero(b: Seq<Seq<u8>>, k: int)
    requires
        0 <= k,
    ensures
        columns_total(b, 0, k) == 0,
    decreases k,
{
    if k > 0 {
        lemma_columns_total_zero(b, k - 1);
    }
}

proof fn lemma_columns_total_ones(b: Seq<Seq<u8>>, k: int)
    requires
        one_queen_per_column(b),
        0 <= k <= 8,
    ensures
        columns_total(b, 8, k) == k,
    decreases k,
{
    if k > 0 {
        lemma_columns_total_ones(b, k - 1);
    }
}

/// Law: a board with one queen per column holds eight queens.
pub proof fn lemma_one_per_column_count(b: Seq<Seq<u8>>)
    requires
        one_queen_per_column(b),
    ensures
        queen_count(b) == 8,
{
    lemma_rows_equal_columns(b, 8);
    lemma_columns_total_ones(b, 8);
}

} // verus!

verus! {

/// Writing a cell of one column leaves the queen count of the other columns.
pub proof fn lemma_column_queens_set_other(b: Seq<Seq<u8>>, r: int, c: int, v: u8, c2: int, i: int)
    requires
        board_wf(b),
        0 <= r < 8,
        0 <= c < 8,
        0 <= c2 < 8,
        c2 != c,
        0 <= i <= 8,
    ensures
        column_queens(set_cell(b, r, c, v), c2, i) == column_queens(b, c2, i),
    decreases i,
{
    if i > 0 {
        lemma_column_queens_set_other(b, r, c, v, c2, i - 1);
    }
}

/// Writing a cell changes the queen count of its column by what the cell
/// loses and gains.
pub proof fn lemma_column_queens_set_same(b: Seq<Seq<u8>>, r: int, c: int, v: u8, i: int)
    requires
        board_wf(b),
        0 <= r < 8,
        0 <= c < 8,
        0 <= i <= 8,
    ensures
        column_queens(set_cell(b, r, c, v), c, i) + (if r < i && b[r][c] == 1 { 1int } else { 0 })
            == column_queens(b, c, i) + (if r < i && v == 1 { 1int } else { 0 }),
    decreases i,
{
    if i > 0 {
        lemma_column_queens_set_same(b, r, c, v, i - 1);
    }
}

proof fn lemma_columns_total_at_most(b: Seq<Seq<u8>>, k: int)
    requires
        0 <= k <= 8,
        forall|c: int| 0 <= c < 8 ==> #[trigger] column_queens(b, c, 8) <= 1,
    ensures
        columns_total(b, 8, k) <= k,
    decreases k,
{
    if k > 0 {
        lemma_columns_total_at_most(b, k - 1);
    }
}

/// A board with at most one queen per column holds at most eight queens.
pub proof fn lemma_at_most_one_per_column_count(b: Seq<Seq<u8>>)
    requires
        board_wf(b),
        forall|c: int| 0 <= c < 8 ==> #[trigger] column_queens(b, c, 8) <= 1,
    ensures
        queen_count(b) <= 8,
{
    lemma_rows_equal_columns(b, 8);
    lemma_columns_total_at_most(b, 8);
}

} // verus!

verus! {

/// The first row at or below `r` holding a queen in column `c`; 8 if none.
pub open spec fn topmost_from(b: Seq<Seq<u8>>, c: int, r: int) -> int
    decreases 8 - r,
{
    if r >= 8 {
        8
    } else if b[r][c] == 1 {
        r
    } else {
        topmost_from(b, c, r + 1)
    }
}

/// The row of the topmost queen of column `c`; 8 if the column is empty.
pub open spec fn topmost_queen_row(b: Seq<Seq<u8>>, c: int) -> int {
    topmost_from(b, c, 0)
}

/// The topmost queen of column `c` lifted and put down on (`r2`, `c2`), when
/// the column has a queen and that cell is empty once the queen is lifted;
/// otherwise the board as it is.
pub open spec fn moved_topmost(b: Seq<Seq<u8>>, c: int, r2: int, c2: int) -> Seq<Seq<u8>> {
    let r = topmost_queen_row(b, c);
    if r < 8 && set_cell(b, r, c, 0)[r2][c2] == 0 {
        set_cell(set_cell(b, r, c, 0), r2, c2, 1)
    } else {
        b
    }
}

/// No queen above row `k` in column `c`: the topmost queen is found from `k`.
pub proof fn lemma_topmost_skip(b: Seq<Seq<u8>>, c: int, k: int)
    requires
        0 <= k <= 8,
        forall|r: int| 0 <= r < k ==> #[trigger] b[r][c] != 1,
    ensures
        topmost_from(b, c, 0) == topmost_from(b, c, k),
    decreases k,
{
    if k > 0 {
        lemma_topmost_skip(b, c, k - 1);
    }
}

} // verus!

verus! {

/// Two queens on different rows of column `c` count twice in that column.
pub proof fn lemma_column_two_queens(b: Seq<Seq<u8>>, c: int, r1: int, r2: int, i: int)
    requires
        0 <= r1 < r2 < i <= 8,
        b[r1][c] == 1,
        b[r2][c] == 1,
    ensures
        column_queens(b, c, i) >= 2,
    decreases i,
{
    if i - 1 > r2 {
        lemma_column_two_queens(b, c, r1, r2, i - 1);
    } else {
        lemma_column_has_queen(b, c, r1, r2);
    }
}

/// A queen on row `r` of column `c` counts in that column.
pub proof fn lemma_column_has_queen(b: Seq<Seq<u8>>, c: int, r: int, i: int)
    requires
        0 <= r < i <= 8,
        b[r][c] == 1,
    ensures
        column_queens(b, c, i) >= 1,
    decreases i,
{
    if i - 1 > r {
        lemma_column_has_queen(b, c, r, i - 1);
    }
}

} // verus!
