//! Mirror symmetry of the attack count: turning a board upside down, or
//! reading each row from right to left, keeps its number of attacking pairs.
//!
//! The count along the reading order is first turned into a count of
//! ordered pairs of distinct queen cells, summed over the cells of the board;
//! a mirror then only renumbers rows or columns in that sum.

use vstd::prelude::*;
use crate::board::{
    attack_pairs, attacks, attacks_after, attacks_upto, board_attacks, board_wf,
    lemma_queen_cells_exact, queen_cells, row_queens, rows_queens,
};

verus! {

/// `f(0) + ... + f(n - 1)`.
pub open spec fn total(n: int, f: spec_fn(int) -> nat) -> nat
    decreases n,
{
    if n <= 0 {
        0
    } else {
        total(n - 1, f) + f(n - 1)
    }
}

/// `f` read backwards over `0..n`.
pub open spec fn reversed(f: spec_fn(int) -> nat, n: int) -> spec_fn(int) -> nat {
    |k: int| f(n - 1 - k)
}

/// `f` read from `n` on.
pub open spec fn shifted(f: spec_fn(int) -> nat, n: int) -> spec_fn(int) -> nat {
    |k: int| f(n + k)
}

/// `f` and `g` added pointwise.
pub open spec fn plus(f: spec_fn(int) -> nat, g: spec_fn(int) -> nat) -> spec_fn(int) -> nat {
    |k: int| f(k) + g(k)
}

/// Row `i` of a two-argument function.
pub open spec fn row_of(f: spec_fn(int, int) -> nat, i: int) -> spec_fn(int) -> nat {
    |j: int| f(i, j)
}

/// Column `j` of a two-argument function.
pub open spec fn column_of(f: spec_fn(int, int) -> nat, j: int) -> spec_fn(int) -> nat {
    |i: int| f(i, j)
}

/// The sums of the rows of `f`, each over `0..m`.
pub open spec fn row_totals(f: spec_fn(int, int) -> nat, m: int) -> spec_fn(int) -> nat {
    |i: int| total(m, row_of(f, i))
}

/// The sums of the columns of `f`, each over `0..n`.
pub open spec fn column_totals(f: spec_fn(int, int) -> nat, n: int) -> spec_fn(int) -> nat {
    |j: int| total(n, column_of(f, j))
}

proof fn lemma_total_ext(n: int, f: spec_fn(int) -> nat, g: spec_fn(int) -> nat)
    requires
        forall|k: int| 0 <= k < n ==> #[trigger] f(k) == g(k),
    ensures
        total(n, f) == total(n, g),
    decreases n,
{
    if n > 0 {
        lemma_total_ext(n - 1, f, g);
    }
}

proof fn lemma_total_zero(n: int, f: spec_fn(int) -> nat)
    requires
        forall|k: int| 0 <= k < n ==> #[trigger] f(k) == 0,
    ensures
        total(n, f) == 0,
    decreases n,
{
    if n > 0 {
        lemma_total_zero(n - 1, f);
    }
}

proof fn lemma_total_plus(n: int, f: spec_fn(int) -> nat, g: spec_fn(int) -> nat)
    ensures
        total(n, plus(f, g)) == total(n, f) + total(n, g),
    decreases n,
{
    if n > 0 {
        lemma_total_plus(n - 1, f, g);
    }
}

proof fn lemma_total_split(n: int, m: int, f: spec_fn(int) -> nat)
    requires
        0 <= n,
        0 <= m,
    ensures
        total(n + m, f) == total(n, f) + total(m, shifted(f, n)),
    decreases m,
{
    if m > 0 {
        lemma_total_split(n, m - 1, f);
    }
}

proof fn lemma_total_reverse(n: int, f: spec_fn(int) -> nat)
    requires
        0 <= n,
    ensures
        total(n, f) == total(n, reversed(f, n)),
    decreases n,
{
    if n > 0 {
        let g = reversed(f, n);
        lemma_total_reverse(n - 1, f);
        lemma_total_split(1, n - 1, g);
        lemma_total_ext(n - 1, shifted(g, 1), reversed(f, n - 1));
        assert(total(0, g) == 0);
        assert(g(0) == f(n - 1));
    }
}

/// Summing a rectangle by rows or by columns gives the same.
proof fn lemma_total_swap(n: int, m: int, f: spec_fn(int, int) -> nat)
    requires
        0 <= n,
        0 <= m,
    ensures
        total(n, row_totals(f, m)) == total(m, column_totals(f, n)),
    decreases n,
{
    if n == 0 {
        lemma_total_zero(m, column_totals(f, 0));
    } else {
        lemma_total_swap(n - 1, m, f);
        lemma_total_ext(m, column_totals(f, n), plus(column_totals(f, n - 1), row_of(f, n - 1)));
        lemma_total_plus(m, column_totals(f, n - 1), row_of(f, n - 1));
    }
}

/// 1 where `ps[a]` and the later queen `ps[j]` attack each other.
pub open spec fn later_attack(ps: Seq<(usize, usize)>, a: int) -> spec_fn(int) -> nat {
    |j: int| if a < j && attacks(ps[a], ps[j]) { 1nat } else { 0nat }
}

/// 1 where `ps[a]` and another queen `ps[j]` attack each other.
pub open spec fn other_attack(ps: Seq<(usize, usize)>, a: int) -> spec_fn(int) -> nat {
    |j: int| if a != j && attacks(ps[a], ps[j]) { 1nat } else { 0nat }
}

/// 1 where `ps[a]` and the earlier queen `ps[j]` attack each other.
pub open spec fn earlier_pairs(ps: Seq<(usize, usize)>) -> spec_fn(int, int) -> nat {
    |a: int, j: int| if j < a && attacks(ps[a], ps[j]) { 1nat } else { 0nat }
}

/// For each queen, the later queens that attack it.
pub open spec fn after_counts(ps: Seq<(usize, usize)>) -> spec_fn(int) -> nat {
    |a: int| attacks_after(ps, a, ps.len() as int)
}

/// For each queen, the other queens that attack it.
pub open spec fn ordered_counts(ps: Seq<(usize, usize)>) -> spec_fn(int) -> nat {
    |a: int| total(ps.len() as int, other_attack(ps, a))
}

proof fn lemma_attacks_after_total(ps: Seq<(usize, usize)>, a: int, m: int)
    requires
        0 <= a,
        0 <= m,
    ensures
        attacks_after(ps, a, m) == total(m, later_attack(ps, a)),
    decreases m,
{
    if m > 0 {
        lemma_attacks_after_total(ps, a, m - 1);
    }
}

proof fn lemma_attacks_upto_total(ps: Seq<(usize, usize)>, m: int)
    requires
        0 <= m,
    ensures
        attacks_upto(ps, m) == total(m, after_counts(ps)),
    decreases m,
{
    if m > 0 {
        lemma_attacks_upto_total(ps, m - 1);
    }
}

/// Counting, for every queen, the other queens that attack it counts every
/// attacking pair twice.
proof fn lemma_ordered_pairs(ps: Seq<(usize, usize)>)
    ensures
        total(ps.len() as int, ordered_counts(ps)) == 2 * attack_pairs(ps),
{
    let n = ps.len() as int;
    let e = earlier_pairs(ps);
    assert forall|a: int| 0 <= a < n implies #[trigger] ordered_counts(ps)(a) == plus(
        after_counts(ps),
        row_totals(e, n),
    )(a) by {
        lemma_total_ext(n, other_attack(ps, a), plus(later_attack(ps, a), row_of(e, a)));
        lemma_total_plus(n, later_attack(ps, a), row_of(e, a));
        lemma_attacks_after_total(ps, a, n);
    }
    lemma_total_ext(n, ordered_counts(ps), plus(after_counts(ps), row_totals(e, n)));
    lemma_total_plus(n, after_counts(ps), row_totals(e, n));
    lemma_total_swap(n, n, e);
    assert forall|j: int| 0 <= j < n implies #[trigger] column_totals(e, n)(j) == after_counts(ps)(j) by {
        lemma_total_ext(n, column_of(e, j), later_attack(ps, j));
        lemma_attacks_after_total(ps, j, n);
    }
    lemma_total_ext(n, column_totals(e, n), after_counts(ps));
    lemma_attacks_upto_total(ps, n);
}

/// `g` applied to the entries of `s`.
pub open spec fn over(s: Seq<(usize, usize)>, g: spec_fn((usize, usize)) -> nat) -> spec_fn(int) -> nat {
    |a: int| g(s[a])
}

/// Along row `r`: `g` of each cell that holds a queen, 0 elsewhere.
pub open spec fn queen_term(b: Seq<Seq<u8>>, g: spec_fn((usize, usize)) -> nat, r: int) -> spec_fn(
    int,
) -> nat {
    |c: int| if b[r][c] == 1 { g((r as usize, c as usize)) } else { 0nat }
}

/// For each row, the sum of `g` over its queens.
pub open spec fn row_queen_totals(b: Seq<Seq<u8>>, g: spec_fn((usize, usize)) -> nat) -> spec_fn(
    int,
) -> nat {
    |r: int| total(8, queen_term(b, g, r))
}

/// The sum of `g` over the queens of the board, row by row.
pub open spec fn over_queens(b: Seq<Seq<u8>>, g: spec_fn((usize, usize)) -> nat) -> nat {
    total(8, row_queen_totals(b, g))
}

/// 1 where a queen on `q` other than `p` attacks `p`.
pub open spec fn attacked_by(p: (usize, usize)) -> spec_fn((usize, usize)) -> nat {
    |q: (usize, usize)| if p != q && attacks(p, q) { 1nat } else { 0nat }
}

/// For each cell, the number of queens of the board, other than itself,
/// that attack it.
pub open spec fn attackers(b: Seq<Seq<u8>>) -> spec_fn((usize, usize)) -> nat {
    |p: (usize, usize)| over_queens(b, attacked_by(p))
}

/// The ordered pairs of distinct queens of the board that attack each other.
pub open spec fn ordered_attacks(b: Seq<Seq<u8>>) -> nat {
    over_queens(b, attackers(b))
}

proof fn lemma_row_queens_total(b: Seq<Seq<u8>>, g: spec_fn((usize, usize)) -> nat, r: int, j: int)
    requires
        0 <= j <= 8,
        0 <= r < 8,
    ensures
        total(row_queens(b, r, j).len() as int, over(row_queens(b, r, j), g)) == total(
            j,
            queen_term(b, g, r),
        ),
    decreases j,
{
    if j > 0 {
        lemma_row_queens_total(b, g, r, j - 1);
        let s = row_queens(b, r, j - 1);
        if b[r][j - 1] == 1 {
            let t = s.push((r as usize, (j - 1) as usize));
            lemma_total_ext(s.len() as int, over(t, g), over(s, g));
        }
    }
}

proof fn lemma_rows_queens_total(b: Seq<Seq<u8>>, g: spec_fn((usize, usize)) -> nat, i: int)
    requires
        0 <= i <= 8,
    ensures
        total(rows_queens(b, i).len() as int, over(rows_queens(b, i), g)) == total(
            i,
            row_queen_totals(b, g),
        ),
    decreases i,
{
    if i > 0 {
        lemma_rows_queens_total(b, g, i - 1);
        lemma_row_queens_total(b, g, i - 1, 8);
        let s = rows_queens(b, i - 1);
        let t = row_queens(b, i - 1, 8);
        let u = s + t;
        assert(rows_queens(b, i) == u);
        lemma_total_split(s.len() as int, t.len() as int, over(u, g));
        lemma_total_ext(s.len() as int, over(u, g), over(s, g));
        lemma_total_ext(t.len() as int, shifted(over(u, g), s.len() as int), over(t, g));
    }
}

/// Summed over the cells, the ordered attacking pairs are twice the
/// attacking pairs counted along the reading order.
proof fn lemma_ordered_attacks(b: Seq<Seq<u8>>)
    requires
        board_wf(b),
    ensures
        ordered_attacks(b) == 2 * board_attacks(b),
{
    let ps = queen_cells(b);
    let n = ps.len() as int;
    lemma_queen_cells_exact(b);
    lemma_ordered_pairs(ps);
    assert forall|a: int| 0 <= a < n implies #[trigger] ordered_counts(ps)(a) == over(
        ps,
        attackers(b),
    )(a) by {
        assert forall|j: int| 0 <= j < n implies #[trigger] other_attack(ps, a)(j) == over(
            ps,
            attacked_by(ps[a]),
        )(j) by {
            if a != j {
                assert(ps[a] != ps[j]);
            }
        }
        lemma_total_ext(n, other_attack(ps, a), over(ps, attacked_by(ps[a])));
        lemma_rows_queens_total(b, attacked_by(ps[a]), 8);
    }
    lemma_total_ext(n, ordered_counts(ps), over(ps, attackers(b)));
    lemma_rows_queens_total(b, attackers(b), 8);
}

/// The board upside down: its row `r` is row `7 - r` of `b`.
pub open spec fn flipped_rows(b: Seq<Seq<u8>>) -> Seq<Seq<u8>> {
    Seq::new(8, |r: int| b[7 - r])
}

/// The board with each row read from right to left: its column `c` is
/// column `7 - c` of `b`.
pub open spec fn flipped_columns(b: Seq<Seq<u8>>) -> Seq<Seq<u8>> {
    Seq::new(8, |r: int| Seq::new(8, |c: int| b[r][7 - c]))
}

/// The cell that turning the board upside down sends `p` to.
pub open spec fn row_mirror(p: (usize, usize)) -> (usize, usize) {
    ((7 - p.0) as usize, p.1)
}

/// The cell that reversing the rows sends `p` to.
pub open spec fn column_mirror(p: (usize, usize)) -> (usize, usize) {
    (p.0, (7 - p.1) as usize)
}

/// `g` of the upside-down cell.
pub open spec fn through_row_mirror(g: spec_fn((usize, usize)) -> nat) -> spec_fn((usize, usize)) -> nat {
    |p: (usize, usize)| g(row_mirror(p))
}

/// `g` of the right-to-left cell.
pub open spec fn through_column_mirror(g: spec_fn((usize, usize)) -> nat) -> spec_fn(
    (usize, usize),
) -> nat {
    |p: (usize, usize)| g(column_mirror(p))
}

proof fn lemma_over_queens_ext(
    b: Seq<Seq<u8>>,
    g1: spec_fn((usize, usize)) -> nat,
    g2: spec_fn((usize, usize)) -> nat,
)
    requires
        forall|r: int, c: int|
            0 <= r < 8 && 0 <= c < 8 && b[r][c] == 1 ==> #[trigger] g1((r as usize, c as usize))
                == g2((r as usize, c as usize)),
    ensures
        over_queens(b, g1) == over_queens(b, g2),
{
    assert forall|r: int| 0 <= r < 8 implies #[trigger] row_queen_totals(b, g1)(r)
        == row_queen_totals(b, g2)(r) by {
        assert forall|c: int| 0 <= c < 8 implies #[trigger] queen_term(b, g1, r)(c) == queen_term(
            b,
            g2,
            r,
        )(c) by {
            if b[r][c] == 1 {
                assert(g1((r as usize, c as usize)) == g2((r as usize, c as usize)));
            }
        }
        lemma_total_ext(8, queen_term(b, g1, r), queen_term(b, g2, r));
    }
    lemma_total_ext(8, row_queen_totals(b, g1), row_queen_totals(b, g2));
}

proof fn lemma_over_queens_flip_rows(b: Seq<Seq<u8>>, g: spec_fn((usize, usize)) -> nat)
    requires
        board_wf(b),
    ensures
        over_queens(flipped_rows(b), g) == over_queens(b, through_row_mirror(g)),
{
    let fb = flipped_rows(b);
    lemma_total_reverse(8, row_queen_totals(fb, g));
    assert forall|r: int| 0 <= r < 8 implies #[trigger] reversed(row_queen_totals(fb, g), 8)(r)
        == row_queen_totals(b, through_row_mirror(g))(r) by {
        assert forall|c: int| 0 <= c < 8 implies #[trigger] queen_term(fb, g, 7 - r)(c)
            == queen_term(b, through_row_mirror(g), r)(c) by {
            assert(fb[7 - r] == b[r]);
            assert(row_mirror((r as usize, c as usize)) == ((7 - r) as usize, c as usize));
        }
        lemma_total_ext(8, queen_term(fb, g, 7 - r), queen_term(b, through_row_mirror(g), r));
    }
    lemma_total_ext(
        8,
        reversed(row_queen_totals(fb, g), 8),
        row_queen_totals(b, through_row_mirror(g)),
    );
}

proof fn lemma_over_queens_flip_columns(b: Seq<Seq<u8>>, g: spec_fn((usize, usize)) -> nat)
    requires
        board_wf(b),
    ensures
        over_queens(flipped_columns(b), g) == over_queens(b, through_column_mirror(g)),
{
    let fb = flipped_columns(b);
    assert forall|r: int| 0 <= r < 8 implies #[trigger] row_queen_totals(fb, g)(r)
        == row_queen_totals(b, through_column_mirror(g))(r) by {
        lemma_total_reverse(8, queen_term(fb, g, r));
        assert forall|c: int| 0 <= c < 8 implies #[trigger] reversed(queen_term(fb, g, r), 8)(c)
            == queen_term(b, through_column_mirror(g), r)(c) by {
            assert(fb[r][7 - c] == b[r][c]);
            assert(column_mirror((r as usize, c as usize)) == (r as usize, (7 - c) as usize));
        }
        lemma_total_ext(8, reversed(queen_term(fb, g, r), 8), queen_term(b, through_column_mirror(g), r));
    }
    lemma_total_ext(8, row_queen_totals(fb, g), row_queen_totals(b, through_column_mirror(g)));
}

/// Law: turning a board upside down, or reading each of its rows from right
/// to left, keeps its number of attacking pairs (rows stay rows, and the
/// distance between two rows equals that between two columns exactly when it
/// did before).
pub proof fn lemma_mirror_keeps_attacks(b: Seq<Seq<u8>>)
    requires
        board_wf(b),
    ensures
        board_attacks(flipped_rows(b)) == board_attacks(b),
        board_attacks(flipped_columns(b)) == board_attacks(b),
{
    let fr = flipped_rows(b);
    let fc = flipped_columns(b);
    assert(board_wf(fr));
    assert(board_wf(fc));
    lemma_ordered_attacks(b);
    lemma_ordered_attacks(fr);
    lemma_ordered_attacks(fc);
    // upside down
    lemma_over_queens_flip_rows(b, attackers(fr));
    assert forall|r: int, c: int|
        0 <= r < 8 && 0 <= c < 8 && b[r][c] == 1 implies #[trigger] through_row_mirror(
        attackers(fr),
    )((r as usize, c as usize)) == attackers(b)((r as usize, c as usize)) by {
        let p = (r as usize, c as usize);
        lemma_over_queens_flip_rows(b, attacked_by(row_mirror(p)));
        assert forall|r2: int, c2: int| 0 <= r2 < 8 && 0 <= c2 < 8 && b[r2][c2] == 1 implies #[trigger] through_row_mirror(
            attacked_by(row_mirror(p)),
        )((r2 as usize, c2 as usize)) == attacked_by(p)((r2 as usize, c2 as usize)) by {
            let q = (r2 as usize, c2 as usize);
            assert(row_mirror(q) == ((7 - r2) as usize, c2 as usize));
            assert(row_mirror(p) == ((7 - r) as usize, c as usize));
        }
        lemma_over_queens_ext(b, through_row_mirror(attacked_by(row_mirror(p))), attacked_by(p));
    }
    lemma_over_queens_ext(b, through_row_mirror(attackers(fr)), attackers(b));
    // right to left
    lemma_over_queens_flip_columns(b, attackers(fc));
    assert forall|r: int, c: int|
        0 <= r < 8 && 0 <= c < 8 && b[r][c] == 1 implies #[trigger] through_column_mirror(
        attackers(fc),
    )((r as usize, c as usize)) == attackers(b)((r as usize, c as usize)) by {
        let p = (r as usize, c as usize);
        lemma_over_queens_flip_columns(b, attacked_by(column_mirror(p)));
        assert forall|r2: int, c2: int| 0 <= r2 < 8 && 0 <= c2 < 8 && b[r2][c2] == 1 implies #[trigger] through_column_mirror(
            attacked_by(column_mirror(p)),
        )((r2 as usize, c2 as usize)) == attacked_by(p)((r2 as usize, c2 as usize)) by {
            let q = (r2 as usize, c2 as usize);
            assert(column_mirror(q) == (r2 as usize, (7 - c2) as usize));
            assert(column_mirror(p) == (r as usize, (7 - c) as usize));
        }
        lemma_over_queens_ext(b, through_column_mirror(attacked_by(column_mirror(p))), attacked_by(p));
    }
    lemma_over_queens_ext(b, through_column_mirror(attackers(fc)), attackers(b));
}

} // verus!
