//! Depth-first backtracking search. The search is modelled by the spec
//! functions `search` and `try_digits`, which follow the same order as the
//! executable solver: the first empty cell in row-major order, and the
//! digits at that cell in ascending order.
use vstd::prelude::*;
use vstd::set_lib::{lemma_int_range, lemma_len_subset, set_int_range};
use crate::grid::{
    box_start, box_values, cell, col_values, each_digit_once, first_empty, is_full, is_grid,
    is_valid, lemma_first_empty, locate, occurs_once, placeable, row_values, SIZE,
};

verus! {

/// Every filled cell holds a digit that no other cell of its row, column
/// or box repeats.
pub open spec fn consistent(g: Seq<usize>) -> bool {
    forall|r: int, c: int|
        0 <= r < 9 && 0 <= c < 9 && #[trigger] cell(g, r, c) != 0 ==> placeable(
            g,
            r,
            c,
            cell(g, r, c),
        )
}

/// A completed Sudoku: no empty cell, and no digit repeated in any row,
/// column or box.
pub open spec fn is_solved(g: Seq<usize>) -> bool {
    is_grid(g) && is_full(g) && consistent(g)
}

/// `s` keeps every filled cell of `g`.
pub open spec fn extends(g: Seq<usize>, s: Seq<usize>) -> bool {
    &&& s.len() == g.len()
    &&& forall|k: int| 0 <= k < g.len() && #[trigger] g[k] != 0 ==> s[k] == g[k]
}

/// Some completed Sudoku keeps every filled cell of `g`.
pub open spec fn has_solution(g: Seq<usize>) -> bool {
    exists|s: Seq<usize>| is_solved(s) && extends(g, s)
}

/// Number of empty cells.
pub open spec fn empty_count(g: Seq<usize>) -> nat
    decreases g.len(),
{
    if g.len() == 0 {
        0
    } else {
        empty_count(g.drop_last()) + if g.last() == 0 {
            1nat
        } else {
            0nat
        }
    }
}

/// Filling an empty cell with a digit leaves one empty cell fewer.
pub proof fn lemma_fill_one(g: Seq<usize>, k: int, d: usize)
    requires
        0 <= k < g.len(),
        g[k] == 0,
        d != 0,
    ensures
        empty_count(g.update(k, d)) + 1 == empty_count(g),
    decreases g.len(),
{
    let u = g.update(k, d);
    if k == g.len() - 1 {
        assert(u.drop_last() =~= g.drop_last());
    } else {
        assert(u.drop_last() =~= g.drop_last().update(k, d));
        lemma_fill_one(g.drop_last(), k, d);
    }
}

/// `a` and `b` (both in 0..9) lie in the same band of three.
pub proof fn lemma_same_band(a: int, b: int)
    requires
        0 <= a < 9,
        0 <= b < 9,
    ensures
        (3 * (a / 3) <= b < 3 * (a / 3) + 3) <==> (a / 3 == b / 3),
{
}

/// Writing a digit that `placeable` allows into an empty cell keeps the
/// grid consistent.
pub proof fn lemma_place_consistent(g: Seq<usize>, r: int, c: int, d: usize)
    requires
        is_grid(g),
        consistent(g),
        0 <= r < 9,
        0 <= c < 9,
        cell(g, r, c) == 0,
        1 <= d <= 9,
        placeable(g, r, c, d),
    ensures
        is_grid(g.update(9 * r + c, d)),
        consistent(g.update(9 * r + c, d)),
{
    let u = g.update(9 * r + c, d);
    assert forall|i: int, j: int| 0 <= i < 9 && 0 <= j < 9 && (i != r || j != c) implies #[trigger] cell(
        u,
        i,
        j,
    ) == cell(g, i, j) by {
        assert(9 * i + j != 9 * r + c);
    }
    assert forall|r2: int, c2: int| 0 <= r2 < 9 && 0 <= c2 < 9 && #[trigger] cell(u, r2, c2) != 0 implies placeable(
        u,
        r2,
        c2,
        cell(u, r2, c2),
    ) by {
        lemma_same_band(r, r2);
        lemma_same_band(c, c2);
        if r2 == r && c2 == c {
            assert(cell(u, r, c) == d);
        } else {
            let v = cell(g, r2, c2);
            assert(cell(u, r2, c2) == v);
            assert(placeable(g, r2, c2, v));
            assert forall|i: int, j: int|
                box_start(r2) <= i < box_start(r2) + 3 && box_start(c2) <= j < box_start(c2) + 3
                    && (i != r2 || j != c2) implies #[trigger] cell(u, i, j) != v by {
                lemma_same_band(r2, i);
                lemma_same_band(c2, j);
                lemma_same_band(r, i);
                lemma_same_band(c, j);
            }
        }
    }
}

/// The backtracking search with at most `fuel` nested placements: the grid
/// itself when no cell is empty, else the first result that trying the
/// digits 1..=9 in turn at the first empty cell yields.
pub open spec fn search(g: Seq<usize>, fuel: nat) -> Option<Seq<usize>>
    decreases fuel, 10int,
{
    match first_empty(g) {
        None => Some(g),
        Some(k) => try_digits(g, k, 1, fuel),
    }
}

/// The search at the empty cell with index `k`, trying digit `d` and then
/// the larger ones: a digit is skipped where `placeable` forbids it or
/// where the search below it finds nothing.
pub open spec fn try_digits(g: Seq<usize>, k: int, d: usize, fuel: nat) -> Option<Seq<usize>>
    decreases fuel, 10 - d,
{
    if d > 9 || fuel == 0 {
        None
    } else {
        let below = if placeable(g, k / 9, k % 9, d) {
            search(g.update(k, d), (fuel - 1) as nat)
        } else {
            None
        };
        if below is Some {
            below
        } else {
            try_digits(g, k, (d + 1) as usize, fuel)
        }
    }
}

/// The completed grid that the solver produces from `g`, if any: the search
/// with as many nested placements as `g` has empty cells.
pub open spec fn solution_of(g: Seq<usize>) -> Option<Seq<usize>> {
    search(g, empty_count(g))
}

/// Row and column of a cell index.
proof fn lemma_index(k: int)
    requires
        0 <= k < 81,
    ensures
        0 <= k / 9 < 9,
        0 <= k % 9 < 9,
        9 * (k / 9) + k % 9 == k,
{
}

/// Whatever the search returns is a completed Sudoku that keeps the given
/// cells.
pub proof fn lemma_search_sound(g: Seq<usize>, fuel: nat)
    requires
        is_grid(g),
        consistent(g),
    ensures
        search(g, fuel) matches Some(s) ==> is_solved(s) && extends(g, s),
    decreases fuel, 10int,
{
    lemma_first_empty(g);
    if let Some(k) = first_empty(g) {
        lemma_try_sound(g, k, 1, fuel);
    }
}

/// Whatever trying the digits from `d` on returns is a completed Sudoku
/// that keeps the given cells.
pub proof fn lemma_try_sound(g: Seq<usize>, k: int, d: usize, fuel: nat)
    requires
        is_grid(g),
        consistent(g),
        0 <= k < 81,
        g[k] == 0,
        1 <= d,
    ensures
        try_digits(g, k, d, fuel) matches Some(s) ==> is_solved(s) && extends(g, s),
    decreases fuel, 10 - d,
{
    if d <= 9 && fuel > 0 {
        lemma_index(k);
        if placeable(g, k / 9, k % 9, d) {
            lemma_place_consistent(g, k / 9, k % 9, d);
            let u = g.update(k, d);
            lemma_search_sound(u, (fuel - 1) as nat);
            if let Some(s) = search(u, (fuel - 1) as nat) {
                assert(extends(g, s)) by {
                    assert forall|j: int| 0 <= j < g.len() && #[trigger] g[j] != 0 implies s[j]
                        == g[j] by {
                        assert(u[j] == g[j]);
                    }
                }
            }
        }
        lemma_try_sound(g, k, (d + 1) as usize, fuel);
    }
}

/// A digit that a completed Sudoku extending `g` holds at an empty cell of
/// `g` may be placed there.
proof fn lemma_solution_digit_placeable(g: Seq<usize>, s: Seq<usize>, r: int, c: int)
    requires
        is_grid(g),
        is_solved(s),
        extends(g, s),
        0 <= r < 9,
        0 <= c < 9,
    ensures
        1 <= cell(s, r, c) <= 9,
        placeable(g, r, c, cell(s, r, c)),
{
    let d = cell(s, r, c);
    assert(s[9 * r + c] != 0);
    assert(placeable(s, r, c, d));
    assert forall|i: int, j: int| 0 <= i < 9 && 0 <= j < 9 && #[trigger] cell(g, i, j) == d
        implies cell(s, i, j) == d by {
        assert(g[9 * i + j] != 0);
    }
}

/// Where a completed Sudoku extends `g`, the search from `g` finds one.
pub proof fn lemma_search_complete(g: Seq<usize>, fuel: nat, s: Seq<usize>)
    requires
        is_grid(g),
        consistent(g),
        fuel == empty_count(g),
        is_solved(s),
        extends(g, s),
    ensures
        search(g, fuel) is Some,
    decreases fuel, 10int,
{
    lemma_first_empty(g);
    if let Some(k) = first_empty(g) {
        lemma_fill_one(g, k, 1);
        assert(s[k] != 0);
        lemma_try_complete(g, k, 1, fuel, s);
    }
}

/// Where a completed Sudoku extends `g` with a digit no smaller than `d`
/// at the empty cell `k`, trying the digits from `d` on finds one.
pub proof fn lemma_try_complete(g: Seq<usize>, k: int, d: usize, fuel: nat, s: Seq<usize>)
    requires
        is_grid(g),
        consistent(g),
        fuel == empty_count(g),
        fuel >= 1,
        0 <= k < 81,
        g[k] == 0,
        is_solved(s),
        extends(g, s),
        1 <= d <= s[k],
    ensures
        try_digits(g, k, d, fuel) is Some,
    decreases fuel, 10 - d,
{
    lemma_index(k);
    assert(s[k] <= 9);
    if d == s[k] {
        lemma_solution_digit_placeable(g, s, k / 9, k % 9);
        lemma_place_consistent(g, k / 9, k % 9, d);
        lemma_fill_one(g, k, d);
        let u = g.update(k, d);
        assert(extends(u, s)) by {
            assert forall|j: int| 0 <= j < u.len() && #[trigger] u[j] != 0 implies s[j] == u[j] by {
                if j != k {
                    assert(g[j] == u[j]);
                }
            }
        }
        lemma_search_complete(u, (fuel - 1) as nat, s);
    } else {
        lemma_try_complete(g, k, (d + 1) as usize, fuel, s);
    }
}

/// What the solver produces from a consistent grid: a completed Sudoku
/// that keeps the given cells, found exactly when one exists; a grid that
/// is already completed comes back as it is.
pub proof fn lemma_solution_of(g: Seq<usize>)
    requires
        is_grid(g),
        consistent(g),
    ensures
        (solution_of(g) is Some) == has_solution(g),
        solution_of(g) matches Some(s) ==> is_solved(s) && extends(g, s) && each_digit_once(s),
        is_solved(g) ==> solution_of(g) == Some(g),
{
    lemma_search_sound(g, empty_count(g));
    if has_solution(g) {
        let s = choose|s: Seq<usize>| is_solved(s) && extends(g, s);
        lemma_search_complete(g, empty_count(g), s);
    }
    if let Some(s) = solution_of(g) {
        assert(is_solved(s) && extends(g, s));
        lemma_solved_each_digit_once(s);
    }
    lemma_first_empty(g);
}

/// Nine distinct digits from 1..=9 hold each of them exactly once.
pub proof fn lemma_nine_distinct(s: Seq<usize>)
    requires
        s.len() == 9,
        forall|m: int| 0 <= m < 9 ==> 1 <= #[trigger] s[m] <= 9,
        forall|m1: int, m2: int| 0 <= m1 < 9 && 0 <= m2 < 9 && m1 != m2 ==> s[m1] != s[m2],
    ensures
        forall|d: usize| 1 <= d <= 9 ==> #[trigger] occurs_once(s, d),
{
    broadcast use vstd::set::group_set_axioms;

    let t = Seq::new(9, |m: int| s[m] as int);
    assert(t.no_duplicates());
    t.unique_seq_to_set();
    lemma_int_range(1, 10);
    assert forall|d: usize| 1 <= d <= 9 implies #[trigger] occurs_once(s, d) by {
        if !(exists|m: int| 0 <= m < 9 && s[m] == d) {
            let rest = set_int_range(1, 10).remove(d as int);
            assert(t.to_set().subset_of(rest)) by {
                assert forall|x: int| t.to_set().contains(x) implies rest.contains(x) by {
                    assert(t.contains(x));
                }
            }
            lemma_len_subset(t.to_set(), rest);
        }
        let m = choose|m: int| 0 <= m < 9 && s[m] == d;
        assert(0 <= m < s.len() && s[m] == d && forall|m2: int|
            0 <= m2 < s.len() && s[m2] == d ==> m2 == m);
    }
}

/// Every row, column and box of a completed Sudoku holds each digit 1..=9
/// exactly once.
pub proof fn lemma_solved_each_digit_once(g: Seq<usize>)
    requires
        is_solved(g),
    ensures
        each_digit_once(g),
{
    assert forall|i: int, d: usize| 0 <= i < 9 && 1 <= d <= 9 implies #[trigger] occurs_once(
        row_values(g, i),
        d,
    ) by {
        let s = row_values(g, i);
        assert forall|m: int| 0 <= m < 9 implies 1 <= #[trigger] s[m] <= 9 by {
            assert(g[9 * i + m] != 0 && g[9 * i + m] <= 9);
        }
        assert forall|m1: int, m2: int| 0 <= m1 < 9 && 0 <= m2 < 9 && m1 != m2 implies s[m1] != s[m2] by {
            assert(g[9 * i + m1] != 0);
            assert(placeable(g, i, m1, cell(g, i, m1)));
        }
        lemma_nine_distinct(s);
    }
    assert forall|i: int, d: usize| 0 <= i < 9 && 1 <= d <= 9 implies #[trigger] occurs_once(
        col_values(g, i),
        d,
    ) by {
        let s = col_values(g, i);
        assert forall|m: int| 0 <= m < 9 implies 1 <= #[trigger] s[m] <= 9 by {
            assert(g[9 * m + i] != 0 && g[9 * m + i] <= 9);
        }
        assert forall|m1: int, m2: int| 0 <= m1 < 9 && 0 <= m2 < 9 && m1 != m2 implies s[m1] != s[m2] by {
            assert(g[9 * m1 + i] != 0);
            assert(placeable(g, m1, i, cell(g, m1, i)));
        }
        lemma_nine_distinct(s);
    }
    assert forall|i: int, d: usize| 0 <= i < 9 && 1 <= d <= 9 implies #[trigger] occurs_once(
        box_values(g, i),
        d,
    ) by {
        let s = box_values(g, i);
        let r0 = 3 * (i / 3);
        let c0 = 3 * (i % 3);
        assert forall|m: int| 0 <= m < 9 implies 1 <= #[trigger] s[m] <= 9 by {
            let k = 9 * (r0 + m / 3) + c0 + m % 3;
            assert(0 <= k < 81);
            assert(g[k] != 0 && g[k] <= 9);
        }
        assert forall|m1: int, m2: int| 0 <= m1 < 9 && 0 <= m2 < 9 && m1 != m2 implies s[m1] != s[m2] by {
            let (r1, c1) = (r0 + m1 / 3, c0 + m1 % 3);
            let (r2, c2) = (r0 + m2 / 3, c0 + m2 % 3);
            assert(g[9 * r1 + c1] != 0);
            assert(placeable(g, r1, c1, cell(g, r1, c1)));
            assert(box_start(r1) == r0 && box_start(c1) == c0);
            assert(r1 != r2 || c1 != c2);
            assert(cell(g, r2, c2) != cell(g, r1, c1));
        }
        lemma_nine_distinct(s);
    }
}

/// The digit at `(r, c)` of a completed Sudoku built by shifting the row
/// `1 2 3 4 5 6 7 8 9` by three places from row to row within a band, and
/// by one place from band to band.
pub open spec fn shifted_digit(r: int, c: int) -> usize {
    ((3 * (r % 3) + r / 3 + c) % 9 + 1) as usize
}

/// The completed Sudoku of `shifted_digit`.
pub open spec fn shifted_grid() -> Seq<usize> {
    Seq::new(81, |k: int| shifted_digit(k / 9, k % 9))
}

/// The grid with every cell empty.
pub open spec fn empty_grid() -> Seq<usize> {
    Seq::new(81, |k: int| 0usize)
}

/// Distinct numbers less than nine apart have distinct remainders mod 9.
proof fn lemma_mod_nine(x: int, y: int)
    requires
        0 <= x < 18,
        0 <= y < 18,
        x != y,
        -9 < x - y < 9,
    ensures
        x % 9 != y % 9,
{
}

/// Two distinct cells of one row, column or box differ in `shifted_digit`.
proof fn lemma_shifted_distinct(r: int, c: int, i: int, j: int)
    requires
        0 <= r < 9,
        0 <= c < 9,
        0 <= i < 9,
        0 <= j < 9,
        r != i || c != j,
        r == i || c == j || (r / 3 == i / 3 && c / 3 == j / 3),
    ensures
        shifted_digit(r, c) != shifted_digit(i, j),
{
    let a = 3 * (r % 3) + r / 3;
    let b = 3 * (i % 3) + i / 3;
    assert(0 <= r % 3 < 3 && 0 <= r / 3 < 3 && r == 3 * (r / 3) + r % 3);
    assert(0 <= i % 3 < 3 && 0 <= i / 3 < 3 && i == 3 * (i / 3) + i % 3);
    assert(0 <= c % 3 < 3 && c == 3 * (c / 3) + c % 3);
    assert(0 <= j % 3 < 3 && j == 3 * (j / 3) + j % 3);
    assert(a + c != b + j);
    assert(-9 < (a + c) - (b + j) < 9);
    lemma_mod_nine(a + c, b + j);
}

/// `shifted_grid` is a completed Sudoku.
pub proof fn lemma_shifted_grid_solved()
    ensures
        is_solved(shifted_grid()),
{
    let s = shifted_grid();
    assert forall|r: int, c: int| 0 <= r < 9 && 0 <= c < 9 implies #[trigger] cell(s, r, c)
        == shifted_digit(r, c) by {
        lemma_index(9 * r + c);
    }
    assert forall|k: int| 0 <= k < 81 implies 1 <= #[trigger] s[k] <= 9 by {}
    assert forall|r: int, c: int| 0 <= r < 9 && 0 <= c < 9 && #[trigger] cell(s, r, c)
        != 0 implies placeable(s, r, c, cell(s, r, c)) by {
        assert forall|i: int, j: int|
            0 <= i < 9 && 0 <= j < 9 && (i != r || j != c) && (i == r || j == c || (box_start(r)
                <= i < box_start(r) + 3 && box_start(c) <= j < box_start(c) + 3)) implies cell(
                s,
                i,
                j,
            ) != cell(s, r, c) by {
            lemma_same_band(r, i);
            lemma_same_band(c, j);
            lemma_shifted_distinct(r, c, i, j);
        }
    }
}

/// The empty grid has a solution, so the solver completes it.
pub proof fn lemma_empty_grid_solvable()
    ensures
        has_solution(empty_grid()),
        solution_of(empty_grid()) is Some,
{
    let g = empty_grid();
    let s = shifted_grid();
    lemma_shifted_grid_solved();
    assert(extends(g, s));
    assert(consistent(g));
    lemma_search_complete(g, empty_count(g), s);
}

/// Solves `board` in place by depth-first search with backtracking. The
/// first empty cell in row-major order is filled with each digit that may
/// stand there, in ascending order, and the rest is solved recursively; a
/// digit whose completion fails is taken back. Returns `true` with the
/// grid that the search reached in `board`, or `false` with `board` as it
/// was. For a consistent grid of digits 0..=9 the result is `true` exactly
/// when some completed Sudoku keeps its filled cells, and the grid reached
/// is then such a Sudoku.
pub fn solve_board(board: &mut Vec<usize>) -> (solved: bool)
    requires
        old(board)@.len() == 81,
    ensures
        solved == (solution_of(old(board)@) is Some),
        solved ==> final(board)@ == solution_of(old(board)@)->0,
        !solved ==> final(board)@ == old(board)@,
        is_grid(old(board)@) && consistent(old(board)@) ==> {
            &&& solved == has_solution(old(board)@)
            &&& solved ==> is_solved(final(board)@) && extends(old(board)@, final(board)@)
            &&& solved ==> each_digit_once(final(board)@)
        },
        is_solved(old(board)@) ==> solved && final(board)@ == old(board)@,
        old(board)@ == empty_grid() ==> solved,
    decreases empty_count(old(board)@),
{
    let ghost g = board@;
    proof {
        if is_grid(g) && consistent(g) {
            lemma_solution_of(g);
        }
    }
    let mut row: usize = 0;
    let mut col: usize = 0;
    let located = locate(board, &mut row, &mut col);
    if !located {
        return true;
    }
    let ghost k = 9 * row + col;
    let ghost fuel = empty_count(g);
    proof {
        lemma_fill_one(g, k, 1);
        assert(k / 9 == row && k % 9 == col);
    }
    let pos = (row, col);
    for n in 1..10
        invariant
            board@ == g,
            old(board)@ == g,
            g.len() == 81,
            row < 9,
            col < 9,
            k == 9 * row + col,
            k / 9 == row && k % 9 == col,
            pos == (row, col),
            cell(g, row as int, col as int) == 0,
            fuel == empty_count(g),
            fuel >= 1,
            solution_of(g) == try_digits(g, k, n, fuel),
    {
        if is_valid(board, n, pos) {
            proof {
                lemma_fill_one(g, k, n);
            }
            board.set(pos.0 * SIZE + pos.1, n);
            assert(board@ == g.update(k, n));
            if solve_board(board) {
                proof {
                    if is_grid(g) && consistent(g) {
                        lemma_solution_of(g);
                    }
                }
                return true;
            }
            board.set(pos.0 * SIZE + pos.1, 0);
            assert(board@ =~= g);
        }
    }
    proof {
        if is_grid(g) && consistent(g) {
            lemma_solution_of(g);
        }
        lemma_empty_grid_solvable();
    }
    false
}

/// Why a grid cannot be handed to the solver.
#[derive(Debug, Clone, Copy, PartialEq, Eq, Structural)]
pub enum GridError {
    /// The grid does not have 81 cells.
    WrongLength,
    /// A cell holds a value above 9.
    ValueOutOfRange,
    /// A digit repeats in a row, a column or a box.
    Duplicate,
}

/// Checks that `board` is a grid the solver accepts: 81 cells, each 0..=9,
/// and no digit repeated in any row, column or box.
pub fn check_board(board: &Vec<usize>) -> (r: Result<(), GridError>)
    ensures
        r is Ok <==> is_grid(board@) && consistent(board@),
        r == Err::<(), GridError>(GridError::WrongLength) <==> board@.len() != 81,
        r == Err::<(), GridError>(GridError::ValueOutOfRange) <==> board@.len() == 81 && exists|k: int|
            0 <= k < 81 && #[trigger] board@[k] > 9,
        r == Err::<(), GridError>(GridError::Duplicate) <==> is_grid(board@) && !consistent(board@),
{
    if board.len() != 81 {
        return Err(GridError::WrongLength);
    }
    for k in 0..81usize
        invariant
            board@.len() == 81,
            forall|j: int| 0 <= j < k ==> #[trigger] board@[j] <= 9,
    {
        if board[k] > 9 {
            return Err(GridError::ValueOutOfRange);
        }
    }
    let mut copy = board.clone();
    let ghost g = board@;
    assert(copy@ == g);
    for r in 0..SIZE
        invariant
            copy@ == g,
            board@ == g,
            is_grid(g),
            forall|i: int, j: int|
                0 <= i < r && 0 <= j < 9 && #[trigger] cell(g, i, j) != 0 ==> placeable(
                    g,
                    i,
                    j,
                    cell(g, i, j),
                ),
    {
        for c in 0..SIZE
            invariant
                copy@ == g,
                board@ == g,
                is_grid(g),
                r < 9,
                forall|i: int, j: int|
                    (0 <= i < r && 0 <= j < 9 || i == r && 0 <= j < c) && #[trigger] cell(g, i, j)
                        != 0 ==> placeable(g, i, j, cell(g, i, j)),
        {
            let v = copy[r * SIZE + c];
            assert(v <= 9) by {
                assert(g[9 * r + c] <= 9);
            }
            if v != 0 && !is_valid(&mut copy, v, (r, c)) {
                assert(cell(g, r as int, c as int) != 0);
                return Err(GridError::Duplicate);
            }
        }
    }
    Ok(())
}

/// Checks `board` with `check_board` and, where it passes, solves it with
/// `solve_board`. A board that fails the check is left as it is.
pub fn solve(board: &mut Vec<usize>) -> (r: Result<bool, GridError>)
    ensures
        r is Err ==> final(board)@ == old(board)@,
        r is Err <==> !(is_grid(old(board)@) && consistent(old(board)@)),
        r == Err::<bool, GridError>(GridError::WrongLength) <==> old(board)@.len() != 81,
        r == Err::<bool, GridError>(GridError::ValueOutOfRange) <==> old(board)@.len() == 81 && exists|k: int|
            0 <= k < 81 && #[trigger] old(board)@[k] > 9,
        r matches Ok(solved) ==> {
            &&& solved == has_solution(old(board)@)
            &&& solved ==> final(board)@ == solution_of(old(board)@)->0
            &&& solved ==> is_solved(final(board)@) && extends(old(board)@, final(board)@)
            &&& !solved ==> final(board)@ == old(board)@
        },
{
    match check_board(board) {
        Err(e) => Err(e),
        Ok(()) => Ok(solve_board(board)),
    }
}

} // verus!
