//! The grid model: 81 cells in row-major order, each holding 0 (empty)
//! or a digit 1..=9, and the predicate that decides whether a digit may
//! stand at a cell without repeating in its row, column or box.
use vstd::prelude::*;

verus! {

/// Number of rows, of columns, and of cells in each row, column and box.
pub const SIZE: usize = 9;

/// The value at row `r`, column `c` of a row-major grid.
pub open spec fn cell(g: Seq<usize>, r: int, c: int) -> usize {
    g[9 * r + c]
}

/// A grid: 81 cells, each empty (0) or a digit 1..=9.
pub open spec fn is_grid(g: Seq<usize>) -> bool {
    &&& g.len() == 81
    &&& forall|k: int| 0 <= k < 81 ==> #[trigger] g[k] <= 9
}

/// First row (or column) of the band (or stack) of boxes that holds `i`.
pub open spec fn box_start(i: int) -> int {
    3 * (i / 3)
}

/// Digit `d` at `(r, c)` would repeat no other cell of row `r`, column `c`
/// or the box of `(r, c)`. The cell itself is left out of each region.
pub open spec fn placeable(g: Seq<usize>, r: int, c: int, d: usize) -> bool {
    &&& forall|j: int| 0 <= j < 9 && j != c ==> #[trigger] cell(g, r, j) != d
    &&& forall|i: int| 0 <= i < 9 && i != r ==> #[trigger] cell(g, i, c) != d
    &&& forall|i: int, j: int|
        box_start(r) <= i < box_start(r) + 3 && box_start(c) <= j < box_start(c) + 3 && (i != r
            || j != c) ==> #[trigger] cell(g, i, j) != d
}

/// The nine values of row `r`, left to right.
pub open spec fn row_values(g: Seq<usize>, r: int) -> Seq<usize> {
    Seq::new(9, |j: int| cell(g, r, j))
}

/// The nine values of column `c`, top to bottom.
pub open spec fn col_values(g: Seq<usize>, c: int) -> Seq<usize> {
    Seq::new(9, |i: int| cell(g, i, c))
}

/// The nine values of box `b`, with the boxes numbered 0..9 in row-major
/// order and the cells of a box read in row-major order.
pub open spec fn box_values(g: Seq<usize>, b: int) -> Seq<usize> {
    Seq::new(9, |m: int| cell(g, 3 * (b / 3) + m / 3, 3 * (b % 3) + m % 3))
}

/// `d` stands at exactly one position of `s`.
pub open spec fn occurs_once(s: Seq<usize>, d: usize) -> bool {
    exists|m: int|
        0 <= m < s.len() && s[m] == d && forall|m2: int|
            0 <= m2 < s.len() && s[m2] == d ==> m2 == m
}

/// Every row, every column and every box holds each digit 1..=9 exactly
/// once.
pub open spec fn each_digit_once(g: Seq<usize>) -> bool {
    &&& forall|i: int, d: usize|
        0 <= i < 9 && 1 <= d <= 9 ==> #[trigger] occurs_once(row_values(g, i), d)
    &&& forall|i: int, d: usize|
        0 <= i < 9 && 1 <= d <= 9 ==> #[trigger] occurs_once(col_values(g, i), d)
    &&& forall|i: int, d: usize|
        0 <= i < 9 && 1 <= d <= 9 ==> #[trigger] occurs_once(box_values(g, i), d)
}

/// Whether `num` can be written at `pos` (row, column) of `board` without
/// repeating a digit in the row, the column or the box of `pos`.
/// The board is left as it is.
pub fn is_valid(board: &mut Vec<usize>, num: usize, pos: (usize, usize)) -> (r: bool)
    requires
        old(board)@.len() == 81,
        1 <= num <= 9,
        pos.0 < 9,
        pos.1 < 9,
    ensures
        *final(board) == *old(board),
        r == placeable(old(board)@, pos.0 as int, pos.1 as int, num),
{
    let ghost g = board@;
    for i in 0..SIZE
        invariant
            board@ == g,
            g.len() == 81,
            pos.0 < 9,
            forall|j: int| 0 <= j < i && j != pos.1 ==> #[trigger] cell(g, pos.0 as int, j) != num,
    {
        if board[pos.0 * SIZE + i] == num && pos.1 != i {
            assert(cell(g, pos.0 as int, i as int) == num);
            return false;
        }
    }
    for j in 0..SIZE
        invariant
            board@ == g,
            g.len() == 81,
            pos.1 < 9,
            forall|i: int| 0 <= i < j && i != pos.0 ==> #[trigger] cell(g, i, pos.1 as int) != num,
    {
        if board[j * SIZE + pos.1] == num && pos.0 != j {
            assert(cell(g, j as int, pos.1 as int) == num);
            return false;
        }
    }
    let sub_x = pos.1 / 3;
    let sub_y = pos.0 / 3;
    for i in sub_y * 3..(sub_y * 3 + 3)
        invariant
            board@ == g,
            g.len() == 81,
            pos.0 < 9,
            pos.1 < 9,
            sub_x == pos.1 / 3,
            sub_y == pos.0 / 3,
            forall|i2: int, j2: int|
                box_start(pos.0 as int) <= i2 < i && box_start(pos.1 as int) <= j2 < box_start(
                    pos.1 as int,
                ) + 3 && (i2 != pos.0 || j2 != pos.1) ==> #[trigger] cell(g, i2, j2) != num,
    {
        for j in sub_x * 3..(sub_x * 3 + 3)
            invariant
                board@ == g,
                g.len() == 81,
                pos.0 < 9,
                pos.1 < 9,
                sub_x == pos.1 / 3,
                sub_y == pos.0 / 3,
                sub_y * 3 <= i < sub_y * 3 + 3,
                forall|i2: int, j2: int|
                    box_start(pos.0 as int) <= i2 < i && box_start(pos.1 as int) <= j2
                        < box_start(pos.1 as int) + 3 && (i2 != pos.0 || j2 != pos.1)
                        ==> #[trigger] cell(g, i2, j2) != num,
                forall|j2: int|
                    box_start(pos.1 as int) <= j2 < j && (i != pos.0 || j2 != pos.1)
                        ==> #[trigger] cell(g, i as int, j2) != num,
        {
            if board[i * SIZE + j] == num && (i != pos.0 || j != pos.1) {
                assert(cell(g, i as int, j as int) == num);
                return false;
            }
        }
    }
    true
}

/// Index of the first empty cell at or after index `k`, in row-major order.
pub open spec fn first_empty_from(g: Seq<usize>, k: nat) -> Option<int>
    decreases 81 - k,
{
    if k >= 81 {
        None
    } else if g[k as int] == 0 {
        Some(k as int)
    } else {
        first_empty_from(g, k + 1)
    }
}

/// Index of the first empty cell of the grid in row-major order, if any.
pub open spec fn first_empty(g: Seq<usize>) -> Option<int> {
    first_empty_from(g, 0)
}

/// No cell of the grid is empty.
pub open spec fn is_full(g: Seq<usize>) -> bool {
    forall|k: int| 0 <= k < 81 ==> #[trigger] g[k] != 0
}

/// What the scan finds: the first empty cell from `k` on, or that there is none.
pub proof fn lemma_first_empty_from(g: Seq<usize>, k: nat)
    requires
        g.len() == 81,
    ensures
        match first_empty_from(g, k) {
            Some(m) => k <= m < 81 && g[m] == 0 && forall|j: int| k <= j < m ==> #[trigger] g[j]
                != 0,
            None => forall|j: int| k <= j < 81 ==> #[trigger] g[j] != 0,
        },
    decreases 81 - k,
{
    if k < 81 && g[k as int] != 0 {
        lemma_first_empty_from(g, k + 1);
    }
}

/// The first empty cell, or that the grid is full.
pub proof fn lemma_first_empty(g: Seq<usize>)
    requires
        g.len() == 81,
    ensures
        first_empty(g) is None <==> is_full(g),
        first_empty(g) matches Some(m) ==> 0 <= m < 81 && g[m] == 0 && forall|j: int|
            0 <= j < m ==> #[trigger] g[j] != 0,
{
    lemma_first_empty_from(g, 0);
    if let Some(m) = first_empty(g) {
        assert(!is_full(g)) by {
            assert(g[m] == 0);
        }
    }
}

/// Finds the first empty cell of `board` in row-major order. When there is
/// one, its row and column are written to `row` and `col` and the result is
/// `true`; when the board is full, the result is `false` and `row` and `col`
/// are left as they were. The board is left as it is.
pub fn locate(board: &mut Vec<usize>, row: &mut usize, col: &mut usize) -> (located: bool)
    requires
        old(board)@.len() == 81,
    ensures
        *final(board) == *old(board),
        located == (first_empty(old(board)@) is Some),
        located ==> *final(row) < 9 && *final(col) < 9 && first_empty(old(board)@) == Some(
            9 * *final(row) + *final(col),
        ),
        located ==> cell(old(board)@, *final(row) as int, *final(col) as int) == 0,
        located ==> forall|k: int|
            0 <= k < 9 * *final(row) + *final(col) ==> #[trigger] old(board)@[k] != 0,
        !located ==> is_full(old(board)@) && *final(row) == *old(row) && *final(col) == *old(col),
{
    let ghost g = board@;
    proof {
        lemma_first_empty(g);
    }
    for i in 0..SIZE
        invariant
            board@ == g,
            g.len() == 81,
            first_empty(g) == first_empty_from(g, (9 * i) as nat),
            *row == *old(row),
            *col == *old(col),
    {
        for j in 0..SIZE
            invariant
                board@ == g,
                g.len() == 81,
                i < 9,
                first_empty(g) == first_empty_from(g, (9 * i + j) as nat),
                *row == *old(row),
                *col == *old(col),
        {
            if board[i * SIZE + j] == 0 {
                *row = i;
                *col = j;
                proof {
                    lemma_first_empty(g);
                }
                return true;
            }
        }
    }
    false
}

} // verus!
