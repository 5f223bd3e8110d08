//! The text form of a grid. A puzzle is read from nine lines of nine
//! digits, with any whitespace between them and 0 for an empty cell; a grid
//! is printed one row per line, with bars between groups of three columns
//! and a dashed line between groups of three rows.
use vstd::prelude::*;
use vstd::string::StrSliceExecFns;
use crate::grid::{cell, is_grid, SIZE};

verus! {

/// Why a text is not a puzzle.
#[derive(Debug, Clone, Copy, PartialEq, Eq, Structural)]
pub enum ParseError {
    /// The first character that is neither whitespace nor a decimal digit.
    InvalidChar(char),
    /// The text holds only digits and whitespace, but this many digits
    /// rather than one for each of the 81 cells.
    WrongCount(usize),
}

/// Unicode's White_Space property, as `char::is_whitespace` decides it.
pub open spec fn is_white_space(c: char) -> bool {
    ||| '\u{9}' <= c <= '\u{d}'
    ||| c == ' '
    ||| c == '\u{85}'
    ||| c == '\u{a0}'
    ||| c == '\u{1680}'
    ||| '\u{2000}' <= c <= '\u{200a}'
    ||| c == '\u{2028}'
    ||| c == '\u{2029}'
    ||| c == '\u{202f}'
    ||| c == '\u{205f}'
    ||| c == '\u{3000}'
}

/// A decimal digit '0'..='9'.
pub open spec fn is_digit(c: char) -> bool {
    '0' <= c <= '9'
}

/// A character that may stand in a puzzle text.
pub open spec fn is_allowed(c: char) -> bool {
    is_white_space(c) || is_digit(c)
}

/// The values of the digits of `s`, in order, whitespace left out.
pub open spec fn digits_of(s: Seq<char>) -> Seq<usize>
    decreases s.len(),
{
    if s.len() == 0 {
        Seq::empty()
    } else if is_white_space(s.last()) {
        digits_of(s.drop_last())
    } else {
        digits_of(s.drop_last()).push((s.last() as u32 - '0' as u32) as usize)
    }
}

/// `i` is the position of the first character of `s` that may not stand in
/// a puzzle text.
pub open spec fn is_first_disallowed(s: Seq<char>, i: int) -> bool {
    &&& 0 <= i < s.len()
    &&& !is_allowed(s[i])
    &&& forall|j: int| 0 <= j < i ==> is_allowed(#[trigger] s[j])
}

/// Decides `is_white_space`.
fn is_whitespace_char(c: char) -> (r: bool)
    ensures
        r == is_white_space(c),
{
    ('\u{9}' <= c && c <= '\u{d}') || c == ' ' || c == '\u{85}' || c == '\u{a0}' || c
        == '\u{1680}' || ('\u{2000}' <= c && c <= '\u{200a}') || c == '\u{2028}' || c
        == '\u{2029}' || c == '\u{202f}' || c == '\u{205f}' || c == '\u{3000}'
}

/// Reads a puzzle: each digit of `text`, in order, is the value of the next
/// cell in row-major order, and whitespace is skipped. The text must hold
/// exactly 81 digits and nothing but digits and whitespace.
pub fn parse_board(text: &str) -> (r: Result<Vec<usize>, ParseError>)
    ensures
        r matches Ok(v) ==> v@ == digits_of(text@),
        r is Ok <==> (forall|i: int| 0 <= i < text@.len() ==> is_allowed(#[trigger] text@[i]))
            && digits_of(text@).len() == 81,
        r matches Err(ParseError::InvalidChar(c)) ==> exists|i: int|
            is_first_disallowed(text@, i) && text@[i] == c,
        (exists|i: int| is_first_disallowed(text@, i)) ==> r matches Err(
            ParseError::InvalidChar(_),
        ),
        r matches Err(ParseError::WrongCount(n)) ==> (forall|i: int|
            0 <= i < text@.len() ==> is_allowed(#[trigger] text@[i])) && n == digits_of(
            text@,
        ).len() && n != 81,
        r is Ok ==> is_grid(r->Ok_0@),
{
    let len = text.unicode_len();
    let mut grid: Vec<usize> = Vec::new();
    let mut i: usize = 0;
    while i < len
        invariant
            len == text@.len(),
            i <= len,
            grid@ == digits_of(text@.subrange(0, i as int)),
            forall|j: int| 0 <= j < i ==> is_allowed(#[trigger] text@[j]),
            grid@.len() <= i,
        decreases len - i,
    {
        let c = text.get_char(i);
        proof {
            assert(text@.subrange(0, i + 1).drop_last() =~= text@.subrange(0, i as int));
        }
        if is_whitespace_char(c) {
        } else if '0' <= c && c <= '9' {
            grid.push((c as u32 - '0' as u32) as usize);
        } else {
            assert(is_first_disallowed(text@, i as int));
            return Err(ParseError::InvalidChar(c));
        }
        i = i + 1;
    }
    assert(text@.subrange(0, len as int) =~= text@);
    if grid.len() != 81 {
        return Err(ParseError::WrongCount(grid.len()));
    }
    proof {
        lemma_digits_bounded(text@);
    }
    Ok(grid)
}

/// Every value that `digits_of` yields from allowed characters is 0..=9.
proof fn lemma_digits_bounded(s: Seq<char>)
    requires
        forall|i: int| 0 <= i < s.len() ==> is_allowed(#[trigger] s[i]),
    ensures
        forall|k: int| 0 <= k < digits_of(s).len() ==> #[trigger] digits_of(s)[k] <= 9,
    decreases s.len(),
{
    if s.len() > 0 {
        let t = s.drop_last();
        assert forall|i: int| 0 <= i < t.len() implies is_allowed(#[trigger] t[i]) by {
            assert(is_allowed(s[i]));
        }
        lemma_digits_bounded(t);
        let c = s.last();
        assert(is_allowed(c));
        if !is_white_space(c) {
            assert((c as u32 - '0' as u32) as usize <= 9);
        }
        assert forall|k: int| 0 <= k < digits_of(s).len() implies #[trigger] digits_of(s)[k] <= 9 by {
            if k < digits_of(t).len() {
                assert(digits_of(s)[k] == digits_of(t)[k]);
            }
        }
    }
}

/// The character of a digit 0..=9.
pub open spec fn digit_char(v: usize) -> char {
    (v + '0' as u32) as char
}

/// Cell `c` of row `r` as printed: a bar before the first cell of the second
/// and third group of columns, the digit, and a space unless it is the last
/// cell of the row.
pub open spec fn cell_text(g: Seq<usize>, r: int, c: int) -> Seq<char> {
    (if c % 3 == 0 && c != 0 {
        seq![' ', '|', ' ']
    } else {
        Seq::empty()
    }) + seq![digit_char(cell(g, r, c))] + (if c == 8 {
        Seq::empty()
    } else {
        seq![' ']
    })
}

/// The first `n` cells of row `r` as printed.
pub open spec fn cells_text(g: Seq<usize>, r: int, n: int) -> Seq<char>
    decreases n,
{
    if n <= 0 {
        Seq::empty()
    } else {
        cells_text(g, r, n - 1) + cell_text(g, r, n - 1)
    }
}

/// The line drawn between groups of three rows.
pub open spec fn rule_line() -> Seq<char> {
    Seq::new(25, |i: int| '-').push('\n')
}

/// Row `r` as printed, with the rule above it where a group of three rows
/// begins (but for the first).
pub open spec fn row_text(g: Seq<usize>, r: int) -> Seq<char> {
    (if r % 3 == 0 && r != 0 {
        rule_line()
    } else {
        Seq::empty()
    }) + cells_text(g, r, 9) + seq![' ', '\n']
}

/// The first `n` rows as printed.
pub open spec fn rows_text(g: Seq<usize>, n: int) -> Seq<char>
    decreases n,
{
    if n <= 0 {
        Seq::empty()
    } else {
        rows_text(g, n - 1) + row_text(g, n - 1)
    }
}

/// Relies on `String`'s `FromIterator<char>`: the string holds the given
/// characters in order.
#[verifier::external_body]
fn string_from_chars(chars: &Vec<char>) -> (r: String)
    ensures
        r@ == chars@,
{
    chars.iter().collect()
}

/// The grid as printed: one line per row, cells separated by spaces, a bar
/// between groups of three columns, and a line of dashes between groups of
/// three rows.
pub fn render_board(grid: &Vec<usize>) -> (r: String)
    requires
        is_grid(grid@),
    ensures
        r@ == rows_text(grid@, 9),
{
    let ghost g = grid@;
    let mut out: Vec<char> = Vec::new();
    for i in 0..SIZE
        invariant
            grid@ == g,
            is_grid(g),
            out@ == rows_text(g, i as int),
    {
        let ghost before = out@;
        if i % 3 == 0 && i != 0 {
            for k in 0..25usize
                invariant
                    out@ == before + Seq::new(k as nat, |x: int| '-'),
            {
                out.push('-');
                assert(out@ =~= before + Seq::new((k + 1) as nat, |x: int| '-'));
            }
            out.push('\n');
            assert(out@ =~= before + rule_line());
        } else {
            assert(out@ =~= before + Seq::empty());
        }
        let ghost start = out@;
        for j in 0..SIZE
            invariant
                grid@ == g,
                is_grid(g),
                i < 9,
                out@ == start + cells_text(g, i as int, j as int),
        {
            let ghost mid = out@;
            if j % 3 == 0 && j != 0 {
                out.push(' ');
                out.push('|');
                out.push(' ');
            }
            let v = grid[i * SIZE + j];
            assert(v <= 9) by {
                assert(g[9 * i + j] <= 9);
            }
            out.push(((v as u8) + 48u8) as char);
            if j != 8 {
                out.push(' ');
            }
            assert(out@ =~= start + cells_text(g, i as int, j + 1));
        }
        out.push(' ');
        out.push('\n');
        assert(out@ =~= rows_text(g, i + 1));
    }
    string_from_chars(&out)
}

} // verus!
