//! Puzzles that are read from text: one character for each cell, row by row.

use vstd::prelude::*;

verus! {

/// Why a text is no puzzle.
#[derive(Clone, Copy, Debug, PartialEq, Eq)]
pub enum ParseError {
    /// The character `ch` in column `x` of row `y` stands for nothing.
    UnexpectedChar { ch: char, x: usize, y: usize },
    /// The text has no character at all.
    NoCells,
    /// The text has more rows or columns than the puzzle can number.
    TooLarge,
    /// The text has more fruit than a state can keep track of.
    TooManyFruit,
    /// The snake has a segment `index + 1` or later, but none with `index`.
    MissingSegment { index: usize },
}

/// The rows of a text as sequences of characters.
pub open spec fn rows(lines: &Vec<Vec<char>>) -> Seq<Seq<char>> {
    Seq::new(lines@.len(), |i: int| lines@[i]@)
}

/// Whether the text has a character in column `x` of row `y`.
pub open spec fn has_char(text: Seq<Seq<char>>, x: int, y: int) -> bool {
    0 <= y < text.len() && 0 <= x < text[y].len()
}

/// Whether the position `a` comes before `b` in reading order: rows from the
/// top, and each row from the left. A position is a pair of column and row.
pub open spec fn earlier(a: (int, int), b: (int, int)) -> bool {
    a.1 < b.1 || (a.1 == b.1 && a.0 < b.0)
}

/// The length of the longest row, 0 where there is none.
pub open spec fn longest_row(text: Seq<Seq<char>>) -> nat
    decreases text.len(),
{
    if text.len() == 0 {
        0
    } else if text.last().len() > longest_row(text.drop_last()) {
        text.last().len()
    } else {
        longest_row(text.drop_last())
    }
}

/// No row is longer than the longest.
pub proof fn longest_row_bounds(text: Seq<Seq<char>>, y: int)
    requires
        0 <= y < text.len(),
    ensures
        text[y].len() <= longest_row(text),
    decreases text.len(),
{
    if y < text.len() - 1 {
        longest_row_bounds(text.drop_last(), y);
    }
}

/// Whether `r` is the last position before `end`, in reading order, at which
/// the text has the character `c`; `fallback` where there is none.
pub open spec fn last_before(
    text: Seq<Seq<char>>,
    c: char,
    end: (int, int),
    fallback: (usize, usize),
    r: (usize, usize),
) -> bool {
    if exists|x: int, y: int| #[trigger]
        has_char(text, x, y) && text[y][x] == c && earlier((x, y), end) {
        &&& has_char(text, r.0 as int, r.1 as int)
        &&& text[r.1 as int][r.0 as int] == c
        &&& earlier((r.0 as int, r.1 as int), end)
        &&& forall|x: int, y: int| #[trigger]
            has_char(text, x, y) && text[y][x] == c && earlier((x, y), end) ==> !earlier(
                (r.0 as int, r.1 as int),
                (x, y),
            )
    } else {
        r == fallback
    }
}

/// The last position of `c` before the position after `(x, y)` is `(x, y)`
/// where `c` stands there, and the last one before `(x, y)` otherwise.
pub proof fn last_before_step(
    text: Seq<Seq<char>>,
    c: char,
    x: int,
    y: int,
    fallback: (usize, usize),
    r: (usize, usize),
)
    requires
        has_char(text, x, y),
        0 <= x <= usize::MAX,
        0 <= y <= usize::MAX,
        last_before(text, c, (x, y), fallback, r),
    ensures
        last_before(
            text,
            c,
            (x + 1, y),
            fallback,
            if text[y][x] == c {
                (x as usize, y as usize)
            } else {
                r
            },
        ),
{
    let end0 = (x, y);
    let end1 = (x + 1, y);
    assert forall|a: int, b: int| earlier((a, b), end1) == (earlier((a, b), end0) || (a == x && b
        == y)) by {}
    if text[y][x] == c {
        assert(has_char(text, x, y) && text[y][x] == c && earlier((x, y), end1));
    } else {
        if exists|a: int, b: int| #[trigger]
            has_char(text, a, b) && text[b][a] == c && earlier((a, b), end1) {
            let (a, b) = choose|a: int, b: int| #[trigger]
                has_char(text, a, b) && text[b][a] == c && earlier((a, b), end1);
            assert(has_char(text, a, b) && text[b][a] == c && earlier((a, b), end0));
        }
        if exists|a: int, b: int| #[trigger]
            has_char(text, a, b) && text[b][a] == c && earlier((a, b), end0) {
            let (a, b) = choose|a: int, b: int| #[trigger]
                has_char(text, a, b) && text[b][a] == c && earlier((a, b), end0);
            assert(has_char(text, a, b) && text[b][a] == c && earlier((a, b), end1));
        }
    }
}

/// The end of row `y` and the beginning of the next have the same positions
/// before them.
pub proof fn last_before_next_row(
    text: Seq<Seq<char>>,
    c: char,
    y: int,
    fallback: (usize, usize),
    r: (usize, usize),
)
    requires
        0 <= y < text.len(),
        last_before(text, c, (text[y].len() as int, y), fallback, r),
    ensures
        last_before(text, c, (0, y + 1), fallback, r),
{
    let end0 = (text[y].len() as int, y);
    let end1 = (0int, y + 1);
    assert forall|a: int, b: int| has_char(text, a, b) implies earlier((a, b), end1) == earlier(
        (a, b),
        end0,
    ) by {}
    if exists|a: int, b: int| #[trigger]
        has_char(text, a, b) && text[b][a] == c && earlier((a, b), end1) {
        let (a, b) = choose|a: int, b: int| #[trigger]
            has_char(text, a, b) && text[b][a] == c && earlier((a, b), end1);
        assert(has_char(text, a, b) && text[b][a] == c && earlier((a, b), end0));
    }
    if exists|a: int, b: int| #[trigger]
        has_char(text, a, b) && text[b][a] == c && earlier((a, b), end0) {
        let (a, b) = choose|a: int, b: int| #[trigger]
            has_char(text, a, b) && text[b][a] == c && earlier((a, b), end0);
        assert(has_char(text, a, b) && text[b][a] == c && earlier((a, b), end1));
    }
}

/// Whether the text has the character `c` before `end`, in reading order.
pub open spec fn occurs(text: Seq<Seq<char>>, c: char, end: (int, int)) -> bool {
    exists|x: int, y: int| #[trigger]
        has_char(text, x, y) && text[y][x] == c && earlier((x, y), end)
}

/// The text has `c` before the position after `(x, y)` where it has it
/// before `(x, y)` or at `(x, y)`.
pub proof fn occurs_step(text: Seq<Seq<char>>, c: char, x: int, y: int)
    requires
        has_char(text, x, y),
    ensures
        occurs(text, c, (x + 1, y)) == (occurs(text, c, (x, y)) || text[y][x] == c),
{
    let end0 = (x, y);
    let end1 = (x + 1, y);
    assert forall|a: int, b: int| earlier((a, b), end1) == (earlier((a, b), end0) || (a == x && b
        == y)) by {}
    if occurs(text, c, end1) {
        let (a, b) = choose|a: int, b: int| #[trigger]
            has_char(text, a, b) && text[b][a] == c && earlier((a, b), end1);
        if !(a == x && b == y) {
            assert(has_char(text, a, b) && text[b][a] == c && earlier((a, b), end0));
        }
    }
    if occurs(text, c, end0) {
        let (a, b) = choose|a: int, b: int| #[trigger]
            has_char(text, a, b) && text[b][a] == c && earlier((a, b), end0);
        assert(has_char(text, a, b) && text[b][a] == c && earlier((a, b), end1));
    }
    if text[y][x] == c {
        assert(has_char(text, x, y) && text[y][x] == c && earlier((x, y), end1));
    }
}

/// The end of row `y` and the beginning of the next have the same characters
/// before them.
pub proof fn occurs_next_row(text: Seq<Seq<char>>, c: char, y: int)
    requires
        0 <= y < text.len(),
    ensures
        occurs(text, c, (0, y + 1)) == occurs(text, c, (text[y].len() as int, y)),
{
    let end0 = (text[y].len() as int, y);
    let end1 = (0int, y + 1);
    assert forall|a: int, b: int| has_char(text, a, b) implies earlier((a, b), end1) == earlier(
        (a, b),
        end0,
    ) by {}
    if occurs(text, c, end1) {
        let (a, b) = choose|a: int, b: int| #[trigger]
            has_char(text, a, b) && text[b][a] == c && earlier((a, b), end1);
        assert(has_char(text, a, b) && text[b][a] == c && earlier((a, b), end0));
    }
    if occurs(text, c, end0) {
        let (a, b) = choose|a: int, b: int| #[trigger]
            has_char(text, a, b) && text[b][a] == c && earlier((a, b), end0);
        assert(has_char(text, a, b) && text[b][a] == c && earlier((a, b), end1));
    }
}

/// The length of the longest line.
pub fn widest(lines: &Vec<Vec<char>>) -> (w: usize)
    ensures
        w == longest_row(rows(lines)),
{
    let mut w: usize = 0;
    let mut y: usize = 0;
    while y < lines.len()
        invariant
            y <= lines@.len(),
            w == longest_row(rows(lines).take(y as int)),
        decreases lines@.len() - y,
    {
        proof {
            assert(rows(lines).take(y + 1).drop_last() =~= rows(lines).take(y as int));
        }
        if lines[y].len() > w {
            w = lines[y].len();
        }
        y += 1;
    }
    proof {
        assert(rows(lines).take(lines@.len() as int) =~= rows(lines));
    }
    w
}

/// A puzzle that is read from text.
pub trait Stored: Sized {
    /// Whether `r` is what the text gives.
    spec fn loaded(text: Seq<Seq<char>>, r: Result<Self, ParseError>) -> bool;

    /// The puzzle that the lines stand for, or why they stand for none.
    fn load(lines: &Vec<Vec<char>>) -> (r: Result<Self, ParseError>)
        ensures
            Self::loaded(rows(lines), r),
    ;
}

} // verus!
