//! Cells of a grid as search nodes, and the distance between two cells that
//! both maze models use.

use crate::graph::SearchNode;
use rand::Rng;
use rand::StdRng;
use vstd::prelude::*;

verus! {

/// `rand::StdRng`, the random number generator that the mazes are carved
/// with. Nothing is said of what is inside it.
#[verifier::external_type_specification]
#[verifier::external_body]
pub struct ExStdRng(rand::StdRng);

/// Calls `Rng::shuffle` of `rand` on the cells. The method swaps elements of
/// the slice and does nothing else to it, so what comes back holds the same
/// cells, each as often as before; in which order is up to the generator.
#[verifier::external_body]
pub(crate) fn shuffle_cells(rng: &mut StdRng, cells: &mut Vec<(usize, usize)>)
    ensures
        final(cells)@.to_multiset() == old(cells)@.to_multiset(),
{
    rng.shuffle(cells.as_mut_slice());
}

/// A shuffled list holds the cells that it held before.
pub proof fn shuffled_holds_the_same(before: Seq<(usize, usize)>, after: Seq<(usize, usize)>)
    requires
        after.to_multiset() == before.to_multiset(),
    ensures
        after.len() == before.len(),
        forall|c: (usize, usize)| after.contains(c) == before.contains(c),
{
    vstd::seq_lib::to_multiset_len(before);
    vstd::seq_lib::to_multiset_len(after);
    assert forall|c: (usize, usize)| after.contains(c) == before.contains(c) by {
        vstd::seq_lib::to_multiset_contains(before, c);
        vstd::seq_lib::to_multiset_contains(after, c);
    }
}

/// The label of a step in a maze, which says nothing: where a step leads
/// is all there is to it.
#[derive(Clone, Copy, Debug, PartialEq, Eq)]
pub struct Plain;

/// One of the four ways out of a cell.
#[derive(Clone, Copy, Debug, PartialEq, Eq)]
pub enum Heading {
    Left,
    Up,
    Right,
    Down,
}

/// The coordinates one step from a cell in a direction; they need not be
/// those of a cell.
pub open spec fn toward(c: (usize, usize), h: Heading) -> (int, int) {
    match h {
        Heading::Left => (c.0 - 1, c.1 as int),
        Heading::Up => (c.0 as int, c.1 - 1),
        Heading::Right => (c.0 + 1, c.1 as int),
        Heading::Down => (c.0 as int, c.1 + 1),
    }
}

impl SearchNode for (usize, usize) {
    /// The row in the upper half of the digest, the column in the lower.
    open spec fn digest_of(v: (usize, usize)) -> u64 {
        ((v.1 as u64) << 32) ^ (v.0 as u64)
    }

    fn digest(&self) -> (h: u64) {
        ((self.1 as u64) << 32) ^ (self.0 as u64)
    }

    fn same(&self, other: &(usize, usize)) -> (r: bool) {
        self.0 == other.0 && self.1 == other.1
    }

    fn duplicate(&self) -> (r: (usize, usize)) {
        (self.0, self.1)
    }
}

/// How far apart two coordinates are.
pub open spec fn span(a: usize, b: usize) -> nat {
    if a < b {
        (b - a) as nat
    } else {
        (a - b) as nat
    }
}

/// The Manhattan distance between two cells.
pub open spec fn manhattan(a: (usize, usize), b: (usize, usize)) -> nat {
    span(a.0, b.0) + span(a.1, b.1)
}

/// The distance of a maze for a Manhattan distance `d`: 1000 for each unit up
/// to 1, and 1001 for each unit of a longer one, which favours the straighter
/// of two paths.
pub open spec fn scaled(d: nat) -> nat {
    if d < 2 {
        d * 1000
    } else {
        d * 1001
    }
}

/// The distance between two cells as the search engines use it: the scaled
/// Manhattan distance, which stops at `usize::MAX`.
pub open spec fn cell_gap(a: (usize, usize), b: (usize, usize)) -> nat {
    if scaled(manhattan(a, b)) > usize::MAX {
        usize::MAX as nat
    } else {
        scaled(manhattan(a, b))
    }
}

/// Computes `cell_gap`.
pub fn cell_distance(a: (usize, usize), b: (usize, usize)) -> (d: usize)
    ensures
        d == cell_gap(a, b),
{
    let dx: usize = if a.0 < b.0 {
        b.0 - a.0
    } else {
        a.0 - b.0
    };
    let dy: usize = if a.1 < b.1 {
        b.1 - a.1
    } else {
        a.1 - b.1
    };
    match dx.checked_add(dy) {
        None => usize::MAX,
        Some(sum) => {
            if sum < 2 {
                sum * 1000
            } else {
                match sum.checked_mul(1001) {
                    None => usize::MAX,
                    Some(v) => v,
                }
            }
        },
    }
}

/// The cell at `(x, y)` of a grid of the given width, in a row-major array.
pub open spec fn cell_index(width: usize, x: int, y: int) -> int {
    y * width + x
}

/// A cell inside a grid has its index inside the grid's array.
pub proof fn cell_index_in_range(width: usize, height: usize, x: int, y: int)
    requires
        0 <= x < width,
        0 <= y < height,
    ensures
        0 <= cell_index(width, x, y) < width * height,
{
    assert(y * width + x < width * height) by (nonlinear_arith)
        requires
            0 <= x < width,
            0 <= y < height,
    ;
    assert(0 <= y * width) by (nonlinear_arith)
        requires
            0 <= y,
            0 <= width,
    ;
}

/// Two cells inside a grid with one index are one cell.
pub proof fn cell_index_is_injective(width: usize, x1: int, y1: int, x2: int, y2: int)
    requires
        0 <= x1 < width,
        0 <= x2 < width,
        0 <= y1,
        0 <= y2,
        cell_index(width, x1, y1) == cell_index(width, x2, y2),
    ensures
        x1 == x2,
        y1 == y2,
{
    assert(y1 == y2) by (nonlinear_arith)
        requires
            0 <= x1 < width,
            0 <= x2 < width,
            0 <= y1,
            0 <= y2,
            y1 * width + x1 == y2 * width + x2,
    ;
}

/// One cell as a list, or no cell.
pub open spec fn cell_if(take: bool, x: int, y: int) -> Seq<(usize, usize)> {
    if take {
        seq![(x as usize, y as usize)]
    } else {
        Seq::empty()
    }
}

/// The steps to those of `cells` that `keep` holds
/// of, in the order of `cells`.
pub open spec fn steps_to(cells: Seq<(usize, usize)>, keep: spec_fn((usize, usize)) -> bool) -> Seq<
    (Plain, (usize, usize)),
>
    decreases cells.len(),
{
    if cells.len() == 0 {
        Seq::empty()
    } else if keep(cells.last()) {
        steps_to(cells.drop_last(), keep).push((Plain, cells.last()))
    } else {
        steps_to(cells.drop_last(), keep)
    }
}

/// A step is among `steps_to` exactly if it leads to one of the cells that
/// `keep` holds of.
pub proof fn steps_to_contains(
    cells: Seq<(usize, usize)>,
    keep: spec_fn((usize, usize)) -> bool,
    c: (usize, usize),
)
    ensures
        steps_to(cells, keep).contains((Plain, c)) <==> cells.contains(c) && keep(c),
    decreases cells.len(),
{
    if cells.len() > 0 {
        let rest = cells.drop_last();
        steps_to_contains(rest, keep, c);
        let out = steps_to(cells, keep);
        if cells.contains(c) {
            let i = choose|i: int| 0 <= i < cells.len() && cells[i] == c;
            if i < cells.len() - 1 {
                assert(rest[i] == c);
            }
        }
        if rest.contains(c) {
            let i = choose|i: int| 0 <= i < rest.len() && rest[i] == c;
            assert(cells[i] == c);
        }
        if keep(cells.last()) {
            let inner = steps_to(rest, keep);
            if inner.contains((Plain, c)) {
                let i = choose|i: int| 0 <= i < inner.len() && inner[i] == (Plain, c);
                assert(out[i] == (Plain, c));
            }
            if out.contains((Plain, c)) {
                let i = choose|i: int| 0 <= i < out.len() && out[i] == (Plain, c);
                if i < inner.len() {
                    assert(inner[i] == (Plain, c));
                } else {
                    assert(cells[cells.len() - 1] == c);
                }
            }
            if c == cells.last() {
                assert(out[out.len() - 1] == (Plain, c));
                assert(cells[cells.len() - 1] == c);
            }
        }
    }
}

/// The number of `false` entries.
pub open spec fn count_false(s: Seq<bool>) -> nat
    decreases s.len(),
{
    if s.len() == 0 {
        0
    } else {
        count_false(s.drop_last()) + if s.last() {
            0nat
        } else {
            1nat
        }
    }
}

/// Setting a `false` entry to `true` leaves one `false` entry less.
pub proof fn count_false_update(s: Seq<bool>, i: int)
    requires
        0 <= i < s.len(),
        !s[i],
    ensures
        count_false(s.update(i, true)) + 1 == count_false(s),
    decreases s.len(),
{
    let u = s.update(i, true);
    if i == s.len() - 1 {
        assert(u.drop_last() =~= s.drop_last());
    } else {
        assert(u.drop_last() =~= s.drop_last().update(i, true));
        count_false_update(s.drop_last(), i);
    }
}

/// Where the goal of a fresh maze lies: one cell in from the far corner.
pub open spec fn far_corner(width: usize, height: usize) -> (usize, usize) {
    (
        if width >= 2 {
            (width - 2) as usize
        } else {
            0usize
        },
        if height >= 2 {
            (height - 2) as usize
        } else {
            0usize
        },
    )
}

/// The coordinate one step past `at` as seen from `from`: `at + at - from`
/// where that is a coordinate; else `at` itself where `from` is more than
/// twice as far out, and the largest number where the sum is too large.
pub open spec fn further(at: usize, from: usize) -> usize {
    if from <= at {
        if at + at - from > usize::MAX {
            usize::MAX
        } else {
            (at + at - from) as usize
        }
    } else if from - at <= at {
        (at + at - from) as usize
    } else {
        at
    }
}

/// Computes `further`.
pub fn one_further(at: usize, from: usize) -> (r: usize)
    ensures
        r == further(at, from),
{
    if from <= at {
        at.saturating_add(at - from)
    } else if from - at <= at {
        at - (from - at)
    } else {
        at
    }
}

/// The pieces of wall that are drawn with single lines: for each way in
/// which a piece joins the pieces next to it, the glyph with arms to those
/// sides. The place of a glyph is 8 if it joins the piece above it, plus 4
/// for the one below, 2 for the one on its left and 1 for the one on its
/// right. A piece that joins nothing, or only what is above or below it, is
/// upright; one that joins only what is beside it lies flat.
pub open spec fn single_walls() -> Seq<char> {
    seq![
        '\u{2502}', '\u{2500}', '\u{2500}', '\u{2500}', '\u{2502}', '\u{250C}', '\u{2510}',
        '\u{252C}', '\u{2502}', '\u{2514}', '\u{2518}', '\u{2534}', '\u{2502}', '\u{251C}',
        '\u{2524}', '\u{253C}',
    ]
}

/// The pieces of wall that are drawn with double lines, in the same order.
pub open spec fn double_walls() -> Seq<char> {
    seq![
        '\u{2551}', '\u{2550}', '\u{2550}', '\u{2550}', '\u{2551}', '\u{2554}', '\u{2557}',
        '\u{2566}', '\u{2551}', '\u{255A}', '\u{255D}', '\u{2569}', '\u{2551}', '\u{2560}',
        '\u{2563}', '\u{256C}',
    ]
}

/// The place of the glyph of a piece of wall that joins the pieces next to
/// it on the given sides.
pub open spec fn wall_place(left: bool, right: bool, up: bool, down: bool) -> int {
    (if up {
        8int
    } else {
        0int
    }) + (if down {
        4int
    } else {
        0int
    }) + (if left {
        2int
    } else {
        0int
    }) + (if right {
        1int
    } else {
        0int
    })
}

/// The glyph of a piece of wall that joins the pieces next to it on the
/// given sides, drawn with single lines, or with double lines for the marked
/// cells.
pub open spec fn wall_char(double: bool, left: bool, right: bool, up: bool, down: bool) -> char {
    if double {
        double_walls()[wall_place(left, right, up, down)]
    } else {
        single_walls()[wall_place(left, right, up, down)]
    }
}

/// Computes `wall_char`.
pub fn wall(double: bool, left: bool, right: bool, up: bool, down: bool) -> (c: char)
    ensures
        c == wall_char(double, left, right, up, down),
{
    if double {
        if up && down {
            if left && right {
                '\u{256C}'
            } else if left {
                '\u{2563}'
            } else if right {
                '\u{2560}'
            } else {
                '\u{2551}'
            }
        } else if up {
            if left && right {
                '\u{2569}'
            } else if left {
                '\u{255D}'
            } else if right {
                '\u{255A}'
            } else {
                '\u{2551}'
            }
        } else if down {
            if left && right {
                '\u{2566}'
            } else if left {
                '\u{2557}'
            } else if right {
                '\u{2554}'
            } else {
                '\u{2551}'
            }
        } else if left || right {
            '\u{2550}'
        } else {
            '\u{2551}'
        }
    } else {
        if up && down {
            if left && right {
                '\u{253C}'
            } else if left {
                '\u{2524}'
            } else if right {
                '\u{251C}'
            } else {
                '\u{2502}'
            }
        } else if up {
            if left && right {
                '\u{2534}'
            } else if left {
                '\u{2518}'
            } else if right {
                '\u{2514}'
            } else {
                '\u{2502}'
            }
        } else if down {
            if left && right {
                '\u{252C}'
            } else if left {
                '\u{2510}'
            } else if right {
                '\u{250C}'
            } else {
                '\u{2502}'
            }
        } else if left || right {
            '\u{2500}'
        } else {
            '\u{2502}'
        }
    }
}

} // verus!
