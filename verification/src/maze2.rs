//! A maze on a grid of odd size in which the cells with two odd coordinates
//! are rooms, the cells with one odd coordinate are the passages between
//! them, and the rest, the border with it, is wall for good.

use crate::a_star::{a_star_result, no_dearer_than};
use crate::carve::{
    beyond, carving_ok, cell_of, dropping_keeps, entries, every_room_is_open, inside, is_pillar,
    is_room, opening_keeps, parent_of, root, settled, viable, Carving, Pending,
};
use crate::dfs::dfs_result;
use crate::graph::{
    is_simple, is_walk, leads_to_goal, reachable, reachable_self, reachable_step, steps_view,
    walk_end, walk_node, walk_total, Graph,
};
use crate::grid::{
    cell_distance, cell_gap, cell_if, cell_index, cell_index_in_range, cell_index_is_injective,
    count_false, count_false_update, far_corner, manhattan, one_further, shuffle_cells,
    shuffled_holds_the_same, steps_to, steps_to_contains, toward, wall, wall_char, Heading, Plain,
};
use crate::grid_walks::{
    moves_stay, no_dearer_means_no_longer, one_simple_walk, steps_by_one, tree_links,
};
use crate::search::{Outcome, Report};
use rand::StdRng;
use vstd::prelude::*;

verus! {

/// A grid of cells of odd width and height, with an overlay of marked cells.
/// The search starts at `(1, 1)` and ends one cell in from the far corner.
pub struct Maze2 {
    width: usize,
    height: usize,
    open: Vec<bool>,
    marked: Vec<bool>,
}

impl Maze2 {
    /// The invariant of a maze: its width and height are odd, and it has an
    /// entry for each cell in both its arrays.
    pub closed spec fn wf(&self) -> bool {
        &&& self.width % 2 == 1
        &&& self.height % 2 == 1
        &&& self.width * self.height <= usize::MAX
        &&& self.open@.len() == self.width * self.height
        &&& self.marked@.len() == self.width * self.height
    }

    /// Width and height.
    pub closed spec fn spec_dims(&self) -> (usize, usize) {
        (self.width, self.height)
    }

    /// Whether `(x, y)` is a cell of the maze and open.
    pub closed spec fn cell_open(&self, x: int, y: int) -> bool {
        0 <= x < self.width && 0 <= y < self.height && self.open@[cell_index(self.width, x, y)]
    }

    /// Whether `(x, y)` is a cell of the maze and marked.
    pub closed spec fn cell_marked(&self, x: int, y: int) -> bool {
        0 <= x < self.width && 0 <= y < self.height && self.marked@[cell_index(self.width, x, y)]
    }

    /// The number of cells that are walls.
    pub closed spec fn walls(&self) -> nat {
        count_false(self.open@)
    }

    /// Whether `(x, y)` is a cell of the maze.
    pub open spec fn has_cell(&self, x: int, y: int) -> bool {
        0 <= x < self.spec_dims().0 && 0 <= y < self.spec_dims().1
    }

    /// What `is_open` answers: whether there is such a cell and it is open.
    pub open spec fn passable(&self, c: (usize, usize)) -> bool {
        self.cell_open(c.0 as int, c.1 as int)
    }

    /// The cells next to `(x, y)` that a passage can lead to: left, up,
    /// right, down, without the border and without the cells that have two
    /// even coordinates.
    pub open spec fn adjacent_cells(&self, x: usize, y: usize) -> Seq<(usize, usize)> {
        cell_if(x > 1 && y % 2 != 0, x - 1, y as int) + cell_if(
            y > 1 && x % 2 != 0,
            x as int,
            y - 1,
        ) + cell_if(x < self.spec_dims().0 - 2 && y % 2 != 0, x + 1, y as int) + cell_if(
            y < self.spec_dims().1 - 2 && x % 2 != 0,
            x as int,
            y + 1,
        )
    }

    /// A maze of `width` by `height` cells, all walls and none marked.
    pub fn new(width: usize, height: usize) -> (m: Maze2)
        requires
            width > 0,
            height > 0,
            width % 2 != 0,
            height % 2 != 0,
            width * height <= usize::MAX,
        ensures
            m.wf(),
            m.spec_dims() == (width, height),
            forall|x: int, y: int| !m.cell_open(x, y),
            forall|x: int, y: int| !m.cell_marked(x, y),
    {
        let cells: usize = width * height;
        let m = Maze2 { width, height, open: vec![false; cells], marked: vec![false; cells] };
        proof {
            assert forall|x: int, y: int| !m.cell_open(x, y) by {
                if 0 <= x < width && 0 <= y < height {
                    cell_index_in_range(width, height, x, y);
                }
            }
            assert forall|x: int, y: int| !m.cell_marked(x, y) by {
                if 0 <= x < width && 0 <= y < height {
                    cell_index_in_range(width, height, x, y);
                }
            }
        }
        m
    }

    /// Whether `(x, y)` is a cell of the maze.
    pub fn in_bounds(&self, x: usize, y: usize) -> (r: bool)
        ensures
            r == self.has_cell(x as int, y as int),
    {
        x < self.width && y < self.height
    }

    /// Whether `(x, y)` is a cell of the maze and open.
    pub fn is_open(&self, x: usize, y: usize) -> (r: bool)
        requires
            self.wf(),
        ensures
            r == self.passable((x, y)),
    {
        if !self.in_bounds(x, y) {
            return false;
        }
        proof {
            cell_index_in_range(self.width, self.height, x as int, y as int);
        }
        self.open[y * self.width + x]
    }

    /// The cells next to `(x, y)` that a passage can lead to: see
    /// `adjacent_cells`.
    pub fn adjacents(&self, x: usize, y: usize) -> (list: Vec<(usize, usize)>)
        requires
            self.wf(),
        ensures
            list@ == self.adjacent_cells(x, y),
    {
        let mut list: Vec<(usize, usize)> = Vec::with_capacity(4);
        let odd_x: bool = x % 2 != 0;
        let odd_y: bool = y % 2 != 0;
        if x > 1 && odd_y {
            list.push((x - 1, y));
        }
        if y > 1 && odd_x {
            list.push((x, y - 1));
        }
        if self.width >= 2 && x < self.width - 2 && odd_y {
            list.push((x + 1, y));
        }
        if self.height >= 2 && y < self.height - 2 && odd_x {
            list.push((x, y + 1));
        }
        assert(list@ =~= self.adjacent_cells(x, y));
        list
    }

    /// Opens the cell `(x, y)`, which lies neither in column 0 nor in row 0.
    pub fn set_open(&mut self, x: usize, y: usize)
        requires
            old(self).wf(),
            old(self).has_cell(x as int, y as int),
            x > 0,
            y > 0,
        ensures
            final(self).wf(),
            final(self).spec_dims() == old(self).spec_dims(),
            forall|a: int, b: int|
                final(self).cell_open(a, b) == (old(self).cell_open(a, b) || (a == x && b == y)),
            forall|a: int, b: int| final(self).cell_marked(a, b) == old(self).cell_marked(a, b),
            final(self).walls() + (if old(self).cell_open(x as int, y as int) {
                0nat
            } else {
                1nat
            }) == old(self).walls(),
    {
        proof {
            cell_index_in_range(self.width, self.height, x as int, y as int);
            if self.open@[cell_index(self.width, x as int, y as int)] {
                assert(self.open@.update(cell_index(self.width, x as int, y as int), true)
                    =~= self.open@);
            } else {
                count_false_update(self.open@, cell_index(self.width, x as int, y as int));
            }
        }
        let at: usize = x + y * self.width;
        assert(at == cell_index(self.width, x as int, y as int)) by (nonlinear_arith)
            requires
                at == x + y * self.width,
        ;
        self.open[at] = true;
        proof {
            assert forall|a: int, b: int|
                final(self).cell_open(a, b) == (old(self).cell_open(a, b) || (a == x && b
                    == y)) by {
                if 0 <= a < self.width && 0 <= b < self.height {
                    cell_index_in_range(self.width, self.height, a, b);
                    if cell_index(self.width, a, b) == at {
                        cell_index_is_injective(self.width, a, b, x as int, y as int);
                    }
                }
            }
        }
    }

    /// What is next to a cell: each cell of `adjacent_cells` is one step
    /// away, off the border, and has an odd coordinate.
    pub proof fn adjacent_is_near(&self, x: usize, y: usize, c: (usize, usize))
        requires
            self.wf(),
            self.adjacent_cells(x, y).contains(c),
        ensures
            (c.0 + 1 == x && c.1 == y) || (c.0 == x && c.1 + 1 == y) || (c.0 == x + 1 && c.1 == y)
                || (c.0 == x && c.1 == y + 1),
            self.has_cell(x as int, y as int) ==> 0 < c.0 < self.spec_dims().0 - 1 && 0 < c.1
                < self.spec_dims().1 - 1,
            !(c.0 % 2 == 0 && c.1 % 2 == 0),
    {
        let s = self.adjacent_cells(x, y);
        let i = choose|i: int| 0 <= i < s.len() && s[i] == c;
        let a = cell_if(x > 1 && y % 2 != 0, x - 1, y as int);
        let b = cell_if(y > 1 && x % 2 != 0, x as int, y - 1);
        let r = cell_if(x < self.spec_dims().0 - 2 && y % 2 != 0, x + 1, y as int);
        let d = cell_if(y < self.spec_dims().1 - 2 && x % 2 != 0, x as int, y + 1);
        assert(s == a + b + r + d);
        if i < a.len() {
            assert(s[i] == a[i]);
        } else if i < a.len() + b.len() {
            assert(s[i] == b[i - a.len()]);
        } else if i < a.len() + b.len() + r.len() {
            assert(s[i] == r[i - a.len() - b.len()]);
        } else {
            assert(s[i] == d[i - a.len() - b.len() - r.len()]);
        }
    }

    /// A maze has odd width and height.
    pub proof fn odd_sized(&self)
        requires
            self.wf(),
        ensures
            self.spec_dims().0 % 2 == 1,
            self.spec_dims().1 % 2 == 1,
    {
    }

    /// A cell inside the maze that is no pillar is among the cells next to
    /// each cell beside it that is no pillar.
    pub proof fn near_is_adjacent(&self, x: usize, y: usize, c: (usize, usize))
        requires
            manhattan((x, y), c) == 1,
            inside(self.spec_dims().0, self.spec_dims().1, c),
            !is_pillar(c),
            !is_pillar((x, y)),
        ensures
            self.adjacent_cells(x, y).contains(c),
    {
        let s = self.adjacent_cells(x, y);
        let a = cell_if(x > 1 && y % 2 != 0, x - 1, y as int);
        let b = cell_if(y > 1 && x % 2 != 0, x as int, y - 1);
        let r = cell_if(x < self.spec_dims().0 - 2 && y % 2 != 0, x + 1, y as int);
        let d = cell_if(y < self.spec_dims().1 - 2 && x % 2 != 0, x as int, y + 1);
        assert(s == a + b + r + d);
        if c.0 + 1 == x && c.1 == y {
            assert(s[0] == c);
        } else if c.0 == x && c.1 + 1 == y {
            assert(s[a.len() as int] == c);
        } else if c.0 == x + 1 && c.1 == y {
            assert(s[(a.len() + b.len()) as int] == c);
        } else {
            assert(s[(a.len() + b.len() + r.len()) as int] == c);
        }
    }

    /// Marks the cell `(x, y)`.
    pub fn mark(&mut self, x: usize, y: usize)
        requires
            old(self).wf(),
            old(self).has_cell(x as int, y as int),
        ensures
            final(self).wf(),
            final(self).spec_dims() == old(self).spec_dims(),
            forall|a: int, b: int|
                final(self).cell_marked(a, b) == (old(self).cell_marked(a, b) || (a == x && b
                    == y)),
            forall|a: int, b: int| final(self).cell_open(a, b) == old(self).cell_open(a, b),
    {
        proof {
            cell_index_in_range(self.width, self.height, x as int, y as int);
        }
        let at: usize = y * self.width + x;
        self.marked[at] = true;
        proof {
            assert forall|a: int, b: int|
                final(self).cell_marked(a, b) == (old(self).cell_marked(a, b) || (a == x && b
                    == y)) by {
                if 0 <= a < self.width && 0 <= b < self.height {
                    cell_index_in_range(self.width, self.height, a, b);
                    if cell_index(self.width, a, b) == at {
                        cell_index_is_injective(self.width, a, b, x as int, y as int);
                    }
                }
            }
        }
    }

    /// Whether the cell `(x, y)` is marked; `false` where there is no such
    /// cell.
    pub fn is_marked(&self, x: usize, y: usize) -> (r: bool)
        requires
            self.wf(),
        ensures
            r == self.cell_marked(x as int, y as int),
    {
        if !self.in_bounds(x, y) {
            return false;
        }
        proof {
            cell_index_in_range(self.width, self.height, x as int, y as int);
        }
        self.marked[y * self.width + x]
    }

    /// Whether the maze is open from `(x, y)` in the direction `h`: a
    /// passage can lead from `(x, y)` to the cell next to it in that
    /// direction, and that cell is open. No cell is open towards the border
    /// of the maze.
    pub open spec fn open_toward(&self, x: usize, y: usize, h: Heading) -> bool {
        match h {
            Heading::Left => x > 1 && y % 2 != 0 && self.passable(((x - 1) as usize, y)),
            Heading::Up => y > 1 && x % 2 != 0 && self.passable((x, (y - 1) as usize)),
            Heading::Right => x < self.spec_dims().0 - 2 && y % 2 != 0 && self.passable(
                ((x + 1) as usize, y),
            ),
            Heading::Down => y < self.spec_dims().1 - 2 && x % 2 != 0 && self.passable(
                (x, (y + 1) as usize),
            ),
        }
    }

    /// Whether the maze is open from `(x, y)` in the direction `h`.
    pub fn is_open_toward(&self, x: usize, y: usize, h: Heading) -> (r: bool)
        requires
            self.wf(),
        ensures
            r == self.open_toward(x, y, h),
    {
        match h {
            Heading::Left => x > 1 && y % 2 != 0 && self.is_open(x - 1, y),
            Heading::Up => y > 1 && x % 2 != 0 && self.is_open(x, y - 1),
            Heading::Right => self.width >= 2 && x < self.width - 2 && y % 2 != 0 && self.is_open(
                x + 1,
                y,
            ),
            Heading::Down => self.height >= 2 && y < self.height - 2 && x % 2 != 0
                && self.is_open(x, y + 1),
        }
    }

    /// How the cell `(x, y)` is drawn. A marked cell is a piece of double
    /// wall that joins the marked cells next to it; an open cell is a blank;
    /// a wall is a piece of single wall that joins the walls next to it.
    pub open spec fn glyph_at(&self, x: int, y: int) -> char {
        if self.cell_marked(x, y) {
            wall_char(
                true,
                self.cell_marked(x - 1, y),
                self.cell_marked(x + 1, y),
                self.cell_marked(x, y - 1),
                self.cell_marked(x, y + 1),
            )
        } else if self.cell_open(x, y) {
            ' '
        } else {
            wall_char(
                false,
                x > 0 && !self.cell_open(x - 1, y),
                self.has_cell(x + 1, y) && !self.cell_open(x + 1, y),
                y > 0 && !self.cell_open(x, y - 1),
                self.has_cell(x, y + 1) && !self.cell_open(x, y + 1),
            )
        }
    }

    /// How the cell `(x, y)` is drawn.
    pub fn glyph(&self, x: usize, y: usize) -> (c: char)
        requires
            self.wf(),
            self.has_cell(x as int, y as int),
        ensures
            c == self.glyph_at(x as int, y as int),
    {
        if self.is_marked(x, y) {
            wall(
                true,
                x > 0 && self.is_marked(x - 1, y),
                self.is_marked(x + 1, y),
                y > 0 && self.is_marked(x, y - 1),
                self.is_marked(x, y + 1),
            )
        } else if self.is_open(x, y) {
            ' '
        } else {
            wall(
                false,
                x > 0 && !self.is_open(x - 1, y),
                x < self.width - 1 && !self.is_open(x + 1, y),
                y > 0 && !self.is_open(x, y - 1),
                y < self.height - 1 && !self.is_open(x, y + 1),
            )
        }
    }

    /// The maze as rows of glyphs, from the top.
    pub fn render(&self) -> (out: Vec<Vec<char>>)
        requires
            self.wf(),
        ensures
            out@.len() == self.spec_dims().1,
            forall|y: int| 0 <= y < out@.len() ==> (#[trigger] out@[y])@.len() == self.spec_dims().0,
            forall|x: int, y: int|
                0 <= y < out@.len() && 0 <= x < self.spec_dims().0 ==> #[trigger] out@[y]@[x]
                    == self.glyph_at(x, y),
    {
        let mut out: Vec<Vec<char>> = Vec::new();
        let mut y: usize = 0;
        while y < self.height
            invariant
                self.wf(),
                y <= self.height,
                out@.len() == y,
                forall|b: int| 0 <= b < y ==> (#[trigger] out@[b])@.len() == self.width,
                forall|a: int, b: int|
                    0 <= b < y && 0 <= a < self.width ==> #[trigger] out@[b]@[a] == self.glyph_at(
                        a,
                        b,
                    ),
            decreases self.height - y,
        {
            let mut row: Vec<char> = Vec::new();
            let mut x: usize = 0;
            while x < self.width
                invariant
                    self.wf(),
                    y < self.height,
                    x <= self.width,
                    row@.len() == x,
                    forall|a: int| 0 <= a < x ==> #[trigger] row@[a] == self.glyph_at(a, y as int),
                decreases self.width - x,
            {
                row.push(self.glyph(x, y));
                x += 1;
            }
            out.push(row);
            y += 1;
        }
        out
    }

    /// Width and height.
    pub fn dims(&self) -> (d: (usize, usize))
        ensures
            d == self.spec_dims(),
    {
        (self.width, self.height)
    }
}

/// A step of a maze: it leads to one of the cells next to the one it leaves,
/// and that cell is open.
pub proof fn maze_step(m: &Maze2, from: (usize, usize), to: (usize, usize))
    ensures
        m.moves(from).contains((Plain, to)) <==> m.adjacent_cells(from.0, from.1).contains(to)
            && m.passable(to),
{
    steps_to_contains(m.adjacent_cells(from.0, from.1), |c: (usize, usize)| m.passable(c), to);
}

/// A walk in a maze is a walk in every maze of the same size in which at
/// least the same cells are open.
pub proof fn opening_keeps_walks(
    a: &Maze2,
    b: &Maze2,
    from: (usize, usize),
    w: Seq<(Plain, (usize, usize))>,
)
    requires
        a.spec_dims() == b.spec_dims(),
        forall|c: (usize, usize)| a.passable(c) ==> b.passable(c),
        is_walk(a, from, w),
    ensures
        is_walk(b, from, w),
{
    assert forall|i: int| 0 <= i < w.len() implies b.moves(walk_node(from, w, i)).contains(
        #[trigger] w[i],
    ) by {
        let n = walk_node(from, w, i);
        assert(a.moves(n).contains(w[i]));
        maze_step(a, n, w[i].1);
        maze_step(b, n, w[i].1);
        assert(w[i] == (Plain, w[i].1));
    }
}

/// A cell that can be reached in a maze can be reached in every maze of the
/// same size in which at least the same cells are open.
pub proof fn opening_keeps_reachable(a: &Maze2, b: &Maze2, to: (usize, usize))
    requires
        a.spec_dims() == b.spec_dims(),
        forall|c: (usize, usize)| a.passable(c) ==> b.passable(c),
        reachable(a, (1usize, 1usize), to),
    ensures
        reachable(b, (1usize, 1usize), to),
{
    let from = (1usize, 1usize);
    let w = choose|w: Seq<(Plain, (usize, usize))>| is_walk(a, from, w) && walk_end(from, w) == to;
    opening_keeps_walks(a, b, from, w);
    assert(is_walk(b, from, w) && walk_end(from, w) == to);
}

/// What holds of a maze while it is carved, and when it is done: the border
/// is wall, and so is a cell with two even coordinates.
pub open spec fn carved(m: &Maze2) -> bool {
    &&& m.wf()
    &&& forall|a: int, b: int| !m.cell_marked(a, b)
    &&& forall|a: int, b: int| #[trigger]
        m.cell_open(a, b) ==> 0 < a < m.spec_dims().0 - 1 && 0 < b < m.spec_dims().1 - 1 && !(a % 2
            == 0 && b % 2 == 0)
}

/// The cells of the maze that are open, as a predicate.
pub open spec fn open_of(m: &Maze2) -> spec_fn((usize, usize)) -> bool {
    |c: (usize, usize)| m.cell_open(c.0 as int, c.1 as int)
}

/// Whether the carving drops the entry rather than open its cell: the cell
/// lies outside the maze, in column 0 or in row 0, or it or the cell one step
/// further is open.
pub open spec fn dropped(m: &Maze2, e: Pending) -> bool {
    !m.has_cell(e.0 as int, e.1 as int) || e.0 == 0 || e.1 == 0 || m.passable(cell_of(e))
        || m.passable(beyond(e))
}

/// What holds of an entry of the carving stack: its cell is among those next
/// to its parent, which is open; or it is the first entry, `(1, 1)` with
/// itself for its parent.
pub open spec fn pending_ok(m: &Maze2, e: Pending) -> bool {
    e == (1usize, 1usize, 1usize, 1usize) || (m.cell_open(e.2 as int, e.3 as int)
        && m.adjacent_cells(e.2, e.3).contains((e.0, e.1)))
}

/// Whether the open cells of the maze hang together like a tree: each but
/// `(1, 1)` has a parent among them such that two open cells lie next to each
/// other only where one is the parent of the other.
pub open spec fn tree_like(m: &Maze2) -> bool {
    exists|parent: Map<(usize, usize), (usize, usize)>| tree_links(open_of(m), parent, root())
}

/// Whether every cell inside the maze with two odd coordinates is open.
pub open spec fn all_rooms_open(m: &Maze2) -> bool {
    forall|a: int, b: int|
        0 < a < m.spec_dims().0 - 1 && 0 < b < m.spec_dims().1 - 1 && a % 2 == 1 && b % 2 == 1
            ==> #[trigger] m.cell_open(a, b)
}

/// What holds of a maze and the stack while the maze is carved.
#[verifier::opaque]
pub open spec fn carving(m: &Maze2, stack: Seq<Pending>, g: Carving) -> bool {
    &&& carved(m)
    &&& m.spec_dims().0 % 2 == 1
    &&& m.spec_dims().1 % 2 == 1
    &&& carving_ok(open_of(m), m.spec_dims().0, m.spec_dims().1, stack, g)
    &&& forall|i: int| 0 <= i < stack.len() ==> pending_ok(m, #[trigger] stack[i])
    &&& (m.spec_dims().0 >= 3 && m.spec_dims().1 >= 3 ==> m.cell_open(1, 1) || (stack
        == seq![(1usize, 1usize, 1usize, 1usize)] && forall|a: int, b: int| !m.cell_open(a, b)))
}

/// A maze that is being carved is in order.
pub proof fn carving_is_carved(m: &Maze2, stack: Seq<Pending>, g: Carving)
    requires
        carving(m, stack, g),
    ensures
        m.wf(),
{
    reveal(carving);
}

/// The carving drops an entry exactly where its cell cannot be opened.
pub proof fn dropped_or_viable(m: &Maze2, e: Pending)
    requires
        carved(m),
        pending_ok(m, e),
    ensures
        dropped(m, e) == !viable(open_of(m), m.spec_dims().0, m.spec_dims().1, e),
        e != (1usize, 1usize, 1usize, 1usize) ==> manhattan(parent_of(e), cell_of(e)) == 1,
{
    m.odd_sized();
    if e != (1usize, 1usize, 1usize, 1usize) {
        assert(m.cell_open(e.2 as int, e.3 as int));
        m.adjacent_is_near(e.2, e.3, (e.0, e.1));
    }
}

/// What the carving keeps true holds at the outset, of a maze of walls and
/// the stack with the first entry.
pub proof fn carving_begins(m: &Maze2)
    requires
        carved(m),
        m.spec_dims().0 % 2 == 1,
        m.spec_dims().1 % 2 == 1,
        forall|a: int, b: int| !m.cell_open(a, b),
    ensures
        carving(
            m,
            seq![(1usize, 1usize, 1usize, 1usize)],
            Carving { parent: Map::empty(), fresh: None },
        ),
{
    reveal(carving);
    reveal(carving_ok);
    let open = open_of(m);
    let stack = seq![(1usize, 1usize, 1usize, 1usize)];
    assert forall|c: (usize, usize)| !#[trigger] open(c) by {}
    assert forall|r: (usize, usize), c: (usize, usize)|
        open(r) && is_room(r) && manhattan(r, c) == 1 && inside(
            m.spec_dims().0,
            m.spec_dims().1,
            c,
        ) implies #[trigger] settled(open, stack, r, c) by {}
}

/// The cells next to a cell, in any order, are what the carving wants on its
/// stack: cells one step away, and all of those inside the maze.
pub proof fn adjacents_are_around(m: &Maze2, x: usize, y: usize, nexts: Seq<(usize, usize)>)
    requires
        m.wf(),
        !is_pillar((x, y)),
        forall|c: (usize, usize)| nexts.contains(c) == m.adjacent_cells(x, y).contains(c),
    ensures
        forall|i: int| 0 <= i < nexts.len() ==> manhattan((x, y), #[trigger] nexts[i]) == 1,
        forall|c: (usize, usize)|
            manhattan((x, y), c) == 1 && inside(m.spec_dims().0, m.spec_dims().1, c) && !is_pillar(
                c,
            ) ==> #[trigger] nexts.contains(c),
{
    assert forall|i: int| 0 <= i < nexts.len() implies manhattan((x, y), #[trigger] nexts[i])
        == 1 by {
        assert(nexts.contains(nexts[i]));
        m.adjacent_is_near(x, y, nexts[i]);
    }
    assert forall|c: (usize, usize)|
        manhattan((x, y), c) == 1 && inside(m.spec_dims().0, m.spec_dims().1, c) && !is_pillar(
            c,
        ) implies #[trigger] nexts.contains(c) by {
        m.near_is_adjacent(x, y, c);
    }
}

/// Dropping the entry on top of the stack keeps what holds while the maze is
/// carved.
#[verifier::rlimit(100)]
pub proof fn carving_drops(m: &Maze2, stack: Seq<Pending>, g: Carving)
    requires
        carving(m, stack, g),
        stack.len() > 0,
        dropped(m, stack.last()),
    ensures
        carving(m, stack.drop_last(), g),
{
    reveal(carving);
    let e = stack.last();
    assert(pending_ok(m, stack[stack.len() - 1]));
    dropped_or_viable(m, e);
    dropping_keeps(open_of(m), m.spec_dims().0, m.spec_dims().1, stack, g);
    assert forall|i: int| 0 <= i < stack.drop_last().len() implies pending_ok(
        m,
        #[trigger] stack.drop_last()[i],
    ) by {
        assert(stack.drop_last()[i] == stack[i]);
    }
    if m.spec_dims().0 >= 3 && m.spec_dims().1 >= 3 && !m.cell_open(1, 1) {
        assert(stack[0] == (1usize, 1usize, 1usize, 1usize));
        assert(!dropped(m, e));
    }
}

/// Opening the cell of the entry on top of the stack, and putting the cells
/// next to it on the stack in any order, keeps what holds while the maze is
/// carved, and every open cell can still be reached. The result is what the
/// carving knows afterwards.
#[verifier::rlimit(100)]
pub proof fn carving_opens(
    before: &Maze2,
    after: &Maze2,
    stack: Seq<Pending>,
    nexts: Seq<(usize, usize)>,
    g: Carving,
) -> (g1: Carving)
    requires
        carving(before, stack, g),
        stack.len() > 0,
        !dropped(before, stack.last()),
        after.wf(),
        after.spec_dims() == before.spec_dims(),
        forall|a: int, b: int|
            after.cell_open(a, b) == (before.cell_open(a, b) || (a == stack.last().0 && b
                == stack.last().1)),
        forall|a: int, b: int| after.cell_marked(a, b) == before.cell_marked(a, b),
        forall|c: (usize, usize)|
            nexts.contains(c) == after.adjacent_cells(stack.last().0, stack.last().1).contains(c),
        forall|a: int, b: int| #[trigger]
            before.cell_open(a, b) ==> reachable(
                before,
                (1usize, 1usize),
                (a as usize, b as usize),
            ),
    ensures
        carving(after, stack.drop_last() + entries(nexts, cell_of(stack.last())), g1),
        forall|a: int, b: int| #[trigger]
            after.cell_open(a, b) ==> reachable(after, (1usize, 1usize), (a as usize, b as usize)),
{
    reveal(carving);
    let e = stack.last();
    let (x, y, px, py) = e;
    let open0 = open_of(before);
    let open1 = open_of(after);
    let w = before.spec_dims().0;
    let h = before.spec_dims().1;
    assert(pending_ok(before, stack[stack.len() - 1]));
    dropped_or_viable(before, e);
    adjacents_are_around(after, x, y, nexts);
    assert forall|c: (usize, usize)| #[trigger] open1(c) == (open0(c) || c == cell_of(e)) by {}
    let g1 = opening_keeps(open0, open1, w, h, stack, nexts, g);
    // every open cell can be reached
    assert forall|c: (usize, usize)| before.passable(c) implies after.passable(c) by {}
    assert forall|a: int, b: int| #[trigger] after.cell_open(a, b) implies reachable(
        after,
        (1usize, 1usize),
        (a as usize, b as usize),
    ) by {
        if a == x && b == y {
            if e == (1usize, 1usize, 1usize, 1usize) {
                reachable_self(after, (1usize, 1usize));
            } else {
                assert(before.cell_open(px as int, py as int));
                opening_keeps_reachable(before, after, (px, py));
                maze_step(after, (px, py), (x, y));
                reachable_step(after, (1usize, 1usize), (px, py), (Plain, (x, y)));
            }
        } else {
            assert(before.cell_open(a, b));
            opening_keeps_reachable(before, after, (a as usize, b as usize));
        }
    }
    assert forall|a: int, b: int| !after.cell_marked(a, b) by {
        assert(!before.cell_marked(a, b));
    }
    assert(carved(after));
    if w >= 3 && h >= 3 && !before.cell_open(1, 1) {
        assert(stack[0] == (1usize, 1usize, 1usize, 1usize));
    }
    let s1 = stack.drop_last() + entries(nexts, cell_of(e));
    assert forall|i: int| 0 <= i < s1.len() implies pending_ok(after, #[trigger] s1[i]) by {
        if i < stack.len() - 1 {
            assert(s1[i] == stack[i]);
            assert(pending_ok(before, stack[i]));
        } else {
            let j = i - (stack.len() - 1);
            assert(s1[i] == entries(nexts, cell_of(e))[j]);
            assert(nexts.contains(nexts[j]));
        }
    }
    g1
}

/// When the carving is done, the open cells hang together like a tree that
/// holds every room, the start and the goal among them.
#[verifier::rlimit(100)]
pub proof fn carving_ends(m: &Maze2, g: Carving)
    requires
        carving(m, Seq::<Pending>::empty(), g),
    ensures
        carved(m),
        m.spec_dims().0 >= 3 && m.spec_dims().1 >= 3 ==> m.cell_open(1, 1) && all_rooms_open(m)
            && tree_like(m) && m.cell_open(m.spec_dims().0 - 2, m.spec_dims().1 - 2),
{
    reveal(carving);
    let open = open_of(m);
    let w = m.spec_dims().0;
    let h = m.spec_dims().1;
    if w >= 3 && h >= 3 {
        assert(seq![(1usize, 1usize, 1usize, 1usize)].len() == 1);
        assert(m.cell_open(1, 1));
        assert forall|a: int, b: int|
            0 < a < w - 1 && 0 < b < h - 1 && a % 2 == 1 && b % 2
                == 1 implies #[trigger] m.cell_open(a, b) by {
            let i = ((a - 1) / 2) as nat;
            let j = ((b - 1) / 2) as nat;
            assert(open(root()));
            every_room_is_open(open, w, h, g, i, j);
            assert(open(((1 + 2 * i) as usize, (1 + 2 * j) as usize)));
        }
        assert(tree_links(open, g.parent, root())) by {
            reveal(carving_ok);
        }
        assert(m.cell_open(w - 2, h - 2));
    }
}

impl Maze2 {
    /// Opens the cell of the entry `e`, which has just left the stack, and
    /// puts the cells next to it on the stack in a random order.
    #[verifier::rlimit(100)]
    fn carve_into(
        maze: &mut Maze2,
        stack: &mut Vec<(usize, usize, usize, usize)>,
        rng: &mut StdRng,
        e: (usize, usize, usize, usize),
        Ghost(stack0): Ghost<Seq<Pending>>,
        Ghost(g): Ghost<Carving>,
    ) -> (g1: Ghost<Carving>)
        requires
            carving(old(maze), stack0, g),
            stack0.len() > 0,
            e == stack0.last(),
            old(stack)@ == stack0.drop_last(),
            !dropped(old(maze), e),
            forall|a: int, b: int| #[trigger]
                old(maze).cell_open(a, b) ==> reachable(
                    old(maze),
                    (1usize, 1usize),
                    (a as usize, b as usize),
                ),
        ensures
            carving(final(maze), final(stack)@, g1@),
            final(maze).spec_dims() == old(maze).spec_dims(),
            final(maze).walls() < old(maze).walls(),
            forall|a: int, b: int| #[trigger]
                final(maze).cell_open(a, b) ==> reachable(
                    final(maze),
                    (1usize, 1usize),
                    (a as usize, b as usize),
                ),
    {
        let ghost before = *maze;
        let (x, y, _, _) = e;
        proof {
            carving_is_carved(maze, stack0, g);
        }
        maze.set_open(x, y);
        let mut nexts = maze.adjacents(x, y);
        let ghost listed = nexts@;
        shuffle_cells(rng, &mut nexts);
        let ghost g1;
        proof {
            shuffled_holds_the_same(listed, nexts@);
            g1 = carving_opens(&before, maze, stack0, nexts@, g);
            assert(entries(nexts@.take(0), (x, y)) =~= Seq::<Pending>::empty());
            assert(stack@ =~= stack0.drop_last() + entries(nexts@.take(0), (x, y)));
        }
        let mut i: usize = 0;
        while i < nexts.len()
            invariant
                i <= nexts@.len(),
                stack@ == stack0.drop_last() + entries(nexts@.take(i as int), (x, y)),
            decreases nexts@.len() - i,
        {
            let (nx, ny) = nexts[i];
            stack.push((nx, ny, x, y));
            proof {
                assert(entries(nexts@.take(i + 1), (x, y)) =~= entries(
                    nexts@.take(i as int),
                    (x, y),
                ).push((nx, ny, x, y)));
                assert(stack@ =~= stack0.drop_last() + entries(nexts@.take(i + 1), (x, y)));
            }
            i += 1;
        }
        proof {
            assert(nexts@.take(nexts@.len() as int) =~= nexts@);
        }
        Ghost(g1)
    }

    /// A maze carved at random out of a grid of walls, from `(1, 1)`.
    ///
    /// A stack holds cells with the cell from which each was reached; it
    /// starts with `(1, 1)`, its own parent. An entry is dropped when its cell
    /// lies outside the maze or is open already, or when the cell one step
    /// further from the parent is open. Otherwise the cell is opened and the
    /// cells next to it go on the stack in a random order.
    ///
    /// Whatever the order, the open cells of the maze hang together like a
    /// tree that holds every room, so that one path leads from the start to
    /// the goal.
    #[verifier::rlimit(100)]
    pub fn random(width: usize, height: usize, rng: &mut StdRng) -> (m: Maze2)
        requires
            width > 0,
            height > 0,
            width % 2 != 0,
            height % 2 != 0,
            width * height <= usize::MAX,
        ensures
            carved(&m),
            m.spec_dims() == (width, height),
            forall|a: int, b: int| #[trigger]
                m.cell_open(a, b) ==> reachable(&m, (1usize, 1usize), (a as usize, b as usize)),
            width >= 3 && height >= 3 ==> m.cell_open(1, 1) && all_rooms_open(&m) && tree_like(&m)
                && reachable(&m, m.start_view(), m.goal_view()),
    {
        let mut maze = Maze2::new(width, height);
        let mut stack: Vec<(usize, usize, usize, usize)> = Vec::new();
        stack.push((1, 1, 1, 1));
        let ghost mut g = Carving { parent: Map::empty(), fresh: None };
        proof {
            carving_begins(&maze);
            assert(stack@ =~= seq![(1usize, 1usize, 1usize, 1usize)]);
        }
        while stack.len() > 0
            invariant
                maze.spec_dims() == (width, height),
                carving(&maze, stack@, g),
                forall|a: int, b: int| #[trigger]
                    maze.cell_open(a, b) ==> reachable(
                        &maze,
                        (1usize, 1usize),
                        (a as usize, b as usize),
                    ),
            decreases maze.walls(), stack@.len(),
        {
            let ghost before = maze;
            let ghost stack0 = stack@;
            proof {
                carving_is_carved(&maze, stack@, g);
            }
            let (x, y, px, py) = stack.pop().unwrap();
            assert(stack@ =~= stack0.drop_last());
            let skip: bool = !maze.in_bounds(x, y) || x == 0 || y == 0 || maze.is_open(x, y)
                || maze.is_open(one_further(x, px), one_further(y, py));
            if !skip {
                let next = Self::carve_into(
                    &mut maze,
                    &mut stack,
                    rng,
                    (x, y, px, py),
                    Ghost(stack0),
                    Ghost(g),
                );
                proof {
                    g = next@;
                }
            } else {
                proof {
                    assert(dropped(&before, stack0.last()));
                    carving_drops(&maze, stack0, g);
                }
            }
        }
        proof {
            assert(stack@ =~= Seq::<Pending>::empty());
            carving_ends(&maze, g);
        }
        maze
    }
}

/// The maze is open from a cell in a direction exactly where a step leads
/// from the cell to the cell next to it in that direction.
pub proof fn open_toward_is_a_step(m: &Maze2, x: usize, y: usize, h: Heading)
    requires
        m.wf(),
    ensures
        m.open_toward(x, y, h) == (0 <= toward((x, y), h).0 <= usize::MAX && 0 <= toward(
            (x, y),
            h,
        ).1 <= usize::MAX && m.moves((x, y)).contains(
            (Plain, (toward((x, y), h).0 as usize, toward((x, y), h).1 as usize)),
        )),
{
    let t = toward((x, y), h);
    if 0 <= t.0 <= usize::MAX && 0 <= t.1 <= usize::MAX {
        let to = (t.0 as usize, t.1 as usize);
        maze_step(m, (x, y), to);
        let s = m.adjacent_cells(x, y);
        let a = cell_if(x > 1 && y % 2 != 0, x - 1, y as int);
        let b = cell_if(y > 1 && x % 2 != 0, x as int, y - 1);
        let r = cell_if(x < m.spec_dims().0 - 2 && y % 2 != 0, x + 1, y as int);
        let d = cell_if(y < m.spec_dims().1 - 2 && x % 2 != 0, x as int, y + 1);
        assert(s == a + b + r + d);
        if s.contains(to) {
            m.adjacent_is_near(x, y, to);
            let i = choose|i: int| 0 <= i < s.len() && s[i] == to;
            if i < a.len() {
                assert(s[i] == a[i]);
            } else if i < a.len() + b.len() {
                assert(s[i] == b[i - a.len()]);
            } else if i < a.len() + b.len() + r.len() {
                assert(s[i] == r[i - a.len() - b.len()]);
            } else {
                assert(s[i] == d[i - a.len() - b.len() - r.len()]);
            }
        }
        match h {
            Heading::Left => {
                if a.len() > 0 {
                    assert(s[0] == to);
                }
            },
            Heading::Up => {
                if b.len() > 0 {
                    assert(s[a.len() as int] == to);
                }
            },
            Heading::Right => {
                if r.len() > 0 {
                    assert(s[(a.len() + b.len()) as int] == to);
                }
            },
            Heading::Down => {
                if d.len() > 0 {
                    assert(s[(a.len() + b.len() + r.len()) as int] == to);
                }
            },
        }
    }
}

/// Every step of a maze leads to a cell one step away.
pub proof fn moves_are_steps(m: &Maze2)
    requires
        m.wf(),
    ensures
        steps_by_one(m),
{
    assert forall|n: (usize, usize), k: int| 0 <= k < m.moves(n).len() implies manhattan(
        n,
        (#[trigger] m.moves(n)[k]).1,
    ) == 1 by {
        let step = m.moves(n)[k];
        assert(m.moves(n).contains(step));
        assert(step == (Plain, step.1));
        maze_step(m, n, step.1);
        m.adjacent_is_near(n.0, n.1, step.1);
    }
}

/// A walk from a cell of the maze stays in the maze.
pub proof fn walks_stay_inside(m: &Maze2, from: (usize, usize), w: Seq<(Plain, (usize, usize))>, i: int)
    requires
        m.wf(),
        m.has_cell(from.0 as int, from.1 as int),
        is_walk(m, from, w),
        0 <= i <= w.len(),
    ensures
        m.has_cell(walk_node(from, w, i).0 as int, walk_node(from, w, i).1 as int),
    decreases i,
{
    if i > 0 {
        walks_stay_inside(m, from, w, i - 1);
        let a = walk_node(from, w, i - 1);
        assert(m.moves(a).contains(w[i - 1]));
        assert(w[i - 1] == (Plain, w[i - 1].1));
        maze_step(m, a, w[i - 1].1);
        m.adjacent_is_near(a.0, a.1, w[i - 1].1);
    }
}

/// The path that A* finds in a maze is a shortest one: it has no more steps
/// than any walk from the start to the goal of fewer than 2000 steps, and no
/// more than any walk at all where the start and the goal are cells of the
/// maze and its width and height are 2001 together at most.
///
/// `path` is what `a_star_search` ensures of the path it finds.
pub proof fn a_star_path_is_shortest(
    m: &Maze2,
    path: Seq<(Plain, (usize, usize))>,
    w: Seq<(Plain, (usize, usize))>,
)
    requires
        m.wf(),
        leads_to_goal(m, path),
        forall|v: Seq<(Plain, (usize, usize))>|
            leads_to_goal(m, v) ==> no_dearer_than(m, walk_total(m, m.start_view(), path), v),
        leads_to_goal(m, w),
        w.len() < 2000 || (1000 * w.len() + 2002000 <= usize::MAX && m.spec_dims().0
            + m.spec_dims().1 <= 2001 && m.has_cell(
            m.start_view().0 as int,
            m.start_view().1 as int,
        ) && m.has_cell(m.goal_view().0 as int, m.goal_view().1 as int)),
    ensures
        path.len() <= w.len(),
{
    moves_are_steps(m);
    if w.len() >= 2000 {
        assert forall|i: int| 0 <= i <= w.len() implies manhattan(
            #[trigger] walk_node(m.start_view(), w, i),
            m.goal_view(),
        ) < 2000 by {
            walks_stay_inside(m, m.start_view(), w, i);
        }
    }
    no_dearer_means_no_longer(m, path, w);
}

/// In a carved maze every step from an open cell leads to an open cell.
pub proof fn steps_stay_on_open_cells(m: &Maze2)
    requires
        carved(m),
    ensures
        moves_stay(m, open_of(m)),
{
    let open = open_of(m);
    assert forall|n: (usize, usize), k: int|
        open(n) && 0 <= k < m.moves(n).len() implies open((#[trigger] m.moves(n)[k]).1) by {
        let step = m.moves(n)[k];
        assert(m.moves(n).contains(step));
        assert(step == (Plain, step.1));
        maze_step(m, n, step.1);
        m.adjacent_is_near(n.0, n.1, step.1);
    }
}

/// In a maze that was carved, only one walk leads from `(1, 1)` to a cell
/// without passing a cell twice.
pub proof fn one_path_in_a_carved_maze(
    m: &Maze2,
    v: Seq<(Plain, (usize, usize))>,
    w: Seq<(Plain, (usize, usize))>,
)
    requires
        carved(m),
        tree_like(m),
        m.cell_open(1, 1),
        is_walk(m, (1usize, 1usize), v),
        is_simple((1usize, 1usize), v),
        is_walk(m, (1usize, 1usize), w),
        is_simple((1usize, 1usize), w),
        walk_end((1usize, 1usize), v) == walk_end((1usize, 1usize), w),
    ensures
        v == w,
{
    let open = open_of(m);
    let parent = choose|parent: Map<(usize, usize), (usize, usize)>|
        tree_links(open_of(m), parent, root());
    moves_are_steps(m);
    steps_stay_on_open_cells(m);
    assert(open(root()));
    one_simple_walk(m, open, parent, root(), v, w);
}

/// In a maze that was carved, the path that A* finds and the path that the
/// depth-first search finds are one path, cell for cell: the only one from
/// the start to the goal that passes no cell twice.
pub proof fn engines_agree_on_a_carved_maze(
    m: &Maze2,
    max_states: usize,
    a: Report<Plain, (usize, usize)>,
    max_visits: usize,
    d: Report<Plain, (usize, usize)>,
)
    requires
        carved(m),
        tree_like(m),
        m.cell_open(1, 1),
        a_star_result(m, max_states, a),
        dfs_result(m, max_visits, d),
    ensures
        a.outcome matches Outcome::Found(p) ==> (d.outcome matches Outcome::Found(q)
            ==> steps_view(p@) == steps_view(q@)),
{
    if let Outcome::Found(p) = a.outcome {
        if let Outcome::Found(q) = d.outcome {
            one_path_in_a_carved_maze(m, steps_view(p@), steps_view(q@));
        }
    }
}

impl Graph for Maze2 {
    type Node = (usize, usize);

    type Edge = Plain;

    open spec fn well_formed(&self) -> bool {
        self.wf()
    }

    open spec fn start_view(&self) -> (usize, usize) {
        (1usize, 1usize)
    }

    open spec fn goal_view(&self) -> (usize, usize) {
        far_corner(self.spec_dims().0, self.spec_dims().1)
    }

    open spec fn moves(&self, n: (usize, usize)) -> Seq<(Plain, (usize, usize))> {
        steps_to(self.adjacent_cells(n.0, n.1), |c: (usize, usize)| self.passable(c))
    }

    open spec fn gap(&self, a: (usize, usize), b: (usize, usize)) -> nat {
        cell_gap(a, b)
    }

    fn start(&self) -> (n: (usize, usize)) {
        (1, 1)
    }

    fn goal(&self) -> (n: (usize, usize)) {
        (self.width.saturating_sub(2), self.height.saturating_sub(2))
    }

    fn neighbors(&self, n: &(usize, usize)) -> (out: Vec<(Plain, (usize, usize))>) {
        let cells = self.adjacents(n.0, n.1);
        let ghost keep = |c: (usize, usize)| self.passable(c);
        let mut out: Vec<(Plain, (usize, usize))> = Vec::new();
        let mut i: usize = 0;
        while i < cells.len()
            invariant
                self.wf(),
                i <= cells@.len(),
                keep == (|c: (usize, usize)| self.passable(c)),
                out@ == steps_to(cells@.take(i as int), keep),
            decreases cells@.len() - i,
        {
            let c = cells[i];
            proof {
                assert(cells@.take(i + 1).drop_last() =~= cells@.take(i as int));
            }
            if self.is_open(c.0, c.1) {
                out.push((Plain, c));
            }
            i += 1;
        }
        proof {
            assert(cells@.take(cells@.len() as int) =~= cells@);
        }
        out
    }

    fn distance(&self, a: &(usize, usize), b: &(usize, usize)) -> (d: usize) {
        cell_distance(*a, *b)
    }
}

} // verus!
