//! A gravity puzzle: a snake of several segments moves its head one cell at
//! a time, grows where it eats fruit, falls until something holds it, dies on
//! spikes that nothing else holds it above, and leaves through the exit once
//! no fruit is left.

use crate::graph::{is_walk, walk_node, Graph, SearchNode};
use crate::grid::{cell_index, cell_index_in_range, span};
use crate::level_text::{
    code_for, digit_char, digit_of, fruit_before, is_fruit_char, level_char, nothing_read_yet,
    read_upto, row_keeps_reading, slot_ok, small_board, sound_upto, step_keeps_reading, BLOCK,
    EMPTY, FRUIT, KILL, MAX_FRUIT, NOWHERE,
};
use crate::stored::{
    earlier, has_char, last_before, longest_row, longest_row_bounds, occurs, rows, widest,
    ParseError, Stored,
};
use vstd::prelude::*;

verus! {

/// How far a snake can fall in one move: a fall of this many cells or more
/// takes it off the board.
pub const FALL_LIMIT: usize = 100;

/// What a cell holds for a snake in a given state.
#[derive(Clone, Copy, Debug, PartialEq, Eq)]
pub enum Cell {
    Block,
    Kill,
    Free,
    /// The fruit of this number, not yet eaten.
    Fruit(usize),
}

/// Whether bit `k` of `mask` is set.
pub open spec fn has_bit(mask: u64, k: u64) -> bool {
    (mask >> k) & 1 == 1
}

/// The number of bits set among the lowest `n` bits of `mask`.
pub open spec fn ones_below(mask: u64, n: nat) -> nat
    decreases n,
{
    if n == 0 {
        0
    } else {
        ones_below(mask, (n - 1) as nat) + if has_bit(mask, (n - 1) as u64) {
            1nat
        } else {
            0nat
        }
    }
}

/// The number of bits set in `mask`.
pub open spec fn ones(mask: u64) -> nat {
    ones_below(mask, 64)
}

/// Counts the bits set in `mask`.
pub fn count_ones(mask: u64) -> (n: usize)
    ensures
        n == ones(mask),
        n <= 64,
{
    let mut n: usize = 0;
    let mut k: u64 = 0;
    while k < 64
        invariant
            k <= 64,
            n == ones_below(mask, k as nat),
            n <= k,
        decreases 64 - k,
    {
        if (mask >> k) & 1 == 1 {
            n += 1;
        }
        k += 1;
    }
    n
}

/// A state of the puzzle as a value: the cells of the snake from its head to
/// its tail, and the fruit that is left, one bit for each.
pub struct StateView {
    pub snake: Seq<(u8, u8)>,
    pub fruits_left: u64,
}

/// A state of the puzzle. The state without a snake and without fruit is the
/// goal: the snake has left.
#[derive(Debug)]
pub struct State {
    snake: Vec<(u8, u8)>,
    fruits_left: u64,
}

impl View for State {
    type V = StateView;

    closed spec fn view(&self) -> StateView {
        StateView { snake: self.snake@, fruits_left: self.fruits_left }
    }
}

impl State {
    /// The goal state: no snake, no fruit.
    pub fn new() -> (s: State)
        ensures
            s@ == (StateView { snake: Seq::empty(), fruits_left: 0 }),
    {
        State { snake: Vec::new(), fruits_left: 0 }
    }

    /// A state with the given snake, head first, and the given fruit left.
    pub fn of(snake: Vec<(u8, u8)>, fruits_left: u64) -> (s: State)
        ensures
            s@ == (StateView { snake: snake@, fruits_left }),
    {
        State { snake, fruits_left }
    }

    /// The cells of the snake, head first.
    pub fn snake(&self) -> (r: &Vec<(u8, u8)>)
        ensures
            r@ == self@.snake,
    {
        &self.snake
    }

    /// The fruit that is left, one bit for each.
    pub fn fruits_left(&self) -> (r: u64)
        ensures
            r == self@.fruits_left,
    {
        self.fruits_left
    }

    /// Where the head is: the first cell of the snake, and the exit of the
    /// level once the snake has left.
    pub fn head(&self, level: &Level) -> (r: (u8, u8))
        ensures
            r == head_of(self@, level.exit_cell()),
    {
        if self.snake.len() == 0 {
            level.exit
        } else {
            self.snake[0]
        }
    }
}

/// Where the head of a state is, in a level with the given exit.
pub open spec fn head_of(s: StateView, exit: (u8, u8)) -> (u8, u8) {
    if s.snake.len() == 0 {
        exit
    } else {
        s.snake[0]
    }
}

/// A digest with one more cell mixed in: the digest turned by five bits,
/// with the cell laid over it.
pub open spec fn mixed(h: u64, c: (u8, u8)) -> u64 {
    ((h << 5) | (h >> 59)) ^ (((c.0 as u64) << 8) | (c.1 as u64))
}

/// The digest of the first `n` cells of a snake, begun with `seed`.
pub open spec fn snake_digest(snake: Seq<(u8, u8)>, n: int, seed: u64) -> u64
    decreases n,
{
    if n <= 0 {
        seed
    } else {
        mixed(snake_digest(snake, n - 1, seed), snake[n - 1])
    }
}

impl SearchNode for State {
    /// The fruit that is left with the cells of the snake mixed in, from the
    /// head to the tail.
    open spec fn digest_of(v: StateView) -> u64 {
        snake_digest(v.snake, v.snake.len() as int, v.fruits_left)
    }

    fn digest(&self) -> (h: u64) {
        let mut h: u64 = self.fruits_left;
        let mut i: usize = 0;
        while i < self.snake.len()
            invariant
                i <= self.snake@.len(),
                h == snake_digest(self.snake@, i as int, self.fruits_left),
            decreases self.snake@.len() - i,
        {
            let c = self.snake[i];
            h = ((h << 5) | (h >> 59)) ^ (((c.0 as u64) << 8) | (c.1 as u64));
            i += 1;
        }
        h
    }

    fn same(&self, other: &State) -> (r: bool) {
        if self.fruits_left != other.fruits_left || self.snake.len() != other.snake.len() {
            return false;
        }
        let mut i: usize = 0;
        while i < self.snake.len()
            invariant
                i <= self.snake@.len(),
                self.snake@.len() == other.snake@.len(),
                forall|j: int| 0 <= j < i ==> self.snake@[j] == other.snake@[j],
            decreases self.snake@.len() - i,
        {
            if self.snake[i].0 != other.snake[i].0 || self.snake[i].1 != other.snake[i].1 {
                return false;
            }
            i += 1;
        }
        assert(self.snake@ =~= other.snake@);
        true
    }

    fn duplicate(&self) -> (r: State) {
        let mut snake: Vec<(u8, u8)> = Vec::with_capacity(self.snake.len());
        let mut i: usize = 0;
        while i < self.snake.len()
            invariant
                i <= self.snake@.len(),
                snake@ == self.snake@.take(i as int),
            decreases self.snake@.len() - i,
        {
            snake.push(self.snake[i]);
            assert(self.snake@.take(i + 1) =~= self.snake@.take(i as int).push(
                self.snake@[i as int],
            ));
            i += 1;
        }
        assert(self.snake@.take(self.snake@.len() as int) =~= self.snake@);
        State { snake, fruits_left: self.fruits_left }
    }
}

/// A level: a board of cells, the fruit on it, the snake at the outset and
/// the exit.
pub struct Level {
    width: usize,
    height: usize,
    map: Vec<u8>,
    fruits: Vec<(u8, u8)>,
    initial_snake: Vec<(u8, u8)>,
    exit: (u8, u8),
}

impl Level {
    /// The invariant of a level: the board has cells, no more than 255 each
    /// way, and each cell holds the code of something: nothing, a block,
    /// spikes, or one of the level's fruit, of which there are 41 at most.
    pub closed spec fn wf(&self) -> bool {
        &&& 0 < self.width <= 255
        &&& 0 < self.height <= 255
        &&& self.map@.len() == self.width * self.height
        &&& self.fruits@.len() <= MAX_FRUIT
        &&& forall|i: int|
            0 <= i < self.map@.len() ==> (#[trigger] self.map@[i]) <= KILL || FRUIT <= self.map@[i]
                < FRUIT + self.fruits@.len()
    }

    /// Width and height.
    pub closed spec fn spec_dims(&self) -> (usize, usize) {
        (self.width, self.height)
    }

    /// The code of the cell `(x, y)` of the board.
    pub closed spec fn code(&self, x: int, y: int) -> u8 {
        self.map@[cell_index(self.width, x, y)]
    }

    /// Where each fruit lies.
    pub closed spec fn fruit_cells(&self) -> Seq<(u8, u8)> {
        self.fruits@
    }

    /// The snake at the outset, head first.
    pub closed spec fn first_snake(&self) -> Seq<(u8, u8)> {
        self.initial_snake@
    }

    /// The exit, `NOWHERE` where the level has none.
    pub closed spec fn exit_cell(&self) -> (u8, u8) {
        self.exit
    }

    /// Whether `(x, y)` is a cell of the board.
    pub open spec fn has_cell(&self, x: int, y: int) -> bool {
        0 <= x < self.spec_dims().0 && 0 <= y < self.spec_dims().1
    }

    /// What the cell `(x, y)` of the board holds when the fruit in `fruits` is
    /// left: fruit that has been eaten leaves its cell free.
    pub open spec fn tile(&self, x: int, y: int, fruits: u64) -> Cell {
        let c = self.code(x, y);
        if c == BLOCK {
            Cell::Block
        } else if c == KILL {
            Cell::Kill
        } else if c >= FRUIT && has_bit(fruits, (c - FRUIT) as u64) {
            Cell::Fruit((c - FRUIT) as usize)
        } else {
            Cell::Free
        }
    }

    /// Whether a head can move to `(x, y)`: it is a cell of the board and no
    /// block.
    pub open spec fn can_enter(&self, x: int, y: int, fruits: u64) -> bool {
        self.has_cell(x, y) && self.tile(x, y, fruits) != Cell::Block
    }

    /// Whether `(x, y)` is a cell of the board that holds up what is above
    /// it: a block, spikes or fruit.
    pub open spec fn holds_up(&self, x: int, y: int, fruits: u64) -> bool {
        self.has_cell(x, y) && self.tile(x, y, fruits) != Cell::Free
    }

    /// Width and height.
    pub fn dims(&self) -> (d: (usize, usize))
        ensures
            d == self.spec_dims(),
    {
        (self.width, self.height)
    }

    /// The snake at the outset, head first.
    pub fn initial_snake(&self) -> (r: &Vec<(u8, u8)>)
        ensures
            r@ == self.first_snake(),
    {
        &self.initial_snake
    }

    /// Where each fruit lies.
    pub fn fruits(&self) -> (r: &Vec<(u8, u8)>)
        ensures
            r@ == self.fruit_cells(),
    {
        &self.fruits
    }

    /// The exit, `NOWHERE` where the level has none.
    pub fn exit(&self) -> (r: (u8, u8))
        ensures
            r == self.exit_cell(),
    {
        self.exit
    }

    /// What the cell `(x, y)` holds for a snake in `state`.
    pub fn cell_type(&self, x: usize, y: usize, state: &State) -> (c: Cell)
        requires
            self.wf(),
            self.has_cell(x as int, y as int),
        ensures
            c == self.tile(x as int, y as int, state@.fruits_left),
    {
        self.tile_at(x, y, state.fruits_left)
    }

    /// What the cell `(x, y)` holds when the fruit in `fruits` is left.
    pub fn tile_at(&self, x: usize, y: usize, fruits: u64) -> (c: Cell)
        requires
            self.wf(),
            self.has_cell(x as int, y as int),
        ensures
            c == self.tile(x as int, y as int, fruits),
            c matches Cell::Fruit(k) ==> k < MAX_FRUIT,
    {
        proof {
            small_board(self.width, self.height);
            cell_index_in_range(self.width, self.height, x as int, y as int);
        }
        let code: u8 = self.map[y * self.width + x];
        if code == BLOCK {
            Cell::Block
        } else if code == KILL {
            Cell::Kill
        } else if code >= FRUIT {
            let k: u8 = code - FRUIT;
            if (fruits >> (k as u64)) & 1 == 1 {
                Cell::Fruit(k as usize)
            } else {
                Cell::Free
            }
        } else {
            Cell::Free
        }
    }

    /// Whether `(x, y)` holds up what is above it when the fruit in `fruits`
    /// is left.
    pub fn holds_up_at(&self, x: usize, y: usize, fruits: u64) -> (r: bool)
        requires
            self.wf(),
        ensures
            r == self.holds_up(x as int, y as int, fruits),
    {
        if x >= self.width || y >= self.height {
            return false;
        }
        match self.tile_at(x, y, fruits) {
            Cell::Free => false,
            _ => true,
        }
    }

    /// Whether a head can move to `(x, y)`.
    pub fn enterable(&self, x: usize, y: usize, state: &State) -> (r: bool)
        requires
            self.wf(),
        ensures
            r == self.can_enter(x as int, y as int, state@.fruits_left),
    {
        if x >= self.width || y >= self.height {
            return false;
        }
        match self.cell_type(x, y, state) {
            Cell::Block => false,
            _ => true,
        }
    }

    /// Whether `(x, y)` holds up what is above it.
    pub fn supportive(&self, x: usize, y: usize, state: &State) -> (r: bool)
        requires
            self.wf(),
        ensures
            r == self.holds_up(x as int, y as int, state@.fruits_left),
    {
        self.holds_up_at(x, y, state.fruits_left)
    }
}

/// The snake one row further down for each unit of `f`.
pub open spec fn shifted(body: Seq<(u8, u8)>, f: int) -> Seq<(u8, u8)> {
    Seq::new(body.len(), |i: int| (body[i].0, (body[i].1 + f) as u8))
}

/// The state in which the snake has left.
pub open spec fn gone() -> StateView {
    StateView { snake: Seq::empty(), fruits_left: 0 }
}

/// The fruit that is left once fruit `k` is eaten.
pub open spec fn without_fruit(fruits: u64, k: usize) -> u64 {
    fruits & !(1u64 << (k as u64))
}

impl Level {
    /// Whether the segment `seg`, fallen by `f`, lies right above a cell that
    /// holds it up.
    pub open spec fn held(&self, seg: (u8, u8), fruits: u64, f: int) -> bool {
        self.holds_up(seg.0 as int, seg.1 + f + 1, fruits)
    }

    /// Whether the snake, fallen by `f`, rests on something: some segment of
    /// it lies right above a block, spikes or fruit.
    pub open spec fn rests(&self, body: Seq<(u8, u8)>, fruits: u64, f: int) -> bool {
        exists|i: int| 0 <= i < body.len() && self.held(#[trigger] body[i], fruits, f)
    }

    /// The least fall from `f` on, and short of `FALL_LIMIT`, after which the
    /// snake rests on something.
    pub open spec fn first_rest(&self, body: Seq<(u8, u8)>, fruits: u64, f: nat) -> Option<nat>
        decreases FALL_LIMIT - f,
    {
        if f >= FALL_LIMIT {
            None
        } else if self.rests(body, fruits, f as int) {
            Some(f)
        } else {
            self.first_rest(body, fruits, f + 1)
        }
    }

    /// Whether every segment of the snake, fallen by `f`, is on the board.
    pub open spec fn on_board(&self, body: Seq<(u8, u8)>, f: int) -> bool {
        forall|i: int|
            0 <= i < body.len() ==> self.has_cell(
                (#[trigger] body[i]).0 as int,
                body[i].1 + f,
            )
    }

    /// Whether the segment lies right above spikes.
    pub open spec fn above_spikes(&self, seg: (u8, u8), fruits: u64) -> bool {
        self.has_cell(seg.0 as int, seg.1 + 1) && self.tile(seg.0 as int, seg.1 + 1, fruits)
            == Cell::Kill
    }

    /// Whether the segment lies right above a block or fruit.
    pub open spec fn above_ground(&self, seg: (u8, u8), fruits: u64) -> bool {
        self.has_cell(seg.0 as int, seg.1 + 1) && self.tile(seg.0 as int, seg.1 + 1, fruits)
            != Cell::Kill && self.tile(seg.0 as int, seg.1 + 1, fruits) != Cell::Free
    }

    /// Whether some segment of the snake lies right above spikes.
    pub open spec fn on_spikes(&self, body: Seq<(u8, u8)>, fruits: u64) -> bool {
        exists|i: int| 0 <= i < body.len() && self.above_spikes(#[trigger] body[i], fruits)
    }

    /// Whether some segment of the snake lies right above a block or fruit.
    pub open spec fn on_ground(&self, body: Seq<(u8, u8)>, fruits: u64) -> bool {
        exists|i: int| 0 <= i < body.len() && self.above_ground(#[trigger] body[i], fruits)
    }

    /// Where a move of the head by `(dx, dy)` leads from `s`, or `None` where
    /// the move is not legal.
    ///
    /// The head may not leave the board, enter a block, or enter a cell of
    /// the snake as it lies, tail included. The snake grows by the new head
    /// where that eats fruit, and else gives up its tail. It then falls until
    /// one of its segments lies right above a block, spikes or fruit; a move
    /// after which it would fall by `FALL_LIMIT` or by so much that a segment
    /// leaves the board is not legal. Nor is a move that takes the head into
    /// spikes or leaves a segment right above spikes, unless some segment of
    /// the fallen snake lies right above a block or fruit. A legal move that
    /// took the head to the exit with no fruit left leads to the state in
    /// which the snake has left.
    pub open spec fn step(&self, s: StateView, dx: int, dy: int) -> Option<StateView> {
        if s.snake.len() == 0 {
            None
        } else {
            let x = s.snake[0].0 + dx;
            let y = s.snake[0].1 + dy;
            let c = (x as u8, y as u8);
            if !self.can_enter(x, y, s.fruits_left) || s.snake.contains(c) {
                None
            } else {
                let t = self.tile(x, y, s.fruits_left);
                let fruits = match t {
                    Cell::Fruit(k) => without_fruit(s.fruits_left, k),
                    _ => s.fruits_left,
                };
                let body = match t {
                    Cell::Fruit(_) => seq![c] + s.snake,
                    _ => seq![c] + s.snake.drop_last(),
                };
                match self.first_rest(body, fruits, 0) {
                    None => None,
                    Some(f) => {
                        let settled = shifted(body, f as int);
                        if !self.on_board(body, f as int) {
                            None
                        } else if (t == Cell::Kill || self.on_spikes(settled, fruits))
                            && !self.on_ground(settled, fruits) {
                            None
                        } else if fruits == 0 && c == self.exit_cell() {
                            Some(gone())
                        } else {
                            Some(StateView { snake: settled, fruits_left: fruits })
                        }
                    },
                }
            }
        }
    }

    /// The move of the head by `(dx, dy)` as a list: the move with its label,
    /// or nothing where the move is not legal.
    pub open spec fn attempt(&self, s: StateView, label: char, dx: int, dy: int) -> Seq<
        (char, StateView),
    > {
        match self.step(s, dx, dy) {
            Some(t) => seq![(label, t)],
            None => Seq::empty(),
        }
    }

    /// How the cell `(x, y)` of the board is drawn by itself: a blank, `#` for
    /// a block, `$` for spikes, `@` for fruit.
    pub open spec fn map_char(&self, x: int, y: int) -> char {
        let c = self.code(x, y);
        if c == EMPTY {
            ' '
        } else if c == BLOCK {
            '#'
        } else if c == KILL {
            '$'
        } else if FRUIT <= c <= 50 {
            '@'
        } else {
            '?'
        }
    }

    /// How the cell `(x, y)` of the board is drawn by itself.
    pub fn char(&self, x: usize, y: usize) -> (c: char)
        requires
            self.wf(),
            self.has_cell(x as int, y as int),
        ensures
            c == self.map_char(x as int, y as int),
    {
        proof {
            small_board(self.width, self.height);
            cell_index_in_range(self.width, self.height, x as int, y as int);
        }
        let code: u8 = self.map[y * self.width + x];
        if code == EMPTY {
            ' '
        } else if code == BLOCK {
            '#'
        } else if code == KILL {
            '$'
        } else if FRUIT <= code && code <= 50 {
            '@'
        } else {
            '?'
        }
    }

    /// How the cell `(x, y)` is drawn with a snake in state `s`: `X` for the
    /// exit, `o` for the head of the snake and `.` for the rest of it, and
    /// else `#` for a block, `$` for spikes, `@` for fruit that is left, and a
    /// blank.
    pub open spec fn glyph_at(&self, x: int, y: int, s: StateView) -> char {
        if (x, y) == (self.exit_cell().0 as int, self.exit_cell().1 as int) {
            'X'
        } else if s.snake.contains((x as u8, y as u8)) {
            if s.snake[0] == (x as u8, y as u8) {
                'o'
            } else {
                '.'
            }
        } else {
            match self.tile(x, y, s.fruits_left) {
                Cell::Block => '#',
                Cell::Kill => '$',
                Cell::Free => ' ',
                Cell::Fruit(_) => '@',
            }
        }
    }

    /// How the cell `(x, y)` is drawn with a snake in `state`.
    pub fn glyph(&self, x: usize, y: usize, state: &State) -> (c: char)
        requires
            self.wf(),
            self.has_cell(x as int, y as int),
        ensures
            c == self.glyph_at(x as int, y as int, state@),
    {
        proof {
            self.wf_bounds();
        }
        let pos: (u8, u8) = (x as u8, y as u8);
        if pos.0 == self.exit.0 && pos.1 == self.exit.1 {
            'X'
        } else if Self::hits(&state.snake, pos) {
            if state.snake[0].0 == pos.0 && state.snake[0].1 == pos.1 {
                'o'
            } else {
                '.'
            }
        } else {
            match self.cell_type(x, y, state) {
                Cell::Block => '#',
                Cell::Kill => '$',
                Cell::Free => ' ',
                Cell::Fruit(_) => '@',
            }
        }
    }

    /// The board with a snake in `state` as rows of glyphs, from the top.
    pub fn render(&self, state: &State) -> (out: Vec<Vec<char>>)
        requires
            self.wf(),
        ensures
            out@.len() == self.spec_dims().1,
            forall|y: int| 0 <= y < out@.len() ==> (#[trigger] out@[y])@.len() == self.spec_dims().0,
            forall|x: int, y: int|
                0 <= y < out@.len() && 0 <= x < self.spec_dims().0 ==> #[trigger] out@[y]@[x]
                    == self.glyph_at(x, y, state@),
    {
        let mut out: Vec<Vec<char>> = Vec::new();
        let mut y: usize = 0;
        while y < self.height
            invariant
                self.wf(),
                y <= self.height,
                out@.len() == y,
                forall|b: int| 0 <= b < y ==> (#[trigger] out@[b])@.len() == self.width,
                forall|a: int, b: int|
                    0 <= b < y && 0 <= a < self.width ==> #[trigger] out@[b]@[a] == self.glyph_at(
                        a,
                        b,
                        state@,
                    ),
            decreases self.height - y,
        {
            let mut row: Vec<char> = Vec::new();
            let mut x: usize = 0;
            while x < self.width
                invariant
                    self.wf(),
                    y < self.height,
                    x <= self.width,
                    row@.len() == x,
                    forall|a: int|
                        0 <= a < x ==> #[trigger] row@[a] == self.glyph_at(a, y as int, state@),
                decreases self.width - x,
            {
                row.push(self.glyph(x, y, state));
                x += 1;
            }
            out.push(row);
            y += 1;
        }
        out
    }

    /// A level has no more than 255 cells each way.
    pub proof fn wf_bounds(&self)
        requires
            self.wf(),
        ensures
            0 < self.spec_dims().0 <= 255,
            0 < self.spec_dims().1 <= 255,
            self.fruit_cells().len() <= MAX_FRUIT,
    {
    }

    /// Whether the cell `c` is part of the snake.
    pub fn hits(snake: &Vec<(u8, u8)>, c: (u8, u8)) -> (r: bool)
        ensures
            r == snake@.contains(c),
    {
        let mut i: usize = 0;
        while i < snake.len()
            invariant
                i <= snake@.len(),
                forall|j: int| 0 <= j < i ==> snake@[j] != c,
            decreases snake@.len() - i,
        {
            if snake[i].0 == c.0 && snake[i].1 == c.1 {
                return true;
            }
            i += 1;
        }
        false
    }

    /// The snake with `c` for its new head, and without its tail unless it
    /// grows.
    pub fn advance(snake: &Vec<(u8, u8)>, c: (u8, u8), grows: bool) -> (body: Vec<(u8, u8)>)
        requires
            snake@.len() > 0,
        ensures
            body@ == seq![c] + (if grows {
                snake@
            } else {
                snake@.drop_last()
            }),
    {
        let keep: usize = if grows {
            snake.len()
        } else {
            snake.len() - 1
        };
        let mut body: Vec<(u8, u8)> = Vec::new();
        body.push(c);
        let mut i: usize = 0;
        while i < keep
            invariant
                i <= keep <= snake@.len(),
                body@ == seq![c] + snake@.take(i as int),
            decreases keep - i,
        {
            body.push(snake[i]);
            assert(snake@.take(i + 1) =~= snake@.take(i as int).push(snake@[i as int]));
            assert(body@ =~= seq![c] + snake@.take(i + 1));
            i += 1;
        }
        proof {
            if grows {
                assert(snake@.take(keep as int) =~= snake@);
            } else {
                assert(snake@.take(keep as int) =~= snake@.drop_last());
            }
        }
        body
    }

    /// Whether the snake, fallen by `f`, rests on something.
    pub fn rests_after(&self, body: &Vec<(u8, u8)>, fruits: u64, f: usize) -> (r: bool)
        requires
            self.wf(),
            f < FALL_LIMIT,
        ensures
            r == self.rests(body@, fruits, f as int),
    {
        let mut i: usize = 0;
        while i < body.len()
            invariant
                self.wf(),
                f < FALL_LIMIT,
                i <= body@.len(),
                forall|j: int| 0 <= j < i ==> !self.held(#[trigger] body@[j], fruits, f as int),
            decreases body@.len() - i,
        {
            let seg = body[i];
            if self.holds_up_at(seg.0 as usize, seg.1 as usize + f + 1, fruits) {
                assert(self.held(body@[i as int], fruits, f as int));
                return true;
            }
            i += 1;
        }
        false
    }

    /// How far the snake falls: the least fall short of `FALL_LIMIT` after
    /// which it rests on something, if there is one.
    pub fn fall(&self, body: &Vec<(u8, u8)>, fruits: u64) -> (r: Option<usize>)
        requires
            self.wf(),
        ensures
            match r {
                Some(f) => self.first_rest(body@, fruits, 0) == Some(f as nat),
                None => self.first_rest(body@, fruits, 0) is None,
            },
    {
        let mut f: usize = 0;
        while f < FALL_LIMIT
            invariant
                self.wf(),
                f <= FALL_LIMIT,
                self.first_rest(body@, fruits, 0) == self.first_rest(body@, fruits, f as nat),
            decreases FALL_LIMIT - f,
        {
            if self.rests_after(body, fruits, f) {
                return Some(f);
            }
            f += 1;
        }
        None
    }

    /// The snake fallen by `f`, or `None` where that takes a segment off the
    /// board.
    pub fn settle(&self, body: &Vec<(u8, u8)>, f: usize) -> (r: Option<Vec<(u8, u8)>>)
        requires
            self.wf(),
            f < FALL_LIMIT,
        ensures
            match r {
                Some(settled) => self.on_board(body@, f as int) && settled@ == shifted(
                    body@,
                    f as int,
                ),
                None => !self.on_board(body@, f as int),
            },
    {
        let mut settled: Vec<(u8, u8)> = Vec::with_capacity(body.len());
        let mut i: usize = 0;
        while i < body.len()
            invariant
                self.wf(),
                f < FALL_LIMIT,
                i <= body@.len(),
                settled@.len() == i,
                forall|j: int|
                    0 <= j < i ==> self.has_cell((#[trigger] body@[j]).0 as int, body@[j].1 + f),
                forall|j: int| 0 <= j < i ==> settled@[j] == (body@[j].0, (body@[j].1 + f) as u8),
            decreases body@.len() - i,
        {
            let seg = body[i];
            let y: usize = seg.1 as usize + f;
            if seg.0 as usize >= self.width || y >= self.height {
                assert(!self.has_cell(body@[i as int].0 as int, body@[i as int].1 + f));
                return None;
            }
            settled.push((seg.0, y as u8));
            i += 1;
        }
        assert(settled@ =~= shifted(body@, f as int));
        Some(settled)
    }

    /// Whether some segment of the snake lies right above spikes, and whether
    /// some segment lies right above a block or fruit.
    pub fn footing(&self, body: &Vec<(u8, u8)>, fruits: u64) -> (r: (bool, bool))
        requires
            self.wf(),
        ensures
            r.0 == self.on_spikes(body@, fruits),
            r.1 == self.on_ground(body@, fruits),
    {
        let mut spikes: bool = false;
        let mut ground: bool = false;
        let mut i: usize = 0;
        while i < body.len()
            invariant
                self.wf(),
                i <= body@.len(),
                spikes == (exists|j: int|
                    0 <= j < i && self.above_spikes(#[trigger] body@[j], fruits)),
                ground == (exists|j: int|
                    0 <= j < i && self.above_ground(#[trigger] body@[j], fruits)),
            decreases body@.len() - i,
        {
            let seg = body[i];
            let x: usize = seg.0 as usize;
            let y: usize = seg.1 as usize + 1;
            if x < self.width && y < self.height {
                match self.tile_at(x, y, fruits) {
                    Cell::Kill => {
                        spikes = true;
                    },
                    Cell::Block => {
                        ground = true;
                    },
                    Cell::Fruit(_) => {
                        ground = true;
                    },
                    Cell::Free => {},
                }
            }
            proof {
                let seg_v = body@[i as int];
                if self.above_spikes(seg_v, fruits) {
                    assert(spikes);
                }
                if self.above_ground(seg_v, fruits) {
                    assert(ground);
                }
            }
            i += 1;
        }
        (spikes, ground)
    }

    /// Where a move of the head by `(dx, dy)` leads from `s`, or `None` where
    /// the move is not legal: see `step`.
    #[verifier::rlimit(100)]
    pub fn try_move(&self, s: &State, dx: i32, dy: i32) -> (r: Option<State>)
        requires
            self.wf(),
            -1 <= dx <= 1,
            -1 <= dy <= 1,
        ensures
            match r {
                Some(t) => self.step(s@, dx as int, dy as int) == Some(t@),
                None => self.step(s@, dx as int, dy as int) is None,
            },
    {
        if s.snake.len() == 0 {
            return None;
        }
        let x: i32 = s.snake[0].0 as i32 + dx;
        let y: i32 = s.snake[0].1 as i32 + dy;
        if x < 0 || y < 0 {
            return None;
        }
        if !self.enterable(x as usize, y as usize, s) {
            return None;
        }
        let c: (u8, u8) = (x as u8, y as u8);
        if Self::hits(&s.snake, c) {
            return None;
        }
        let t = self.tile_at(x as usize, y as usize, s.fruits_left);
        let (fruits, grows): (u64, bool) = match t {
            Cell::Fruit(k) => (s.fruits_left & !(1u64 << (k as u64)), true),
            _ => (s.fruits_left, false),
        };
        let body = Self::advance(&s.snake, c, grows);
        let f: usize = match self.fall(&body, fruits) {
            None => {
                return None;
            },
            Some(f) => f,
        };
        proof {
            self.first_rest_is_short(body@, fruits, 0);
        }
        let settled: Vec<(u8, u8)> = match self.settle(&body, f) {
            None => {
                return None;
            },
            Some(settled) => settled,
        };
        let (spikes, ground) = self.footing(&settled, fruits);
        let deadly: bool = match t {
            Cell::Kill => true,
            _ => spikes,
        };
        if deadly && !ground {
            return None;
        }
        if fruits == 0 && c.0 == self.exit.0 && c.1 == self.exit.1 {
            return Some(State::new());
        }
        Some(State { snake: settled, fruits_left: fruits })
    }

    /// A fall is shorter than `FALL_LIMIT`.
    pub proof fn first_rest_is_short(&self, body: Seq<(u8, u8)>, fruits: u64, f: nat)
        ensures
            self.first_rest(body, fruits, f) matches Some(r) ==> f <= r < FALL_LIMIT && self.rests(
                body,
                fruits,
                r as int,
            ),
        decreases FALL_LIMIT - f,
    {
        if f < FALL_LIMIT && !self.rests(body, fruits, f as int) {
            self.first_rest_is_short(body, fruits, f + 1);
        }
    }
}

impl Graph for Level {
    type Node = State;

    type Edge = char;

    open spec fn well_formed(&self) -> bool {
        self.wf()
    }

    /// The snake as it lies at the outset, with all the fruit left: one bit
    /// for each fruit of the level.
    open spec fn start_view(&self) -> StateView {
        StateView {
            snake: self.first_snake(),
            fruits_left: (((1u64 << (self.fruit_cells().len() as u64)) - 1) as u64),
        }
    }

    open spec fn goal_view(&self) -> StateView {
        gone()
    }

    /// The legal moves of the head: left `<`, right `>`, up `^`, down `v`, in
    /// this order.
    open spec fn moves(&self, n: StateView) -> Seq<(char, StateView)> {
        self.attempt(n, '<', -1, 0) + self.attempt(n, '>', 1, 0) + self.attempt(n, '^', 0, -1)
            + self.attempt(n, 'v', 0, 1)
    }

    /// The number of fruit that one state has left and the other has not,
    /// plus the Manhattan distance between the two heads.
    open spec fn gap(&self, a: StateView, b: StateView) -> nat {
        ones(a.fruits_left ^ b.fruits_left) + span(
            head_of(a, self.exit_cell()).0 as usize,
            head_of(b, self.exit_cell()).0 as usize,
        ) + span(head_of(a, self.exit_cell()).1 as usize, head_of(b, self.exit_cell()).1 as usize)
    }

    fn start(&self) -> (n: State) {
        let snake = Self::copied(&self.initial_snake);
        let count: u64 = self.fruits.len() as u64;
        assert((1u64 << count) >= 1) by (bit_vector)
            requires
                count <= 41,
        ;
        State { snake, fruits_left: (1u64 << count) - 1 }
    }

    fn goal(&self) -> (n: State) {
        State::new()
    }

    fn neighbors(&self, n: &State) -> (out: Vec<(char, State)>) {
        let mut out: Vec<(char, State)> = Vec::new();
        let ghost a = self.attempt(n@, '<', -1, 0);
        let ghost b = self.attempt(n@, '>', 1, 0);
        let ghost c = self.attempt(n@, '^', 0, -1);
        let ghost d = self.attempt(n@, 'v', 0, 1);
        match self.try_move(n, -1, 0) {
            Some(t) => {
                out.push(('<', t));
            },
            None => {},
        }
        assert(out@.len() == a.len());
        match self.try_move(n, 1, 0) {
            Some(t) => {
                out.push(('>', t));
            },
            None => {},
        }
        assert(out@.len() == (a + b).len());
        match self.try_move(n, 0, -1) {
            Some(t) => {
                out.push(('^', t));
            },
            None => {},
        }
        assert(out@.len() == (a + b + c).len());
        match self.try_move(n, 0, 1) {
            Some(t) => {
                out.push(('v', t));
            },
            None => {},
        }
        assert(out@.len() == (a + b + c + d).len());
        out
    }

    fn distance(&self, a: &State, b: &State) -> (d: usize) {
        let fruit: usize = count_ones(a.fruits_left ^ b.fruits_left);
        let ha = a.head(self);
        let hb = b.head(self);
        let dx: usize = if ha.0 < hb.0 {
            (hb.0 - ha.0) as usize
        } else {
            (ha.0 - hb.0) as usize
        };
        let dy: usize = if ha.1 < hb.1 {
            (hb.1 - ha.1) as usize
        } else {
            (ha.1 - hb.1) as usize
        };
        fruit + dx + dy
    }
}

impl Level {
    /// A copy of a snake.
    pub fn copied(snake: &Vec<(u8, u8)>) -> (body: Vec<(u8, u8)>)
        ensures
            body@ == snake@,
    {
        let mut body: Vec<(u8, u8)> = Vec::with_capacity(snake.len());
        let mut i: usize = 0;
        while i < snake.len()
            invariant
                i <= snake@.len(),
                body@ == snake@.take(i as int),
            decreases snake@.len() - i,
        {
            body.push(snake[i]);
            assert(snake@.take(i + 1) =~= snake@.take(i as int).push(snake@[i as int]));
            i += 1;
        }
        assert(snake@.take(snake@.len() as int) =~= snake@);
        body
    }
}

/// Whether `lv` is the level that the text gives.
pub open spec fn level_of(text: Seq<Seq<char>>, lv: Level) -> bool {
    let end = (0int, text.len() as int);
    &&& lv.wf()
    &&& lv.spec_dims() == (longest_row(text) as usize, text.len() as usize)
    &&& sound_upto(text, end)
    &&& forall|a: int, b: int| lv.has_cell(a, b) ==> #[trigger] lv.code(a, b) == code_for(text, a, b)
    &&& lv.fruit_cells().len() == fruit_before(text, end)
    &&& forall|k: int|
        0 <= k < lv.fruit_cells().len() ==> {
            &&& has_char(text, (#[trigger] lv.fruit_cells()[k]).0 as int, lv.fruit_cells()[k].1 as int)
            &&& is_fruit_char(text[lv.fruit_cells()[k].1 as int][lv.fruit_cells()[k].0 as int])
            &&& fruit_before(text, (lv.fruit_cells()[k].0 as int, lv.fruit_cells()[k].1 as int))
                == k
        }
    &&& last_before(
        text,
        'X',
        end,
        (NOWHERE.0 as usize, NOWHERE.1 as usize),
        (lv.exit_cell().0 as usize, lv.exit_cell().1 as usize),
    )
    &&& lv.first_snake().len() <= 10
    &&& forall|i: int|
        0 <= i < lv.first_snake().len() ==> slot_ok(
            text,
            i as nat,
            end,
            Some(#[trigger] lv.first_snake()[i]),
        )
    &&& forall|d: nat|
        d < 10 && occurs(text, #[trigger] digit_char(d), end) ==> d < lv.first_snake().len()
}

impl Stored for Level {
    /// A text with no character gives `NoCells`, and one with more than 255
    /// rows or a row of more than 255 characters `TooLarge`. Else the first
    /// character that stands for nothing gives `UnexpectedChar`, unless a
    /// 42nd fruit comes before it, which gives `TooManyFruit`. Else a snake
    /// with a segment for a digit but none for a lower one gives
    /// `MissingSegment`, with the lowest such digit. Any other text gives the
    /// level as wide as its longest row and as high as it has rows, with a
    /// block for each `#`, spikes for each `$` and fruit for each `@` or `f`,
    /// numbered in reading order; its exit is where the last `X` stands, and
    /// segment `i` of its snake where the last digit `i` stands.
    open spec fn loaded(text: Seq<Seq<char>>, r: Result<Level, ParseError>) -> bool {
        let sized = 0 < text.len() <= 255 && 0 < longest_row(text) <= 255;
        let end = (0int, text.len() as int);
        match r {
            Ok(lv) => sized && level_of(text, lv),
            Err(ParseError::NoCells) => text.len() == 0 || longest_row(text) == 0,
            Err(ParseError::TooLarge) => text.len() > 0 && longest_row(text) > 0 && (text.len()
                > 255 || longest_row(text) > 255),
            Err(ParseError::UnexpectedChar { ch, x, y }) => {
                &&& sized
                &&& has_char(text, x as int, y as int)
                &&& text[y as int][x as int] == ch
                &&& !level_char(ch)
                &&& sound_upto(text, (x as int, y as int))
            },
            Err(ParseError::TooManyFruit) => {
                &&& sized
                &&& exists|x: int, y: int| #[trigger]
                    has_char(text, x, y) && is_fruit_char(text[y][x]) && fruit_before(text, (x, y))
                        >= MAX_FRUIT && sound_upto(text, (x, y))
            },
            Err(ParseError::MissingSegment { index }) => {
                &&& sized
                &&& sound_upto(text, end)
                &&& index < 10
                &&& !occurs(text, digit_char(index as nat), end)
                &&& exists|d: nat| index < d < 10 && occurs(text, #[trigger] digit_char(d), end)
                &&& forall|i: nat| i < index ==> occurs(text, #[trigger] digit_char(i), end)
            },
        }
    }

    #[verifier::rlimit(100)]
    fn load(lines: &Vec<Vec<char>>) -> (r: Result<Level, ParseError>) {
        let ghost text = rows(lines);
        let h: usize = lines.len();
        let w: usize = widest(lines);
        if h == 0 || w == 0 {
            return Err(ParseError::NoCells);
        }
        if w > 255 || h > 255 {
            return Err(ParseError::TooLarge);
        }
        proof {
            small_board(w, h);
        }
        let mut map: Vec<u8> = vec![EMPTY; w * h];
        let mut fruits: Vec<(u8, u8)> = Vec::new();
        let mut slots: Vec<Option<(u8, u8)>> = Vec::new();
        let mut exit: (u8, u8) = NOWHERE;
        let mut y: usize = 0;
        proof {
            nothing_read_yet(text, map@, fruits@, slots@, exit);
        }
        while y < h
            invariant
                text == rows(lines),
                h == lines@.len(),
                w == longest_row(text),
                0 < w <= 255,
                0 < h <= 255,
                y <= h,
                read_upto(text, (0, y as int), map@, fruits@, slots@, exit),
            decreases h - y,
        {
            let line = &lines[y];
            let mut x: usize = 0;
            proof {
                longest_row_bounds(text, y as int);
            }
            while x < line.len()
                invariant
                    text == rows(lines),
                    h == lines@.len(),
                    w == longest_row(text),
                    0 < w <= 255,
                    0 < h <= 255,
                    y < h,
                    line@ == text[y as int],
                    line@.len() <= w,
                    x <= line@.len(),
                    read_upto(text, (x as int, y as int), map@, fruits@, slots@, exit),
                decreases line@.len() - x,
            {
                let ch: char = line[x];
                let ghost end0 = (x as int, y as int);
                let ghost end1 = (x + 1, y as int);
                let ghost map0 = map@;
                let ghost fruits0 = fruits@;
                let ghost slots0 = slots@;
                let ghost exit0 = exit;
                let pos: (u8, u8) = (x as u8, y as u8);
                proof {
                    small_board(w, h);
                    cell_index_in_range(w, h, x as int, y as int);
                    assert(has_char(text, x as int, y as int));
                }
                let at: usize = y * w + x;
                let digit = digit_of(ch);
                if ch == ' ' {
                } else if ch == '#' {
                    map[at] = BLOCK;
                } else if ch == '$' {
                    map[at] = KILL;
                } else if ch == '@' || ch == 'f' {
                    if fruits.len() >= MAX_FRUIT {
                        return Err(ParseError::TooManyFruit);
                    }
                    map[at] = FRUIT + fruits.len() as u8;
                    fruits.push(pos);
                } else if ch == 'X' {
                    exit = pos;
                } else if digit.is_some() {
                    let index: usize = digit.unwrap();
                    while slots.len() <= index
                        invariant
                            index < 10,
                            slots@.len() <= 10,
                            slots0.len() <= slots@.len(),
                            slots@.len() <= slots0.len() || slots@.len() <= index + 1,
                            forall|i: int| 0 <= i < slots0.len() ==> slots@[i] == slots0[i],
                            forall|i: int|
                                slots0.len() <= i < slots@.len() ==> (#[trigger] slots@[i]) is None,
                        decreases index + 1 - slots@.len(),
                    {
                        slots.push(None);
                    }
                    slots[index] = Some(pos);
                } else {
                    return Err(ParseError::UnexpectedChar { ch, x, y });
                }
                proof {
                    assert(at == cell_index(w, x as int, y as int));
                    assert(map@ =~= map0.update(at as int, map@[at as int]));
                    step_keeps_reading(
                        text,
                        x as int,
                        y as int,
                        map0,
                        fruits0,
                        slots0,
                        exit0,
                        map@,
                        fruits@,
                        slots@,
                        exit,
                    );
                }
                x += 1;
            }
            proof {
                row_keeps_reading(text, y as int, map@, fruits@, slots@, exit);
            }
            y += 1;
        }
        let mut snake: Vec<(u8, u8)> = Vec::new();
        let mut i: usize = 0;
        let ghost end = (0int, h as int);
        while i < slots.len()
            invariant
                i <= slots@.len(),
                snake@.len() == i,
                end == (0int, h as int),
                text == rows(lines),
                h == text.len(),
                w == longest_row(text),
                0 < w <= 255,
                0 < h <= 255,
                read_upto(text, end, map@, fruits@, slots@, exit),
                forall|j: int| 0 <= j < i ==> slots@[j] == Some(#[trigger] snake@[j]),
            decreases slots@.len() - i,
        {
            match slots[i] {
                None => {
                    proof {
                        assert(slot_ok(text, i as nat, end, slots@[i as int]));
                        let d = (slots@.len() - 1) as nat;
                        assert(occurs(text, digit_char(d), end));
                        assert(slot_ok(text, d, end, slots@[d as int]));
                        assert(i < d < 10 && occurs(text, digit_char(d), end));
                        assert forall|j: nat| j < i implies occurs(
                            text,
                            #[trigger] digit_char(j),
                            end,
                        ) by {
                            assert(slots@[j as int] == Some(snake@[j as int]));
                            assert(slot_ok(text, j, end, slots@[j as int]));
                        }
                    }
                    return Err(ParseError::MissingSegment { index: i });
                },
                Some(p) => {
                    snake.push(p);
                },
            }
            i += 1;
        }
        let lv = Level { width: w, height: h, map, fruits, initial_snake: snake, exit };
        proof {
            assert forall|j: int| 0 <= j < lv.first_snake().len() implies slot_ok(
                text,
                j as nat,
                end,
                Some(#[trigger] lv.first_snake()[j]),
            ) by {
                assert(slot_ok(text, j as nat, end, slots@[j]));
            }
            assert forall|a: int, b: int| lv.has_cell(a, b) implies #[trigger] lv.code(a, b)
                == code_for(text, a, b) by {
                assert(map@[cell_index(w, a, b)] == code_for(text, a, b));
            }
        }
        Ok(lv)
    }
}

/// Whether all the fruit of `a` is fruit of `b`.
pub open spec fn fruit_within(a: u64, b: u64) -> bool {
    a & !b == 0
}

/// A move eats fruit or leaves it: the fruit that is left after a move was
/// left before it.
pub proof fn move_brings_no_fruit_back(lv: &Level, s: StateView, dx: int, dy: int)
    ensures
        lv.step(s, dx, dy) matches Some(t) ==> fruit_within(t.fruits_left, s.fruits_left),
{
    let f = s.fruits_left;
    assert(0u64 & !f == 0) by (bit_vector);
    assert(f & !f == 0) by (bit_vector);
    assert forall|k: u64| #![trigger (1u64 << k)] (f & !(1u64 << k)) & !f == 0 by {
        assert((f & !(1u64 << k)) & !f == 0) by (bit_vector);
    }
    if s.snake.len() > 0 {
        let x = s.snake[0].0 + dx;
        let y = s.snake[0].1 + dy;
        match lv.tile(x, y, f) {
            Cell::Fruit(k) => {
                let m = 1u64 << (k as u64);
                assert(without_fruit(f, k) == f & !m);
            },
            _ => {},
        }
    }
}

/// Every state that one move leads to has no fruit left that its predecessor
/// had not.
pub proof fn neighbors_bring_no_fruit_back(lv: &Level, s: StateView, i: int)
    requires
        0 <= i < lv.moves(s).len(),
    ensures
        fruit_within(lv.moves(s)[i].1.fruits_left, s.fruits_left),
{
    move_brings_no_fruit_back(lv, s, -1, 0);
    move_brings_no_fruit_back(lv, s, 1, 0);
    move_brings_no_fruit_back(lv, s, 0, -1);
    move_brings_no_fruit_back(lv, s, 0, 1);
}

/// Along every walk the fruit only gets less: a later state has no fruit left
/// that an earlier one had not.
pub proof fn walks_bring_no_fruit_back(
    lv: &Level,
    from: StateView,
    w: Seq<(char, StateView)>,
    i: int,
    j: int,
)
    requires
        is_walk(lv, from, w),
        0 <= i <= j <= w.len(),
    ensures
        fruit_within(walk_node(from, w, j).fruits_left, walk_node(from, w, i).fruits_left),
    decreases j - i,
{
    let a = walk_node(from, w, i).fruits_left;
    if i == j {
        assert(a & !a == 0) by (bit_vector);
    } else {
        walks_bring_no_fruit_back(lv, from, w, i, j - 1);
        let b = walk_node(from, w, j - 1).fruits_left;
        let c = walk_node(from, w, j).fruits_left;
        let mid = walk_node(from, w, j - 1);
        assert(lv.moves(mid).contains(w[j - 1]));
        let k = choose|k: int| 0 <= k < lv.moves(mid).len() && lv.moves(mid)[k] == w[j - 1];
        neighbors_bring_no_fruit_back(lv, mid, k);
        assert(c & !a == 0) by (bit_vector)
            requires
                c & !b == 0,
                b & !a == 0,
        ;
    }
}

/// The snake leaves only through the exit: a move leads to the state without
/// a snake only where it takes the head to the exit and no fruit is left
/// after it.
pub proof fn leaves_only_through_the_exit(lv: &Level, s: StateView, dx: int, dy: int)
    requires
        lv.wf(),
        lv.step(s, dx, dy) matches Some(t) && t.snake.len() == 0,
    ensures
        lv.step(s, dx, dy) == Some(gone()),
        s.snake.len() > 0,
        s.snake[0].0 + dx == lv.exit_cell().0,
        s.snake[0].1 + dy == lv.exit_cell().1,
        match lv.tile(s.snake[0].0 + dx, s.snake[0].1 + dy, s.fruits_left) {
            Cell::Fruit(k) => without_fruit(s.fruits_left, k) == 0,
            _ => s.fruits_left == 0,
        },
{
    lv.wf_bounds();
    let x = s.snake[0].0 + dx;
    let y = s.snake[0].1 + dy;
    assert(lv.has_cell(x, y));
    let c = (x as u8, y as u8);
    let tile = lv.tile(x, y, s.fruits_left);
    let fruits = match tile {
        Cell::Fruit(k) => without_fruit(s.fruits_left, k),
        _ => s.fruits_left,
    };
    let body = match tile {
        Cell::Fruit(_) => seq![c] + s.snake,
        _ => seq![c] + s.snake.drop_last(),
    };
    assert(body.len() > 0);
    let f = lv.first_rest(body, fruits, 0)->0 as int;
    assert(shifted(body, f).len() == body.len());
}

/// Whether no cell holds two segments of the snake.
pub open spec fn apart(snake: Seq<(u8, u8)>) -> bool {
    forall|i: int, j: int|
        0 <= i < j < snake.len() ==> (#[trigger] snake[i]) != (#[trigger] snake[j])
}

/// A move of a snake that never lies on itself leads to a snake that never
/// lies on itself.
#[verifier::rlimit(100)]
pub proof fn move_keeps_segments_apart(lv: &Level, s: StateView, dx: int, dy: int)
    requires
        lv.wf(),
        apart(s.snake),
    ensures
        lv.step(s, dx, dy) matches Some(t) ==> apart(t.snake),
{
    if let Some(t) = lv.step(s, dx, dy) {
        let x = s.snake[0].0 + dx;
        let y = s.snake[0].1 + dy;
        let c = (x as u8, y as u8);
        let tile = lv.tile(x, y, s.fruits_left);
        let fruits = match tile {
            Cell::Fruit(k) => without_fruit(s.fruits_left, k),
            _ => s.fruits_left,
        };
        let rest = match tile {
            Cell::Fruit(_) => s.snake,
            _ => s.snake.drop_last(),
        };
        let body = seq![c] + rest;
        let f = lv.first_rest(body, fruits, 0)->0 as int;
        assert forall|i: int, j: int| 0 <= i < j < body.len() implies (#[trigger] body[i])
            != (#[trigger] body[j]) by {
            assert(body[j] == rest[j - 1]);
            assert(rest[j - 1] == s.snake[j - 1]);
            if i == 0 {
                assert(body[0] == c);
                assert(s.snake.contains(s.snake[j - 1]));
            } else {
                assert(body[i] == rest[i - 1]);
                assert(rest[i - 1] == s.snake[i - 1]);
            }
        }
        if t.snake.len() > 0 {
            let settled = shifted(body, f);
            assert(t.snake == settled);
            assert forall|i: int, j: int| 0 <= i < j < settled.len() implies (
            #[trigger] settled[i]) != (#[trigger] settled[j]) by {
                assert(lv.has_cell(body[i].0 as int, body[i].1 + f));
                assert(lv.has_cell(body[j].0 as int, body[j].1 + f));
                assert(body[i] != body[j]);
            }
        }
    }
}

/// No state that one move leads to from a snake that never lies on itself
/// has a cell with two segments.
pub proof fn neighbors_keep_segments_apart(lv: &Level, s: StateView, i: int)
    requires
        lv.wf(),
        apart(s.snake),
        0 <= i < lv.moves(s).len(),
    ensures
        apart(lv.moves(s)[i].1.snake),
{
    move_keeps_segments_apart(lv, s, -1, 0);
    move_keeps_segments_apart(lv, s, 1, 0);
    move_keeps_segments_apart(lv, s, 0, -1);
    move_keeps_segments_apart(lv, s, 0, 1);
}

/// Along every walk out of a state whose snake never lies on itself, no
/// snake ever does.
pub proof fn walks_keep_segments_apart(
    lv: &Level,
    from: StateView,
    w: Seq<(char, StateView)>,
    i: int,
)
    requires
        lv.wf(),
        apart(from.snake),
        is_walk(lv, from, w),
        0 <= i <= w.len(),
    ensures
        apart(walk_node(from, w, i).snake),
    decreases i,
{
    if i > 0 {
        walks_keep_segments_apart(lv, from, w, i - 1);
        let mid = walk_node(from, w, i - 1);
        assert(lv.moves(mid).contains(w[i - 1]));
        let k = choose|k: int| 0 <= k < lv.moves(mid).len() && lv.moves(mid)[k] == w[i - 1];
        neighbors_keep_segments_apart(lv, mid, k);
    }
}

/// The snake of a level that a text gives never lies on itself: each of its
/// segments stands where the text has the segment's own digit.
pub proof fn loaded_snake_is_apart(text: Seq<Seq<char>>, lv: Level)
    requires
        level_of(text, lv),
    ensures
        apart(lv.first_snake()),
        apart(lv.start_view().snake),
{
    let snake = lv.first_snake();
    let end = (0int, text.len() as int);
    assert forall|i: int, j: int| 0 <= i < j < snake.len() implies (#[trigger] snake[i]) != (
    #[trigger] snake[j]) by {
        assert(slot_ok(text, i as nat, end, Some(snake[i])));
        assert(slot_ok(text, j as nat, end, Some(snake[j])));
        assert(digit_char(i as nat) != digit_char(j as nat));
    }
}

} // verus!
