//! The text of a level: what each character stands for, and what has been
//! read of a text when it has been read up to a character.

use crate::grid::{cell_index, cell_index_in_range, cell_index_is_injective};
use crate::stored::{
    earlier, has_char, last_before, last_before_next_row, last_before_step, longest_row,
    longest_row_bounds, occurs, occurs_next_row, occurs_step,
};
use vstd::prelude::*;

verus! {

/// The most fruit that a level can hold.
pub const MAX_FRUIT: usize = 41;

/// The code of an empty cell in a level's map.
pub const EMPTY: u8 = 0;

/// The code of a block, which nothing enters.
pub const BLOCK: u8 = 1;

/// The code of a cell of spikes.
pub const KILL: u8 = 2;

/// The code of fruit 0; fruit `k` has this code plus `k`.
pub const FRUIT: u8 = 10;

/// The position that stands for none.
pub const NOWHERE: (u8, u8) = (0xFF, 0xFF);

/// A board of no more than 255 cells each way has no more than 65025 cells.
pub proof fn small_board(width: usize, height: usize)
    requires
        width <= 255,
        height <= 255,
    ensures
        width * height <= 65025,
{
    assert(width * height <= 65025) by (nonlinear_arith)
        requires
            0 <= width <= 255,
            0 <= height <= 255,
    ;
}

/// Whether `c` stands for fruit.
pub open spec fn is_fruit_char(c: char) -> bool {
    c == '@' || c == 'f'
}

/// The number that a digit stands for.
pub open spec fn digit_value(c: char) -> Option<nat> {
    if '0' as int <= c as int <= '9' as int {
        Some((c as int - '0' as int) as nat)
    } else {
        None
    }
}

/// The digit that stands for a number below 10.
pub open spec fn digit_char(i: nat) -> char {
    ('0' as int + i) as char
}

/// The number that a digit stands for.
pub fn digit_of(c: char) -> (r: Option<usize>)
    ensures
        match r {
            Some(d) => digit_value(c) == Some(d as nat) && d < 10 && digit_char(d as nat) == c,
            None => digit_value(c) is None,
        },
{
    if c == '0' {
        Some(0)
    } else if c == '1' {
        Some(1)
    } else if c == '2' {
        Some(2)
    } else if c == '3' {
        Some(3)
    } else if c == '4' {
        Some(4)
    } else if c == '5' {
        Some(5)
    } else if c == '6' {
        Some(6)
    } else if c == '7' {
        Some(7)
    } else if c == '8' {
        Some(8)
    } else if c == '9' {
        Some(9)
    } else {
        None
    }
}

/// Whether `c` stands for something in a level: a blank for an empty cell,
/// `#` for a block, `$` for spikes, `@` or `f` for fruit, `X` for the exit, a
/// digit for the segment of the snake of that number, 0 being the head.
pub open spec fn level_char(c: char) -> bool {
    c == ' ' || c == '#' || c == '$' || is_fruit_char(c) || c == 'X' || digit_value(c) is Some
}

/// The number of fruit among the first `n` characters of a row.
pub open spec fn fruit_in_row(row: Seq<char>, n: int) -> nat
    decreases n,
{
    if n <= 0 {
        0
    } else {
        fruit_in_row(row, n - 1) + if is_fruit_char(row[n - 1]) {
            1nat
        } else {
            0nat
        }
    }
}

/// The number of fruit in the first `y` rows.
pub open spec fn fruit_in_rows(text: Seq<Seq<char>>, y: int) -> nat
    decreases y,
{
    if y <= 0 {
        0
    } else {
        fruit_in_rows(text, y - 1) + fruit_in_row(text[y - 1], text[y - 1].len() as int)
    }
}

/// The number of fruit before the position `end`, in reading order: the
/// number of the fruit that stands at `end`.
pub open spec fn fruit_before(text: Seq<Seq<char>>, end: (int, int)) -> nat {
    fruit_in_rows(text, end.1) + fruit_in_row(text[end.1], end.0)
}

/// The code of the cell `(x, y)` in the map of the level that the text gives.
pub open spec fn code_for(text: Seq<Seq<char>>, x: int, y: int) -> u8 {
    if !has_char(text, x, y) {
        EMPTY
    } else if text[y][x] == '#' {
        BLOCK
    } else if text[y][x] == '$' {
        KILL
    } else if is_fruit_char(text[y][x]) {
        (FRUIT + fruit_before(text, (x, y))) as u8
    } else {
        EMPTY
    }
}

/// Whether the character at `(x, y)` keeps the text from being a level: it
/// stands for nothing, or it is one fruit too many.
pub open spec fn offending(text: Seq<Seq<char>>, x: int, y: int) -> bool {
    has_char(text, x, y) && (!level_char(text[y][x]) || (is_fruit_char(text[y][x])
        && fruit_before(text, (x, y)) >= MAX_FRUIT))
}

/// No character before `end` keeps the text from being a level.
pub open spec fn sound_upto(text: Seq<Seq<char>>, end: (int, int)) -> bool {
    forall|a: int, b: int| #[trigger] has_char(text, a, b) && earlier((a, b), end) ==> !offending(text, a, b)
}

/// Whether `slot` is what the text before `end` says of segment `i` of the
/// snake: where it has the segment's digit last, if it has it.
pub open spec fn slot_ok(text: Seq<Seq<char>>, i: nat, end: (int, int), slot: Option<(u8, u8)>) -> bool {
    match slot {
        Some(p) => occurs(text, digit_char(i), end) && last_before(
            text,
            digit_char(i),
            end,
            (NOWHERE.0 as usize, NOWHERE.1 as usize),
            (p.0 as usize, p.1 as usize),
        ),
        None => !occurs(text, digit_char(i), end),
    }
}

/// What has been read of a text up to `end`: the map, the fruit, the segments
/// of the snake and the exit.
pub open spec fn read_upto(
    text: Seq<Seq<char>>,
    end: (int, int),
    map: Seq<u8>,
    fruits: Seq<(u8, u8)>,
    slots: Seq<Option<(u8, u8)>>,
    exit: (u8, u8),
) -> bool {
    let w = longest_row(text) as usize;
    let h = text.len() as usize;
    &&& map.len() == w * h
    &&& forall|a: int, b: int|
        0 <= a < w && 0 <= b < h ==> #[trigger] map[cell_index(w, a, b)] == (if earlier(
            (a, b),
            end,
        ) {
            code_for(text, a, b)
        } else {
            EMPTY
        })
    &&& forall|i: int|
        0 <= i < map.len() ==> (#[trigger] map[i]) <= KILL || FRUIT <= map[i] < FRUIT + fruits.len()
    &&& sound_upto(text, end)
    &&& fruits.len() == fruit_before(text, end)
    &&& fruits.len() <= MAX_FRUIT
    &&& forall|k: int|
        0 <= k < fruits.len() ==> {
            &&& has_char(text, (#[trigger] fruits[k]).0 as int, fruits[k].1 as int)
            &&& is_fruit_char(text[fruits[k].1 as int][fruits[k].0 as int])
            &&& fruit_before(text, (fruits[k].0 as int, fruits[k].1 as int)) == k
        }
    &&& last_before(
        text,
        'X',
        end,
        (NOWHERE.0 as usize, NOWHERE.1 as usize),
        (exit.0 as usize, exit.1 as usize),
    )
    &&& slots.len() <= 10
    &&& forall|i: int| 0 <= i < slots.len() ==> slot_ok(text, i as nat, end, #[trigger] slots[i])
    &&& forall|d: nat| d < 10 && occurs(text, #[trigger] digit_char(d), end) ==> d < slots.len()
    &&& (slots.len() > 0 ==> occurs(text, digit_char((slots.len() - 1) as nat), end))
}

/// Before the first character nothing has been read.
pub proof fn nothing_read_yet(
    text: Seq<Seq<char>>,
    map: Seq<u8>,
    fruits: Seq<(u8, u8)>,
    slots: Seq<Option<(u8, u8)>>,
    exit: (u8, u8),
)
    requires
        map.len() == (longest_row(text) as usize) * (text.len() as usize),
        forall|i: int| 0 <= i < map.len() ==> map[i] == EMPTY,
        fruits.len() == 0,
        slots.len() == 0,
        exit == NOWHERE,
        0 < text.len() <= 255,
        0 < longest_row(text) <= 255,
    ensures
        read_upto(text, (0, 0), map, fruits, slots, exit),
{
    let w = longest_row(text) as usize;
    let h = text.len() as usize;
    let end = (0int, 0int);
    assert forall|a: int, b: int| has_char(text, a, b) implies !earlier((a, b), end) by {}
    assert forall|a: int, b: int| 0 <= a < w && 0 <= b < h implies #[trigger] map[cell_index(
        w,
        a,
        b,
    )] == (if earlier((a, b), end) {
        code_for(text, a, b)
    } else {
        EMPTY
    }) by {
        small_board(w, h);
        cell_index_in_range(w, h, a, b);
    }
    assert forall|d: nat| d < 10 implies !occurs(text, #[trigger] digit_char(d), end) by {}
    assert(!occurs(text, 'X', end));
}

/// What has been read up to a character, with what the character adds, is
/// what has been read up to the next.
#[verifier::rlimit(100)]
pub proof fn step_keeps_reading(
    text: Seq<Seq<char>>,
    x: int,
    y: int,
    map0: Seq<u8>,
    fruits0: Seq<(u8, u8)>,
    slots0: Seq<Option<(u8, u8)>>,
    exit0: (u8, u8),
    map1: Seq<u8>,
    fruits1: Seq<(u8, u8)>,
    slots1: Seq<Option<(u8, u8)>>,
    exit1: (u8, u8),
)
    requires
        0 < text.len() <= 255,
        0 < longest_row(text) <= 255,
        has_char(text, x, y),
        read_upto(text, (x, y), map0, fruits0, slots0, exit0),
        level_char(text[y][x]),
        is_fruit_char(text[y][x]) ==> fruits0.len() < MAX_FRUIT,
        map1 == map0.update(
            cell_index(longest_row(text) as usize, x, y),
            if text[y][x] == '#' {
                BLOCK
            } else if text[y][x] == '$' {
                KILL
            } else if is_fruit_char(text[y][x]) {
                (FRUIT + fruits0.len()) as u8
            } else {
                map0[cell_index(longest_row(text) as usize, x, y)]
            },
        ),
        fruits1 == (if is_fruit_char(text[y][x]) {
            fruits0.push((x as u8, y as u8))
        } else {
            fruits0
        }),
        exit1 == (if text[y][x] == 'X' {
            (x as u8, y as u8)
        } else {
            exit0
        }),
        digit_value(text[y][x]) is None ==> slots1 == slots0,
        digit_value(text[y][x]) matches Some(d) ==> {
            &&& slots1.len() == (if slots0.len() > d {
                slots0.len()
            } else {
                d + 1
            })
            &&& slots1[d as int] == Some((x as u8, y as u8))
            &&& forall|i: int| 0 <= i < slots0.len() && i != d ==> slots1[i] == slots0[i]
            &&& forall|i: int| slots0.len() <= i < slots1.len() && i != d ==> slots1[i] is None
        },
    ensures
        read_upto(text, (x + 1, y), map1, fruits1, slots1, exit1),
{
    let w = longest_row(text) as usize;
    let h = text.len() as usize;
    let end0 = (x, y);
    let end1 = (x + 1, y);
    let ch = text[y][x];
    longest_row_bounds(text, y);
    small_board(w, h);
    cell_index_in_range(w, h, x, y);
    assert forall|a: int, b: int| earlier((a, b), end1) == (earlier((a, b), end0) || (a == x && b
        == y)) by {}
    assert(fruit_before(text, end1) == fruit_before(text, end0) + if is_fruit_char(ch) {
        1nat
    } else {
        0nat
    });
    assert forall|a: int, b: int| 0 <= a < w && 0 <= b < h implies #[trigger] map1[cell_index(
        w,
        a,
        b,
    )] == (if earlier((a, b), end1) {
        code_for(text, a, b)
    } else {
        EMPTY
    }) by {
        cell_index_in_range(w, h, a, b);
        if cell_index(w, a, b) == cell_index(w, x, y) {
            cell_index_is_injective(w, a, b, x, y);
        } else {
            assert(map1[cell_index(w, a, b)] == map0[cell_index(w, a, b)]);
        }
    }
    assert forall|i: int| 0 <= i < map1.len() implies (#[trigger] map1[i]) <= KILL || FRUIT
        <= map1[i] < FRUIT + fruits1.len() by {
        if i != cell_index(w, x, y) {
            assert(map1[i] == map0[i]);
        }
    }
    assert forall|a: int, b: int| #[trigger]
        has_char(text, a, b) && earlier((a, b), end1) implies !offending(text, a, b) by {
        if a == x && b == y {
        } else {
            assert(earlier((a, b), end0));
        }
    }
    assert forall|k: int| 0 <= k < fruits1.len() implies {
        &&& has_char(text, (#[trigger] fruits1[k]).0 as int, fruits1[k].1 as int)
        &&& is_fruit_char(text[fruits1[k].1 as int][fruits1[k].0 as int])
        &&& fruit_before(text, (fruits1[k].0 as int, fruits1[k].1 as int)) == k
    } by {
        if k < fruits0.len() {
            assert(fruits1[k] == fruits0[k]);
        }
    }
    last_before_step(
        text,
        'X',
        x,
        y,
        (NOWHERE.0 as usize, NOWHERE.1 as usize),
        (exit0.0 as usize, exit0.1 as usize),
    );
    assert forall|i: int| 0 <= i < slots1.len() implies slot_ok(
        text,
        i as nat,
        end1,
        #[trigger] slots1[i],
    ) by {
        let c = digit_char(i as nat);
        occurs_step(text, c, x, y);
        if digit_value(ch) == Some(i as nat) {
            assert(ch == c);
            if i < slots0.len() {
                assert(slot_ok(text, i as nat, end0, slots0[i]));
                let old = match slots0[i] {
                    Some(p) => (p.0 as usize, p.1 as usize),
                    None => (NOWHERE.0 as usize, NOWHERE.1 as usize),
                };
                if slots0[i] is None {
                    assert(last_before(
                        text,
                        c,
                        end0,
                        (NOWHERE.0 as usize, NOWHERE.1 as usize),
                        old,
                    ));
                }
                last_before_step(text, c, x, y, (NOWHERE.0 as usize, NOWHERE.1 as usize), old);
            } else {
                assert(!occurs(text, c, end0));
                assert(last_before(
                    text,
                    c,
                    end0,
                    (NOWHERE.0 as usize, NOWHERE.1 as usize),
                    (NOWHERE.0 as usize, NOWHERE.1 as usize),
                ));
                last_before_step(
                    text,
                    c,
                    x,
                    y,
                    (NOWHERE.0 as usize, NOWHERE.1 as usize),
                    (NOWHERE.0 as usize, NOWHERE.1 as usize),
                );
            }
        } else {
            assert(ch != c);
            if i < slots0.len() {
                assert(slots1[i] == slots0[i]);
                assert(slot_ok(text, i as nat, end0, slots0[i]));
                match slots0[i] {
                    Some(p) => {
                        last_before_step(
                            text,
                            c,
                            x,
                            y,
                            (NOWHERE.0 as usize, NOWHERE.1 as usize),
                            (p.0 as usize, p.1 as usize),
                        );
                    },
                    None => {},
                }
            } else {
                assert(slots1[i] is None);
                assert(!occurs(text, c, end0));
            }
        }
    }
    assert forall|d: nat| d < 10 && occurs(text, #[trigger] digit_char(d), end1) implies d
        < slots1.len() by {
        occurs_step(text, digit_char(d), x, y);
    }
    if slots1.len() > 0 {
        let top = (slots1.len() - 1) as nat;
        occurs_step(text, digit_char(top), x, y);
        if slots1.len() == slots0.len() {
        } else {
            assert(digit_value(ch) == Some(top));
        }
    }
}

/// What has been read up to the end of a row is what has been read up to the
/// beginning of the next.
pub proof fn row_keeps_reading(
    text: Seq<Seq<char>>,
    y: int,
    map: Seq<u8>,
    fruits: Seq<(u8, u8)>,
    slots: Seq<Option<(u8, u8)>>,
    exit: (u8, u8),
)
    requires
        0 <= y < text.len(),
        read_upto(text, (text[y].len() as int, y), map, fruits, slots, exit),
    ensures
        read_upto(text, (0, y + 1), map, fruits, slots, exit),
{
    let end0 = (text[y].len() as int, y);
    let end1 = (0int, y + 1);
    let w = longest_row(text) as usize;
    let h = text.len() as usize;
    assert forall|a: int, b: int| has_char(text, a, b) implies earlier((a, b), end1) == earlier(
        (a, b),
        end0,
    ) by {}
    assert forall|a: int, b: int| 0 <= a < w && 0 <= b < h implies #[trigger] map[cell_index(
        w,
        a,
        b,
    )] == (if earlier((a, b), end1) {
        code_for(text, a, b)
    } else {
        EMPTY
    }) by {
        if !has_char(text, a, b) {
            assert(code_for(text, a, b) == EMPTY);
        }
    }
    last_before_next_row(
        text,
        'X',
        y,
        (NOWHERE.0 as usize, NOWHERE.1 as usize),
        (exit.0 as usize, exit.1 as usize),
    );
    assert forall|i: int| 0 <= i < slots.len() implies slot_ok(
        text,
        i as nat,
        end1,
        #[trigger] slots[i],
    ) by {
        let c = digit_char(i as nat);
        occurs_next_row(text, c, y);
        assert(slot_ok(text, i as nat, end0, slots[i]));
        match slots[i] {
            Some(p) => {
                last_before_next_row(
                    text,
                    c,
                    y,
                    (NOWHERE.0 as usize, NOWHERE.1 as usize),
                    (p.0 as usize, p.1 as usize),
                );
            },
            None => {},
        }
    }
    assert forall|d: nat| d < 10 && occurs(text, #[trigger] digit_char(d), end1) implies d
        < slots.len() by {
        occurs_next_row(text, digit_char(d), y);
    }
    if slots.len() > 0 {
        occurs_next_row(text, digit_char((slots.len() - 1) as nat), y);
    }
}

} // verus!
