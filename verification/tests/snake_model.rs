use puzzle_search::graph::{Graph, SearchNode};
use puzzle_search::a_star::a_star_search;
use puzzle_search::dfs::dfs_search;
use puzzle_search::search::Outcome;
use puzzle_search::level_text::NOWHERE;
use puzzle_search::snake::{count_ones, Cell, Level, State};
use puzzle_search::stored::{ParseError, Stored};

fn lines(text: &[&str]) -> Vec<Vec<char>> {
    text.iter().map(|l| l.chars().collect()).collect()
}

fn level(text: &[&str]) -> Level {
    Level::load(&lines(text)).unwrap()
}

/// The moves out of a state as labels, snakes and fruit left.
fn moves(lv: &Level, s: &State) -> Vec<(char, Vec<(u8, u8)>, u64)> {
    lv.neighbors(s).iter().map(|(e, t)| (*e, t.snake().clone(), t.fruits_left())).collect()
}

#[test]
fn count_ones_counts_the_bits() {
    assert_eq!(count_ones(0), 0);
    assert_eq!(count_ones(1), 1);
    assert_eq!(count_ones(0b1011), 3);
    assert_eq!(count_ones(1 << 63), 1);
    assert_eq!(count_ones(u64::MAX), 64);
    assert_eq!(count_ones(0xF0F0_0000_0000_0001), 9);
}

#[test]
fn the_goal_state_has_no_snake_and_no_fruit() {
    let s = State::new();
    assert!(s.snake().is_empty());
    assert_eq!(s.fruits_left(), 0);
    let lv = level(&["0 X", "###"]);
    assert_eq!(s.head(&lv), (2, 0));
    assert!(s.same(&lv.goal()));
    assert!(!s.same(&lv.start()));
    assert!(lv.neighbors(&s).is_empty());
}

#[test]
fn states_compare_and_copy_by_value() {
    let a = State::of(vec![(1, 2), (1, 3)], 5);
    let b = a.duplicate();
    assert!(a.same(&b));
    assert_eq!(b.snake(), &vec![(1u8, 2u8), (1u8, 3u8)]);
    assert_eq!(b.fruits_left(), 5);
    assert!(!a.same(&State::of(vec![(1, 2), (1, 3)], 4)));
    assert!(!a.same(&State::of(vec![(1, 2)], 5)));
    assert!(!a.same(&State::of(vec![(1, 3), (1, 2)], 5)));
    let lv = level(&["0 X", "###"]);
    assert_eq!(a.head(&lv), (1, 2));
}

#[test]
fn a_level_reads_its_cells() {
    let lv = level(&["f@ X", "1 0$", "# f", "####"]);
    assert_eq!(lv.dims(), (4, 4));
    assert_eq!(lv.fruits(), &vec![(0u8, 0u8), (1u8, 0u8), (2u8, 2u8)]);
    assert_eq!(lv.initial_snake(), &vec![(2u8, 1u8), (0u8, 1u8)]);
    assert_eq!(lv.exit(), (3, 0));
    let rows: Vec<String> =
        (0..4).map(|y| (0..4).map(|x| lv.char(x, y)).collect()).collect();
    assert_eq!(rows, vec!["@@  ", "   $", "# @ ", "####"]);
    let all = lv.start();
    assert_eq!(all.fruits_left(), 0b111);
    assert_eq!(lv.cell_type(0, 0, &all), Cell::Fruit(0));
    assert_eq!(lv.cell_type(1, 0, &all), Cell::Fruit(1));
    assert_eq!(lv.cell_type(2, 2, &all), Cell::Fruit(2));
    assert_eq!(lv.cell_type(3, 1, &all), Cell::Kill);
    assert_eq!(lv.cell_type(0, 2, &all), Cell::Block);
    assert_eq!(lv.cell_type(2, 0, &all), Cell::Free);
    // the short row ends in empty cells
    assert_eq!(lv.cell_type(3, 2, &all), Cell::Free);
    let some = State::of(vec![(2, 1)], 0b101);
    assert_eq!(lv.cell_type(0, 0, &some), Cell::Fruit(0));
    assert_eq!(lv.cell_type(1, 0, &some), Cell::Free);
    assert_eq!(lv.cell_type(2, 2, &some), Cell::Fruit(2));
}

#[test]
fn cells_can_be_entered_and_hold_up() {
    let lv = level(&["0f$", "#  "]);
    let s = lv.start();
    // free, fruit and spikes can be entered; a block and the outside cannot
    assert!(lv.enterable(0, 0, &s));
    assert!(lv.enterable(1, 0, &s));
    assert!(lv.enterable(2, 0, &s));
    assert!(!lv.enterable(0, 1, &s));
    assert!(!lv.enterable(3, 0, &s));
    assert!(!lv.enterable(0, 2, &s));
    // a block, fruit and spikes hold up; an empty cell and the outside do not
    assert!(lv.supportive(0, 1, &s));
    assert!(lv.supportive(1, 0, &s));
    assert!(lv.supportive(2, 0, &s));
    assert!(!lv.supportive(1, 1, &s));
    assert!(!lv.supportive(1, 2, &s));
    assert!(!lv.supportive(3, 1, &s));
    // fruit that has been eaten holds nothing up
    let eaten = State::of(vec![(0, 0)], 0);
    assert!(!lv.supportive(1, 0, &eaten));
    assert!(lv.enterable(1, 0, &eaten));
}

#[test]
fn a_level_without_exit_or_snake() {
    let lv = level(&[" f", "##"]);
    assert_eq!(lv.exit(), NOWHERE);
    assert_eq!(lv.exit(), (255, 255));
    assert!(lv.initial_snake().is_empty());
    assert!(lv.start().snake().is_empty());
    assert_eq!(lv.start().fruits_left(), 1);
}

#[test]
fn the_last_of_two_like_digits_counts() {
    let lv = level(&["0 1", "1 0", "###"]);
    assert_eq!(lv.initial_snake(), &vec![(2u8, 1u8), (0u8, 1u8)]);
    let lv = level(&["X  X", "####"]);
    assert_eq!(lv.exit(), (3, 0));
}

#[test]
fn level_load_of_nothing_is_an_error() {
    assert_eq!(Level::load(&lines(&[])).err(), Some(ParseError::NoCells));
    assert_eq!(Level::load(&lines(&["", "", ""])).err(), Some(ParseError::NoCells));
}

#[test]
fn level_load_of_too_much_is_an_error() {
    let wide = " ".repeat(256);
    assert_eq!(Level::load(&lines(&[&wide])).err(), Some(ParseError::TooLarge));
    let high: Vec<&str> = (0..256).map(|_| " ").collect();
    assert_eq!(Level::load(&lines(&high)).err(), Some(ParseError::TooLarge));
    let fits = " ".repeat(255);
    let lv = Level::load(&lines(&[&fits])).unwrap();
    assert_eq!(lv.dims(), (255, 1));
}

#[test]
fn level_load_counts_the_fruit() {
    let row = "f".repeat(41);
    let lv = Level::load(&lines(&[&row])).unwrap();
    assert_eq!(lv.fruits().len(), 41);
    assert_eq!(lv.start().fruits_left(), (1u64 << 41) - 1);
    assert_eq!(lv.cell_type(40, 0, &lv.start()), Cell::Fruit(40));
    let row = "f".repeat(42);
    assert_eq!(Level::load(&lines(&[&row])).err(), Some(ParseError::TooManyFruit));
    // whichever comes first is reported
    let row = format!("{}{}", "@".repeat(42), "?");
    assert_eq!(Level::load(&lines(&[&row])).err(), Some(ParseError::TooManyFruit));
    let row = format!("{}{}", "?", "@".repeat(42));
    assert_eq!(
        Level::load(&lines(&[&row])).err(),
        Some(ParseError::UnexpectedChar { ch: '?', x: 0, y: 0 })
    );
}

#[test]
fn level_load_wants_every_segment() {
    assert_eq!(
        Level::load(&lines(&["0 2", "###"])).err(),
        Some(ParseError::MissingSegment { index: 1 })
    );
    assert_eq!(
        Level::load(&lines(&["3 4", "###"])).err(),
        Some(ParseError::MissingSegment { index: 0 })
    );
    assert_eq!(
        Level::load(&lines(&["0129", "####"])).err(),
        Some(ParseError::MissingSegment { index: 3 })
    );
    // a bad character is reported before a missing segment
    assert_eq!(
        Level::load(&lines(&["0 2", "##a"])).err(),
        Some(ParseError::UnexpectedChar { ch: 'a', x: 2, y: 1 })
    );
}

#[test]
fn the_snake_falls_until_something_holds_it() {
    let lv = level(&["0  ", "#  ", "   ", "###"]);
    assert_eq!(moves(&lv, &lv.start()), vec![('>', vec![(1, 2)], 0)]);
}

#[test]
fn a_snake_that_nothing_would_hold_cannot_move_there() {
    let lv = level(&["0 ", "# "]);
    assert!(moves(&lv, &lv.start()).is_empty());
}

#[test]
fn a_snake_cannot_fall_a_hundred_cells() {
    // 99 cells down is the longest fall
    let mut text: Vec<String> = vec!["0 ".to_string(), "# ".to_string()];
    for _ in 0..98 {
        text.push("  ".to_string());
    }
    text.push("##".to_string());
    let rows: Vec<&str> = text.iter().map(|s| s.as_str()).collect();
    let lv = level(&rows);
    assert_eq!(lv.dims(), (2, 101));
    assert_eq!(moves(&lv, &lv.start()), vec![('>', vec![(1, 99)], 0)]);
    text.insert(2, "  ".to_string());
    let rows: Vec<&str> = text.iter().map(|s| s.as_str()).collect();
    let lv = level(&rows);
    assert_eq!(lv.dims(), (2, 102));
    assert!(moves(&lv, &lv.start()).is_empty());
}

#[test]
fn the_whole_snake_falls_together() {
    let lv = level(&["10 ", "#  ", "###"]);
    assert_eq!(
        moves(&lv, &lv.start()),
        vec![('>', vec![(2, 1), (1, 1)], 0), ('v', vec![(1, 1), (1, 0)], 0)]
    );
}

#[test]
fn a_segment_that_would_leave_the_board_stops_the_move() {
    // the head would rest on the block two rows down, the tail would hang
    // below the board
    let lv = level(&[" 0 ", " 1 ", "  #", "#  "]);
    let s = State::of(vec![(1, 1), (1, 2), (1, 3)], 0);
    let to_the_right: Vec<_> =
        moves(&lv, &s).into_iter().filter(|m| m.0 == '>').collect();
    assert_eq!(to_the_right, vec![('>', vec![(2, 1), (1, 1), (1, 2)], 0)]);
    let low = State::of(vec![(1, 0), (1, 3)], 0);
    // the new head (2, 0) rests after a fall of 1; the old head, now the
    // tail, falls with it from row 0 to row 1
    let right: Vec<_> = moves(&lv, &low).into_iter().filter(|m| m.0 == '>').collect();
    assert_eq!(right, vec![('>', vec![(2, 1), (1, 1)], 0)]);
    let hanging = State::of(vec![(1, 1), (1, 2), (0, 2)], 0);
    // after a fall of 0: (0, 2) lies above the block (0, 3)
    let right: Vec<_> = moves(&lv, &hanging).into_iter().filter(|m| m.0 == '>').collect();
    assert_eq!(right, vec![('>', vec![(2, 1), (1, 1), (1, 2)], 0)]);
}

#[test]
fn the_snake_cannot_enter_itself_not_even_its_tail() {
    let lv = level(&["10 ", "###"]);
    let labels: Vec<char> = moves(&lv, &lv.start()).iter().map(|m| m.0).collect();
    assert_eq!(labels, vec!['>']);
    let ring = level(&["12", "03", "##"]);
    assert_eq!(ring.initial_snake(), &vec![(0u8, 1u8), (0u8, 0u8), (1u8, 0u8), (1u8, 1u8)]);
    assert!(moves(&ring, &ring.start()).is_empty());
}

#[test]
fn spikes_kill_a_snake_that_nothing_else_holds() {
    let lv = level(&["0 ", "#$"]);
    assert!(moves(&lv, &lv.start()).is_empty());
    let held = level(&["10 ", "##$"]);
    assert_eq!(moves(&held, &held.start()), vec![('>', vec![(2, 0), (1, 0)], 0)]);
}

#[test]
fn spikes_can_be_entered_by_a_snake_that_is_held() {
    let lv = level(&["10$", "## ", "###"]);
    assert_eq!(moves(&lv, &lv.start()), vec![('>', vec![(2, 0), (1, 0)], 0)]);
    let alone = level(&["0$", "#$"]);
    assert!(moves(&alone, &alone.start()).is_empty());
    let fruit_holds = level(&["10$", "#f ", "###"]);
    assert_eq!(
        moves(&fruit_holds, &fruit_holds.start()),
        vec![('>', vec![(2, 0), (1, 0)], 1), ('v', vec![(1, 1), (1, 0), (0, 0)], 0)]
    );
}

#[test]
fn eating_fruit_makes_the_snake_longer() {
    let lv = level(&["0f ", "#  ", "###"]);
    assert_eq!(moves(&lv, &lv.start()), vec![('>', vec![(1, 0), (0, 0)], 0)]);
    let below = level(&["0 ", "f ", "##"]);
    assert_eq!(
        moves(&below, &below.start()),
        vec![('>', vec![(1, 1)], 1), ('v', vec![(0, 1), (0, 0)], 0)]
    );
}

#[test]
fn each_fruit_has_its_own_bit() {
    let lv = level(&["f0f", "###"]);
    assert_eq!(
        moves(&lv, &lv.start()),
        vec![('<', vec![(0, 0), (1, 0)], 0b10), ('>', vec![(2, 0), (1, 0)], 0b01)]
    );
}

#[test]
fn the_exit_takes_the_snake_only_when_no_fruit_is_left() {
    let lv = level(&["0X f", "####"]);
    assert_eq!(moves(&lv, &lv.start()), vec![('>', vec![(1, 0)], 1)]);
    let done = State::of(vec![(0, 0)], 0);
    assert_eq!(moves(&lv, &done), vec![('>', vec![], 0)]);
    let last = level(&["0 ", "##"]);
    let at_exit = level(&["0fX", "###"]);
    let after = State::of(vec![(1, 0), (0, 0)], 0);
    assert_eq!(moves(&at_exit, &after), vec![('>', vec![], 0)]);
    assert_eq!(moves(&last, &last.start()), vec![('>', vec![(1, 0)], 0)]);
}

#[test]
fn the_moves_come_left_right_up_down() {
    let lv = level(&["   ", " 0 ", "   ", "###"]);
    let s = State::of(vec![(1, 2), (1, 1)], 0);
    let labels: Vec<char> = moves(&lv, &s).iter().map(|m| m.0).collect();
    assert_eq!(labels, vec!['<', '>']);
    let tall = level(&["   ", " f ", " 0 ", "###"]);
    let labels: Vec<char> = moves(&tall, &tall.start()).iter().map(|m| m.0).collect();
    assert_eq!(labels, vec!['<', '>', '^']);
}

#[test]
fn the_distance_counts_fruit_and_the_way_between_the_heads() {
    let lv = level(&["0   X", "#####"]);
    let a = State::of(vec![(1, 2)], 0b101);
    let b = State::of(vec![(4, 0), (4, 1)], 0b011);
    assert_eq!(lv.distance(&a, &b), 2 + 3 + 2);
    assert_eq!(lv.distance(&b, &a), 7);
    assert_eq!(lv.distance(&a, &a), 0);
    // the head of the goal state is the exit
    assert_eq!(lv.distance(&a, &lv.goal()), 2 + 3 + 2);
    assert_eq!(lv.distance(&lv.start(), &lv.goal()), 4);
    let none = State::of(vec![(0, 0)], u64::MAX);
    assert_eq!(lv.distance(&none, &lv.goal()), 64 + 4);
}

#[test]
fn fruit_only_gets_less_and_the_snake_never_lies_on_itself() {
    let lv = level(&["0 f  f X", "########"]);
    for report in [a_star_search(&lv, 10000), dfs_search(&lv, 10000)] {
        let path = match report.outcome {
            Outcome::Found(p) => p,
            _ => panic!("no solution"),
        };
        assert!(path.len() >= 7);
        let mut fruit = lv.start().fruits_left();
        assert_eq!(fruit, 0b11);
        for (_, s) in &path {
            assert_eq!(s.fruits_left() & !fruit, 0);
            fruit = s.fruits_left();
            let mut cells = s.snake().clone();
            cells.sort();
            cells.dedup();
            assert_eq!(cells.len(), s.snake().len());
        }
        assert_eq!(fruit, 0);
        assert!(path.last().unwrap().1.snake().is_empty());
    }
}

#[test]
fn a_star_solves_a_level_in_the_fewest_moves() {
    let lv = level(&["0 f  f X", "########"]);
    match a_star_search(&lv, 10000).outcome {
        Outcome::Found(path) => {
            let labels: String = path.iter().map(|s| s.0).collect();
            assert_eq!(labels, ">>>>>>>");
        }
        _ => panic!("no solution"),
    }
}

#[test]
fn a_level_that_cannot_be_solved_has_no_path() {
    // the fruit cannot be reached, so the exit never opens
    let lv = level(&["0X #f", "#####"]);
    assert!(matches!(a_star_search(&lv, 10000).outcome, Outcome::NoPath));
    assert!(matches!(dfs_search(&lv, 10000).outcome, Outcome::NoPath));
}

#[test]
fn a_level_is_drawn_with_its_snake() {
    let lv = level(&["10fX", "# $ ", "####"]);
    let draw = |s: &State| -> Vec<String> {
        lv.render(s).iter().map(|r| r.iter().collect()).collect()
    };
    assert_eq!(draw(&lv.start()), vec![".o@X", "# $ ", "####"]);
    let ate = State::of(vec![(2, 0), (1, 0), (0, 0)], 0);
    assert_eq!(draw(&ate), vec!["..oX", "# $ ", "####"]);
    assert_eq!(draw(&lv.goal()), vec!["   X", "# $ ", "####"]);
    assert_eq!(lv.glyph(2, 0, &lv.start()), '@');
    assert_eq!(lv.glyph(2, 1, &lv.start()), '$');
    // the exit shows through the snake
    let on_exit = State::of(vec![(3, 0), (2, 0)], 0);
    assert_eq!(draw(&on_exit), vec!["  .X", "# $ ", "####"]);
    assert_eq!(lv.char(2, 0), '@');
    assert_eq!(lv.char(3, 0), ' ');
}

#[test]
fn states_of_one_value_have_one_digest() {
    let a = State::of(vec![(1, 2), (1, 3)], 5);
    assert_eq!(a.digest(), a.duplicate().digest());
    assert_eq!(State::new().digest(), 0);
    assert_eq!(State::of(vec![], 9).digest(), 9);
    // the fruit turned by five bits, with the cell laid over it
    assert_eq!(State::of(vec![(1, 2)], 3).digest(), (3 << 5) ^ 0x0102);
    assert_eq!(
        State::of(vec![(1, 2), (4, 0)], 1 << 63).digest(),
        ((((1u64 << 4) ^ 0x0102) << 5) ^ 0x0400)
    );
    assert!(a.digest() != State::of(vec![(1, 3), (1, 2)], 5).digest());
    assert!(a.digest() != State::of(vec![(1, 2), (1, 3)], 4).digest());
}
