use puzzle_search::graph::Graph;
use puzzle_search::graph::SearchNode;
use puzzle_search::grid::{Heading, Plain};
use puzzle_search::maze::Maze;
use puzzle_search::stored::{ParseError, Stored};

fn lines(text: &[&str]) -> Vec<Vec<char>> {
    text.iter().map(|l| l.chars().collect()).collect()
}

#[test]
fn new_maze_is_all_wall() {
    let m = Maze::new(5, 4);
    assert_eq!(m.dims(), (5, 4));
    assert_eq!(m.start(), (1, 1));
    assert_eq!(m.goal(), (3, 2));
    for y in 0..4 {
        for x in 0..5 {
            assert!(m.in_bounds(x, y));
            assert!(!m.is_open(x, y));
            assert!(!m.is_marked(x, y));
        }
    }
}

#[test]
fn smallest_maze_has_its_goal_in_the_corner() {
    let m = Maze::new(1, 1);
    assert_eq!(m.dims(), (1, 1));
    assert_eq!(m.start(), (1, 1));
    assert_eq!(m.goal(), (0, 0));
}

#[test]
fn outside_the_maze_counts_as_open_but_is_no_cell() {
    let m = Maze::new(3, 2);
    assert!(!m.in_bounds(3, 0));
    assert!(!m.in_bounds(0, 2));
    assert!(m.is_open(3, 0));
    assert!(m.is_open(0, 2));
    assert!(m.is_open(usize::MAX, usize::MAX));
    assert!(!m.is_marked(3, 0));
}

#[test]
fn set_open_opens_one_cell() {
    let mut m = Maze::new(3, 3);
    m.set_open(2, 1);
    for y in 0..3 {
        for x in 0..3 {
            assert_eq!(m.is_open(x, y), (x, y) == (2, 1));
        }
    }
    m.set_open(2, 1);
    assert!(m.is_open(2, 1));
    assert!(!m.is_marked(2, 1));
}

#[test]
fn mark_marks_one_cell() {
    let mut m = Maze::new(3, 3);
    m.mark(0, 2);
    for y in 0..3 {
        for x in 0..3 {
            assert_eq!(m.is_marked(x, y), (x, y) == (0, 2));
            assert!(!m.is_open(x, y));
        }
    }
}

#[test]
fn adjacents_go_left_up_right_down() {
    let m = Maze::new(3, 3);
    assert_eq!(m.adjacents(1, 1), vec![(0, 1), (1, 0), (2, 1), (1, 2)]);
    assert_eq!(m.adjacents(0, 0), vec![(1, 0), (0, 1)]);
    assert_eq!(m.adjacents(2, 2), vec![(1, 2), (2, 1)]);
    assert_eq!(m.adjacents(2, 0), vec![(1, 0), (2, 1)]);
    let line = Maze::new(1, 1);
    assert_eq!(line.adjacents(0, 0), vec![]);
}

#[test]
fn neighbors_are_the_open_adjacents() {
    let m = Maze::load(&lines(&["# #", "   ", "###"])).unwrap();
    assert_eq!(m.neighbors(&(1, 1)), vec![(Plain, (0, 1)), (Plain, (1, 0)), (Plain, (2, 1))]);
    assert_eq!(m.neighbors(&(0, 0)), vec![(Plain, (1, 0)), (Plain, (0, 1))]);
    assert_eq!(m.neighbors(&(2, 2)), vec![(Plain, (2, 1))]);
}

#[test]
fn maze_distance_is_the_cell_distance() {
    let m = Maze::new(3, 3);
    assert_eq!(m.distance(&(0, 0), &(0, 0)), 0);
    assert_eq!(m.distance(&(0, 0), &(0, 1)), 1000);
    assert_eq!(m.distance(&(0, 0), &(2, 2)), 4004);
}

#[test]
fn load_reads_cells_start_and_goal() {
    let m = Maze::load(&lines(&["####", "#@ #", "# X", "####"])).unwrap();
    assert_eq!(m.dims(), (4, 4));
    assert_eq!(m.start(), (1, 1));
    assert_eq!(m.goal(), (2, 2));
    let open: Vec<(usize, usize)> = (0..4)
        .flat_map(|y| (0..4).map(move |x| (x, y)))
        .filter(|&(x, y)| m.is_open(x, y))
        .collect();
    assert_eq!(open, vec![(1, 1), (2, 1), (1, 2), (2, 2)]);
    // the short row ends in wall
    assert!(!m.is_open(3, 2));
}

#[test]
fn load_keeps_the_last_start_and_goal() {
    let m = Maze::load(&lines(&["@X", "X@", "@ "])).unwrap();
    assert_eq!(m.start(), (0, 2));
    assert_eq!(m.goal(), (0, 1));
    assert!(m.is_open(0, 0) && m.is_open(1, 0) && m.is_open(1, 1));
}

#[test]
fn load_without_marks_keeps_the_defaults() {
    let m = Maze::load(&lines(&["     ", "     ", "     "])).unwrap();
    assert_eq!(m.start(), (1, 1));
    assert_eq!(m.goal(), (3, 1));
}

#[test]
fn load_of_nothing_is_an_error() {
    assert_eq!(Maze::load(&lines(&[])).err(), Some(ParseError::NoCells));
    assert_eq!(Maze::load(&lines(&["", ""])).err(), Some(ParseError::NoCells));
}

#[test]
fn load_reports_the_first_bad_character_in_reading_order() {
    let r = Maze::load(&lines(&["# $", "f  "]));
    assert_eq!(r.err(), Some(ParseError::UnexpectedChar { ch: '$', x: 2, y: 0 }));
    let r = Maze::load(&lines(&["#  ", " 0a"]));
    assert_eq!(r.err(), Some(ParseError::UnexpectedChar { ch: '0', x: 1, y: 1 }));
}

#[test]
fn render_draws_walls_blanks_and_marks() {
    let mut m = Maze::load(&lines(&["###", "#  ", "###"])).unwrap();
    let rows: Vec<String> = m.render().iter().map(|r| r.iter().collect()).collect();
    assert_eq!(rows, vec!["┌──", "│  ", "└──"]);
    m.mark(1, 1);
    m.mark(2, 1);
    let rows: Vec<String> = m.render().iter().map(|r| r.iter().collect()).collect();
    assert_eq!(rows, vec!["┌──", "│══", "└──"]);
    assert_eq!(m.glyph(1, 1), '═');
    assert_eq!(m.glyph(0, 0), '┌');
}

#[test]
fn render_joins_marks_to_the_left_and_upper_edge() {
    let mut m = Maze::load(&lines(&["  ", "  "])).unwrap();
    m.mark(0, 0);
    // the left and the upper edge count as marked, the rest does not
    assert_eq!(m.glyph(0, 0), '╝');
    m.mark(1, 1);
    assert_eq!(m.glyph(1, 1), '║');
    m.mark(0, 1);
    assert_eq!(m.glyph(0, 1), '╩');
    assert_eq!(m.glyph(1, 1), '═');
    assert_eq!(m.glyph(1, 0), ' ');
}

#[test]
fn a_maze_is_open_toward_the_open_cells_next_to_a_cell() {
    let m = Maze::load(&lines(&["# #", "   ", "###"])).unwrap();
    assert!(m.is_open_toward(1, 1, Heading::Left));
    assert!(m.is_open_toward(1, 1, Heading::Up));
    assert!(m.is_open_toward(1, 1, Heading::Right));
    assert!(!m.is_open_toward(1, 1, Heading::Down));
    // it is the cell next door that counts, not the cell itself
    assert!(m.is_open_toward(0, 0, Heading::Right));
    assert!(!m.is_open_toward(1, 0, Heading::Right));
    // and no cell is open towards the outside
    assert!(!m.is_open_toward(0, 1, Heading::Left));
    assert!(!m.is_open_toward(1, 0, Heading::Up));
    assert!(!m.is_open_toward(2, 1, Heading::Right));
    assert!(!m.is_open_toward(1, 2, Heading::Down));
    for (x, y) in [(0usize, 0usize), (1, 1), (2, 1), (1, 0)] {
        let steps: Vec<(usize, usize)> = m.neighbors(&(x, y)).iter().map(|s| s.1).collect();
        assert_eq!(m.is_open_toward(x, y, Heading::Right), steps.contains(&(x + 1, y)));
        assert_eq!(m.is_open_toward(x, y, Heading::Down), steps.contains(&(x, y + 1)));
        assert_eq!(x > 0 && steps.contains(&(x - 1, y)), m.is_open_toward(x, y, Heading::Left));
        assert_eq!(y > 0 && steps.contains(&(x, y - 1)), m.is_open_toward(x, y, Heading::Up));
    }
}

#[test]
fn cells_have_their_row_and_column_for_a_digest() {
    assert_eq!((3usize, 5usize).digest(), (5u64 << 32) ^ 3);
    assert_eq!((0usize, 0usize).digest(), 0);
    assert!((1usize, 2usize).digest() != (2usize, 1usize).digest());
    assert!((7usize, 9usize).same(&(7, 9)));
    assert!(!(7usize, 9usize).same(&(9, 7)));
    assert_eq!((7usize, 9usize).duplicate(), (7, 9));
}
