use puzzle_search::graph::Graph;
use puzzle_search::grid::{Heading, Plain};
use puzzle_search::maze2::Maze2;
use rand::{SeedableRng, StdRng};

#[test]
fn new_maze2_is_all_wall() {
    let m = Maze2::new(5, 3);
    assert_eq!(m.dims(), (5, 3));
    assert_eq!(m.start(), (1, 1));
    assert_eq!(m.goal(), (3, 1));
    for y in 0..3 {
        for x in 0..5 {
            assert!(m.in_bounds(x, y));
            assert!(!m.is_open(x, y));
            assert!(!m.is_marked(x, y));
        }
    }
    let one = Maze2::new(1, 1);
    assert_eq!(one.goal(), (0, 0));
}

#[test]
fn outside_maze2_nothing_is_open() {
    let m = Maze2::new(3, 3);
    assert!(!m.in_bounds(3, 1));
    assert!(!m.is_open(3, 1));
    assert!(!m.is_open(1, 3));
    assert!(!m.is_open(usize::MAX, usize::MAX));
    assert!(!m.is_marked(3, 3));
}

#[test]
fn maze2_set_open_and_mark_touch_one_cell() {
    let mut m = Maze2::new(5, 5);
    m.set_open(1, 3);
    m.mark(4, 0);
    for y in 0..5 {
        for x in 0..5 {
            assert_eq!(m.is_open(x, y), (x, y) == (1, 3));
            assert_eq!(m.is_marked(x, y), (x, y) == (4, 0));
        }
    }
}

#[test]
fn maze2_adjacents_avoid_border_and_pillars() {
    let m = Maze2::new(7, 7);
    // a room in the middle: left, up, right, down
    assert_eq!(m.adjacents(3, 3), vec![(2, 3), (3, 2), (4, 3), (3, 4)]);
    // a room in the corner: nothing leads to the border
    assert_eq!(m.adjacents(1, 1), vec![(2, 1), (1, 2)]);
    assert_eq!(m.adjacents(5, 5), vec![(4, 5), (5, 4)]);
    // a passage leads on to its two rooms only
    assert_eq!(m.adjacents(2, 3), vec![(1, 3), (3, 3)]);
    assert_eq!(m.adjacents(3, 4), vec![(3, 3), (3, 5)]);
    // a pillar leads nowhere
    assert_eq!(m.adjacents(2, 2), vec![]);
    let small = Maze2::new(1, 1);
    assert_eq!(small.adjacents(0, 0), vec![]);
    assert_eq!(small.adjacents(1, 1), vec![]);
}

#[test]
fn maze2_neighbors_are_the_open_adjacents() {
    let mut m = Maze2::new(5, 5);
    m.set_open(1, 1);
    m.set_open(2, 1);
    m.set_open(1, 2);
    m.set_open(1, 3);
    assert_eq!(m.neighbors(&(1, 1)), vec![(Plain, (2, 1)), (Plain, (1, 2))]);
    assert_eq!(m.neighbors(&(1, 2)), vec![(Plain, (1, 1)), (Plain, (1, 3))]);
    assert_eq!(m.neighbors(&(3, 1)), vec![(Plain, (2, 1))]);
    assert_eq!(m.distance(&(1, 1), &(3, 3)), 4004);
    assert_eq!(m.distance(&(1, 1), &(1, 2)), 1000);
}

#[test]
fn maze2_random_opens_every_room_and_no_border() {
    let mut rng = StdRng::from_seed(&[17usize, 4]);
    let m = Maze2::random(9, 5, &mut rng);
    let mut open = 0;
    for y in 0..5 {
        for x in 0..9 {
            let border = x == 0 || y == 0 || x == 8 || y == 4;
            let pillar = x % 2 == 0 && y % 2 == 0;
            if border || pillar {
                assert!(!m.is_open(x, y));
            }
            if x % 2 == 1 && y % 2 == 1 {
                assert!(m.is_open(x, y));
            }
            if m.is_open(x, y) {
                open += 1;
            }
        }
    }
    // a tree of 8 rooms has 7 passages
    assert_eq!(open, 15);
    let tiny = Maze2::random(1, 1, &mut rng);
    assert!(!tiny.is_open(0, 0));
    let flat = Maze2::random(5, 1, &mut rng);
    assert_eq!(flat.dims(), (5, 1));
    assert!((0..5).all(|x| !flat.is_open(x, 0)));
}

#[test]
fn maze2_is_drawn_with_walls_and_marks() {
    let mut m = Maze2::new(3, 3);
    m.set_open(1, 1);
    let rows: Vec<String> = m.render().iter().map(|r| r.iter().collect()).collect();
    assert_eq!(rows, vec!["┌─┐", "│ │", "└─┘"]);
    m.mark(1, 1);
    assert_eq!(m.glyph(1, 1), '║');
    m.mark(0, 1);
    assert_eq!(m.glyph(1, 1), '═');
    assert_eq!(m.glyph(0, 1), '═');
    assert_eq!(m.glyph(0, 0), '┌');
}

#[test]
fn maze2_is_open_toward_the_open_cells_that_a_passage_leads_to() {
    let mut m = Maze2::new(5, 5);
    m.set_open(1, 1);
    m.set_open(2, 1);
    m.set_open(3, 1);
    m.set_open(1, 2);
    assert!(m.is_open_toward(1, 1, Heading::Right));
    assert!(m.is_open_toward(1, 1, Heading::Down));
    assert!(!m.is_open_toward(1, 1, Heading::Left));
    assert!(!m.is_open_toward(1, 1, Heading::Up));
    assert!(m.is_open_toward(2, 1, Heading::Left));
    assert!(m.is_open_toward(2, 1, Heading::Right));
    // a passage that runs left and right opens neither up nor down
    m.set_open(2, 2);
    assert!(!m.is_open_toward(2, 1, Heading::Down));
    assert!(!m.is_open_toward(1, 2, Heading::Right));
    assert!(m.is_open_toward(1, 2, Heading::Up));
}
