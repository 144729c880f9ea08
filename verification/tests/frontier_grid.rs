use puzzle_search::frontier::Frontier;
use puzzle_search::grid::{cell_distance, one_further, wall};

#[test]
fn frontier_hands_out_the_least_priority_first() {
    let mut f = Frontier::new();
    f.push(30, 0);
    f.push(10, 1);
    f.push(20, 2);
    assert_eq!(f.len(), 3);
    assert_eq!(f.pop(), Some((10, 1)));
    assert_eq!(f.pop(), Some((20, 2)));
    assert_eq!(f.pop(), Some((30, 0)));
    assert_eq!(f.pop(), None);
    assert_eq!(f.len(), 0);
}

#[test]
fn frontier_hands_out_equal_priorities_in_some_order() {
    let mut f = Frontier::new();
    f.push(5, 7);
    f.push(5, 3);
    f.push(4, 9);
    f.push(5, 1);
    assert_eq!(f.pop(), Some((4, 9)));
    let mut rest = vec![f.pop().unwrap(), f.pop().unwrap(), f.pop().unwrap()];
    rest.sort();
    assert_eq!(rest, vec![(5, 1), (5, 3), (5, 7)]);
    assert_eq!(f.pop(), None);
}

#[test]
fn frontier_sorts_whatever_it_is_given() {
    let mut f = Frontier::new();
    let mut want = Vec::new();
    let mut x: usize = 12345;
    for slot in 0..500usize {
        x = (x * 1103515245 + 12345) % 2147483648;
        f.push(x % 97, slot);
        want.push(x % 97);
        if slot % 3 == 2 {
            want.sort();
            assert_eq!(f.pop().unwrap().0, want.remove(0));
        }
    }
    want.sort();
    assert_eq!(f.len(), want.len());
    let mut slots = Vec::new();
    for p in want {
        let (q, slot) = f.pop().unwrap();
        assert_eq!(q, p);
        slots.push(slot);
    }
    slots.sort();
    slots.dedup();
    assert_eq!(slots.len(), 500 - 166);
    assert_eq!(f.pop(), None);
}

#[test]
fn frontier_keeps_stale_pairs_of_one_slot() {
    let mut f = Frontier::new();
    f.push(9, 2);
    f.push(3, 2);
    assert_eq!(f.pop(), Some((3, 2)));
    assert_eq!(f.pop(), Some((9, 2)));
}

#[test]
fn cell_distance_scales_the_manhattan_distance() {
    assert_eq!(cell_distance((3, 4), (3, 4)), 0);
    assert_eq!(cell_distance((3, 4), (4, 4)), 1000);
    assert_eq!(cell_distance((3, 4), (3, 3)), 1000);
    assert_eq!(cell_distance((3, 4), (4, 5)), 2002);
    assert_eq!(cell_distance((0, 0), (2, 3)), 5005);
    assert_eq!(cell_distance((7, 1), (1, 9)), 14 * 1001);
    assert_eq!(cell_distance((1, 9), (7, 1)), 14 * 1001);
}

#[test]
fn cell_distance_stops_at_the_largest_number() {
    assert_eq!(cell_distance((0, 0), (usize::MAX, usize::MAX)), usize::MAX);
    assert_eq!(cell_distance((0, 0), (usize::MAX, 0)), usize::MAX);
    assert_eq!(cell_distance((usize::MAX / 1001, 0), (0, 0)), (usize::MAX / 1001) * 1001);
}

#[test]
fn one_further_steps_past_a_cell() {
    assert_eq!(one_further(5, 4), 6);
    assert_eq!(one_further(5, 6), 4);
    assert_eq!(one_further(5, 5), 5);
    assert_eq!(one_further(1, 2), 0);
    assert_eq!(one_further(1, 9), 1);
}

#[test]
fn wall_glyphs_join_their_neighbours() {
    // single lines, in the order of the sixteen combinations of
    // up, down, left, right
    let single: Vec<char> = "│───│┌┐┬│└┘┴│├┤┼".chars().collect();
    let double: Vec<char> = "║═══║╔╗╦║╚╝╩║╠╣╬".chars().collect();
    for i in 0..16usize {
        let up = i & 8 != 0;
        let down = i & 4 != 0;
        let left = i & 2 != 0;
        let right = i & 1 != 0;
        assert_eq!(wall(false, left, right, up, down), single[i]);
        assert_eq!(wall(true, left, right, up, down), double[i]);
    }
}
