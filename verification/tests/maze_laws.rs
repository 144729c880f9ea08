use puzzle_search::graph::Graph;
use puzzle_search::grid::Plain;
use puzzle_search::maze::Maze;
use puzzle_search::maze2::Maze2;
use puzzle_search::a_star::a_star_search;
use puzzle_search::dfs::dfs_search;
use puzzle_search::search::{solve, Outcome, Strategy};
use puzzle_search::stored::Stored;
use rand::{SeedableRng, StdRng};
use std::collections::{HashMap, VecDeque};

fn lines(text: &[&str]) -> Vec<Vec<char>> {
    text.iter().map(|l| l.chars().collect()).collect()
}

fn cells(path: &[(Plain, (usize, usize))]) -> Vec<(usize, usize)> {
    path.iter().map(|s| s.1).collect()
}

fn found<G: Graph>(outcome: Outcome<G::Edge, G::Node>) -> Vec<(G::Edge, G::Node)> {
    match outcome {
        Outcome::Found(p) => p,
        Outcome::NoPath => panic!("no path"),
        Outcome::Exhausted => panic!("exhausted"),
    }
}

/// The number of steps of a shortest walk, by breadth-first search.
fn shortest<G: Graph<Node = (usize, usize)>>(g: &G) -> Option<usize> {
    let mut seen: HashMap<(usize, usize), usize> = HashMap::new();
    let mut queue = VecDeque::new();
    seen.insert(g.start(), 0);
    queue.push_back(g.start());
    while let Some(c) = queue.pop_front() {
        if c == g.goal() {
            return Some(seen[&c]);
        }
        for (_, n) in g.neighbors(&c) {
            if !seen.contains_key(&n) {
                seen.insert(n, seen[&c] + 1);
                queue.push_back(n);
            }
        }
    }
    None
}

/// The number of simple paths from `at` to the goal, counted up to `cap`.
fn simple_paths<G: Graph<Node = (usize, usize)>>(
    g: &G,
    at: (usize, usize),
    trail: &mut Vec<(usize, usize)>,
    cap: usize,
) -> usize {
    if at == g.goal() {
        return 1;
    }
    trail.push(at);
    let mut n = 0;
    for (_, next) in g.neighbors(&at) {
        if n < cap && !trail.contains(&next) {
            n += simple_paths(g, next, trail, cap - n);
        }
    }
    trail.pop();
    n
}

fn is_walk<G: Graph<Node = (usize, usize)>>(g: &G, path: &[(usize, usize)]) -> bool {
    let mut at = g.start();
    for &c in path {
        if !g.neighbors(&at).iter().any(|s| s.1 == c) {
            return false;
        }
        at = c;
    }
    at == g.goal()
}

#[test]
fn a_star_finds_a_shortest_path_in_an_open_field() {
    let m = Maze::load(&lines(&[
        "@      ",
        " ##### ",
        "     # ",
        " ### # ",
        "   #  X",
    ]))
    .unwrap();
    let path = cells(&found::<Maze>(a_star_search(&m, 1000).outcome));
    assert!(is_walk(&m, &path));
    assert_eq!(Some(path.len()), shortest(&m));
    assert_eq!(path.len(), 10);
}

#[test]
fn a_star_matches_breadth_first_search_on_random_mazes() {
    for seed in 1..8usize {
        let mut rng = StdRng::from_seed(&[seed, 2 * seed + 1]);
        let m = Maze::random(15, 11, &mut rng);
        let path = cells(&found::<Maze>(a_star_search(&m, 1000).outcome));
        assert!(is_walk(&m, &path));
        assert_eq!(Some(path.len()), shortest(&m));
    }
}

#[test]
fn a_star_matches_breadth_first_search_where_paths_cross() {
    // every cell open: many shortest paths, all of 2 + 3 steps
    let text: Vec<String> = (0..5).map(|_| " ".repeat(6)).collect();
    let rows: Vec<&str> = text.iter().map(|s| s.as_str()).collect();
    let m = Maze::load(&lines(&rows)).unwrap();
    assert_eq!(m.start(), (1, 1));
    assert_eq!(m.goal(), (4, 3));
    let path = cells(&found::<Maze>(a_star_search(&m, 1000).outcome));
    assert!(is_walk(&m, &path));
    assert_eq!(path.len(), 5);
    assert_eq!(shortest(&m), Some(5));
}

#[test]
fn a_random_maze_has_one_simple_path_and_both_engines_find_it() {
    for seed in 1..6usize {
        let mut rng = StdRng::from_seed(&[seed, 99]);
        let m = Maze::random(9, 9, &mut rng);
        assert_eq!(simple_paths(&m, m.start(), &mut Vec::new(), 10), 1);
        let a = cells(&found::<Maze>(a_star_search(&m, 1000).outcome));
        let d = cells(&found::<Maze>(dfs_search(&m, 100000).outcome));
        assert!(is_walk(&m, &a));
        assert_eq!(a, d);
    }
}

#[test]
fn a_random_maze_of_the_second_kind_has_one_simple_path() {
    for seed in 1..6usize {
        let mut rng = StdRng::from_seed(&[seed, 5]);
        let m = Maze2::random(9, 7, &mut rng);
        assert_eq!(m.dims(), (9, 7));
        assert_eq!(m.start(), (1, 1));
        assert_eq!(m.goal(), (7, 5));
        assert_eq!(simple_paths(&m, m.start(), &mut Vec::new(), 10), 1);
        let a = cells(&found::<Maze2>(a_star_search(&m, 1000).outcome));
        let d = cells(&found::<Maze2>(dfs_search(&m, 100000).outcome));
        assert!(is_walk(&m, &a));
        assert_eq!(a, d);
    }
}

#[test]
fn random_mazes_keep_border_and_pillars_closed() {
    let mut rng = StdRng::from_seed(&[3usize]);
    let m = Maze::random(11, 7, &mut rng);
    assert_eq!(m.dims(), (11, 7));
    assert!(m.is_open(1, 1));
    for y in 0..7 {
        for x in 0..11 {
            let border = x == 0 || y == 0 || x == 10 || y == 6;
            let pillar = x % 2 == 0 && y % 2 == 0;
            let room = x % 2 == 1 && y % 2 == 1;
            if border || pillar {
                assert!(!m.is_open(x, y));
            }
            if room {
                assert!(m.is_open(x, y));
            }
        }
    }
}

#[test]
fn the_shuffle_makes_mazes_differ_from_seed_to_seed() {
    let carve = |seed: usize| {
        let mut rng = StdRng::from_seed(&[seed]);
        let m = Maze::random(21, 21, &mut rng);
        let mut open = Vec::new();
        for y in 0..21 {
            for x in 0..21 {
                open.push(m.is_open(x, y));
            }
        }
        open
    };
    let first = carve(1);
    assert!((2..12).any(|seed| carve(seed) != first));
    // and one seed gives one maze
    assert_eq!(carve(1), first);
}

#[test]
fn a_cut_passage_leaves_no_path() {
    let whole = Maze::load(&lines(&["#####", "#@ X#", "#####"])).unwrap();
    assert_eq!(cells(&found::<Maze>(a_star_search(&whole, 100).outcome)), vec![(2, 1), (3, 1)]);
    let cut = Maze::load(&lines(&["#####", "#@#X#", "#####"])).unwrap();
    let a = a_star_search(&cut, 100);
    assert!(matches!(a.outcome, Outcome::NoPath));
    assert_eq!(a.visited, 1);
    let d = dfs_search(&cut, 100);
    assert!(matches!(d.outcome, Outcome::NoPath));
    assert_eq!(d.visited, 1);
}

#[test]
fn a_walled_in_goal_leaves_no_path() {
    let m = Maze::load(&lines(&["@   #X", "    ##", "      "])).unwrap();
    assert!(matches!(a_star_search(&m, 1000).outcome, Outcome::NoPath));
    assert!(matches!(dfs_search(&m, 1000000).outcome, Outcome::NoPath));
    assert!(matches!(solve(&m, Strategy::AStar, 1000).outcome, Outcome::NoPath));
}

#[test]
fn start_on_the_goal_needs_no_step() {
    let m = Maze::load(&lines(&["X@", "  "])).unwrap();
    let mut here = Maze::new(2, 2);
    here.set_open(0, 0);
    assert_eq!(here.start(), (1, 1));
    assert_eq!(here.goal(), (0, 0));
    assert_eq!(cells(&found::<Maze>(a_star_search(&m, 10).outcome)), vec![(0, 0)]);
    let one = Maze::load(&lines(&["  ", " X", "  "])).unwrap();
    assert_eq!(one.start(), one.goal());
    let a = a_star_search(&one, 10);
    assert_eq!(a.visited, 1);
    assert!(found::<Maze>(a.outcome).is_empty());
    let d = dfs_search(&one, 10);
    assert_eq!(d.visited, 0);
    assert!(found::<Maze>(d.outcome).is_empty());
}

#[test]
fn engines_give_up_at_their_limit() {
    let m = Maze::load(&lines(&["@    ", "     ", "    X"])).unwrap();
    let a = a_star_search(&m, 3);
    assert!(matches!(a.outcome, Outcome::Exhausted));
    assert_eq!(a.visited, 3);
    let a0 = a_star_search(&m, 0);
    assert!(matches!(a0.outcome, Outcome::Exhausted));
    assert_eq!(a0.visited, 0);
    let d = dfs_search(&m, 4);
    assert!(matches!(d.outcome, Outcome::Exhausted));
    assert_eq!(d.visited, 4);
    let d0 = dfs_search(&m, 0);
    assert!(matches!(d0.outcome, Outcome::Exhausted));
    // as many states as there are suffice for A*
    let all = a_star_search(&m, 15);
    assert_eq!(found::<Maze>(all.outcome).len(), 6);
}

#[test]
fn solve_runs_the_engine_it_is_told() {
    let m = Maze::load(&lines(&["@ ", " X"])).unwrap();
    let d = found::<Maze>(solve(&m, Strategy::DFS, 100).outcome);
    let a = found::<Maze>(solve(&m, Strategy::AStar, 100).outcome);
    // right before down, for both
    assert_eq!(cells(&d), vec![(1, 0), (1, 1)]);
    assert_eq!(a.len(), 2);
}

#[test]
fn dfs_takes_the_first_way_not_the_shortest() {
    let m = Maze::load(&lines(&["    ", "@# X", "    "])).unwrap();
    let d = cells(&found::<Maze>(dfs_search(&m, 1000).outcome));
    // up is tried before down, and left before right
    assert_eq!(d.first(), Some(&(0, 0)));
    assert!(is_walk(&m, &d));
    let mut seen = d.clone();
    seen.sort();
    seen.dedup();
    assert_eq!(seen.len(), d.len());
    let a = cells(&found::<Maze>(a_star_search(&m, 1000).outcome));
    assert_eq!(a.len(), 5);
}

#[test]
fn beyond_two_thousand_cells_a_star_may_keep_to_the_straight_passage() {
    // the start and the goal lie 2200 cells apart in a passage that is
    // blocked near its end, with a detour of six steps; the way round over
    // the top row costs four
    let far = 2200usize;
    let block = 2150usize;
    let mut rows: Vec<Vec<char>> = vec![vec!['#'; far + 1]; 6];
    for x in 0..=far {
        rows[0][x] = ' ';
        if x != block {
            rows[2][x] = ' ';
        }
    }
    rows[1][0] = ' ';
    rows[1][far] = ' ';
    rows[2][0] = '@';
    rows[2][far] = 'X';
    for y in 3..6 {
        rows[y][block - 1] = ' ';
        rows[y][block + 1] = ' ';
    }
    rows[5][block] = ' ';
    let m = Maze::load(&rows).unwrap();
    assert_eq!(m.start(), (0, 2));
    assert_eq!(m.goal(), (far, 2));
    assert_eq!(shortest(&m), Some(far + 4));
    let path = cells(&found::<Maze>(a_star_search(&m, 100000).outcome));
    assert!(is_walk(&m, &path));
    assert_eq!(path.len(), far + 6);
}

#[test]
fn within_two_thousand_cells_a_star_takes_the_way_round() {
    let far = 1900usize;
    let block = 1850usize;
    let mut rows: Vec<Vec<char>> = vec![vec!['#'; far + 1]; 6];
    for x in 0..=far {
        rows[0][x] = ' ';
        if x != block {
            rows[2][x] = ' ';
        }
    }
    rows[1][0] = ' ';
    rows[1][far] = ' ';
    rows[2][0] = '@';
    rows[2][far] = 'X';
    for y in 3..6 {
        rows[y][block - 1] = ' ';
        rows[y][block + 1] = ' ';
    }
    rows[5][block] = ' ';
    let m = Maze::load(&rows).unwrap();
    assert_eq!(shortest(&m), Some(far + 4));
    let path = cells(&found::<Maze>(a_star_search(&m, 100000).outcome));
    assert!(is_walk(&m, &path));
    assert_eq!(path.len(), far + 4);
}

#[test]
fn an_engine_gives_up_only_where_there_is_more_than_it_may_hold() {
    // three cells in a row, and a goal behind a wall: three states, and
    // three routes out of the start
    let m = Maze::load(&lines(&["@  #X"])).unwrap();
    let a = a_star_search(&m, 3);
    assert!(matches!(a.outcome, Outcome::NoPath));
    assert_eq!(a.visited, 3);
    assert!(matches!(a_star_search(&m, 2).outcome, Outcome::Exhausted));
    let d = dfs_search(&m, 3);
    assert!(matches!(d.outcome, Outcome::NoPath));
    assert_eq!(d.visited, 3);
    assert!(matches!(dfs_search(&m, 2).outcome, Outcome::Exhausted));
    // two ways round a block: four states, and seven routes out of the start
    let ring = Maze::load(&lines(&["@ #X", "  #"])).unwrap();
    assert!(matches!(a_star_search(&ring, 4).outcome, Outcome::NoPath));
    assert!(matches!(a_star_search(&ring, 3).outcome, Outcome::Exhausted));
    let d = dfs_search(&ring, 7);
    assert!(matches!(d.outcome, Outcome::NoPath));
    assert_eq!(d.visited, 7);
    assert!(matches!(dfs_search(&ring, 6).outcome, Outcome::Exhausted));
}
