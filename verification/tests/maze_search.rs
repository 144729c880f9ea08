use puzzle_search::graph::Graph;
use puzzle_search::maze::Maze;
use puzzle_search::a_star::a_star_search;
use puzzle_search::dfs::dfs_search;
use puzzle_search::search::Outcome;
use puzzle_search::stored::{ParseError, Stored};
use rand::{SeedableRng, StdRng};

fn lines(text: &[&str]) -> Vec<Vec<char>> {
    text.iter().map(|l| l.chars().collect()).collect()
}

fn cells(path: &[(puzzle_search::grid::Plain, (usize, usize))]) -> Vec<(usize, usize)> {
    path.iter().map(|s| s.1).collect()
}

#[test]
fn ring_maze_a_star_takes_the_single_step() {
    let maze = Maze::load(&lines(&["@X#", "  #", "###"])).unwrap();
    assert_eq!(maze.start(), (0, 0));
    assert_eq!(maze.goal(), (1, 0));
    let report = a_star_search(&maze, 100);
    match report.outcome {
        Outcome::Found(path) => assert_eq!(cells(&path), vec![(1, 0)]),
        _ => panic!("no path"),
    }
}

#[test]
fn ring_maze_dfs_goes_round_in_three_steps_at_most() {
    let maze = Maze::load(&lines(&["@X#", "  #", "###"])).unwrap();
    let report = dfs_search(&maze, 100);
    match report.outcome {
        Outcome::Found(path) => {
            assert!(path.len() <= 3);
            // left and up do not exist at (0, 0); right is tried before down
            assert_eq!(cells(&path), vec![(1, 0)]);
        }
        _ => panic!("no path"),
    }
}

#[test]
fn maze_load_rejects_an_unknown_character() {
    let r = Maze::load(&lines(&["@ #", " q#", "#?X"]));
    assert_eq!(r.err(), Some(ParseError::UnexpectedChar { ch: 'q', x: 1, y: 1 }));
}

#[test]
fn random_maze_is_solved_alike_by_both_engines() {
    let mut rng = StdRng::from_seed(&[7usize, 11, 13]);
    let maze = Maze::random(21, 21, &mut rng);
    assert_eq!(maze.dims(), (21, 21));
    assert_eq!(maze.start(), (1, 1));
    assert_eq!(maze.goal(), (19, 19));
    let a = match a_star_search(&maze, 1000).outcome {
        Outcome::Found(p) => cells(&p),
        _ => panic!("a* found no path"),
    };
    let d = match dfs_search(&maze, 100000).outcome {
        Outcome::Found(p) => cells(&p),
        _ => panic!("dfs found no path"),
    };
    assert_eq!(a, d);
    assert_eq!(a.last(), Some(&(19, 19)));
}
