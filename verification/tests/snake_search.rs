use puzzle_search::graph::Graph;
use puzzle_search::a_star::a_star_search;
use puzzle_search::dfs::dfs_search;
use puzzle_search::search::Outcome;
use puzzle_search::snake::{Level, State};
use puzzle_search::stored::{ParseError, Stored};

fn level(text: &[&str]) -> Level {
    let lines: Vec<Vec<char>> = text.iter().map(|l| l.chars().collect()).collect();
    Level::load(&lines).unwrap()
}

fn labels(path: &[(char, State)]) -> String {
    path.iter().map(|s| s.0).collect()
}

#[test]
fn eat_then_exit_is_a_two_move_solution_for_a_star() {
    let lv = level(&["0fX", "###"]);
    assert_eq!(lv.initial_snake(), &vec![(0u8, 0u8)]);
    assert_eq!(lv.exit(), (2, 0));
    assert_eq!(lv.fruits(), &vec![(1u8, 0u8)]);
    let report = a_star_search(&lv, 1000);
    match report.outcome {
        Outcome::Found(path) => {
            assert_eq!(path.len(), 2);
            assert_eq!(labels(&path), ">>");
            assert_eq!(path[0].1.snake(), &vec![(1u8, 0u8), (0u8, 0u8)]);
            assert_eq!(path[0].1.fruits_left(), 0);
            // the last state is the one goal state, not a snake on the exit
            assert!(path[1].1.snake().is_empty());
            assert_eq!(path[1].1.fruits_left(), 0);
        }
        _ => panic!("no solution"),
    }
}

#[test]
fn eat_then_exit_is_a_two_move_solution_for_dfs() {
    let lv = level(&["0fX", "###"]);
    match dfs_search(&lv, 1000).outcome {
        Outcome::Found(path) => {
            assert_eq!(labels(&path), ">>");
            assert!(path[1].1.snake().is_empty());
        }
        _ => panic!("no solution"),
    }
}

#[test]
fn start_has_one_bit_for_each_fruit() {
    let lv = level(&["0 f f@", "######"]);
    let s = lv.start();
    assert_eq!(s.fruits_left(), 0b111);
    assert_eq!(s.snake(), &vec![(0u8, 0u8)]);
    let g = lv.goal();
    assert!(g.snake().is_empty());
    assert_eq!(g.fruits_left(), 0);
}

#[test]
fn level_load_reports_the_first_bad_character() {
    let lines: Vec<Vec<char>> = ["0 ", " ?", "!#"].iter().map(|l| l.chars().collect()).collect();
    assert_eq!(
        Level::load(&lines).err(),
        Some(ParseError::UnexpectedChar { ch: '?', x: 1, y: 1 })
    );
}
