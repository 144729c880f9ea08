//! What a search returns, whichever engine ran it, and the choice between
//! the two engines.

use crate::a_star::{a_star_result, a_star_search, more_states_than};
use crate::dfs::{dfs_result, dfs_search, more_routes_than};
use crate::graph::{reachable, Graph};
use vstd::prelude::*;

verus! {

/// How a search ended.
pub enum Outcome<E, N> {
    /// The steps of a walk from the start to the goal: each the label of a
    /// move and the node that it leads to.
    Found(Vec<(E, N)>),
    /// The goal cannot be reached from the start.
    NoPath,
    /// The search gave up at its limit.
    Exhausted,
}

/// The outcome of a search with the size that the search grew to.
pub struct Report<E, N> {
    pub outcome: Outcome<E, N>,
    /// For A*, the number of states in the search table; for the depth-first
    /// search, the number of times a state was entered.
    pub visited: usize,
}

/// Where the goal cannot be reached from the start, both engines say so,
/// unless they give up: A* only where more states can be reached than its
/// table may hold, the depth-first search only where more routes lead out of
/// the start than it may enter states.
pub proof fn unreachable_goal_is_reported<G: Graph>(
    g: &G,
    max_states: usize,
    a: Report<G::Edge, G::Node>,
    max_visits: usize,
    d: Report<G::Edge, G::Node>,
)
    requires
        !reachable(g, g.start_view(), g.goal_view()),
        a_star_result(g, max_states, a),
        dfs_result(g, max_visits, d),
    ensures
        a.outcome is NoPath || (a.outcome is Exhausted && more_states_than(g, max_states as nat)),
        d.outcome is NoPath || (d.outcome is Exhausted && more_routes_than(g, max_visits as nat)),
{
}

/// Where the goal can be reached from the start, A* finds a path to it
/// unless more states can be reached than its table may hold, and the
/// depth-first search finds one unless more routes lead out of the start than
/// it may enter states.
pub proof fn reachable_goal_is_found<G: Graph>(
    g: &G,
    max_states: usize,
    a: Report<G::Edge, G::Node>,
    max_visits: usize,
    d: Report<G::Edge, G::Node>,
)
    requires
        reachable(g, g.start_view(), g.goal_view()),
        a_star_result(g, max_states, a),
        dfs_result(g, max_visits, d),
    ensures
        a.outcome is Found || (a.outcome is Exhausted && more_states_than(g, max_states as nat)),
        d.outcome is Found || (d.outcome is Exhausted && more_routes_than(g, max_visits as nat)),
{
}

/// Which engine to search with.
#[derive(Clone, Copy, Debug, PartialEq, Eq)]
pub enum Strategy {
    DFS,
    AStar,
}

/// Searches `graph` with the engine that `strat` names. `limit` is the most
/// states that the depth-first search may enter, or the most entries that the
/// table of A* may hold.
pub fn solve<G: Graph>(graph: &G, strat: Strategy, limit: usize) -> (r: Report<G::Edge, G::Node>)
    requires
        graph.well_formed(),
    ensures
        strat == Strategy::DFS ==> dfs_result(graph, limit, r),
        strat == Strategy::AStar ==> a_star_result(graph, limit, r),
{
    match strat {
        Strategy::DFS => dfs_search(graph, limit),
        Strategy::AStar => a_star_search(graph, limit),
    }
}

} // verus!
