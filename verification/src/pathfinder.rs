//! Five searches for a route from the entry of a maze to its exit.

pub mod astar;
pub mod bfs;
pub mod dfs;
pub mod dijk;
pub mod heap;
pub mod laws;
pub mod order;
pub mod passage;
pub mod queue;
pub mod relax;
pub mod routes;
pub mod search;
pub mod trail;

pub use crate::pathfinder::astar::astar;
pub use crate::pathfinder::bfs::bfs;
pub use crate::pathfinder::dfs::dfs;
pub use crate::pathfinder::dijk::{dijk, dijk2};

use vstd::prelude::*;
use vstd::string::*;
use crate::cli_errors::InvalidAlgorithmError;
use crate::maze::node::Position;
use crate::maze::Maze;
use crate::pathfinder::laws::lemma_route_arrives;
use crate::pathfinder::order::{agrees, outcome};

verus! {

/// The five searches.
#[derive(Debug, Clone, Copy, PartialEq, Eq, Structural)]
pub enum Algorithm {
    Bfs,
    Dfs,
    Dijk,
    Dijk2,
    Astar,
}

/// The search that goes by `name`, if any.
pub open spec fn named(name: Seq<char>) -> Option<Algorithm> {
    if name == "bfs"@ {
        Some(Algorithm::Bfs)
    } else if name == "dijk"@ {
        Some(Algorithm::Dijk)
    } else if name == "dijk2"@ {
        Some(Algorithm::Dijk2)
    } else if name == "dfs"@ {
        Some(Algorithm::Dfs)
    } else if name == "astar"@ {
        Some(Algorithm::Astar)
    } else {
        None
    }
}

/// Resolves the name of a search: `bfs`, `dfs`, `dijk`, `dijk2` or `astar`.
/// Any other name is handed back in the error.
pub fn get_algo(algo_str: &str) -> (algo: Result<Algorithm, InvalidAlgorithmError>)
    ensures
        algo matches Ok(a) ==> named(algo_str@) == Some(a),
        algo matches Err(e) ==> named(algo_str@) is None && e.0@ == algo_str@,
{
    let name = String::from_str(algo_str);
    if name == String::from_str("bfs") {
        Ok(Algorithm::Bfs)
    } else if name == String::from_str("dijk") {
        Ok(Algorithm::Dijk)
    } else if name == String::from_str("dijk2") {
        Ok(Algorithm::Dijk2)
    } else if name == String::from_str("dfs") {
        Ok(Algorithm::Dfs)
    } else if name == String::from_str("astar") {
        Ok(Algorithm::Astar)
    } else {
        Err(InvalidAlgorithmError(name))
    }
}

impl Algorithm {
    /// Runs this search on `maze`.
    pub fn run(&self, maze: &Maze) -> (found: (Option<Vec<Position>>, usize))
        requires
            maze.wf(),
        ensures
            found.0 matches Some(path) ==> maze.is_arrival(path@) && (*self == Algorithm::Bfs
                ==> maze.is_fewest_hops(path@)) && (*self == Algorithm::Bfs || *self
                == Algorithm::Dfs ==> maze.is_route(path@)) && (*self == Algorithm::Dijk || *self
                == Algorithm::Dijk2 || *self == Algorithm::Astar ==> maze.is_shortest(path@)),
            *self == Algorithm::Bfs ==> agrees(found, outcome(maze, true)),
            *self == Algorithm::Dfs ==> agrees(found, outcome(maze, false)),
            *self == Algorithm::Dijk ==> agrees(found, crate::pathfinder::dijk::outcome(maze)),
            *self == Algorithm::Astar ==> agrees(found, crate::pathfinder::astar::outcome(maze)),
            found.0 is Some <==> if *self == Algorithm::Bfs || *self == Algorithm::Dfs {
                maze.reachable(maze.spec_start() as int, maze.spec_end() as int)
            } else {
                maze.can_arrive()
            },
            1 <= found.1 <= 4 * maze.spec_count() + 1,
    {
        let found = match self {
            Algorithm::Bfs => bfs(maze),
            Algorithm::Dfs => dfs(maze),
            Algorithm::Dijk => dijk(maze),
            Algorithm::Dijk2 => dijk2(maze),
            Algorithm::Astar => astar(maze),
        };
        proof {
            if found.0 is Some {
                lemma_route_arrives(maze, found.0.unwrap()@);
            }
        }
        found
    }
}

} // verus!
