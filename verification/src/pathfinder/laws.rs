//! What holds of every route, whichever search found it.

use vstd::prelude::*;
use crate::maze::node::Position;
use crate::maze::Maze;
use crate::pathfinder::routes::length;

verus! {

impl Maze {
    /// Some vertex at `p` has a link to some vertex at `q`.
    pub open spec fn joined(&self, p: Position, q: Position) -> bool {
        exists|a: int, b: int| #[trigger]
            self.linked(a, b) && self.position(a) == p && self.position(b) == q
    }
}

/// A route is the positions along a walk to the pixel of the exit.
pub proof fn lemma_route_arrives(maze: &Maze, path: Seq<Position>)
    requires
        maze.wf(),
        maze.is_route(path) || maze.is_arrival(path),
    ensures
        maze.is_arrival(path),
{
    if maze.is_route(path) {
        let walk = choose|walk: Seq<int>| maze.solves(walk) && path == maze.trace(walk);
        assert(maze.arrives(walk));
    }
}

/// Every path that a search returns is not empty, starts on the pixel of the
/// entry and ends on the pixel of the exit.
pub proof fn law_route_ends(maze: &Maze, path: Seq<Position>)
    requires
        maze.wf(),
        maze.is_route(path) || maze.is_arrival(path),
    ensures
        path.len() >= 1,
        path[0] == maze.position(maze.spec_start() as int),
        path[path.len() - 1] == maze.position(maze.spec_end() as int),
{
    lemma_route_arrives(maze, path);
    let walk = choose|walk: Seq<int>| maze.arrives(walk) && path == maze.trace(walk);
    assert(path.len() == walk.len());
}

/// Every path that a search returns follows the links of the maze: each
/// position of it and the next are the positions of two linked vertices.
pub proof fn law_route_links(maze: &Maze, path: Seq<Position>, k: int)
    requires
        maze.wf(),
        maze.is_route(path) || maze.is_arrival(path),
        0 <= k < path.len() - 1,
    ensures
        maze.joined(path[k], path[k + 1]),
{
    lemma_route_arrives(maze, path);
    let walk = choose|walk: Seq<int>| maze.arrives(walk) && path == maze.trace(walk);
    assert(maze.linked(walk[k], walk[k + 1]));
}

/// Two routes with the fewest hops have the same number of hops.
pub proof fn law_fewest_hops_agree(maze: &Maze, p: Seq<Position>, q: Seq<Position>)
    requires
        maze.wf(),
        maze.is_fewest_hops(p),
        maze.is_fewest_hops(q),
    ensures
        p.len() == q.len(),
{
    let walk_p = choose|walk: Seq<int>| maze.solves(walk) && p == maze.trace(walk);
    let walk_q = choose|walk: Seq<int>| maze.solves(walk) && q == maze.trace(walk);
    assert(maze.solves(walk_p));
    assert(maze.solves(walk_q));
}

/// Two shortest paths have the same length: the two forms of Dijkstra's
/// search and A* agree on the length of what they return.
pub proof fn law_shortest_agree(maze: &Maze, p: Seq<Position>, q: Seq<Position>)
    requires
        maze.wf(),
        maze.is_shortest(p),
        maze.is_shortest(q),
    ensures
        length(p) == length(q),
{
    let walk_p = choose|walk: Seq<int>| maze.arrives(walk) && p == maze.trace(walk);
    let walk_q = choose|walk: Seq<int>| maze.arrives(walk) && q == maze.trace(walk);
    assert(maze.arrives(walk_p));
    assert(maze.arrives(walk_q));
}


/// Where no two vertices share a pixel, the only vertex on the pixel of the
/// exit is the exit: a walk arrives exactly if it leads to the exit.
pub proof fn law_arrival_is_route(maze: &Maze, path: Seq<Position>)
    requires
        maze.wf(),
        maze.distinct(),
    ensures
        maze.is_arrival(path) <==> maze.is_route(path),
        maze.can_arrive() <==> maze.reachable(maze.spec_start() as int, maze.spec_end() as int),
{
    assert forall|walk: Seq<int>| maze.arrives(walk) <==> maze.solves(walk) by {
        if maze.arrives(walk) {
            let last = walk[walk.len() - 1];
            assert(maze.nodes()[last].position == maze.nodes()[maze.spec_end() as int].position);
        }
    }
    if maze.is_arrival(path) {
        let walk = choose|walk: Seq<int>| maze.arrives(walk) && path == maze.trace(walk);
        assert(maze.solves(walk));
    }
    if maze.is_route(path) {
        let walk = choose|walk: Seq<int>| maze.solves(walk) && path == maze.trace(walk);
        assert(maze.arrives(walk));
    }
    if maze.can_arrive() {
        let walk = choose|walk: Seq<int>| maze.arrives(walk);
        assert(maze.solves(walk));
    }
    if maze.reachable(maze.spec_start() as int, maze.spec_end() as int) {
        let walk = choose|walk: Seq<int>|
            maze.walks(walk, maze.spec_start() as int, maze.spec_end() as int);
        assert(maze.arrives(walk));
    }
}

} // verus!
