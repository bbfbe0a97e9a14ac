//! What the five searches share: when a vertex counts as explored, and why a
//! search that has explored every vertex it discovered has discovered every
//! vertex that can be reached.

use vstd::prelude::*;
use vstd::set_lib::*;
use crate::maze::Maze;
use crate::pathfinder::trail::{lemma_seen_in_range, lemma_walk_to, Trail};

verus! {

/// Every neighbour of vertex `i` has been discovered.
pub open spec fn explored(maze: &Maze, trail: &Trail, i: int) -> bool {
    forall|d: int| 0 <= d < 4 && #[trigger] maze.neighbor(i, d) >= 0 ==> trail.seen(maze.neighbor(i, d))
}

/// When every discovered vertex is explored, every vertex of a walk from a
/// discovered vertex is discovered.
pub proof fn lemma_closed(maze: &Maze, trail: &Trail, walk: Seq<int>, k: int)
    requires
        maze.is_walk(walk),
        trail.seen(walk[0]),
        forall|i: int| trail.seen(i) ==> #[trigger] explored(maze, trail, i),
        0 <= k < walk.len(),
    ensures
        trail.seen(walk[k]),
    decreases k,
{
    if k > 0 {
        lemma_closed(maze, trail, walk, k - 1);
        assert(maze.linked(walk[k - 1], walk[k]));
        assert(explored(maze, trail, walk[k - 1]));
    }
}

/// When every discovered vertex is explored, the discovered vertices are the
/// vertices that can be reached from the root.
pub proof fn lemma_component(maze: &Maze, trail: &Trail)
    requires
        maze.wf(),
        trail.wf(maze, maze.spec_start() as int),
        trail.seen(maze.spec_start() as int),
        forall|i: int| trail.seen(i) ==> #[trigger] explored(maze, trail, i),
    ensures
        trail.seen_set() == maze.component(),
{
    let start = maze.spec_start() as int;
    assert forall|i: int| trail.seen_set().contains(i) <==> maze.component().contains(i) by {
        if trail.seen(i) {
            lemma_walk_to(trail, maze, start, i);
            assert(maze.walks(trail.walk_to(i), start, i));
        }
        if maze.component().contains(i) {
            let walk = choose|walk: Seq<int>| maze.walks(walk, start, i);
            lemma_closed(maze, trail, walk, walk.len() - 1);
        }
    }
    assert(trail.seen_set() =~= maze.component());
}

/// A trail has discovered at most as many vertices as the maze has.
pub proof fn lemma_seen_bound(maze: &Maze, trail: &Trail, root: int)
    requires
        trail.wf(maze, root),
    ensures
        trail.seen_set().finite(),
        trail.seen_set().len() <= maze.nodes().len(),
{
    let n = maze.nodes().len() as int;
    lemma_int_range(0, n);
    assert forall|i: int| trail.seen_set().contains(i) implies set_int_range(0, n).contains(i) by {
        assert(trail.step_ok(maze, root, i));
        lemma_seen_in_range(trail, i);
    }
    lemma_len_subset(trail.seen_set(), set_int_range(0, n));
}

} // verus!
