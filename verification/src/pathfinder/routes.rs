//! Walks through a maze: what a route is, how many hops it has and how long
//! it is.

use vstd::prelude::*;
use crate::maze::node::Position;
use crate::maze::Maze;

verus! {

/// The total length of a path: the sum of the Manhattan distances between
/// consecutive positions.
pub open spec fn length(path: Seq<Position>) -> int
    decreases path.len(),
{
    if path.len() <= 1 {
        0
    } else {
        length(path.drop_last()) + path[path.len() - 2].distance(path[path.len() - 1])
    }
}

impl Maze {
    /// The vertex to which vertex `i` is linked in direction `d`, or -1.
    pub open spec fn neighbor(&self, i: int, d: int) -> int {
        match self.nodes()[i].neighbors[d] {
            Some(j) => j as int,
            None => -1,
        }
    }

    /// Vertex `a` has a link to vertex `b`.
    pub open spec fn linked(&self, a: int, b: int) -> bool {
        &&& 0 <= a < self.nodes().len()
        &&& 0 <= b < self.nodes().len()
        &&& exists|d: int| 0 <= d < 4 && #[trigger] self.neighbor(a, d) == b
    }

    /// `walk` is a sequence of vertices, each linked to the next.
    pub open spec fn is_walk(&self, walk: Seq<int>) -> bool {
        &&& walk.len() >= 1
        &&& forall|k: int| 0 <= k < walk.len() ==> 0 <= #[trigger] walk[k] < self.nodes().len()
        &&& forall|k: int| 0 <= k < walk.len() - 1 ==> self.linked(#[trigger] walk[k], walk[k + 1])
    }

    /// `walk` leads from vertex `a` to vertex `b`.
    pub open spec fn walks(&self, walk: Seq<int>, a: int, b: int) -> bool {
        &&& self.is_walk(walk)
        &&& walk[0] == a
        &&& walk[walk.len() - 1] == b
    }

    /// Some walk leads from vertex `a` to vertex `b`.
    pub open spec fn reachable(&self, a: int, b: int) -> bool {
        exists|walk: Seq<int>| self.walks(walk, a, b)
    }

    /// The positions along `walk`.
    pub open spec fn trace(&self, walk: Seq<int>) -> Seq<Position> {
        Seq::new(walk.len(), |k: int| self.position(walk[k]))
    }

    /// Vertex `i` lies on the pixel of the exit.
    pub open spec fn on_exit(&self, i: int) -> bool {
        &&& 0 <= i < self.nodes().len()
        &&& self.position(i) == self.position(self.spec_end() as int)
    }

    /// `walk` leads from the entry to the exit.
    pub open spec fn solves(&self, walk: Seq<int>) -> bool {
        self.walks(walk, self.spec_start() as int, self.spec_end() as int)
    }

    /// `walk` leads from the entry to a vertex on the pixel of the exit.
    pub open spec fn arrives(&self, walk: Seq<int>) -> bool {
        &&& self.is_walk(walk)
        &&& walk[0] == self.spec_start()
        &&& self.on_exit(walk[walk.len() - 1])
    }

    /// Some walk leads from the entry to a vertex on the pixel of the exit.
    pub open spec fn can_arrive(&self) -> bool {
        exists|walk: Seq<int>| self.arrives(walk)
    }

    /// `path` is a route: the positions along a walk from the entry to the
    /// exit.
    pub open spec fn is_route(&self, path: Seq<Position>) -> bool {
        exists|walk: Seq<int>| self.solves(walk) && path == self.trace(walk)
    }

    /// `path` is a route with the fewest hops among all walks from the entry
    /// to the exit.
    pub open spec fn is_fewest_hops(&self, path: Seq<Position>) -> bool {
        &&& self.is_route(path)
        &&& forall|walk: Seq<int>| #[trigger] self.solves(walk) ==> path.len() <= walk.len()
    }

    /// `path` is the positions along a walk from the entry to the pixel of the
    /// exit.
    pub open spec fn is_arrival(&self, path: Seq<Position>) -> bool {
        exists|walk: Seq<int>| self.arrives(walk) && path == self.trace(walk)
    }

    /// `path` leads from the entry to the pixel of the exit and no walk that
    /// does so is shorter.
    pub open spec fn is_shortest(&self, path: Seq<Position>) -> bool {
        &&& self.is_arrival(path)
        &&& forall|walk: Seq<int>| #[trigger]
            self.arrives(walk) ==> length(path) <= length(self.trace(walk))
    }

    /// The vertices that can be reached from the entry.
    pub open spec fn component(&self) -> Set<int> {
        Set::new(
            |i: int| 0 <= i < self.nodes().len() && self.reachable(self.spec_start() as int, i),
        )
    }
}

/// A walk stays a walk when a vertex linked to its last is appended.
pub proof fn lemma_walk_push(maze: &Maze, walk: Seq<int>, next: int)
    requires
        maze.is_walk(walk),
        maze.linked(walk[walk.len() - 1], next),
    ensures
        maze.is_walk(walk.push(next)),
        maze.walks(walk.push(next), walk[0], next),
        maze.trace(walk.push(next)) == maze.trace(walk).push(maze.position(next)),
        length(maze.trace(walk.push(next))) == length(maze.trace(walk)) + maze.position(
            walk[walk.len() - 1],
        ).distance(maze.position(next)),
{
    let longer = walk.push(next);
    assert forall|k: int| 0 <= k < longer.len() - 1 implies maze.linked(
        #[trigger] longer[k],
        longer[k + 1],
    ) by {
        if k < walk.len() - 1 {
            assert(maze.linked(walk[k], walk[k + 1]));
        }
    }
    assert(maze.trace(longer) =~= maze.trace(walk).push(maze.position(next)));
    assert(maze.trace(longer).drop_last() =~= maze.trace(walk));
}

} // verus!
