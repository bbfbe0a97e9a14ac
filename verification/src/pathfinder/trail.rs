//! The record a search keeps of the vertices it has discovered, and of the
//! vertex from which each was discovered.

use vstd::prelude::*;
use crate::maze::node::Position;
use crate::maze::Maze;
use crate::pathfinder::routes::lemma_walk_push;

verus! {

/// For each vertex of a maze: whether a search has discovered it, and if so
/// from which vertex.  Following the predecessors from a discovered vertex
/// leads back to the root, the one vertex without a predecessor.
pub struct Trail {
    /// Per vertex: `None` while undiscovered, `Some(None)` for the root,
    /// `Some(Some(p))` once discovered from `p`.
    from: Vec<Option<Option<usize>>>,
    /// Per vertex a number that is smaller at its predecessor.
    rank: Ghost<spec_fn(int) -> int>,
}

impl Trail {
    pub open spec fn len(&self) -> nat {
        self.table().len()
    }

    /// The record itself.  Per vertex: `None` while undiscovered,
    /// `Some(None)` for the root, `Some(Some(p))` once discovered from `p`.
    pub closed spec fn table(&self) -> Seq<Option<Option<usize>>> {
        self.from@
    }

    /// Vertex `i` has been discovered.
    pub open spec fn seen(&self, i: int) -> bool {
        0 <= i < self.table().len() && self.table()[i] is Some
    }

    /// The vertex from which `i` was discovered.
    pub open spec fn pred(&self, i: int) -> Option<usize> {
        if self.seen(i) {
            self.table()[i].unwrap()
        } else {
            None
        }
    }

    pub closed spec fn rank(&self, i: int) -> int {
        (self.rank@)(i)
    }

    /// What holds of a discovered vertex `i`: it is the root, or it was
    /// discovered over a link from a vertex discovered with a smaller rank.
    pub open spec fn step_ok(&self, maze: &Maze, root: int, i: int) -> bool {
        &&& 0 <= self.rank(i)
        &&& match self.pred(i) {
            None => i == root,
            Some(p) => self.seen(p as int) && maze.linked(p as int, i) && self.rank(p as int)
                < self.rank(i),
        }
    }

    pub open spec fn wf(&self, maze: &Maze, root: int) -> bool {
        &&& self.len() == maze.nodes().len()
        &&& 0 <= root < self.len()
        &&& forall|i: int| self.seen(i) ==> #[trigger] self.step_ok(maze, root, i)
    }

    /// The vertices from the root to `i`, each the predecessor of the next.
    pub open spec fn walk_to(&self, i: int) -> Seq<int>
        decreases self.rank(i),
    {
        match self.pred(i) {
            Some(p) => if 0 <= self.rank(p as int) < self.rank(i) {
                self.walk_to(p as int).push(i)
            } else {
                seq![i]
            },
            None => seq![i],
        }
    }

    /// The set of the discovered vertices.
    pub open spec fn seen_set(&self) -> Set<int> {
        Set::new(|i: int| self.seen(i))
    }

    /// A trail for a maze of `n` vertices, with nothing discovered.
    pub fn new(n: usize) -> (trail: Trail)
        ensures
            trail.len() == n,
            forall|i: int| !trail.seen(i),
            trail.table() == Seq::new(n as nat, |i: int| None::<Option<usize>>),
    {
        let mut from: Vec<Option<Option<usize>>> = Vec::new();
        let mut k: usize = 0;
        while k < n
            invariant
                k <= n,
                from.len() == k,
                forall|i: int| 0 <= i < k ==> from[i] is None,
            decreases n - k,
        {
            from.push(None);
            k += 1;
        }
        let trail = Trail { from, rank: Ghost(|i: int| 0int) };
        assert(trail.table() =~= Seq::new(n as nat, |i: int| None::<Option<usize>>));
        trail
    }

    /// Whether vertex `i` has been discovered.
    pub fn contains(&self, i: usize) -> (b: bool)
        requires
            i < self.len(),
        ensures
            b == self.seen(i as int),
    {
        self.from[i].is_some()
    }

    /// The vertex from which `i` was discovered.
    pub fn get(&self, i: usize) -> (p: Option<usize>)
        requires
            self.seen(i as int),
        ensures
            p == self.pred(i as int),
    {
        match self.from[i] {
            Some(p) => p,
            None => None,
        }
    }

    /// Records that vertex `i` was discovered from `pred`, with rank `rank`.
    pub fn insert(&mut self, i: usize, pred: Option<usize>, Ghost(rank): Ghost<int>)
        requires
            i < old(self).len(),
        ensures
            final(self).len() == old(self).len(),
            final(self).table() == old(self).table().update(i as int, Some(pred)),
            final(self).seen(i as int),
            final(self).pred(i as int) == pred,
            final(self).rank(i as int) == rank,
            forall|k: int|
                k != i ==> final(self).seen(k) == old(self).seen(k) && final(self).pred(k) == old(
                    self,
                ).pred(k) && final(self).rank(k) == old(self).rank(k),
    {
        self.from[i] = Some(pred);
        proof {
            let before = self.rank@;
            self.rank@ = |k: int|
                if k == i {
                    rank
                } else {
                    before(k)
                };
        }
    }
}


/// The walk that a trail records to a discovered vertex leads there from the
/// root, and has at most as many hops as the rank of the vertex.
pub proof fn lemma_walk_to(trail: &Trail, maze: &Maze, root: int, i: int)
    requires
        trail.wf(maze, root),
        trail.seen(i),
    ensures
        maze.walks(trail.walk_to(i), root, i),
        trail.walk_to(i).len() <= trail.rank(i) + 1,
    decreases trail.rank(i),
{
    assert(trail.step_ok(maze, root, i));
    match trail.pred(i) {
        Some(p) => {
            assert(trail.step_ok(maze, root, p as int));
            lemma_walk_to(trail, maze, root, p as int);
            lemma_walk_push(maze, trail.walk_to(p as int), i);
        },
        None => {
            assert(maze.is_walk(seq![i]));
        },
    }
}

/// Only vertices of the maze are discovered.
pub proof fn lemma_seen_in_range(trail: &Trail, i: int)
    requires
        trail.seen(i),
    ensures
        0 <= i < trail.len(),
{
}

/// The handle of a discovered vertex fits the machine.
pub proof fn lemma_seen_fits(trail: &Trail, i: int)
    requires
        trail.seen(i),
    ensures
        0 <= i < trail.len() <= usize::MAX,
{
    assert(trail.from.len() == trail.from@.len());
}

/// How the set of discovered vertices grows with one discovery.
pub proof fn lemma_seen_insert(before: &Trail, after: &Trail, i: int)
    requires
        after.seen(i),
        forall|k: int| k != i ==> after.seen(k) == before.seen(k),
    ensures
        after.seen_set() == before.seen_set().insert(i),
{
    assert(after.seen_set() =~= before.seen_set().insert(i));
}

impl Trail {
    /// The positions along the recorded walk from the root to `goal`.
    pub fn path_to(&self, maze: &Maze, Ghost(root): Ghost<int>, goal: usize) -> (path: Vec<
        Position,
    >)
        requires
            maze.wf(),
            self.wf(maze, root),
            self.seen(goal as int),
        ensures
            path@ == maze.trace(self.walk_to(goal as int)),
    {
        let ghost whole = self.walk_to(goal as int);
        let mut back: Vec<Position> = Vec::new();
        back.push(maze.node(goal).position());
        let mut at = goal;
        let mut current = self.get(goal);
        proof {
            lemma_walk_to(self, maze, root, goal as int);
        }
        loop
            invariant
                maze.wf(),
                self.wf(maze, root),
                self.seen(at as int),
                current == self.pred(at as int),
                whole == self.walk_to(goal as int),
                back.len() >= 1,
                whole.len() == self.walk_to(at as int).len() + back.len() - 1,
                forall|j: int|
                    0 <= j < self.walk_to(at as int).len() ==> whole[j] == self.walk_to(
                        at as int,
                    )[j],
                forall|k: int|
                    0 <= k < back.len() ==> back[k] == maze.position(whole[whole.len() - 1 - k]),
            ensures
                current is None,
            decreases self.rank(at as int),
        {
            proof {
                assert(self.step_ok(maze, root, at as int));
                lemma_walk_to(self, maze, root, at as int);
            }
            match current {
                None => {
                    break ;
                },
                Some(c) => {
                    proof {
                        assert(self.step_ok(maze, root, c as int));
                        lemma_walk_to(self, maze, root, c as int);
                        assert(self.walk_to(at as int) == self.walk_to(c as int).push(at as int));
                    }
                    back.push(maze.node(c).position());
                    at = c;
                    current = self.get(c);
                },
            }
        }
        assert(self.walk_to(at as int).len() == 1);
        let mut path: Vec<Position> = Vec::new();
        let mut k: usize = back.len();
        while k > 0
            invariant
                k <= back.len(),
                path.len() == back.len() - k,
                forall|j: int| 0 <= j < path.len() ==> path[j] == back[back.len() - 1 - j],
            decreases k,
        {
            k -= 1;
            path.push(back[k]);
        }
        assert(path@ =~= maze.trace(whole));
        path
    }
}

} // verus!
