//! The order in which the two searches that count hops explore a maze, and
//! with it exactly what they return.
//!
//! Both take a vertex from the vertices that wait, stop if it is the exit,
//! and else let its undiscovered neighbours wait, north first, then east,
//! south and west.  Breadth-first search takes the vertex that has waited
//! longest, depth-first search the one that has waited shortest.

use vstd::prelude::*;
use crate::maze::node::Position;
use crate::maze::Maze;
use crate::pathfinder::trail::Trail;

verus! {

/// What the neighbours of `current` in the directions from `d` on add to the
/// vertices that wait and to the record of discoveries.
pub open spec fn visit(
    maze: &Maze,
    waiting: Seq<usize>,
    table: Seq<Option<Option<usize>>>,
    current: usize,
    d: int,
) -> (Seq<usize>, Seq<Option<Option<usize>>>)
    decreases 4 - d,
{
    if d < 0 || d >= 4 {
        (waiting, table)
    } else {
        let n = maze.neighbor(current as int, d);
        if 0 <= n < table.len() && table[n] is None {
            visit(
                maze,
                waiting.push(n as usize),
                table.update(n, Some(Some(current))),
                current,
                d + 1,
            )
        } else {
            visit(maze, waiting, table, current, d + 1)
        }
    }
}

/// What a search returns that has taken `count` vertices so far: the record
/// of discoveries when the exit is taken, if it ever is, and the number of
/// vertices taken.  `fifo` says whether the vertex that has waited longest is
/// taken; `fuel` bounds the number of steps.
pub open spec fn explore(
    maze: &Maze,
    fifo: bool,
    waiting: Seq<usize>,
    table: Seq<Option<Option<usize>>>,
    count: nat,
    fuel: nat,
) -> (Option<Seq<Option<Option<usize>>>>, nat)
    decreases fuel,
{
    if fuel == 0 || waiting.len() == 0 {
        (None, count)
    } else {
        let current = if fifo {
            waiting[0]
        } else {
            waiting[waiting.len() - 1]
        };
        let rest = if fifo {
            waiting.subrange(1, waiting.len() as int)
        } else {
            waiting.subrange(0, waiting.len() - 1)
        };
        if current == maze.spec_end() {
            (Some(table), count + 1)
        } else {
            let next = visit(maze, rest, table, current, 0);
            explore(maze, fifo, next.0, next.1, count + 1, (fuel - 1) as nat)
        }
    }
}

/// The vertices from the root of a record of discoveries to vertex `i`.
pub open spec fn backtrack(table: Seq<Option<Option<usize>>>, i: int, fuel: nat) -> Seq<int>
    decreases fuel,
{
    if fuel == 0 || !(0 <= i < table.len()) {
        seq![i]
    } else {
        match table[i] {
            Some(Some(p)) => backtrack(table, p as int, (fuel - 1) as nat).push(i),
            _ => seq![i],
        }
    }
}

/// The state in which a search starts: the entry alone waits and is on
/// record.
pub open spec fn first_table(maze: &Maze) -> Seq<Option<Option<usize>>> {
    Seq::new(maze.nodes().len(), |i: int| None::<Option<usize>>).update(
        maze.spec_start() as int,
        Some(None),
    )
}

/// What breadth-first search (`fifo`) and depth-first search (not `fifo`)
/// return: the positions from the entry to the exit along the record of
/// discoveries, if the exit is ever taken, and the number of vertices taken.
pub open spec fn outcome(maze: &Maze, fifo: bool) -> (Option<Seq<Position>>, nat) {
    let n = maze.nodes().len();
    let end = explore(maze, fifo, seq![maze.spec_start()], first_table(maze), 0, n + 1);
    match end.0 {
        Some(table) => (Some(maze.trace(backtrack(table, maze.spec_end() as int, n))), end.1),
        None => (None, end.1),
    }
}

/// `found` is what the model of a search says.
pub open spec fn agrees(
    found: (Option<Vec<Position>>, usize),
    model: (Option<Seq<Position>>, nat),
) -> bool {
    &&& found.1 == model.1
    &&& match found.0 {
        Some(path) => model.0 == Some(path@),
        None => model.0 is None,
    }
}

/// The rank of every discovered vertex is less than the number of the
/// discovered vertices.
pub open spec fn ranked(trail: &Trail) -> bool {
    forall|i: int| #[trigger] trail.seen(i) ==> trail.rank(i) < trail.seen_set().len()
}

/// With fuel for its rank, the way back from a discovered vertex is the walk
/// that the trail records to it.
pub proof fn lemma_backtrack(trail: &Trail, maze: &Maze, root: int, i: int, fuel: nat)
    requires
        trail.wf(maze, root),
        trail.seen(i),
        trail.rank(i) <= fuel,
    ensures
        backtrack(trail.table(), i, fuel) == trail.walk_to(i),
    decreases fuel,
{
    assert(trail.step_ok(maze, root, i));
    match trail.pred(i) {
        Some(p) => {
            assert(trail.step_ok(maze, root, p as int));
            lemma_backtrack(trail, maze, root, p as int, (fuel - 1) as nat);
        },
        None => {},
    }
}

/// What the neighbours of a vertex add depends on the graph alone.
proof fn lemma_visit_same(
    a: &Maze,
    b: &Maze,
    waiting: Seq<usize>,
    table: Seq<Option<Option<usize>>>,
    current: usize,
    d: int,
)
    requires
        a.nodes() == b.nodes(),
    ensures
        visit(a, waiting, table, current, d) == visit(b, waiting, table, current, d),
    decreases 4 - d,
{
    if 0 <= d < 4 {
        let n = a.neighbor(current as int, d);
        assert(n == b.neighbor(current as int, d));
        if 0 <= n < table.len() && table[n] is None {
            lemma_visit_same(
                a,
                b,
                waiting.push(n as usize),
                table.update(n, Some(Some(current))),
                current,
                d + 1,
            );
        } else {
            lemma_visit_same(a, b, waiting, table, current, d + 1);
        }
    }
}

/// What a search returns from a state depends on the graph alone.
proof fn lemma_explore_same(
    a: &Maze,
    b: &Maze,
    fifo: bool,
    waiting: Seq<usize>,
    table: Seq<Option<Option<usize>>>,
    count: nat,
    fuel: nat,
)
    requires
        a.nodes() == b.nodes(),
        a.spec_end() == b.spec_end(),
    ensures
        explore(a, fifo, waiting, table, count, fuel) == explore(
            b,
            fifo,
            waiting,
            table,
            count,
            fuel,
        ),
    decreases fuel,
{
    if fuel > 0 && waiting.len() > 0 {
        let current = if fifo {
            waiting[0]
        } else {
            waiting[waiting.len() - 1]
        };
        let rest = if fifo {
            waiting.subrange(1, waiting.len() as int)
        } else {
            waiting.subrange(0, waiting.len() - 1)
        };
        if current != a.spec_end() {
            lemma_visit_same(a, b, rest, table, current, 0);
            let next = visit(a, rest, table, current, 0);
            lemma_explore_same(a, b, fifo, next.0, next.1, count + 1, (fuel - 1) as nat);
        }
    }
}

/// Breadth-first and depth-first search are determined by the graph: on two
/// mazes with the same vertices, links, entry and exit each returns the same
/// path and the same count.
pub proof fn law_same_graph_same_outcome(a: &Maze, b: &Maze, fifo: bool)
    requires
        a.nodes() == b.nodes(),
        a.spec_start() == b.spec_start(),
        a.spec_end() == b.spec_end(),
    ensures
        outcome(a, fifo) == outcome(b, fifo),
{
    let n = a.nodes().len();
    lemma_explore_same(a, b, fifo, seq![a.spec_start()], first_table(a), 0, n + 1);
    assert(first_table(a) == first_table(b));
    let end = explore(a, fifo, seq![a.spec_start()], first_table(a), 0, n + 1);
    if let Some(table) = end.0 {
        let walk = backtrack(table, a.spec_end() as int, n);
        assert(a.trace(walk) =~= b.trace(walk));
    }
}

} // verus!
