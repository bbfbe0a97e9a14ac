//! What the searches that weigh their edges share: the cost recorded for a
//! discovered vertex, when a vertex counts as relaxed, and why the first
//! vertex on the exit that leaves the frontier has been reached by a
//! shortest walk.

use vstd::prelude::*;
use crate::maze::Maze;
use crate::pathfinder::routes::{length, lemma_walk_push};
use crate::pathfinder::search::{explored, lemma_component, lemma_seen_bound};
use crate::pathfinder::trail::{lemma_seen_fits, lemma_walk_to, Trail};

verus! {

/// The cost of the edge between the vertices `a` and `b`: the Manhattan
/// distance between their positions.
pub open spec fn step(maze: &Maze, a: int, b: int) -> int {
    maze.position(a).distance(maze.position(b))
}

/// The cost recorded for the discovered vertex `i` is the rank of `i` in the
/// trail, and covers the cost recorded for its predecessor and the edge
/// between them.
pub open spec fn cost_ok(maze: &Maze, trail: &Trail, costs: Seq<i64>, i: int) -> bool {
    &&& trail.rank(i) == costs[i]
    &&& 0 <= costs[i]
    &&& trail.pred(i) matches Some(p) ==> costs[p as int] + step(maze, p as int, i) <= costs[i]
}

/// The costs recorded along the trail are sound.
pub open spec fn costed(maze: &Maze, trail: &Trail, costs: Seq<i64>) -> bool {
    &&& trail.wf(maze, maze.spec_start() as int)
    &&& trail.seen(maze.spec_start() as int)
    &&& costs.len() == maze.nodes().len()
    &&& costs[maze.spec_start() as int] == 0
    &&& forall|i: int| trail.seen(i) ==> #[trigger] cost_ok(maze, trail, costs, i)
}

/// Every neighbour of vertex `v` has been discovered, at a cost that is at
/// most the cost of `v` and of the edge between them.
pub open spec fn relaxed(maze: &Maze, trail: &Trail, costs: Seq<i64>, v: int) -> bool {
    forall|d: int|
        0 <= d < 4 && #[trigger] maze.neighbor(v, d) >= 0 ==> trail.seen(maze.neighbor(v, d))
            && costs[maze.neighbor(v, d)] <= costs[v] + step(maze, v, maze.neighbor(v, d))
}

/// From a prefix of a walk to the next longer one the length grows by the
/// cost of one edge.
pub proof fn lemma_prefix_step(maze: &Maze, walk: Seq<int>, j: int)
    requires
        0 <= j < walk.len() - 1,
    ensures
        length(maze.trace(walk.take(j + 2))) == length(maze.trace(walk.take(j + 1))) + step(
            maze,
            walk[j],
            walk[j + 1],
        ),
{
    let longer = maze.trace(walk.take(j + 2));
    assert(longer.drop_last() =~= maze.trace(walk.take(j + 1)));
}

/// The walk that the trail records to a discovered vertex is at most as long
/// as the cost recorded for the vertex.
pub proof fn lemma_path_cost(maze: &Maze, trail: &Trail, costs: Seq<i64>, i: int)
    requires
        costed(maze, trail, costs),
        trail.seen(i),
    ensures
        length(maze.trace(trail.walk_to(i))) <= costs[i],
    decreases trail.rank(i),
{
    let root = maze.spec_start() as int;
    assert(trail.step_ok(maze, root, i));
    assert(cost_ok(maze, trail, costs, i));
    match trail.pred(i) {
        Some(p) => {
            assert(trail.step_ok(maze, root, p as int));
            lemma_path_cost(maze, trail, costs, p as int);
            lemma_walk_to(trail, maze, root, p as int);
            lemma_walk_push(maze, trail.walk_to(p as int), i);
        },
        None => {
            assert(maze.trace(seq![i]).len() == 1);
        },
    }
}

/// The `j`-th vertex of `walk` has been discovered, at a cost of at most the
/// length of the walk up to it.
pub open spec fn covered(
    maze: &Maze,
    trail: &Trail,
    costs: Seq<i64>,
    walk: Seq<int>,
    j: int,
) -> bool {
    &&& trail.seen(walk[j])
    &&& costs[walk[j]] <= length(maze.trace(walk.take(j + 1)))
}

/// Along a walk from the entry either the `j`-th vertex is covered, or an
/// earlier one is covered and not relaxed.
pub proof fn lemma_covered(
    maze: &Maze,
    trail: &Trail,
    costs: Seq<i64>,
    walk: Seq<int>,
    j: int,
) -> (at: int)
    requires
        maze.wf(),
        costed(maze, trail, costs),
        maze.is_walk(walk),
        walk[0] == maze.spec_start(),
        0 <= j < walk.len(),
    ensures
        0 <= at <= j,
        covered(maze, trail, costs, walk, at),
        at < j ==> !relaxed(maze, trail, costs, walk[at]),
    decreases j,
{
    if j == 0 {
        assert(maze.trace(walk.take(1)).len() == 1);
        0
    } else {
        let at = lemma_covered(maze, trail, costs, walk, j - 1);
        if at < j - 1 {
            at
        } else if relaxed(maze, trail, costs, walk[j - 1]) {
            assert(maze.linked(walk[j - 1], walk[j]));
            lemma_prefix_step(maze, walk, j - 1);
            j
        } else {
            at
        }
    }
}


/// The sum of the sides of the picture: no edge is longer.
pub open spec fn span(maze: &Maze) -> int {
    maze.spec_width() + maze.spec_height()
}

/// A bound on the cost of every vertex, and so enough fuel to walk back from
/// any.
pub open spec fn far(maze: &Maze) -> nat {
    (maze.nodes().len() * span(maze)) as nat
}

/// What a search adds to the cost of a vertex to order its frontier: nothing,
/// or, where it is `guided`, the Manhattan distance to the pixel of the
/// exit.
pub open spec fn ahead(maze: &Maze, guided: bool, v: int) -> int {
    if guided {
        step(maze, v, maze.spec_end() as int)
    } else {
        0
    }
}

/// What holds of an entry of the frontier, for vertex `v` with length `c`:
/// `v` has been discovered, at a cost that is at most `c`; and the entry
/// does not come before the entry taken out last.
pub open spec fn entry_ok(
    maze: &Maze,
    trail: &Trail,
    costs: Seq<i64>,
    guided: bool,
    last: int,
    v: int,
    c: int,
) -> bool {
    &&& trail.seen(v)
    &&& costs[v] <= c
    &&& last <= c + ahead(maze, guided, v)
    &&& c <= (trail.seen_set().len() - 1) * span(maze)
}

/// What holds of a discovered vertex: it is done, and then relaxed, off the
/// exit, and not behind the entry taken out last; or the frontier holds an
/// entry for it with the cost recorded for it.
pub open spec fn vertex_ok(
    maze: &Maze,
    trail: &Trail,
    costs: Seq<i64>,
    guided: bool,
    holds: spec_fn(int, int) -> bool,
    done: Set<int>,
    last: int,
    v: int,
) -> bool {
    &&& costs[v] <= (trail.seen_set().len() - 1) * span(maze)
    &&& if done.contains(v) {
        &&& costs[v] + ahead(maze, guided, v) <= last
        &&& relaxed(maze, trail, costs, v)
        &&& !maze.on_exit(v)
    } else {
        holds(v, costs[v] as int)
    }
}

/// What holds between two steps of a search.  `holds(v, c)` says that the
/// frontier holds an entry for vertex `v` with length `c`; `done` are the
/// vertices whose neighbours have been relaxed; `last` is the key of the
/// entry taken out last; `current` is the vertex whose neighbours are being
/// relaxed for the first time, if any.
pub open spec fn search_inv(
    maze: &Maze,
    trail: &Trail,
    costs: Seq<i64>,
    guided: bool,
    holds: spec_fn(int, int) -> bool,
    done: Set<int>,
    last: int,
    current: Option<usize>,
) -> bool {
    &&& costed(maze, trail, costs)
    &&& 0 <= last
    &&& trail.seen_set().finite()
    &&& done.finite()
    &&& forall|v: int, c: int| #[trigger]
        holds(v, c) ==> entry_ok(maze, trail, costs, guided, last, v, c)
    &&& forall|v: int|
        trail.seen(v) && current != Some(v as usize) ==> #[trigger] vertex_ok(
            maze,
            trail,
            costs,
            guided,
            holds,
            done,
            last,
            v,
        )
    &&& forall|v: int| done.contains(v) ==> trail.seen(v)
    &&& current matches Some(c) ==> !done.contains(c as int)
}

/// What holds while the neighbours of vertex `c` are relaxed, after an entry
/// for `c` with length `cdist` was taken from the frontier and the first `d`
/// directions have been looked at.  `fresh` says that `c` is relaxed for the
/// first time.
pub open spec fn relax_inv(
    maze: &Maze,
    trail: &Trail,
    costs: Seq<i64>,
    guided: bool,
    holds: spec_fn(int, int) -> bool,
    done: Set<int>,
    c: usize,
    cdist: i64,
    fresh: bool,
    d: int,
) -> bool {
    &&& search_inv(
        maze,
        trail,
        costs,
        guided,
        holds,
        done,
        cdist + ahead(maze, guided, c as int),
        if fresh {
            Some(c)
        } else {
            None
        },
    )
    &&& trail.seen(c as int)
    &&& costs[c as int] <= cdist
    &&& cdist <= (trail.seen_set().len() - 1) * span(maze)
    &&& fresh ==> costs[c as int] == cdist && forall|e: int|
        0 <= e < d && #[trigger] maze.neighbor(c as int, e) >= 0 ==> trail.seen(
            maze.neighbor(c as int, e),
        ) && costs[maze.neighbor(c as int, e)] <= cdist + step(
            maze,
            c as int,
            maze.neighbor(c as int, e),
        )
    &&& !fresh ==> done.contains(c as int)
}

/// The bounds that keep the lengths within an `i64`.
pub proof fn lemma_span(maze: &Maze, seen: int, a: int, b: int)
    requires
        maze.wf(),
        1 <= seen <= maze.nodes().len(),
        0 <= a < maze.nodes().len(),
        0 <= b < maze.nodes().len(),
    ensures
        0 <= step(maze, a, b) <= span(maze),
        (seen - 1) * span(maze) + span(maze) == seen * span(maze),
        seen * span(maze) + span(maze) <= i64::MAX,
        0 <= (seen - 1) * span(maze),
{
    let m = span(maze);
    let n = maze.nodes().len() as int;
    assert((seen - 1) * m + m == seen * m) by (nonlinear_arith);
    assert(seen * m + m <= (n + 1) * m) by (nonlinear_arith)
        requires
            seen <= n,
            0 <= m,
    ;
    assert(0 <= (seen - 1) * m) by (nonlinear_arith)
        requires
            1 <= seen,
            0 <= m,
    ;
}

/// What is added to the cost of a vertex is not negative, is nothing on the
/// exit, and grows by at most the cost of an edge along it.
pub proof fn lemma_ahead(maze: &Maze, guided: bool, a: int, b: int)
    ensures
        0 <= ahead(maze, guided, a),
        ahead(maze, guided, a) <= step(maze, a, b) + ahead(maze, guided, b),
        maze.on_exit(a) ==> ahead(maze, guided, a) == 0,
{
}

/// From a vertex of a walk that ends on the exit, what is added to its cost
/// is at most the length of the rest of the walk.
pub proof fn lemma_admissible(maze: &Maze, guided: bool, walk: Seq<int>, j: int)
    requires
        maze.arrives(walk),
        0 <= j < walk.len(),
    ensures
        length(maze.trace(walk.take(j + 1))) + ahead(maze, guided, walk[j]) <= length(
            maze.trace(walk),
        ),
    decreases walk.len() - j,
{
    if j == walk.len() - 1 {
        assert(walk.take(j + 1) =~= walk);
        lemma_ahead(maze, guided, walk[j], walk[j]);
    } else {
        lemma_admissible(maze, guided, walk, j + 1);
        lemma_prefix_step(maze, walk, j);
        lemma_ahead(maze, guided, walk[j], walk[j + 1]);
    }
}

/// While an entry of the smallest key is taken from the frontier, no walk
/// from the entry to the exit is shorter than that key.
pub proof fn lemma_least(
    maze: &Maze,
    trail: &Trail,
    costs: Seq<i64>,
    guided: bool,
    holds: spec_fn(int, int) -> bool,
    done: Set<int>,
    last: int,
    least: int,
    walk: Seq<int>,
)
    requires
        maze.wf(),
        search_inv(maze, trail, costs, guided, holds, done, last, None),
        forall|v: int, c: int| #[trigger] holds(v, c) ==> least <= c + ahead(maze, guided, v),
        maze.arrives(walk),
    ensures
        least <= length(maze.trace(walk)),
{
    let k = walk.len() - 1;
    let at = lemma_covered(maze, trail, costs, walk, k);
    let v = walk[at];
    lemma_seen_fits(trail, v);
    assert(vertex_ok(maze, trail, costs, guided, holds, done, last, v));
    lemma_admissible(maze, guided, walk, at);
    assert(holds(v, costs[v] as int));
}

/// The state after an entry for vertex `c` with length `cd`, of the
/// smallest key, was taken from the frontier.
pub proof fn lemma_taken(
    maze: &Maze,
    trail: &Trail,
    costs: Seq<i64>,
    guided: bool,
    waited: spec_fn(int, int) -> bool,
    holds: spec_fn(int, int) -> bool,
    done: Set<int>,
    last: int,
    c: usize,
    cd: i64,
)
    requires
        maze.wf(),
        search_inv(maze, trail, costs, guided, waited, done, last, None),
        waited(c as int, cd as int),
        forall|v: int, x: int| #[trigger]
            waited(v, x) ==> cd + ahead(maze, guided, c as int) <= x + ahead(maze, guided, v),
        forall|v: int, x: int| #[trigger] holds(v, x) ==> waited(v, x),
        forall|v: int, x: int| #[trigger] waited(v, x) && !(v == c && x == cd) ==> holds(v, x),
    ensures
        c < maze.nodes().len(),
        last <= cd + ahead(maze, guided, c as int),
        relax_inv(maze, trail, costs, guided, holds, done, c, cd, !done.contains(c as int), 0),
{
    let fresh = !done.contains(c as int);
    let key = cd + ahead(maze, guided, c as int);
    assert(entry_ok(maze, trail, costs, guided, last, c as int, cd as int));
    lemma_seen_fits(trail, c as int);
    assert(vertex_ok(maze, trail, costs, guided, waited, done, last, c as int));
    if fresh {
        assert(waited(c as int, costs[c as int] as int));
    }
    assert forall|v: int, x: int| #[trigger] holds(v, x) implies entry_ok(
        maze,
        trail,
        costs,
        guided,
        key,
        v,
        x,
    ) by {
        assert(waited(v, x));
        assert(entry_ok(maze, trail, costs, guided, last, v, x));
    }
    assert forall|v: int|
        trail.seen(v) && (if fresh {
            Some(c)
        } else {
            None
        }) != Some(v as usize) implies #[trigger] vertex_ok(
        maze,
        trail,
        costs,
        guided,
        holds,
        done,
        key,
        v,
    ) by {
        lemma_seen_fits(trail, v);
        assert(vertex_ok(maze, trail, costs, guided, waited, done, last, v));
        if !done.contains(v) {
            assert(waited(v, costs[v] as int));
        }
    }
    lemma_ahead(maze, guided, c as int, c as int);
}

/// The state after the edge from `c` to its neighbour `n` in direction `d`
/// was relaxed with effect: the cost of `n` is now the length of the walk
/// over `c`, and the frontier holds an entry for `n` with that length.
pub proof fn lemma_relaxed_edge(
    maze: &Maze,
    earlier: &Trail,
    later: &Trail,
    before: Seq<i64>,
    after: Seq<i64>,
    guided: bool,
    waited: spec_fn(int, int) -> bool,
    holds: spec_fn(int, int) -> bool,
    done: Set<int>,
    c: usize,
    cdist: i64,
    n: usize,
    d: int,
)
    requires
        maze.wf(),
        0 <= d < 4,
        c < maze.nodes().len(),
        n < maze.nodes().len(),
        maze.neighbor(c as int, d) == n,
        maze.link_ok(c as int, d),
        relax_inv(maze, earlier, before, guided, waited, done, c, cdist, true, d),
        !earlier.seen(n as int) || cdist + step(maze, c as int, n as int) < before[n as int],
        cdist + step(maze, c as int, n as int) <= i64::MAX,
        holds(n as int, cdist + step(maze, c as int, n as int)),
        forall|v: int, x: int| #[trigger]
            holds(v, x) ==> waited(v, x) || (v == n && x == cdist + step(maze, c as int, n as int)),
        forall|v: int, x: int| #[trigger] waited(v, x) && v != n ==> holds(v, x),
        after == before.update(n as int, (cdist + step(maze, c as int, n as int)) as i64),
        later.len() == earlier.len(),
        later.seen(n as int),
        later.pred(n as int) == Some(c),
        later.rank(n as int) == cdist + step(maze, c as int, n as int),
        forall|k: int|
            k != n ==> later.seen(k) == earlier.seen(k) && later.pred(k) == earlier.pred(k)
                && later.rank(k) == earlier.rank(k),
        later.seen_set() == earlier.seen_set().insert(n as int),
    ensures
        relax_inv(maze, later, after, guided, holds, done, c, cdist, true, d + 1),
        later.seen_set().len() - earlier.seen_set().len() <= 1,
        earlier.seen_set().len() <= later.seen_set().len(),
        !earlier.seen(n as int) ==> later.seen_set().len() == earlier.seen_set().len() + 1,
        earlier.seen(n as int) ==> later.seen_set() == earlier.seen_set() && !done.contains(
            n as int,
        ) && waited(n as int, before[n as int] as int),
{
    let start = maze.spec_start() as int;
    let nd = cdist + step(maze, c as int, n as int);
    let key = cdist + ahead(maze, guided, c as int);
    let m = span(maze);
    let sc0 = earlier.seen_set().len() as int;
    let sc1 = later.seen_set().len() as int;
    assert(earlier.seen_set().contains(c as int));
    lemma_seen_bound(maze, earlier, start);
    lemma_span(maze, sc0, c as int, n as int);
    lemma_ahead(maze, guided, c as int, n as int);
    assert(step(maze, c as int, n as int) >= 1);
    assert(n != c);
    assert(cost_ok(maze, earlier, before, c as int));
    // The vertex is not done, and not the entry.
    assert(!done.contains(n as int)) by {
        if done.contains(n as int) {
            assert(vertex_ok(maze, earlier, before, guided, waited, done, key, n as int));
        }
    }
    if earlier.seen(n as int) {
        assert(vertex_ok(maze, earlier, before, guided, waited, done, key, n as int));
        assert(later.seen_set() =~= earlier.seen_set());
    }
    assert(n != start) by {
        if n == start {
            assert(cost_ok(maze, earlier, before, start));
        }
    }
    assert(maze.linked(c as int, n as int));
    assert forall|i: int| later.seen(i) implies #[trigger] later.step_ok(maze, start, i) by {
        if i != n {
            assert(earlier.step_ok(maze, start, i));
            assert(cost_ok(maze, earlier, before, i));
            if earlier.pred(i) == Some(n) {
                assert(earlier.step_ok(maze, start, n as int));
                assert(cost_ok(maze, earlier, before, n as int));
            }
        }
    }
    lemma_seen_bound(maze, later, start);
    lemma_span(maze, sc1, c as int, n as int);
    assert(sc0 <= sc1 <= sc0 + 1);
    assert((sc0 - 1) * m <= (sc1 - 1) * m) by (nonlinear_arith)
        requires
            sc0 <= sc1,
            0 <= m,
    ;
    // The bound on the new length.
    assert(nd <= (sc1 - 1) * m) by {
        if !earlier.seen(n as int) {
            assert(!earlier.seen_set().contains(n as int));
            assert(sc1 == sc0 + 1);
        }
    }
    assert forall|i: int| later.seen(i) implies #[trigger] cost_ok(maze, later, after, i) by {
        lemma_seen_fits(later, i);
        if i != n {
            assert(earlier.step_ok(maze, start, i));
            assert(cost_ok(maze, earlier, before, i));
            if earlier.pred(i) == Some(n) {
                assert(cost_ok(maze, earlier, before, n as int));
            }
        }
    }
    assert forall|v: int, x: int| #[trigger] holds(v, x) implies entry_ok(
        maze,
        later,
        after,
        guided,
        key,
        v,
        x,
    ) by {
        if v == n && x == nd {
            assert(after[n as int] == nd);
        } else {
            assert(waited(v, x));
            assert(entry_ok(maze, earlier, before, guided, key, v, x));
            lemma_seen_fits(earlier, v);
            if v == n {
                assert(after[n as int] < before[n as int]);
            } else {
                assert(after[v] == before[v]);
            }
        }
    }
    assert forall|v: int| later.seen(v) && Some(c) != Some(v as usize) implies #[trigger] vertex_ok(
        maze,
        later,
        after,
        guided,
        holds,
        done,
        key,
        v,
    ) by {
        lemma_seen_fits(later, v);
        if v != n {
            assert(vertex_ok(maze, earlier, before, guided, waited, done, key, v));
            assert(after[v] == before[v]);
            if done.contains(v) {
                assert(relaxed(maze, earlier, before, v));
                assert forall|e: int| 0 <= e < 4 && #[trigger] maze.neighbor(v, e) >= 0 implies later.seen(
                    maze.neighbor(v, e),
                ) && after[maze.neighbor(v, e)] <= after[v] + step(maze, v, maze.neighbor(v, e)) by {
                    let u = maze.neighbor(v, e);
                    assert(maze.link_ok(v, e));
                    assert(earlier.seen(u));
                    assert(before[u] <= before[v] + step(maze, v, u));
                    assert(after[u] <= before[u]);
                }
            } else {
                assert(waited(v, before[v] as int));
            }
        } else {
            assert(after[n as int] == nd);
        }
    }
    assert forall|e: int|
        0 <= e < d + 1 && #[trigger] maze.neighbor(c as int, e) >= 0 implies later.seen(
        maze.neighbor(c as int, e),
    ) && after[maze.neighbor(c as int, e)] <= cdist + step(
        maze,
        c as int,
        maze.neighbor(c as int, e),
    ) by {
        let u = maze.neighbor(c as int, e);
        assert(maze.link_ok(c as int, e));
        if e < d {
            assert(earlier.seen(u));
            assert(before[u] <= cdist + step(maze, c as int, u));
            assert(after[u] <= before[u]);
        } else {
            assert(u == n);
            assert(after[n as int] == nd);
        }
    }
    assert(after[c as int] == before[c as int]);
    assert(after[start] == before[start]);
}

/// Where the edge from `c` to its neighbour `n` is relaxed without effect,
/// either `c` is relaxed for the first time and `n` is within reach of it,
/// or `c` was relaxed before.
pub proof fn lemma_edge_kept(
    maze: &Maze,
    trail: &Trail,
    costs: Seq<i64>,
    guided: bool,
    holds: spec_fn(int, int) -> bool,
    done: Set<int>,
    c: usize,
    cdist: i64,
    fresh: bool,
    n: usize,
    d: int,
)
    requires
        maze.wf(),
        0 <= d < 4,
        c < maze.nodes().len(),
        maze.neighbor(c as int, d) == n,
        relax_inv(maze, trail, costs, guided, holds, done, c, cdist, fresh, d),
    ensures
        n < maze.nodes().len(),
        1 <= step(maze, c as int, n as int) <= span(maze),
        cdist + step(maze, c as int, n as int) + span(maze) <= i64::MAX,
        0 <= ahead(maze, guided, n as int) <= span(maze),
        !fresh ==> trail.seen(n as int) && costs[n as int] <= cdist + step(
            maze,
            c as int,
            n as int,
        ),
        trail.seen(n as int) && costs[n as int] <= cdist + step(maze, c as int, n as int)
            ==> relax_inv(maze, trail, costs, guided, holds, done, c, cdist, fresh, d + 1),
{
    let start = maze.spec_start() as int;
    let key = cdist + ahead(maze, guided, c as int);
    assert(maze.link_ok(c as int, d));
    lemma_seen_bound(maze, trail, start);
    assert(trail.seen_set().contains(c as int));
    lemma_span(maze, trail.seen_set().len() as int, c as int, n as int);
    lemma_span(maze, trail.seen_set().len() as int, n as int, maze.spec_end() as int);
    lemma_ahead(maze, guided, n as int, n as int);
    if !fresh {
        assert(vertex_ok(maze, trail, costs, guided, holds, done, key, c as int));
    }
}

/// A discovered vertex to which a shorter walk is found is not done, and the
/// frontier holds an entry for it with the cost on record.
pub proof fn lemma_improvable(
    maze: &Maze,
    trail: &Trail,
    costs: Seq<i64>,
    guided: bool,
    holds: spec_fn(int, int) -> bool,
    done: Set<int>,
    c: usize,
    cdist: i64,
    fresh: bool,
    n: usize,
    d: int,
)
    requires
        maze.wf(),
        0 <= d < 4,
        c < maze.nodes().len(),
        maze.neighbor(c as int, d) == n,
        relax_inv(maze, trail, costs, guided, holds, done, c, cdist, fresh, d),
        trail.seen(n as int),
        cdist + step(maze, c as int, n as int) < costs[n as int],
    ensures
        fresh,
        n != c,
        !done.contains(n as int),
        holds(n as int, costs[n as int] as int),
{
    let key = cdist + ahead(maze, guided, c as int);
    lemma_edge_kept(maze, trail, costs, guided, holds, done, c, cdist, fresh, n, d);
    lemma_ahead(maze, guided, c as int, n as int);
    assert(vertex_ok(maze, trail, costs, guided, holds, done, key, n as int));
}

/// The state after all neighbours of vertex `c` were relaxed.
pub proof fn lemma_relaxed_all(
    maze: &Maze,
    trail: &Trail,
    costs: Seq<i64>,
    guided: bool,
    holds: spec_fn(int, int) -> bool,
    done: Set<int>,
    c: usize,
    cdist: i64,
    fresh: bool,
)
    requires
        maze.wf(),
        c < maze.nodes().len(),
        !maze.on_exit(c as int),
        relax_inv(maze, trail, costs, guided, holds, done, c, cdist, fresh, 4),
    ensures
        search_inv(maze, trail, costs, guided, holds, if fresh {
            done.insert(c as int)
        } else {
            done
        }, cdist + ahead(maze, guided, c as int), None),
{
    let key = cdist + ahead(maze, guided, c as int);
    if fresh {
        let wider = done.insert(c as int);
        assert(relaxed(maze, trail, costs, c as int));
        assert forall|v: int| trail.seen(v) implies #[trigger] vertex_ok(
            maze,
            trail,
            costs,
            guided,
            holds,
            wider,
            key,
            v,
        ) by {
            lemma_seen_fits(trail, v);
            if v != c {
                assert(vertex_ok(maze, trail, costs, guided, holds, done, key, v));
            }
        }
    }
}

/// The state in which a search starts: the entry discovered at no cost, and
/// an entry for it in the frontier.
pub proof fn lemma_begun(
    maze: &Maze,
    trail: &Trail,
    costs: Seq<i64>,
    guided: bool,
    holds: spec_fn(int, int) -> bool,
)
    requires
        maze.wf(),
        trail.len() == maze.nodes().len(),
        costs.len() == maze.nodes().len(),
        costs[maze.spec_start() as int] == 0,
        trail.rank(maze.spec_start() as int) == 0,
        trail.pred(maze.spec_start() as int) is None,
        forall|i: int| trail.seen(i) <==> i == maze.spec_start(),
        forall|v: int, c: int| #[trigger] holds(v, c) <==> v == maze.spec_start() && c == 0,
    ensures
        search_inv(maze, trail, costs, guided, holds, Set::<int>::empty(), 0, None),
        trail.seen_set().len() == 1,
{
    let start = maze.spec_start() as int;
    assert(trail.seen_set() =~= Set::<int>::empty().insert(start));
    assert forall|i: int| trail.seen(i) implies #[trigger] trail.step_ok(maze, start, i) by {}
    assert forall|i: int| trail.seen(i) implies #[trigger] cost_ok(maze, trail, costs, i) by {}
    lemma_span(maze, 1, start, start);
    lemma_ahead(maze, guided, start, start);
    assert forall|v: int| trail.seen(v) implies #[trigger] vertex_ok(
        maze,
        trail,
        costs,
        guided,
        holds,
        Set::<int>::empty(),
        0,
        v,
    ) by {
        assert(holds(start, 0));
    }
}

/// A search whose frontier is empty has discovered exactly the vertices that
/// can be reached, and none of them lies on the exit.
pub proof fn lemma_exhausted(
    maze: &Maze,
    trail: &Trail,
    costs: Seq<i64>,
    guided: bool,
    holds: spec_fn(int, int) -> bool,
    done: Set<int>,
    last: int,
)
    requires
        maze.wf(),
        search_inv(maze, trail, costs, guided, holds, done, last, None),
        forall|v: int, c: int| !#[trigger] holds(v, c),
    ensures
        trail.seen_set() == maze.component(),
        done == trail.seen_set(),
        !maze.can_arrive(),
{
    let start = maze.spec_start() as int;
    assert forall|i: int| trail.seen(i) implies #[trigger] explored(maze, trail, i) by {
        lemma_seen_fits(trail, i);
        assert(vertex_ok(maze, trail, costs, guided, holds, done, last, i));
        assert(relaxed(maze, trail, costs, i));
    }
    lemma_component(maze, trail);
    assert forall|v: int| trail.seen(v) implies done.contains(v) by {
        lemma_seen_fits(trail, v);
        assert(vertex_ok(maze, trail, costs, guided, holds, done, last, v));
    }
    assert(done =~= trail.seen_set());
    if maze.can_arrive() {
        let walk = choose|walk: Seq<int>| maze.arrives(walk);
        let t = walk[walk.len() - 1];
        assert(maze.walks(walk, start, t));
        assert(maze.component().contains(t));
        assert(trail.seen(t));
        assert(vertex_ok(maze, trail, costs, guided, holds, done, last, t));
    }
}

/// A vector of `n` zeros.
pub(crate) fn zeros(n: usize) -> (v: Vec<i64>)
    ensures
        v.len() == n,
        forall|i: int| 0 <= i < n ==> v[i] == 0,
        v@ == Seq::new(n as nat, |i: int| 0i64),
{
    let mut v: Vec<i64> = Vec::new();
    let mut k: usize = 0;
    while k < n
        invariant
            k <= n,
            v.len() == k,
            forall|i: int| 0 <= i < k ==> v[i] == 0,
        decreases n - k,
    {
        v.push(0);
        k += 1;
    }
    assert(v@ =~= Seq::new(n as nat, |i: int| 0i64));
    v
}

} // verus!
