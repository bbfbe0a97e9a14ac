//! Dijkstra's search in two forms: one that leaves superseded entries in the
//! frontier, and one that updates an entry in place.

use vstd::prelude::*;
use vstd::multiset::Multiset;
use vstd::set_lib::*;
use crate::maze::node::Position;
use crate::maze::Maze;
use crate::pathfinder::heap::{with_pushed, without_least, MinHeap, Ranked};
use crate::pathfinder::order::{agrees, backtrack, first_table, lemma_backtrack};
use crate::pathfinder::queue::{
    entries, queue_change_priority, queue_new, queue_pop, queue_push,
};
use crate::pathfinder::relax::{
    cost_ok, costed, entry_ok, far, lemma_begun, lemma_edge_kept, lemma_exhausted, lemma_improvable,
    lemma_least, lemma_span, lemma_path_cost, lemma_relaxed_all, lemma_relaxed_edge, lemma_taken, relax_inv,
    search_inv, span, step, zeros,
};
use crate::pathfinder::routes::length;
use crate::pathfinder::search::lemma_seen_bound;
use crate::pathfinder::trail::{lemma_seen_fits, lemma_seen_insert, lemma_walk_to, Trail};
use priority_queue::PriorityQueue;

verus! {

/// An entry of the frontier: a vertex and the length of the walk on which it
/// was reached.
#[derive(Debug, Clone, Copy)]
pub struct NodeDist {
    pub node: usize,
    pub distance: i64,
}

impl NodeDist {
    pub fn new(node: usize, distance: i64) -> (nd: NodeDist)
        ensures
            nd == (NodeDist { node, distance }),
    {
        NodeDist { node, distance }
    }
}

impl Ranked for NodeDist {
    open spec fn key(&self) -> int {
        self.distance as int
    }

    open spec fn valid(&self) -> bool {
        true
    }

    fn precedes(&self, other: &Self) -> (b: bool) {
        self.distance < other.distance
    }
}

/// Whether the frontier holds an entry for vertex `v` with length `c`.
pub open spec fn holds(queue: Multiset<NodeDist>) -> spec_fn(int, int) -> bool {
    |v: int, c: int|
        0 <= v <= usize::MAX && i64::MIN <= c <= i64::MAX && queue.count(
            NodeDist { node: v as usize, distance: c as i64 },
        ) > 0
}

/// What relaxing the edges from `c` in the directions from `d` on makes of
/// the slots of the frontier, of the record of discoveries and of the costs,
/// after an entry for `c` with length `cdist` was taken from the frontier.
pub open spec fn relax(
    maze: &Maze,
    slots: Seq<NodeDist>,
    table: Seq<Option<Option<usize>>>,
    costs: Seq<i64>,
    c: usize,
    cdist: i64,
    d: int,
) -> (Seq<NodeDist>, Seq<Option<Option<usize>>>, Seq<i64>)
    decreases 4 - d,
{
    if d < 0 || d >= 4 {
        (slots, table, costs)
    } else {
        let n = maze.neighbor(c as int, d);
        let ndist = step(maze, c as int, n) + cdist;
        if 0 <= n < table.len() && (table[n] is None || ndist < costs[n]) {
            relax(
                maze,
                with_pushed(slots, NodeDist { node: n as usize, distance: ndist as i64 }),
                table.update(n, Some(Some(c))),
                costs.update(n, ndist as i64),
                c,
                cdist,
                d + 1,
            )
        } else {
            relax(maze, slots, table, costs, c, cdist, d + 1)
        }
    }
}

/// What the search returns that has taken `count` entries so far: the record
/// of discoveries and the vertex on the exit when an entry for one is taken,
/// if ever, and the number of entries taken.  `fuel` bounds the number of
/// steps.
pub open spec fn settle(
    maze: &Maze,
    slots: Seq<NodeDist>,
    table: Seq<Option<Option<usize>>>,
    costs: Seq<i64>,
    count: nat,
    fuel: nat,
) -> (Option<(Seq<Option<Option<usize>>>, usize)>, nat)
    decreases fuel,
{
    if fuel == 0 || slots.len() == 0 {
        (None, count)
    } else {
        let current = slots[0];
        if maze.position(current.node as int) == maze.position(maze.spec_end() as int) {
            (Some((table, current.node)), count + 1)
        } else {
            let next = relax(
                maze,
                without_least(slots),
                table,
                costs,
                current.node,
                current.distance,
                0,
            );
            settle(maze, next.0, next.1, next.2, count + 1, (fuel - 1) as nat)
        }
    }
}

/// What the search with the lazy frontier returns: the positions from the
/// entry to the exit along the record of discoveries, if an entry for a
/// vertex on the exit is ever taken, and the number of entries taken.
pub open spec fn outcome(maze: &Maze) -> (Option<Seq<Position>>, nat) {
    let n = maze.nodes().len();
    let end = settle(
        maze,
        seq![NodeDist { node: maze.spec_start(), distance: 0 }],
        first_table(maze),
        Seq::new(n, |i: int| 0i64),
        0,
        4 * n + 2,
    );
    match end.0 {
        Some((table, goal)) => (Some(maze.trace(backtrack(table, goal as int, far(maze)))), end.1),
        None => (None, end.1),
    }
}

/// What relaxing the edges from a vertex makes of a state depends on the
/// graph alone.
proof fn lemma_relax_same(
    a: &Maze,
    b: &Maze,
    slots: Seq<NodeDist>,
    table: Seq<Option<Option<usize>>>,
    costs: Seq<i64>,
    c: usize,
    cdist: i64,
    d: int,
)
    requires
        a.nodes() == b.nodes(),
    ensures
        relax(a, slots, table, costs, c, cdist, d) == relax(b, slots, table, costs, c, cdist, d),
    decreases 4 - d,
{
    if 0 <= d < 4 {
        let n = a.neighbor(c as int, d);
        let ndist = step(a, c as int, n) + cdist;
        assert(n == b.neighbor(c as int, d));
        assert(step(a, c as int, n) == step(b, c as int, n));
        if 0 <= n < table.len() && (table[n] is None || ndist < costs[n]) {
            lemma_relax_same(
                a,
                b,
                with_pushed(slots, NodeDist { node: n as usize, distance: ndist as i64 }),
                table.update(n, Some(Some(c))),
                costs.update(n, ndist as i64),
                c,
                cdist,
                d + 1,
            );
        } else {
            lemma_relax_same(a, b, slots, table, costs, c, cdist, d + 1);
        }
    }
}

/// What the search returns from a state depends on the graph alone.
proof fn lemma_settle_same(
    a: &Maze,
    b: &Maze,
    slots: Seq<NodeDist>,
    table: Seq<Option<Option<usize>>>,
    costs: Seq<i64>,
    count: nat,
    fuel: nat,
)
    requires
        a.nodes() == b.nodes(),
        a.spec_end() == b.spec_end(),
    ensures
        settle(a, slots, table, costs, count, fuel) == settle(b, slots, table, costs, count, fuel),
    decreases fuel,
{
    if fuel > 0 && slots.len() > 0 {
        let current = slots[0];
        if a.position(current.node as int) != a.position(a.spec_end() as int) {
            lemma_relax_same(
                a,
                b,
                without_least(slots),
                table,
                costs,
                current.node,
                current.distance,
                0,
            );
            let next = relax(
                a,
                without_least(slots),
                table,
                costs,
                current.node,
                current.distance,
                0,
            );
            lemma_settle_same(a, b, next.0, next.1, next.2, count + 1, (fuel - 1) as nat);
        }
    }
}

/// The search with the lazy frontier is determined by the graph: on two
/// mazes with the same vertices, links, entry, exit and picture size it
/// returns the same path and the same count.
pub proof fn law_same_graph_same_outcome(a: &Maze, b: &Maze)
    requires
        a.nodes() == b.nodes(),
        a.spec_start() == b.spec_start(),
        a.spec_end() == b.spec_end(),
        a.spec_width() == b.spec_width(),
        a.spec_height() == b.spec_height(),
    ensures
        outcome(a) == outcome(b),
{
    let n = a.nodes().len();
    let first = seq![NodeDist { node: a.spec_start(), distance: 0 }];
    let costs = Seq::new(n, |i: int| 0i64);
    lemma_settle_same(a, b, first, first_table(a), costs, 0, 4 * n + 2);
    assert(first_table(a) == first_table(b));
    let end = settle(a, first, first_table(a), costs, 0, 4 * n + 2);
    if let Some((table, goal)) = end.0 {
        let walk = backtrack(table, goal as int, far(a));
        assert(a.trace(walk) =~= b.trace(walk));
    }
}

/// Relaxes the edge from `c` to its neighbour `n` in direction `d`: where the
/// walk over `c` is the first to reach `n`, or shorter than the one on
/// record, it is put on record and `n` enters the frontier.
fn relax_edge(
    maze: &Maze,
    queue: &mut MinHeap<NodeDist>,
    visited: &mut Trail,
    costs: &mut Vec<i64>,
    c: usize,
    cdist: i64,
    n: usize,
    Ghost(done): Ghost<Set<int>>,
    Ghost(fresh): Ghost<bool>,
    Ghost(d): Ghost<int>,
)
    requires
        maze.wf(),
        old(queue).wf(),
        0 <= d < 4,
        c < maze.nodes().len(),
        maze.neighbor(c as int, d) == n,
        relax_inv(
            maze,
            old(visited),
            old(costs)@,
            false,
            holds(old(queue)@),
            done,
            c,
            cdist,
            fresh,
            d,
        ),
    ensures
        final(queue).wf(),
        relax_inv(
            maze,
            final(visited),
            final(costs)@,
            false,
            holds(final(queue)@),
            done,
            c,
            cdist,
            fresh,
            d + 1,
        ),
        !fresh ==> final(queue)@ == old(queue)@,
        final(queue)@.len() <= old(queue)@.len() + 1,
        final(visited).seen_set().len() - old(visited).seen_set().len() <= final(queue)@.len()
            - old(queue)@.len(),
        relax(maze, final(queue).slots(), final(visited).table(), final(costs)@, c, cdist, d + 1)
            == relax(maze, old(queue).slots(), old(visited).table(), old(costs)@, c, cdist, d),
{
    proof {
        lemma_edge_kept(maze, visited, costs@, false, holds(queue@), done, c, cdist, fresh, n, d);
        assert(step(maze, c as int, n as int) == maze.position(n as int).distance(
            maze.position(c as int),
        ));
    }
    let cpos = maze.node(c).position();
    let npos = maze.node(n).position();
    let mut ndist = npos.distance_to(&cpos);
    ndist += cdist;

    if !visited.contains(n) || ndist < costs[n] {
        let ghost earlier = *visited;
        let ghost before = costs@;
        let ghost waited = queue@;
        let n_nd = NodeDist::new(n, ndist);
        queue.push(n_nd);
        visited.insert(n, Some(c), Ghost(ndist as int));
        costs[n] = ndist;
        proof {
            lemma_seen_insert(&earlier, visited, n as int);
            assert(holds(queue@)(n as int, ndist as int));
            assert forall|v: int, x: int| #[trigger] holds(queue@)(v, x) implies holds(waited)(v, x)
                || (v == n && x == ndist) by {
                let e = NodeDist { node: v as usize, distance: x as i64 };
                if e != n_nd {
                    assert(waited.count(e) > 0);
                }
            }
            lemma_relaxed_edge(
                maze,
                &earlier,
                visited,
                before,
                costs@,
                false,
                holds(waited),
                holds(queue@),
                done,
                c,
                cdist,
                n,
                d,
            );
        }
    }
}

/// Dijkstra's search from the entry to the pixel of the exit, with a
/// frontier in which an entry stays when a shorter walk to its vertex is
/// found.
///
/// Returns the positions along a shortest walk, if there is a walk, and the
/// number of entries taken from the frontier, superseded ones included.
pub fn dijk(maze: &Maze) -> (found: (Option<Vec<Position>>, usize))
    requires
        maze.wf(),
    ensures
        found.0 matches Some(path) ==> maze.is_shortest(path@),
        found.0 is Some <==> maze.can_arrive(),
        found.0 is None ==> maze.component().len() <= found.1,
        1 <= found.1 <= 4 * maze.spec_count() + 1,
        agrees(found, outcome(maze)),
{
    let start = maze.start();
    let end = maze.end();
    let end_pos = maze.node(end).position();

    let mut queue: MinHeap<NodeDist> = MinHeap::new();
    let mut visited = Trail::new(maze.count());
    let mut costs = zeros(maze.count());

    let mut completed = false;
    let mut count: usize = 0;
    let mut goal = end;
    let ghost mut done: Set<int> = Set::empty();
    let ghost mut last: int = 0;

    let start_nd = NodeDist::new(start, 0);
    queue.push(start_nd);
    visited.insert(start, None, Ghost(0));
    proof {
        assert forall|v: int, c: int| #[trigger]
            holds(queue@)(v, c) <==> v == maze.spec_start() && c == 0 by {
            if v == start && c == 0 {
                assert(queue@.count(start_nd) > 0);
            }
        }
        lemma_begun(maze, &visited, costs@, false, holds(queue@));
    }
    let ghost model = settle(
        maze,
        seq![start_nd],
        first_table(maze),
        Seq::new(maze.nodes().len(), |i: int| 0i64),
        0,
        (4 * maze.nodes().len() + 2) as nat,
    );
    proof {
        assert(queue.slots() =~= seq![start_nd]);
        assert(visited.table() == first_table(maze));
    }

    loop
        invariant_except_break
            search_inv(maze, &visited, costs@, false, holds(queue@), done, last, None),
            !completed,
            settle(
                maze,
                queue.slots(),
                visited.table(),
                costs@,
                count as nat,
                (4 * maze.nodes().len() + 2 - count) as nat,
            ) == model,
        invariant
            maze.wf(),
            queue.wf(),
            start == maze.spec_start(),
            end == maze.spec_end(),
            end_pos == maze.position(end as int),
            costed(maze, &visited, costs@),
            count + queue@.len() <= 1 + 4 * done.len(),
            visited.seen_set().len() <= count + queue@.len(),
            done.finite(),
            done.subset_of(visited.seen_set()),
        ensures
            completed ==> visited.seen(goal as int) && maze.on_exit(goal as int) && forall|
                walk: Seq<int>,
            | #[trigger]
                maze.arrives(walk) ==> costs[goal as int] <= length(maze.trace(walk)),
            completed ==> model == (Some((visited.table(), goal)), count as nat)
                && visited.rank(goal as int) <= far(maze),
            !completed ==> model == (
                None::<(Seq<Option<Option<usize>>>, usize)>,
                count as nat,
            ),
            !completed ==> visited.seen_set() == maze.component() && !maze.can_arrive()
                && visited.seen_set().len() <= count,
            1 <= count <= 1 + 4 * maze.nodes().len(),
        decreases 5 * (maze.nodes().len() - done.len()) + queue@.len(),
    {
        let ghost waited = queue@;
        let ghost slots0 = queue.slots();
        let ghost table0 = visited.table();
        let ghost costs0 = costs@;
        proof {
            lemma_seen_bound(maze, &visited, start as int);
            lemma_len_subset(done, visited.seen_set());
        }
        let current = match queue.pop() {
            Some(c) => c,
            None => {
                proof {
                    assert forall|v: int, c: int| !#[trigger] holds(queue@)(v, c) by {
                        let e = NodeDist { node: v as usize, distance: c as i64 };
                        assert(queue@.count(e) <= queue@.len()) by {
                            if queue@.count(e) > 0 {
                                assert(queue@.remove(e).len() >= 0);
                            }
                        }
                    }
                    lemma_exhausted(maze, &visited, costs@, false, holds(queue@), done, last);
                    assert(visited.seen_set().contains(start as int));
                    assert(visited.seen_set().len() >= 1) by {
                        if visited.seen_set().len() == 0 {
                            assert(visited.seen_set() =~= Set::<int>::empty());
                        }
                    }
                }
                break ;
            },
        };
        count += 1;

        let cnode = current.node;
        let cdist = current.distance;
        let ghost fresh = !done.contains(cnode as int);
        proof {
            assert(holds(waited)(cnode as int, cdist as int));
            assert forall|v: int, x: int| #[trigger] holds(waited)(v, x) implies cdist <= x by {
                assert(current.key() <= (NodeDist { node: v as usize, distance: x as i64 }).key());
            }
            lemma_taken(
                maze,
                &visited,
                costs@,
                false,
                holds(waited),
                holds(queue@),
                done,
                last,
                cnode,
                cdist,
            );
        }
        let cpos = maze.node(cnode).position();

        if cpos == end_pos {
            completed = true;
            goal = cnode;
            proof {
                assert(cost_ok(maze, &visited, costs@, cnode as int));
                assert(visited.rank(cnode as int) <= far(maze)) by (nonlinear_arith)
                    requires
                        visited.rank(cnode as int) <= (visited.seen_set().len() - 1) * span(maze),
                        visited.seen_set().len() <= maze.nodes().len(),
                        0 <= span(maze),
                        far(maze) == maze.nodes().len() * span(maze),
                ;
                assert forall|walk: Seq<int>| #[trigger] maze.arrives(walk) implies costs[cnode as int]
                    <= length(maze.trace(walk)) by {
                    lemma_least(
                        maze,
                        &visited,
                        costs@,
                        false,
                        holds(waited),
                        done,
                        last,
                        cdist as int,
                        walk,
                    );
                }
            }
            break ;
        }
        let links = maze.node(cnode).neighbors();
        let mut d: usize = 0;
        while d < 4
            invariant
                maze.wf(),
                queue.wf(),
                d <= 4,
                cnode < maze.nodes().len(),
                *links == maze.nodes()[cnode as int].neighbors,
                relax_inv(
                    maze,
                    &visited,
                    costs@,
                    false,
                    holds(queue@),
                    done,
                    cnode,
                    cdist,
                    fresh,
                    d as int,
                ),
                fresh == !done.contains(cnode as int),
                queue@.len() <= waited.len() - 1 + (if fresh {
                    d as int
                } else {
                    0
                }),
                visited.seen_set().len() <= count + queue@.len(),
                relax(maze, queue.slots(), visited.table(), costs@, cnode, cdist, d as int)
                    == relax(maze, without_least(slots0), table0, costs0, cnode, cdist, 0),
            decreases 4 - d,
        {
            if let Some(n) = links[d] {
                relax_edge(
                    maze,
                    &mut queue,
                    &mut visited,
                    &mut costs,
                    cnode,
                    cdist,
                    n,
                    Ghost(done),
                    Ghost(fresh),
                    Ghost(d as int),
                );
            }
            d += 1;
        }
        proof {
            lemma_relaxed_all(
                maze,
                &visited,
                costs@,
                false,
                holds(queue@),
                done,
                cnode,
                cdist,
                fresh,
            );
            if fresh {
                done = done.insert(cnode as int);
            }
            last = cdist as int;
            lemma_seen_bound(maze, &visited, start as int);
            lemma_len_subset(done, visited.seen_set());
        }
    }

    if completed {
        let path = visited.path_to(maze, Ghost(start as int), goal);
        proof {
            lemma_backtrack(&visited, maze, start as int, goal as int, far(maze));
            lemma_walk_to(&visited, maze, start as int, goal as int);
            lemma_path_cost(maze, &visited, costs@, goal as int);
            assert(maze.arrives(visited.walk_to(goal as int)));
        }
        (Some(path), count)
    } else {
        (None, count)
    }
}


/// Whether the indexed frontier holds vertex `v` with length `c`: it holds
/// each vertex at most once, with the negated length as its priority.
pub open spec fn holds2(queue: Map<usize, i64>) -> spec_fn(int, int) -> bool {
    |v: int, c: int| 0 <= v <= usize::MAX && queue.contains_key(v as usize) && queue[v as usize] == -c
}

/// No vertex that is done is in the indexed frontier.
pub open spec fn apart(queue: Map<usize, i64>, done: Set<int>) -> bool {
    forall|v: usize| #[trigger] queue.contains_key(v) ==> !done.contains(v as int)
}

/// Relaxes the edge from `c` to its neighbour `n` in direction `d`: where the
/// walk over `c` is shorter than the one on record for `n`, the entry of `n`
/// in the frontier is updated; where it is the first to reach `n`, `n`
/// enters the frontier.
fn relax_edge2(
    maze: &Maze,
    queue: &mut PriorityQueue<usize, i64>,
    visited: &mut Trail,
    costs: &mut Vec<i64>,
    c: usize,
    cdist: i64,
    n: usize,
    Ghost(done): Ghost<Set<int>>,
    Ghost(d): Ghost<int>,
)
    requires
        maze.wf(),
        entries(*old(queue)).dom().finite(),
        apart(entries(*old(queue)), done),
        0 <= d < 4,
        c < maze.nodes().len(),
        maze.neighbor(c as int, d) == n,
        relax_inv(
            maze,
            old(visited),
            old(costs)@,
            false,
            holds2(entries(*old(queue))),
            done,
            c,
            cdist,
            true,
            d,
        ),
    ensures
        entries(*final(queue)).dom().finite(),
        apart(entries(*final(queue)), done),
        relax_inv(
            maze,
            final(visited),
            final(costs)@,
            false,
            holds2(entries(*final(queue))),
            done,
            c,
            cdist,
            true,
            d + 1,
        ),
        final(visited).seen_set().len() - old(visited).seen_set().len() == entries(
            *final(queue),
        ).dom().len() - entries(*old(queue)).dom().len(),
        old(visited).seen_set().len() <= final(visited).seen_set().len(),
        !entries(*old(queue)).contains_key(c) ==> !entries(*final(queue)).contains_key(c),
{
    proof {
        lemma_edge_kept(
            maze,
            visited,
            costs@,
            false,
            holds2(entries(*queue)),
            done,
            c,
            cdist,
            true,
            n,
            d,
        );
    }
    let cpos = maze.node(c).position();
    let npos = maze.node(n).position();
    let mut ndist = npos.distance_to(&cpos);
    ndist += cdist;
    let ghost earlier = *visited;
    let ghost before = costs@;
    let ghost waited = entries(*queue);

    if visited.contains(n) && ndist < costs[n] {
        proof {
            lemma_improvable(
                maze,
                visited,
                costs@,
                false,
                holds2(waited),
                done,
                c,
                cdist,
                true,
                n,
                d,
            );
        }
        queue_change_priority(queue, n, -ndist);
        visited.insert(n, Some(c), Ghost(ndist as int));
        costs[n] = ndist;
        proof {
            lemma_seen_insert(&earlier, visited, n as int);
            assert(entries(*queue).dom() =~= waited.dom());
            lemma_relaxed_edge(
                maze,
                &earlier,
                visited,
                before,
                costs@,
                false,
                holds2(waited),
                holds2(entries(*queue)),
                done,
                c,
                cdist,
                n,
                d,
            );
        }
    }
    if !visited.contains(n) {
        proof {
            assert(!waited.contains_key(n)) by {
                if waited.contains_key(n) {
                    assert(holds2(waited)(n as int, -waited[n]));
                    assert(entry_ok(
                        maze,
                        &earlier,
                        before,
                        false,
                        cdist as int,
                        n as int,
                        -waited[n],
                    ));
                }
            }
        }
        queue_push(queue, n, -ndist);
        visited.insert(n, Some(c), Ghost(ndist as int));
        costs[n] = ndist;
        proof {
            lemma_seen_insert(&earlier, visited, n as int);
            assert(entries(*queue).dom() =~= waited.dom().insert(n));
            assert(!done.contains(n as int));
            lemma_relaxed_edge(
                maze,
                &earlier,
                visited,
                before,
                costs@,
                false,
                holds2(waited),
                holds2(entries(*queue)),
                done,
                c,
                cdist,
                n,
                d,
            );
        }
    }
}

/// Dijkstra's search from the entry to the pixel of the exit, with an
/// indexed frontier in which the entry of a vertex is updated when a shorter
/// walk to it is found.
///
/// Returns the positions along a shortest walk, if there is a walk, and the
/// number of vertices taken from the frontier.  Without a walk that number
/// is the number of vertices that can be reached.
pub fn dijk2(maze: &Maze) -> (found: (Option<Vec<Position>>, usize))
    requires
        maze.wf(),
    ensures
        found.0 matches Some(path) ==> maze.is_shortest(path@),
        found.0 is Some <==> maze.can_arrive(),
        found.0 is None ==> found.1 == maze.component().len(),
        1 <= found.1 <= maze.spec_count(),
{
    let start = maze.start();
    let end = maze.end();
    let end_pos = maze.node(end).position();

    let mut queue = queue_new();
    let mut visited = Trail::new(maze.count());
    let mut costs = zeros(maze.count());

    let mut completed = false;
    let mut count: usize = 0;
    let mut goal = end;
    let ghost mut done: Set<int> = Set::empty();
    let ghost mut last: int = 0;

    queue_push(&mut queue, start, 0);
    visited.insert(start, None, Ghost(0));
    proof {
        assert(entries(queue).dom() =~= Set::<usize>::empty().insert(start));
        lemma_begun(maze, &visited, costs@, false, holds2(entries(queue)));
    }

    loop
        invariant_except_break
            search_inv(maze, &visited, costs@, false, holds2(entries(queue)), done, last, None),
            !completed,
            count == done.len(),
        invariant
            maze.wf(),
            entries(queue).dom().finite(),
            apart(entries(queue), done),
            start == maze.spec_start(),
            end == maze.spec_end(),
            end_pos == maze.position(end as int),
            costed(maze, &visited, costs@),
            count + entries(queue).dom().len() == visited.seen_set().len(),
            visited.seen_set().finite(),
            done.finite(),
        ensures
            completed ==> visited.seen(goal as int) && maze.on_exit(goal as int) && forall|
                walk: Seq<int>,
            | #[trigger]
                maze.arrives(walk) ==> costs[goal as int] <= length(maze.trace(walk)),
            !completed ==> visited.seen_set() == maze.component() && !maze.can_arrive()
                && visited.seen_set().len() == count,
            1 <= count <= maze.nodes().len(),
        decreases 2 * (maze.nodes().len() - visited.seen_set().len()) + entries(queue).dom().len(),
    {
        let ghost waited = entries(queue);
        let ghost budget = 2 * (maze.nodes().len() - visited.seen_set().len()) + waited.dom().len();
        proof {
            lemma_seen_bound(maze, &visited, start as int);
        }
        let (cnode, priority) = match queue_pop(&mut queue) {
            Some(top) => top,
            None => {
                proof {
                    assert forall|v: int, c: int| !#[trigger] holds2(entries(queue))(v, c) by {
                        assert(!entries(queue).dom().contains(v as usize));
                    }
                    lemma_exhausted(
                        maze,
                        &visited,
                        costs@,
                        false,
                        holds2(entries(queue)),
                        done,
                        last,
                    );
                    assert(visited.seen_set().contains(start as int));
                    assert(visited.seen_set().len() >= 1) by {
                        if visited.seen_set().len() == 0 {
                            assert(visited.seen_set() =~= Set::<int>::empty());
                        }
                    }
                }
                break ;
            },
        };
        proof {
            assert(holds2(waited)(cnode as int, -priority));
            assert(entry_ok(maze, &visited, costs@, false, last, cnode as int, -priority));
            assert(entries(queue).dom() =~= waited.dom().remove(cnode));
            lemma_seen_fits(&visited, cnode as int);
            assert(visited.seen_set().contains(cnode as int));
            lemma_span(
                maze,
                visited.seen_set().len() as int,
                cnode as int,
                cnode as int,
            );
        }
        count += 1;
        let cdist = -priority;
        proof {
            assert forall|v: int, x: int| #[trigger] holds2(waited)(v, x) implies cdist <= x by {
                assert(waited.contains_key(v as usize));
            }
            lemma_taken(
                maze,
                &visited,
                costs@,
                false,
                holds2(waited),
                holds2(entries(queue)),
                done,
                last,
                cnode,
                cdist,
            );
            assert(!done.contains(cnode as int));
        }
        let cpos = maze.node(cnode).position();

        if cpos == end_pos {
            completed = true;
            goal = cnode;
            proof {
                assert forall|walk: Seq<int>| #[trigger] maze.arrives(walk) implies costs[cnode as int]
                    <= length(maze.trace(walk)) by {
                    lemma_least(
                        maze,
                        &visited,
                        costs@,
                        false,
                        holds2(waited),
                        done,
                        last,
                        cdist as int,
                        walk,
                    );
                }
            }
            break ;
        }
        let links = maze.node(cnode).neighbors();
        let mut d: usize = 0;
        while d < 4
            invariant
                maze.wf(),
                entries(queue).dom().finite(),
                apart(entries(queue), done),
                !entries(queue).contains_key(cnode),
                !done.contains(cnode as int),
                d <= 4,
                cnode < maze.nodes().len(),
                *links == maze.nodes()[cnode as int].neighbors,
                relax_inv(
                    maze,
                    &visited,
                    costs@,
                    false,
                    holds2(entries(queue)),
                    done,
                    cnode,
                    cdist,
                    true,
                    d as int,
                ),
                count + entries(queue).dom().len() == visited.seen_set().len(),
                budget > 2 * (maze.nodes().len() - visited.seen_set().len()) + entries(
                    queue,
                ).dom().len(),
                visited.seen_set().finite(),
                count == done.len() + 1,
                1 <= count,
            decreases 4 - d,
        {
            if let Some(n) = links[d] {
                relax_edge2(
                    maze,
                    &mut queue,
                    &mut visited,
                    &mut costs,
                    cnode,
                    cdist,
                    n,
                    Ghost(done),
                    Ghost(d as int),
                );
            }
            d += 1;
        }
        proof {
            lemma_relaxed_all(
                maze,
                &visited,
                costs@,
                false,
                holds2(entries(queue)),
                done,
                cnode,
                cdist,
                true,
            );
            done = done.insert(cnode as int);
            last = cdist as int;
            lemma_seen_bound(maze, &visited, start as int);
        }
    }

    if completed {
        let path = visited.path_to(maze, Ghost(start as int), goal);
        proof {
            lemma_walk_to(&visited, maze, start as int, goal as int);
            lemma_path_cost(maze, &visited, costs@, goal as int);
            assert(maze.arrives(visited.walk_to(goal as int)));
        }
        (Some(path), count)
    } else {
        (None, count)
    }
}

} // verus!
