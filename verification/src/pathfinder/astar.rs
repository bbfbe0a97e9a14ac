//! A* search: Dijkstra's search with a frontier ordered by the length of the
//! walk to a vertex plus the Manhattan distance from it to the exit.

use vstd::prelude::*;
use vstd::multiset::Multiset;
use vstd::set_lib::*;
use crate::maze::node::Position;
use crate::maze::Maze;
use crate::pathfinder::heap::{with_pushed, without_least, MinHeap, Ranked};
use crate::pathfinder::order::{agrees, backtrack, first_table, lemma_backtrack};
use crate::pathfinder::relax::{
    ahead, cost_ok, costed, far, lemma_ahead, lemma_begun, lemma_edge_kept, lemma_exhausted, lemma_least,
    lemma_path_cost, lemma_relaxed_all, lemma_relaxed_edge, lemma_span, lemma_taken, relax_inv,
    search_inv, span, step, vertex_ok, zeros,
};
use crate::pathfinder::routes::length;
use crate::pathfinder::search::lemma_seen_bound;
use crate::pathfinder::trail::{lemma_seen_fits, lemma_seen_insert, lemma_walk_to, Trail};

verus! {

/// An entry of the frontier: a vertex, the length of the walk on which it was
/// reached, and the Manhattan distance from it to the exit.
#[derive(Debug, Clone, Copy)]
pub struct NodeDist {
    pub node: usize,
    pub distance: i64,
    pub dist_to_end: i64,
}

impl NodeDist {
    pub fn new(node: usize, distance: i64, dist_to_end: i64) -> (nd: NodeDist)
        ensures
            nd == (NodeDist { node, distance, dist_to_end }),
    {
        NodeDist { node, distance, dist_to_end }
    }
}

impl Ranked for NodeDist {
    open spec fn key(&self) -> int {
        self.distance + self.dist_to_end
    }

    open spec fn valid(&self) -> bool {
        &&& 0 <= self.distance
        &&& 0 <= self.dist_to_end
        &&& self.distance + self.dist_to_end <= i64::MAX
    }

    fn precedes(&self, other: &Self) -> (b: bool) {
        self.distance + self.dist_to_end < other.distance + other.dist_to_end
    }
}

/// Whether the frontier holds an entry for vertex `v` with length `c`.
pub open spec fn holds(maze: &Maze, queue: Multiset<NodeDist>) -> spec_fn(int, int) -> bool {
    |v: int, c: int|
        0 <= v <= usize::MAX && i64::MIN <= c <= i64::MAX && queue.count(
            NodeDist {
                node: v as usize,
                distance: c as i64,
                dist_to_end: ahead(maze, true, v) as i64,
            },
        ) > 0
}

/// The entry `e` holds the distance from its vertex to the exit.
pub open spec fn aim_ok(maze: &Maze, e: NodeDist) -> bool {
    &&& e.node < maze.nodes().len()
    &&& e.dist_to_end == ahead(maze, true, e.node as int)
}

/// Every entry of the frontier holds the distance from its vertex to the
/// exit.
pub open spec fn aimed(maze: &Maze, queue: Multiset<NodeDist>) -> bool {
    forall|e: NodeDist| queue.count(e) > 0 ==> #[trigger] aim_ok(maze, e)
}

/// For every discovered vertex the distance to the exit is on record.
pub open spec fn sighted(maze: &Maze, trail: &Trail, aheads: Seq<i64>) -> bool {
    &&& aheads.len() == maze.nodes().len()
    &&& forall|v: int| #[trigger] trail.seen(v) ==> aheads[v] == ahead(maze, true, v)
}

/// What relaxing the edges from `c` in the directions from `d` on makes of
/// the slots of the frontier, of the record of discoveries, of the costs and
/// of the distances to the exit, after an entry for `c` with length `cdist`
/// was taken from the frontier.
pub open spec fn relax(
    maze: &Maze,
    slots: Seq<NodeDist>,
    table: Seq<Option<Option<usize>>>,
    costs: Seq<i64>,
    aheads: Seq<i64>,
    c: usize,
    cdist: i64,
    d: int,
) -> (Seq<NodeDist>, Seq<Option<Option<usize>>>, Seq<i64>, Seq<i64>)
    decreases 4 - d,
{
    if d < 0 || d >= 4 {
        (slots, table, costs, aheads)
    } else {
        let n = maze.neighbor(c as int, d);
        let ndist = step(maze, c as int, n) + cdist;
        let ndist_to_end = ahead(maze, true, n);
        if 0 <= n < table.len() && (table[n] is None || ndist + ndist_to_end < costs[n]
            + aheads[n]) {
            relax(
                maze,
                with_pushed(
                    slots,
                    NodeDist {
                        node: n as usize,
                        distance: ndist as i64,
                        dist_to_end: ndist_to_end as i64,
                    },
                ),
                table.update(n, Some(Some(c))),
                costs.update(n, ndist as i64),
                aheads.update(n, ndist_to_end as i64),
                c,
                cdist,
                d + 1,
            )
        } else {
            relax(maze, slots, table, costs, aheads, c, cdist, d + 1)
        }
    }
}

/// What the search returns that has taken `count` entries so far: the record
/// of discoveries and the vertex on the exit when an entry for one is taken,
/// if ever, and the number of entries taken.  `fuel` bounds the number of
/// steps.
pub open spec fn settle(
    maze: &Maze,
    slots: Seq<NodeDist>,
    table: Seq<Option<Option<usize>>>,
    costs: Seq<i64>,
    aheads: Seq<i64>,
    count: nat,
    fuel: nat,
) -> (Option<(Seq<Option<Option<usize>>>, usize)>, nat)
    decreases fuel,
{
    if fuel == 0 || slots.len() == 0 {
        (None, count)
    } else {
        let current = slots[0];
        if maze.position(current.node as int) == maze.position(maze.spec_end() as int) {
            (Some((table, current.node)), count + 1)
        } else {
            let next = relax(
                maze,
                without_least(slots),
                table,
                costs,
                aheads,
                current.node,
                current.distance,
                0,
            );
            settle(maze, next.0, next.1, next.2, next.3, count + 1, (fuel - 1) as nat)
        }
    }
}

/// What A* search returns: the positions from the entry to the exit along
/// the record of discoveries, if an entry for a vertex on the exit is ever
/// taken, and the number of entries taken.
pub open spec fn outcome(maze: &Maze) -> (Option<Seq<Position>>, nat) {
    let n = maze.nodes().len();
    let start = maze.spec_start();
    let start_to_end = ahead(maze, true, start as int) as i64;
    let end = settle(
        maze,
        seq![NodeDist { node: start, distance: 0, dist_to_end: start_to_end }],
        first_table(maze),
        Seq::new(n, |i: int| 0i64),
        Seq::new(n, |i: int| 0i64).update(start as int, start_to_end),
        0,
        4 * n + 2,
    );
    match end.0 {
        Some((table, goal)) => (Some(maze.trace(backtrack(table, goal as int, far(maze)))), end.1),
        None => (None, end.1),
    }
}

/// What relaxing the edges from a vertex makes of a state depends on the
/// graph alone.
proof fn lemma_relax_same(
    a: &Maze,
    b: &Maze,
    slots: Seq<NodeDist>,
    table: Seq<Option<Option<usize>>>,
    costs: Seq<i64>,
    aheads: Seq<i64>,
    c: usize,
    cdist: i64,
    d: int,
)
    requires
        a.nodes() == b.nodes(),
        a.spec_end() == b.spec_end(),
    ensures
        relax(a, slots, table, costs, aheads, c, cdist, d) == relax(
            b,
            slots,
            table,
            costs,
            aheads,
            c,
            cdist,
            d,
        ),
    decreases 4 - d,
{
    if 0 <= d < 4 {
        let n = a.neighbor(c as int, d);
        let ndist = step(a, c as int, n) + cdist;
        let ndist_to_end = ahead(a, true, n);
        assert(n == b.neighbor(c as int, d));
        assert(step(a, c as int, n) == step(b, c as int, n));
        assert(ahead(a, true, n) == ahead(b, true, n));
        if 0 <= n < table.len() && (table[n] is None || ndist + ndist_to_end < costs[n]
            + aheads[n]) {
            lemma_relax_same(
                a,
                b,
                with_pushed(
                    slots,
                    NodeDist {
                        node: n as usize,
                        distance: ndist as i64,
                        dist_to_end: ndist_to_end as i64,
                    },
                ),
                table.update(n, Some(Some(c))),
                costs.update(n, ndist as i64),
                aheads.update(n, ndist_to_end as i64),
                c,
                cdist,
                d + 1,
            );
        } else {
            lemma_relax_same(a, b, slots, table, costs, aheads, c, cdist, d + 1);
        }
    }
}

/// What the search returns from a state depends on the graph alone.
proof fn lemma_settle_same(
    a: &Maze,
    b: &Maze,
    slots: Seq<NodeDist>,
    table: Seq<Option<Option<usize>>>,
    costs: Seq<i64>,
    aheads: Seq<i64>,
    count: nat,
    fuel: nat,
)
    requires
        a.nodes() == b.nodes(),
        a.spec_end() == b.spec_end(),
    ensures
        settle(a, slots, table, costs, aheads, count, fuel) == settle(
            b,
            slots,
            table,
            costs,
            aheads,
            count,
            fuel,
        ),
    decreases fuel,
{
    if fuel > 0 && slots.len() > 0 {
        let current = slots[0];
        if a.position(current.node as int) != a.position(a.spec_end() as int) {
            lemma_relax_same(
                a,
                b,
                without_least(slots),
                table,
                costs,
                aheads,
                current.node,
                current.distance,
                0,
            );
            let next = relax(
                a,
                without_least(slots),
                table,
                costs,
                aheads,
                current.node,
                current.distance,
                0,
            );
            lemma_settle_same(a, b, next.0, next.1, next.2, next.3, count + 1, (fuel - 1) as nat);
        }
    }
}

/// A* search is determined by the graph: on two mazes with the same
/// vertices, links, entry, exit and picture size it returns the same path and
/// the same count.
pub proof fn law_same_graph_same_outcome(a: &Maze, b: &Maze)
    requires
        a.nodes() == b.nodes(),
        a.spec_start() == b.spec_start(),
        a.spec_end() == b.spec_end(),
        a.spec_width() == b.spec_width(),
        a.spec_height() == b.spec_height(),
    ensures
        outcome(a) == outcome(b),
{
    let n = a.nodes().len();
    let start = a.spec_start();
    let start_to_end = ahead(a, true, start as int) as i64;
    assert(ahead(a, true, start as int) == ahead(b, true, start as int));
    let first = seq![NodeDist { node: start, distance: 0, dist_to_end: start_to_end }];
    let costs = Seq::new(n, |i: int| 0i64);
    let aheads = costs.update(start as int, start_to_end);
    lemma_settle_same(a, b, first, first_table(a), costs, aheads, 0, 4 * n + 2);
    assert(first_table(a) == first_table(b));
    let end = settle(a, first, first_table(a), costs, aheads, 0, 4 * n + 2);
    if let Some((table, goal)) = end.0 {
        let walk = backtrack(table, goal as int, far(a));
        assert(a.trace(walk) =~= b.trace(walk));
    }
}

/// Relaxes the edge from `c` to its neighbour `n` in direction `d`: where the
/// walk over `c` is the first to reach `n`, or shorter than the one on
/// record, it is put on record and `n` enters the frontier.
fn relax_edge(
    maze: &Maze,
    queue: &mut MinHeap<NodeDist>,
    visited: &mut Trail,
    costs: &mut Vec<i64>,
    aheads: &mut Vec<i64>,
    c: usize,
    cdist: i64,
    n: usize,
    end_pos: Position,
    Ghost(done): Ghost<Set<int>>,
    Ghost(fresh): Ghost<bool>,
    Ghost(d): Ghost<int>,
)
    requires
        maze.wf(),
        old(queue).wf(),
        end_pos == maze.position(maze.spec_end() as int),
        aimed(maze, old(queue)@),
        sighted(maze, old(visited), old(aheads)@),
        0 <= d < 4,
        c < maze.nodes().len(),
        maze.neighbor(c as int, d) == n,
        relax_inv(
            maze,
            old(visited),
            old(costs)@,
            true,
            holds(maze, old(queue)@),
            done,
            c,
            cdist,
            fresh,
            d,
        ),
    ensures
        final(queue).wf(),
        aimed(maze, final(queue)@),
        sighted(maze, final(visited), final(aheads)@),
        relax_inv(
            maze,
            final(visited),
            final(costs)@,
            true,
            holds(maze, final(queue)@),
            done,
            c,
            cdist,
            fresh,
            d + 1,
        ),
        !fresh ==> final(queue)@ == old(queue)@,
        final(queue)@.len() <= old(queue)@.len() + 1,
        final(visited).seen_set().len() - old(visited).seen_set().len() <= final(queue)@.len()
            - old(queue)@.len(),
        relax(
            maze,
            final(queue).slots(),
            final(visited).table(),
            final(costs)@,
            final(aheads)@,
            c,
            cdist,
            d + 1,
        ) == relax(
            maze,
            old(queue).slots(),
            old(visited).table(),
            old(costs)@,
            old(aheads)@,
            c,
            cdist,
            d,
        ),
{
    proof {
        assert(step(maze, c as int, n as int) == maze.position(n as int).distance(
            maze.position(c as int),
        ));
        lemma_edge_kept(
            maze,
            visited,
            costs@,
            true,
            holds(maze, queue@),
            done,
            c,
            cdist,
            fresh,
            n,
            d,
        );
        lemma_seen_bound(maze, visited, maze.spec_start() as int);
        assert(visited.seen_set().contains(c as int));
        lemma_span(maze, visited.seen_set().len() as int, n as int, n as int);
    }
    let cpos = maze.node(c).position();
    let npos = maze.node(n).position();
    let mut ndist = npos.distance_to(&cpos);
    ndist += cdist;
    let ndist_to_end = npos.distance_to(&end_pos);
    proof {
        assert(ndist_to_end == ahead(maze, true, n as int));
        assert(cost_ok(maze, visited, costs@, c as int));
        if visited.seen(n as int) {
            // The cost on record for the neighbour and its distance to the
            // exit add up within the machine.
            assert(vertex_ok(
                maze,
                visited,
                costs@,
                true,
                holds(maze, queue@),
                done,
                cdist + ahead(maze, true, c as int),
                n as int,
            ));
            assert(cost_ok(maze, visited, costs@, n as int));
        }
    }

    if !visited.contains(n) || ndist + ndist_to_end < costs[n] + aheads[n] {
        let ghost earlier = *visited;
        let ghost before = costs@;
        let ghost waited = queue@;
        let ghost sight = aheads@;
        let n_nd = NodeDist::new(n, ndist, ndist_to_end);
        queue.push(n_nd);
        visited.insert(n, Some(c), Ghost(ndist as int));
        costs[n] = ndist;
        aheads[n] = ndist_to_end;
        proof {
            assert(aim_ok(maze, n_nd));
            assert forall|v: int| #[trigger] visited.seen(v) implies aheads@[v] == ahead(
                maze,
                true,
                v,
            ) by {
                lemma_seen_fits(visited, v);
                if v != n {
                    assert(earlier.seen(v));
                    assert(aheads@[v] == sight[v]);
                }
            }
            lemma_seen_insert(&earlier, visited, n as int);
            assert(holds(maze, queue@)(n as int, ndist as int));
            assert forall|v: int, x: int| #[trigger] holds(maze, queue@)(v, x) implies holds(
                maze,
                waited,
            )(v, x) || (v == n && x == ndist) by {
                let e = NodeDist {
                    node: v as usize,
                    distance: x as i64,
                    dist_to_end: ahead(maze, true, v) as i64,
                };
                if e != n_nd {
                    assert(waited.count(e) > 0);
                }
            }
            assert forall|e: NodeDist| queue@.count(e) > 0 implies #[trigger] aim_ok(maze, e) by {
                if e != n_nd {
                    assert(waited.count(e) > 0);
                    assert(aim_ok(maze, e));
                }
            }
            lemma_relaxed_edge(
                maze,
                &earlier,
                visited,
                before,
                costs@,
                true,
                holds(maze, waited),
                holds(maze, queue@),
                done,
                c,
                cdist,
                n,
                d,
            );
        }
    }
}

/// A* search from the entry to the pixel of the exit.
///
/// Returns the positions along a shortest walk, if there is a walk, and the
/// number of entries taken from the frontier, superseded ones included.
pub fn astar(maze: &Maze) -> (found: (Option<Vec<Position>>, usize))
    requires
        maze.wf(),
    ensures
        found.0 matches Some(path) ==> maze.is_shortest(path@),
        found.0 is Some <==> maze.can_arrive(),
        found.0 is None ==> maze.component().len() <= found.1,
        1 <= found.1 <= 4 * maze.spec_count() + 1,
        agrees(found, outcome(maze)),
{
    let start = maze.start();
    let end = maze.end();
    let start_pos = maze.node(start).position();
    let end_pos = maze.node(end).position();
    let start_to_end = start_pos.distance_to(&end_pos);

    let mut queue: MinHeap<NodeDist> = MinHeap::new();
    let mut visited = Trail::new(maze.count());
    let mut costs = zeros(maze.count());
    let mut aheads = zeros(maze.count());

    let mut completed = false;
    let mut count: usize = 0;
    let mut goal = end;
    let ghost mut done: Set<int> = Set::empty();
    let ghost mut last: int = 0;

    let start_nd = NodeDist::new(start, 0, start_to_end);
    queue.push(start_nd);
    visited.insert(start, None, Ghost(0));
    aheads[start] = start_to_end;
    proof {
        assert(aim_ok(maze, start_nd));
        assert forall|e: NodeDist| queue@.count(e) > 0 implies #[trigger] aim_ok(maze, e) by {
            assert(e == start_nd);
        }
        assert forall|v: int, c: int| #[trigger]
            holds(maze, queue@)(v, c) <==> v == maze.spec_start() && c == 0 by {
            if v == start && c == 0 {
                assert(queue@.count(start_nd) > 0);
            }
        }
        lemma_begun(maze, &visited, costs@, true, holds(maze, queue@));
    }
    let ghost model = settle(
        maze,
        seq![start_nd],
        first_table(maze),
        Seq::new(maze.nodes().len(), |i: int| 0i64),
        Seq::new(maze.nodes().len(), |i: int| 0i64).update(start as int, start_to_end),
        0,
        (4 * maze.nodes().len() + 2) as nat,
    );
    proof {
        assert(queue.slots() =~= seq![start_nd]);
        assert(visited.table() == first_table(maze));
        assert(start_to_end == ahead(maze, true, start as int));
    }

    loop
        invariant_except_break
            search_inv(maze, &visited, costs@, true, holds(maze, queue@), done, last, None),
            !completed,
            settle(
                maze,
                queue.slots(),
                visited.table(),
                costs@,
                aheads@,
                count as nat,
                (4 * maze.nodes().len() + 2 - count) as nat,
            ) == model,
        invariant
            maze.wf(),
            queue.wf(),
            aimed(maze, queue@),
            sighted(maze, &visited, aheads@),
            start == maze.spec_start(),
            end == maze.spec_end(),
            end_pos == maze.position(end as int),
            costed(maze, &visited, costs@),
            count + queue@.len() <= 1 + 4 * done.len(),
            visited.seen_set().len() <= count + queue@.len(),
            done.finite(),
            done.subset_of(visited.seen_set()),
        ensures
            completed ==> visited.seen(goal as int) && maze.on_exit(goal as int) && forall|
                walk: Seq<int>,
            | #[trigger]
                maze.arrives(walk) ==> costs[goal as int] <= length(maze.trace(walk)),
            completed ==> model == (Some((visited.table(), goal)), count as nat)
                && visited.rank(goal as int) <= far(maze),
            !completed ==> model == (
                None::<(Seq<Option<Option<usize>>>, usize)>,
                count as nat,
            ),
            !completed ==> visited.seen_set() == maze.component() && !maze.can_arrive()
                && visited.seen_set().len() <= count,
            1 <= count <= 1 + 4 * maze.nodes().len(),
        decreases 5 * (maze.nodes().len() - done.len()) + queue@.len(),
    {
        let ghost waited = queue@;
        let ghost slots0 = queue.slots();
        let ghost table0 = visited.table();
        let ghost costs0 = costs@;
        let ghost aheads0 = aheads@;
        proof {
            lemma_seen_bound(maze, &visited, start as int);
            lemma_len_subset(done, visited.seen_set());
        }
        let current = match queue.pop() {
            Some(c) => c,
            None => {
                proof {
                    assert forall|v: int, c: int| !#[trigger] holds(maze, queue@)(v, c) by {
                        let e = NodeDist {
                            node: v as usize,
                            distance: c as i64,
                            dist_to_end: ahead(maze, true, v) as i64,
                        };
                        assert(queue@.count(e) <= queue@.len()) by {
                            if queue@.count(e) > 0 {
                                assert(queue@.remove(e).len() >= 0);
                            }
                        }
                    }
                    lemma_exhausted(
                        maze,
                        &visited,
                        costs@,
                        true,
                        holds(maze, queue@),
                        done,
                        last,
                    );
                    assert(visited.seen_set().contains(start as int));
                    assert(visited.seen_set().len() >= 1) by {
                        if visited.seen_set().len() == 0 {
                            assert(visited.seen_set() =~= Set::<int>::empty());
                        }
                    }
                }
                break ;
            },
        };
        count += 1;

        let cnode = current.node;
        let cdist = current.distance;
        let ghost fresh = !done.contains(cnode as int);
        proof {
            assert(aim_ok(maze, current));
            assert(holds(maze, waited)(cnode as int, cdist as int));
            assert forall|v: int, x: int| #[trigger] holds(maze, waited)(v, x) implies cdist
                + ahead(maze, true, cnode as int) <= x + ahead(maze, true, v) by {
                let e = NodeDist {
                    node: v as usize,
                    distance: x as i64,
                    dist_to_end: ahead(maze, true, v) as i64,
                };
                assert(current.key() <= e.key());
            }
            assert forall|e: NodeDist| queue@.count(e) > 0 implies #[trigger] aim_ok(maze, e) by {
                assert(waited.count(e) > 0);
                assert(aim_ok(maze, e));
            }
            lemma_taken(
                maze,
                &visited,
                costs@,
                true,
                holds(maze, waited),
                holds(maze, queue@),
                done,
                last,
                cnode,
                cdist,
            );
        }
        let cpos = maze.node(cnode).position();

        if cpos == end_pos {
            completed = true;
            goal = cnode;
            proof {
                lemma_ahead(maze, true, cnode as int, cnode as int);
                assert(cost_ok(maze, &visited, costs@, cnode as int));
                assert(visited.rank(cnode as int) <= far(maze)) by (nonlinear_arith)
                    requires
                        visited.rank(cnode as int) <= (visited.seen_set().len() - 1) * span(maze),
                        visited.seen_set().len() <= maze.nodes().len(),
                        0 <= span(maze),
                        far(maze) == maze.nodes().len() * span(maze),
                ;
                assert forall|walk: Seq<int>| #[trigger] maze.arrives(walk) implies costs[cnode as int]
                    <= length(maze.trace(walk)) by {
                    lemma_least(
                        maze,
                        &visited,
                        costs@,
                        true,
                        holds(maze, waited),
                        done,
                        last,
                        cdist as int,
                        walk,
                    );
                }
            }
            break ;
        }
        let links = maze.node(cnode).neighbors();
        let mut d: usize = 0;
        while d < 4
            invariant
                maze.wf(),
                queue.wf(),
                aimed(maze, queue@),
                sighted(maze, &visited, aheads@),
                end_pos == maze.position(maze.spec_end() as int),
                d <= 4,
                cnode < maze.nodes().len(),
                *links == maze.nodes()[cnode as int].neighbors,
                relax_inv(
                    maze,
                    &visited,
                    costs@,
                    true,
                    holds(maze, queue@),
                    done,
                    cnode,
                    cdist,
                    fresh,
                    d as int,
                ),
                fresh == !done.contains(cnode as int),
                queue@.len() <= waited.len() - 1 + (if fresh {
                    d as int
                } else {
                    0
                }),
                visited.seen_set().len() <= count + queue@.len(),
                relax(maze, queue.slots(), visited.table(), costs@, aheads@, cnode, cdist, d as int)
                    == relax(
                    maze,
                    without_least(slots0),
                    table0,
                    costs0,
                    aheads0,
                    cnode,
                    cdist,
                    0,
                ),
            decreases 4 - d,
        {
            if let Some(n) = links[d] {
                relax_edge(
                    maze,
                    &mut queue,
                    &mut visited,
                    &mut costs,
                    &mut aheads,
                    cnode,
                    cdist,
                    n,
                    end_pos,
                    Ghost(done),
                    Ghost(fresh),
                    Ghost(d as int),
                );
            }
            d += 1;
        }
        proof {
            lemma_relaxed_all(
                maze,
                &visited,
                costs@,
                true,
                holds(maze, queue@),
                done,
                cnode,
                cdist,
                fresh,
            );
            if fresh {
                done = done.insert(cnode as int);
            }
            last = cdist + ahead(maze, true, cnode as int);
            lemma_seen_bound(maze, &visited, start as int);
            lemma_len_subset(done, visited.seen_set());
        }
    }

    if completed {
        let path = visited.path_to(maze, Ghost(start as int), goal);
        proof {
            lemma_backtrack(&visited, maze, start as int, goal as int, far(maze));
            lemma_walk_to(&visited, maze, start as int, goal as int);
            lemma_path_cost(maze, &visited, costs@, goal as int);
            assert(maze.arrives(visited.walk_to(goal as int)));
        }
        (Some(path), count)
    } else {
        (None, count)
    }
}

} // verus!
