//! Breadth-first search: the vertices leave a queue in the order in which
//! they entered it.

use vstd::prelude::*;
use std::collections::VecDeque;
use crate::maze::node::Position;
use crate::maze::Maze;
use crate::pathfinder::order::{
    agrees, explore, first_table, lemma_backtrack, outcome, ranked, visit,
};
use crate::pathfinder::search::{explored, lemma_component, lemma_seen_bound};
use crate::pathfinder::trail::{lemma_seen_fits, lemma_seen_insert, lemma_walk_to, Trail};

verus! {

/// Vertex `i` has left the queue and is not the exit: it lies at most `level`
/// hops from the entry, and each of its neighbours was discovered at most
/// one hop further.
pub open spec fn settled(maze: &Maze, trail: &Trail, level: int, i: int) -> bool {
    &&& i != maze.spec_end()
    &&& trail.rank(i) <= level
    &&& forall|d: int|
        0 <= d < 4 && #[trigger] maze.neighbor(i, d) >= 0 ==> trail.seen(maze.neighbor(i, d))
            && trail.rank(maze.neighbor(i, d)) <= trail.rank(i) + 1
}

/// The queue holds discovered vertices in the order of their hop counts,
/// which are `level` or one more.
pub open spec fn waiting(trail: &Trail, queue: Seq<usize>, level: int) -> bool {
    &&& forall|k: int|
        0 <= k < queue.len() ==> trail.seen(#[trigger] queue[k] as int) && level <= trail.rank(
            queue[k] as int,
        ) <= level + 1
    &&& forall|k: int, m: int|
        0 <= k <= m < queue.len() ==> trail.rank(#[trigger] queue[k] as int) <= trail.rank(
            #[trigger] queue[m] as int,
        )
}

/// What holds between two steps of the search.  `current` is the vertex that
/// has left the queue and whose neighbours are being visited, if any.
pub open spec fn bfs_inv(
    maze: &Maze,
    trail: &Trail,
    queue: Seq<usize>,
    level: int,
    current: Option<usize>,
) -> bool {
    &&& trail.wf(maze, maze.spec_start() as int)
    &&& trail.seen(maze.spec_start() as int)
    &&& trail.rank(maze.spec_start() as int) == 0
    &&& 0 <= level
    &&& waiting(trail, queue, level)
    &&& forall|i: int|
        trail.seen(i) && !queue.contains(i as usize) && current != Some(i as usize)
            ==> #[trigger] settled(maze, trail, level, i)
}

/// While the exit is being taken from the queue, a vertex `j` hops along a
/// walk from the entry was discovered with at most `j` hops, as long as `j`
/// is at most the hop count of the exit.
proof fn lemma_hops(maze: &Maze, trail: &Trail, queue: Seq<usize>, walk: Seq<int>, j: int)
    requires
        maze.wf(),
        bfs_inv(maze, trail, queue, trail.rank(maze.spec_end() as int), Some(maze.spec_end())),
        trail.seen(maze.spec_end() as int),
        maze.is_walk(walk),
        walk[0] == maze.spec_start(),
        0 <= j < walk.len(),
        j <= trail.rank(maze.spec_end() as int),
    ensures
        trail.seen(walk[j]),
        trail.rank(walk[j]) <= j,
    decreases j,
{
    if j > 0 {
        let level = trail.rank(maze.spec_end() as int);
        let i = walk[j - 1];
        lemma_hops(maze, trail, queue, walk, j - 1);
        assert(maze.linked(i, walk[j]));
        if queue.contains(i as usize) {
            let k = choose|k: int| 0 <= k < queue.len() && queue[k] == i as usize;
            assert(level <= trail.rank(queue[k] as int));
        }
        assert(settled(maze, trail, level, i));
    }
}

/// Breadth-first search from the entry to the exit.
///
/// Returns a route with the fewest hops, if the exit can be reached, and the
/// number of vertices taken from the queue, the exit included.  Without a
/// route that number is the number of vertices that can be reached.
pub fn bfs(maze: &Maze) -> (found: (Option<Vec<Position>>, usize))
    requires
        maze.wf(),
    ensures
        found.0 matches Some(path) ==> maze.is_fewest_hops(path@),
        found.0 is Some <==> maze.reachable(maze.spec_start() as int, maze.spec_end() as int),
        found.0 is None ==> found.1 == maze.component().len(),
        1 <= found.1 <= maze.spec_count(),
        agrees(found, outcome(maze, true)),
{
    let start = maze.start();
    let end = maze.end();

    let mut completed = false;
    let mut queue: VecDeque<usize> = VecDeque::new();
    let mut visited = Trail::new(maze.count());
    let mut count: usize = 0;
    let ghost mut level: int = 0;

    let ghost fresh = visited;
    visited.insert(start, None, Ghost(0));
    queue.push_back(start);
    proof {
        assert(fresh.seen_set() =~= Set::<int>::empty());
        lemma_seen_insert(&fresh, &visited, start as int);
        assert(queue@.contains(start)) by {
            assert(queue@[0] == start);
        }
        assert forall|i: int| visited.seen(i) implies #[trigger] visited.step_ok(
            maze,
            start as int,
            i,
        ) by {}
    }

    let ghost model = explore(
        maze,
        true,
        seq![start],
        first_table(maze),
        0,
        (maze.nodes().len() + 1) as nat,
    );
    proof {
        assert(queue@ =~= seq![start]);
        assert(visited.table() == first_table(maze));
    }

    loop
        invariant_except_break
            explore(
                maze,
                true,
                queue@,
                visited.table(),
                count as nat,
                (maze.nodes().len() + 1 - count) as nat,
            ) == model,
            bfs_inv(maze, &visited, queue@, level, None),
            !completed,
        invariant
            maze.wf(),
            start == maze.spec_start(),
            end == maze.spec_end(),
            visited.seen_set().finite(),
            count + queue.len() == visited.seen_set().len(),
            visited.seen_set().len() <= maze.nodes().len(),
            visited.wf(maze, start as int),
            ranked(&visited),
        ensures
            completed ==> model == (Some(visited.table()), count as nat),
            !completed ==> model == (None::<Seq<Option<Option<usize>>>>, count as nat),
            completed ==> visited.seen(end as int) && level == visited.rank(end as int) && bfs_inv(
                maze,
                &visited,
                queue@,
                level,
                Some(end),
            ),
            !completed ==> queue.len() == 0 && bfs_inv(maze, &visited, queue@, level, None),
            1 <= count,
        decreases 2 * (maze.nodes().len() - visited.seen_set().len()) + queue.len(),
    {
        let ghost waited = queue@;
        let ghost table0 = visited.table();
        let ghost below = level;
        let ghost budget = 2 * (maze.nodes().len() - visited.seen_set().len()) + queue.len();
        let current = match queue.pop_front() {
            Some(c) => c,
            None => {
                assert(visited.seen(start as int));
                assert(settled(maze, &visited, level, start as int));
                assert(visited.seen_set().contains(start as int));
                assert(count >= 1) by {
                    if count == 0 {
                        assert(visited.seen_set().len() == 0);
                    }
                }
                break ;
            },
        };
        count += 1;
        let ghost rest = queue@;
        proof {
            lemma_seen_bound(maze, &visited, start as int);
            assert(rest =~= waited.subrange(1, waited.len() as int));
            assert(visited.seen(waited[0] as int));
            lemma_seen_fits(&visited, current as int);
            level = visited.rank(current as int);
            assert(below <= level);
            assert forall|k: int| 0 <= k < queue@.len() implies #[trigger] queue@[k] == waited[k
                + 1] by {}
            assert(waiting(&visited, queue@, level)) by {
                assert forall|k: int| 0 <= k < queue@.len() implies visited.seen(
                    #[trigger] queue@[k] as int,
                ) && level <= visited.rank(queue@[k] as int) <= level + 1 by {
                    assert(queue@[k] == waited[k + 1]);
                    assert(visited.rank(waited[0] as int) <= visited.rank(waited[k + 1] as int));
                }
                assert forall|k: int, m: int| 0 <= k <= m < queue@.len() implies visited.rank(
                    #[trigger] queue@[k] as int,
                ) <= visited.rank(#[trigger] queue@[m] as int) by {
                    assert(queue@[k] == waited[k + 1]);
                    assert(queue@[m] == waited[m + 1]);
                }
            }
            assert forall|i: int|
                visited.seen(i) && !queue@.contains(i as usize) && Some(current) != Some(
                    i as usize,
                ) implies #[trigger] settled(maze, &visited, level, i) by {
                lemma_seen_fits(&visited, i);
                if waited.contains(i as usize) {
                    let k = choose|k: int| 0 <= k < waited.len() && waited[k] == i as usize;
                    if k > 0 {
                        assert(queue@[k - 1] == waited[k]);
                    }
                }
                assert(settled(maze, &visited, below, i));
            }
        }

        if current == end {
            completed = true;
            break ;
        }
        let links = maze.node(current).neighbors();
        let mut d: usize = 0;
        while d < 4
            invariant
                maze.wf(),
                start == maze.spec_start(),
                end == maze.spec_end(),
                current != end,
                !completed,
                d <= 4,
                current < maze.nodes().len(),
                *links == maze.nodes()[current as int].neighbors,
                visited.seen(current as int),
                visited.rank(current as int) == level,
                bfs_inv(maze, &visited, queue@, level, Some(current)),
                visited.seen_set().finite(),
                count + queue.len() == visited.seen_set().len(),
                visited.seen_set().len() <= maze.nodes().len(),
                visited.wf(maze, start as int),
                1 <= count,
                ranked(&visited),
                visit(maze, queue@, visited.table(), current, d as int) == visit(
                    maze,
                    rest,
                    table0,
                    current,
                    0,
                ),
                2 * (maze.nodes().len() - visited.seen_set().len()) + queue.len() < budget,
                forall|e: int|
                    0 <= e < d && #[trigger] maze.neighbor(current as int, e) >= 0
                        ==> visited.seen(maze.neighbor(current as int, e)) && visited.rank(
                        maze.neighbor(current as int, e),
                    ) <= level + 1,
            decreases 4 - d,
        {
            if let Some(n) = links[d] {
                proof {
                    assert(maze.link_ok(current as int, d as int));
                    assert(maze.neighbor(current as int, d as int) == n);
                    assert(visited.step_ok(maze, start as int, current as int));
                }
                if !visited.contains(n) {
                    let ghost earlier = visited;
                    let ghost waited = queue@;
                    queue.push_back(n);
                    visited.insert(n, Some(current), Ghost(level + 1));
                    proof {
                        lemma_seen_insert(&earlier, &visited, n as int);
                        assert(maze.linked(current as int, n as int));
                        assert forall|i: int| visited.seen(i) implies #[trigger] visited.step_ok(
                            maze,
                            start as int,
                            i,
                        ) by {
                            if i != n {
                                assert(earlier.step_ok(maze, start as int, i));
                            }
                        }
                        lemma_seen_bound(maze, &visited, start as int);
                        assert(!earlier.seen_set().contains(n as int));
                        assert(earlier.rank(current as int) < earlier.seen_set().len());
                        assert forall|i: int| #[trigger] visited.seen(i) implies visited.rank(i)
                            < visited.seen_set().len() by {
                            if i != n {
                                assert(earlier.seen(i));
                            }
                        }
                        assert(queue@[waited.len() as int] == n);
                        assert forall|k: int| 0 <= k < waited.len() implies #[trigger] queue@[k]
                            == waited[k] by {}
                        assert(waiting(&visited, queue@, level)) by {
                            assert forall|k: int| 0 <= k < queue@.len() implies visited.seen(
                                #[trigger] queue@[k] as int,
                            ) && level <= visited.rank(queue@[k] as int) <= level + 1 by {
                                if k < waited.len() {
                                    assert(queue@[k] == waited[k]);
                                    assert(earlier.seen(waited[k] as int));
                                }
                            }
                            assert forall|k: int, m: int|
                                0 <= k <= m < queue@.len() implies visited.rank(
                                #[trigger] queue@[k] as int,
                            ) <= visited.rank(#[trigger] queue@[m] as int) by {
                                if k < waited.len() {
                                    assert(queue@[k] == waited[k]);
                                    assert(earlier.seen(waited[k] as int));
                                }
                                if m < waited.len() {
                                    assert(queue@[m] == waited[m]);
                                    assert(earlier.seen(waited[m] as int));
                                }
                            }
                        }
                        assert forall|i: int|
                            visited.seen(i) && !queue@.contains(i as usize) && Some(current)
                                != Some(i as usize) implies #[trigger] settled(
                            maze,
                            &visited,
                            level,
                            i,
                        ) by {
                            lemma_seen_fits(&visited, i);
                            if i == n {
                                assert(queue@[waited.len() as int] == i as usize);
                            } else {
                                if waited.contains(i as usize) {
                                    let k = choose|k: int|
                                        0 <= k < waited.len() && waited[k] == i as usize;
                                    assert(queue@[k] == waited[k]);
                                }
                                assert(settled(maze, &earlier, level, i));
                            }
                        }
                    }
                } else {
                    proof {
                        // Discovered before: waiting, or settled, or the vertex
                        // being visited itself.
                        if queue@.contains(n) {
                            let k = choose|k: int| 0 <= k < queue@.len() && queue@[k] == n;
                            assert(visited.rank(queue@[k] as int) <= level + 1);
                        } else if n != current {
                            assert(settled(maze, &visited, level, n as int));
                        }
                    }
                }
            }
            d += 1;
        }
        proof {
            assert(settled(maze, &visited, level, current as int));
            assert forall|i: int|
                visited.seen(i) && !queue@.contains(i as usize) implies #[trigger] settled(
                maze,
                &visited,
                level,
                i,
            ) by {
                lemma_seen_fits(&visited, i);
            }
        }
    }

    if completed {
        let path = visited.path_to(maze, Ghost(start as int), end);
        proof {
            lemma_seen_bound(maze, &visited, start as int);
            lemma_backtrack(&visited, maze, start as int, end as int, maze.nodes().len());
            let walk = visited.walk_to(end as int);
            lemma_walk_to(&visited, maze, start as int, end as int);
            assert(maze.solves(walk));
            assert forall|other: Seq<int>| #[trigger] maze.solves(other) implies path@.len()
                <= other.len() by {
                if other.len() - 1 < level {
                    lemma_hops(maze, &visited, queue@, other, other.len() - 1);
                }
            }
        }
        (Some(path), count)
    } else {
        proof {
            assert forall|i: int| visited.seen(i) implies #[trigger] explored(
                maze,
                &visited,
                i,
            ) by {
                lemma_seen_fits(&visited, i);
                assert(!queue@.contains(i as usize));
                assert(settled(maze, &visited, level, i));
            }
            lemma_component(maze, &visited);
            if maze.reachable(start as int, end as int) {
                assert(maze.component().contains(end as int));
                assert(visited.seen(end as int));
                assert(settled(maze, &visited, level, end as int));
            }
        }
        (None, count)
    }
}

} // verus!
