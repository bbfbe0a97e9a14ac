//! Depth-first search: the vertex discovered last is visited first.

use vstd::prelude::*;
use crate::maze::node::Position;
use crate::maze::Maze;
use crate::pathfinder::order::{
    agrees, explore, first_table, lemma_backtrack, outcome, ranked, visit,
};
use crate::pathfinder::search::{explored, lemma_component, lemma_seen_bound};
use crate::pathfinder::trail::{lemma_seen_fits, lemma_seen_insert, lemma_walk_to, Trail};

verus! {

/// Vertex `i` has left the stack and is not the exit: all its neighbours
/// have been discovered.
pub open spec fn finished(maze: &Maze, trail: &Trail, i: int) -> bool {
    &&& i != maze.spec_end()
    &&& explored(maze, trail, i)
}

/// What holds between two steps of the search.  `current` is the vertex that
/// has left the stack and whose neighbours are being visited, if any.
pub open spec fn dfs_inv(maze: &Maze, trail: &Trail, stack: Seq<usize>, current: Option<usize>) -> bool {
    &&& trail.wf(maze, maze.spec_start() as int)
    &&& trail.seen(maze.spec_start() as int)
    &&& forall|k: int| 0 <= k < stack.len() ==> trail.seen(#[trigger] stack[k] as int)
    &&& forall|i: int|
        trail.seen(i) && !stack.contains(i as usize) && current != Some(i as usize)
            ==> #[trigger] finished(maze, trail, i)
}

/// Depth-first search from the entry to the exit.
///
/// Returns a route, if the exit can be reached, and the number of vertices
/// taken from the stack, the exit included.  Without a route that number is
/// the number of vertices that can be reached.
pub fn dfs(maze: &Maze) -> (found: (Option<Vec<Position>>, usize))
    requires
        maze.wf(),
    ensures
        found.0 matches Some(path) ==> maze.is_route(path@),
        found.0 is Some <==> maze.reachable(maze.spec_start() as int, maze.spec_end() as int),
        found.0 is None ==> found.1 == maze.component().len(),
        1 <= found.1 <= maze.spec_count(),
        agrees(found, outcome(maze, false)),
{
    let start = maze.start();
    let end = maze.end();

    let mut stack: Vec<usize> = Vec::new();
    let mut visited = Trail::new(maze.count());
    let mut completed = false;
    let mut count: usize = 0;

    let ghost fresh = visited;
    stack.push(start);
    visited.insert(start, None, Ghost(0));
    proof {
        assert(fresh.seen_set() =~= Set::<int>::empty());
        lemma_seen_insert(&fresh, &visited, start as int);
        assert(stack@.contains(start)) by {
            assert(stack@[0] == start);
        }
        assert forall|i: int| visited.seen(i) implies #[trigger] visited.step_ok(
            maze,
            start as int,
            i,
        ) by {}
    }

    let ghost model = explore(
        maze,
        false,
        seq![start],
        first_table(maze),
        0,
        (maze.nodes().len() + 1) as nat,
    );
    proof {
        assert(stack@ =~= seq![start]);
        assert(visited.table() == first_table(maze));
    }

    loop
        invariant_except_break
            explore(
                maze,
                false,
                stack@,
                visited.table(),
                count as nat,
                (maze.nodes().len() + 1 - count) as nat,
            ) == model,
            dfs_inv(maze, &visited, stack@, None),
            !completed,
        invariant
            maze.wf(),
            start == maze.spec_start(),
            end == maze.spec_end(),
            visited.seen_set().finite(),
            count + stack.len() == visited.seen_set().len(),
            visited.seen_set().len() <= maze.nodes().len(),
            visited.wf(maze, start as int),
            ranked(&visited),
        ensures
            completed ==> model == (Some(visited.table()), count as nat),
            !completed ==> model == (None::<Seq<Option<Option<usize>>>>, count as nat),
            completed ==> visited.seen(end as int),
            !completed ==> stack.len() == 0 && dfs_inv(maze, &visited, stack@, None),
            1 <= count,
        decreases 2 * (maze.nodes().len() - visited.seen_set().len()) + stack.len(),
    {
        let ghost waited = stack@;
        let ghost table0 = visited.table();
        let ghost budget = 2 * (maze.nodes().len() - visited.seen_set().len()) + stack.len();
        let current = match stack.pop() {
            Some(c) => c,
            None => {
                assert(visited.seen_set().contains(start as int));
                assert(count >= 1) by {
                    if count == 0 {
                        assert(visited.seen_set().len() == 0);
                    }
                }
                break ;
            },
        };
        count += 1;
        let ghost rest = stack@;
        proof {
            lemma_seen_bound(maze, &visited, start as int);
            assert(rest =~= waited.subrange(0, waited.len() - 1));
            assert(visited.seen(waited[waited.len() - 1] as int));
            lemma_seen_fits(&visited, current as int);
            assert forall|i: int|
                visited.seen(i) && !stack@.contains(i as usize) && Some(current) != Some(
                    i as usize,
                ) implies #[trigger] finished(maze, &visited, i) by {
                lemma_seen_fits(&visited, i);
                if waited.contains(i as usize) {
                    let k = choose|k: int| 0 <= k < waited.len() && waited[k] == i as usize;
                    if k < waited.len() - 1 {
                        assert(stack@[k] == waited[k]);
                    }
                }
            }
        }

        if current == end {
            completed = true;
            break ;
        }
        let links = maze.node(current).neighbors();
        let mut d: usize = 0;
        while d < 4
            invariant
                maze.wf(),
                start == maze.spec_start(),
                end == maze.spec_end(),
                current != end,
                !completed,
                d <= 4,
                current < maze.nodes().len(),
                *links == maze.nodes()[current as int].neighbors,
                visited.seen(current as int),
                dfs_inv(maze, &visited, stack@, Some(current)),
                visited.seen_set().finite(),
                count + stack.len() == visited.seen_set().len(),
                visited.seen_set().len() <= maze.nodes().len(),
                visited.wf(maze, start as int),
                1 <= count,
                ranked(&visited),
                visit(maze, stack@, visited.table(), current, d as int) == visit(
                    maze,
                    rest,
                    table0,
                    current,
                    0,
                ),
                2 * (maze.nodes().len() - visited.seen_set().len()) + stack.len() < budget,
                forall|e: int|
                    0 <= e < d && #[trigger] maze.neighbor(current as int, e) >= 0
                        ==> visited.seen(maze.neighbor(current as int, e)),
            decreases 4 - d,
        {
            if let Some(n) = links[d] {
                proof {
                    assert(maze.link_ok(current as int, d as int));
                    assert(maze.neighbor(current as int, d as int) == n);
                    assert(visited.step_ok(maze, start as int, current as int));
                }
                if !visited.contains(n) {
                    let ghost earlier = visited;
                    let ghost waited = stack@;
                    stack.push(n);
                    visited.insert(n, Some(current), Ghost(earlier.rank(current as int) + 1));
                    proof {
                        lemma_seen_insert(&earlier, &visited, n as int);
                        assert(maze.linked(current as int, n as int));
                        assert forall|i: int| visited.seen(i) implies #[trigger] visited.step_ok(
                            maze,
                            start as int,
                            i,
                        ) by {
                            if i != n {
                                assert(earlier.step_ok(maze, start as int, i));
                            }
                        }
                        lemma_seen_bound(maze, &visited, start as int);
                        assert(!earlier.seen_set().contains(n as int));
                        assert(earlier.rank(current as int) < earlier.seen_set().len());
                        assert forall|i: int| #[trigger] visited.seen(i) implies visited.rank(i)
                            < visited.seen_set().len() by {
                            if i != n {
                                assert(earlier.seen(i));
                            }
                        }
                        assert(stack@[waited.len() as int] == n);
                        assert forall|k: int| 0 <= k < stack@.len() implies visited.seen(
                            #[trigger] stack@[k] as int,
                        ) by {
                            if k < waited.len() {
                                assert(stack@[k] == waited[k]);
                                assert(earlier.seen(waited[k] as int));
                            }
                        }
                        assert forall|i: int|
                            visited.seen(i) && !stack@.contains(i as usize) && Some(current)
                                != Some(i as usize) implies #[trigger] finished(
                            maze,
                            &visited,
                            i,
                        ) by {
                            lemma_seen_fits(&visited, i);
                            if i == n {
                                assert(stack@[waited.len() as int] == i as usize);
                            } else {
                                if waited.contains(i as usize) {
                                    let k = choose|k: int|
                                        0 <= k < waited.len() && waited[k] == i as usize;
                                    assert(stack@[k] == waited[k]);
                                }
                                assert(finished(maze, &earlier, i));
                            }
                        }
                    }
                }
            }
            d += 1;
        }
        proof {
            assert(finished(maze, &visited, current as int));
            assert forall|i: int|
                visited.seen(i) && !stack@.contains(i as usize) implies #[trigger] finished(
                maze,
                &visited,
                i,
            ) by {
                lemma_seen_fits(&visited, i);
            }
        }
    }

    if completed {
        let path = visited.path_to(maze, Ghost(start as int), end);
        proof {
            lemma_seen_bound(maze, &visited, start as int);
            lemma_backtrack(&visited, maze, start as int, end as int, maze.nodes().len());
            lemma_walk_to(&visited, maze, start as int, end as int);
            assert(maze.solves(visited.walk_to(end as int)));
        }
        (Some(path), count)
    } else {
        proof {
            assert forall|i: int| visited.seen(i) implies #[trigger] explored(
                maze,
                &visited,
                i,
            ) by {
                lemma_seen_fits(&visited, i);
                assert(!stack@.contains(i as usize));
                assert(finished(maze, &visited, i));
            }
            lemma_component(maze, &visited);
            if maze.reachable(start as int, end as int) {
                assert(maze.component().contains(end as int));
                assert(visited.seen(end as int));
                assert(finished(maze, &visited, end as int));
            }
        }
        (None, count)
    }
}

} // verus!
