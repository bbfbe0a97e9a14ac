use maze_solver::maze::grid::Grid;
use maze_solver::maze::node::Position;
use maze_solver::maze::Maze;
use maze_solver::pathfinder::astar::NodeDist as StarEntry;
use maze_solver::pathfinder::dijk::NodeDist;
use maze_solver::output::stroke;
use maze_solver::pathfinder::heap::MinHeap;
use maze_solver::pathfinder::{astar, bfs, dfs, dijk, dijk2, Algorithm};

const ALL: [Algorithm; 5] =
    [Algorithm::Bfs, Algorithm::Dfs, Algorithm::Dijk, Algorithm::Dijk2, Algorithm::Astar];

/// A maze from rows of text: `#` is wall, anything else is passable.
fn maze_of(rows: &[&str]) -> Maze {
    let height = rows.len() as u32;
    let width = rows[0].len() as u32;
    let mut cells = Vec::new();
    for row in rows {
        assert_eq!(row.len() as u32, width);
        for c in row.chars() {
            cells.push(c != '#');
        }
    }
    match Maze::new(&Grid::new(width, height, cells).unwrap()) {
        Ok(maze) => maze,
        Err(e) => panic!("{}", e.message()),
    }
}

fn tuples(path: &Option<Vec<Position>>) -> Option<Vec<(u32, u32)>> {
    path.as_ref().map(|p| p.iter().map(|q| q.as_tuple()).collect())
}

fn weight(path: &[Position]) -> i64 {
    path.windows(2).map(|w| w[0].distance_to(&w[1])).sum()
}

/// Whether each position of `path` and the next are linked vertices.
fn follows_links(maze: &Maze, path: &[Position]) -> bool {
    path.windows(2).all(|w| {
        (0..maze.count()).any(|i| {
            maze.node(i).position() == w[0]
                && maze
                    .node(i)
                    .neighbors()
                    .iter()
                    .any(|n| n.map_or(false, |j| maze.node(j).position() == w[1]))
        })
    })
}

const LOOP: [&str; 7] = [
    "#####.#",
    "#.....#",
    "#.###.#",
    "#.#...#",
    "#.###.#",
    "#.....#",
    "#####.#",
];

const SPURS: [&str; 9] = [
    "#####.###",
    "#.....###",
    "#.###..##",
    "#.###.###",
    "#.###..##",
    "#.###.###",
    "#.###..##",
    "#.....###",
    "#####.###",
];

const DETOUR: [&str; 8] = [
    "###########.##",
    "##...........#",
    "##.#########.#",
    "##...........#",
    "##.###########",
    "##.###########",
    "##.###########",
    "##.###########",
];

#[test]
fn straight_corridor_is_solved_by_all() {
    let maze = maze_of(&["##.##", "##.##", "##.##", "##.##", "##.##"]);
    for algo in ALL {
        let (path, count) = algo.run(&maze);
        assert_eq!(tuples(&path), Some(vec![(2, 0), (2, 4)]));
        assert_eq!(count, 2);
    }
}

#[test]
fn severed_corridor_is_solved_by_none() {
    let maze = maze_of(&["##.##", "##.##", "#####", "##.##", "##.##"]);
    assert_eq!(maze.count(), 4);
    // The entry and the dead end below it can be reached.
    for algo in ALL {
        let (path, count) = algo.run(&maze);
        assert_eq!(path, None);
        assert_eq!(count, 2);
    }
}

#[test]
fn wall_below_the_entry_is_solved_by_none() {
    let maze = maze_of(&["#.###", "###.#", "#.###"]);
    for algo in ALL {
        assert_eq!(algo.run(&maze), (None, 1));
    }
}

#[test]
fn loop_breadth_first() {
    let maze = maze_of(&LOOP);
    assert_eq!(maze.count(), 8);
    let (path, count) = bfs(&maze);
    assert_eq!(tuples(&path), Some(vec![(5, 0), (5, 1), (5, 3), (5, 5), (5, 6)]));
    assert_eq!(count, 8);
}

#[test]
fn loop_depth_first_takes_the_long_branch() {
    let maze = maze_of(&LOOP);
    let (path, count) = dfs(&maze);
    assert_eq!(tuples(&path), Some(vec![(5, 0), (5, 1), (1, 1), (1, 5), (5, 5), (5, 6)]));
    assert_eq!(count, 6);
    assert!(follows_links(&maze, &path.unwrap()));
}

#[test]
fn loop_weighted_searches_take_the_short_branch() {
    let maze = maze_of(&LOOP);
    let short = Some(vec![(5, 0), (5, 1), (5, 3), (5, 5), (5, 6)]);
    let (path, count) = dijk(&maze);
    assert_eq!(tuples(&path), short);
    assert_eq!(count, 7);
    assert_eq!(weight(&path.unwrap()), 6);
    let (path, count) = dijk2(&maze);
    assert_eq!(tuples(&path), short);
    assert_eq!(count, 7);
    let (path, count) = astar(&maze);
    assert_eq!(tuples(&path), short);
    assert_eq!(count, 5);
}

#[test]
fn fewest_hops_is_not_shortest() {
    let maze = maze_of(&SPURS);
    assert_eq!(maze.count(), 12);
    let (path, _) = bfs(&maze);
    let path = path.unwrap();
    assert_eq!(
        tuples(&Some(path.clone())),
        Some(vec![(5, 0), (5, 1), (1, 1), (1, 7), (5, 7), (5, 8)])
    );
    assert_eq!(weight(&path), 16);
    let direct = Some(vec![(5, 0), (5, 1), (5, 2), (5, 4), (5, 6), (5, 7), (5, 8)]);
    for algo in [Algorithm::Dijk, Algorithm::Dijk2, Algorithm::Astar] {
        let (path, _) = algo.run(&maze);
        assert_eq!(tuples(&path), direct);
        assert_eq!(weight(&path.unwrap()), 8);
    }
}

#[test]
fn superseded_entry_is_counted_by_the_lazy_search_only() {
    let maze = maze_of(&DETOUR);
    assert_eq!(maze.count(), 7);
    let route = Some(vec![(11, 0), (11, 1), (2, 1), (2, 3), (2, 7)]);
    // The vertex (2,3) is first reached over the long corridor of row 3, at
    // length 14, and then over (2,1), at length 12.
    assert_eq!(tuples(&dijk(&maze).0), route);
    assert_eq!(dijk(&maze).1, 8);
    assert_eq!(tuples(&dijk2(&maze).0), route);
    assert_eq!(dijk2(&maze).1, 7);
    assert_eq!(tuples(&astar(&maze).0), route);
    assert_eq!(astar(&maze).1, 5);
    assert_eq!(tuples(&bfs(&maze).0), route);
    assert_eq!(bfs(&maze).1, 7);
    assert_eq!(tuples(&dfs(&maze).0), route);
    assert_eq!(dfs(&maze).1, 5);
    assert_eq!(weight(&dijk(&maze).0.unwrap()), 16);
}

#[test]
fn every_path_starts_at_the_entry_and_ends_at_the_exit() {
    for rows in [&LOOP[..], &SPURS[..], &DETOUR[..]] {
        let maze = maze_of(rows);
        for algo in ALL {
            let path = algo.run(&maze).0.unwrap();
            assert!(!path.is_empty());
            assert_eq!(path[0], maze.node(maze.start()).position());
            assert_eq!(path[path.len() - 1], maze.node(maze.end()).position());
        }
    }
}

#[test]
fn every_path_follows_links() {
    for rows in [&LOOP[..], &SPURS[..], &DETOUR[..]] {
        let maze = maze_of(rows);
        for algo in ALL {
            let path = algo.run(&maze).0.unwrap();
            assert!(follows_links(&maze, &path));
        }
    }
}

#[test]
fn weighted_searches_agree_on_the_length() {
    for rows in [&LOOP[..], &SPURS[..], &DETOUR[..]] {
        let maze = maze_of(rows);
        let lazy = weight(&dijk(&maze).0.unwrap());
        let eager = weight(&dijk2(&maze).0.unwrap());
        let guided = weight(&astar(&maze).0.unwrap());
        assert_eq!(lazy, eager);
        assert_eq!(lazy, guided);
        for algo in [Algorithm::Bfs, Algorithm::Dfs] {
            assert!(lazy <= weight(&algo.run(&maze).0.unwrap()));
        }
    }
}

#[test]
fn breadth_first_has_the_fewest_hops() {
    for rows in [&LOOP[..], &SPURS[..], &DETOUR[..]] {
        let maze = maze_of(rows);
        let hops = bfs(&maze).0.unwrap().len();
        for algo in ALL {
            assert!(hops <= algo.run(&maze).0.unwrap().len());
        }
    }
}

#[test]
fn a_search_repeated_gives_the_same() {
    for rows in [&LOOP[..], &SPURS[..], &DETOUR[..]] {
        let maze = maze_of(rows);
        for algo in ALL {
            let first = algo.run(&maze);
            let second = algo.run(&maze);
            assert_eq!(first, second);
        }
    }
}

#[test]
fn run_is_the_search_of_that_name() {
    let maze = maze_of(&LOOP);
    assert_eq!(Algorithm::Bfs.run(&maze), bfs(&maze));
    assert_eq!(Algorithm::Dfs.run(&maze), dfs(&maze));
    assert_eq!(Algorithm::Dijk.run(&maze), dijk(&maze));
    assert_eq!(Algorithm::Dijk2.run(&maze), dijk2(&maze));
    assert_eq!(Algorithm::Astar.run(&maze), astar(&maze));
}

#[test]
fn single_row_is_solved_where_positions_are_compared() {
    let maze = maze_of(&["#.#.#"]);
    // The entry and the exit are two unlinked vertices on one pixel.
    assert_eq!(bfs(&maze), (None, 1));
    assert_eq!(dfs(&maze), (None, 1));
    let here = Some(vec![Position::new(1, 0)]);
    assert_eq!(dijk(&maze), (here.clone(), 1));
    assert_eq!(dijk2(&maze), (here.clone(), 1));
    assert_eq!(astar(&maze), (here, 1));
}

#[test]
fn unreachable_exit_counts_the_whole_component() {
    // The room behind the entry has nine pixels, all of them vertices; the
    // exit lies behind a wall.
    let maze = maze_of(&["#.#####", "#...###", "#...###", "#...#.#", "#####.#"]);
    assert_eq!(maze.count(), 12);
    for algo in ALL {
        let (path, count) = algo.run(&maze);
        assert_eq!(path, None);
        assert_eq!(count, 10);
    }
}

#[test]
fn heap_gives_the_smallest_first() {
    let mut heap: MinHeap<NodeDist> = MinHeap::new();
    assert_eq!(heap.len(), 0);
    assert!(heap.pop().is_none());
    for (node, distance) in [(0, 7), (1, 3), (2, 9), (3, 3), (4, 1), (5, 8), (6, 0)] {
        heap.push(NodeDist::new(node, distance));
    }
    assert_eq!(heap.len(), 7);
    let mut out = Vec::new();
    while let Some(e) = heap.pop() {
        out.push(e.distance);
    }
    assert_eq!(out, vec![0, 1, 3, 3, 7, 8, 9]);
    assert_eq!(heap.len(), 0);
}

#[test]
fn heap_orders_guided_entries_by_the_sum() {
    let mut heap: MinHeap<StarEntry> = MinHeap::new();
    heap.push(StarEntry::new(0, 5, 5));
    heap.push(StarEntry::new(1, 1, 8));
    heap.push(StarEntry::new(2, 7, 0));
    heap.push(StarEntry::new(3, 0, 12));
    let mut out = Vec::new();
    while let Some(e) = heap.pop() {
        out.push((e.node, e.distance + e.dist_to_end));
    }
    assert_eq!(out, vec![(2, 7), (1, 9), (0, 10), (3, 12)]);
}

#[test]
fn frontier_entries_hold_what_they_are_given() {
    let e = NodeDist::new(4, 17);
    assert_eq!((e.node, e.distance), (4, 17));
    let e = StarEntry::new(4, 17, 3);
    assert_eq!((e.node, e.distance, e.dist_to_end), (4, 17, 3));
}

const WINDING: [&str; 11] = [
    "#.#########",
    "#.........#",
    "#########.#",
    "#.........#",
    "#.#########",
    "#...#.....#",
    "###.#.###.#",
    "#...#.#...#",
    "#.###.#.###",
    "#.....#...#",
    "#########.#",
];

#[test]
fn winding_passage_is_solved_by_all() {
    let maze = maze_of(&WINDING);
    let route = vec![
        (1, 0),
        (1, 1),
        (9, 1),
        (9, 3),
        (1, 3),
        (1, 5),
        (3, 5),
        (3, 7),
        (1, 7),
        (1, 9),
        (5, 9),
        (5, 5),
        (9, 5),
        (9, 7),
        (7, 7),
        (7, 9),
        (9, 9),
        (9, 10),
    ];
    assert_eq!(maze.count(), route.len());
    for algo in ALL {
        let (path, count) = algo.run(&maze);
        assert_eq!(tuples(&path), Some(route.clone()));
        assert_eq!(count, route.len());
        assert_eq!(weight(&path.unwrap()), 50);
    }
}

/// Pictures drawn by a fixed sequence of numbers: passable in two pixels of
/// three, with an opening in each border.
fn drawn(seed: u64, width: usize, height: usize) -> Vec<String> {
    let mut state = seed.wrapping_mul(6364136223846793005).wrapping_add(1442695040888963407);
    let mut rows = Vec::new();
    for y in 0..height {
        let mut row = String::new();
        for x in 0..width {
            state = state.wrapping_mul(6364136223846793005).wrapping_add(1442695040888963407);
            let border = x == 0 || y == 0 || x == width - 1 || y == height - 1;
            let open = if border { false } else { (state >> 33) % 3 != 0 };
            row.push(if open { '.' } else { '#' });
        }
        rows.push(row);
    }
    let top = 1 + (seed as usize) % (width - 2);
    let bottom = 1 + (seed as usize / 7) % (width - 2);
    rows[0].replace_range(top..top + 1, ".");
    rows[height - 1].replace_range(bottom..bottom + 1, ".");
    rows
}

/// Whether a chain of passable pixels leads from the opening in the top
/// border through the interior to the opening in the bottom border.
fn has_passage(rows: &[String]) -> bool {
    let height = rows.len();
    let width = rows[0].len();
    let open = |x: usize, y: usize| rows[y].as_bytes()[x] != b'#';
    let top = (1..width - 1).find(|&x| open(x, 0)).unwrap();
    let bottom = (1..width - 1).find(|&x| open(x, height - 1)).unwrap();
    let mut seen = vec![vec![false; width]; height];
    let mut stack = vec![(top, 0usize)];
    seen[0][top] = true;
    while let Some((x, y)) = stack.pop() {
        if (x, y) == (bottom, height - 1) {
            return true;
        }
        let mut next = Vec::new();
        if y + 1 < height {
            next.push((x, y + 1));
        }
        if y > 0 {
            next.push((x, y - 1));
        }
        if y > 0 && y + 1 < height {
            next.push((x + 1, y));
            next.push((x - 1, y));
        }
        for (u, v) in next {
            let inside = u >= 1 && u + 1 < width && v >= 1 && v + 1 < height;
            let ends = (u, v) == (top, 0) || (u, v) == (bottom, height - 1);
            if (inside || ends) && open(u, v) && !seen[v][u] {
                seen[v][u] = true;
                stack.push((u, v));
            }
        }
    }
    false
}

/// The least hops and the least length from the entry to the exit, found by
/// relaxing every link until nothing changes.
fn least(maze: &Maze) -> Option<(usize, i64)> {
    let n = maze.count();
    let mut hops = vec![usize::MAX; n];
    let mut length = vec![i64::MAX; n];
    hops[maze.start()] = 0;
    length[maze.start()] = 0;
    let mut changed = true;
    while changed {
        changed = false;
        for i in 0..n {
            if hops[i] == usize::MAX {
                continue;
            }
            for link in maze.node(i).neighbors().iter().flatten() {
                let j = *link;
                let step = maze.node(i).position().distance_to(&maze.node(j).position());
                if hops[i] + 1 < hops[j] {
                    hops[j] = hops[i] + 1;
                    changed = true;
                }
                if length[i] + step < length[j] {
                    length[j] = length[i] + step;
                    changed = true;
                }
            }
        }
    }
    if hops[maze.end()] == usize::MAX {
        None
    } else {
        Some((hops[maze.end()], length[maze.end()]))
    }
}

#[test]
fn drawn_pictures_are_solved_as_they_should() {
    let mut solved = 0;
    for seed in 0..300u64 {
        let width = 5 + (seed as usize) % 9;
        let height = 4 + (seed as usize / 3) % 9;
        let rows = drawn(seed, width, height);
        let rows: Vec<&str> = rows.iter().map(|r| r.as_str()).collect();
        let maze = maze_of(&rows);
        let best = least(&maze);
        let owned: Vec<String> = rows.iter().map(|r| r.to_string()).collect();
        assert_eq!(best.is_some(), has_passage(&owned), "{:?}", rows);
        for algo in ALL {
            let (path, count) = algo.run(&maze);
            assert_eq!(path.is_some(), best.is_some(), "{:?}", rows);
            assert!(1 <= count && count <= 4 * maze.count() + 1);
            if let Some(path) = path {
                let (hops, length) = best.unwrap();
                assert_eq!(path[0], maze.node(maze.start()).position());
                assert_eq!(path[path.len() - 1], maze.node(maze.end()).position());
                assert!(follows_links(&maze, &path));
                for step in path.windows(2) {
                    for p in stroke(step[0], step[1]) {
                        assert_ne!(rows[p.row() as usize].as_bytes()[p.col() as usize], b'#');
                    }
                }
                assert!(path.len() - 1 >= hops);
                assert!(weight(&path) >= length);
                match algo {
                    Algorithm::Bfs => assert_eq!(path.len() - 1, hops, "{:?}", rows),
                    Algorithm::Dfs => {}
                    _ => assert_eq!(weight(&path), length, "{:?}", rows),
                }
                assert!(path.len() <= count);
            }
        }
        if best.is_some() {
            solved += 1;
        } else {
            let whole = bfs(&maze).1;
            assert_eq!(dfs(&maze).1, whole);
            assert_eq!(dijk2(&maze).1, whole);
            assert!(dijk(&maze).1 >= whole);
            assert!(astar(&maze).1 >= whole);
        }
        assert!(dijk2(&maze).1 <= dijk(&maze).1);
    }
    assert!(solved > 20 && solved < 280);
}
