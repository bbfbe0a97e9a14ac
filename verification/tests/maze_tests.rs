use maze_solver::cli_errors::InvalidAlgorithmError;
use maze_solver::maze::errors::MazeError;
use maze_solver::maze::grid::Grid;
use maze_solver::maze::node::{Node, Position};
use maze_solver::maze::Maze;
use maze_solver::output::{fmt_num, solved_name, stroke};
use maze_solver::pathfinder::{get_algo, Algorithm};

/// A grid from rows of text: `#` is wall, anything else is passable.
fn picture(rows: &[&str]) -> Grid {
    let height = rows.len() as u32;
    let width = rows[0].len() as u32;
    let mut cells = Vec::new();
    for row in rows {
        assert_eq!(row.len() as u32, width);
        for c in row.chars() {
            cells.push(c != '#');
        }
    }
    Grid::new(width, height, cells).unwrap()
}

fn build(rows: &[&str]) -> Maze {
    match Maze::new(&picture(rows)) {
        Ok(maze) => maze,
        Err(e) => panic!("{}", e.message()),
    }
}

fn at(maze: &Maze, handle: usize) -> (u32, u32) {
    maze.node(handle).position().as_tuple()
}

#[test]
fn position_holds_column_and_row() {
    let p = Position::new(3, 7);
    assert_eq!(p.col(), 3);
    assert_eq!(p.row(), 7);
    assert_eq!(p.as_tuple(), (3, 7));
    assert_eq!(p, Position::new(3, 7));
    assert_ne!(p, Position::new(7, 3));
}

#[test]
fn position_distance_is_manhattan() {
    let p = Position::new(3, 7);
    assert_eq!(p.distance_to(&Position::new(3, 7)), 0);
    assert_eq!(p.distance_to(&Position::new(10, 2)), 12);
    assert_eq!(Position::new(10, 2).distance_to(&p), 12);
    assert_eq!(
        Position::new(0, 0).distance_to(&Position::new(u32::MAX, u32::MAX)),
        2 * (u32::MAX as i64)
    );
}

#[test]
fn new_node_has_no_links() {
    let n = Node::new(4, 5);
    assert_eq!(n.col(), 4);
    assert_eq!(n.row(), 5);
    assert_eq!(n.position(), Position::new(4, 5));
    assert_eq!(n.north(), None);
    assert_eq!(n.east(), None);
    assert_eq!(n.south(), None);
    assert_eq!(n.west(), None);
    assert_eq!(n.neighbors(), &[None, None, None, None]);
}

#[test]
fn node_setters_fill_their_own_slot() {
    let mut n = Node::new(1, 1);
    n.set_north(10);
    assert_eq!(n.neighbors(), &[Some(10), None, None, None]);
    n.set_east(11);
    assert_eq!(n.neighbors(), &[Some(10), Some(11), None, None]);
    n.set_south(12);
    assert_eq!(n.neighbors(), &[Some(10), Some(11), Some(12), None]);
    n.set_west(13);
    assert_eq!(n.neighbors(), &[Some(10), Some(11), Some(12), Some(13)]);
    assert_eq!(n.north(), Some(10));
    assert_eq!(n.east(), Some(11));
    assert_eq!(n.south(), Some(12));
    assert_eq!(n.west(), Some(13));
    assert_eq!(n.position(), Position::new(1, 1));
}

#[test]
fn grid_rejects_bad_sizes() {
    assert!(Grid::new(0, 3, vec![]).is_none());
    assert!(Grid::new(3, 0, vec![]).is_none());
    assert!(Grid::new(2, 2, vec![true; 3]).is_none());
    assert!(Grid::new(2, 2, vec![true; 5]).is_none());
    assert!(Grid::new(2, 2, vec![true; 4]).is_some());
}

#[test]
fn grid_reads_pixels_row_by_row() {
    let g = picture(&["#.#", "..#"]);
    assert_eq!(g.width(), 3);
    assert_eq!(g.height(), 2);
    assert!(!g.is_open(0, 0));
    assert!(g.is_open(1, 0));
    assert!(!g.is_open(2, 0));
    assert!(g.is_open(0, 1));
    assert!(g.is_open(1, 1));
    assert!(!g.is_open(2, 1));
}

#[test]
fn no_opening_in_top_border_is_no_start() {
    let g = picture(&["#####", "#...#", "##.##"]);
    assert_eq!(Maze::new(&g).err(), Some(MazeError::NoStartError));
}

#[test]
fn corners_of_top_border_do_not_count() {
    let g = picture(&[".###.", "#...#", "##.##"]);
    assert_eq!(Maze::new(&g).err(), Some(MazeError::NoStartError));
}

#[test]
fn no_start_wins_over_no_exit() {
    let g = picture(&["#####", "#...#", "#####"]);
    assert_eq!(Maze::new(&g).err(), Some(MazeError::NoStartError));
}

#[test]
fn no_opening_in_bottom_border_is_no_exit() {
    let g = picture(&["##.##", "#...#", "#####"]);
    assert_eq!(Maze::new(&g).err(), Some(MazeError::NoExitError));
    let g = picture(&["##.##", "#...#", ".###."]);
    assert_eq!(Maze::new(&g).err(), Some(MazeError::NoExitError));
}

#[test]
fn narrow_grids_have_no_start() {
    assert_eq!(Maze::new(&picture(&["."])).err(), Some(MazeError::NoStartError));
    assert_eq!(Maze::new(&picture(&["..", ".."])).err(), Some(MazeError::NoStartError));
}

#[test]
fn error_messages() {
    assert_eq!(MazeError::NoStartError.message(), "image does not contain a starting point");
    assert_eq!(MazeError::NoExitError.message(), "image does not contain a exit ponit");
    assert_eq!(
        InvalidAlgorithmError("fast".to_string()).message(),
        "fast is not a valid algorithm."
    );
}

#[test]
fn straight_corridor_has_two_vertices() {
    let maze = build(&["##.##", "##.##", "##.##", "##.##", "##.##"]);
    assert_eq!(maze.width(), 5);
    assert_eq!(maze.height(), 5);
    assert_eq!(maze.count(), 2);
    assert_eq!(maze.start(), 0);
    assert_eq!(maze.end(), 1);
    assert_eq!(at(&maze, maze.start()), (2, 0));
    assert_eq!(at(&maze, maze.end()), (2, 4));
    assert_eq!(maze.node(maze.start()).neighbors(), &[None, None, Some(1), None]);
    assert_eq!(maze.node(maze.end()).neighbors(), &[Some(0), None, None, None]);
}

#[test]
fn first_opening_of_each_border_is_taken() {
    let maze = build(&["#.#.#", "#...#", "#.#.#"]);
    assert_eq!(at(&maze, maze.start()), (1, 0));
    assert_eq!(at(&maze, maze.end()), (1, 2));
    // (1,1) and (3,1) are the ends of the corridor of row 1; (2,1) has no
    // passage above or below and carries no vertex.
    assert_eq!(maze.count(), 4);
    assert_eq!(at(&maze, 1), (1, 1));
    assert_eq!(at(&maze, 2), (3, 1));
    assert_eq!(maze.node(1).neighbors(), &[Some(0), Some(2), Some(3), None]);
    // The second openings of the borders carry no vertex: (3,1) is linked to
    // the west only.
    assert_eq!(maze.node(2).neighbors(), &[None, None, None, Some(1)]);
}

#[test]
fn junctions_and_dead_ends_get_vertices() {
    let maze = build(&[
        "#.#####",
        "#.....#",
        "#.#.#.#",
        "#.#.###",
        "#.#####",
    ]);
    // Row 1: (1,1) west end, (3,1) branch to the south, (5,1) east end.
    // Row 2: (1,2) passes through, (3,2) passes through, (5,2) dead end.
    // Row 3: (1,3) passes through, (3,3) dead end.
    let positions: Vec<(u32, u32)> = (0..maze.count()).map(|i| at(&maze, i)).collect();
    assert_eq!(positions, vec![(1, 0), (1, 1), (3, 1), (5, 1), (5, 2), (3, 3), (1, 4)]);
    assert_eq!(maze.node(1).neighbors(), &[Some(0), Some(2), Some(6), None]);
    assert_eq!(maze.node(2).neighbors(), &[None, Some(3), Some(5), Some(1)]);
    assert_eq!(maze.node(3).neighbors(), &[None, None, Some(4), Some(2)]);
    assert_eq!(maze.node(4).neighbors(), &[Some(3), None, None, None]);
    assert_eq!(maze.node(5).neighbors(), &[Some(2), None, None, None]);
    assert_eq!(maze.node(6).neighbors(), &[Some(1), None, None, None]);
}

#[test]
fn open_room_has_a_vertex_on_every_pixel() {
    let maze = build(&["#.###", "#...#", "#...#", "#...#", "###.#"]);
    assert_eq!(maze.count(), 11);
    // The middle of the room is linked on all four sides.
    let middle = (0..maze.count()).find(|&i| at(&maze, i) == (2, 2)).unwrap();
    let around: Vec<(u32, u32)> = maze
        .node(middle)
        .neighbors()
        .iter()
        .map(|n| at(&maze, n.unwrap()))
        .collect();
    assert_eq!(around, vec![(2, 1), (3, 2), (2, 3), (1, 2)]);
}

#[test]
fn links_are_symmetric() {
    let maze = build(&[
        "#####.#",
        "#.....#",
        "#.###.#",
        "#.#...#",
        "#.###.#",
        "#.....#",
        "#####.#",
    ]);
    for i in 0..maze.count() {
        let links = maze.node(i).neighbors();
        for d in 0..4 {
            if let Some(j) = links[d] {
                assert_eq!(maze.node(j).neighbors()[(d + 2) % 4], Some(i));
                let (p, q) = (at(&maze, i), at(&maze, j));
                match d {
                    0 => assert!(p.0 == q.0 && q.1 < p.1),
                    1 => assert!(p.1 == q.1 && q.0 > p.0),
                    2 => assert!(p.0 == q.0 && q.1 > p.1),
                    _ => assert!(p.1 == q.1 && q.0 < p.0),
                }
            }
        }
    }
}

#[test]
fn passable_border_columns_carry_no_vertex() {
    let maze = build(&["..#", "...", "..#"]);
    // Only column 1 is scanned: the corridor of row 1 starts there and is
    // still open at the border.
    assert_eq!(maze.count(), 3);
    assert_eq!(at(&maze, 1), (1, 1));
    assert_eq!(maze.node(1).neighbors(), &[Some(0), None, Some(2), None]);
}

#[test]
fn entry_above_a_wall_is_not_linked_to_the_exit() {
    let maze = build(&["#.###", "###.#", "#.###"]);
    assert_eq!(maze.count(), 3);
    assert_eq!(at(&maze, 1), (3, 1));
    assert_eq!(maze.node(maze.start()).neighbors(), &[None, None, None, None]);
    assert_eq!(maze.node(maze.end()).neighbors(), &[None, None, None, None]);
}

#[test]
fn single_row_has_entry_and_exit_on_one_pixel() {
    let maze = build(&["#.#.#"]);
    assert_eq!(maze.count(), 2);
    assert_eq!(at(&maze, maze.start()), (1, 0));
    assert_eq!(at(&maze, maze.end()), (1, 0));
    assert_eq!(maze.node(maze.start()).neighbors(), &[None, None, None, None]);
    assert_eq!(maze.node(maze.end()).neighbors(), &[None, None, None, None]);
}

#[test]
fn two_rows_link_entry_and_exit_in_one_column() {
    let maze = build(&["#.#", "#.#"]);
    assert_eq!(maze.count(), 2);
    assert_eq!(maze.node(0).south(), Some(1));
    assert_eq!(maze.node(1).north(), Some(0));
    let maze = build(&["#.##", "##.#"]);
    assert_eq!(maze.count(), 2);
    assert_eq!(maze.node(0).south(), None);
    assert_eq!(maze.node(1).north(), None);
}

#[test]
fn names_of_the_searches() {
    assert_eq!(get_algo("bfs").ok(), Some(Algorithm::Bfs));
    assert_eq!(get_algo("dfs").ok(), Some(Algorithm::Dfs));
    assert_eq!(get_algo("dijk").ok(), Some(Algorithm::Dijk));
    assert_eq!(get_algo("dijk2").ok(), Some(Algorithm::Dijk2));
    assert_eq!(get_algo("astar").ok(), Some(Algorithm::Astar));
}

#[test]
fn other_names_are_handed_back() {
    for name in ["", "BFS", "bfs ", "dijk3", "a*"] {
        match get_algo(name) {
            Ok(_) => panic!("{} is no search", name),
            Err(e) => {
                assert_eq!(e.0, name);
                assert_eq!(e.message(), format!("{} is not a valid algorithm.", name));
            }
        }
    }
}

#[test]
fn numbers_are_grouped_in_threes() {
    assert_eq!(fmt_num(""), "");
    assert_eq!(fmt_num("0"), "0");
    assert_eq!(fmt_num("12"), "12");
    assert_eq!(fmt_num("123"), "123");
    assert_eq!(fmt_num("1234"), "1,234");
    assert_eq!(fmt_num("12345"), "12,345");
    assert_eq!(fmt_num("123456"), "123,456");
    assert_eq!(fmt_num("1234567"), "1,234,567");
    assert_eq!(fmt_num("18446744073709551615"), "18,446,744,073,709,551,615");
}

#[test]
fn sign_and_fraction_stay_as_they_are() {
    assert_eq!(fmt_num("-1"), "-1");
    assert_eq!(fmt_num("-123"), "-123");
    assert_eq!(fmt_num("-1234"), "-1,234");
    assert_eq!(fmt_num("-123456789"), "-123,456,789");
    assert_eq!(fmt_num("1234.5678"), "1,234.5678");
    assert_eq!(fmt_num("-1234567.25"), "-1,234,567.25");
    assert_eq!(fmt_num("0.123456"), "0.123456");
    assert_eq!(fmt_num(".5"), ".5");
    assert_eq!(fmt_num("-"), "-");
    assert_eq!(fmt_num("1.2.3"), "1.2.3");
}

#[test]
fn file_name_of_a_solved_picture() {
    assert_eq!(solved_name("maze.png", "bfs"), "maze-bfs.png");
    assert_eq!(solved_name("maze", "dijk2"), "maze-dijk2.png");
    assert_eq!(solved_name("maze.small.bmp", "astar"), "maze-astar.png");
    assert_eq!(solved_name(".hidden", "dfs"), "-dfs.png");
    assert_eq!(solved_name("", ""), "-.png");
}

#[test]
fn strokes_run_along_a_row_or_a_column() {
    let pixels = |a: (u32, u32), b: (u32, u32)| -> Vec<(u32, u32)> {
        stroke(Position::new(a.0, a.1), Position::new(b.0, b.1))
            .iter()
            .map(|p| p.as_tuple())
            .collect()
    };
    assert_eq!(pixels((2, 5), (5, 5)), vec![(2, 5), (3, 5), (4, 5), (5, 5)]);
    assert_eq!(pixels((5, 5), (2, 5)), vec![(2, 5), (3, 5), (4, 5), (5, 5)]);
    assert_eq!(pixels((2, 5), (2, 7)), vec![(2, 5), (2, 6), (2, 7)]);
    assert_eq!(pixels((2, 7), (2, 5)), vec![(2, 5), (2, 6), (2, 7)]);
    assert_eq!(pixels((4, 4), (4, 4)), vec![(4, 4)]);
    // Positions that share neither row nor column: the column of the first.
    assert_eq!(pixels((1, 1), (3, 2)), vec![(1, 1), (1, 2)]);
    assert_eq!(
        pixels((u32::MAX - 1, 0), (u32::MAX, 0)),
        vec![(u32::MAX - 1, 0), (u32::MAX, 0)]
    );
}
