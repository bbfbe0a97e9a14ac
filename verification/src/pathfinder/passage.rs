//! Why a maze is solved whenever its picture is: a chain of passable pixels
//! from the entry to the exit gives a walk through the graph.

use vstd::prelude::*;
use crate::maze::grid::Grid;
use crate::maze::layout::{col_of, exact, row_of};
use crate::maze::node::{Position, EAST, NORTH, SOUTH, WEST};
use crate::maze::{lemma_same_bottom, lemma_same_top, Maze};
use crate::output::line;
use crate::pathfinder::routes::lemma_walk_push;

verus! {

impl Grid {
    /// The pixel at `(col, row)` may lie on a passage: it is passable and
    /// it lies in the interior, or it is one of the two openings.
    pub open spec fn on_course(&self, col: int, row: int) -> bool {
        &&& self.open(col, row)
        &&& {
            ||| 1 <= col < self.spec_width() - 1 && 1 <= row < self.spec_height() - 1
            ||| row == 0 && self.is_opening(0, col)
            ||| row == self.spec_height() - 1 && self.is_opening(row, col)
        }
    }

    /// `pixels` is a passage through the picture: a chain of passable
    /// pixels, each next to the one before it, that leads from the opening in
    /// the top border through the interior to the opening in the bottom
    /// border.
    pub open spec fn is_passage(&self, pixels: Seq<Position>) -> bool {
        &&& pixels.len() >= 1
        &&& pixels[0].row == 0
        &&& pixels[pixels.len() - 1].row == self.spec_height() - 1
        &&& forall|k: int|
            0 <= k < pixels.len() ==> self.on_course(
                (#[trigger] pixels[k]).col as int,
                pixels[k].row as int,
            )
        &&& forall|k: int|
            0 <= k < pixels.len() - 1 ==> (#[trigger] pixels[k]).distance(pixels[k + 1]) == 1
    }

    /// Between the columns `a` and `b` of `row`, in either order, every pixel
    /// is passable and none strictly between them carries a vertex.
    pub open spec fn clear_row(&self, row: int, a: int, b: int) -> bool {
        let lo = if a <= b {
            a
        } else {
            b
        };
        let hi = if a <= b {
            b
        } else {
            a
        };
        &&& self.run_east(row, lo, hi)
        &&& forall|c: int| lo < c < hi ==> !self.junction(c, row)
    }

    /// Between the rows `a` and `b` of `col`, in either order, every pixel is
    /// passable and none strictly between them carries a vertex.
    pub open spec fn clear_col(&self, col: int, a: int, b: int) -> bool {
        let lo = if a <= b {
            a
        } else {
            b
        };
        let hi = if a <= b {
            b
        } else {
            a
        };
        &&& self.run_south(col, lo, hi)
        &&& forall|r: int| lo < r < hi ==> !self.junction(col, r)
    }

    /// The vertex at `v` is the nearest one to the pixel `(col, row)` along
    /// its row or along its column, with nothing but passable pixels between.
    pub open spec fn attached(&self, v: Position, col: int, row: int) -> bool {
        ||| v.row == row && self.clear_row(row, v.col as int, col)
        ||| v.col == col && self.clear_col(col, v.row as int, row)
    }
}

impl Maze {
    /// Some vertex that can be reached from the entry is attached to the
    /// pixel `(col, row)`.
    pub open spec fn reaches(&self, grid: &Grid, col: int, row: int) -> bool {
        exists|i: int|
            0 <= i < self.nodes().len() && #[trigger] self.reachable(self.spec_start() as int, i)
                && grid.attached(self.position(i), col, row)
    }

    /// Some vertex that can be reached from the entry lies on the pixel
    /// `(col, row)`.
    pub open spec fn arrives_at(&self, col: int, row: int) -> bool {
        exists|i: int|
            0 <= i < self.nodes().len() && #[trigger] self.reachable(self.spec_start() as int, i)
                && self.position(i).col == col && self.position(i).row == row
    }
}

/// Every vertex lies on a pixel that carries one; the only vertex of the top
/// row is the entry, and the only one of the bottom row is the exit.
proof fn lemma_vertex_pixel(maze: &Maze, grid: &Grid, i: int)
    requires
        grid.wf(),
        maze.induced_by(grid),
        grid.spec_height() >= 2,
        0 <= i < maze.nodes().len(),
    ensures
        grid.vertex(maze.position(i).col as int, maze.position(i).row as int),
        maze.position(i).row == 0 ==> i == 0,
        maze.position(i).row == grid.spec_height() - 1 ==> i == maze.nodes().len() - 1,
        0 < i < maze.nodes().len() - 1 ==> grid.junction(
            maze.position(i).col as int,
            maze.position(i).row as int,
        ),
        1 <= maze.position(i).col < grid.spec_width() - 1,
{
    let nodes = maze.nodes();
    if 0 < i < nodes.len() - 1 {
        assert(grid.junction(col_of(nodes, i), row_of(nodes, i)));
    }
}

/// A vertex that is linked from a vertex within reach is within reach.
proof fn lemma_reach_on(maze: &Maze, i: int, j: int)
    requires
        maze.reachable(maze.spec_start() as int, i),
        maze.linked(i, j),
    ensures
        maze.reachable(maze.spec_start() as int, j),
{
    let walk = choose|walk: Seq<int>| maze.walks(walk, maze.spec_start() as int, i);
    lemma_walk_push(maze, walk, j);
    assert(maze.walks(walk.push(j), maze.spec_start() as int, j));
}

/// Two horizontal edges that start in the same vertex end in the same vertex.
proof fn lemma_same_east(grid: &Grid, row: int, from: int, a: int, b: int)
    requires
        grid.joins_east(row, from, a),
        grid.joins_east(row, from, b),
    ensures
        a == b,
{
}

/// Two horizontal edges that end in the same vertex start in the same vertex.
proof fn lemma_same_west(grid: &Grid, row: int, a: int, b: int, to: int)
    requires
        grid.joins_east(row, a, to),
        grid.joins_east(row, b, to),
    ensures
        a == b,
{
}

/// Where a vertex within reach is attached to a pixel that carries a vertex,
/// the vertex on that pixel is within reach.
proof fn lemma_arrive(maze: &Maze, grid: &Grid, col: int, row: int)
    requires
        grid.wf(),
        maze.wf(),
        maze.induced_by(grid),
        grid.spec_height() >= 2,
        grid.vertex(col, row),
        maze.reaches(grid, col, row),
    ensures
        maze.arrives_at(col, row),
{
    let nodes = maze.nodes();
    let start = maze.spec_start() as int;
    let i = choose|i: int|
        0 <= i < nodes.len() && #[trigger] maze.reachable(start, i) && grid.attached(
            maze.position(i),
            col,
            row,
        );
    let a = maze.position(i).col as int;
    let r = maze.position(i).row as int;
    lemma_vertex_pixel(maze, grid, i);
    assert(exact(grid, nodes, i));
    if a == col && r == row {
    } else if r == row && grid.clear_row(row, a, col) {
        // Along the row: both pixels are junctions.
        if row == 0 {
            assert(grid.is_opening(0, col));
            assert(grid.is_opening(0, a));
            assert(grid.open(col, 0) && grid.open(a, 0));
            assert(false);
        }
        if row == grid.spec_height() - 1 {
            assert(grid.is_opening(row, col));
            assert(grid.is_opening(row, a));
            assert(grid.open(col, row) && grid.open(a, row));
            assert(false);
        }
        if a < col {
            assert(grid.joins_east(row, a, col));
            match nodes[i].neighbors[EAST as int] {
                Some(j) => {
                    lemma_same_east(grid, row, a, col, col_of(nodes, j as int));
                    assert(maze.neighbor(i, EAST as int) == j);
                    assert(maze.linked(i, j as int));
                    lemma_reach_on(maze, i, j as int);
                },
                None => {
                    assert(!grid.joins_east(row, a, col));
                },
            }
        } else {
            assert(grid.joins_east(row, col, a));
            match nodes[i].neighbors[WEST as int] {
                Some(j) => {
                    lemma_same_west(grid, row, col, col_of(nodes, j as int), a);
                    assert(maze.neighbor(i, WEST as int) == j);
                    assert(maze.linked(i, j as int));
                    lemma_reach_on(maze, i, j as int);
                },
                None => {
                    assert(!grid.joins_east(row, col, a));
                },
            }
        }
    } else {
        assert(a == col && grid.clear_col(col, r, row));
        if r < row {
            assert(grid.joins_south(col, r, row));
            match nodes[i].neighbors[SOUTH as int] {
                Some(j) => {
                    lemma_same_bottom(grid, col, r, row, row_of(nodes, j as int));
                    assert(maze.neighbor(i, SOUTH as int) == j);
                    assert(maze.linked(i, j as int));
                    lemma_reach_on(maze, i, j as int);
                },
                None => {
                    assert(!grid.joins_south(col, r, row));
                },
            }
        } else {
            assert(grid.joins_south(col, row, r));
            match nodes[i].neighbors[NORTH as int] {
                Some(j) => {
                    lemma_same_top(grid, col, row, row_of(nodes, j as int), r);
                    assert(maze.neighbor(i, NORTH as int) == j);
                    assert(maze.linked(i, j as int));
                    lemma_reach_on(maze, i, j as int);
                },
                None => {
                    assert(!grid.joins_south(col, row, r));
                },
            }
        }
    }
}

/// From a pixel of a passage to the next: where a vertex within reach is
/// attached to the one, a vertex within reach is attached to the other.
proof fn lemma_pixel_step(maze: &Maze, grid: &Grid, p: Position, q: Position)
    requires
        grid.wf(),
        maze.wf(),
        maze.induced_by(grid),
        grid.spec_height() >= 2,
        grid.on_course(p.col as int, p.row as int),
        grid.on_course(q.col as int, q.row as int),
        p.distance(q) == 1,
        maze.reaches(grid, p.col as int, p.row as int),
    ensures
        maze.reaches(grid, q.col as int, q.row as int),
{
    let nodes = maze.nodes();
    let start = maze.spec_start() as int;
    let (x, y) = (p.col as int, p.row as int);
    let (u, v) = (q.col as int, q.row as int);
    if grid.vertex(x, y) {
        lemma_arrive(maze, grid, x, y);
        let i = choose|i: int|
            0 <= i < nodes.len() && #[trigger] maze.reachable(start, i) && maze.position(i).col
                == x && maze.position(i).row == y;
        assert(grid.attached(maze.position(i), u, v));
    } else {
        let i = choose|i: int|
            0 <= i < nodes.len() && #[trigger] maze.reachable(start, i) && grid.attached(
                maze.position(i),
                x,
                y,
            );
        let a = maze.position(i).col as int;
        let r = maze.position(i).row as int;
        lemma_vertex_pixel(maze, grid, i);
        assert(!grid.junction(x, y));
        if v == y {
            // A step along the row: the pixel lies in a horizontal corridor.
            assert(grid.open(x - 1, y) || grid.open(x + 1, y));
            assert(grid.west_open(x, y) && grid.open(x + 1, y));
            assert(!grid.open(x, y - 1) && !grid.open(x, y + 1));
            if a == x {
                if r < y {
                    assert(grid.open(x, y - 1));
                }
                if r > y {
                    assert(grid.open(x, y + 1));
                }
                assert(false);
            }
            assert(grid.clear_row(y, a, u));
        } else {
            // A step along the column: the pixel lies in a vertical passage.
            assert(grid.open(x, y - 1) || grid.open(x, y + 1));
            assert(!grid.west_open(x, y) && !grid.open(x + 1, y));
            assert(grid.open(x, y - 1) && grid.open(x, y + 1));
            if r == y {
                if a < x {
                    assert(grid.open(x - 1, y));
                }
                if a > x {
                    assert(grid.open(x + 1, y));
                }
                assert(false);
            }
            assert(grid.clear_col(x, r, v));
        }
        assert(grid.attached(maze.position(i), u, v));
    }
}

/// Along a passage a vertex within reach is attached to every pixel.
proof fn lemma_passage(maze: &Maze, grid: &Grid, pixels: Seq<Position>, k: int)
    requires
        grid.wf(),
        maze.wf(),
        maze.induced_by(grid),
        grid.spec_height() >= 2,
        grid.is_passage(pixels),
        0 <= k < pixels.len(),
    ensures
        maze.reaches(grid, pixels[k].col as int, pixels[k].row as int),
    decreases k,
{
    let start = maze.spec_start() as int;
    if k == 0 {
        assert(maze.walks(seq![start], start, start));
        assert(maze.reachable(start, start));
        assert(grid.on_course(pixels[0].col as int, pixels[0].row as int));
        assert(grid.is_opening(0, pixels[0].col as int));
        assert(grid.is_opening(0, maze.position(0).col as int));
        assert(grid.open(pixels[0].col as int, 0) && grid.open(maze.position(0).col as int, 0));
        assert(grid.attached(maze.position(start), pixels[0].col as int, pixels[0].row as int));
    } else {
        lemma_passage(maze, grid, pixels, k - 1);
        assert(pixels[k - 1].distance(pixels[k]) == 1);
        lemma_pixel_step(maze, grid, pixels[k - 1], pixels[k]);
    }
}

/// A picture with a passage from the opening in its top border through its
/// interior to the opening in its bottom border induces a maze whose exit can
/// be reached from its entry, so that every search finds a path.  This holds
/// of every picture of two rows or more.
pub proof fn law_passage_is_solved(maze: &Maze, grid: &Grid, pixels: Seq<Position>)
    requires
        grid.wf(),
        maze.wf(),
        maze.induced_by(grid),
        grid.spec_height() >= 2,
        grid.is_passage(pixels),
    ensures
        maze.reachable(maze.spec_start() as int, maze.spec_end() as int),
        maze.can_arrive(),
{
    let nodes = maze.nodes();
    let start = maze.spec_start() as int;
    let last = pixels[pixels.len() - 1];
    lemma_passage(maze, grid, pixels, pixels.len() - 1);
    assert(grid.on_course(last.col as int, last.row as int));
    assert(grid.vertex(last.col as int, last.row as int));
    lemma_arrive(maze, grid, last.col as int, last.row as int);
    let i = choose|i: int|
        0 <= i < nodes.len() && #[trigger] maze.reachable(start, i) && maze.position(i).col
            == last.col && maze.position(i).row == last.row;
    lemma_vertex_pixel(maze, grid, i);
    let walk = choose|walk: Seq<int>| maze.walks(walk, start, i);
    assert(maze.arrives(walk));
}


/// Every link runs through passable pixels only: the pixels on the line
/// between two linked vertices, which is what is painted for a step of a
/// path, are all passable.
pub proof fn law_link_is_passable(maze: &Maze, grid: &Grid, a: int, d: int, k: int)
    requires
        grid.wf(),
        maze.wf(),
        maze.induced_by(grid),
        0 <= a < maze.nodes().len(),
        0 <= d < 4,
        maze.neighbor(a, d) >= 0,
        0 <= k < line(maze.position(a), maze.position(maze.neighbor(a, d))).len(),
    ensures
        grid.open(
            line(maze.position(a), maze.position(maze.neighbor(a, d)))[k].col as int,
            line(maze.position(a), maze.position(maze.neighbor(a, d)))[k].row as int,
        ),
{
    let nodes = maze.nodes();
    let b = maze.neighbor(a, d);
    assert(maze.link_ok(a, d));
    assert(exact(grid, nodes, a));
    let (pa, pb) = (maze.position(a), maze.position(b));
    if d == EAST {
        assert(grid.joins_east(pa.row as int, pa.col as int, pb.col as int));
    } else if d == WEST {
        assert(grid.joins_east(pa.row as int, pb.col as int, pa.col as int));
    } else if d == SOUTH {
        assert(grid.joins_south(pa.col as int, pa.row as int, pb.row as int));
    } else {
        assert(grid.joins_south(pa.col as int, pb.row as int, pa.row as int));
    }
}

} // verus!
