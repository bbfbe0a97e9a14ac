//! Which pixels of a grid carry a vertex, which vertices a corridor joins,
//! and with that the graph that a grid induces.

use vstd::prelude::*;
use crate::maze::grid::Grid;
use crate::maze::node::{Node, Position, EAST, NORTH, SOUTH, WEST};

verus! {

impl Grid {
    /// `col` is the first passable pixel of `row`, the corner columns left out.
    pub open spec fn is_opening(&self, row: int, col: int) -> bool {
        &&& 1 <= col < self.spec_width() - 1
        &&& self.open(col, row)
        &&& forall|c: int| 1 <= c < col ==> !self.open(c, row)
    }

    /// `row` has a passable pixel outside its corners.
    pub open spec fn has_opening(&self, row: int) -> bool {
        exists|c: int| 1 <= c < self.spec_width() - 1 && self.open(c, row)
    }

    /// Whether the pixel west of `(col, row)` continues a corridor into it.
    /// The scan of a row starts in column 1 with nothing behind it, so the
    /// border column never does.
    pub open spec fn west_open(&self, col: int, row: int) -> bool {
        col >= 2 && self.open(col - 1, row)
    }

    /// The interior pixels that carry a vertex: the ends of a horizontal
    /// corridor, the pixels of one from which a vertical passage branches
    /// off, and the pixels closed on both sides that are a dead end.
    pub open spec fn junction(&self, col: int, row: int) -> bool {
        let west = self.west_open(col, row);
        let east = self.open(col + 1, row);
        let north = self.open(col, row - 1);
        let south = self.open(col, row + 1);
        &&& 1 <= col < self.spec_width() - 1
        &&& 1 <= row < self.spec_height() - 1
        &&& self.open(col, row)
        &&& if west && east {
            north || south
        } else if west || east {
            true
        } else {
            !north || !south
        }
    }

    /// The pixels that carry a vertex: the junctions and the two openings.
    pub open spec fn vertex(&self, col: int, row: int) -> bool {
        ||| self.junction(col, row)
        ||| row == 0 && self.is_opening(0, col)
        ||| row == self.spec_height() - 1 && self.is_opening(row, col)
    }

    /// Every pixel of `row` from column `from` to column `to` is passable.
    pub open spec fn run_east(&self, row: int, from: int, to: int) -> bool {
        forall|c: int| from <= c <= to ==> self.open(c, row)
    }

    /// Every pixel of `col` from row `from` to row `to` is passable.
    pub open spec fn run_south(&self, col: int, from: int, to: int) -> bool {
        forall|r: int| from <= r <= to ==> self.open(col, r)
    }

    /// The junctions at columns `from` and `to` of `row` are the two ends of
    /// one horizontal edge: the pixels between them are passable and none of
    /// them carries a vertex.
    pub open spec fn joins_east(&self, row: int, from: int, to: int) -> bool {
        &&& from < to
        &&& self.junction(from, row)
        &&& self.junction(to, row)
        &&& self.run_east(row, from, to)
        &&& forall|c: int| from < c < to ==> !self.junction(c, row)
    }

    /// The vertices at rows `from` and `to` of `col` are the two ends of one
    /// vertical edge.
    pub open spec fn joins_south(&self, col: int, from: int, to: int) -> bool {
        &&& from < to
        &&& self.vertex(col, from)
        &&& self.vertex(col, to)
        &&& self.run_south(col, from, to)
        &&& forall|r: int| from < r < to ==> !self.junction(col, r)
    }
}

/// `p` comes before `q` where the rows are read one after the other, each
/// from west to east.
pub open spec fn scan_order(p: Position, q: Position) -> bool {
    p.row < q.row || (p.row == q.row && p.col < q.col)
}

/// One of the vertices `1 .. limit` lies at `(c, r)`.
pub open spec fn has_vertex(nodes: Seq<Node>, limit: int, c: int, r: int) -> bool {
    exists|i: int|
        1 <= i < limit && (#[trigger] nodes[i]).position.col == c && nodes[i].position.row == r
}

/// The column of vertex `i`.
pub open spec fn col_of(nodes: Seq<Node>, i: int) -> int {
    nodes[i].position.col as int
}

/// The row of vertex `i`.
pub open spec fn row_of(nodes: Seq<Node>, i: int) -> int {
    nodes[i].position.row as int
}

/// The link of vertex `i` to the north is the one the grid asks for.
pub open spec fn north_exact(grid: &Grid, nodes: Seq<Node>, i: int) -> bool {
    match nodes[i].neighbors[NORTH as int] {
        Some(j) => j < nodes.len() && col_of(nodes, j as int) == col_of(nodes, i)
            && grid.joins_south(col_of(nodes, i), row_of(nodes, j as int), row_of(nodes, i)),
        None => forall|a: int| !#[trigger] grid.joins_south(col_of(nodes, i), a, row_of(nodes, i)),
    }
}

/// The link of vertex `i` to the west is the one the grid asks for.
pub open spec fn west_exact(grid: &Grid, nodes: Seq<Node>, i: int) -> bool {
    match nodes[i].neighbors[WEST as int] {
        Some(j) => j < nodes.len() && row_of(nodes, j as int) == row_of(nodes, i)
            && grid.joins_east(row_of(nodes, i), col_of(nodes, j as int), col_of(nodes, i)),
        None => forall|a: int| !#[trigger] grid.joins_east(row_of(nodes, i), a, col_of(nodes, i)),
    }
}

/// The link of vertex `i` to the east is the one the grid asks for.
pub open spec fn east_exact(grid: &Grid, nodes: Seq<Node>, i: int) -> bool {
    match nodes[i].neighbors[EAST as int] {
        Some(j) => j < nodes.len() && row_of(nodes, j as int) == row_of(nodes, i)
            && grid.joins_east(row_of(nodes, i), col_of(nodes, i), col_of(nodes, j as int)),
        None => forall|b: int| !#[trigger] grid.joins_east(row_of(nodes, i), col_of(nodes, i), b),
    }
}

/// The link of vertex `i` to the south is the one the grid asks for.
pub open spec fn south_exact(grid: &Grid, nodes: Seq<Node>, i: int) -> bool {
    match nodes[i].neighbors[SOUTH as int] {
        Some(j) => j < nodes.len() && col_of(nodes, j as int) == col_of(nodes, i)
            && grid.joins_south(col_of(nodes, i), row_of(nodes, i), row_of(nodes, j as int)),
        None => forall|b: int| !#[trigger] grid.joins_south(col_of(nodes, i), row_of(nodes, i), b),
    }
}

/// All four links of vertex `i` are the ones the grid asks for.
pub open spec fn exact(grid: &Grid, nodes: Seq<Node>, i: int) -> bool {
    &&& north_exact(grid, nodes, i)
    &&& east_exact(grid, nodes, i)
    &&& south_exact(grid, nodes, i)
    &&& west_exact(grid, nodes, i)
}

/// `nodes` is the graph that `grid` induces.  The first vertex is the entry,
/// on the first passable pixel of the top border; the last is the exit, on the
/// first passable pixel of the bottom border; between them stand the
/// junctions of the interior, each once, row by row and west to east; and two
/// vertices are linked exactly where a corridor without a vertex in it joins
/// them.
pub open spec fn induces(grid: &Grid, nodes: Seq<Node>) -> bool {
    let n = nodes.len() as int;
    &&& n >= 2
    &&& nodes[0].position.row == 0
    &&& grid.is_opening(0, col_of(nodes, 0))
    &&& nodes[n - 1].position.row == grid.spec_height() - 1
    &&& grid.is_opening(grid.spec_height() - 1, col_of(nodes, n - 1))
    &&& forall|i: int| 0 < i < n - 1 ==> grid.junction(#[trigger] col_of(nodes, i), row_of(nodes, i))
    &&& forall|c: int, r: int| #[trigger] grid.junction(c, r) ==> has_vertex(nodes, n - 1, c, r)
    &&& forall|i: int, j: int|
        0 < i < j < n - 1 ==> scan_order((#[trigger] nodes[i]).position, (#[trigger] nodes[j]).position)
    &&& forall|i: int| 0 <= i < n ==> #[trigger] exact(grid, nodes, i)
}

} // verus!
