//! Grid coordinates and graph vertices.

use vstd::prelude::*;

verus! {

/// A pixel coordinate: column and row, counted from the top left corner.
#[derive(Default, Debug, Clone, Copy, PartialEq, Eq, Hash, Structural)]
pub struct Position {
    pub col: u32,
    pub row: u32,
}

impl Position {
    pub fn new(col: u32, row: u32) -> (p: Position)
        ensures
            p == (Position { col, row }),
    {
        Position { col, row }
    }

    pub fn col(&self) -> (c: u32)
        ensures
            c == self.col,
    {
        self.col
    }

    pub fn row(&self) -> (r: u32)
        ensures
            r == self.row,
    {
        self.row
    }

    pub fn as_tuple(&self) -> (t: (u32, u32))
        ensures
            t == (self.col, self.row),
    {
        (self.col, self.row)
    }

    /// The Manhattan distance to `other`: the cost of a straight corridor run
    /// between the two pixels.
    pub open spec fn distance(self, other: Position) -> int {
        (if self.col >= other.col {
            self.col - other.col
        } else {
            other.col - self.col
        }) + (if self.row >= other.row {
            self.row - other.row
        } else {
            other.row - self.row
        })
    }

    /// Computes the Manhattan distance to `other`.
    pub fn distance_to(&self, other: &Position) -> (d: i64)
        ensures
            d == self.distance(*other),
            0 <= d <= 2 * (u32::MAX as int),
    {
        let dc: u32 = if self.col >= other.col {
            self.col - other.col
        } else {
            other.col - self.col
        };
        let dr: u32 = if self.row >= other.row {
            self.row - other.row
        } else {
            other.row - self.row
        };
        dc as i64 + dr as i64
    }
}

/// The four directions in which a vertex can be linked, in the order in which
/// the searches enumerate neighbours.
pub const NORTH: usize = 0;

pub const EAST: usize = 1;

pub const SOUTH: usize = 2;

pub const WEST: usize = 3;

/// A graph vertex: a position and up to four links, each the handle of
/// another vertex of the same maze.
#[derive(Default, Debug, Clone, Copy, PartialEq, Eq)]
pub struct Node {
    pub position: Position,
    /// Indexed by `NORTH`, `EAST`, `SOUTH`, `WEST`.
    pub neighbors: [Option<usize>; 4],
}

impl Node {
    /// A vertex at `(col, row)` without links.
    pub fn new(col: u32, row: u32) -> (n: Node)
        ensures
            n.position == (Position { col, row }),
            forall|d: int| 0 <= d < 4 ==> n.neighbors[d] == None::<usize>,
    {
        Node { position: Position::new(col, row), neighbors: [None, None, None, None] }
    }

    pub fn col(&self) -> (c: u32)
        ensures
            c == self.position.col,
    {
        self.position.col
    }

    pub fn row(&self) -> (r: u32)
        ensures
            r == self.position.row,
    {
        self.position.row
    }

    pub fn position(&self) -> (p: Position)
        ensures
            p == self.position,
    {
        self.position
    }

    pub fn north(&self) -> (n: Option<usize>)
        ensures
            n == self.neighbors[NORTH as int],
    {
        self.neighbors[NORTH]
    }

    pub fn south(&self) -> (n: Option<usize>)
        ensures
            n == self.neighbors[SOUTH as int],
    {
        self.neighbors[SOUTH]
    }

    pub fn east(&self) -> (n: Option<usize>)
        ensures
            n == self.neighbors[EAST as int],
    {
        self.neighbors[EAST]
    }

    pub fn west(&self) -> (n: Option<usize>)
        ensures
            n == self.neighbors[WEST as int],
    {
        self.neighbors[WEST]
    }

    pub fn set_north(&mut self, neighbor: usize)
        ensures
            final(self).position == old(self).position,
            final(self).neighbors@ == old(self).neighbors@.update(NORTH as int, Some(neighbor)),
    {
        self.neighbors[NORTH] = Some(neighbor);
    }

    pub fn set_south(&mut self, neighbor: usize)
        ensures
            final(self).position == old(self).position,
            final(self).neighbors@ == old(self).neighbors@.update(SOUTH as int, Some(neighbor)),
    {
        self.neighbors[SOUTH] = Some(neighbor);
    }

    pub fn set_east(&mut self, neighbor: usize)
        ensures
            final(self).position == old(self).position,
            final(self).neighbors@ == old(self).neighbors@.update(EAST as int, Some(neighbor)),
    {
        self.neighbors[EAST] = Some(neighbor);
    }

    pub fn set_west(&mut self, neighbor: usize)
        ensures
            final(self).position == old(self).position,
            final(self).neighbors@ == old(self).neighbors@.update(WEST as int, Some(neighbor)),
    {
        self.neighbors[WEST] = Some(neighbor);
    }

    /// The four links, in the order north, east, south, west.
    pub fn neighbors(&self) -> (n: &[Option<usize>; 4])
        ensures
            *n == self.neighbors,
    {
        &self.neighbors
    }
}

} // verus!
