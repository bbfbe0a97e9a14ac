//! The maze graph and its construction from a pixel grid.

pub mod errors;
pub mod grid;
pub mod layout;
pub mod node;
mod scan;

use vstd::prelude::*;
use std::collections::HashMap;
use crate::maze::errors::MazeError;
use crate::maze::grid::Grid;
use crate::maze::node::{Node, Position, EAST, NORTH, SOUTH, WEST};
use crate::maze::layout::{col_of, exact, induces, row_of, scan_order};
use crate::maze::scan::{
    frontier_after, frontier_ok, left_after, left_ok, lemma_finish, lemma_next_row, lemma_place,
    lemma_skip, lemma_start, scan_inv, vertex_added, west_link,
};

verus! {

broadcast use vstd::std_specs::hash::group_hash_axioms;

/// The direction opposite to `d`.
pub open spec fn opposite(d: int) -> int {
    (d + 2) % 4
}

/// `q` lies straight from `p` in direction `d`, at another pixel.
pub open spec fn toward(d: int, p: Position, q: Position) -> bool {
    if d == NORTH {
        q.col == p.col && q.row < p.row
    } else if d == EAST {
        q.row == p.row && q.col > p.col
    } else if d == SOUTH {
        q.col == p.col && q.row > p.row
    } else {
        q.row == p.row && q.col < p.col
    }
}

/// A maze: the vertices of the graph that a grid induces, held in one arena
/// and named by their index in it, with the handles of the entry and of the
/// exit.
#[derive(Debug, Clone)]
pub struct Maze {
    width: u32,
    height: u32,
    count: usize,
    start: usize,
    end: usize,
    nodes: Vec<Node>,
}

impl Maze {
    /// The vertices, in the order of their handles.
    pub closed spec fn nodes(&self) -> Seq<Node> {
        self.nodes@
    }

    pub closed spec fn spec_width(&self) -> u32 {
        self.width
    }

    pub closed spec fn spec_height(&self) -> u32 {
        self.height
    }

    pub closed spec fn spec_count(&self) -> usize {
        self.count
    }

    pub closed spec fn spec_start(&self) -> usize {
        self.start
    }

    pub closed spec fn spec_end(&self) -> usize {
        self.end
    }

    /// The position of vertex `i`.
    pub open spec fn position(&self, i: int) -> Position {
        self.nodes()[i].position
    }

    /// The link of vertex `i` in direction `d`, if it has one, leads to
    /// another vertex of this maze that lies straight in that direction and
    /// links back.
    pub open spec fn link_ok(&self, i: int, d: int) -> bool {
        self.nodes()[i].neighbors[d] matches Some(j) ==> {
            &&& j < self.nodes().len()
            &&& self.nodes()[j as int].neighbors[opposite(d)] == Some(i as usize)
            &&& toward(d, self.position(i), self.position(j as int))
        }
    }

    /// The structure that every search relies on: the handles are in range,
    /// links are symmetric and run along a row or a column, the vertices lie
    /// inside the picture, and the picture is small enough for the counters
    /// of a search.
    pub open spec fn wf(&self) -> bool {
        let n = self.nodes().len();
        &&& self.spec_count() == n
        &&& self.spec_start() < n
        &&& self.spec_end() < n
        &&& 4 * n + 1 <= usize::MAX
        &&& (n + 1) * (self.spec_width() + self.spec_height()) <= i64::MAX
        &&& forall|i: int|
            0 <= i < n ==> (#[trigger] self.nodes()[i]).position.col < self.spec_width()
                && self.nodes()[i].position.row < self.spec_height()
        &&& forall|i: int, d: int| 0 <= i < n && 0 <= d < 4 ==> #[trigger] self.link_ok(i, d)
    }

    /// No two vertices lie on the same pixel.
    pub open spec fn distinct(&self) -> bool {
        forall|i: int, j: int|
            0 <= i < self.nodes().len() && 0 <= j < self.nodes().len() && (
            #[trigger] self.nodes()[i]).position == (#[trigger] self.nodes()[j]).position ==> i
                == j
    }

    /// This maze is the graph that `grid` induces, with the entry as its
    /// first vertex and the exit as its last.
    pub open spec fn induced_by(&self, grid: &Grid) -> bool {
        &&& self.spec_width() == grid.spec_width()
        &&& self.spec_height() == grid.spec_height()
        &&& self.spec_count() == self.nodes().len()
        &&& self.spec_start() == 0
        &&& self.spec_end() == self.nodes().len() - 1
        &&& induces(grid, self.nodes())
    }

    /// Builds the maze that `grid` induces, in one pass over its pixels: the
    /// top border for the entry, the interior row by row for the junctions,
    /// the bottom border for the exit.  A rolling left vertex links the
    /// vertices of a row, and a frontier with the lowest open vertex of each
    /// column links the vertices of a column.
    ///
    /// Fails with `NoStartError` when the top border has no passable pixel
    /// outside its corners, and with `NoExitError` when the top border has
    /// one and the bottom border has none.
    pub fn new(grid: &Grid) -> (built: Result<Maze, MazeError>)
        requires
            grid.wf(),
        ensures
            built == Err::<Maze, MazeError>(MazeError::NoStartError) <==> !grid.has_opening(0),
            built == Err::<Maze, MazeError>(MazeError::NoExitError) <==> grid.has_opening(0)
                && !grid.has_opening(grid.spec_height() - 1),
            built matches Ok(maze) ==> maze.induced_by(grid) && maze.wf(),
            built matches Ok(maze) ==> (grid.spec_height() >= 2 ==> maze.distinct()),
    {
        let width = grid.width();
        let height = grid.height();

        let mut nodes: Vec<Node> = Vec::new();
        let mut top_nodes: HashMap<u32, usize> = HashMap::new();
        let mut count: usize = 0;

        // find start
        let sx = match opening(grid, 0) {
            Some(x) => x,
            None => {
                return Err(MazeError::NoStartError);
            },
        };
        nodes.push(Node::new(sx, 0));
        // The entry waits in the frontier only if the passage goes on below it.
        if height >= 2 && grid.is_open(sx, 1) {
            top_nodes.insert(sx, 0);
        }
        count += 1;
        proof {
            assert(grid.open(sx as int, 0int));
            lemma_start(grid, nodes@, top_nodes@);
            lemma_room(width as int, height as int, 1, 1);
        }

        let mut y: u32 = 1;
        while y < height - 1
            invariant
                grid.wf(),
                width == grid.spec_width(),
                height == grid.spec_height(),
                width >= 3,
                1 <= y,
                height >= 2 ==> y <= height - 1,
                height < 2 ==> y == 1,
                scan_inv(grid, nodes@, top_nodes@, None, 1, y as int),
                count == nodes.len(),
                nodes.len() <= 1 + (y - 1) * (width - 2),
            decreases height - y,
        {
            // track if adjacent horizontal pixels are a path
            let mut cur = false;
            let mut nxt = grid.is_open(1, y);
            let mut left_node: Option<usize> = None;

            let mut x: u32 = 1;
            while x < width - 1
                invariant
                    grid.wf(),
                    width == grid.spec_width(),
                    height == grid.spec_height(),
                    width >= 3,
                    1 <= x <= width - 1,
                    1 <= y < height - 1,
                    cur == grid.west_open(x as int, y as int),
                    nxt == grid.open(x as int, y as int),
                    scan_inv(grid, nodes@, top_nodes@, left_node, x as int, y as int),
                    count == nodes.len(),
                    nodes.len() <= 1 + (y - 1) * (width - 2) + (x - 1),
                decreases width - x,
            {
                let prv = cur;
                cur = nxt;
                nxt = grid.is_open(x + 1, y);
                proof {
                    lemma_room(width as int, height as int, x as int, y as int);
                }
                if cur {
                    left_node =
                    place(grid, &mut nodes, &mut top_nodes, &mut count, left_node, x, y, prv, nxt);
                } else {
                    // on wall
                    proof {
                        lemma_skip(grid, nodes@, top_nodes@, left_node, x as int, y as int);
                    }
                }
                x += 1;
            }
            proof {
                lemma_next_row(grid, nodes@, top_nodes@, left_node, y as int);
                assert((y - 1) * (width - 2) + (width - 2) == y * (width - 2)) by (nonlinear_arith);
            }
            y += 1;
        }

        // last row
        let ex = match opening(grid, height - 1) {
            Some(x) => x,
            None => {
                return Err(MazeError::NoExitError);
            },
        };
        let ghost before = nodes@;
        proof {
            if height >= 2 {
                lemma_room(width as int, height as int, 1, height - 1);
            }
        }
        let end = add_vertex(&mut nodes, ex, height - 1, None);
        let top = match top_nodes.get(&ex) {
            Some(tn) => Some(*tn),
            None => None,
        };
        if let Some(tn) = top {
            proof {
                assert(frontier_ok(grid, before, top_nodes@, 1, y as int, ex));
            }
            hang_below(&mut nodes, tn, Ghost(before), Ghost(None));
        }
        assert(nodes.len() == before.len() + 1);
        count += 1;
        proof {
            lemma_finish(grid, before, top_nodes@, y as int, nodes@, ex as int);
        }

        let maze = Maze { width, height, count, start: 0, end, nodes };
        proof {
            assert((nodes.len() as int) < width * height) by (nonlinear_arith)
                requires
                    nodes.len() <= 2 + (y - 1) * (width - 2),
                    width >= 3,
                    height >= 1,
                    1 <= y,
                    height >= 2 ==> y <= height - 1,
                    height < 2 ==> y == 1,
            ;
            lemma_induced_wf(maze, grid);
            if height >= 2 {
                assert forall|i: int, j: int|
                    0 <= i < maze.nodes().len() && 0 <= j < maze.nodes().len() && (
                    #[trigger] maze.nodes()[i]).position == (
                    #[trigger] maze.nodes()[j]).position implies i == j by {
                    lemma_distinct(grid, maze.nodes(), i, j);
                }
            }
        }
        Ok(maze)
    }

    #[verifier::when_used_as_spec(spec_width)]
    pub fn width(&self) -> (w: u32)
        ensures
            w == self.spec_width(),
    {
        self.width
    }

    #[verifier::when_used_as_spec(spec_height)]
    pub fn height(&self) -> (h: u32)
        ensures
            h == self.spec_height(),
    {
        self.height
    }

    /// The number of vertices.
    #[verifier::when_used_as_spec(spec_count)]
    pub fn count(&self) -> (c: usize)
        ensures
            c == self.spec_count(),
    {
        self.count
    }

    /// The handle of the entry.
    #[verifier::when_used_as_spec(spec_start)]
    pub fn start(&self) -> (s: usize)
        ensures
            s == self.spec_start(),
    {
        self.start
    }

    /// The handle of the exit.
    #[verifier::when_used_as_spec(spec_end)]
    pub fn end(&self) -> (e: usize)
        ensures
            e == self.spec_end(),
    {
        self.end
    }

    /// The vertex behind a handle.
    pub fn node(&self, handle: usize) -> (n: &Node)
        requires
            handle < self.nodes().len(),
        ensures
            *n == self.nodes()[handle as int],
    {
        &self.nodes[handle]
    }
}


/// The first passable pixel of `row`, the corner columns left out.
fn opening(grid: &Grid, row: u32) -> (found: Option<u32>)
    requires
        grid.wf(),
        row < grid.spec_height(),
    ensures
        found matches Some(c) ==> grid.is_opening(row as int, c as int),
        found is None ==> !grid.has_opening(row as int),
{
    let width = grid.width();
    let mut x: u32 = 1;
    while x < width - 1
        invariant
            grid.wf(),
            row < grid.spec_height(),
            width == grid.spec_width(),
            1 <= x,
            forall|c: int| 1 <= c < x ==> !grid.open(c, row as int),
        decreases width - x,
    {
        if grid.is_open(x, row) {
            return Some(x);
        }
        x += 1;
    }
    None
}

/// Adds a vertex at `(x, y)` and links it east-west to `west`, if there is
/// one.  Returns its handle.
fn add_vertex(nodes: &mut Vec<Node>, x: u32, y: u32, west: Option<usize>) -> (new: usize)
    requires
        west matches Some(l) ==> l < old(nodes).len(),
    ensures
        new == old(nodes).len(),
        vertex_added(old(nodes)@, final(nodes)@, x as int, y as int, west, None),
{
    let new = nodes.len();
    nodes.push(Node::new(x, y));
    if let Some(l) = west {
        nodes[l].set_east(new);
        nodes[new].set_west(l);
    }
    new
}

/// Links the vertex created last north-south to `north`.
fn hang_below(nodes: &mut Vec<Node>, north: usize, Ghost(before): Ghost<Seq<Node>>, Ghost(west): Ghost<Option<usize>>)
    requires
        old(nodes).len() == before.len() + 1,
        north < before.len(),
        vertex_added(
            before,
            old(nodes)@,
            old(nodes)[before.len() as int].position.col as int,
            old(nodes)[before.len() as int].position.row as int,
            west,
            None,
        ),
    ensures
        vertex_added(
            before,
            final(nodes)@,
            old(nodes)[before.len() as int].position.col as int,
            old(nodes)[before.len() as int].position.row as int,
            west,
            Some(north),
        ),
{
    let new = nodes.len() - 1;
    nodes[north].set_south(new);
    nodes[new].set_north(north);
}


/// Visits the passable interior pixel `(x, y)`: decides from its four
/// neighbours whether it carries a vertex, and if so creates the vertex,
/// links it to the rolling left vertex and to the frontier entry of its
/// column, and brings the frontier up to date.  Returns the rolling left
/// vertex for the next pixel.
fn place(
    grid: &Grid,
    nodes: &mut Vec<Node>,
    frontier: &mut HashMap<u32, usize>,
    count: &mut usize,
    left: Option<usize>,
    x: u32,
    y: u32,
    prv: bool,
    nxt: bool,
) -> (next: Option<usize>)
    requires
        grid.wf(),
        scan_inv(grid, old(nodes)@, old(frontier)@, left, x as int, y as int),
        x < grid.spec_width() - 1,
        y < grid.spec_height() - 1,
        grid.open(x as int, y as int),
        prv == grid.west_open(x as int, y as int),
        nxt == grid.open(x + 1, y as int),
        *old(count) == old(nodes).len(),
        old(nodes).len() < usize::MAX,
    ensures
        scan_inv(grid, final(nodes)@, final(frontier)@, next, x + 1, y as int),
        *final(count) == final(nodes).len(),
        old(nodes).len() <= final(nodes).len() <= old(nodes).len() + 1,
{
    let above = grid.is_open(x, y - 1);
    let below = grid.is_open(x, y + 1);
    let ghost before = nodes@;
    let ghost frontier_before = frontier@;
    proof {
        assert(left_ok(grid, before, left, x as int, y as int));
    }
    let mut left_node = left;
    let mut n: Option<usize> = None;
    if prv {
        if nxt {
            // A corridor runs through: a vertex only where a passage
            // branches off.
            if above || below {
                let new = add_vertex(nodes, x, y, left_node);
                left_node = Some(new);
                n = Some(new);
            }
        } else {
            // The east end of a corridor.
            let new = add_vertex(nodes, x, y, left_node);
            left_node = None;
            n = Some(new);
        }
    } else {
        if nxt {
            // The west end of a corridor.
            let new = add_vertex(nodes, x, y, None);
            left_node = Some(new);
            n = Some(new);
        } else {
            // Closed on both sides: a vertex only at a dead end.
            if !above || !below {
                let new = add_vertex(nodes, x, y, None);
                n = Some(new);
            }
        }
    }
    if let Some(node) = n {
        if above {
            let top = match frontier.get(&x) {
                Some(tn) => Some(*tn),
                None => None,
            };
            if let Some(tn) = top {
                proof {
                    assert(frontier_ok(grid, before, frontier_before, x as int, y as int, x));
                }
                hang_below(nodes, tn, Ghost(before), Ghost(west_link(grid, left, x as int, y as int)));
            }
        }
        if below {
            frontier.insert(x, node);
        } else {
            frontier.remove(&x);
        }
        *count += 1;
        proof {
            assert(grid.junction(x as int, y as int));
            assert(frontier@ == frontier_after(grid, frontier_before, x as int, y as int, node));
            assert(left_node == left_after(grid, x as int, y as int, node));
            lemma_place(grid, before, frontier_before, left, x as int, y as int, nodes@);
        }
    } else {
        proof {
            assert(!grid.junction(x as int, y as int));
            lemma_skip(grid, before, frontier_before, left, x as int, y as int);
        }
    }
    left_node
}


/// While the pass is at the interior pixel `(x, y)`, fewer vertices exist
/// than the counters of a maze can hold.
proof fn lemma_room(width: int, height: int, x: int, y: int)
    requires
        Grid::fits(width, height),
        3 <= width,
        1 <= height,
        1 <= x <= width - 1,
        1 <= y,
        2 <= height ==> y <= height - 1,
        height < 2 ==> y == 1 && x == 1,
    ensures
        1 + (y - 1) * (width - 2) + (x - 1) < usize::MAX,
{
    assert(1 + (y - 1) * (width - 2) + (x - 1) <= width * height) by (nonlinear_arith)
        requires
            3 <= width,
            1 <= height,
            1 <= x <= width - 1,
            1 <= y,
            2 <= height ==> y <= height - 1,
            height < 2 ==> y == 1 && x == 1,
    ;
}

/// Two vertices of an induced graph lie on different pixels, unless the grid
/// has a single row, in which the entry and the exit share one.
pub proof fn lemma_distinct(grid: &Grid, nodes: Seq<Node>, i: int, k: int)
    requires
        grid.wf(),
        induces(grid, nodes),
        grid.spec_height() >= 2,
        0 <= i < nodes.len(),
        0 <= k < nodes.len(),
        nodes[i].position == nodes[k].position,
    ensures
        i == k,
{
    let n = nodes.len() as int;
    if 0 < i < n - 1 {
        assert(grid.junction(col_of(nodes, i), row_of(nodes, i)));
    }
    if 0 < k < n - 1 {
        assert(grid.junction(col_of(nodes, k), row_of(nodes, k)));
    }
    if 0 < i < k < n - 1 {
        assert(scan_order(nodes[i].position, nodes[k].position));
    }
    if 0 < k < i < n - 1 {
        assert(scan_order(nodes[k].position, nodes[i].position));
    }
}

/// A vertex on a junction is neither the entry nor the exit.
proof fn lemma_junction_vertex(grid: &Grid, nodes: Seq<Node>, i: int)
    requires
        grid.wf(),
        induces(grid, nodes),
        0 <= i < nodes.len(),
        grid.junction(col_of(nodes, i), row_of(nodes, i)),
    ensures
        0 < i < nodes.len() - 1,
        grid.spec_height() >= 3,
{
}

/// In an induced graph every link has its counterpart and runs straight.
proof fn lemma_link_ok(grid: &Grid, nodes: Seq<Node>, i: int, d: int)
    requires
        grid.wf(),
        induces(grid, nodes),
        0 <= i < nodes.len(),
        0 <= d < 4,
    ensures
        nodes[i].neighbors[d] matches Some(j) ==> {
            &&& j < nodes.len()
            &&& nodes[j as int].neighbors[opposite(d)] == Some(i as usize)
            &&& toward(d, nodes[i].position, nodes[j as int].position)
        },
{
    assert(exact(grid, nodes, i));
    if let Some(j) = nodes[i].neighbors[d] {
        let j = j as int;
        assert(exact(grid, nodes, j));
        let row = row_of(nodes, i);
        let col = col_of(nodes, i);
        if d == EAST {
            assert(grid.joins_east(row, col, col_of(nodes, j)));
            match nodes[j].neighbors[WEST as int] {
                Some(k) => {
                    let k = k as int;
                    assert(grid.joins_east(row, col_of(nodes, k), col_of(nodes, j)));
                    assert(col_of(nodes, k) == col);
                    lemma_junction_vertex(grid, nodes, i);
                    lemma_distinct(grid, nodes, i, k);
                },
                None => {
                    assert(!grid.joins_east(row, col, col_of(nodes, j)));
                },
            }
        } else if d == WEST {
            assert(grid.joins_east(row, col_of(nodes, j), col));
            match nodes[j].neighbors[EAST as int] {
                Some(k) => {
                    let k = k as int;
                    assert(grid.joins_east(row, col_of(nodes, j), col_of(nodes, k)));
                    assert(col_of(nodes, k) == col);
                    lemma_junction_vertex(grid, nodes, i);
                    lemma_distinct(grid, nodes, i, k);
                },
                None => {
                    assert(!grid.joins_east(row, col_of(nodes, j), col));
                },
            }
        } else if d == SOUTH {
            assert(grid.joins_south(col, row, row_of(nodes, j)));
            match nodes[j].neighbors[NORTH as int] {
                Some(k) => {
                    let k = k as int;
                    assert(grid.joins_south(col, row_of(nodes, k), row_of(nodes, j)));
                    lemma_same_top(grid, col, row, row_of(nodes, k), row_of(nodes, j));
                    lemma_distinct(grid, nodes, i, k);
                },
                None => {
                    assert(!grid.joins_south(col, row, row_of(nodes, j)));
                },
            }
        } else {
            assert(grid.joins_south(col, row_of(nodes, j), row));
            match nodes[j].neighbors[SOUTH as int] {
                Some(k) => {
                    let k = k as int;
                    assert(grid.joins_south(col, row_of(nodes, j), row_of(nodes, k)));
                    lemma_same_bottom(grid, col, row_of(nodes, j), row, row_of(nodes, k));
                    lemma_distinct(grid, nodes, i, k);
                },
                None => {
                    assert(!grid.joins_south(col, row_of(nodes, j), row));
                },
            }
        }
    }
}

/// Two vertical edges that end in the same vertex start in the same vertex.
pub proof fn lemma_same_top(grid: &Grid, col: int, a: int, b: int, to: int)
    requires
        grid.wf(),
        grid.joins_south(col, a, to),
        grid.joins_south(col, b, to),
    ensures
        a == b,
        grid.spec_height() >= 2,
{
    if a < b {
        assert(grid.vertex(col, b));
        assert(grid.open(col, a));
        assert(grid.open(col, to));
        assert(grid.junction(col, b));
    }
    if b < a {
        assert(grid.vertex(col, a));
        assert(grid.open(col, b));
        assert(grid.open(col, to));
        assert(grid.junction(col, a));
    }
    assert(grid.open(col, to));
    assert(grid.open(col, a));
}

/// Two vertical edges that start in the same vertex end in the same vertex.
pub proof fn lemma_same_bottom(grid: &Grid, col: int, from: int, a: int, b: int)
    requires
        grid.wf(),
        grid.joins_south(col, from, a),
        grid.joins_south(col, from, b),
    ensures
        a == b,
        grid.spec_height() >= 2,
{
    if a < b {
        assert(grid.vertex(col, a));
        assert(grid.open(col, from));
        assert(grid.open(col, b));
        assert(grid.junction(col, a));
    }
    if b < a {
        assert(grid.vertex(col, b));
        assert(grid.open(col, from));
        assert(grid.open(col, a));
        assert(grid.junction(col, b));
    }
    assert(grid.open(col, from));
    assert(grid.open(col, a));
}

/// The graph that a grid induces has the structure that the searches rely
/// on.
pub proof fn lemma_induced_wf(maze: Maze, grid: &Grid)
    requires
        grid.wf(),
        maze.induced_by(grid),
        maze.nodes().len() < grid.spec_width() * grid.spec_height(),
    ensures
        maze.wf(),
{
    let nodes = maze.nodes();
    let n = nodes.len() as int;
    let w = grid.spec_width() as int;
    let h = grid.spec_height() as int;
    assert((n + 1) * (w + h) <= (w * h) * (w + h)) by (nonlinear_arith)
        requires
            0 <= n + 1 <= w * h,
            0 <= w + h,
    ;
    assert forall|i: int| 0 <= i < n implies (#[trigger] maze.nodes()[i]).position.col
        < maze.spec_width() && maze.nodes()[i].position.row < maze.spec_height() by {
        if 0 < i < n - 1 {
            assert(grid.junction(col_of(nodes, i), row_of(nodes, i)));
        }
    }
    assert forall|i: int, d: int| 0 <= i < n && 0 <= d < 4 implies #[trigger] maze.link_ok(
        i,
        d,
    ) by {
        lemma_link_ok(grid, nodes, i, d);
    }
}

} // verus!
