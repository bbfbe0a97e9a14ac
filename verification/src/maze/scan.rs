//! The state of the single pass that turns a grid into a maze, and why each
//! step of the pass keeps it sound.
//!
//! The pass visits the interior pixels row by row, west to east.  Between two
//! steps the vertices created so far are exactly the junctions among the
//! pixels visited; every link that can already be decided is final; the
//! vertex that may still get an eastern neighbour is the rolling left vertex
//! of the row; and a vertex that may still get a southern neighbour is the
//! entry of its column in the frontier.

use vstd::prelude::*;
use crate::maze::grid::Grid;
use crate::maze::layout::{
    col_of, east_exact, exact, has_vertex, induces, north_exact, row_of, scan_order, south_exact,
    west_exact,
};
use crate::maze::node::{Node, EAST, NORTH, SOUTH, WEST};

verus! {

/// The interior pixel `(c, r)` was visited before the pass reached `(x, y)`.
pub open spec fn scanned(grid: &Grid, c: int, r: int, x: int, y: int) -> bool {
    &&& 1 <= c < grid.spec_width() - 1
    &&& 1 <= r < grid.spec_height() - 1
    &&& (r < y || (r == y && c < x))
}

/// The row down to which the frontier entry of column `c` vouches for an open
/// passage, when the pass has reached `(x, y)`.
pub open spec fn horizon(c: int, x: int, y: int) -> int {
    if c < x {
        y + 1
    } else {
        y
    }
}

/// Vertex `i` lies on a junction that the pass has visited.
pub open spec fn placed(grid: &Grid, nodes: Seq<Node>, x: int, y: int, i: int) -> bool {
    &&& grid.junction(col_of(nodes, i), row_of(nodes, i))
    &&& scanned(grid, col_of(nodes, i), row_of(nodes, i), x, y)
}

/// The links of vertex `i` that are decided when it is created.
pub open spec fn settled(grid: &Grid, nodes: Seq<Node>, i: int) -> bool {
    &&& north_exact(grid, nodes, i)
    &&& west_exact(grid, nodes, i)
}

/// The eastern link of vertex `i` is final, unless `i` is the rolling left
/// vertex.
pub open spec fn east_ok(grid: &Grid, nodes: Seq<Node>, left: Option<usize>, i: int) -> bool {
    ||| east_exact(grid, nodes, i)
    ||| nodes[i].neighbors[EAST as int] is None && left == Some(i as usize)
}

/// The southern link of vertex `i` is final, unless `i` is the frontier entry
/// of its column.
pub open spec fn south_ok(
    grid: &Grid,
    nodes: Seq<Node>,
    frontier: Map<u32, usize>,
    i: int,
) -> bool {
    ||| south_exact(grid, nodes, i)
    ||| nodes[i].neighbors[SOUTH as int] is None && frontier.contains_key(nodes[i].position.col)
        && frontier[nodes[i].position.col] == i
}

/// The frontier entry of column `c` is the lowest vertex of that column, has
/// no southern link yet, and everything from it down to the horizon is
/// passable.
pub open spec fn frontier_ok(
    grid: &Grid,
    nodes: Seq<Node>,
    frontier: Map<u32, usize>,
    x: int,
    y: int,
    c: u32,
) -> bool {
    let i = frontier[c] as int;
    &&& i < nodes.len()
    &&& nodes[i].position.col == c
    &&& nodes[i].neighbors[SOUTH as int] is None
    &&& grid.run_south(c as int, row_of(nodes, i), horizon(c as int, x, y))
    &&& forall|k: int|
        0 <= k < nodes.len() && (#[trigger] nodes[k]).position.col == c ==> row_of(nodes, k)
            <= row_of(nodes, i)
}

/// Without a frontier entry in its column, the passage below vertex `i` is
/// interrupted before the horizon.
pub open spec fn absent_ok(
    grid: &Grid,
    nodes: Seq<Node>,
    frontier: Map<u32, usize>,
    x: int,
    y: int,
    i: int,
) -> bool {
    !frontier.contains_key(nodes[i].position.col) ==> !grid.run_south(
        col_of(nodes, i),
        row_of(nodes, i),
        horizon(col_of(nodes, i), x, y),
    )
}

/// The rolling left vertex is set exactly while a horizontal corridor is
/// open at `(x, y)`; it is the vertex created last, and the corridor runs
/// from it to column `x`.
pub open spec fn left_ok(grid: &Grid, nodes: Seq<Node>, left: Option<usize>, x: int, y: int) -> bool {
    &&& left is Some <==> grid.west_open(x, y) && grid.open(x, y)
    &&& left matches Some(l) ==> {
        &&& 1 <= l
        &&& l == nodes.len() - 1
        &&& row_of(nodes, l as int) == y
        &&& col_of(nodes, l as int) < x
        &&& grid.run_east(y, col_of(nodes, l as int), x)
        &&& nodes[l as int].neighbors[EAST as int] is None
    }
}

/// Every link of every vertex points at a vertex.
pub open spec fn in_range(nodes: Seq<Node>) -> bool {
    forall|i: int, d: int|
        0 <= i < nodes.len() && 0 <= d < 4 ==> (#[trigger] nodes[i].neighbors[d] matches Some(j)
            ==> j < nodes.len())
}

/// What holds of the vertices, the frontier and the rolling left vertex
/// when the pass is about to visit `(x, y)`.
pub open spec fn scan_inv(
    grid: &Grid,
    nodes: Seq<Node>,
    frontier: Map<u32, usize>,
    left: Option<usize>,
    x: int,
    y: int,
) -> bool {
    let n = nodes.len() as int;
    &&& n >= 1
    &&& nodes[0].position.row == 0
    &&& grid.is_opening(0, col_of(nodes, 0))
    &&& 1 <= x
    &&& 1 <= y
    &&& forall|i: int| 1 <= i < n ==> #[trigger] placed(grid, nodes, x, y, i)
    &&& forall|c: int, r: int|
        scanned(grid, c, r, x, y) && #[trigger] grid.junction(c, r) ==> has_vertex(nodes, n, c, r)
    &&& forall|i: int, j: int|
        1 <= i < j < n ==> scan_order((#[trigger] nodes[i]).position, (#[trigger] nodes[j]).position)
    &&& in_range(nodes)
    &&& forall|i: int| 0 <= i < n ==> #[trigger] settled(grid, nodes, i)
    &&& forall|i: int| 0 <= i < n ==> #[trigger] east_ok(grid, nodes, left, i)
    &&& forall|i: int| 0 <= i < n ==> #[trigger] south_ok(grid, nodes, frontier, i)
    &&& forall|c: u32|
        frontier.contains_key(c) ==> #[trigger] frontier_ok(grid, nodes, frontier, x, y, c)
    &&& forall|i: int| 0 <= i < n ==> #[trigger] absent_ok(grid, nodes, frontier, x, y, i)
    &&& left_ok(grid, nodes, left, x, y)
}


/// A vertex other than the entry lies in a row above `y`, or in row `y` west
/// of column `x`.
pub proof fn lemma_vertex_rows(
    grid: &Grid,
    nodes: Seq<Node>,
    frontier: Map<u32, usize>,
    left: Option<usize>,
    x: int,
    y: int,
    i: int,
)
    requires
        scan_inv(grid, nodes, frontier, left, x, y),
        0 <= i < nodes.len(),
    ensures
        1 <= col_of(nodes, i) < grid.spec_width() - 1,
        row_of(nodes, i) < y || (row_of(nodes, i) == y && col_of(nodes, i) < x),
        0 <= row_of(nodes, i),
{
    if i >= 1 {
        assert(placed(grid, nodes, x, y, i));
    }
}

/// The pass moves on from a pixel that carries no vertex.
pub proof fn lemma_skip(
    grid: &Grid,
    nodes: Seq<Node>,
    frontier: Map<u32, usize>,
    left: Option<usize>,
    x: int,
    y: int,
)
    requires
        grid.wf(),
        scan_inv(grid, nodes, frontier, left, x, y),
        x < grid.spec_width() - 1,
        y < grid.spec_height() - 1,
        !grid.junction(x, y),
    ensures
        scan_inv(grid, nodes, frontier, left, x + 1, y),
{
    let n = nodes.len() as int;
    assert forall|i: int| 1 <= i < n implies #[trigger] placed(grid, nodes, x + 1, y, i) by {
        assert(placed(grid, nodes, x, y, i));
    }
    assert forall|c: int, r: int|
        scanned(grid, c, r, x + 1, y) && #[trigger] grid.junction(c, r) implies has_vertex(
        nodes,
        n,
        c,
        r,
    ) by {
        assert(scanned(grid, c, r, x, y));
    }
    assert forall|c: u32| frontier.contains_key(c) implies #[trigger] frontier_ok(
        grid,
        nodes,
        frontier,
        x + 1,
        y,
        c,
    ) by {
        assert(frontier_ok(grid, nodes, frontier, x, y, c));
        let i = frontier[c] as int;
        if c == x {
            lemma_vertex_rows(grid, nodes, frontier, left, x, y, i);
            assert(grid.open(x, y - 1));
            assert(grid.open(x, y));
            assert(grid.open(x, y + 1));
        }
    }
    assert forall|i: int| 0 <= i < n implies #[trigger] absent_ok(
        grid,
        nodes,
        frontier,
        x + 1,
        y,
        i,
    ) by {
        assert(absent_ok(grid, nodes, frontier, x, y, i));
    }
    assert(left_ok(grid, nodes, left, x + 1, y));
}


/// `after` is `before` with one more vertex, at `(x, y)`, linked to the
/// vertex `west` of it and to the vertex `north` of it, where there is one.
pub open spec fn vertex_added(
    before: Seq<Node>,
    after: Seq<Node>,
    x: int,
    y: int,
    west: Option<usize>,
    north: Option<usize>,
) -> bool {
    let n = before.len() as int;
    &&& after.len() == n + 1
    &&& after[n].position.col == x
    &&& after[n].position.row == y
    &&& after[n].neighbors[NORTH as int] == north
    &&& after[n].neighbors[WEST as int] == west
    &&& after[n].neighbors[EAST as int] is None
    &&& after[n].neighbors[SOUTH as int] is None
    &&& forall|i: int|
        0 <= i < n ==> {
            &&& (#[trigger] after[i]).position == before[i].position
            &&& after[i].neighbors[NORTH as int] == before[i].neighbors[NORTH as int]
            &&& after[i].neighbors[WEST as int] == before[i].neighbors[WEST as int]
            &&& after[i].neighbors[EAST as int] == if west == Some(i as usize) {
                Some(n as usize)
            } else {
                before[i].neighbors[EAST as int]
            }
            &&& after[i].neighbors[SOUTH as int] == if north == Some(i as usize) {
                Some(n as usize)
            } else {
                before[i].neighbors[SOUTH as int]
            }
        }
}

/// The vertex to which a new vertex at `(x, y)` is linked westwards.
pub open spec fn west_link(grid: &Grid, left: Option<usize>, x: int, y: int) -> Option<usize> {
    if grid.west_open(x, y) {
        left
    } else {
        None
    }
}

/// The vertex to which a new vertex at `(x, y)` is linked northwards.
pub open spec fn north_link(grid: &Grid, frontier: Map<u32, usize>, x: int, y: int) -> Option<
    usize,
> {
    if grid.open(x, y - 1) && frontier.contains_key(x as u32) {
        Some(frontier[x as u32])
    } else {
        None
    }
}

/// The frontier after a vertex with handle `new` was created at `(x, y)`.
pub open spec fn frontier_after(
    grid: &Grid,
    frontier: Map<u32, usize>,
    x: int,
    y: int,
    new: usize,
) -> Map<u32, usize> {
    if grid.open(x, y + 1) {
        frontier.insert(x as u32, new)
    } else {
        frontier.remove(x as u32)
    }
}

/// The rolling left vertex after a vertex with handle `new` was created at
/// `(x, y)`.
pub open spec fn left_after(grid: &Grid, x: int, y: int, new: usize) -> Option<usize> {
    if grid.open(x + 1, y) {
        Some(new)
    } else {
        None
    }
}

/// What is known when the pass has created a vertex on the junction
/// `(x, y)`: the state before it, and how the vertices changed.
pub open spec fn place_pre(
    grid: &Grid,
    nodes: Seq<Node>,
    frontier: Map<u32, usize>,
    left: Option<usize>,
    x: int,
    y: int,
    after: Seq<Node>,
) -> bool {
    &&& grid.wf()
    &&& scan_inv(grid, nodes, frontier, left, x, y)
    &&& x < grid.spec_width() - 1
    &&& y < grid.spec_height() - 1
    &&& grid.junction(x, y)
    &&& nodes.len() < usize::MAX
    &&& vertex_added(
        nodes,
        after,
        x,
        y,
        west_link(grid, left, x, y),
        north_link(grid, frontier, x, y),
    )
}

/// A link that is as the grid asks stays so while the positions stay.
proof fn lemma_exact_kept(grid: &Grid, nodes: Seq<Node>, after: Seq<Node>, i: int, d: int)
    requires
        0 <= i < nodes.len() <= after.len(),
        0 <= d < 4,
        forall|k: int| 0 <= k < nodes.len() ==> (#[trigger] after[k]).position == nodes[k].position,
        after[i].neighbors[d] == nodes[i].neighbors[d],
        nodes[i].neighbors[d] matches Some(j) ==> j < nodes.len(),
    ensures
        d == NORTH ==> north_exact(grid, after, i) == north_exact(grid, nodes, i),
        d == EAST ==> east_exact(grid, after, i) == east_exact(grid, nodes, i),
        d == SOUTH ==> south_exact(grid, after, i) == south_exact(grid, nodes, i),
        d == WEST ==> west_exact(grid, after, i) == west_exact(grid, nodes, i),
{
    assert(after[i].position == nodes[i].position);
    assert(col_of(after, i) == col_of(nodes, i));
    assert(row_of(after, i) == row_of(nodes, i));
    match nodes[i].neighbors[d] {
        Some(j) => {
            assert(after[j as int].position == nodes[j as int].position);
            assert(col_of(after, j as int) == col_of(nodes, j as int));
            assert(row_of(after, j as int) == row_of(nodes, j as int));
        },
        None => {},
    }
}

/// At most one opening per row: the entry is the only vertex of the top row.
proof fn lemma_opening_unique(grid: &Grid, row: int, a: int, b: int)
    requires
        grid.is_opening(row, a),
        grid.is_opening(row, b),
    ensures
        a == b,
{
    if a < b {
        assert(grid.open(a, row));
    }
    if b < a {
        assert(grid.open(b, row));
    }
}

/// The corridor from the rolling left vertex to the new vertex is an edge.
proof fn lemma_west_joined(
    grid: &Grid,
    nodes: Seq<Node>,
    frontier: Map<u32, usize>,
    left: Option<usize>,
    x: int,
    y: int,
    l: usize,
)
    requires
        grid.wf(),
        scan_inv(grid, nodes, frontier, left, x, y),
        grid.junction(x, y),
        west_link(grid, left, x, y) == Some(l),
    ensures
        l < nodes.len(),
        row_of(nodes, l as int) == y,
        grid.joins_east(y, col_of(nodes, l as int), x),
{
    let n = nodes.len() as int;
    assert(left_ok(grid, nodes, left, x, y));
    assert(placed(grid, nodes, x, y, l as int));
    assert forall|c: int| col_of(nodes, l as int) < c < x implies !grid.junction(c, y) by {
        if grid.junction(c, y) {
            assert(scanned(grid, c, y, x, y));
            assert(has_vertex(nodes, n, c, y));
            let i = choose|i: int|
                1 <= i < n && (#[trigger] nodes[i]).position.col == c && nodes[i].position.row == y;
            if i < l {
                assert(scan_order(nodes[i].position, nodes[l as int].position));
            }
        }
    }
}

/// The passage from the frontier entry down to the new vertex is an edge.
proof fn lemma_north_joined(
    grid: &Grid,
    nodes: Seq<Node>,
    frontier: Map<u32, usize>,
    left: Option<usize>,
    x: int,
    y: int,
    t: usize,
)
    requires
        grid.wf(),
        scan_inv(grid, nodes, frontier, left, x, y),
        x < grid.spec_width() - 1,
        y < grid.spec_height() - 1,
        grid.junction(x, y),
        north_link(grid, frontier, x, y) == Some(t),
    ensures
        t < nodes.len(),
        col_of(nodes, t as int) == x,
        nodes[t as int].neighbors[SOUTH as int] is None,
        grid.joins_south(x, row_of(nodes, t as int), y),
{
    let n = nodes.len() as int;
    assert(frontier_ok(grid, nodes, frontier, x, y, x as u32));
    lemma_vertex_rows(grid, nodes, frontier, left, x, y, t as int);
    if t >= 1 {
        assert(placed(grid, nodes, x, y, t as int));
    }
    assert(grid.vertex(x, row_of(nodes, t as int)));
    assert(grid.vertex(x, y));
    assert forall|r: int| row_of(nodes, t as int) < r < y implies !grid.junction(x, r) by {
        if grid.junction(x, r) {
            assert(scanned(grid, x, r, x, y));
            assert(has_vertex(nodes, n, x, r));
            let i = choose|i: int|
                1 <= i < n && (#[trigger] nodes[i]).position.col == x && nodes[i].position.row == r;
            assert(row_of(nodes, i) <= row_of(nodes, t as int));
        }
    }
}

/// Without a frontier entry in column `x`, no vertex above `(x, y)` is joined
/// to it.
proof fn lemma_north_none(
    grid: &Grid,
    nodes: Seq<Node>,
    frontier: Map<u32, usize>,
    left: Option<usize>,
    x: int,
    y: int,
)
    requires
        grid.wf(),
        scan_inv(grid, nodes, frontier, left, x, y),
        x < grid.spec_width() - 1,
        y < grid.spec_height() - 1,
        north_link(grid, frontier, x, y) is None,
    ensures
        forall|a: int| !#[trigger] grid.joins_south(x, a, y),
{
    let n = nodes.len() as int;
    assert forall|a: int| !#[trigger] grid.joins_south(x, a, y) by {
        if grid.joins_south(x, a, y) {
            assert(grid.open(x, y - 1));
            assert(!frontier.contains_key(x as u32));
            if a == 0 {
                lemma_opening_unique(grid, 0, x, col_of(nodes, 0));
                assert(absent_ok(grid, nodes, frontier, x, y, 0));
            } else {
                assert(grid.junction(x, a));
                assert(scanned(grid, x, a, x, y));
                assert(has_vertex(nodes, n, x, a));
                let j = choose|j: int|
                    1 <= j < n && (#[trigger] nodes[j]).position.col == x && nodes[j].position.row
                        == a;
                assert(absent_ok(grid, nodes, frontier, x, y, j));
            }
        }
    }
}

proof fn lemma_place_vertices(
    grid: &Grid,
    nodes: Seq<Node>,
    frontier: Map<u32, usize>,
    left: Option<usize>,
    x: int,
    y: int,
    after: Seq<Node>,
)
    requires
        place_pre(grid, nodes, frontier, left, x, y, after),
    ensures
        forall|i: int| 1 <= i < after.len() ==> #[trigger] placed(grid, after, x + 1, y, i),
        forall|c: int, r: int|
            scanned(grid, c, r, x + 1, y) && #[trigger] grid.junction(c, r) ==> has_vertex(
                after,
                after.len() as int,
                c,
                r,
            ),
        forall|i: int, j: int|
            1 <= i < j < after.len() ==> scan_order(
                (#[trigger] after[i]).position,
                (#[trigger] after[j]).position,
            ),
        in_range(after),
{
    let n = nodes.len() as int;
    assert forall|i: int| 1 <= i < n + 1 implies #[trigger] placed(grid, after, x + 1, y, i) by {
        if i < n {
            assert(placed(grid, nodes, x, y, i));
            assert(after[i].position == nodes[i].position);
        }
    }
    assert forall|c: int, r: int|
        scanned(grid, c, r, x + 1, y) && #[trigger] grid.junction(c, r) implies has_vertex(
        after,
        n + 1,
        c,
        r,
    ) by {
        if c == x && r == y {
            assert(after[n].position.col == c && after[n].position.row == r);
        } else {
            assert(scanned(grid, c, r, x, y));
            assert(has_vertex(nodes, n, c, r));
            let i = choose|i: int|
                1 <= i < n && (#[trigger] nodes[i]).position.col == c && nodes[i].position.row == r;
            assert(after[i].position == nodes[i].position);
        }
    }
    assert forall|i: int, j: int| 1 <= i < j < n + 1 implies scan_order(
        (#[trigger] after[i]).position,
        (#[trigger] after[j]).position,
    ) by {
        assert(after[i].position == nodes[i].position);
        if j < n {
            assert(after[j].position == nodes[j].position);
            assert(scan_order(nodes[i].position, nodes[j].position));
        } else {
            assert(placed(grid, nodes, x, y, i));
        }
    }
    assert forall|i: int, d: int| 0 <= i < after.len() && 0 <= d < 4 implies (
    #[trigger] after[i].neighbors[d] matches Some(j) ==> j < after.len()) by {
        if i < n {
            assert(nodes[i].neighbors[d] matches Some(j) ==> j < nodes.len());
            assert(after[i].position == nodes[i].position);
        }
        if north_link(grid, frontier, x, y) is Some {
            assert(frontier_ok(grid, nodes, frontier, x, y, x as u32));
        }
        assert(left_ok(grid, nodes, left, x, y));
    }
}

proof fn lemma_place_settled(
    grid: &Grid,
    nodes: Seq<Node>,
    frontier: Map<u32, usize>,
    left: Option<usize>,
    x: int,
    y: int,
    after: Seq<Node>,
)
    requires
        place_pre(grid, nodes, frontier, left, x, y, after),
    ensures
        forall|i: int| 0 <= i < after.len() ==> #[trigger] settled(grid, after, i),
{
    let n = nodes.len() as int;
    assert forall|i: int| 0 <= i < n + 1 implies #[trigger] settled(grid, after, i) by {
        if i < n {
            assert(settled(grid, nodes, i));
            assert(after[i].position == nodes[i].position);
            assert(nodes[i].neighbors[NORTH as int] matches Some(j) ==> j < nodes.len());
            assert(nodes[i].neighbors[WEST as int] matches Some(j) ==> j < nodes.len());
            lemma_exact_kept(grid, nodes, after, i, NORTH as int);
            lemma_exact_kept(grid, nodes, after, i, WEST as int);
        } else {
            if let Some(t) = north_link(grid, frontier, x, y) {
                lemma_north_joined(grid, nodes, frontier, left, x, y, t);
                assert(after[t as int].position == nodes[t as int].position);
            } else {
                lemma_north_none(grid, nodes, frontier, left, x, y);
            }
            assert(north_exact(grid, after, n));
            if let Some(l) = west_link(grid, left, x, y) {
                lemma_west_joined(grid, nodes, frontier, left, x, y, l);
                assert(after[l as int].position == nodes[l as int].position);
            } else {
                assert(left_ok(grid, nodes, left, x, y));
                assert forall|a: int| !#[trigger] grid.joins_east(y, a, x) by {
                    if grid.joins_east(y, a, x) {
                        assert(grid.open(x - 1, y));
                        assert(grid.junction(a, y));
                    }
                }
            }
            assert(west_exact(grid, after, n));
        }
    }
}

proof fn lemma_place_east(
    grid: &Grid,
    nodes: Seq<Node>,
    frontier: Map<u32, usize>,
    left: Option<usize>,
    x: int,
    y: int,
    after: Seq<Node>,
)
    requires
        place_pre(grid, nodes, frontier, left, x, y, after),
    ensures
        forall|i: int|
            0 <= i < after.len() ==> #[trigger] east_ok(
                grid,
                after,
                left_after(grid, x, y, nodes.len() as usize),
                i,
            ),
{
    let n = nodes.len() as int;
    let west = west_link(grid, left, x, y);
    let left2 = left_after(grid, x, y, n as usize);
    assert(left_ok(grid, nodes, left, x, y));
    assert forall|i: int| 0 <= i < n + 1 implies #[trigger] east_ok(grid, after, left2, i) by {
        if i < n {
            assert(east_ok(grid, nodes, left, i));
            assert(after[i].position == nodes[i].position);
            if west == Some(i as usize) {
                lemma_west_joined(grid, nodes, frontier, left, x, y, i as usize);
                assert(east_exact(grid, after, i));
            } else {
                assert(nodes[i].neighbors[EAST as int] matches Some(j) ==> j < nodes.len());
                lemma_exact_kept(grid, nodes, after, i, EAST as int);
                if left == Some(i as usize) {
                    // The corridor was interrupted west of (x, y), and so
                    // nothing east of it is joined to this vertex.
                    assert(!grid.west_open(x, y));
                    assert(grid.west_open(x, y) && grid.open(x, y));
                }
                assert(east_exact(grid, after, i));
            }
        } else {
            if !grid.open(x + 1, y) {
                assert forall|b: int| !#[trigger] grid.joins_east(y, x, b) by {
                    if grid.joins_east(y, x, b) {
                        assert(grid.open(x + 1, y));
                    }
                }
                assert(east_exact(grid, after, n));
            }
        }
    }
}

proof fn lemma_place_south(
    grid: &Grid,
    nodes: Seq<Node>,
    frontier: Map<u32, usize>,
    left: Option<usize>,
    x: int,
    y: int,
    after: Seq<Node>,
)
    requires
        place_pre(grid, nodes, frontier, left, x, y, after),
    ensures
        forall|i: int|
            0 <= i < after.len() ==> #[trigger] south_ok(
                grid,
                after,
                frontier_after(grid, frontier, x, y, nodes.len() as usize),
                i,
            ),
{
    let n = nodes.len() as int;
    let north = north_link(grid, frontier, x, y);
    let frontier2 = frontier_after(grid, frontier, x, y, n as usize);
    assert forall|i: int| 0 <= i < n + 1 implies #[trigger] south_ok(grid, after, frontier2, i) by {
        if i < n {
            assert(south_ok(grid, nodes, frontier, i));
            assert(after[i].position == nodes[i].position);
            lemma_vertex_rows(grid, nodes, frontier, left, x, y, i);
            if north == Some(i as usize) {
                lemma_north_joined(grid, nodes, frontier, left, x, y, i as usize);
                assert(south_exact(grid, after, i));
            } else {
                assert(nodes[i].neighbors[SOUTH as int] matches Some(j) ==> j < nodes.len());
                lemma_exact_kept(grid, nodes, after, i, SOUTH as int);
                if !south_exact(grid, nodes, i) {
                    // The frontier entry of its column.
                    if nodes[i].position.col == x {
                        assert(frontier_ok(grid, nodes, frontier, x, y, x as u32));
                        assert(grid.open(x, y - 1));
                        assert(false);
                    }
                    assert(frontier2.contains_key(nodes[i].position.col));
                    assert(frontier2[nodes[i].position.col] == i);
                }
            }
        } else {
            if !grid.open(x, y + 1) {
                assert forall|b: int| !#[trigger] grid.joins_south(x, y, b) by {
                    if grid.joins_south(x, y, b) {
                        assert(grid.open(x, y + 1));
                    }
                }
                assert(south_exact(grid, after, n));
            } else {
                assert(frontier2.contains_key(x as u32) && frontier2[x as u32] == n);
            }
        }
    }
}

proof fn lemma_place_frontier(
    grid: &Grid,
    nodes: Seq<Node>,
    frontier: Map<u32, usize>,
    left: Option<usize>,
    x: int,
    y: int,
    after: Seq<Node>,
)
    requires
        place_pre(grid, nodes, frontier, left, x, y, after),
    ensures
        forall|c: u32|
            frontier_after(grid, frontier, x, y, nodes.len() as usize).contains_key(c)
                ==> #[trigger] frontier_ok(
                grid,
                after,
                frontier_after(grid, frontier, x, y, nodes.len() as usize),
                x + 1,
                y,
                c,
            ),
        forall|i: int|
            0 <= i < after.len() ==> #[trigger] absent_ok(
                grid,
                after,
                frontier_after(grid, frontier, x, y, nodes.len() as usize),
                x + 1,
                y,
                i,
            ),
        left_ok(grid, after, left_after(grid, x, y, nodes.len() as usize), x + 1, y),
{
    let n = nodes.len() as int;
    let north = north_link(grid, frontier, x, y);
    let frontier2 = frontier_after(grid, frontier, x, y, n as usize);
    assert forall|c: u32| frontier2.contains_key(c) implies #[trigger] frontier_ok(
        grid,
        after,
        frontier2,
        x + 1,
        y,
        c,
    ) by {
        if c == x {
            assert(frontier2[c] == n);
            assert forall|k: int|
                0 <= k < after.len() && (#[trigger] after[k]).position.col == c implies row_of(
                after,
                k,
            ) <= row_of(after, n) by {
                if k < n {
                    assert(after[k].position == nodes[k].position);
                    lemma_vertex_rows(grid, nodes, frontier, left, x, y, k);
                }
            }
        } else {
            assert(frontier.contains_key(c));
            assert(frontier_ok(grid, nodes, frontier, x, y, c));
            let i = frontier[c] as int;
            assert(frontier2[c] == i);
            assert(after[i].position == nodes[i].position);
            assert(north != Some(i as usize)) by {
                if north == Some(i as usize) {
                    assert(frontier_ok(grid, nodes, frontier, x, y, x as u32));
                }
            }
            assert forall|k: int|
                0 <= k < after.len() && (#[trigger] after[k]).position.col == c implies row_of(
                after,
                k,
            ) <= row_of(after, i) by {
                if k < n {
                    assert(after[k].position == nodes[k].position);
                    assert(nodes[k].position.col == c);
                }
            }
        }
    }
    assert forall|i: int| 0 <= i < n + 1 implies #[trigger] absent_ok(
        grid,
        after,
        frontier2,
        x + 1,
        y,
        i,
    ) by {
        if i < n {
            assert(absent_ok(grid, nodes, frontier, x, y, i));
            assert(after[i].position == nodes[i].position);
            lemma_vertex_rows(grid, nodes, frontier, left, x, y, i);
            if nodes[i].position.col == x && !frontier2.contains_key(x as u32) {
                assert(!grid.open(x, y + 1));
                assert(row_of(nodes, i) <= y + 1);
            }
        } else {
            assert(!grid.open(x, y + 1) ==> !grid.run_south(x, y, y + 1));
        }
    }
}

/// The pass moves on from a junction, on which it has created a vertex.
pub proof fn lemma_place(
    grid: &Grid,
    nodes: Seq<Node>,
    frontier: Map<u32, usize>,
    left: Option<usize>,
    x: int,
    y: int,
    after: Seq<Node>,
)
    requires
        place_pre(grid, nodes, frontier, left, x, y, after),
    ensures
        scan_inv(
            grid,
            after,
            frontier_after(grid, frontier, x, y, nodes.len() as usize),
            left_after(grid, x, y, nodes.len() as usize),
            x + 1,
            y,
        ),
{
    lemma_place_vertices(grid, nodes, frontier, left, x, y, after);
    lemma_place_settled(grid, nodes, frontier, left, x, y, after);
    lemma_place_east(grid, nodes, frontier, left, x, y, after);
    lemma_place_south(grid, nodes, frontier, left, x, y, after);
    lemma_place_frontier(grid, nodes, frontier, left, x, y, after);
    assert(after[0].position == nodes[0].position);
}


/// The state in which the pass starts: the entry alone, in the frontier if
/// the pixel below it is passable.
pub proof fn lemma_start(grid: &Grid, nodes: Seq<Node>, frontier: Map<u32, usize>)
    requires
        grid.wf(),
        nodes.len() == 1,
        nodes[0].position.row == 0,
        grid.is_opening(0, col_of(nodes, 0)),
        forall|d: int| 0 <= d < 4 ==> nodes[0].neighbors[d] is None,
        frontier == if grid.open(col_of(nodes, 0), 1) {
            Map::<u32, usize>::empty().insert(nodes[0].position.col, 0usize)
        } else {
            Map::<u32, usize>::empty()
        },
    ensures
        scan_inv(grid, nodes, frontier, None, 1, 1),
{
    let sx = col_of(nodes, 0);
    assert(settled(grid, nodes, 0)) by {
        assert forall|a: int| !#[trigger] grid.joins_south(sx, a, 0) by {
            if grid.joins_south(sx, a, 0) {
                assert(grid.vertex(sx, a));
            }
        }
    }
    assert(east_ok(grid, nodes, None, 0));
    assert(south_ok(grid, nodes, frontier, 0)) by {
        if !grid.open(sx, 1) {
            assert forall|b: int| !#[trigger] grid.joins_south(sx, 0, b) by {
                if grid.joins_south(sx, 0, b) {
                    assert(grid.open(sx, 1));
                }
            }
        }
    }
    assert forall|c: u32| frontier.contains_key(c) implies #[trigger] frontier_ok(
        grid,
        nodes,
        frontier,
        1,
        1,
        c,
    ) by {
        assert(c == nodes[0].position.col);
        assert(grid.open(sx, 0));
    }
    assert(absent_ok(grid, nodes, frontier, 1, 1, 0)) by {
        if !frontier.contains_key(nodes[0].position.col) {
            assert(!grid.open(sx, 1));
        }
    }
}

/// The pass moves on from the end of a row to the start of the next.
pub proof fn lemma_next_row(
    grid: &Grid,
    nodes: Seq<Node>,
    frontier: Map<u32, usize>,
    left: Option<usize>,
    y: int,
)
    requires
        grid.wf(),
        scan_inv(grid, nodes, frontier, left, grid.spec_width() - 1, y),
        y < grid.spec_height() - 1,
    ensures
        scan_inv(grid, nodes, frontier, None, 1, y + 1),
{
    let n = nodes.len() as int;
    let x = grid.spec_width() - 1;
    assert(left_ok(grid, nodes, left, x, y));
    assert forall|i: int| 1 <= i < n implies #[trigger] placed(grid, nodes, 1, y + 1, i) by {
        assert(placed(grid, nodes, x, y, i));
    }
    assert forall|c: int, r: int|
        scanned(grid, c, r, 1, y + 1) && #[trigger] grid.junction(c, r) implies has_vertex(
        nodes,
        n,
        c,
        r,
    ) by {
        assert(scanned(grid, c, r, x, y));
    }
    assert forall|i: int| 0 <= i < n implies #[trigger] east_ok(grid, nodes, None, i) by {
        assert(east_ok(grid, nodes, left, i));
        if !east_exact(grid, nodes, i) {
            // The rolling left vertex: no junction follows it in its row.
            assert forall|b: int| !#[trigger] grid.joins_east(y, col_of(nodes, i), b) by {
                if grid.joins_east(y, col_of(nodes, i), b) {
                    assert(scanned(grid, b, y, x, y));
                    assert(has_vertex(nodes, n, b, y));
                    let k = choose|k: int|
                        1 <= k < n && (#[trigger] nodes[k]).position.col == b
                            && nodes[k].position.row == y;
                    if k < i {
                        assert(scan_order(nodes[k].position, nodes[i].position));
                    }
                }
            }
        }
    }
    assert forall|c: u32| frontier.contains_key(c) implies #[trigger] frontier_ok(
        grid,
        nodes,
        frontier,
        1,
        y + 1,
        c,
    ) by {
        assert(frontier_ok(grid, nodes, frontier, x, y, c));
        lemma_vertex_rows(grid, nodes, frontier, left, x, y, frontier[c] as int);
    }
    assert forall|i: int| 0 <= i < n implies #[trigger] absent_ok(
        grid,
        nodes,
        frontier,
        1,
        y + 1,
        i,
    ) by {
        assert(absent_ok(grid, nodes, frontier, x, y, i));
        lemma_vertex_rows(grid, nodes, frontier, left, x, y, i);
    }
}


/// The vertex to which the exit at column `ex` is linked northwards.
pub open spec fn exit_link(frontier: Map<u32, usize>, ex: int) -> Option<usize> {
    if frontier.contains_key(ex as u32) {
        Some(frontier[ex as u32])
    } else {
        None
    }
}

/// What is known when the exit has been created at column `ex` of the bottom
/// row, after the pass over the interior.
pub open spec fn finish_pre(
    grid: &Grid,
    nodes: Seq<Node>,
    frontier: Map<u32, usize>,
    y: int,
    after: Seq<Node>,
    ex: int,
) -> bool {
    &&& grid.wf()
    &&& scan_inv(grid, nodes, frontier, None, 1, y)
    &&& y == if grid.spec_height() >= 2 {
        grid.spec_height() - 1
    } else {
        1
    }
    &&& grid.is_opening(grid.spec_height() - 1, ex)
    &&& nodes.len() < usize::MAX
    &&& vertex_added(nodes, after, ex, grid.spec_height() - 1, None, exit_link(frontier, ex))
}

/// The passage from the frontier entry down to the exit is an edge.
proof fn lemma_exit_joined(
    grid: &Grid,
    nodes: Seq<Node>,
    frontier: Map<u32, usize>,
    y: int,
    after: Seq<Node>,
    ex: int,
    t: usize,
)
    requires
        finish_pre(grid, nodes, frontier, y, after, ex),
        exit_link(frontier, ex) == Some(t),
    ensures
        t < nodes.len(),
        col_of(nodes, t as int) == ex,
        grid.joins_south(ex, row_of(nodes, t as int), grid.spec_height() - 1),
{
    let n = nodes.len() as int;
    let h = grid.spec_height() as int;
    assert(frontier_ok(grid, nodes, frontier, 1, y, ex as u32));
    lemma_vertex_rows(grid, nodes, frontier, None, 1, y, t as int);
    if h < 2 {
        assert(grid.open(ex, 1));
    }
    if t >= 1 {
        assert(placed(grid, nodes, 1, y, t as int));
    }
    assert(grid.vertex(ex, row_of(nodes, t as int)));
    assert(grid.vertex(ex, h - 1));
    assert forall|r: int| row_of(nodes, t as int) < r < h - 1 implies !grid.junction(ex, r) by {
        if grid.junction(ex, r) {
            assert(scanned(grid, ex, r, 1, y));
            assert(has_vertex(nodes, n, ex, r));
            let i = choose|i: int|
                1 <= i < n && (#[trigger] nodes[i]).position.col == ex && nodes[i].position.row
                    == r;
            assert(row_of(nodes, i) <= row_of(nodes, t as int));
        }
    }
}

/// The links of the exit are the ones the grid asks for.
proof fn lemma_exit_exact(
    grid: &Grid,
    nodes: Seq<Node>,
    frontier: Map<u32, usize>,
    y: int,
    after: Seq<Node>,
    ex: int,
)
    requires
        finish_pre(grid, nodes, frontier, y, after, ex),
    ensures
        exact(grid, after, nodes.len() as int),
{
    let n = nodes.len() as int;
    let h = grid.spec_height() as int;
    if let Some(t) = exit_link(frontier, ex) {
        lemma_exit_joined(grid, nodes, frontier, y, after, ex, t);
        assert(after[t as int].position == nodes[t as int].position);
    } else {
        assert forall|a: int| !#[trigger] grid.joins_south(ex, a, h - 1) by {
            if grid.joins_south(ex, a, h - 1) {
                assert(h >= 2);
                if a == 0 {
                    lemma_opening_unique(grid, 0, ex, col_of(nodes, 0));
                    assert(absent_ok(grid, nodes, frontier, 1, y, 0));
                } else {
                    assert(grid.junction(ex, a));
                    assert(scanned(grid, ex, a, 1, y));
                    assert(has_vertex(nodes, n, ex, a));
                    let j = choose|j: int|
                        1 <= j < n && (#[trigger] nodes[j]).position.col == ex
                            && nodes[j].position.row == a;
                    assert(absent_ok(grid, nodes, frontier, 1, y, j));
                }
            }
        }
    }
    assert(north_exact(grid, after, n));
    assert forall|b: int| !#[trigger] grid.joins_south(ex, h - 1, b) by {
        if grid.joins_south(ex, h - 1, b) {
            assert(grid.vertex(ex, b));
        }
    }
    assert(south_exact(grid, after, n));
    assert(east_exact(grid, after, n));
    assert(west_exact(grid, after, n));
}

/// With the exit in place, the southern link of every other vertex is final.
proof fn lemma_finish_south(
    grid: &Grid,
    nodes: Seq<Node>,
    frontier: Map<u32, usize>,
    y: int,
    after: Seq<Node>,
    ex: int,
    i: int,
)
    requires
        finish_pre(grid, nodes, frontier, y, after, ex),
        0 <= i < nodes.len(),
    ensures
        south_exact(grid, after, i),
{
    let n = nodes.len() as int;
    let h = grid.spec_height() as int;
    assert(south_ok(grid, nodes, frontier, i));
    assert(after[i].position == nodes[i].position);
    if exit_link(frontier, ex) == Some(i as usize) {
        lemma_exit_joined(grid, nodes, frontier, y, after, ex, i as usize);
    } else {
        assert(in_range(nodes));
        assert(nodes[i].neighbors[SOUTH as int] matches Some(j) ==> j < nodes.len());
        lemma_exact_kept(grid, nodes, after, i, SOUTH as int);
        if !south_exact(grid, nodes, i) {
            let c = nodes[i].position.col;
            assert(frontier_ok(grid, nodes, frontier, 1, y, c));
            assert forall|b: int| !#[trigger] grid.joins_south(c as int, row_of(nodes, i), b) by {
                if grid.joins_south(c as int, row_of(nodes, i), b) {
                    assert(grid.vertex(c as int, b));
                    if grid.junction(c as int, b) {
                        assert(scanned(grid, c as int, b, 1, y));
                        assert(has_vertex(nodes, n, c as int, b));
                        let k = choose|k: int|
                            1 <= k < n && (#[trigger] nodes[k]).position.col == c
                                && nodes[k].position.row == b;
                        assert(row_of(nodes, k) <= row_of(nodes, i));
                    } else {
                        lemma_opening_unique(grid, h - 1, ex, c as int);
                    }
                }
            }
        }
    }
}

/// With the exit in place, the vertices are the graph that the grid induces.
pub proof fn lemma_finish(
    grid: &Grid,
    nodes: Seq<Node>,
    frontier: Map<u32, usize>,
    y: int,
    after: Seq<Node>,
    ex: int,
)
    requires
        finish_pre(grid, nodes, frontier, y, after, ex),
    ensures
        induces(grid, after),
{
    let n = nodes.len() as int;
    assert(after[0].position == nodes[0].position);
    assert forall|i: int| 0 < i < n implies grid.junction(
        #[trigger] col_of(after, i),
        row_of(after, i),
    ) by {
        assert(placed(grid, nodes, 1, y, i));
        assert(after[i].position == nodes[i].position);
    }
    assert forall|c: int, r: int| #[trigger] grid.junction(c, r) implies has_vertex(
        after,
        n,
        c,
        r,
    ) by {
        assert(scanned(grid, c, r, 1, y));
        assert(has_vertex(nodes, n, c, r));
        let i = choose|i: int|
            1 <= i < n && (#[trigger] nodes[i]).position.col == c && nodes[i].position.row == r;
        assert(after[i].position == nodes[i].position);
    }
    assert forall|i: int, j: int| 0 < i < j < n implies scan_order(
        (#[trigger] after[i]).position,
        (#[trigger] after[j]).position,
    ) by {
        assert(after[i].position == nodes[i].position);
        assert(after[j].position == nodes[j].position);
        assert(scan_order(nodes[i].position, nodes[j].position));
    }
    assert forall|i: int| 0 <= i < n + 1 implies #[trigger] exact(grid, after, i) by {
        if i < n {
            assert(settled(grid, nodes, i));
            assert(east_ok(grid, nodes, None, i));
            assert(in_range(nodes));
            assert(nodes[i].neighbors[NORTH as int] matches Some(j) ==> j < nodes.len());
            assert(nodes[i].neighbors[EAST as int] matches Some(j) ==> j < nodes.len());
            assert(nodes[i].neighbors[WEST as int] matches Some(j) ==> j < nodes.len());
            assert(after[i].position == nodes[i].position);
            lemma_exact_kept(grid, nodes, after, i, NORTH as int);
            lemma_exact_kept(grid, nodes, after, i, EAST as int);
            lemma_exact_kept(grid, nodes, after, i, WEST as int);
            lemma_finish_south(grid, nodes, frontier, y, after, ex, i);
        } else {
            lemma_exit_exact(grid, nodes, frontier, y, after, ex);
        }
    }
}

} // verus!
