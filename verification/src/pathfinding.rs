//! A* search over a small, fully walkable grid with eight-way movement.

use vstd::prelude::*;
use crate::grid::neighbour_offset;
use crate::ring::{abs, chebyshev};

verus! {

/// Cost of a step along one axis.
pub const STRAIGHT_COST: usize = 10;

/// Cost of a diagonal step.
pub const DIAGONAL_COST: usize = 14;

/// Number of columns of the search grid.
pub const PATH_GRID_WIDTH: usize = 4;

/// Number of cells in one column of the search grid.
pub const PATH_GRID_HEIGHT: usize = 5;

/// Most cells the search will expand before it gives up.
pub const MAX_EXPANSIONS: usize = 50;

/// One cell of the search grid with its bookkeeping.
#[derive(Copy, Clone, Debug, PartialEq, Eq, Structural)]
pub struct PathNode {
    pub x: usize,
    pub y: usize,
    pub index: usize,
    /// Cost of the best known way from the start.
    pub g: usize,
    /// Estimated cost to the goal.
    pub h: usize,
    /// `g + h`, capped at the largest number.
    pub f: usize,
    pub is_walkable: bool,
    /// The cell this one was reached from.
    pub came_from_index: Option<usize>,
}

impl PathNode {
    /// Sets `f` to `g + h`, or to the largest number where the sum does not
    /// fit.
    pub fn calculate_f_cost(&mut self)
        ensures
            *final(self) == (PathNode {
                f: if old(self).g + old(self).h > usize::MAX {
                    usize::MAX
                } else {
                    (old(self).g + old(self).h) as usize
                },
                ..*old(self)
            }),
    {
        if self.g > usize::MAX - self.h {
            self.f = usize::MAX;
        } else {
            self.f = self.g + self.h;
        }
    }
}

/// A cell of a path.
#[derive(Copy, Clone, Debug, PartialEq, Eq, Structural)]
pub struct PathPoints {
    pub x: usize,
    pub y: usize,
}

/// Octile distance: diagonal steps for the shorter axis distance, straight
/// steps for the rest.
pub open spec fn dist_cost(ax: int, ay: int, bx: int, by: int) -> int {
    let dx = abs(ax - bx);
    let dy = abs(ay - by);
    if dx <= dy {
        14 * dx + 10 * (dy - dx)
    } else {
        14 * dy + 10 * (dx - dy)
    }
}

/// Index of cell `(x, y)` in a grid stored column by column.
pub fn calculate_index(x: usize, y: usize, grid_height: usize) -> (i: usize)
    requires
        y + x * grid_height <= usize::MAX,
    ensures
        i == y + x * grid_height,
{
    y + x * grid_height
}

/// Octile distance between two cells.
pub fn calculate_dist_cost(a_x: usize, a_y: usize, b_x: usize, b_y: usize) -> (cost: usize)
    requires
        14 * chebyshev(a_x as int, a_y as int, b_x as int, b_y as int) <= usize::MAX,
    ensures
        cost == dist_cost(a_x as int, a_y as int, b_x as int, b_y as int),
{
    let x_dist: usize = if a_x > b_x { a_x - b_x } else { b_x - a_x };
    let y_dist: usize = if a_y > b_y { a_y - b_y } else { b_y - a_y };
    let remainder: usize = if x_dist > y_dist { x_dist - y_dist } else { y_dist - x_dist };
    let least: usize = if x_dist < y_dist { x_dist } else { y_dist };
    DIAGONAL_COST * least + STRAIGHT_COST * remainder
}

/// Indices of those of the first `k` neighbours of `(x, y)`, clockwise from
/// north, that lie on a grid of the given size.
pub open spec fn neighbour_indices(x: int, y: int, width: int, height: int, k: int) -> Seq<usize>
    decreases k,
{
    if k <= 0 {
        Seq::empty()
    } else {
        let nx = x + neighbour_offset(k - 1).0;
        let ny = y + neighbour_offset(k - 1).1;
        let before = neighbour_indices(x, y, width, height, k - 1);
        if 0 <= nx < width && 0 <= ny < height {
            before.push((ny + nx * height) as usize)
        } else {
            before
        }
    }
}

/// Indices of the neighbours of `(x, y)` that lie on the grid, clockwise
/// from north.
pub fn get_neighbour_indicies(x: usize, y: usize, width: usize, height: usize) -> (v: Vec<usize>)
    requires
        x < width,
        y < height,
        width * height <= usize::MAX,
    ensures
        v@ == neighbour_indices(x as int, y as int, width as int, height as int, 8),
{
    let mut v: Vec<usize> = Vec::new();
    let h = height - 1;
    let w = width - 1;
    proof {
        assert(forall|a: int, b: int|
            0 <= a < width && 0 <= b < height ==> 0 <= #[trigger] (b + a * height) < width * height)
            by (nonlinear_arith);
        reveal_with_fuel(neighbour_indices, 9);
    }
    if y < h {
        v.push(calculate_index(x, y + 1, height));
    }
    assert(v@ =~= neighbour_indices(x as int, y as int, width as int, height as int, 1));
    if y < h && x < w {
        v.push(calculate_index(x + 1, y + 1, height));
    }
    assert(v@ =~= neighbour_indices(x as int, y as int, width as int, height as int, 2));
    if x < w {
        v.push(calculate_index(x + 1, y, height));
    }
    assert(v@ =~= neighbour_indices(x as int, y as int, width as int, height as int, 3));
    if y > 0 {
        if x < w {
            v.push(calculate_index(x + 1, y - 1, height));
        }
        assert(v@ =~= neighbour_indices(x as int, y as int, width as int, height as int, 4));
        v.push(calculate_index(x, y - 1, height));
    }
    assert(v@ =~= neighbour_indices(x as int, y as int, width as int, height as int, 5));
    if y > 0 && x > 0 {
        v.push(calculate_index(x - 1, y - 1, height));
    }
    assert(v@ =~= neighbour_indices(x as int, y as int, width as int, height as int, 6));
    if x > 0 {
        v.push(calculate_index(x - 1, y, height));
        assert(v@ =~= neighbour_indices(x as int, y as int, width as int, height as int, 7));
        if y < h {
            v.push(calculate_index(x - 1, y + 1, height));
        }
    }
    assert(v@ =~= neighbour_indices(x as int, y as int, width as int, height as int, 8));
    v
}

/// The open cell with the lowest `f`; among equals, the one that comes
/// first in the list. `None` for an empty list.
pub fn get_lowest_fcost_index(open_list: &Vec<usize>, nodes: &Vec<PathNode>) -> (r: Option<usize>)
    requires
        forall|i: int| 0 <= i < open_list@.len() ==> open_list@[i] < nodes@.len(),
    ensures
        r.is_none() <==> open_list@.len() == 0,
        r.is_some() ==> exists|p: int|
            0 <= p < open_list@.len() && #[trigger] open_list@[p] == r.unwrap() && (forall|q: int|
                0 <= q < open_list@.len() ==> nodes@[r.unwrap() as int].f <= nodes@[open_list@[q] as int].f)
                && (forall|q: int|
                0 <= q < p ==> nodes@[r.unwrap() as int].f < nodes@[open_list@[q] as int].f),
{
    if open_list.len() == 0 {
        return None;
    }
    let mut best: usize = 0;
    let mut i: usize = 1;
    while i < open_list.len()
        invariant
            1 <= i <= open_list@.len(),
            best < i,
            forall|k: int| 0 <= k < open_list@.len() ==> open_list@[k] < nodes@.len(),
            forall|q: int|
                0 <= q < i ==> nodes@[open_list@[best as int] as int].f <= nodes@[open_list@[q] as int].f,
            forall|q: int|
                0 <= q < best ==> nodes@[open_list@[best as int] as int].f
                    < nodes@[open_list@[q] as int].f,
        decreases open_list@.len() - i,
    {
        if nodes[open_list[i]].f < nodes[open_list[best]].f {
            best = i;
        }
        i = i + 1;
    }
    Some(open_list[best])
}

/// The cell a node stands for.
pub open spec fn point_of(node: PathNode) -> PathPoints {
    PathPoints { x: node.x, y: node.y }
}

/// Whether every predecessor link points into the table, at a node that is
/// strictly cheaper to reach.
pub open spec fn links_descend(nodes: Seq<PathNode>, node: PathNode) -> bool {
    match node.came_from_index {
        Some(p) => p < nodes.len() && nodes[p as int].g < node.g,
        None => true,
    }
}

/// The cells met when walking the predecessor links from `node` until a
/// node without predecessor: `node` first, that last node at the end.
pub open spec fn trace(nodes: Seq<PathNode>, node: PathNode) -> Seq<PathPoints>
    decreases node.g,
{
    match node.came_from_index {
        Some(p) => if p < nodes.len() && nodes[p as int].g < node.g {
            seq![point_of(node)] + trace(nodes, nodes[p as int])
        } else {
            seq![point_of(node)]
        },
        None => seq![point_of(node)],
    }
}

/// Walks the predecessor links from `end_node` back to a node without
/// predecessor and lists the cells passed, `end_node` first. The result is
/// empty if `end_node` itself has no predecessor.
pub fn calculate_path(nodes: &Vec<PathNode>, end_node: &PathNode) -> (path: Vec<PathPoints>)
    requires
        links_descend(nodes@, *end_node),
        forall|i: int| 0 <= i < nodes@.len() ==> links_descend(nodes@, #[trigger] nodes@[i]),
    ensures
        path@ == if end_node.came_from_index.is_none() {
            Seq::<PathPoints>::empty()
        } else {
            trace(nodes@, *end_node)
        },
{
    let mut v: Vec<PathPoints> = Vec::new();
    if end_node.came_from_index.is_some() {
        v.push(PathPoints { x: end_node.x, y: end_node.y });
        let mut current_node: PathNode = *end_node;
        proof {
            assert(v@.drop_last() + trace(nodes@, current_node) =~= trace(nodes@, *end_node));
        }
        while current_node.came_from_index.is_some()
            invariant
                forall|i: int| 0 <= i < nodes@.len() ==> links_descend(nodes@, #[trigger] nodes@[i]),
                links_descend(nodes@, current_node),
                v@.len() >= 1,
                v@.last() == point_of(current_node),
                trace(nodes@, *end_node) == v@.drop_last() + trace(nodes@, current_node),
            decreases current_node.g,
        {
            if let Some(came_from_index) = current_node.came_from_index {
                let came_from_node = nodes[came_from_index];
                let ghost walked = v@;
                v.push(PathPoints { x: came_from_node.x, y: came_from_node.y });
                proof {
                    assert(v@.drop_last() =~= walked);
                    assert(walked =~= walked.drop_last() + seq![point_of(current_node)]);
                    assert(trace(nodes@, current_node) == seq![point_of(current_node)] + trace(
                        nodes@,
                        came_from_node,
                    ));
                    assert(trace(nodes@, *end_node) =~= v@.drop_last() + trace(
                        nodes@,
                        came_from_node,
                    ));
                }
                current_node = came_from_node;
            }
        }
        proof {
            assert(trace(nodes@, current_node) =~= seq![point_of(current_node)]);
            assert(v@ =~= v@.drop_last() + seq![point_of(current_node)]);
        }
    }
    v
}

/// Whether `(x, y)` is a cell of the search grid.
pub open spec fn on_path_grid(x: int, y: int) -> bool {
    0 <= x < PATH_GRID_WIDTH && 0 <= y < PATH_GRID_HEIGHT
}

/// Whether `path` leads from `(to_x, to_y)` back to `(from_x, from_y)` over
/// cells of the search grid, each step going to one of the eight
/// neighbours.
pub open spec fn is_route(path: Seq<PathPoints>, from_x: int, from_y: int, to_x: int, to_y: int) -> bool {
    &&& path.len() >= 1
    &&& path[0].x == to_x && path[0].y == to_y
    &&& path.last().x == from_x && path.last().y == from_y
    &&& forall|i: int| 0 <= i < path.len() ==> on_path_grid((#[trigger] path[i]).x as int, path[i].y as int)
    &&& forall|i: int|
        0 <= i < path.len() - 1 ==> chebyshev(
            (#[trigger] path[i]).x as int,
            path[i].y as int,
            path[i + 1].x as int,
            path[i + 1].y as int,
        ) == 1
}

/// Sum of the step costs along `path`: 10 for a straight step, 14 for a
/// diagonal one.
pub open spec fn route_cost(path: Seq<PathPoints>) -> int
    decreases path.len(),
{
    if path.len() <= 1 {
        0
    } else {
        dist_cost(path[0].x as int, path[0].y as int, path[1].x as int, path[1].y as int)
            + route_cost(path.subrange(1, path.len() as int))
    }
}

/// Octile distance obeys the triangle inequality.
pub proof fn lemma_dist_triangle(ax: int, ay: int, bx: int, by: int, cx: int, cy: int)
    ensures
        dist_cost(ax, ay, cx, cy) <= dist_cost(ax, ay, bx, by) + dist_cost(bx, by, cx, cy),
        dist_cost(ax, ay, bx, by) == dist_cost(bx, by, ax, ay),
        dist_cost(ax, ay, bx, by) >= 0,
        dist_cost(ax, ay, ax, ay) == 0,
{
}

/// The cell one step from `(x, y)` towards `(tx, ty)`.
pub open spec fn step_toward(x: int, y: int, tx: int, ty: int) -> (int, int) {
    (
        if tx > x { x + 1 } else if tx < x { x - 1 } else { x },
        if ty > y { y + 1 } else if ty < y { y - 1 } else { y },
    )
}

/// A step towards another cell stays on the grid, goes to a neighbour, and
/// lies on a cheapest way there.
pub proof fn lemma_step_toward(x: int, y: int, tx: int, ty: int)
    requires
        on_path_grid(x, y),
        on_path_grid(tx, ty),
        x != tx || y != ty,
    ensures
        on_path_grid(step_toward(x, y, tx, ty).0, step_toward(x, y, tx, ty).1),
        chebyshev(x, y, step_toward(x, y, tx, ty).0, step_toward(x, y, tx, ty).1) == 1,
        dist_cost(x, y, step_toward(x, y, tx, ty).0, step_toward(x, y, tx, ty).1) + dist_cost(
            step_toward(x, y, tx, ty).0,
            step_toward(x, y, tx, ty).1,
            tx,
            ty,
        ) == dist_cost(x, y, tx, ty),
        dist_cost(step_toward(x, y, tx, ty).0, step_toward(x, y, tx, ty).1, tx, ty) < dist_cost(
            x,
            y,
            tx,
            ty,
        ),
{
}

/// No way over neighbouring cells is cheaper than the octile distance
/// between its ends.
pub proof fn lemma_route_cost_at_least(path: Seq<PathPoints>)
    requires
        path.len() >= 1,
    ensures
        route_cost(path) >= dist_cost(
            path[0].x as int,
            path[0].y as int,
            path.last().x as int,
            path.last().y as int,
        ),
    decreases path.len(),
{
    if path.len() > 1 {
        let rest = path.subrange(1, path.len() as int);
        lemma_route_cost_at_least(rest);
        assert(rest[0] == path[1]);
        assert(rest.last() == path.last());
        lemma_dist_triangle(
            path[0].x as int,
            path[0].y as int,
            path[1].x as int,
            path[1].y as int,
            path.last().x as int,
            path.last().y as int,
        );
    } else {
        lemma_dist_triangle(
            path[0].x as int,
            path[0].y as int,
            path[0].x as int,
            path[0].y as int,
            path[0].x as int,
            path[0].y as int,
        );
    }
}

/// Octile distance between the cells with indices `a` and `b` of the
/// search grid.
#[verifier::opaque]
pub open spec fn cell_dist(a: int, b: int) -> int {
    dist_cost(
        a / (PATH_GRID_HEIGHT as int),
        a % (PATH_GRID_HEIGHT as int),
        b / (PATH_GRID_HEIGHT as int),
        b % (PATH_GRID_HEIGHT as int),
    )
}

/// Whether the cells with indices `a` and `b` are neighbours.
#[verifier::opaque]
pub open spec fn adjacent_cells(a: int, b: int) -> bool {
    chebyshev(
        a / (PATH_GRID_HEIGHT as int),
        a % (PATH_GRID_HEIGHT as int),
        b / (PATH_GRID_HEIGHT as int),
        b % (PATH_GRID_HEIGHT as int),
    ) == 1
}

/// The distance between two cells of the search grid is a small number,
/// zero from a cell to itself, and 10 or 14 between neighbours.
pub proof fn lemma_cell_dist(a: int, b: int)
    requires
        0 <= a < 20,
        0 <= b < 20,
    ensures
        cell_dist(a, b) == dist_cost(a / 5, a % 5, b / 5, b % 5),
        adjacent_cells(a, b) == (chebyshev(a / 5, a % 5, b / 5, b % 5) == 1),
        0 <= cell_dist(a, b) <= 56,
        cell_dist(a, b) == cell_dist(b, a),
        adjacent_cells(a, b) == adjacent_cells(b, a),
        cell_dist(a, a) == 0,
        adjacent_cells(a, b) ==> a != b && 10 <= cell_dist(a, b) <= 14,
{
    reveal(cell_dist);
    reveal(adjacent_cells);
}

/// The distance between two cells by their indices is the octile distance
/// between their coordinates.
pub proof fn lemma_cell_dist_value(a: int, b: int)
    ensures
        cell_dist(a, b) == dist_cost(a / 5, a % 5, b / 5, b % 5),
{
    reveal(cell_dist);
}

/// The triangle inequality between cells of the search grid.
pub proof fn lemma_cell_triangle(a: int, b: int, c: int)
    ensures
        cell_dist(a, c) <= cell_dist(a, b) + cell_dist(b, c),
{
    reveal(cell_dist);
    lemma_dist_triangle(a / 5, a % 5, b / 5, b % 5, c / 5, c % 5);
}

/// From a cell there is a neighbour on a cheapest way to any other cell.
pub proof fn lemma_cell_step(x: int, n: int) -> (p: int)
    requires
        0 <= x < 20,
        0 <= n < 20,
        x != n,
    ensures
        0 <= p < 20,
        adjacent_cells(x, p),
        adjacent_cells(p, x),
        cell_dist(x, p) + cell_dist(p, n) == cell_dist(x, n),
        cell_dist(p, n) < cell_dist(x, n),
{
    reveal(cell_dist);
    reveal(adjacent_cells);
    lemma_step_toward(x / 5, x % 5, n / 5, n % 5);
    let step = step_toward(x / 5, x % 5, n / 5, n % 5);
    let p = step.0 * 5 + step.1;
    assert(p / 5 == step.0 && p % 5 == step.1);
    p
}

/// The listed neighbours of a cell are cells next to it.
pub proof fn lemma_listed_is_adjacent(c: int, j: int)
    requires
        0 <= c < 20,
        0 <= j < neighbour_indices(c / 5, c % 5, PATH_GRID_WIDTH as int, PATH_GRID_HEIGHT as int, 8).len(),
    ensures
        neighbour_indices(c / 5, c % 5, PATH_GRID_WIDTH as int, PATH_GRID_HEIGHT as int, 8)[j] < 20,
        adjacent_cells(
            c,
            neighbour_indices(c / 5, c % 5, PATH_GRID_WIDTH as int, PATH_GRID_HEIGHT as int, 8)[j] as int,
        ),
{
    reveal(adjacent_cells);
    lemma_neighbour_is_adjacent(c / 5, c % 5, 8, j);
}

/// Every cell next to a cell is among its listed neighbours.
pub proof fn lemma_adjacent_is_listed(c: int, j: int)
    requires
        0 <= c < 20,
        0 <= j < 20,
        adjacent_cells(c, j),
    ensures
        neighbour_indices(c / 5, c % 5, PATH_GRID_WIDTH as int, PATH_GRID_HEIGHT as int, 8).contains(
            j as usize,
        ),
{
    reveal(adjacent_cells);
    let dx = j / 5 - c / 5;
    let dy = j % 5 - c % 5;
    let q: int = if dx == 0 && dy == 1 {
        0
    } else if dx == 1 && dy == 1 {
        1
    } else if dx == 1 && dy == 0 {
        2
    } else if dx == 1 && dy == -1 {
        3
    } else if dx == 0 && dy == -1 {
        4
    } else if dx == -1 && dy == -1 {
        5
    } else if dx == -1 && dy == 0 {
        6
    } else {
        7
    };
    assert(neighbour_offset(q) == (dx, dy));
    lemma_neighbour_listed(c / 5, c % 5, q, 8);
}

/// The bookkeeping a search keeps true: the table mirrors the grid, the
/// start costs nothing, every other reached node hangs on a closed
/// neighbour and costs that neighbour's cost plus the step, no node is
/// recorded cheaper than it can be reached, and closed nodes are recorded
/// at their cheapest.
pub open spec fn table_ok(
    nodes: Seq<PathNode>,
    start: int,
    goal: int,
    closed: Seq<usize>,
    bound: int,
) -> bool {
    &&& nodes.len() == PATH_GRID_WIDTH * PATH_GRID_HEIGHT
    &&& 0 <= start < nodes.len()
    &&& 0 <= goal < nodes.len()
    &&& bound < usize::MAX
    &&& forall|i: int| 0 <= i < nodes.len() ==> node_ok(nodes, start, goal, closed, bound, i)
}

/// What `table_ok` asks of the node at index `i`.
pub open spec fn node_ok(
    nodes: Seq<PathNode>,
    start: int,
    goal: int,
    closed: Seq<usize>,
    bound: int,
    i: int,
) -> bool {
    let n = nodes[i];
    &&& n.index == i
    &&& n.x == i / (PATH_GRID_HEIGHT as int)
    &&& n.y == i % (PATH_GRID_HEIGHT as int)
    &&& n.is_walkable
    &&& n.h == cell_dist(i, goal)
    &&& (n.g == usize::MAX || n.g <= bound)
    &&& (n.g < usize::MAX ==> n.f == n.g + n.h && n.g >= cell_dist(start, i))
    &&& (i == start ==> n.g == 0 && n.came_from_index.is_none())
    &&& (i != start ==> (n.came_from_index.is_none() <==> n.g == usize::MAX))
    &&& (closed.contains(i as usize) ==> n.g == cell_dist(start, i))
    &&& match n.came_from_index {
        Some(p) => {
            &&& p < nodes.len()
            &&& closed.contains(p)
            &&& n.g == nodes[p as int].g + cell_dist(p as int, i)
            &&& adjacent_cells(p as int, i)
        },
        None => true,
    }
}

/// In a table kept as `table_ok` asks, the predecessor links of a reached
/// node lead back to the start over neighbouring cells, and the steps cost
/// what the node records.
pub proof fn lemma_trace_is_route(
    nodes: Seq<PathNode>,
    start: int,
    goal: int,
    closed: Seq<usize>,
    bound: int,
    i: int,
)
    requires
        table_ok(nodes, start, goal, closed, bound),
        0 <= i < nodes.len(),
        nodes[i].g < usize::MAX,
    ensures
        is_route(
            trace(nodes, nodes[i]),
            nodes[start].x as int,
            nodes[start].y as int,
            nodes[i].x as int,
            nodes[i].y as int,
        ),
        route_cost(trace(nodes, nodes[i])) == nodes[i].g,
    decreases nodes[i].g,
{
    let n = nodes[i];
    assert(node_ok(nodes, start, goal, closed, bound, i));
    match n.came_from_index {
        Some(p) => {
            assert(node_ok(nodes, start, goal, closed, bound, p as int));
            lemma_cell_dist(p as int, i);
            lemma_trace_is_route(nodes, start, goal, closed, bound, p as int);
            let rest = trace(nodes, nodes[p as int]);
            let whole = trace(nodes, n);
            assert(whole =~= seq![point_of(n)] + rest);
            assert(whole.subrange(1, whole.len() as int) =~= rest);
            assert forall|k: int| 0 <= k < whole.len() implies on_path_grid(
                (#[trigger] whole[k]).x as int,
                whole[k].y as int,
            ) by {
                if k > 0 {
                    assert(whole[k] == rest[k - 1]);
                }
            }
            assert forall|k: int| 0 <= k < whole.len() - 1 implies chebyshev(
                (#[trigger] whole[k]).x as int,
                whole[k].y as int,
                whole[k + 1].x as int,
                whole[k + 1].y as int,
            ) == 1 by {
                if k > 0 {
                    assert(whole[k] == rest[k - 1]);
                    assert(whole[k + 1] == rest[k]);
                } else {
                    assert(whole[1] == rest[0]);
                }
            }
            assert(whole.last() == rest.last());
        },
        None => {
            assert(i == start);
        },
    }
}

/// Whether `value` occurs in `list`.
pub fn list_contains(list: &Vec<usize>, value: usize) -> (b: bool)
    ensures
        b == list@.contains(value),
{
    let mut i: usize = 0;
    while i < list.len()
        invariant
            i <= list@.len(),
            forall|k: int| 0 <= k < i ==> list@[k] != value,
        decreases list@.len() - i,
    {
        if list[i] == value {
            return true;
        }
        i = i + 1;
    }
    false
}

/// Takes the first occurrence of `value` out of `list`.
pub fn remove_value(list: &mut Vec<usize>, value: usize)
    requires
        old(list)@.contains(value),
    ensures
        exists|i: int|
            0 <= i < old(list)@.len() && old(list)@[i] == value && final(list)@ == old(list)@.remove(i)
                && forall|k: int| 0 <= k < i ==> old(list)@[k] != value,
{
    let mut i: usize = 0;
    while i < list.len()
        invariant
            i <= list@.len(),
            list@ == old(list)@,
            list@.contains(value),
            forall|k: int| 0 <= k < i ==> list@[k] != value,
        decreases list@.len() - i,
    {
        if list[i] == value {
            list.remove(i);
            return ;
        }
        i = i + 1;
    }
    proof {
        let j = choose|j: int| 0 <= j < list@.len() && list@[j] == value;
        assert(false);
    }
}

/// What is in a duplicate-free list once the item at `i` has been removed.
pub proof fn lemma_remove_distinct(s: Seq<usize>, i: int)
    requires
        s.no_duplicates(),
        0 <= i < s.len(),
    ensures
        s.remove(i).no_duplicates(),
        !s.remove(i).contains(s[i]),
        forall|v: usize| v != s[i] ==> (s.contains(v) <==> s.remove(i).contains(v)),
        forall|k: int| 0 <= k < s.remove(i).len() ==> s.contains(#[trigger] s.remove(i)[k]),
{
    let r = s.remove(i);
    assert forall|k: int| 0 <= k < r.len() implies s.contains(#[trigger] r[k]) && r[k] != s[i] by {
        if k < i {
            assert(r[k] == s[k]);
        } else {
            assert(r[k] == s[k + 1]);
        }
    }
    assert forall|v: usize| v != s[i] && s.contains(v) implies r.contains(v) by {
        let j = choose|j: int| 0 <= j < s.len() && s[j] == v;
        if j < i {
            assert(r[j] == v);
        } else {
            assert(r[j - 1] == v);
        }
    }
    assert forall|a: int, b: int| 0 <= a < r.len() && 0 <= b < r.len() && a != b implies r[a]
        != r[b] by {
        let a2 = if a < i { a } else { a + 1 };
        let b2 = if b < i { b } else { b + 1 };
        assert(r[a] == s[a2] && r[b] == s[b2]);
    }
}

/// What is in a list once an item has been pushed.
pub proof fn lemma_push_contains(s: Seq<usize>, v: usize)
    ensures
        forall|x: usize| s.push(v).contains(x) <==> (s.contains(x) || x == v),
        s.no_duplicates() && !s.contains(v) ==> s.push(v).no_duplicates(),
{
    let t = s.push(v);
    assert forall|x: usize| t.contains(x) <==> (s.contains(x) || x == v) by {
        if s.contains(x) {
            let j = choose|j: int| 0 <= j < s.len() && s[j] == x;
            assert(t[j] == x);
        }
        if x == v {
            assert(t[s.len() as int] == v);
        }
    }
}

/// A duplicate-free list of numbers below `n` has at most `n` items.
pub proof fn lemma_distinct_bounded(s: Seq<usize>, n: nat)
    requires
        s.no_duplicates(),
        forall|k: int| 0 <= k < s.len() ==> s[k] < n,
    ensures
        s.len() <= n,
    decreases n,
{
    if s.len() > 0 {
        if n == 0 {
            assert(s[0] < n);
        } else if s.contains((n - 1) as usize) {
            let j = choose|j: int| 0 <= j < s.len() && s[j] == (n - 1) as usize;
            lemma_remove_distinct(s, j);
            let r = s.remove(j);
            assert forall|k: int| 0 <= k < r.len() implies r[k] < n - 1 by {
                assert(s.contains(r[k]));
                let q = choose|q: int| 0 <= q < s.len() && s[q] == r[k];
                assert(r.contains(r[k]));
            }
            lemma_distinct_bounded(r, (n - 1) as nat);
        } else {
            assert forall|k: int| 0 <= k < s.len() implies s[k] < n - 1 by {
                assert(s.contains(s[k]));
            }
            lemma_distinct_bounded(s, (n - 1) as nat);
        }
    }
}

/// Every listed neighbour is a cell of the search grid next to `(x, y)`.
pub proof fn lemma_neighbour_is_adjacent(x: int, y: int, k: int, j: int)
    requires
        on_path_grid(x, y),
        0 <= k <= 8,
        0 <= j < neighbour_indices(x, y, PATH_GRID_WIDTH as int, PATH_GRID_HEIGHT as int, k).len(),
    ensures
        neighbour_indices(x, y, PATH_GRID_WIDTH as int, PATH_GRID_HEIGHT as int, k)[j] < 20,
        chebyshev(
            neighbour_indices(x, y, PATH_GRID_WIDTH as int, PATH_GRID_HEIGHT as int, k)[j] as int / 5,
            neighbour_indices(x, y, PATH_GRID_WIDTH as int, PATH_GRID_HEIGHT as int, k)[j] as int % 5,
            x,
            y,
        ) == 1,
    decreases k,
{
    if k > 0 {
        let before = neighbour_indices(x, y, PATH_GRID_WIDTH as int, PATH_GRID_HEIGHT as int, k - 1);
        if j < before.len() {
            lemma_neighbour_is_adjacent(x, y, k - 1, j);
        }
    }
}

/// Every cell of the search grid next to `(x, y)` is listed.
pub proof fn lemma_neighbour_listed(x: int, y: int, q: int, k: int)
    requires
        on_path_grid(x, y),
        0 <= q < k <= 8,
        on_path_grid(x + neighbour_offset(q).0, y + neighbour_offset(q).1),
    ensures
        neighbour_indices(x, y, PATH_GRID_WIDTH as int, PATH_GRID_HEIGHT as int, k).contains(
            ((y + neighbour_offset(q).1) + (x + neighbour_offset(q).0) * 5) as usize,
        ),
    decreases k,
{
    let now = neighbour_indices(x, y, PATH_GRID_WIDTH as int, PATH_GRID_HEIGHT as int, k);
    let before = neighbour_indices(x, y, PATH_GRID_WIDTH as int, PATH_GRID_HEIGHT as int, k - 1);
    let e = ((y + neighbour_offset(q).1) + (x + neighbour_offset(q).0) * 5) as usize;
    if q == k - 1 {
        assert(now[before.len() as int] == e);
    } else {
        lemma_neighbour_listed(x, y, q, k - 1);
        let j = choose|j: int| 0 <= j < before.len() && before[j] == e;
        assert(now[j] == e);
    }
}

/// What a search keeps true of its table and its two lists: open nodes are
/// reached and not closed, no node is listed twice, every reached node is
/// on one of the lists, and the goal is never closed.
pub open spec fn search_ok(
    nodes: Seq<PathNode>,
    open: Seq<usize>,
    closed: Seq<usize>,
    start: int,
    goal: int,
    bound: int,
) -> bool {
    &&& table_ok(nodes, start, goal, closed, bound)
    &&& forall|k: int|
        0 <= k < open.len() ==> (#[trigger] open[k]) < nodes.len() && nodes[open[k] as int].g
            < usize::MAX && !closed.contains(open[k])
    &&& open.no_duplicates()
    &&& closed.no_duplicates()
    &&& forall|k: int| 0 <= k < closed.len() ==> (#[trigger] closed[k]) < nodes.len()
    &&& forall|i: int|
        0 <= i < nodes.len() && (#[trigger] nodes[i]).g < usize::MAX ==> closed.contains(i as usize)
            || open.contains(i as usize)
    &&& !closed.contains(goal as usize)
}

/// Whether every grid neighbour of every closed node, but for the node
/// `except`, has been reached at no more than that node's cost plus the
/// step.
pub open spec fn closed_settled(nodes: Seq<PathNode>, closed: Seq<usize>, except: int) -> bool {
    forall|i: int, j: int|
        0 <= i < nodes.len() && 0 <= j < nodes.len() && i != except && closed.contains(i as usize)
            && #[trigger] adjacent_cells(i, j) ==> nodes[j].g <= nodes[i].g + cell_dist(i, j)
}

/// While the search runs, every node that is not closed has an open node
/// on a cheapest way to it from the start, recorded at its cheapest. The
/// lemma finds it by walking from `x`, a node known to lie on such a way,
/// towards `n`.
pub proof fn lemma_frontier(
    nodes: Seq<PathNode>,
    open: Seq<usize>,
    closed: Seq<usize>,
    start: int,
    goal: int,
    bound: int,
    x: int,
    n: int,
) -> (m: int)
    requires
        search_ok(nodes, open, closed, start, goal, bound),
        closed_settled(nodes, closed, -1),
        0 <= x < nodes.len(),
        0 <= n < nodes.len(),
        nodes[x].g == cell_dist(start, x),
        cell_dist(start, x) + cell_dist(x, n) == cell_dist(start, n),
        !closed.contains(n as usize),
    ensures
        0 <= m < nodes.len(),
        open.contains(m as usize),
        nodes[m].g == cell_dist(start, m),
        cell_dist(start, m) + cell_dist(m, n) == cell_dist(start, n),
    decreases cell_dist(x, n),
{
    assert(node_ok(nodes, start, goal, closed, bound, x));
    lemma_cell_dist(start, x);
    lemma_cell_dist(x, n);
    if open.contains(x as usize) {
        x
    } else {
        assert(closed.contains(x as usize));
        let p = lemma_cell_step(x, n);
        assert(node_ok(nodes, start, goal, closed, bound, p));
        assert(nodes[p].g <= nodes[x].g + cell_dist(x, p));
        lemma_cell_dist(x, p);
        lemma_cell_triangle(start, p, n);
        lemma_cell_triangle(start, x, p);
        lemma_cell_dist(p, n);
        lemma_frontier(nodes, open, closed, start, goal, bound, p, n)
    }
}

/// If the start is closed and every grid neighbour of a closed node is
/// closed, then every node is closed.
pub proof fn lemma_closed_covers(closed: Seq<usize>, start: int, i: int)
    requires
        0 <= start < 20,
        0 <= i < 20,
        closed.contains(start as usize),
        forall|a: int, b: int|
            0 <= a < 20 && 0 <= b < 20 && closed.contains(a as usize) && #[trigger] adjacent_cells(
                a,
                b,
            ) ==> closed.contains(b as usize),
    ensures
        closed.contains(i as usize),
    decreases cell_dist(i, start),
{
    lemma_cell_dist(i, start);
    if i != start {
        let j = lemma_cell_step(i, start);
        lemma_cell_dist(j, start);
        lemma_closed_covers(closed, start, j);
        assert(adjacent_cells(j, i));
    }
}

/// The bookkeeping stays true when the bound on recorded costs is raised.
pub proof fn lemma_raise_bound(
    nodes: Seq<PathNode>,
    open: Seq<usize>,
    closed: Seq<usize>,
    start: int,
    goal: int,
    low: int,
    high: int,
)
    requires
        search_ok(nodes, open, closed, start, goal, low),
        low <= high < usize::MAX,
    ensures
        search_ok(nodes, open, closed, start, goal, high),
{
    assert forall|i: int| 0 <= i < nodes.len() implies node_ok(
        nodes,
        start,
        goal,
        closed,
        high,
        i,
    ) by {
        assert(node_ok(nodes, start, goal, closed, low, i));
    }
}

/// The open node with the lowest `f` is recorded at its cheapest.
pub proof fn lemma_popped_is_cheapest(
    nodes: Seq<PathNode>,
    open: Seq<usize>,
    closed: Seq<usize>,
    start: int,
    goal: int,
    bound: int,
    cur: int,
)
    requires
        search_ok(nodes, open, closed, start, goal, bound),
        closed_settled(nodes, closed, -1),
        0 <= cur < nodes.len(),
        open.contains(cur as usize),
        forall|q: int| 0 <= q < open.len() ==> nodes[cur].f <= nodes[(#[trigger] open[q]) as int].f,
    ensures
        nodes[cur].g == cell_dist(start, cur),
{
    assert(node_ok(nodes, start, goal, closed, bound, start));
    assert(node_ok(nodes, start, goal, closed, bound, cur));
    lemma_cell_dist(start, start);
    lemma_cell_dist(start, cur);
    let m = lemma_frontier(nodes, open, closed, start, goal, bound, start, cur);
    let q = choose|q: int| 0 <= q < open.len() && open[q] == m as usize;
    assert(nodes[cur].f <= nodes[open[q] as int].f);
    assert(node_ok(nodes, start, goal, closed, bound, m));
    lemma_cell_triangle(m, cur, goal);
    lemma_cell_dist(m, cur);
}

/// The bookkeeping stays true when the open node `cur`, recorded at its
/// cheapest and not the goal, moves from the open list to the closed list.
pub proof fn lemma_close(
    nodes: Seq<PathNode>,
    open: Seq<usize>,
    closed: Seq<usize>,
    start: int,
    goal: int,
    bound: int,
    cur: int,
    at: int,
)
    requires
        search_ok(nodes, open, closed, start, goal, bound),
        closed_settled(nodes, closed, -1),
        0 <= at < open.len(),
        open[at] == cur as usize,
        0 <= cur < nodes.len(),
        cur != goal,
        nodes[cur].g == cell_dist(start, cur),
    ensures
        search_ok(nodes, open.remove(at), closed.push(cur as usize), start, goal, bound),
        closed_settled(nodes, closed.push(cur as usize), cur),
        closed.push(cur as usize).contains(cur as usize),
        forall|v: usize| closed.contains(v) ==> closed.push(cur as usize).contains(v),
{
    let open2 = open.remove(at);
    let closed2 = closed.push(cur as usize);
    lemma_remove_distinct(open, at);
    lemma_push_contains(closed, cur as usize);
    assert forall|i: int| 0 <= i < nodes.len() implies node_ok(
        nodes,
        start,
        goal,
        closed2,
        bound,
        i,
    ) by {
        assert(node_ok(nodes, start, goal, closed, bound, i));
    }
    assert forall|k: int| 0 <= k < open2.len() implies (#[trigger] open2[k]) < nodes.len()
        && nodes[open2[k] as int].g < usize::MAX && !closed2.contains(open2[k]) by {
        let v = open2[k];
        assert(open.contains(v));
        let q = choose|q: int| 0 <= q < open.len() && open[q] == v;
        assert(open2.contains(v));
    }
    assert forall|k: int| 0 <= k < closed2.len() implies (#[trigger] closed2[k]) < nodes.len() by {
        if k < closed.len() {
            assert(closed2[k] == closed[k]);
        }
    }
    assert forall|i: int|
        0 <= i < nodes.len() && (#[trigger] nodes[i]).g < usize::MAX implies closed2.contains(
        i as usize,
    ) || open2.contains(i as usize) by {
        assert(closed.contains(i as usize) || open.contains(i as usize));
    }
}

/// The bookkeeping stays true when a neighbour `n` of the closed node `cur`
/// that is not closed itself is recorded anew: reached from `cur`, cheaper
/// than before, and put on the open list if it was not there.
pub proof fn lemma_relax(
    before: Seq<PathNode>,
    after: Seq<PathNode>,
    open: Seq<usize>,
    open_after: Seq<usize>,
    closed: Seq<usize>,
    start: int,
    goal: int,
    bound: int,
    cur: int,
    n: int,
)
    requires
        search_ok(before, open, closed, start, goal, bound),
        closed_settled(before, closed, cur),
        0 <= cur < before.len(),
        0 <= n < before.len(),
        closed.contains(cur as usize),
        closed.contains(start as usize),
        !closed.contains(n as usize),
        adjacent_cells(cur, n),
        before[cur].g == cell_dist(start, cur),
        before[cur].g + cell_dist(cur, n) < before[n].g,
        before[cur].g + cell_dist(cur, n) <= bound,
        bound <= 14 * MAX_EXPANSIONS,
        after == before.update(
            n,
            PathNode {
                came_from_index: Some(cur as usize),
                g: (before[cur].g + cell_dist(cur, n)) as usize,
                f: (before[cur].g + cell_dist(cur, n) + before[n].h) as usize,
                ..before[n]
            },
        ),
        open_after == if open.contains(n as usize) {
            open
        } else {
            open.push(n as usize)
        },
    ensures
        search_ok(after, open_after, closed, start, goal, bound),
        closed_settled(after, closed, cur),
        forall|j: int| 0 <= j < before.len() ==> (#[trigger] after[j]).g <= before[j].g,
{
    lemma_push_contains(open, n as usize);
    lemma_cell_triangle(start, cur, n);
    lemma_cell_dist(cur, n);
    lemma_cell_dist(n, goal);
    assert(node_ok(before, start, goal, closed, bound, n));
    assert(node_ok(before, start, goal, closed, bound, cur));
    assert forall|i: int| 0 <= i < after.len() implies node_ok(
        after,
        start,
        goal,
        closed,
        bound,
        i,
    ) by {
        assert(node_ok(before, start, goal, closed, bound, i));
    }
    assert forall|q: int| 0 <= q < open_after.len() implies (#[trigger] open_after[q]) < after.len()
        && after[open_after[q] as int].g < usize::MAX && !closed.contains(open_after[q]) by {
        if q < open.len() {
            assert(open_after[q] == open[q]);
            assert(before[open[q] as int].g < usize::MAX);
        }
    }
    assert forall|i: int|
        0 <= i < after.len() && (#[trigger] after[i]).g < usize::MAX implies closed.contains(
        i as usize,
    ) || open_after.contains(i as usize) by {
        if i != n {
            assert(before[i].g < usize::MAX);
        }
    }
    assert forall|i: int, j: int|
        0 <= i < after.len() && 0 <= j < after.len() && i != cur && closed.contains(i as usize)
            && #[trigger] adjacent_cells(i, j) implies after[j].g <= after[i].g + cell_dist(
        i,
        j,
    ) by {
        assert(before[j].g <= before[i].g + cell_dist(i, j));
        assert(after[i] == before[i]);
    }
}

/// Once every listed neighbour of the node `cur` has been looked at, every
/// grid neighbour of every closed node has been reached.
pub proof fn lemma_settled(nodes: Seq<PathNode>, closed: Seq<usize>, cur: int, neighbours: Seq<usize>)
    requires
        nodes.len() == 20,
        0 <= cur < 20,
        closed_settled(nodes, closed, cur),
        neighbours == neighbour_indices(
            cur / 5,
            cur % 5,
            PATH_GRID_WIDTH as int,
            PATH_GRID_HEIGHT as int,
            8,
        ),
        forall|q: int|
            0 <= q < neighbours.len() ==> nodes[(#[trigger] neighbours[q]) as int].g <= nodes[cur].g
                + cell_dist(cur, neighbours[q] as int),
    ensures
        closed_settled(nodes, closed, -1),
{
    assert forall|i: int, j: int|
        0 <= i < nodes.len() && 0 <= j < nodes.len() && closed.contains(i as usize)
            && #[trigger] adjacent_cells(i, j) implies nodes[j].g <= nodes[i].g + cell_dist(
        i,
        j,
    ) by {
        if i == cur {
            lemma_adjacent_is_listed(cur, j);
            let at = choose|at: int| 0 <= at < neighbours.len() && neighbours[at] == j as usize;
            assert(nodes[neighbours[at] as int].g <= nodes[cur].g + cell_dist(
                cur,
                neighbours[at] as int,
            ));
        }
    }
}

/// A search that has not reached the goal still has an open node and has
/// closed fewer nodes than the grid has cells.
pub proof fn lemma_search_goes_on(
    nodes: Seq<PathNode>,
    open: Seq<usize>,
    closed: Seq<usize>,
    start: int,
    goal: int,
    bound: int,
)
    requires
        search_ok(nodes, open, closed, start, goal, bound),
        closed_settled(nodes, closed, -1),
        closed.len() == 0 ==> open.len() > 0,
        closed.len() > 0 ==> closed.contains(start as usize),
    ensures
        open.len() > 0,
        closed.len() < 20,
{
    lemma_distinct_bounded(closed, 20);
    if open.len() == 0 || closed.len() == 20 {
        if open.len() == 0 {
            assert forall|a: int, b: int|
                0 <= a < 20 && 0 <= b < 20 && closed.contains(a as usize)
                    && #[trigger] adjacent_cells(a, b) implies closed.contains(b as usize) by {
                assert(node_ok(nodes, start, goal, closed, bound, a));
                lemma_cell_dist(start, a);
                lemma_cell_dist(a, b);
                assert(nodes[b].g <= nodes[a].g + cell_dist(a, b));
                assert(closed.contains(b as usize) || open.contains(b as usize));
                if open.contains(b as usize) {
                    let q = choose|q: int| 0 <= q < open.len() && open[q] == b as usize;
                }
            }
            lemma_closed_covers(closed, start, goal);
        } else {
            lemma_all_listed(closed, 20, goal as usize);
        }
        assert(false);
    }
}

/// A duplicate-free list of `n` numbers below `n` holds each of them.
pub proof fn lemma_all_listed(s: Seq<usize>, n: nat, v: usize)
    requires
        s.no_duplicates(),
        forall|k: int| 0 <= k < s.len() ==> s[k] < n,
        s.len() == n,
        v < n,
    ensures
        s.contains(v),
{
    if !s.contains(v) {
        let t = s.push(v);
        lemma_push_contains(s, v);
        assert forall|k: int| 0 <= k < t.len() implies t[k] < n by {
            if k < s.len() {
                assert(t[k] == s[k]);
            }
        }
        lemma_distinct_bounded(t, n);
    }
}

/// Searches the fully walkable 4 by 5 grid for a cheapest way from the
/// start cell to the end cell. The result lists the cells of the way found,
/// the end cell first and the start cell last, each next to the one before;
/// its steps cost the octile distance between the two cells, which no way
/// can beat. It is empty when start and end are the same cell.
pub fn find_path(start_x: usize, start_y: usize, end_x: usize, end_y: usize) -> (path: Vec<PathPoints>)
    requires
        on_path_grid(start_x as int, start_y as int),
        on_path_grid(end_x as int, end_y as int),
    ensures
        start_x == end_x && start_y == end_y ==> path@.len() == 0,
        !(start_x == end_x && start_y == end_y) ==> is_route(
            path@,
            start_x as int,
            start_y as int,
            end_x as int,
            end_y as int,
        ),
        route_cost(path@) == dist_cost(start_x as int, start_y as int, end_x as int, end_y as int),
{
    let grid_width = PATH_GRID_WIDTH;
    let grid_height = PATH_GRID_HEIGHT;
    let end_index = calculate_index(end_x, end_y, grid_height);
    let mut nodes: Vec<PathNode> = Vec::new();
    let mut i: usize = 0;
    while i < grid_width
        invariant
            grid_width == PATH_GRID_WIDTH,
            grid_height == PATH_GRID_HEIGHT,
            on_path_grid(end_x as int, end_y as int),
            end_index == end_y + end_x * 5,
            i <= grid_width,
            nodes@.len() == i * 5,
            forall|k: int|
                0 <= k < nodes@.len() ==> fresh_node(#[trigger] nodes@[k], k, end_index as int),
        decreases grid_width - i,
    {
        let mut j: usize = 0;
        while j < grid_height
            invariant
                grid_width == PATH_GRID_WIDTH,
                grid_height == PATH_GRID_HEIGHT,
                on_path_grid(end_x as int, end_y as int),
                end_index == end_y + end_x * 5,
                i < grid_width,
                j <= grid_height,
                nodes@.len() == i * 5 + j,
                forall|k: int|
                    0 <= k < nodes@.len() ==> fresh_node(#[trigger] nodes@[k], k, end_index as int),
            decreases grid_height - j,
        {
            let g = usize::MAX;
            let h = calculate_dist_cost(i, j, end_x, end_y);
            let index = calculate_index(i, j, grid_height);
            let f = g;
            proof {
                assert(index as int / 5 == i && index as int % 5 == j);
                assert(end_index as int / 5 == end_x && end_index as int % 5 == end_y);
                lemma_cell_dist_value(index as int, end_index as int);
            }
            let node = PathNode {
                x: i,
                y: j,
                index,
                g,
                h,
                f,
                is_walkable: true,
                came_from_index: None,
            };
            nodes.push(node);
            j = j + 1;
        }
        i = i + 1;
    }
    let index = calculate_index(start_x, start_y, grid_height);
    let mut start_node = nodes[index];
    start_node.g = 0;
    start_node.calculate_f_cost();
    nodes.set(index, start_node);

    let mut open_list: Vec<usize> = Vec::new();
    let mut closed_list: Vec<usize> = Vec::new();
    open_list.push(index);
    let mut count: usize = 0;
    let ghost start = index as int;
    let ghost goal = end_index as int;
    proof {
        assert(open_list@[0] == index);
        lemma_cell_dist(start, start);
        lemma_cell_dist(start, goal);
        assert forall|i: int| 0 <= i < nodes@.len() && (#[trigger] nodes@[i]).g < usize::MAX implies open_list@.contains(
            i as usize,
        ) by {
            assert(i == index);
        }
        assert(search_ok(nodes@, open_list@, closed_list@, start, goal, 0));
    }
    while open_list.len() > 0 && count < MAX_EXPANSIONS
        invariant_except_break
            closed_list@.len() == count,
        invariant
            grid_width == PATH_GRID_WIDTH,
            grid_height == PATH_GRID_HEIGHT,
            index < 20,
            end_index < 20,
            start == index,
            goal == end_index,
            count <= MAX_EXPANSIONS,
            search_ok(nodes@, open_list@, closed_list@, start, goal, 14 * count),
            closed_settled(nodes@, closed_list@, -1),
            closed_list@.len() == 0 ==> open_list@.len() > 0 && open_list@[0] == index,
            closed_list@.len() > 0 ==> closed_list@.contains(index),
        ensures
            nodes@[goal].g == cell_dist(start, goal) || (closed_list@.len() == count && !(
                open_list@.len() > 0 && count < MAX_EXPANSIONS)),
        decreases MAX_EXPANSIONS - count,
    {
        count = count + 1;
        let ghost b1: int = 14 * count;
        let ghost b0: int = 14 * (count - 1);
        if let Some(current_node_index) = get_lowest_fcost_index(&open_list, &nodes) {
            let ghost cur = current_node_index as int;
            proof {
                let p = choose|p: int|
                    0 <= p < open_list@.len() && #[trigger] open_list@[p] == current_node_index
                        && (forall|q: int|
                        0 <= q < open_list@.len() ==> nodes@[current_node_index as int].f
                            <= nodes@[open_list@[q] as int].f);
                assert(open_list@.contains(current_node_index));
                lemma_popped_is_cheapest(nodes@, open_list@, closed_list@, start, goal, b0, cur);
                lemma_raise_bound(nodes@, open_list@, closed_list@, start, goal, b0, b1);
            }
            if current_node_index == end_index {
                break;
            }
            let current_node = nodes[current_node_index];
            let ghost open_before = open_list@;
            let ghost closed_before = closed_list@;
            remove_value(&mut open_list, current_node_index);
            closed_list.push(current_node_index);
            proof {
                let at = choose|at: int|
                    0 <= at < open_before.len() && open_before[at] == current_node_index
                        && open_list@ == open_before.remove(at);
                lemma_close(nodes@, open_before, closed_before, start, goal, b1, cur, at);
                assert(node_ok(nodes@, start, goal, closed_list@, b1, cur));
                assert(node_ok(nodes@, start, goal, closed_before, b0, cur));
                if closed_before.len() == 0 {
                    assert(open_before.no_duplicates());
                    if cur != start {
                        assert(node_ok(nodes@, start, goal, closed_before, b0, start));
                    }
                }
            }

            let neighbours = get_neighbour_indicies(
                current_node.x,
                current_node.y,
                grid_width,
                grid_height,
            );
            proof {
                assert forall|q: int| 0 <= q < neighbours@.len() implies (#[trigger] neighbours@[q])
                    < 20 && adjacent_cells(cur, neighbours@[q] as int) by {
                    lemma_listed_is_adjacent(cur, q);
                }
            }
            let mut k: usize = 0;
            while k < neighbours.len()
                invariant
                    forall|q: int|
                        0 <= q < neighbours@.len() ==> (#[trigger] neighbours@[q]) < 20
                            && adjacent_cells(cur, neighbours@[q] as int),
                    nodes@.len() == 20,
                    grid_width == PATH_GRID_WIDTH,
                    grid_height == PATH_GRID_HEIGHT,
                    index < 20,
                    end_index < 20,
                    start == index,
                    goal == end_index,
                    cur == current_node_index,
                    b1 == 14 * count,
                    1 <= count <= MAX_EXPANSIONS,
                    current_node_index < 20,
                    k <= neighbours@.len(),
                    current_node.x == cur / 5,
                    current_node.y == cur % 5,
                    current_node.g == nodes@[cur].g,
                    current_node.g <= 14 * (count - 1),
                    current_node.g == cell_dist(start, cur),
                    closed_list@.contains(current_node_index),
                    closed_list@.contains(index),
                    search_ok(nodes@, open_list@, closed_list@, start, goal, b1),
                    closed_settled(nodes@, closed_list@, cur),
                    forall|q: int|
                        0 <= q < k ==> nodes@[(#[trigger] neighbours@[q]) as int].g <= current_node.g
                            + cell_dist(cur, neighbours@[q] as int),
                decreases neighbours@.len() - k,
            {
                let n = neighbours[k];
                let ghost nodes_before = nodes@;
                let ghost open_mid = open_list@;
                proof {
                    assert(node_ok(nodes@, start, goal, closed_list@, b1, n as int));
                    lemma_cell_dist(cur, n as int);
                    lemma_cell_dist(n as int, goal);
                    lemma_cell_dist(start, n as int);
                    lemma_cell_triangle(start, cur, n as int);
                }
                if !list_contains(&closed_list, n) {
                    let mut neighbour_node = nodes[n];
                    if neighbour_node.is_walkable {
                        let tentative_g_cost = current_node.g + calculate_dist_cost(
                            current_node.x,
                            current_node.y,
                            neighbour_node.x,
                            neighbour_node.y,
                        );
                        if tentative_g_cost < neighbour_node.g {
                            neighbour_node.came_from_index = Some(current_node_index);
                            neighbour_node.g = tentative_g_cost;
                            neighbour_node.calculate_f_cost();
                            nodes.set(n, neighbour_node);
                            if !list_contains(&open_list, neighbour_node.index) {
                                open_list.push(neighbour_node.index);
                            }
                            proof {
                                lemma_relax(
                                    nodes_before,
                                    nodes@,
                                    open_mid,
                                    open_list@,
                                    closed_list@,
                                    start,
                                    goal,
                                    b1,
                                    cur,
                                    n as int,
                                );
                            }
                        }
                    }
                }
                proof {
                    assert forall|q: int| 0 <= q < k + 1 implies nodes@[(
                    #[trigger] neighbours@[q]) as int].g <= current_node.g + cell_dist(
                        cur,
                        neighbours@[q] as int,
                    ) by {
                        let e = neighbours@[q] as int;
                        assert(nodes@[e].g <= nodes_before[e].g);
                        if q < k {
                            assert(nodes_before[e].g <= current_node.g + cell_dist(cur, e));
                        }
                    }
                }
                k = k + 1;
            }
            proof {
                lemma_settled(nodes@, closed_list@, cur, neighbours@);
            }
        }
    }
    let ghost bound: int = 14 * count;
    proof {
        if nodes@[goal].g != cell_dist(start, goal) {
            lemma_search_goes_on(nodes@, open_list@, closed_list@, start, goal, bound);
            assert(false);
        }
    }
    let end_node = nodes[end_index];
    proof {
        lemma_cell_dist(start, goal);
        assert forall|i: int| 0 <= i < nodes@.len() implies links_descend(
            nodes@,
            #[trigger] nodes@[i],
        ) by {
            assert(node_ok(nodes@, start, goal, closed_list@, bound, i));
            match nodes@[i].came_from_index {
                Some(p) => {
                    lemma_cell_dist(p as int, i);
                },
                None => {},
            }
        }
        assert(node_ok(nodes@, start, goal, closed_list@, bound, goal));
        assert(node_ok(nodes@, start, goal, closed_list@, bound, start));
        lemma_trace_is_route(nodes@, start, goal, closed_list@, bound, goal);
        if end_node.came_from_index.is_none() {
            assert(goal == start);
        }
    }
    calculate_path(&nodes, &end_node)
}

/// A node as the search first sets it up: at its own place in the table,
/// walkable, not reached yet.
pub open spec fn fresh_node(node: PathNode, k: int, goal: int) -> bool {
    &&& node.index == k
    &&& node.h == cell_dist(k, goal)
    &&& node.x == k / (PATH_GRID_HEIGHT as int)
    &&& node.y == k % (PATH_GRID_HEIGHT as int)
    &&& node.is_walkable
    &&& node.g == usize::MAX
    &&& node.came_from_index.is_none()
}

} // verus!
