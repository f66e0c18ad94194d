//! Shortest routes through the cube: A* over cell costs and breadth-first
//! search over moves, both computed by the `pathfinding` crate.

use vstd::prelude::*;
use crate::walk::{
    Pos, GRID, in_cube, at_cube, linked, is_walk, neighbours, manhattan, walk_between, no_repeats, reachable,
    entry_walk, lemma_neighbours, lemma_entry_walk, lemma_walk_len_lower_bound, cube_neighbours,
    manhattan_exec, same_pos,
};
use crate::grid::{
    CostGrid, cost_at, covers_cube, walk_cost, grid_covers_cube, max_cube_cost, min_cube_cost, grid_cells,
    grid_dims, cube_total, free_cells_sum, lemma_free_sum_x_bounds,
};

verus! {

/// Every cell of the cube costs at least 1, which makes the Manhattan
/// distance a lower bound of the cost of reaching the goal.
pub open spec fn positive_costs(g: CostGrid) -> bool {
    forall|p: Pos| in_cube(p) ==> #[trigger] cost_at(g, p) >= 1
}

/// The costs are small enough that no sum A* forms overflows `u32`, whatever
/// the costs: the cost of every cell of the cube, plus that of one more move,
/// plus the largest heuristic (`3 * (GRID - 1)`).
pub open spec fn astar_sums_fit(g: CostGrid) -> bool {
    forall|p: Pos| in_cube(p) ==> cube_total(g) + #[trigger] cost_at(g, p) + 3 * (GRID - 1) <= u32::MAX
}

/// No sum A* forms overflows `u32`. With every cell costing at least 1 the
/// search only adds a move to a node no dearer than the cheapest route, so
/// every sum is that of a walk without repeated cells: the cost of the whole
/// cube plus the largest heuristic fits. Otherwise `astar_sums_fit` does.
pub open spec fn astar_fits(g: CostGrid) -> bool {
    ||| positive_costs(g) && cube_total(g) + 3 * (GRID - 1) <= u32::MAX
    ||| astar_sums_fit(g)
}

/// No sum A* forms from `start` overflows `u32`: from a cell of the cube
/// `astar_fits` suffices; from one move outside, every route crosses the one
/// neighbour inside, so the search is held to `astar_sums_fit`.
pub open spec fn astar_fits_from(g: CostGrid, start: Pos) -> bool {
    if in_cube(start) { astar_fits(g) } else { astar_sums_fit(g) }
}

/// What `pathfinding::prelude::astar` returns for a grid of these cells and
/// shape, from `start` to `goal`: a path and its cost, or nothing.
pub uninterp spec fn astar_route(cells: Seq<u32>, dims: (usize, usize, usize), start: Pos, goal: Pos) -> Option<(Seq<Pos>, u32)>;

/// What `pathfinding::prelude::bfs` returns over the cube from `start` to `goal`.
pub uninterp spec fn bfs_route(start: Pos, goal: Pos) -> Option<Seq<Pos>>;

/// `c` is the least cost of a walk from `a` to `b` on `g`: some walk costs
/// `c`, and none costs less.
pub open spec fn least_cost(g: CostGrid, a: Pos, b: Pos, c: int) -> bool {
    &&& exists|w: Seq<Pos>| walk_between(w, a, b) && walk_cost(g, w) == c
    &&& forall|w: Seq<Pos>| walk_between(w, a, b) ==> c <= #[trigger] walk_cost(g, w)
}

/// A walk costs no more on `g1` than on `g2` when no cell of the cube costs
/// more on `g1`.
proof fn lemma_walk_cost_le(g1: CostGrid, g2: CostGrid, w: Seq<Pos>)
    requires
        is_walk(w),
        forall|p: Pos| in_cube(p) ==> #[trigger] cost_at(g1, p) <= cost_at(g2, p),
    ensures
        walk_cost(g1, w) <= walk_cost(g2, w),
    decreases w.len(),
{
    if w.len() > 1 {
        let v = w.drop_last();
        assert forall|i: int| 0 <= i < v.len() - 1 implies #[trigger] linked(v[i], v[i + 1]) by {
            assert(linked(w[i], w[i + 1]));
        }
        lemma_walk_cost_le(g1, g2, v);
        assert(linked(w[w.len() - 2], w[w.len() - 2 + 1]));
        assert(in_cube(w.last()));
    }
}

/// A walk costs `k` times as much on `g2` as on `g1` when every cell of the
/// cube does.
proof fn lemma_walk_cost_scaled(g1: CostGrid, g2: CostGrid, w: Seq<Pos>, k: int)
    requires
        is_walk(w),
        forall|p: Pos| in_cube(p) ==> #[trigger] cost_at(g2, p) == k * cost_at(g1, p),
    ensures
        walk_cost(g2, w) == k * walk_cost(g1, w),
    decreases w.len(),
{
    if w.len() > 1 {
        let v = w.drop_last();
        assert forall|i: int| 0 <= i < v.len() - 1 implies #[trigger] linked(v[i], v[i + 1]) by {
            assert(linked(w[i], w[i + 1]));
        }
        lemma_walk_cost_scaled(g1, g2, v, k);
        assert(linked(w[w.len() - 2], w[w.len() - 2 + 1]));
        assert(in_cube(w.last()));
        let a = walk_cost(g1, v);
        let c = cost_at(g1, w.last()) as int;
        assert(k * a + k * c == k * (a + c)) by (nonlinear_arith);
    }
}

/// Dearer cells never make the cheapest route cheaper: when no cell of the
/// cube costs less on `g2` than on `g1`, the least cost on `g1` is at most
/// that on `g2`.
pub proof fn lemma_least_cost_monotone(g1: CostGrid, g2: CostGrid, a: Pos, b: Pos, c1: int, c2: int)
    requires
        least_cost(g1, a, b, c1),
        least_cost(g2, a, b, c2),
        forall|p: Pos| in_cube(p) ==> #[trigger] cost_at(g1, p) <= cost_at(g2, p),
    ensures
        c1 <= c2,
{
    let w = choose|w: Seq<Pos>| walk_between(w, a, b) && walk_cost(g2, w) == c2;
    lemma_walk_cost_le(g1, g2, w);
    assert(c1 <= walk_cost(g1, w));
}

/// Scaling every cell of the cube by `k >= 0` scales the least cost by `k`.
pub proof fn lemma_least_cost_scaled(g1: CostGrid, g2: CostGrid, a: Pos, b: Pos, k: int, c1: int, c2: int)
    requires
        k >= 0,
        least_cost(g1, a, b, c1),
        least_cost(g2, a, b, c2),
        forall|p: Pos| in_cube(p) ==> #[trigger] cost_at(g2, p) == k * cost_at(g1, p),
    ensures
        c2 == k * c1,
{
    let w1 = choose|w: Seq<Pos>| walk_between(w, a, b) && walk_cost(g1, w) == c1;
    let w2 = choose|w: Seq<Pos>| walk_between(w, a, b) && walk_cost(g2, w) == c2;
    lemma_walk_cost_scaled(g1, g2, w1, k);
    lemma_walk_cost_scaled(g1, g2, w2, k);
    assert(c2 <= walk_cost(g2, w1));
    let d = walk_cost(g1, w2);
    assert(c1 <= d);
    assert(k * c1 <= k * d) by (nonlinear_arith)
        requires k >= 0, c1 <= d;
}

/// Whether `find_path_astar` can run on the grid: it covers the cube and its
/// costs keep every sum of the search inside `u32`.
pub fn astar_ready(grid: &CostGrid) -> (r: bool)
    ensures
        r == (covers_cube(*grid) && astar_fits(*grid)),
{
    if !grid_covers_cube(grid) {
        return false;
    }
    let m = max_cube_cost(grid);
    let low = min_cube_cost(grid);
    let empty: Vec<Pos> = Vec::new();
    let total = free_cells_sum(grid, &empty);
    proof {
        assert(empty@ =~= Seq::<Pos>::empty());
        assert forall|c: Pos| in_cube(c) implies #[trigger] cost_at(*grid, c) <= 4294967295 by {}
        lemma_free_sum_x_bounds(*grid, empty@, 20, 4294967295);
    }
    let by_positive = low >= 1 && total + 57 <= 4294967295u64;
    let by_sums = total + (m as u64) + 57 <= 4294967295u64;
    proof {
        let w = choose|p: Pos| in_cube(p) && cost_at(*grid, p) == m;
        let v = choose|p: Pos| in_cube(p) && cost_at(*grid, p) == low;
        assert(by_sums ==> astar_sums_fit(*grid));
        assert(astar_sums_fit(*grid) ==> by_sums) by {
            if astar_sums_fit(*grid) {
                assert(cube_total(*grid) + cost_at(*grid, w) + 3 * (GRID - 1) <= u32::MAX);
            }
        }
        assert(positive_costs(*grid) ==> low >= 1) by {
            if positive_costs(*grid) {
                assert(cost_at(*grid, v) >= 1);
            }
        }
    }
    by_positive || by_sums
}

/// The neighbours of `p` in direction order, each with the cost of entering it.
pub fn weighted_neighbours(grid: &CostGrid, p: &Pos) -> (r: Vec<(Pos, u32)>)
    requires
        covers_cube(*grid),
    ensures
        r@.len() == neighbours(*p).len(),
        forall|i: int| 0 <= i < r@.len() ==> #[trigger] r@[i] == (neighbours(*p)[i], cost_at(*grid, neighbours(*p)[i])),
{
    let ns = cube_neighbours(p);
    proof {
        lemma_neighbours(*p);
    }
    let mut r: Vec<(Pos, u32)> = Vec::new();
    let mut i: usize = 0;
    while i < ns.len()
        invariant
            covers_cube(*grid),
            ns@ == neighbours(*p),
            forall|q: Pos| #[trigger] neighbours(*p).contains(q) <==> linked(*p, q),
            i <= ns.len(),
            r@.len() == i,
            forall|j: int| 0 <= j < i ==> #[trigger] r@[j] == (ns@[j], cost_at(*grid, ns@[j])),
        decreases ns.len() - i,
    {
        let q = ns[i];
        assert(neighbours(*p).contains(q));
        let c = grid.get(q.0, q.1, q.2);
        r.push((q, c));
        i = i + 1;
    }
    r
}

/// Calls `pathfinding::prelude::astar` from `start` (in the cube or one move
/// outside it) to `goal` over the cube, with the cost of entering a cell as move cost and the Manhattan distance as
/// heuristic. Its documentation and source give: `None` exactly when no path
/// exists; otherwise a path holding both ends, with no node twice. When every
/// cell costs at least 1 the heuristic never exceeds the real cost, and the
/// path is then a cheapest one and comes with its total cost. Of the cost
/// returned when some cell costs 0 nothing is said: the documentation warns
/// that a wrong path may then come back. The search is deterministic: its
/// result is named `astar_route` of the grid's cells and shape and the two
/// ends. `requires` keeps every sum that the search forms inside `u32`:
/// every cost it adds up is that of a path without repeated cells, plus one
/// move, plus the heuristic. With every cell costing at least 1, a node is
/// only expanded while its cost is at most that of the cheapest route, which
/// can go round any one cell; so a move onto a cell of the node's own walk
/// still sums to at most the cost of the whole cube. From a start outside the
/// cube that detour may not exist, and the stricter bound is asked for.
#[verifier::external_body]
fn astar_search(grid: &CostGrid, start: Pos, goal: Pos) -> (r: Option<(Vec<Pos>, u32)>)
    requires
        covers_cube(*grid),
        at_cube(start),
        in_cube(goal),
        astar_fits_from(*grid, start),
    ensures
        astar_route(grid_cells(*grid), grid_dims(*grid), start, goal)
            == (match r { Some(f) => Some((f.0@, f.1)), None => None }),
        r is Some <==> reachable(start, goal),
        r matches Some(found) ==> walk_between(found.0@, start, goal) && no_repeats(found.0@),
        r matches Some(found) ==> positive_costs(*grid) ==> {
            &&& found.1 == walk_cost(*grid, found.0@)
            &&& forall|w: Seq<Pos>| walk_between(w, start, goal) ==> found.1 <= #[trigger] walk_cost(*grid, w)
        },
{
    pathfinding::prelude::astar(
        &start,
        |p: &Pos| weighted_neighbours(grid, p),
        |p: &Pos| manhattan_exec(p, &goal),
        |p: &Pos| same_pos(p, &goal),
    )
}

/// Calls `pathfinding::prelude::bfs` from `start` (in the cube or one move
/// outside it) to `goal` over the unit moves into cells of the cube. Its documentation and source give: `None` exactly when
/// no path exists; otherwise a path holding both ends, with no node twice, of
/// the fewest moves. The search is deterministic: its result is named
/// `bfs_route` of the two ends.
#[verifier::external_body]
fn bfs_search(start: Pos, goal: Pos) -> (r: Option<Vec<Pos>>)
    requires
        at_cube(start),
        in_cube(goal),
    ensures
        bfs_route(start, goal) == (match r { Some(p) => Some(p@), None => None }),
        r is Some <==> reachable(start, goal),
        r matches Some(path) ==> walk_between(path@, start, goal) && no_repeats(path@),
        r matches Some(path) ==> forall|w: Seq<Pos>| walk_between(w, start, goal) ==> path@.len() <= #[trigger] w.len(),
{
    pathfinding::prelude::bfs(&start, |p: &Pos| cube_neighbours(p), |p: &Pos| same_pos(p, &goal))
}

/// A* from `start` to `goal` on the cost grid, the cost of a move being the
/// cost of the cell entered. Returns a path, both ends included, and its cost;
/// when every cell costs at least 1 no walk between the two ends costs less.
/// The start may lie one move outside the cube.
pub fn find_path_astar(grid: &CostGrid, start: Pos, goal: Pos) -> (r: (Vec<Pos>, u32))
    requires
        covers_cube(*grid),
        at_cube(start),
        in_cube(goal),
        astar_fits_from(*grid, start),
    ensures
        astar_route(grid_cells(*grid), grid_dims(*grid), start, goal) == Some((r.0@, r.1)),
        walk_between(r.0@, start, goal),
        no_repeats(r.0@),
        positive_costs(*grid) ==> r.1 == walk_cost(*grid, r.0@),
        positive_costs(*grid) ==> forall|w: Seq<Pos>|
            walk_between(w, start, goal) ==> r.1 <= #[trigger] walk_cost(*grid, w),
        positive_costs(*grid) ==> least_cost(*grid, start, goal, r.1 as int),
{
    proof {
        lemma_entry_walk(start, goal);
    }
    match astar_search(grid, start, goal) {
        Some(found) => found,
        None => {
            assert(false);
            (Vec::new(), 0)
        },
    }
}

/// Breadth-first search from `start` to `goal`, blind to cell costs: a path
/// of the fewest moves, both ends included, which is `manhattan + 1` cells.
/// The start may lie one move outside the cube.
pub fn find_path_bfs(start: Pos, goal: Pos) -> (r: Vec<Pos>)
    requires
        at_cube(start),
        in_cube(goal),
    ensures
        bfs_route(start, goal) == Some(r@),
        walk_between(r@, start, goal),
        no_repeats(r@),
        r@.len() == manhattan(start, goal) + 1,
        forall|w: Seq<Pos>| walk_between(w, start, goal) ==> r@.len() <= #[trigger] w.len(),
{
    proof {
        lemma_entry_walk(start, goal);
    }
    match bfs_search(start, goal) {
        Some(path) => {
            proof {
                lemma_walk_len_lower_bound(path@);
                assert(walk_between(entry_walk(start, goal), start, goal));
            }
            path
        },
        None => {
            assert(false);
            Vec::new()
        },
    }
}

} // verus!
