//! The two refinement runs as computations: the corridor run (A* over the
//! terrain, then one window of its path), and the obstacle run (breadth-first
//! search over a uniform cube, obstacles injected onto its path, then one
//! window around each obstacle). What lies between, the QUBO solver, is left
//! to the caller, which hands back the solver's assignment.

use vstd::prelude::*;
use crate::walk::{Pos, GRID, in_cube, walk_between, no_repeats, manhattan, lemma_walk_in_cube};
use crate::grid::{
    CostGrid, cost_at, covers_cube, walk_cost, grid_dims, grid_cells, grid_wf, cube_dims, nonzero_size,
    build_terrain, terrain_cost, lemma_walk_cost_bound, lemma_walk_cost_nonneg,
    lemma_free_sum_x_bounds,
};
use crate::search::{
    find_path_astar, find_path_bfs, positive_costs, astar_sums_fit, astar_fits, astar_route, bfs_route,
};
use crate::enumerate::{routes_view, lemma_budget_walks_fit};
use crate::refine::{
    WINDOW, OBSTACLE_COST, INJECTION_COUNT, window_ok, window_routes, dedup_costs,
    astar_window, window_alternatives, obstacle_window, obstacle_window_spec, injection_at,
    injection_index, inject_obstacles, obstacle_hit, route_cost, choose_alternative,
    select_spec, min,
};

verus! {

/// The start of both runs.
pub open spec fn origin() -> Pos {
    (0, 0, 0)
}

/// The goal of both runs: the far corner of the cube.
pub open spec fn far_corner() -> Pos {
    ((GRID - 1) as usize, (GRID - 1) as usize, (GRID - 1) as usize)
}

/// Both runs go from the corner `(0, 0, 0)` to the opposite corner
/// `(19, 19, 19)` of the cube.
pub proof fn lemma_run_corners()
    ensures
        origin() == (0usize, 0usize, 0usize),
        far_corner() == (19usize, 19usize, 19usize),
        in_cube(origin()) && in_cube(far_corner()),
        manhattan(origin(), far_corner()) == 57,
{
}

/// The cells `path[lo..=hi]`.
pub open spec fn segment(path: Seq<Pos>, lo: int, hi: int) -> Seq<Pos> {
    path.subrange(lo, hi + 1)
}

/// A window of a walk through a grid whose cells cost between 1 and `b`
/// meets what `window_alternatives` needs.
proof fn lemma_window_ok(g: CostGrid, path: Seq<Pos>, lo: int, hi: int, b: int)
    requires
        covers_cube(g),
        1 <= b <= 1000,
        forall|p: Pos| in_cube(p) ==> #[trigger] cost_at(g, p) <= b,
        forall|i: int| 0 <= i < path.len() ==> in_cube(#[trigger] path[i]),
        0 <= lo <= hi < path.len(),
        hi - lo <= WINDOW,
    ensures
        window_ok(g, path, lo, hi),
{
    let sub = segment(path, lo, hi);
    assert forall|i: int| 0 <= i < sub.len() implies in_cube(#[trigger] sub[i]) by {
        assert(sub[i] == path[lo + i]);
    }
    lemma_walk_cost_bound(g, sub, b);
    assert(b * (sub.len() - 1) <= 1000 * 5) by (nonlinear_arith)
        requires b <= 1000, sub.len() - 1 <= 5, b >= 0, sub.len() >= 1;
    assert forall|p: Pos| in_cube(p) implies 0 + (WINDOW + 2) * #[trigger] cost_at(g, p) <= u32::MAX by {
        assert(cost_at(g, p) <= b);
    }
    lemma_budget_walks_fit(g, seq![path[lo]], path[lo], 0, WINDOW + 2);
}

/// The corridor run up to the QUBO: the terrain, its cheapest path from the
/// origin to the far corner, the window of that path and its alternatives.
pub struct CorridorPlan {
    grid: CostGrid,
    path: Vec<Pos>,
    cost: u32,
    mid: usize,
    sub_end: usize,
    alternatives: Vec<(Vec<Pos>, u32)>,
    baseline: u32,
}

impl CorridorPlan {
    /// The terrain.
    pub closed spec fn grid_view(self) -> CostGrid {
        self.grid
    }

    /// The A* path.
    pub closed spec fn path_view(self) -> Seq<Pos> {
        self.path@
    }

    /// The cost of the A* path.
    pub closed spec fn cost_view(self) -> u32 {
        self.cost
    }

    /// The window `(mid, sub_end)` of the path.
    pub closed spec fn window_view(self) -> (usize, usize) {
        (self.mid, self.sub_end)
    }

    /// The alternatives through the window, the window's own route first.
    pub closed spec fn alternatives_view(self) -> Seq<(Vec<Pos>, u32)> {
        self.alternatives@
    }

    /// The cost of the window's own route.
    pub closed spec fn baseline_view(self) -> u32 {
        self.baseline
    }

    #[verifier::type_invariant]
    closed spec fn inv(self) -> bool {
        &&& self.alternatives@.len() >= 1
    }

    /// Runs the corridor search: A* from the origin to the far corner of the
    /// terrain, the window from the middle of its path, and the alternatives
    /// through that window.
    pub fn plan() -> (r: CorridorPlan)
        ensures
            grid_dims(r.grid_view()) == cube_dims(),
            forall|p: Pos| in_cube(p) ==> #[trigger] cost_at(r.grid_view(), p) == terrain_cost(p),
            astar_route(grid_cells(r.grid_view()), grid_dims(r.grid_view()), origin(), far_corner())
                == Some((r.path_view(), r.cost_view())),
            r.path_view()[0] == (0usize, 0usize, 0usize),
            r.path_view().last() == (19usize, 19usize, 19usize),
            walk_between(r.path_view(), origin(), far_corner()),
            no_repeats(r.path_view()),
            r.cost_view() == walk_cost(r.grid_view(), r.path_view()),
            forall|w: Seq<Pos>| walk_between(w, origin(), far_corner()) ==>
                r.cost_view() <= #[trigger] walk_cost(r.grid_view(), w),
            r.window_view().0 == r.path_view().len() / 2,
            r.window_view().1 == min(r.window_view().0 + WINDOW, r.path_view().len() - 1),
            r.baseline_view() == walk_cost(
                r.grid_view(),
                segment(r.path_view(), r.window_view().0 as int, r.window_view().1 as int),
            ),
            routes_view(r.alternatives_view()) == dedup_costs(
                seq![(segment(r.path_view(), r.window_view().0 as int, r.window_view().1 as int), r.baseline_view() as int)]
                    + window_routes(r.grid_view(), r.path_view(), r.window_view().0 as int, r.window_view().1 as int),
            ),
    {
        let grid = build_terrain();
        let start: Pos = (0, 0, 0);
        let goal: Pos = (GRID - 1, GRID - 1, GRID - 1);
        proof {
            assert forall|p: Pos| in_cube(p) implies #[trigger] cost_at(grid, p) <= 50 by {
                assert(cost_at(grid, p) == terrain_cost(p));
            }
            lemma_free_sum_x_bounds(grid, Seq::empty(), 20, 50);
            assert(astar_sums_fit(grid));
            assert(astar_fits(grid));
            assert forall|p: Pos| in_cube(p) implies #[trigger] cost_at(grid, p) >= 1 by {
                assert(cost_at(grid, p) == terrain_cost(p));
            }
            assert(positive_costs(grid));
        }
        let (path, cost) = find_path_astar(&grid, start, goal);
        let (mid, sub_end) = astar_window(path.len());
        proof {
            lemma_walk_in_cube(path@);
            assert forall|p: Pos| in_cube(p) implies #[trigger] cost_at(grid, p) <= 50 by {
                assert(cost_at(grid, p) == terrain_cost(p));
            }
            lemma_window_ok(grid, path@, mid as int, sub_end as int, 50);
        }
        let (alternatives, baseline) = window_alternatives(&grid, &path, mid, sub_end);
        CorridorPlan { grid, path, cost, mid, sub_end, alternatives, baseline }
    }

    /// The terrain.
    pub fn grid(&self) -> (r: &CostGrid)
        ensures
            *r == self.grid_view(),
    {
        &self.grid
    }

    /// The A* path.
    pub fn path(&self) -> (r: &Vec<Pos>)
        ensures
            r@ == self.path_view(),
    {
        &self.path
    }

    /// The cost of the A* path.
    pub fn cost(&self) -> (r: u32)
        ensures
            r == self.cost_view(),
    {
        self.cost
    }

    /// The window `(mid, sub_end)` of the path.
    pub fn window(&self) -> (r: (usize, usize))
        ensures
            r == self.window_view(),
    {
        (self.mid, self.sub_end)
    }

    /// The alternatives through the window, the window's own route first.
    pub fn alternatives(&self) -> (r: &Vec<(Vec<Pos>, u32)>)
        ensures
            r@ == self.alternatives_view(),
    {
        &self.alternatives
    }

    /// The cost of the window's own route.
    pub fn baseline(&self) -> (r: u32)
        ensures
            r == self.baseline_view(),
    {
        self.baseline
    }

    /// The outcome of the solver's assignment: the route selected (the first
    /// set, or the first route), its cost, and the saving over the window's own
    /// route when it is cheaper.
    pub fn outcome(&self, assignment: &Vec<bool>) -> (r: (usize, u32, Option<u32>))
        ensures
            r.0 < self.alternatives_view().len(),
            r.0 == select_spec(assignment@, self.alternatives_view().len() as int),
            r.1 == self.alternatives_view()[r.0 as int].1,
            r.2 == if r.1 < self.baseline_view() { Some((self.baseline_view() - r.1) as u32) } else { None },
    {
        proof {
            use_type_invariant(self);
        }
        choose_alternative(&self.alternatives, self.baseline, assignment)
    }
}

/// The alternatives through one window of the obstacle run.
pub struct ObstacleWindow {
    pub start: usize,
    pub end: usize,
    pub alternatives: Vec<(Vec<Pos>, u32)>,
    pub baseline: u32,
}

/// The obstacle run before its windows: a uniform cube, a path of fewest
/// moves from the origin to the far corner, obstacles injected onto it, and
/// the cost of the path over the resulting terrain.
pub struct ObstacleCourse {
    grid: CostGrid,
    path: Vec<Pos>,
    bfs_cost: u32,
}

impl ObstacleCourse {
    /// The terrain with its obstacles.
    pub closed spec fn grid_view(self) -> CostGrid {
        self.grid
    }

    /// The breadth-first path.
    pub closed spec fn path_view(self) -> Seq<Pos> {
        self.path@
    }

    /// The cost of the path over the terrain.
    pub closed spec fn bfs_cost_view(self) -> u32 {
        self.bfs_cost
    }

    #[verifier::type_invariant]
    closed spec fn inv(self) -> bool {
        &&& grid_dims(self.grid) == cube_dims()
        &&& forall|p: Pos| in_cube(p) ==> #[trigger] cost_at(self.grid, p) <= OBSTACLE_COST
        &&& self.path@.len() >= 1
        &&& forall|i: int| 0 <= i < self.path@.len() ==> in_cube(#[trigger] self.path@[i])
    }

    /// Builds the course: a cube of cost-1 cells, the breadth-first path from
    /// the origin to the far corner, `OBSTACLE_COST` cells injected onto it, and
    /// its cost.
    pub fn build() -> (r: ObstacleCourse)
        ensures
            grid_dims(r.grid_view()) == cube_dims(),
            bfs_route(origin(), far_corner()) == Some(r.path_view()),
            r.path_view()[0] == (0usize, 0usize, 0usize),
            r.path_view().last() == (19usize, 19usize, 19usize),
            walk_between(r.path_view(), origin(), far_corner()),
            no_repeats(r.path_view()),
            r.path_view().len() == manhattan(origin(), far_corner()) + 1,
            forall|p: Pos| in_cube(p) ==> #[trigger] cost_at(r.grid_view(), p) == (
                if obstacle_hit(r.path_view(), p, INJECTION_COUNT as int) { OBSTACLE_COST } else { 1 }),
            r.bfs_cost_view() == walk_cost(r.grid_view(), r.path_view()),
    {
        proof {
            assert(GRID == 20);
            assert(nonzero_size((20, 20, 20)) == 8000) by (nonlinear_arith);
        }
        let mut grid = CostGrid::ones((GRID, GRID, GRID));
        let path = find_path_bfs((0, 0, 0), (GRID - 1, GRID - 1, GRID - 1));
        proof {
            lemma_walk_in_cube(path@);
            assert(GRID * GRID * GRID == 8000);
            assert(grid_wf(grid));
            crate::grid::lemma_cube_offset((0, 0, 0));
            assert forall|p: Pos| in_cube(p) implies #[trigger] cost_at(grid, p) == 1 by {
                crate::grid::lemma_cube_offset(p);
            }
        }
        inject_obstacles(&mut grid, &path);
        proof {
            assert forall|p: Pos| in_cube(p) implies #[trigger] cost_at(grid, p) <= OBSTACLE_COST by {}
            lemma_walk_cost_bound(grid, path@, 18);
            lemma_walk_cost_nonneg(grid, path@);
            assert(18 * (path@.len() - 1) == 18 * 57);
        }
        let bfs_cost = match route_cost(&grid, &path) {
            Some(c) => c,
            None => {
                assert(false);
                0
            },
        };
        ObstacleCourse { grid, path, bfs_cost }
    }

    /// The terrain with its obstacles.
    pub fn grid(&self) -> (r: &CostGrid)
        ensures
            *r == self.grid_view(),
    {
        &self.grid
    }

    /// The breadth-first path.
    pub fn path(&self) -> (r: &Vec<Pos>)
        ensures
            r@ == self.path_view(),
    {
        &self.path
    }

    /// The cost of the path over the terrain.
    pub fn bfs_cost(&self) -> (r: u32)
        ensures
            r == self.bfs_cost_view(),
    {
        self.bfs_cost
    }

    /// The window around the `k`-th obstacle and its alternatives; `None`
    /// when that window holds no move or the obstacle is off the path.
    pub fn obstacle_alternatives(&self, k: usize) -> (r: Option<ObstacleWindow>)
        requires
            k < INJECTION_COUNT,
        ensures
            r is None <==> obstacle_window_spec(injection_at(k as int), self.path_view().len() as int) is None,
            r matches Some(w) ==> {
                &&& obstacle_window_spec(injection_at(k as int), self.path_view().len() as int)
                    == Some((w.start, w.end))
                &&& w.baseline == walk_cost(self.grid_view(), segment(self.path_view(), w.start as int, w.end as int))
                &&& routes_view(w.alternatives@) == dedup_costs(
                    seq![(segment(self.path_view(), w.start as int, w.end as int), w.baseline as int)]
                        + window_routes(self.grid_view(), self.path_view(), w.start as int, w.end as int))
                &&& w.alternatives@.len() >= 1
            },
    {
        proof {
            use_type_invariant(self);
        }
        let idx = injection_index(k);
        match obstacle_window(idx, self.path.len()) {
            None => None,
            Some((start, end)) => {
                proof {
                    lemma_window_ok(self.grid, self.path@, start as int, end as int, 18);
                }
                let (alternatives, baseline) = window_alternatives(&self.grid, &self.path, start, end);
                Some(ObstacleWindow { start, end, alternatives, baseline })
            },
        }
    }
}

} // verus!
