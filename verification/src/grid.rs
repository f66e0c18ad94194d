//! The cubic cost grid: cell costs held in an `ndarray` array, positions,
//! the six-neighbourhood, walks and their costs, and the terrain builder.

use vstd::prelude::*;
use ndarray::Array3;
use crate::walk::{Pos, GRID, in_cube, path_contains};

verus! {

/// Cost of the cells of the two obstacle slabs of the terrain.
pub const WALL_COST: u32 = 50;

#[verifier::external_type_specification]
#[verifier::external_body]
pub struct ExShapeError(ndarray::ShapeError);

/// A three-dimensional array of cell costs, laid out in row-major order.
#[verifier::external_body]
pub struct CostGrid {
    arr: Array3<u32>,
}

/// The cells of the grid in row-major order.
pub uninterp spec fn grid_cells(g: CostGrid) -> Seq<u32>;

/// The shape `(d0, d1, d2)` the grid was made with.
pub uninterp spec fn grid_dims(g: CostGrid) -> (usize, usize, usize);

/// Row-major offset of `(x, y, z)` in an array of shape `d`.
pub open spec fn flat_index(d: (usize, usize, usize), x: int, y: int, z: int) -> int {
    x * d.1 * d.2 + y * d.2 + z
}

/// The grid holds exactly `d0 * d1 * d2` cells.
pub open spec fn grid_wf(g: CostGrid) -> bool {
    grid_cells(g).len() == grid_dims(g).0 * grid_dims(g).1 * grid_dims(g).2
}

/// The cost stored for position `p`.
pub open spec fn cost_at(g: CostGrid, p: Pos) -> u32 {
    grid_cells(g)[flat_index(grid_dims(g), p.0 as int, p.1 as int, p.2 as int)]
}

/// Index `(x, y, z)` lies inside the shape of the grid.
pub open spec fn in_shape(g: CostGrid, x: int, y: int, z: int) -> bool {
    &&& 0 <= x < grid_dims(g).0
    &&& 0 <= y < grid_dims(g).1
    &&& 0 <= z < grid_dims(g).2
}

/// Every cell of the `GRID`-cube is inside the shape of the grid.
pub open spec fn covers_cube(g: CostGrid) -> bool {
    &&& grid_dims(g).0 >= GRID
    &&& grid_dims(g).1 >= GRID
    &&& grid_dims(g).2 >= GRID
}

/// The product of the non-zero axis lengths of a shape, which ndarray
/// requires to fit `isize`.
pub open spec fn nonzero_size(d: (usize, usize, usize)) -> int {
    (if d.0 == 0 { 1 } else { d.0 as int }) * (if d.1 == 0 { 1 } else { d.1 as int }) * (
    if d.2 == 0 { 1 } else { d.2 as int })
}

impl CostGrid {
    /// Calls `ndarray::Array3::from_shape_vec` with a three-dimensional shape.
    /// The array is made when the product of the axis lengths equals the
    /// number of elements and the product of the non-zero ones fits `isize`;
    /// it then holds `cells` in row-major order. An error is returned when the
    /// product differs from the length.
    #[verifier::external_body]
    pub fn from_shape_vec(dims: (usize, usize, usize), cells: Vec<u32>) -> (r: Result<CostGrid, ndarray::ShapeError>)
        ensures
            r is Ok ==> grid_cells(r->Ok_0) == cells@ && grid_dims(r->Ok_0) == dims,
            r is Ok ==> dims.0 * dims.1 * dims.2 == cells@.len(),
            (dims.0 * dims.1 * dims.2 == cells@.len() && nonzero_size(dims) <= isize::MAX)
                ==> r is Ok,
    {
        match Array3::from_shape_vec(dims, cells) {
            Ok(arr) => Ok(CostGrid { arr }),
            Err(e) => Err(e),
        }
    }

    /// Calls `ndarray::Array3::ones`: every cell holds 1. It panics when the
    /// product of the non-zero axis lengths overflows `isize`, which `requires`
    /// leaves out.
    #[verifier::external_body]
    pub fn ones(dims: (usize, usize, usize)) -> (r: CostGrid)
        requires
            nonzero_size(dims) <= isize::MAX,
        ensures
            grid_dims(r) == dims,
            grid_cells(r) == Seq::new((dims.0 * dims.1 * dims.2) as nat, |i: int| 1u32),
    {
        CostGrid { arr: Array3::ones(dims) }
    }

    /// Reads the array at index `[x, y, z]` (ndarray's `Index`), which is the
    /// row-major cell of that index; out-of-shape indices panic and are left out.
    #[verifier::external_body]
    pub fn get(&self, x: usize, y: usize, z: usize) -> (r: u32)
        requires
            in_shape(*self, x as int, y as int, z as int),
        ensures
            r == grid_cells(*self)[flat_index(grid_dims(*self), x as int, y as int, z as int)],
    {
        self.arr[[x, y, z]]
    }

    /// The shape of the array (ndarray's `dim`); an owned array holds exactly
    /// as many cells as its shape has.
    #[verifier::external_body]
    pub fn dims(&self) -> (r: (usize, usize, usize))
        ensures
            r == grid_dims(*self),
            r.0 * r.1 * r.2 == grid_cells(*self).len(),
    {
        self.arr.dim()
    }

    /// Writes the array at index `[x, y, z]` (ndarray's `IndexMut`): the
    /// row-major cell of that index becomes `v`, the rest and the shape stay.
    #[verifier::external_body]
    pub fn set(&mut self, x: usize, y: usize, z: usize, v: u32)
        requires
            in_shape(*old(self), x as int, y as int, z as int),
        ensures
            grid_dims(*final(self)) == grid_dims(*old(self)),
            grid_cells(*final(self)) == grid_cells(*old(self)).update(
                flat_index(grid_dims(*old(self)), x as int, y as int, z as int),
                v,
            ),
    {
        self.arr[[x, y, z]] = v;
    }
}

/// Cost of the walk `w`: the costs of every cell it enters, the first excluded.
pub open spec fn walk_cost(g: CostGrid, w: Seq<Pos>) -> int
    decreases w.len(),
{
    if w.len() <= 1 {
        0
    } else {
        walk_cost(g, w.drop_last()) + cost_at(g, w.last())
    }
}

/// The cost of a walk is not negative.
pub proof fn lemma_walk_cost_nonneg(g: CostGrid, w: Seq<Pos>)
    ensures
        walk_cost(g, w) >= 0,
    decreases w.len(),
{
    if w.len() > 1 {
        lemma_walk_cost_nonneg(g, w.drop_last());
    }
}

/// A walk through cells of cost at most `b` costs at most `b` per move.
pub proof fn lemma_walk_cost_bound(g: CostGrid, w: Seq<Pos>, b: int)
    requires
        b >= 0,
        w.len() >= 1,
        forall|i: int| 0 <= i < w.len() ==> in_cube(#[trigger] w[i]),
        forall|p: Pos| in_cube(p) ==> #[trigger] cost_at(g, p) <= b,
    ensures
        walk_cost(g, w) <= b * (w.len() - 1),
    decreases w.len(),
{
    if w.len() > 1 {
        let v = w.drop_last();
        assert forall|i: int| 0 <= i < v.len() implies in_cube(#[trigger] v[i]) by {
            assert(in_cube(w[i]));
        }
        lemma_walk_cost_bound(g, v, b);
        assert(in_cube(w[w.len() - 1]));
        assert(b * (v.len() - 1) + b == b * (w.len() - 1)) by (nonlinear_arith)
            requires v.len() + 1 == w.len();
    } else {
        assert(b * 0 == 0);
    }
}

/// The cost of the terrain cell `p`: two high-cost slabs, one at `x = GRID/3`
/// with a single gap at `y = GRID/2`, one at `z = 2*GRID/3` with a single gap
/// at `x = GRID/2`; every other cell costs 1.
pub open spec fn terrain_cost(p: Pos) -> u32 {
    if (p.0 == GRID / 3 && p.1 != GRID / 2) || (p.2 == 2 * GRID / 3 && p.0 != GRID / 2) {
        WALL_COST
    } else {
        1
    }
}

/// Shape of the terrain.
pub open spec fn cube_dims() -> (usize, usize, usize) {
    (GRID, GRID, GRID)
}

/// Row-major offset of a cube cell in an array of the cube's shape.
pub open spec fn cube_offset(p: Pos) -> int {
    p.0 * 400 + p.1 * 20 + p.2
}

/// In the cube's shape, the row-major offset is `cube_offset`, below `GRID^3`.
pub proof fn lemma_cube_offset(p: Pos)
    requires
        in_cube(p),
    ensures
        flat_index(cube_dims(), p.0 as int, p.1 as int, p.2 as int) == cube_offset(p),
        0 <= cube_offset(p) < 8000,
{
    assert(GRID == 20);
    let x = p.0 as int;
    assert(x * 20 * 20 == x * 400) by (nonlinear_arith);
}

/// Row-major offsets of distinct cells of the cube differ.
pub proof fn lemma_cube_index_injective(a: Pos, b: Pos)
    requires
        in_cube(a),
        in_cube(b),
        a != b,
    ensures
        cube_offset(a) != cube_offset(b),
{
}

/// Row-major offset of a cube cell in the terrain array.
fn cube_index(x: usize, y: usize, z: usize) -> (r: usize)
    requires
        x < GRID,
        y < GRID,
        z < GRID,
    ensures
        r == cube_offset((x, y, z)),
        r < 8000,
{
    proof {
        lemma_cube_offset((x, y, z));
    }
    x * 400 + y * 20 + z
}

/// The terrain value of a cell after the first `done1` rows of the first slab
/// and the first `done2` rows of the second one were painted.
spec fn painted(p: Pos, done1: int, done2: int) -> u32 {
    let row1 = p.1 * 20 + p.2;
    let row2 = p.0 * 20 + p.1;
    if (p.0 == GRID / 3 && p.1 != GRID / 2 && row1 < done1)
        || (p.2 == 2 * GRID / 3 && p.0 != GRID / 2 && row2 < done2) {
        WALL_COST
    } else {
        1
    }
}

/// Builds the `GRID`-cube terrain: cost 1 everywhere but on two slabs of cost
/// `WALL_COST`, each with a single gap (see `terrain_cost`).
pub fn build_terrain() -> (g: CostGrid)
    ensures
        grid_dims(g) == cube_dims(),
        grid_wf(g),
        forall|p: Pos| in_cube(p) ==> #[trigger] cost_at(g, p) == terrain_cost(p),
{
    let total: usize = 8000;
    let mut costs: Vec<u32> = Vec::new();
    while costs.len() < total
        invariant
            costs.len() <= total,
            total == 8000,
            forall|i: int| 0 <= i < costs.len() ==> costs[i] == 1u32,
        decreases total - costs.len(),
    {
        costs.push(1);
    }
    assert forall|p: Pos| in_cube(p) implies
        costs[cube_offset(p)] == #[trigger] painted(p, 0, 0) by {
        lemma_cube_offset(p);
    }

    // Slab 1: a wall at x = GRID/3 with a single gap at y = GRID/2.
    let mut y: usize = 0;
    while y < GRID
        invariant
            y <= GRID,
            costs.len() == total,
            total == 8000,
            forall|p: Pos| in_cube(p) ==> costs[cube_offset(p)] == #[trigger] painted(p, y * 20, 0),
        decreases GRID - y,
    {
        let mut z: usize = 0;
        while z < GRID
            invariant
                y < GRID,
                z <= GRID,
                costs.len() == total,
                total == 8000,
                forall|p: Pos| in_cube(p) ==> costs[cube_offset(p)] == #[trigger] painted(p, y * 20 + z, 0),
            decreases GRID - z,
        {
            let ghost before = costs@;
            let ghost nz: int = z + 1;
            if y != GRID / 2 {
                let i = cube_index(GRID / 3, y, z);
                costs.set(i, WALL_COST);
            }
            assert forall|p: Pos| in_cube(p) implies
                costs[cube_offset(p)] == #[trigger] painted(p, y * 20 + nz, 0) by {
                assert(before[cube_offset(p)] == painted(p, y * 20 + z, 0));
                if p != (GRID / 3, y, z) {
                    lemma_cube_index_injective(p, (GRID / 3, y, z));
                }
            }
            z = z + 1;
        }
        assert forall|p: Pos| in_cube(p) implies
            costs[cube_offset(p)] == #[trigger] painted(p, (y + 1) * 20, 0) by {
            assert(costs[cube_offset(p)] == painted(p, y * 20 + z, 0));
        }
        y = y + 1;
    }

    // Slab 2: a wall at z = 2*GRID/3 with a single gap at x = GRID/2.
    assert forall|p: Pos| in_cube(p) implies
        costs[cube_offset(p)] == #[trigger] painted(p, 400, 0) by {
        assert(costs[cube_offset(p)] == painted(p, y * 20, 0));
    }
    let mut x: usize = 0;
    while x < GRID
        invariant
            x <= GRID,
            costs.len() == total,
            total == 8000,
            forall|p: Pos| in_cube(p) ==> costs[cube_offset(p)] == #[trigger] painted(p, 400, x * 20),
        decreases GRID - x,
    {
        let mut y: usize = 0;
        while y < GRID
            invariant
                x < GRID,
                y <= GRID,
                costs.len() == total,
                total == 8000,
                forall|p: Pos| in_cube(p) ==> costs[cube_offset(p)] == #[trigger] painted(p, 400, x * 20 + y),
            decreases GRID - y,
        {
            let ghost before = costs@;
            let ghost ny: int = y + 1;
            if x != GRID / 2 {
                let i = cube_index(x, y, 2 * GRID / 3);
                costs.set(i, WALL_COST);
            }
            assert forall|p: Pos| in_cube(p) implies
                costs[cube_offset(p)] == #[trigger] painted(p, 400, x * 20 + ny) by {
                assert(before[cube_offset(p)] == painted(p, 400, x * 20 + y));
                if p != (x, y, (2 * GRID / 3) as usize) {
                    lemma_cube_index_injective(p, (x, y, (2 * GRID / 3) as usize));
                }
            }
            y = y + 1;
        }
        assert forall|p: Pos| in_cube(p) implies
            costs[cube_offset(p)] == #[trigger] painted(p, 400, (x + 1) * 20) by {
            assert(costs[cube_offset(p)] == painted(p, 400, x * 20 + y));
        }
        x = x + 1;
    }
    assert(GRID * GRID * GRID == 8000);
    assert(nonzero_size((GRID, GRID, GRID)) == 8000);
    match CostGrid::from_shape_vec((GRID, GRID, GRID), costs) {
        Ok(g) => {
            assert forall|p: Pos| in_cube(p) implies #[trigger] cost_at(g, p) == terrain_cost(p) by {
                lemma_cube_offset(p);
                assert(costs@[cube_offset(p)] == painted(p, 400, x * 20));
                assert(painted(p, 400, 400) == terrain_cost(p));
            }
            g
        },
        Err(_) => {
            assert(false);
            CostGrid::ones((GRID, GRID, GRID))
        },
    }
}

/// Whether the grid covers the `GRID`-cube.
pub fn grid_covers_cube(grid: &CostGrid) -> (r: bool)
    ensures
        r == covers_cube(*grid),
{
    let d = grid.dims();
    d.0 >= GRID && d.1 >= GRID && d.2 >= GRID
}

/// Whether the grid has exactly the shape of the cube.
pub fn grid_is_cube(grid: &CostGrid) -> (r: bool)
    ensures
        r == (grid_dims(*grid) == cube_dims()),
        r ==> grid_wf(*grid),
{
    let d = grid.dims();
    d.0 == GRID && d.1 == GRID && d.2 == GRID
}

/// The largest cost of a cell of the cube, and a cell that has it.
pub fn max_cube_cost(grid: &CostGrid) -> (r: u32)
    requires
        covers_cube(*grid),
    ensures
        forall|p: Pos| in_cube(p) ==> #[trigger] cost_at(*grid, p) <= r,
        exists|p: Pos| in_cube(p) && cost_at(*grid, p) == r,
{
    let mut m: u32 = grid.get(0, 0, 0);
    let mut x: usize = 0;
    assert(in_cube((0, 0, 0)) && cost_at(*grid, (0, 0, 0)) == m);
    while x < GRID
        invariant
            covers_cube(*grid),
            x <= GRID,
            forall|p: Pos| in_cube(p) && p.0 < x ==> #[trigger] cost_at(*grid, p) <= m,
            exists|p: Pos| in_cube(p) && cost_at(*grid, p) == m,
        decreases GRID - x,
    {
        let mut y: usize = 0;
        while y < GRID
            invariant
                covers_cube(*grid),
                x < GRID,
                y <= GRID,
                forall|p: Pos| in_cube(p) && (p.0 < x || (p.0 == x && p.1 < y)) ==> #[trigger] cost_at(*grid, p) <= m,
                exists|p: Pos| in_cube(p) && cost_at(*grid, p) == m,
            decreases GRID - y,
        {
            let mut z: usize = 0;
            while z < GRID
                invariant
                    covers_cube(*grid),
                    x < GRID,
                    y < GRID,
                    z <= GRID,
                    forall|p: Pos| in_cube(p) && (p.0 < x || (p.0 == x && (p.1 < y || (p.1 == y && p.2 < z))))
                        ==> #[trigger] cost_at(*grid, p) <= m,
                    exists|p: Pos| in_cube(p) && cost_at(*grid, p) == m,
                decreases GRID - z,
            {
                let c = grid.get(x, y, z);
                assert(cost_at(*grid, (x, y, z)) == c);
                if c > m {
                    m = c;
                    assert(in_cube((x, y, z)) && cost_at(*grid, (x, y, z)) == m);
                }
                z = z + 1;
            }
            y = y + 1;
        }
        x = x + 1;
    }
    m
}

/// The smallest cost of a cell of the cube, and a cell that has it.
pub fn min_cube_cost(grid: &CostGrid) -> (r: u32)
    requires
        covers_cube(*grid),
    ensures
        forall|p: Pos| in_cube(p) ==> r <= #[trigger] cost_at(*grid, p),
        exists|p: Pos| in_cube(p) && cost_at(*grid, p) == r,
{
    let mut m: u32 = grid.get(0, 0, 0);
    let mut x: usize = 0;
    assert(in_cube((0, 0, 0)) && cost_at(*grid, (0, 0, 0)) == m);
    while x < GRID
        invariant
            covers_cube(*grid),
            x <= GRID,
            forall|p: Pos| in_cube(p) && p.0 < x ==> m <= #[trigger] cost_at(*grid, p),
            exists|p: Pos| in_cube(p) && cost_at(*grid, p) == m,
        decreases GRID - x,
    {
        let mut y: usize = 0;
        while y < GRID
            invariant
                covers_cube(*grid),
                x < GRID,
                y <= GRID,
                forall|p: Pos| in_cube(p) && (p.0 < x || (p.0 == x && p.1 < y)) ==> m <= #[trigger] cost_at(*grid, p),
                exists|p: Pos| in_cube(p) && cost_at(*grid, p) == m,
            decreases GRID - y,
        {
            let mut z: usize = 0;
            while z < GRID
                invariant
                    covers_cube(*grid),
                    x < GRID,
                    y < GRID,
                    z <= GRID,
                    forall|p: Pos| in_cube(p) && (p.0 < x || (p.0 == x && (p.1 < y || (p.1 == y && p.2 < z))))
                        ==> m <= #[trigger] cost_at(*grid, p),
                    exists|p: Pos| in_cube(p) && cost_at(*grid, p) == m,
                decreases GRID - z,
            {
                let c = grid.get(x, y, z);
                assert(cost_at(*grid, (x, y, z)) == c);
                if c < m {
                    m = c;
                    assert(in_cube((x, y, z)) && cost_at(*grid, (x, y, z)) == m);
                }
                z = z + 1;
            }
            y = y + 1;
        }
        x = x + 1;
    }
    m
}

/// Cell `p` counts toward the free sum when it is not on `path`.
pub open spec fn free_term(g: CostGrid, path: Seq<Pos>, p: Pos) -> int {
    if path.contains(p) { 0 } else { cost_at(g, p) as int }
}

/// `Σ_{z < k}` of the free terms of the cells `(x, y, z)`.
pub open spec fn free_sum_z(g: CostGrid, path: Seq<Pos>, x: usize, y: usize, k: int) -> int
    decreases k,
{
    if k <= 0 { 0 } else { free_sum_z(g, path, x, y, k - 1) + free_term(g, path, (x, y, (k - 1) as usize)) }
}

/// `Σ_{y < k}` of the free terms of the rows `(x, y, ·)`.
pub open spec fn free_sum_y(g: CostGrid, path: Seq<Pos>, x: usize, k: int) -> int
    decreases k,
{
    if k <= 0 { 0 } else { free_sum_y(g, path, x, k - 1) + free_sum_z(g, path, x, (k - 1) as usize, 20) }
}

/// `Σ_{x < k}` of the free terms of the planes `(x, ·, ·)`.
pub open spec fn free_sum_x(g: CostGrid, path: Seq<Pos>, k: int) -> int
    decreases k,
{
    if k <= 0 { 0 } else { free_sum_x(g, path, k - 1) + free_sum_y(g, path, (k - 1) as usize, 20) }
}

/// The summed cost of the cells of the cube that are not on `path`.
pub open spec fn free_sum(g: CostGrid, path: Seq<Pos>) -> int {
    free_sum_x(g, path, 20)
}

/// The summed cost of all cells of the cube.
pub open spec fn cube_total(g: CostGrid) -> int {
    free_sum(g, Seq::empty())
}

/// A cell is on `path.push(q)` when it is on `path` or is `q`.
pub proof fn lemma_push_contains(path: Seq<Pos>, q: Pos, p: Pos)
    ensures
        path.push(q).contains(p) <==> (path.contains(p) || p == q),
{
    if path.contains(p) {
        let i = choose|i: int| 0 <= i < path.len() && path[i] == p;
        assert(path.push(q)[i] == p);
    }
    if p == q {
        assert(path.push(q)[path.len() as int] == p);
    }
    if path.push(q).contains(p) {
        let i = choose|i: int| 0 <= i < path.len() + 1 && path.push(q)[i] == p;
        if i < path.len() {
            assert(path[i] == p);
        }
    }
}

proof fn lemma_free_sum_z_push(g: CostGrid, path: Seq<Pos>, q: Pos, x: usize, y: usize, k: int)
    requires
        !path.contains(q),
        0 <= k <= 20,
    ensures
        free_sum_z(g, path, x, y, k) == free_sum_z(g, path.push(q), x, y, k)
            + (if q.0 == x && q.1 == y && q.2 < k { cost_at(g, q) as int } else { 0 }),
    decreases k,
{
    if k > 0 {
        lemma_free_sum_z_push(g, path, q, x, y, k - 1);
        lemma_push_contains(path, q, (x, y, (k - 1) as usize));
    }
}

proof fn lemma_free_sum_y_push(g: CostGrid, path: Seq<Pos>, q: Pos, x: usize, k: int)
    requires
        !path.contains(q),
        in_cube(q),
        0 <= k <= 20,
    ensures
        free_sum_y(g, path, x, k) == free_sum_y(g, path.push(q), x, k)
            + (if q.0 == x && q.1 < k { cost_at(g, q) as int } else { 0 }),
    decreases k,
{
    if k > 0 {
        lemma_free_sum_y_push(g, path, q, x, k - 1);
        lemma_free_sum_z_push(g, path, q, x, (k - 1) as usize, 20);
    }
}

proof fn lemma_free_sum_x_push(g: CostGrid, path: Seq<Pos>, q: Pos, k: int)
    requires
        !path.contains(q),
        in_cube(q),
        0 <= k <= 20,
    ensures
        free_sum_x(g, path, k) == free_sum_x(g, path.push(q), k)
            + (if q.0 < k { cost_at(g, q) as int } else { 0 }),
    decreases k,
{
    if k > 0 {
        lemma_free_sum_x_push(g, path, q, k - 1);
        lemma_free_sum_y_push(g, path, q, (k - 1) as usize, 20);
    }
}

/// Taking a cube cell off the free cells takes its cost off the free sum.
pub proof fn lemma_free_sum_push(g: CostGrid, path: Seq<Pos>, q: Pos)
    requires
        !path.contains(q),
        in_cube(q),
    ensures
        free_sum(g, path) == free_sum(g, path.push(q)) + cost_at(g, q),
{
    lemma_free_sum_x_push(g, path, q, 20);
}

proof fn lemma_free_sum_z_bounds(g: CostGrid, path: Seq<Pos>, x: usize, y: usize, k: int, b: int)
    requires
        x < GRID,
        y < GRID,
        0 <= k <= 20,
        b >= 0,
        forall|p: Pos| in_cube(p) ==> #[trigger] cost_at(g, p) <= b,
    ensures
        0 <= free_sum_z(g, path, x, y, k) <= k * b,
    decreases k,
{
    if k > 0 {
        lemma_free_sum_z_bounds(g, path, x, y, k - 1, b);
        assert(cost_at(g, (x, y, (k - 1) as usize)) <= b);
        assert((k - 1) * b + b == k * b) by (nonlinear_arith);
    }
}

proof fn lemma_free_sum_y_bounds(g: CostGrid, path: Seq<Pos>, x: usize, k: int, b: int)
    requires
        x < GRID,
        0 <= k <= 20,
        b >= 0,
        forall|p: Pos| in_cube(p) ==> #[trigger] cost_at(g, p) <= b,
    ensures
        0 <= free_sum_y(g, path, x, k) <= k * 20 * b,
    decreases k,
{
    if k > 0 {
        lemma_free_sum_y_bounds(g, path, x, k - 1, b);
        lemma_free_sum_z_bounds(g, path, x, (k - 1) as usize, 20, b);
        assert((k - 1) * 20 * b + 20 * b == k * 20 * b) by (nonlinear_arith);
        assert(free_sum_y(g, path, x, k) == free_sum_y(g, path, x, k - 1) + free_sum_z(g, path, x, (k - 1) as usize, 20));
    }
}

/// Bounds of the partial free sums over the cube: each cell adds between 0 and `b`.
pub proof fn lemma_free_sum_x_bounds(g: CostGrid, path: Seq<Pos>, k: int, b: int)
    requires
        0 <= k <= 20,
        b >= 0,
        forall|p: Pos| in_cube(p) ==> #[trigger] cost_at(g, p) <= b,
    ensures
        0 <= free_sum_x(g, path, k) <= k * 400 * b,
    decreases k,
{
    if k > 0 {
        lemma_free_sum_x_bounds(g, path, k - 1, b);
        lemma_free_sum_y_bounds(g, path, (k - 1) as usize, 20, b);
        assert((k - 1) * 400 * b + 20 * 20 * b == k * 400 * b) by (nonlinear_arith);
        assert(free_sum_x(g, path, k) == free_sum_x(g, path, k - 1) + free_sum_y(g, path, (k - 1) as usize, 20));
    }
}

/// The summed cost of the cube cells that are not on `path`.
pub fn free_cells_sum(grid: &CostGrid, path: &Vec<Pos>) -> (r: u64)
    requires
        covers_cube(*grid),
    ensures
        r == free_sum(*grid, path@),
{
    let ghost p = path@;
    let ghost b: int = 4294967295;
    assert forall|c: Pos| in_cube(c) implies #[trigger] cost_at(*grid, c) <= b by {}
    let mut acc: u64 = 0;
    let mut x: usize = 0;
    while x < GRID
        invariant
            covers_cube(*grid),
            p == path@,
            b == 4294967295,
            forall|c: Pos| in_cube(c) ==> #[trigger] cost_at(*grid, c) <= b,
            x <= GRID,
            acc == free_sum_x(*grid, p, x as int),
        decreases GRID - x,
    {
        let mut y: usize = 0;
        proof {
            lemma_free_sum_x_bounds(*grid, p, x as int, b);
        }
        while y < GRID
            invariant
                covers_cube(*grid),
                p == path@,
                b == 4294967295,
                forall|c: Pos| in_cube(c) ==> #[trigger] cost_at(*grid, c) <= b,
                x < GRID,
                y <= GRID,
                0 <= free_sum_x(*grid, p, x as int) <= x * 400 * b,
                acc == free_sum_x(*grid, p, x as int) + free_sum_y(*grid, p, x, y as int),
            decreases GRID - y,
        {
            let mut z: usize = 0;
            proof {
                lemma_free_sum_y_bounds(*grid, p, x, y as int, b);
            }
            while z < GRID
                invariant
                    covers_cube(*grid),
                    p == path@,
                    b == 4294967295,
                    forall|c: Pos| in_cube(c) ==> #[trigger] cost_at(*grid, c) <= b,
                    x < GRID,
                    y < GRID,
                    z <= GRID,
                    0 <= free_sum_x(*grid, p, x as int) <= x * 400 * b,
                    0 <= free_sum_y(*grid, p, x, y as int) <= y * 20 * b,
                    acc == free_sum_x(*grid, p, x as int) + free_sum_y(*grid, p, x, y as int)
                        + free_sum_z(*grid, p, x, y, z as int),
                decreases GRID - z,
            {
                proof {
                    lemma_free_sum_z_bounds(*grid, p, x, y, z as int, b);
                    assert(x * 400 * b + y * 20 * b + z * b + b <= 8000 * b) by (nonlinear_arith)
                        requires x < 20, y < 20, z < 20, b >= 0;
                }
                let c = grid.get(x, y, z);
                if !path_contains(path, &(x, y, z)) {
                    acc = acc + c as u64;
                }
                z = z + 1;
            }
            y = y + 1;
        }
        x = x + 1;
    }
    acc
}

} // verus!
