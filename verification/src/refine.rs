//! Route refinement around a window of a found path: the window bounds, the
//! alternative routes through it, the choice that a QUBO solver made among
//! them, and the savings it brings.

use vstd::prelude::*;
use crate::walk::{Pos, in_cube};
use crate::grid::{
    CostGrid, cost_at, covers_cube, walk_cost, grid_dims, cube_dims, lemma_cube_offset,
    lemma_cube_index_injective, lemma_walk_cost_nonneg,
};
use crate::enumerate::{
    all_routes, fill, routes_view, route_view, is_route, hops_fit_u32, enumerate_paths,
    enumeration_ready, budget_ok, dfs_before, lemma_first_routes,
};

verus! {

/// Number of moves of the window of a path handed to the QUBO.
pub const WINDOW: usize = 5;

/// Largest number of alternative routes, the baseline included.
pub const MAX_ALTS: usize = 12;

/// Cost of an obstacle injected onto a path.
pub const OBSTACLE_COST: u32 = 18;

/// Number of obstacles injected onto a path.
pub const INJECTION_COUNT: usize = 4;

/// Positions along the path at which obstacles are injected.
pub open spec fn injection_at(k: int) -> int {
    if k == 0 { 8 } else if k == 1 { 20 } else if k == 2 { 32 } else { 44 }
}

/// The `k`-th position along the path at which an obstacle is injected.
pub fn injection_index(k: usize) -> (r: usize)
    requires
        k < INJECTION_COUNT,
    ensures
        r == injection_at(k as int),
{
    if k == 0 { 8 } else if k == 1 { 20 } else if k == 2 { 32 } else { 44 }
}

/// The smaller of two integers.
pub open spec fn min(a: int, b: int) -> int {
    if a <= b { a } else { b }
}

/// The window of an A* path of `path_len` cells: from its middle cell,
/// `WINDOW` moves on or up to its last cell.
pub fn astar_window(path_len: usize) -> (r: (usize, usize))
    requires
        path_len >= 1,
    ensures
        r.0 == path_len / 2,
        r.1 == min(r.0 + WINDOW, path_len - 1),
        r.0 <= r.1 < path_len,
{
    let mid = path_len / 2;
    let end = if mid + WINDOW < path_len - 1 { mid + WINDOW } else { path_len - 1 };
    (mid, end)
}

/// The window around an obstacle injected at `inject_idx` on a path of
/// `path_len` cells, as `obstacle_window` computes it.
pub open spec fn obstacle_window_spec(inject_idx: int, path_len: int) -> Option<(usize, usize)> {
    let ws = if inject_idx >= 2 { inject_idx - 2 } else { 0 };
    let we = min(ws + WINDOW, path_len - 1);
    if ws >= we || inject_idx >= path_len { None } else { Some((ws as usize, we as usize)) }
}

/// The window around an obstacle injected at `inject_idx` on a path of
/// `path_len` cells: from two cells before it, `WINDOW` moves on or up to the
/// last cell; `None` when it holds no move or the obstacle is off the path.
pub fn obstacle_window(inject_idx: usize, path_len: usize) -> (r: Option<(usize, usize)>)
    requires
        path_len >= 1,
        inject_idx + WINDOW <= usize::MAX,
    ensures
        r == obstacle_window_spec(inject_idx as int, path_len as int),
{
    let window_start = inject_idx.saturating_sub(2);
    let window_end = if window_start + WINDOW < path_len - 1 { window_start + WINDOW } else { path_len - 1 };
    if window_start >= window_end || inject_idx >= path_len {
        None
    } else {
        Some((window_start, window_end))
    }
}

/// Every cell of `cells` lies in the cube.
pub open spec fn all_in_cube(cells: Seq<Pos>) -> bool {
    forall|i: int| 0 <= i < cells.len() ==> in_cube(#[trigger] cells[i])
}

/// Whether every cell of `cells` lies in the cube.
pub fn cells_in_cube(cells: &Vec<Pos>) -> (r: bool)
    ensures
        r == all_in_cube(cells@),
{
    let mut i: usize = 0;
    while i < cells.len()
        invariant
            i <= cells.len(),
            forall|j: int| 0 <= j < i ==> in_cube(#[trigger] cells@[j]),
        decreases cells.len() - i,
    {
        let p = cells[i];
        if !(p.0 < 20 && p.1 < 20 && p.2 < 20) {
            return false;
        }
        i = i + 1;
    }
    true
}

/// The cost of a prefix of a walk is at most the cost of the walk.
proof fn lemma_walk_cost_prefix(g: CostGrid, cells: Seq<Pos>, k: int)
    requires
        1 <= k <= cells.len(),
    ensures
        walk_cost(g, cells.take(k)) <= walk_cost(g, cells),
    decreases cells.len() - k,
{
    if k < cells.len() {
        lemma_walk_cost_prefix(g, cells, k + 1);
        assert(cells.take(k + 1).drop_last() == cells.take(k));
    } else {
        assert(cells.take(k) == cells);
    }
}

/// The cost of the route `cells`: the summed costs of every cell after the
/// first, or `None` when that sum does not fit `u32`.
pub fn route_cost(grid: &CostGrid, cells: &Vec<Pos>) -> (r: Option<u32>)
    requires
        covers_cube(*grid),
        cells@.len() >= 1,
        all_in_cube(cells@),
    ensures
        r == if walk_cost(*grid, cells@) <= u32::MAX { Some(walk_cost(*grid, cells@) as u32) } else { None },
{
    proof {
        lemma_walk_cost_nonneg(*grid, cells@);
    }
    let mut sum: u32 = 0;
    let mut i: usize = 1;
    assert(cells@.take(1).len() == 1);
    while i < cells.len()
        invariant
            covers_cube(*grid),
            all_in_cube(cells@),
            1 <= i <= cells.len(),
            sum == walk_cost(*grid, cells@.take(i as int)),
        decreases cells.len() - i,
    {
        let p = cells[i];
        assert(in_cube(cells@[i as int]));
        let c = grid.get(p.0, p.1, p.2);
        assert(cells@.take(i + 1).drop_last() == cells@.take(i as int));
        if c > u32::MAX - sum {
            proof {
                lemma_walk_cost_prefix(*grid, cells@, i + 1);
            }
            return None;
        }
        sum = sum + c;
        i = i + 1;
    }
    assert(cells@.take(cells.len() as int) == cells@);
    Some(sum)
}

/// The cells `path[lo..=hi]`.
pub fn copy_segment(path: &Vec<Pos>, lo: usize, hi: usize) -> (r: Vec<Pos>)
    requires
        lo <= hi < path@.len(),
    ensures
        r@ == path@.subrange(lo as int, hi + 1),
{
    let mut r: Vec<Pos> = Vec::new();
    let mut i: usize = lo;
    while i <= hi
        invariant
            lo <= i <= hi + 1,
            hi < path.len(),
            r@ == path@.subrange(lo as int, i as int),
        decreases hi + 1 - i,
    {
        r.push(path[i]);
        i = i + 1;
        assert(r@ == path@.subrange(lo as int, i as int));
    }
    r
}

/// `s` holds a route of cost `c`.
pub open spec fn has_cost(s: Seq<(Seq<Pos>, int)>, c: int) -> bool {
    exists|i: int| 0 <= i < s.len() && s[i].1 == c
}

/// Drops each route whose cost equals that of the route just before it, as
/// `Vec::dedup_by_key` on the cost does: of each run of equal costs only
/// the first route stays.
pub open spec fn dedup_costs(s: Seq<(Seq<Pos>, int)>) -> Seq<(Seq<Pos>, int)>
    decreases s.len(),
{
    if s.len() == 0 {
        s
    } else {
        let d = dedup_costs(s.drop_last());
        if s.len() >= 2 && s[s.len() - 2].1 == s.last().1 { d } else { d.push(s.last()) }
    }
}

/// What dropping repeated costs keeps: the first route; the last cost; no
/// two neighbours of equal cost; every cost that occurs; and after the first,
/// only routes that came after the first.
pub proof fn lemma_dedup_costs(s: Seq<(Seq<Pos>, int)>)
    ensures
        s.len() >= 1 ==> dedup_costs(s).len() >= 1 && dedup_costs(s)[0] == s[0],
        s.len() >= 1 ==> dedup_costs(s).last().1 == s.last().1,
        dedup_costs(s).len() <= s.len(),
        forall|i: int| 0 <= i < dedup_costs(s).len() - 1 ==> #[trigger] dedup_costs(s)[i].1 != dedup_costs(s)[i + 1].1,
        forall|k: int| 0 <= k < s.len() ==> #[trigger] has_cost(dedup_costs(s), s[k].1),
        forall|i: int| 1 <= i < dedup_costs(s).len() ==>
            exists|j: int| 1 <= j < s.len() && #[trigger] dedup_costs(s)[i] == s[j],
    decreases s.len(),
{
    if s.len() > 0 {
        let t = s.drop_last();
        lemma_dedup_costs(t);
        let d = dedup_costs(t);
        let x = s.last();
        let r = dedup_costs(s);
        let drop = s.len() >= 2 && s[s.len() - 2].1 == x.1;
        if drop {
            assert(r == d);
            assert(t.last() == s[s.len() - 2]);
        } else {
            assert(r == d.push(x));
            if t.len() >= 1 {
                assert(t.last() == s[s.len() - 2]);
                assert(d.last().1 != x.1);
            }
            assert forall|i: int| 0 <= i < r.len() - 1 implies #[trigger] r[i].1 != r[i + 1].1 by {
                if i + 1 == d.len() {
                    assert(r[i] == d.last());
                } else {
                    assert(r[i] == d[i] && r[i + 1] == d[i + 1]);
                }
            }
        }
        assert forall|k: int| 0 <= k < s.len() implies #[trigger] has_cost(r, s[k].1) by {
            if k < t.len() {
                assert(s[k] == t[k]);
                assert(has_cost(d, t[k].1));
                let i = choose|i: int| 0 <= i < d.len() && d[i].1 == t[k].1;
                assert(r[i] == d[i]);
            } else if drop {
                assert(r[r.len() - 1].1 == x.1);
            } else {
                assert(r[d.len() as int] == x);
            }
        }
        assert forall|i: int| 1 <= i < r.len() implies exists|j: int| 1 <= j < s.len() && #[trigger] r[i] == s[j] by {
            if i < d.len() {
                let j = choose|j: int| 1 <= j < t.len() && d[i] == t[j];
                assert(r[i] == d[i]);
                assert(s[j] == t[j]);
            } else {
                assert(r[i] == s[s.len() - 1]);
            }
        }
        if t.len() >= 1 {
            assert(t[0] == s[0]);
            assert(r[0] == d[0]);
        } else {
            assert(d.len() == 0);
            assert(r == seq![x]);
        }
    }
}

/// `idx` picks, in increasing order, the positions of `s` whose route costs
/// other than the one just before it (the first always counts).
pub open spec fn keeps_run_heads(s: Seq<(Seq<Pos>, int)>, d: Seq<(Seq<Pos>, int)>, idx: Seq<int>) -> bool {
    &&& idx.len() == d.len()
    &&& forall|i: int| 0 <= i < idx.len() ==> 0 <= #[trigger] idx[i] < s.len() && d[i] == s[idx[i]]
    &&& forall|i: int, j: int| 0 <= i < j < idx.len() ==> idx[i] < idx[j]
    &&& forall|k: int| 0 <= k < s.len() ==>
        ((k == 0 || s[k - 1].1 != s[k].1) <==> idx.contains(k))
}

/// Dropping repeated costs keeps, in order, exactly the routes that cost
/// other than the route just before them, and the first route.
pub proof fn lemma_dedup_costs_keeps(s: Seq<(Seq<Pos>, int)>)
    ensures
        exists|idx: Seq<int>| #[trigger] keeps_run_heads(s, dedup_costs(s), idx),
    decreases s.len(),
{
    if s.len() == 0 {
        assert(keeps_run_heads(s, dedup_costs(s), Seq::<int>::empty()));
    } else {
        let t = s.drop_last();
        lemma_dedup_costs_keeps(t);
        let d = dedup_costs(t);
        let idx = choose|idx: Seq<int>| keeps_run_heads(t, d, idx);
        let n = s.len() - 1;
        let x = s.last();
        let head = n == 0 || s[n - 1].1 != x.1;
        assert forall|k: int| 0 <= k < n implies #[trigger] s[k] == t[k] by {}
        if !head {
            assert(dedup_costs(s) == d);
            assert forall|k: int| 0 <= k < s.len() implies
                ((k == 0 || s[k - 1].1 != s[k].1) <==> idx.contains(k)) by {
                if k < n {
                    assert(s[k] == t[k]);
                    if k > 0 {
                        assert(s[k - 1] == t[k - 1]);
                    }
                } else {
                    if idx.contains(k) {
                        let i = choose|i: int| 0 <= i < idx.len() && idx[i] == k;
                        assert(idx[i] < t.len());
                    }
                }
            }
            assert forall|i: int| 0 <= i < idx.len() implies
                0 <= #[trigger] idx[i] < s.len() && dedup_costs(s)[i] == s[idx[i]] by {
                assert(s[idx[i]] == t[idx[i]]);
            }
            assert(keeps_run_heads(s, dedup_costs(s), idx));
        } else {
            let nidx = idx.push(n);
            let r = dedup_costs(s);
            assert(r == d.push(x));
            assert forall|i: int| 0 <= i < nidx.len() implies
                0 <= #[trigger] nidx[i] < s.len() && r[i] == s[nidx[i]] by {
                if i < idx.len() {
                    assert(nidx[i] == idx[i]);
                    assert(s[idx[i]] == t[idx[i]]);
                }
            }
            assert forall|i: int, j: int| 0 <= i < j < nidx.len() implies nidx[i] < nidx[j] by {
                if j == idx.len() {
                    assert(nidx[i] == idx[i]);
                    assert(idx[i] < t.len());
                } else {
                    assert(nidx[i] == idx[i] && nidx[j] == idx[j]);
                }
            }
            assert forall|k: int| 0 <= k < s.len() implies
                ((k == 0 || s[k - 1].1 != s[k].1) <==> nidx.contains(k)) by {
                if k < n {
                    assert(s[k] == t[k]);
                    if k > 0 {
                        assert(s[k - 1] == t[k - 1]);
                    }
                    if idx.contains(k) {
                        let i = choose|i: int| 0 <= i < idx.len() && idx[i] == k;
                        assert(nidx[i] == k);
                    }
                    if nidx.contains(k) {
                        let i = choose|i: int| 0 <= i < nidx.len() && nidx[i] == k;
                        assert(i < idx.len());
                        assert(idx[i] == k);
                    }
                } else {
                    assert(nidx[idx.len() as int] == k);
                }
            }
            assert(keeps_run_heads(s, r, nidx));
        }
    }
}

/// Drops each route whose cost equals that of the route just before it.
pub fn dedup_by_cost(v: Vec<(Vec<Pos>, u32)>) -> (r: Vec<(Vec<Pos>, u32)>)
    ensures
        routes_view(r@) == dedup_costs(routes_view(v@)),
{
    let ghost all = routes_view(v@);
    let total = v.len();
    let mut rest = v;
    let mut r: Vec<(Vec<Pos>, u32)> = Vec::new();
    let mut taken: usize = 0;
    let mut previous: u32 = 0;
    assert(all.take(0) =~= Seq::<(Seq<Pos>, int)>::empty());
    assert(routes_view(r@) =~= Seq::<(Seq<Pos>, int)>::empty());
    while rest.len() > 0
        invariant
            all.len() == total,
            taken + rest@.len() == total,
            routes_view(rest@) == all.subrange(taken as int, all.len() as int),
            routes_view(r@) == dedup_costs(all.take(taken as int)),
            taken > 0 ==> previous == all[taken - 1].1,
        decreases rest@.len(),
    {
        let ghost before = rest@;
        let e = rest.remove(0);
        assert(routes_view(before)[0] == route_view(e));
        assert(all[taken as int] == route_view(e));
        assert(routes_view(rest@) =~= all.subrange(taken + 1, all.len() as int)) by {
            assert(rest@ == before.subrange(1, before.len() as int));
            assert forall|k: int| 0 <= k < rest@.len() implies
                #[trigger] routes_view(rest@)[k] == all[taken + 1 + k] by {
                assert(routes_view(before)[k + 1] == all.subrange(taken as int, all.len() as int)[k + 1]);
            }
        }
        let ghost prefix = all.take(taken + 1);
        assert(prefix.drop_last() == all.take(taken as int));
        assert(prefix.last() == route_view(e));
        if taken > 0 {
            assert(prefix[prefix.len() - 2] == all[taken - 1]);
        }
        let repeated = taken > 0 && previous == e.1;
        previous = e.1;
        if !repeated {
            assert(routes_view(r@.push(e)) =~= routes_view(r@).push(route_view(e)));
            r.push(e);
        }
        taken = taken + 1;
    }
    assert(all.take(taken as int) == all);
    r
}

/// The routes enumerated through a window from `path[lo]` to `path[hi]`.
pub open spec fn window_routes(g: CostGrid, path: Seq<Pos>, lo: int, hi: int) -> Seq<(Seq<Pos>, int)> {
    fill(
        Seq::<(Seq<Pos>, int)>::empty(),
        all_routes(g, path[lo], path[hi], (WINDOW + 2) as nat),
        MAX_ALTS - 1,
    )
}

/// The routes enumerated through a window are simple routes between its
/// ends of at most `WINDOW + 2` moves, with their costs, in depth-first
/// order, at most `MAX_ALTS - 1` of them; all such routes when fewer were
/// found; and every such route that comes before a listed one is listed
/// ahead of it.
pub proof fn lemma_window_routes(g: CostGrid, path: Seq<Pos>, lo: int, hi: int)
    ensures
        window_routes(g, path, lo, hi).len() <= MAX_ALTS - 1,
        forall|i: int| 0 <= i < window_routes(g, path, lo, hi).len() ==> {
            let e = #[trigger] window_routes(g, path, lo, hi)[i];
            is_route(e.0, path[lo], path[hi], WINDOW + 2) && e.1 == walk_cost(g, e.0)
        },
        forall|i: int, j: int| 0 <= i < j < window_routes(g, path, lo, hi).len() ==>
            dfs_before(window_routes(g, path, lo, hi)[i].0, window_routes(g, path, lo, hi)[j].0),
        window_routes(g, path, lo, hi).len() < MAX_ALTS - 1 ==> forall|w: Seq<Pos>|
            is_route(w, path[lo], path[hi], WINDOW + 2) ==> window_routes(g, path, lo, hi).contains((w, walk_cost(g, w))),
        forall|w: Seq<Pos>, i: int|
            is_route(w, path[lo], path[hi], WINDOW + 2) && 0 <= i < window_routes(g, path, lo, hi).len()
                && #[trigger] dfs_before(w, window_routes(g, path, lo, hi)[i].0)
                ==> exists|k: int| 0 <= k < i && window_routes(g, path, lo, hi)[k].0 == w,
{
    lemma_first_routes(g, path[lo], path[hi], (WINDOW + 2) as nat, MAX_ALTS - 1);
}

/// What `window_alternatives` needs of its arguments.
pub open spec fn window_ok(g: CostGrid, path: Seq<Pos>, lo: int, hi: int) -> bool {
    &&& covers_cube(g)
    &&& 0 <= lo <= hi < path.len()
    &&& hops_fit_u32(g, path[lo], WINDOW + 2)
    &&& all_in_cube(path.subrange(lo, hi + 1))
    &&& walk_cost(g, path.subrange(lo, hi + 1)) <= u32::MAX
}

/// `window_ok` with the bound on route costs that can be checked cell by
/// cell (see `enumeration_ready`).
pub open spec fn window_checked(g: CostGrid, path: Seq<Pos>, lo: int, hi: int) -> bool {
    &&& covers_cube(g)
    &&& 0 <= lo <= hi < path.len()
    &&& budget_ok(g, seq![path[lo]], 0, WINDOW + 2)
    &&& all_in_cube(path.subrange(lo, hi + 1))
    &&& walk_cost(g, path.subrange(lo, hi + 1)) <= u32::MAX
}

/// Tests `window_checked`; when it holds `window_alternatives` can run on
/// these arguments.
pub fn window_ready(grid: &CostGrid, path: &Vec<Pos>, lo: usize, hi: usize) -> (r: bool)
    ensures
        r == window_checked(*grid, path@, lo as int, hi as int),
        r ==> window_ok(*grid, path@, lo as int, hi as int),
{
    if !(lo <= hi && hi < path.len()) {
        return false;
    }
    if !enumeration_ready(grid, path[lo], WINDOW + 2) {
        return false;
    }
    let sub = copy_segment(path, lo, hi);
    if !cells_in_cube(&sub) {
        return false;
    }
    route_cost(grid, &sub).is_some()
}

/// The alternatives through the window `path[lo..=hi]`: the window itself with
/// its cost first, then up to `MAX_ALTS - 1` simple routes between its ends of
/// at most `WINDOW + 2` moves, a route being dropped when it costs as much as
/// the route just before it. Returns them with the cost of the window.
pub fn window_alternatives(grid: &CostGrid, path: &Vec<Pos>, lo: usize, hi: usize)
    -> (r: (Vec<(Vec<Pos>, u32)>, u32))
    requires
        window_ok(*grid, path@, lo as int, hi as int),
    ensures
        r.1 == walk_cost(*grid, path@.subrange(lo as int, hi + 1)),
        routes_view(r.0@) == dedup_costs(
            seq![(path@.subrange(lo as int, hi + 1), r.1 as int)] + window_routes(*grid, path@, lo as int, hi as int),
        ),
        r.0@.len() >= 1,
        r.0@[0].0@ == path@.subrange(lo as int, hi + 1),
        r.0@[0].1 == r.1,
        r.0@.len() <= MAX_ALTS,
        forall|i: int| 0 <= i < r.0@.len() - 1 ==> #[trigger] r.0@[i].1 != r.0@[i + 1].1,
        exists|idx: Seq<int>| #[trigger] keeps_run_heads(
            seq![(path@.subrange(lo as int, hi + 1), r.1 as int)] + window_routes(*grid, path@, lo as int, hi as int),
            routes_view(r.0@),
            idx,
        ),
        window_routes(*grid, path@, lo as int, hi as int).len() < MAX_ALTS - 1 ==> forall|w: Seq<Pos>|
            is_route(w, path@[lo as int], path@[hi as int], WINDOW + 2)
                ==> #[trigger] has_cost(routes_view(r.0@), walk_cost(*grid, w)),
        forall|i: int| 1 <= i < r.0@.len() ==> {
            &&& is_route(#[trigger] r.0@[i].0@, path@[lo as int], path@[hi as int], (WINDOW + 2) as int)
            &&& r.0@[i].1 == walk_cost(*grid, r.0@[i].0@)
        },
{
    let from = path[lo];
    let to = path[hi];
    let found = enumerate_paths(grid, from, to, WINDOW + 2, MAX_ALTS - 1);
    let sub = copy_segment(path, lo, hi);
    proof {
        lemma_walk_cost_nonneg(*grid, sub@);
    }
    let sub_cost = match route_cost(grid, &sub) {
        Some(c) => c,
        None => {
            assert(false);
            0
        },
    };
    let ghost enumerated = routes_view(found@);
    let mut alternatives = found;
    alternatives.insert(0, (sub, sub_cost));
    let ghost base = (path@.subrange(lo as int, hi + 1), sub_cost as int);
    assert(routes_view(alternatives@) =~= seq![base] + enumerated);
    let r = dedup_by_cost(alternatives);
    proof {
        let s = seq![base] + enumerated;
        lemma_dedup_costs(s);
        let d = routes_view(r@);
        assert(d[0] == route_view(r@[0]));
        assert forall|i: int| 0 <= i < r@.len() - 1 implies #[trigger] r@[i].1 != r@[i + 1].1 by {
            assert(d[i] == route_view(r@[i]) && d[i + 1] == route_view(r@[i + 1]));
            assert(d[i].1 != d[i + 1].1);
        }
        assert forall|i: int| 1 <= i < r@.len() implies {
            &&& is_route(#[trigger] r@[i].0@, path@[lo as int], path@[hi as int], (WINDOW + 2) as int)
            &&& r@[i].1 == walk_cost(*grid, r@[i].0@)
        } by {
            assert(d[i] == route_view(r@[i]));
            let j = choose|j: int| 1 <= j < s.len() && d[i] == s[j];
            assert(s[j] == enumerated[j - 1]);
            assert(enumerated[j - 1] == route_view(found@[j - 1]));
        }
        let wr = window_routes(*grid, path@, lo as int, hi as int);
        assert(enumerated == wr);
        lemma_dedup_costs_keeps(s);
        if wr.len() < MAX_ALTS - 1 {
            lemma_window_routes(*grid, path@, lo as int, hi as int);
            assert forall|w: Seq<Pos>| is_route(w, path@[lo as int], path@[hi as int], WINDOW + 2)
                implies #[trigger] has_cost(routes_view(r@), walk_cost(*grid, w)) by {
                assert(wr.contains((w, walk_cost(*grid, w))));
                let m = choose|m: int| 0 <= m < wr.len() && wr[m] == (w, walk_cost(*grid, w));
                assert(s[m + 1] == wr[m]);
            }
        }
    }
    (r, sub_cost)
}

/// Variable `i` of the solver's assignment is set; variables beyond the
/// assignment count as unset.
pub open spec fn is_set(assignment: Seq<bool>, i: int) -> bool {
    0 <= i < assignment.len() && assignment[i]
}

/// The route the solver selected among `n` routes: the first whose variable
/// is set, or the first route when none is.
pub fn select_route(assignment: &Vec<bool>, n: usize) -> (r: usize)
    ensures
        (exists|i: int| 0 <= i < n && is_set(assignment@, i)) ==> {
            &&& r < n
            &&& is_set(assignment@, r as int)
            &&& forall|j: int| 0 <= j < r ==> !is_set(assignment@, j)
        },
        !(exists|i: int| 0 <= i < n && is_set(assignment@, i)) ==> r == 0,
{
    let mut i: usize = 0;
    while i < n
        invariant
            i <= n,
            forall|j: int| 0 <= j < i ==> !is_set(assignment@, j),
        decreases n - i,
    {
        if i < assignment.len() && assignment[i] {
            assert(is_set(assignment@, i as int));
            return i;
        }
        i = i + 1;
    }
    0
}

/// What choosing the route of cost `selected` over the baseline saves: the
/// difference when it is cheaper, else nothing.
pub fn route_saving(baseline: u32, selected: u32) -> (r: Option<u32>)
    ensures
        r == if selected < baseline { Some((baseline - selected) as u32) } else { None },
{
    if selected < baseline { Some(baseline - selected) } else { None }
}

/// An obstacle is injected at cell `p`: some injection position lies on the
/// path and the path is at `p` there.
pub open spec fn obstacle_hit(path: Seq<Pos>, p: Pos, upto: int) -> bool {
    exists|k: int| 0 <= k < upto && injection_at(k) < path.len() && #[trigger] path[injection_at(k)] == p
}

/// Raises to `OBSTACLE_COST` the cells at which the path stands at each
/// injection position that lies on it; every other cell keeps its cost.
pub fn inject_obstacles(grid: &mut CostGrid, path: &Vec<Pos>)
    requires
        grid_dims(*old(grid)) == cube_dims(),
        crate::grid::grid_wf(*old(grid)),
        forall|k: int| 0 <= k < INJECTION_COUNT && injection_at(k) < path@.len() ==>
            in_cube(#[trigger] path@[injection_at(k)]),
    ensures
        grid_dims(*final(grid)) == grid_dims(*old(grid)),
        crate::grid::grid_wf(*final(grid)),
        forall|p: Pos| in_cube(p) ==> #[trigger] cost_at(*final(grid), p) == (
            if obstacle_hit(path@, p, INJECTION_COUNT as int) { OBSTACLE_COST } else { cost_at(*old(grid), p) }),
{
    let ghost start = *grid;
    let mut k: usize = 0;
    while k < INJECTION_COUNT
        invariant
            grid_dims(start) == cube_dims(),
            grid_dims(*grid) == cube_dims(),
            crate::grid::grid_wf(*grid),
            k <= INJECTION_COUNT,
            forall|j: int| 0 <= j < INJECTION_COUNT && injection_at(j) < path@.len() ==>
                in_cube(#[trigger] path@[injection_at(j)]),
            forall|p: Pos| in_cube(p) ==> #[trigger] cost_at(*grid, p) == (
                if obstacle_hit(path@, p, k as int) { OBSTACLE_COST } else { cost_at(start, p) }),
        decreases INJECTION_COUNT - k,
    {
        let idx = injection_index(k);
        let ghost before = *grid;
        if idx < path.len() {
            let (x, y, z) = path[idx];
            assert(in_cube(path@[injection_at(k as int)]));
            proof {
                lemma_cube_offset((x, y, z));
                assert(grid_dims(*grid).0 * grid_dims(*grid).1 * grid_dims(*grid).2 == 8000) by (nonlinear_arith)
                    requires grid_dims(*grid) == cube_dims(), cube_dims() == (20usize, 20usize, 20usize);
            }
            grid.set(x, y, z, OBSTACLE_COST);
            assert forall|p: Pos| in_cube(p) implies #[trigger] cost_at(*grid, p) == (
                if obstacle_hit(path@, p, k + 1) { OBSTACLE_COST } else { cost_at(start, p) }) by {
                lemma_cube_offset(p);
                assert(cost_at(before, p) == (
                    if obstacle_hit(path@, p, k as int) { OBSTACLE_COST } else { cost_at(start, p) }));
                if p != (x, y, z) {
                    lemma_cube_index_injective(p, (x, y, z));
                    if obstacle_hit(path@, p, k + 1) {
                        let j = choose|j: int| 0 <= j < k + 1 && injection_at(j) < path@.len() && #[trigger] path@[injection_at(j)] == p;
                        assert(j != k);
                    }
                } else {
                    assert(path@[injection_at(k as int)] == p);
                }
            }
        } else {
            assert forall|p: Pos| in_cube(p) implies #[trigger] cost_at(*grid, p) == (
                if obstacle_hit(path@, p, k + 1) { OBSTACLE_COST } else { cost_at(start, p) }) by {
                assert(cost_at(before, p) == (
                    if obstacle_hit(path@, p, k as int) { OBSTACLE_COST } else { cost_at(start, p) }));
                if obstacle_hit(path@, p, k + 1) {
                    let j = choose|j: int| 0 <= j < k + 1 && injection_at(j) < path@.len() && #[trigger] path@[injection_at(j)] == p;
                    assert(j != k);
                }
            }
        }
        k = k + 1;
    }
}

/// The running account of a refinement: the cost of the path before any
/// window was refined, the cost after the savings so far, and their sum.
pub struct Refinement {
    pub bfs_cost: u32,
    pub refined_cost: u32,
    pub total_savings: u32,
}

impl Refinement {
    /// Every unit saved is taken off the refined cost: refined cost plus
    /// savings is the initial cost.
    pub open spec fn balanced(&self) -> bool {
        self.refined_cost + self.total_savings == self.bfs_cost
    }

    /// The account before any window was refined.
    pub fn new(bfs_cost: u32) -> (r: Refinement)
        ensures
            r.bfs_cost == bfs_cost,
            r.refined_cost == bfs_cost,
            r.total_savings == 0,
            r.balanced(),
    {
        Refinement { bfs_cost, refined_cost: bfs_cost, total_savings: 0 }
    }

    /// The solver's route of cost `selected` is cheaper than the window's own
    /// route of cost `baseline` by no more than what remains of the cost.
    pub open spec fn fits(&self, baseline: u32, selected: u32) -> bool {
        selected < baseline ==> baseline - selected <= self.refined_cost
    }

    /// Whether `record` can take this choice.
    pub fn can_record(&self, baseline: u32, selected: u32) -> (r: bool)
        ensures
            r == self.fits(baseline, selected),
    {
        !(selected < baseline) || baseline - selected <= self.refined_cost
    }

    /// Records the choice made in one window: a cheaper route saves the
    /// difference, which moves from the refined cost to the savings; otherwise
    /// nothing changes. The account stays balanced.
    pub fn record(&mut self, baseline: u32, selected: u32)
        requires
            old(self).balanced(),
            old(self).fits(baseline, selected),
        ensures
            final(self).bfs_cost == old(self).bfs_cost,
            selected < baseline ==> final(self).refined_cost == old(self).refined_cost - (baseline - selected),
            selected < baseline ==> final(self).total_savings == old(self).total_savings + (baseline - selected),
            !(selected < baseline) ==> *final(self) == *old(self),
            final(self).balanced(),
    {
        match route_saving(baseline, selected) {
            Some(saving) => {
                self.total_savings = self.total_savings + saving;
                self.refined_cost = self.refined_cost - saving;
            },
            None => {},
        }
    }
}

/// The outcome of the solver's assignment over `alternatives`: the index of
/// the route selected, its cost, and what it saves over `baseline`.
pub fn choose_alternative(alternatives: &Vec<(Vec<Pos>, u32)>, baseline: u32, assignment: &Vec<bool>)
    -> (r: (usize, u32, Option<u32>))
    requires
        alternatives@.len() >= 1,
    ensures
        r.0 < alternatives@.len(),
        r.0 == select_spec(assignment@, alternatives@.len() as int),
        r.1 == alternatives@[r.0 as int].1,
        r.2 == if r.1 < baseline { Some((baseline - r.1) as u32) } else { None },
{
    let i = select_route(assignment, alternatives.len());
    let cost = alternatives[i].1;
    (i, cost, route_saving(baseline, cost))
}

/// The route selected among `n` routes: the first whose variable is set, or 0.
pub open spec fn select_spec(assignment: Seq<bool>, n: int) -> int {
    if exists|i: int| 0 <= i < n && is_set(assignment, i) {
        choose|i: int| 0 <= i < n && is_set(assignment, i) && forall|j: int| 0 <= j < i ==> !is_set(assignment, j)
    } else {
        0
    }
}

} // verus!
