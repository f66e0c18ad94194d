//! Depth-first enumeration of the simple routes between two cells.

use vstd::prelude::*;
use crate::walk::{
    Pos, in_cube, step, linked, is_walk, walk_between, no_repeats, lemma_step_linked,
    lemma_linked_step, step_exec, same_pos, path_contains,
};
use crate::grid::{
    CostGrid, cost_at, covers_cube, walk_cost, grid_covers_cube, max_cube_cost, free_sum,
    free_cells_sum, lemma_free_sum_push, lemma_free_sum_x_bounds, lemma_push_contains,
};

verus! {

/// A route as a value: its cells and its cost.
pub open spec fn route_view(r: (Vec<Pos>, u32)) -> (Seq<Pos>, int) {
    (r.0@, r.1 as int)
}

/// A list of routes as values.
pub open spec fn routes_view(v: Seq<(Vec<Pos>, u32)>) -> Seq<(Seq<Pos>, int)> {
    v.map_values(|r: (Vec<Pos>, u32)| route_view(r))
}

/// The routes the search finds from `pos`, having walked `path` at `cost`,
/// with `hops` moves left: `path` itself at `cost` when `pos` is the goal;
/// otherwise, while moves are left, the routes through each neighbour of
/// `pos` that is not on `path`, directions in order, each move adding the
/// cost of the cell entered.
pub open spec fn dfs_routes(g: CostGrid, path: Seq<Pos>, pos: Pos, goal: Pos, hops: nat, cost: int)
    -> Seq<(Seq<Pos>, int)>
    decreases hops, 8int,
{
    if pos == goal {
        seq![(path, cost)]
    } else if hops == 0 {
        Seq::empty()
    } else {
        dfs_branches(g, path, pos, goal, hops, cost, 0)
    }
}

/// The routes through the neighbours of `pos` in directions `d..6`.
pub open spec fn dfs_branches(g: CostGrid, path: Seq<Pos>, pos: Pos, goal: Pos, hops: nat, cost: int, d: int)
    -> Seq<(Seq<Pos>, int)>
    decreases hops, 7 - d,
{
    if d < 0 || d >= 6 || hops == 0 {
        Seq::empty()
    } else {
        let here = match step(pos, d) {
            Some(q) => if path.contains(q) {
                Seq::empty()
            } else {
                dfs_routes(g, path.push(q), q, goal, (hops - 1) as nat, cost + cost_at(g, q))
            },
            None => Seq::empty(),
        };
        here + dfs_branches(g, path, pos, goal, hops, cost, d + 1)
    }
}

/// The routes through the neighbour of `pos` in direction `d`.
pub open spec fn dfs_branch(g: CostGrid, path: Seq<Pos>, pos: Pos, goal: Pos, hops: nat, cost: int, d: int)
    -> Seq<(Seq<Pos>, int)>
{
    match step(pos, d) {
        Some(q) => if path.contains(q) {
            Seq::empty()
        } else {
            dfs_routes(g, path.push(q), q, goal, (hops - 1) as nat, cost + cost_at(g, q))
        },
        None => Seq::empty(),
    }
}

/// The summed cost of the cells `w[n..]`.
pub open spec fn ext_cost(g: CostGrid, w: Seq<Pos>, n: int) -> int
    decreases w.len(),
{
    if w.len() <= n || w.len() == 0 {
        0
    } else {
        ext_cost(g, w.drop_last(), n) + cost_at(g, w.last())
    }
}

/// Splitting the first cell off an extension.
pub proof fn lemma_ext_cost_front(g: CostGrid, w: Seq<Pos>, n: int)
    requires
        0 <= n < w.len(),
    ensures
        ext_cost(g, w, n) == cost_at(g, w[n]) + ext_cost(g, w, n + 1),
    decreases w.len(),
{
    if w.len() > n + 1 {
        let v = w.drop_last();
        lemma_ext_cost_front(g, v, n);
        assert(v[n] == w[n]);
    } else {
        assert(ext_cost(g, w.drop_last(), n) == 0);
    }
}

/// The cost of a walk is the cost of the cells after its first.
pub proof fn lemma_walk_cost_ext(g: CostGrid, w: Seq<Pos>)
    requires
        w.len() >= 1,
    ensures
        walk_cost(g, w) == ext_cost(g, w, 1),
    decreases w.len(),
{
    if w.len() > 1 {
        lemma_walk_cost_ext(g, w.drop_last());
    }
}

/// Appends `found` to `r` as long as `r` holds fewer than `max` items, and no
/// further than `max` items; a list already holding `max` items stays as it is.
pub open spec fn fill<A>(r: Seq<A>, found: Seq<A>, max: int) -> Seq<A> {
    if r.len() >= max {
        r
    } else if r.len() + found.len() <= max {
        r + found
    } else {
        (r + found).take(max)
    }
}

/// Filling with `a` and then with `b` is filling with `a + b`.
pub proof fn lemma_fill_concat<A>(r: Seq<A>, a: Seq<A>, b: Seq<A>, max: int)
    ensures
        fill(fill(r, a, max), b, max) == fill(r, a + b, max),
{
    if r.len() >= max {
    } else if r.len() + a.len() <= max {
        assert(r + a + b == r + (a + b));
    } else {
        assert((r + a).take(max) + b == r + (a + b) || (r + a).take(max).len() >= max);
        assert((r + (a + b)).take(max) == (r + a).take(max));
    }
}

/// `w` is a simple route from `from` to `to` of at most `max_hops` moves.
pub open spec fn is_route(w: Seq<Pos>, from: Pos, to: Pos, max_hops: int) -> bool {
    &&& walk_between(w, from, to)
    &&& no_repeats(w)
    &&& w.len() <= max_hops + 1
}

/// `w` starts with `prefix`.
pub open spec fn extends(w: Seq<Pos>, prefix: Seq<Pos>) -> bool {
    prefix.len() <= w.len() && w.subrange(0, prefix.len() as int) == prefix
}

/// What a route the search finds from `pos`, having walked `path` at `cost`
/// with `hops` moves left, is: `path` followed by an extension of at most
/// `hops` cells, empty exactly when `pos` is the goal; otherwise a chain of
/// unit moves from `pos` to the goal inside the cube, through cells off
/// `path` and each taken once; at `cost` plus the cost of the extension.
pub open spec fn found_from(e: (Seq<Pos>, int), g: CostGrid, path: Seq<Pos>, pos: Pos, goal: Pos, hops: nat, cost: int)
    -> bool
{
    let n = path.len() as int;
    &&& extends(e.0, path)
    &&& e.0.len() <= n + hops
    &&& (e.0.len() == n) == (pos == goal)
    &&& e.0.len() > n ==> {
        &&& e.0.last() == goal
        &&& linked(pos, e.0[n])
        &&& forall|i: int| n <= i < e.0.len() - 1 ==> #[trigger] linked(e.0[i], e.0[i + 1])
    }
    &&& forall|i: int| n <= i < e.0.len() ==> !path.contains(#[trigger] e.0[i])
    &&& forall|i: int, j: int| n <= i < j < e.0.len() ==> e.0[i] != e.0[j]
    &&& e.1 == cost + ext_cost(g, e.0, n)
}

/// Every route the search finds is as `found_from` says.
pub proof fn lemma_dfs_found(g: CostGrid, path: Seq<Pos>, pos: Pos, goal: Pos, hops: nat, cost: int)
    ensures
        forall|i: int| 0 <= i < dfs_routes(g, path, pos, goal, hops, cost).len() ==>
            found_from(#[trigger] dfs_routes(g, path, pos, goal, hops, cost)[i], g, path, pos, goal, hops, cost),
    decreases hops, 20int,
{
    if pos == goal {
        assert(path.subrange(0, path.len() as int) == path);
        assert(dfs_routes(g, path, pos, goal, hops, cost) == seq![(path, cost)]);
        assert(found_from((path, cost), g, path, pos, goal, hops, cost));
    } else if hops > 0 {
        lemma_branches_found(g, path, pos, goal, hops, cost, 0);
        assert(dfs_routes(g, path, pos, goal, hops, cost) == dfs_branches(g, path, pos, goal, hops, cost, 0));
    }
}

/// A route found through direction `d` is as `found_from` says.
proof fn lemma_branch_found(g: CostGrid, path: Seq<Pos>, pos: Pos, goal: Pos, hops: nat, cost: int, d: int)
    requires
        0 <= d < 6,
        hops > 0,
        pos != goal,
    ensures
        forall|i: int| 0 <= i < dfs_branch(g, path, pos, goal, hops, cost, d).len() ==>
            found_from(#[trigger] dfs_branch(g, path, pos, goal, hops, cost, d)[i], g, path, pos, goal, hops, cost),
    decreases hops, 14 - 2 * d,
{
    match step(pos, d) {
        Some(q) => {
            if !path.contains(q) {
                let n = path.len() as int;
                let longer = path.push(q);
                let c2 = cost + cost_at(g, q);
                let sub = dfs_routes(g, longer, q, goal, (hops - 1) as nat, c2);
                lemma_step_linked(pos, d);
                lemma_dfs_found(g, longer, q, goal, (hops - 1) as nat, c2);
                assert forall|i: int| 0 <= i < sub.len() implies
                    found_from(#[trigger] sub[i], g, path, pos, goal, hops, cost) by {
                    let e = sub[i];
                    assert(found_from(e, g, longer, q, goal, (hops - 1) as nat, c2));
                    let w = e.0;
                    assert(w.subrange(0, n + 1) == longer);
                    assert(w[n] == q) by {
                        assert(w[n] == w.subrange(0, n + 1)[n]);
                    }
                    assert(w.subrange(0, n) == path) by {
                        assert(w.subrange(0, n) == longer.subrange(0, n));
                    }
                    if w.len() == n + 1 {
                        assert(w == longer) by {
                            assert(w == w.subrange(0, n + 1));
                        }
                    }
                    assert forall|k: int| n <= k < w.len() - 1 implies #[trigger] linked(w[k], w[k + 1]) by {
                        if k == n {
                            assert(linked(q, w[n + 1]));
                        }
                    }
                    assert forall|k: int| n <= k < w.len() implies !path.contains(#[trigger] w[k]) by {
                        if k > n {
                            assert(!longer.contains(w[k]));
                            if path.contains(w[k]) {
                                let t = choose|t: int| 0 <= t < path.len() && path[t] == w[k];
                                assert(longer[t] == w[k]);
                            }
                        }
                    }
                    assert forall|a: int, b: int| n <= a < b < w.len() implies w[a] != w[b] by {
                        if a == n {
                            assert(!longer.contains(w[b]));
                            assert(longer[n] == q);
                        }
                    }
                    lemma_ext_cost_front(g, w, n);
                }
            }
        },
        None => {},
    }
}

/// The routes found through directions `d..6` are as `found_from` says.
proof fn lemma_branches_found(g: CostGrid, path: Seq<Pos>, pos: Pos, goal: Pos, hops: nat, cost: int, d: int)
    requires
        0 <= d <= 6,
        pos != goal,
    ensures
        forall|i: int| 0 <= i < dfs_branches(g, path, pos, goal, hops, cost, d).len() ==>
            found_from(#[trigger] dfs_branches(g, path, pos, goal, hops, cost, d)[i], g, path, pos, goal, hops, cost),
    decreases hops, 15 - 2 * d,
{
    if d < 6 && hops > 0 {
        lemma_branches_found(g, path, pos, goal, hops, cost, d + 1);
        lemma_branch_found(g, path, pos, goal, hops, cost, d);
        let all = dfs_branches(g, path, pos, goal, hops, cost, d);
        let rest = dfs_branches(g, path, pos, goal, hops, cost, d + 1);
        let here = dfs_branch(g, path, pos, goal, hops, cost, d);
        assert(all == here + rest);
        assert forall|i: int| 0 <= i < all.len() implies
            found_from(#[trigger] all[i], g, path, pos, goal, hops, cost) by {
            if i < here.len() {
                assert(all[i] == here[i]);
            } else {
                assert(all[i] == rest[i - here.len()]);
            }
        }
    }
}

/// Every route found through directions `d..6` goes on from `path` to a cell
/// that a move from `pos` in one of those directions reaches.
proof fn lemma_branches_next(g: CostGrid, path: Seq<Pos>, pos: Pos, goal: Pos, hops: nat, cost: int, d: int)
    requires
        0 <= d <= 6,
    ensures
        forall|i: int| 0 <= i < dfs_branches(g, path, pos, goal, hops, cost, d).len() ==> {
            let e = #[trigger] dfs_branches(g, path, pos, goal, hops, cost, d)[i];
            &&& e.0.len() > path.len()
            &&& exists|k: int| d <= k < 6 && step(pos, k) == Some(e.0[path.len() as int])
        },
    decreases 6 - d,
{
    if d < 6 && hops > 0 {
        lemma_branches_next(g, path, pos, goal, hops, cost, d + 1);
        let all = dfs_branches(g, path, pos, goal, hops, cost, d);
        let rest = dfs_branches(g, path, pos, goal, hops, cost, d + 1);
        let here = dfs_branch(g, path, pos, goal, hops, cost, d);
        assert(all == here + rest);
        let n = path.len() as int;
        assert forall|i: int| 0 <= i < all.len() implies {
            let e = #[trigger] all[i];
            &&& e.0.len() > n
            &&& exists|k: int| d <= k < 6 && step(pos, k) == Some(e.0[n])
        } by {
            let e = all[i];
            if i < here.len() {
                assert(e == here[i]);
                let q = step(pos, d)->Some_0;
                let longer = path.push(q);
                let c2 = cost + cost_at(g, q);
                lemma_dfs_found(g, longer, q, goal, (hops - 1) as nat, c2);
                assert(found_from(dfs_routes(g, longer, q, goal, (hops - 1) as nat, c2)[i], g, longer, q, goal, (hops - 1) as nat, c2));
                assert(e.0[n] == e.0.subrange(0, n + 1)[n]);
            } else {
                assert(e == rest[i - here.len()]);
            }
        }
    }
}

/// The search finds every route at most once.
pub proof fn lemma_dfs_distinct(g: CostGrid, path: Seq<Pos>, pos: Pos, goal: Pos, hops: nat, cost: int)
    ensures
        forall|i: int, j: int| 0 <= i < j < dfs_routes(g, path, pos, goal, hops, cost).len() ==>
            dfs_routes(g, path, pos, goal, hops, cost)[i].0 != dfs_routes(g, path, pos, goal, hops, cost)[j].0,
    decreases hops, 8int,
{
    if pos != goal && hops > 0 {
        lemma_branches_distinct(g, path, pos, goal, hops, cost, 0);
        assert(dfs_routes(g, path, pos, goal, hops, cost) == dfs_branches(g, path, pos, goal, hops, cost, 0));
    }
}

/// The routes found through directions `d..6` are pairwise different.
proof fn lemma_branches_distinct(g: CostGrid, path: Seq<Pos>, pos: Pos, goal: Pos, hops: nat, cost: int, d: int)
    requires
        0 <= d <= 6,
    ensures
        forall|i: int, j: int| 0 <= i < j < dfs_branches(g, path, pos, goal, hops, cost, d).len() ==>
            dfs_branches(g, path, pos, goal, hops, cost, d)[i].0 != dfs_branches(g, path, pos, goal, hops, cost, d)[j].0,
    decreases hops, 7 - d,
{
    if d < 6 && hops > 0 {
        lemma_branches_distinct(g, path, pos, goal, hops, cost, d + 1);
        lemma_branches_next(g, path, pos, goal, hops, cost, d + 1);
        let all = dfs_branches(g, path, pos, goal, hops, cost, d);
        let rest = dfs_branches(g, path, pos, goal, hops, cost, d + 1);
        let here = dfs_branch(g, path, pos, goal, hops, cost, d);
        assert(all == here + rest);
        let n = path.len() as int;
        if here.len() > 0 {
            let q = step(pos, d)->Some_0;
            let longer = path.push(q);
            let c2 = cost + cost_at(g, q);
            lemma_dfs_found(g, longer, q, goal, (hops - 1) as nat, c2);
            lemma_dfs_distinct(g, longer, q, goal, (hops - 1) as nat, c2);
            assert forall|i: int, j: int| 0 <= i < j < all.len() implies all[i].0 != all[j].0 by {
                if j < here.len() {
                    assert(all[i] == here[i] && all[j] == here[j]);
                } else if i >= here.len() {
                    assert(all[i] == rest[i - here.len()] && all[j] == rest[j - here.len()]);
                } else {
                    let a = all[i];
                    let b = all[j];
                    assert(a == here[i]);
                    assert(b == rest[j - here.len()]);
                    assert(found_from(dfs_routes(g, longer, q, goal, (hops - 1) as nat, c2)[i], g, longer, q, goal, (hops - 1) as nat, c2));
                    assert(a.0[n] == a.0.subrange(0, n + 1)[n]);
                    let k = choose|k: int| d + 1 <= k < 6 && step(pos, k) == Some(b.0[n]);
                    lemma_step_distinct(pos, d, k);
                }
            }
        } else {
            assert(all == rest);
        }
    }
}

/// A route found through direction `d` is among those found through `d0..6`.
proof fn lemma_branches_include(
    g: CostGrid, path: Seq<Pos>, pos: Pos, goal: Pos, hops: nat, cost: int, d0: int, d: int, x: (Seq<Pos>, int),
)
    requires
        0 <= d0 <= d < 6,
        hops > 0,
        dfs_branch(g, path, pos, goal, hops, cost, d).contains(x),
    ensures
        dfs_branches(g, path, pos, goal, hops, cost, d0).contains(x),
    decreases d - d0,
{
    let here = dfs_branch(g, path, pos, goal, hops, cost, d0);
    let rest = dfs_branches(g, path, pos, goal, hops, cost, d0 + 1);
    assert(dfs_branches(g, path, pos, goal, hops, cost, d0) == here + rest);
    if d == d0 {
        let k = choose|k: int| 0 <= k < here.len() && here[k] == x;
        assert((here + rest)[k] == x);
    } else {
        lemma_branches_include(g, path, pos, goal, hops, cost, d0 + 1, d, x);
        let k = choose|k: int| 0 <= k < rest.len() && rest[k] == x;
        assert((here + rest)[here.len() + k] == x);
    }
}

/// Every simple walk that extends `path` from its end `pos`, ends at the goal
/// and takes at most `hops` more moves is found, at `cost` plus the cost of
/// its extension.
pub proof fn lemma_dfs_complete(g: CostGrid, path: Seq<Pos>, pos: Pos, goal: Pos, hops: nat, cost: int, w: Seq<Pos>)
    requires
        path.len() >= 1,
        pos == path.last(),
        extends(w, path),
        is_walk(w),
        no_repeats(w),
        w.last() == goal,
        w.len() <= path.len() + hops,
    ensures
        dfs_routes(g, path, pos, goal, hops, cost).contains((w, cost + ext_cost(g, w, path.len() as int))),
    decreases hops,
{
    let n = path.len() as int;
    assert(w[n - 1] == w.subrange(0, n)[n - 1]);
    if pos == goal {
        assert(w.len() == n) by {
            if w.len() > n {
                assert(w[n - 1] == w[w.len() - 1]);
            }
        }
        assert(w == w.subrange(0, n));
        assert(ext_cost(g, w, n) == 0);
        assert(dfs_routes(g, path, pos, goal, hops, cost)[0] == (w, cost + ext_cost(g, w, n)));
    } else {
        assert(w.len() > n) by {
            if w.len() == n {
                assert(w == w.subrange(0, n));
            }
        }
        let q = w[n];
        assert(linked(w[n - 1], w[(n - 1) + 1]));
        lemma_linked_step(pos, q);
        let d = choose|d: int| 0 <= d < 6 && step(pos, d) == Some(q);
        assert(!path.contains(q)) by {
            if path.contains(q) {
                let k = choose|k: int| 0 <= k < n && path[k] == q;
                assert(w[k] == w.subrange(0, n)[k]);
            }
        }
        let longer = path.push(q);
        let c2 = cost + cost_at(g, q);
        assert(w.subrange(0, n + 1) == longer);
        lemma_dfs_complete(g, longer, q, goal, (hops - 1) as nat, c2, w);
        lemma_ext_cost_front(g, w, n);
        assert(dfs_branch(g, path, pos, goal, hops, cost, d) == dfs_routes(g, longer, q, goal, (hops - 1) as nat, c2));
        lemma_branches_include(g, path, pos, goal, hops, cost, 0, d, (w, cost + ext_cost(g, w, n)));
    }
}

/// The rank of the move from `p` to `q` in the order in which the search
/// tries moves: +x, -x, +y, -y, +z, -z; 6 when `q` is no unit move from `p`.
pub open spec fn move_rank(p: Pos, q: Pos) -> int {
    if q.0 == p.0 + 1 && q.1 == p.1 && q.2 == p.2 {
        0
    } else if q.0 + 1 == p.0 && q.1 == p.1 && q.2 == p.2 {
        1
    } else if q.0 == p.0 && q.1 == p.1 + 1 && q.2 == p.2 {
        2
    } else if q.0 == p.0 && q.1 + 1 == p.1 && q.2 == p.2 {
        3
    } else if q.0 == p.0 && q.1 == p.1 && q.2 == p.2 + 1 {
        4
    } else if q.0 == p.0 && q.1 == p.1 && q.2 + 1 == p.2 {
        5
    } else {
        6
    }
}

/// Walk `a` comes before walk `b` in depth-first order: they agree on their
/// first `k` cells, and from cell `k - 1` walk `a` takes a move tried before
/// the move `b` takes.
pub open spec fn dfs_before(a: Seq<Pos>, b: Seq<Pos>) -> bool {
    exists|k: int| #[trigger] diverge_at(a, b, k)
}

/// `a` and `b` agree on their first `k` cells and part at cell `k`, `a`
/// with the move tried first.
pub open spec fn diverge_at(a: Seq<Pos>, b: Seq<Pos>, k: int) -> bool {
    &&& 1 <= k < a.len()
    &&& k < b.len()
    &&& forall|t: int| 0 <= t < k ==> a[t] == b[t]
    &&& move_rank(a[k - 1], a[k]) < move_rank(a[k - 1], b[k])
}

/// A move in direction `d` has rank `d`.
proof fn lemma_step_rank(p: Pos, d: int)
    requires
        0 <= d < 6,
        step(p, d) is Some,
    ensures
        move_rank(p, step(p, d)->Some_0) == d,
{
}

/// No walk comes before itself, and of two walks at most one comes first.
pub proof fn lemma_dfs_before_asymmetric(a: Seq<Pos>, b: Seq<Pos>)
    ensures
        !(dfs_before(a, b) && dfs_before(b, a)),
{
    if dfs_before(a, b) && dfs_before(b, a) {
        let k1 = choose|k: int| #[trigger] diverge_at(a, b, k);
        let k2 = choose|k: int| #[trigger] diverge_at(b, a, k);
        if k1 < k2 {
            assert(a[k1] == b[k1]);
        } else if k2 < k1 {
            assert(b[k2] == a[k2]);
        } else {
            assert(a[k1 - 1] == b[k1 - 1]);
        }
    }
}

/// The routes found through directions `d..6` come in depth-first order.
proof fn lemma_branches_sorted(g: CostGrid, path: Seq<Pos>, pos: Pos, goal: Pos, hops: nat, cost: int, d: int)
    requires
        0 <= d <= 6,
        path.len() >= 1,
        path.last() == pos,
        pos != goal,
    ensures
        forall|i: int, j: int| 0 <= i < j < dfs_branches(g, path, pos, goal, hops, cost, d).len() ==>
            dfs_before(dfs_branches(g, path, pos, goal, hops, cost, d)[i].0, dfs_branches(g, path, pos, goal, hops, cost, d)[j].0),
    decreases hops, 7 - d,
{
    if d < 6 && hops > 0 {
        lemma_branches_sorted(g, path, pos, goal, hops, cost, d + 1);
        lemma_branches_next(g, path, pos, goal, hops, cost, d + 1);
        let all = dfs_branches(g, path, pos, goal, hops, cost, d);
        let rest = dfs_branches(g, path, pos, goal, hops, cost, d + 1);
        let here = dfs_branch(g, path, pos, goal, hops, cost, d);
        assert(all == here + rest);
        let n = path.len() as int;
        if here.len() > 0 {
            let q = step(pos, d)->Some_0;
            let longer = path.push(q);
            let c2 = cost + cost_at(g, q);
            assert(here == dfs_routes(g, longer, q, goal, (hops - 1) as nat, c2));
            lemma_dfs_found(g, longer, q, goal, (hops - 1) as nat, c2);
            lemma_dfs_sorted(g, longer, q, goal, (hops - 1) as nat, c2);
            lemma_step_rank(pos, d);
            assert forall|i: int, j: int| 0 <= i < j < all.len() implies dfs_before(all[i].0, all[j].0) by {
                if j < here.len() {
                    assert(all[i] == here[i] && all[j] == here[j]);
                } else if i >= here.len() {
                    assert(all[i] == rest[i - here.len()] && all[j] == rest[j - here.len()]);
                } else {
                    let a = all[i].0;
                    let b = all[j].0;
                    assert(all[i] == here[i]);
                    assert(all[j] == rest[j - here.len()]);
                    assert(found_from(here[i], g, longer, q, goal, (hops - 1) as nat, c2));
                    assert(found_from(rest[j - here.len()], g, path, pos, goal, hops, cost)) by {
                        lemma_branches_found(g, path, pos, goal, hops, cost, d + 1);
                    }
                    assert(a[n] == a.subrange(0, n + 1)[n]);
                    let k = choose|k: int| d + 1 <= k < 6 && step(pos, k) == Some(b[n]);
                    lemma_step_rank(pos, k);
                    assert forall|t: int| 0 <= t < n implies a[t] == b[t] by {
                        assert(a[t] == a.subrange(0, n + 1)[t]);
                        assert(a.subrange(0, n + 1)[t] == longer[t]);
                        assert(b[t] == b.subrange(0, n)[t]);
                    }
                    assert(a[n - 1] == pos) by {
                        assert(a[n - 1] == a.subrange(0, n + 1)[n - 1]);
                    }
                    assert(diverge_at(a, b, n));
                }
            }
        } else {
            assert(all == rest);
        }
    }
}

/// The routes the search finds come in depth-first order: each before the
/// next, the moves out of every cell tried +x, -x, +y, -y, +z, -z.
pub proof fn lemma_dfs_sorted(g: CostGrid, path: Seq<Pos>, pos: Pos, goal: Pos, hops: nat, cost: int)
    requires
        path.len() >= 1,
        path.last() == pos,
    ensures
        forall|i: int, j: int| 0 <= i < j < dfs_routes(g, path, pos, goal, hops, cost).len() ==>
            dfs_before(dfs_routes(g, path, pos, goal, hops, cost)[i].0, dfs_routes(g, path, pos, goal, hops, cost)[j].0),
    decreases hops, 8int,
{
    if pos != goal && hops > 0 {
        lemma_branches_sorted(g, path, pos, goal, hops, cost, 0);
        assert(dfs_routes(g, path, pos, goal, hops, cost) == dfs_branches(g, path, pos, goal, hops, cost, 0));
    }
}

/// The routes `enumerate_paths` draws from: all routes the search finds
/// from `from`.
pub open spec fn all_routes(g: CostGrid, from: Pos, to: Pos, max_hops: nat) -> Seq<(Seq<Pos>, int)> {
    dfs_routes(g, seq![from], from, to, max_hops, 0)
}

/// Completeness of the enumeration: every simple route from `from` to `to` of
/// at most `max_hops` moves is found, with its cost.
pub proof fn lemma_enumeration_complete(g: CostGrid, from: Pos, to: Pos, max_hops: nat, w: Seq<Pos>)
    requires
        is_route(w, from, to, max_hops as int),
    ensures
        all_routes(g, from, to, max_hops).contains((w, walk_cost(g, w))),
{
    assert(w.subrange(0, 1) == seq![from]);
    lemma_dfs_complete(g, seq![from], from, to, max_hops, 0, w);
    lemma_walk_cost_ext(g, w);
}

/// The enumeration finds every route at most once.
pub proof fn lemma_enumeration_distinct(g: CostGrid, from: Pos, to: Pos, max_hops: nat)
    ensures
        forall|i: int, j: int| 0 <= i < j < all_routes(g, from, to, max_hops).len() ==>
            all_routes(g, from, to, max_hops)[i].0 != all_routes(g, from, to, max_hops)[j].0,
{
    lemma_dfs_distinct(g, seq![from], from, to, max_hops, 0);
}

/// The enumeration lists its routes in depth-first order: each comes before
/// the next, the moves out of every cell tried +x, -x, +y, -y, +z, -z.
pub proof fn lemma_enumeration_ordered(g: CostGrid, from: Pos, to: Pos, max_hops: nat)
    ensures
        forall|i: int, j: int| 0 <= i < j < all_routes(g, from, to, max_hops).len() ==>
            dfs_before(all_routes(g, from, to, max_hops)[i].0, all_routes(g, from, to, max_hops)[j].0),
{
    lemma_dfs_sorted(g, seq![from], from, to, max_hops, 0);
}

/// Keeping the first `max` routes of the enumeration keeps simple routes with
/// their costs, in depth-first order; all of them when fewer than `max` were
/// found; and every route that comes before a kept one is kept, ahead of it.
pub proof fn lemma_first_routes(g: CostGrid, from: Pos, to: Pos, max_hops: nat, max: int)
    requires
        max >= 0,
    ensures
        fill(Seq::<(Seq<Pos>, int)>::empty(), all_routes(g, from, to, max_hops), max).len() <= max,
        forall|i: int| 0 <= i < fill(Seq::<(Seq<Pos>, int)>::empty(), all_routes(g, from, to, max_hops), max).len() ==> {
            let e = #[trigger] fill(Seq::<(Seq<Pos>, int)>::empty(), all_routes(g, from, to, max_hops), max)[i];
            is_route(e.0, from, to, max_hops as int) && e.1 == walk_cost(g, e.0)
        },
        forall|i: int, j: int| 0 <= i < j < fill(Seq::<(Seq<Pos>, int)>::empty(), all_routes(g, from, to, max_hops), max).len() ==>
            dfs_before(
                fill(Seq::<(Seq<Pos>, int)>::empty(), all_routes(g, from, to, max_hops), max)[i].0,
                fill(Seq::<(Seq<Pos>, int)>::empty(), all_routes(g, from, to, max_hops), max)[j].0,
            ),
        fill(Seq::<(Seq<Pos>, int)>::empty(), all_routes(g, from, to, max_hops), max).len() < max ==>
            forall|w: Seq<Pos>| is_route(w, from, to, max_hops as int) ==>
                fill(Seq::<(Seq<Pos>, int)>::empty(), all_routes(g, from, to, max_hops), max).contains((w, walk_cost(g, w))),
        forall|w: Seq<Pos>, i: int|
            is_route(w, from, to, max_hops as int)
                && 0 <= i < fill(Seq::<(Seq<Pos>, int)>::empty(), all_routes(g, from, to, max_hops), max).len()
                && #[trigger] dfs_before(w, fill(Seq::<(Seq<Pos>, int)>::empty(), all_routes(g, from, to, max_hops), max)[i].0)
                ==> exists|k: int| 0 <= k < i
                    && fill(Seq::<(Seq<Pos>, int)>::empty(), all_routes(g, from, to, max_hops), max)[k].0 == w,
{
    let all = all_routes(g, from, to, max_hops);
    let e = Seq::<(Seq<Pos>, int)>::empty();
    let f = fill(e, all, max);
    lemma_enumeration_sound(g, from, to, max_hops);
    lemma_enumeration_ordered(g, from, to, max_hops);
    assert(e + all == all);
    assert(f.len() <= all.len());
    assert(forall|i: int| 0 <= i < f.len() ==> f[i] == all[i]) by {
        if max == 0 {
        } else if all.len() <= max {
            assert(f == all);
        } else {
            assert(f == all.take(max));
        }
    }
    assert forall|i: int| 0 <= i < f.len() implies {
        let x = #[trigger] f[i];
        is_route(x.0, from, to, max_hops as int) && x.1 == walk_cost(g, x.0)
    } by {
        assert(f[i] == all[i]);
    }
    assert forall|i: int, j: int| 0 <= i < j < f.len() implies dfs_before(f[i].0, f[j].0) by {
        assert(f[i] == all[i] && f[j] == all[j]);
    }
    if f.len() < max {
        assert(f == all);
        assert forall|w: Seq<Pos>| is_route(w, from, to, max_hops as int) implies f.contains((w, walk_cost(g, w))) by {
            lemma_enumeration_complete(g, from, to, max_hops, w);
        }
    }
    assert forall|w: Seq<Pos>, i: int|
        is_route(w, from, to, max_hops as int) && 0 <= i < f.len() && #[trigger] dfs_before(w, f[i].0)
        implies exists|k: int| 0 <= k < i && f[k].0 == w by {
        lemma_enumeration_complete(g, from, to, max_hops, w);
        let m = choose|m: int| 0 <= m < all.len() && all[m] == (w, walk_cost(g, w));
        assert(f[i] == all[i]);
        lemma_dfs_before_asymmetric(w, all[i].0);
        if m > i {
            assert(dfs_before(all[i].0, all[m].0));
        } else if m == i {
            lemma_dfs_before_asymmetric(w, w);
        } else {
            assert(f[m] == all[m]);
        }
    }
}

/// Soundness of the enumeration: every route found from `from` to `to` within
/// `max_hops` moves is a simple route between them, with its cost.
pub proof fn lemma_enumeration_sound(g: CostGrid, from: Pos, to: Pos, max_hops: nat)
    ensures
        forall|i: int| 0 <= i < all_routes(g, from, to, max_hops).len() ==> {
            let e = #[trigger] all_routes(g, from, to, max_hops)[i];
            is_route(e.0, from, to, max_hops as int) && e.1 == walk_cost(g, e.0)
        },
{
    let start = seq![from];
    let all = all_routes(g, from, to, max_hops);
    lemma_dfs_found(g, start, from, to, max_hops, 0);
    assert forall|i: int| 0 <= i < all.len() implies {
        let e = #[trigger] all[i];
        is_route(e.0, from, to, max_hops as int) && e.1 == walk_cost(g, e.0)
    } by {
        let e = all[i];
        let w = e.0;
        assert(found_from(e, g, start, from, to, max_hops, 0));
        assert(w[0] == w.subrange(0, 1)[0]);
        if w.len() == 1 {
            assert(w == w.subrange(0, 1));
        }
        assert forall|k: int| 0 <= k < w.len() - 1 implies #[trigger] linked(w[k], w[k + 1]) by {}
        assert forall|a: int, b: int| 0 <= a < b < w.len() implies w[a] != w[b] by {
            if a == 0 {
                assert(!start.contains(w[b]));
                assert(start[0] == from);
            }
        }
        lemma_walk_cost_ext(g, w);
    }
}

/// Moves in two different directions land on different cells.
proof fn lemma_step_distinct(p: Pos, d1: int, d2: int)
    requires
        0 <= d1 < 6,
        0 <= d2 < 6,
        d1 != d2,
        step(p, d1) is Some,
    ensures
        step(p, d1) != step(p, d2),
{
}

/// One more move into `q` keeps every later sum inside `u32`: from
/// `cost + h * c_p <= MAX` for all cells `p` it follows for `cost + c_q` and `h - 1`.
proof fn lemma_budget_step(cost: int, h: int, cq: int, cp: int)
    requires
        h >= 1,
        cq >= 0,
        cp >= 0,
        cost + h * cq <= u32::MAX,
        cost + h * cp <= u32::MAX,
    ensures
        cost + cq + (h - 1) * cp <= u32::MAX,
{
    if cq <= cp {
        assert(cq + (h - 1) * cp <= h * cp) by (nonlinear_arith)
            requires cq <= cp, h >= 1;
    } else {
        assert(cq + (h - 1) * cp <= h * cq) by (nonlinear_arith)
            requires cp < cq, h >= 1, cp >= 0;
    }
}

/// A copy of the cells of `path`.
fn copy_path(path: &Vec<Pos>) -> (r: Vec<Pos>)
    ensures
        r@ == path@,
{
    let mut r: Vec<Pos> = Vec::new();
    let mut i: usize = 0;
    while i < path.len()
        invariant
            i <= path.len(),
            r@ == path@.subrange(0, i as int),
        decreases path.len() - i,
    {
        r.push(path[i]);
        i = i + 1;
        assert(r@ == path@.subrange(0, i as int));
    }
    assert(path@.subrange(0, path.len() as int) == path@);
    r
}

/// Viewing a list with one more route appends that route's view.
proof fn lemma_routes_view_push(v: Seq<(Vec<Pos>, u32)>, x: (Vec<Pos>, u32))
    ensures
        routes_view(v.push(x)) == routes_view(v).push(route_view(x)),
{
    assert(routes_view(v.push(x)) =~= routes_view(v).push(route_view(x)));
}

/// The cells `e` entered by a walk out of `pos` of at most `hops` moves, each
/// a unit move inside the cube, none on `path`, none twice.
pub open spec fn side_walk(path: Seq<Pos>, pos: Pos, e: Seq<Pos>, hops: int) -> bool {
    &&& e.len() <= hops
    &&& e.len() > 0 ==> linked(pos, e[0])
    &&& forall|i: int| 0 <= i < e.len() - 1 ==> #[trigger] linked(e[i], e[i + 1])
    &&& forall|i: int| 0 <= i < e.len() ==> !path.contains(#[trigger] e[i])
    &&& forall|i: int, j: int| 0 <= i < j < e.len() ==> e[i] != e[j]
}

/// The summed cost of the cells `e`.
pub open spec fn cells_cost(g: CostGrid, e: Seq<Pos>) -> int
    decreases e.len(),
{
    if e.len() == 0 {
        0
    } else {
        cost_at(g, e[0]) + cells_cost(g, e.drop_first())
    }
}

/// Every sum the search can form from `pos`, having walked `path` at `cost`
/// with `hops` moves left, fits in `u32`: `cost` plus the cells of any walk
/// it may still take.
pub open spec fn walks_fit(g: CostGrid, path: Seq<Pos>, pos: Pos, cost: int, hops: int) -> bool {
    forall|e: Seq<Pos>| #[trigger] side_walk(path, pos, e, hops) ==> cost + cells_cost(g, e) <= u32::MAX
}

/// A bound that can be checked cell by cell and that keeps the search's sums
/// inside `u32`: either every cell taken `hops` more times, or every cube
/// cell off `path` taken once, fits.
pub open spec fn budget_ok(g: CostGrid, path: Seq<Pos>, cost: int, hops: int) -> bool {
    ||| forall|p: Pos| in_cube(p) ==> cost + hops * #[trigger] cost_at(g, p) <= u32::MAX
    ||| cost + free_sum(g, path) <= u32::MAX
}

/// Cells of the cube, at most `hops` of them, cost at most `hops` times the
/// dearest cell.
proof fn lemma_cells_cost_by_hops(g: CostGrid, e: Seq<Pos>, cost: int, hops: int)
    requires
        e.len() <= hops,
        forall|i: int| 0 <= i < e.len() ==> in_cube(#[trigger] e[i]),
        forall|p: Pos| in_cube(p) ==> cost + hops * #[trigger] cost_at(g, p) <= u32::MAX,
    ensures
        cost + cells_cost(g, e) <= u32::MAX,
    decreases e.len(),
{
    if e.len() == 0 {
        let o: Pos = (0, 0, 0);
        let c = cost_at(g, o) as int;
        assert(cost + hops * c <= u32::MAX);
        assert(hops * c >= 0) by (nonlinear_arith)
            requires hops >= 0, c >= 0;
    } else {
        let q = e[0];
        let c = cost_at(g, q) as int;
        assert(in_cube(q));
        assert forall|p: Pos| in_cube(p) implies (cost + c) + (hops - 1) * #[trigger] cost_at(g, p) <= u32::MAX by {
            assert(cost + hops * c <= u32::MAX);
            lemma_budget_step(cost, hops, c, cost_at(g, p) as int);
        }
        let rest = e.drop_first();
        assert forall|i: int| 0 <= i < rest.len() implies in_cube(#[trigger] rest[i]) by {
            assert(rest[i] == e[i + 1]);
        }
        lemma_cells_cost_by_hops(g, rest, cost + c, hops - 1);
    }
}

/// Distinct cube cells off `path` cost at most all the cube cells off `path`.
proof fn lemma_cells_cost_free(g: CostGrid, path: Seq<Pos>, e: Seq<Pos>)
    requires
        forall|i: int| 0 <= i < e.len() ==> in_cube(#[trigger] e[i]),
        forall|i: int| 0 <= i < e.len() ==> !path.contains(#[trigger] e[i]),
        forall|i: int, j: int| 0 <= i < j < e.len() ==> e[i] != e[j],
    ensures
        cells_cost(g, e) <= free_sum(g, path),
    decreases e.len(),
{
    assert forall|c: Pos| in_cube(c) implies #[trigger] cost_at(g, c) <= 4294967295 by {}
    if e.len() == 0 {
        lemma_free_sum_x_bounds(g, path, 20, 4294967295);
    } else {
        let q = e[0];
        let rest = e.drop_first();
        assert(in_cube(q) && !path.contains(q));
        assert forall|i: int| 0 <= i < rest.len() implies !path.push(q).contains(#[trigger] rest[i]) by {
            assert(rest[i] == e[i + 1]);
            lemma_push_contains(path, q, rest[i]);
        }
        assert forall|i: int| 0 <= i < rest.len() implies in_cube(#[trigger] rest[i]) by {
            assert(rest[i] == e[i + 1]);
        }
        assert forall|i: int, j: int| 0 <= i < j < rest.len() implies rest[i] != rest[j] by {
            assert(rest[i] == e[i + 1] && rest[j] == e[j + 1]);
        }
        lemma_cells_cost_free(g, path.push(q), rest);
        lemma_free_sum_push(g, path, q);
    }
}

/// The checked bound keeps every sum of the search inside `u32`.
pub proof fn lemma_budget_walks_fit(g: CostGrid, path: Seq<Pos>, pos: Pos, cost: int, hops: int)
    requires
        budget_ok(g, path, cost, hops),
        cost >= 0,
        hops >= 0,
    ensures
        walks_fit(g, path, pos, cost, hops),
{
    assert forall|e: Seq<Pos>| #[trigger] side_walk(path, pos, e, hops) implies cost + cells_cost(g, e) <= u32::MAX by {
        assert forall|i: int| 0 <= i < e.len() implies in_cube(#[trigger] e[i]) by {
            if i == 0 {
                assert(linked(pos, e[0]));
            } else {
                assert(linked(e[i - 1], e[i - 1 + 1]));
            }
        }
        if forall|p: Pos| in_cube(p) ==> cost + hops * #[trigger] cost_at(g, p) <= u32::MAX {
            lemma_cells_cost_by_hops(g, e, cost, hops);
        } else {
            lemma_cells_cost_free(g, path, e);
        }
    }
}

/// One move into `q`, a neighbour of `pos` off `path`, keeps every later sum
/// inside `u32`: the cost grows by that of `q`, one move less is left, and
/// `q` joins the path.
proof fn lemma_walks_fit_push(g: CostGrid, path: Seq<Pos>, pos: Pos, cost: int, hops: int, q: Pos)
    requires
        walks_fit(g, path, pos, cost, hops),
        hops >= 1,
        linked(pos, q),
        !path.contains(q),
    ensures
        cost + cost_at(g, q) <= u32::MAX,
        walks_fit(g, path.push(q), q, cost + cost_at(g, q), hops - 1),
{
    let one = seq![q];
    assert(one.drop_first() =~= Seq::<Pos>::empty());
    assert(cells_cost(g, one.drop_first()) == 0);
    assert(cells_cost(g, one) == cost_at(g, q));
    assert(side_walk(path, pos, one, hops));
    assert forall|e: Seq<Pos>| #[trigger] side_walk(path.push(q), q, e, hops - 1) implies
        (cost + cost_at(g, q)) + cells_cost(g, e) <= u32::MAX by {
        let f = seq![q] + e;
        assert(f.drop_first() =~= e);
        assert forall|i: int| 0 <= i < f.len() - 1 implies #[trigger] linked(f[i], f[i + 1]) by {
            if i > 0 {
                assert(f[i] == e[i - 1] && f[i + 1] == e[i - 1 + 1]);
            }
        }
        assert forall|i: int| 0 <= i < f.len() implies !path.contains(#[trigger] f[i]) by {
            if i > 0 {
                assert(f[i] == e[i - 1]);
                lemma_push_contains(path, q, e[i - 1]);
            }
        }
        assert forall|i: int, j: int| 0 <= i < j < f.len() implies f[i] != f[j] by {
            assert(f[j] == e[j - 1]);
            if i == 0 {
                lemma_push_contains(path, q, e[j - 1]);
            } else {
                assert(f[i] == e[i - 1]);
            }
        }
        assert(side_walk(path, pos, f, hops));
    }
}

/// Where filling puts things: `r` stays in front, then the first items of
/// `found`, no further than `max` items when `r` held fewer.
pub proof fn lemma_fill_shape<A>(r: Seq<A>, found: Seq<A>, max: int)
    ensures
        fill(r, found, max).len() >= r.len(),
        fill(r, found, max).len() <= if r.len() >= max { r.len() as int } else { max },
        fill(r, found, max).len() - r.len() <= found.len(),
        forall|i: int| 0 <= i < r.len() ==> #[trigger] fill(r, found, max)[i] == r[i],
        forall|i: int| r.len() <= i < fill(r, found, max).len() ==>
            #[trigger] fill(r, found, max)[i] == found[i - r.len()],
{
}

/// The recursive search from `pos`, having walked `path` at `cost`, with
/// `hops_left` moves left: appends the routes found to `results` until it
/// holds `max_count` of them, and hands `path` back as it came.
fn dfs_paths(
    grid: &CostGrid,
    pos: Pos,
    goal: Pos,
    hops_left: usize,
    path: &mut Vec<Pos>,
    cost: u32,
    results: &mut Vec<(Vec<Pos>, u32)>,
    max_count: usize,
)
    requires
        covers_cube(*grid),
        walks_fit(*grid, old(path)@, pos, cost as int, hops_left as int),
    ensures
        final(path)@ == old(path)@,
        routes_view(final(results)@) == fill(
            routes_view(old(results)@),
            dfs_routes(*grid, old(path)@, pos, goal, hops_left as nat, cost as int),
            max_count as int,
        ),
        final(results)@.len() <= if old(results)@.len() >= max_count { old(results)@.len() as int } else { max_count as int },
        forall|i: int| 0 <= i < old(results)@.len() ==> #[trigger] route_view(final(results)@[i]) == route_view(old(results)@[i]),
        forall|i: int| old(results)@.len() <= i < final(results)@.len() ==> found_from(
            #[trigger] route_view(final(results)@[i]), *grid, old(path)@, pos, goal, hops_left as nat, cost as int),
    decreases hops_left,
{
    let ghost start = path@;
    let ghost old_results = results@;
    let ghost r0 = routes_view(results@);
    if results.len() < max_count {
        if same_pos(&pos, &goal) {
            let found = copy_path(path);
            proof {
                lemma_routes_view_push(results@, (found, cost));
            }
            results.push((found, cost));
        } else if hops_left > 0 {
            let mut d: usize = 0;
            while d < 6
                invariant
                    covers_cube(*grid),
                    d <= 6,
                    hops_left >= 1,
                    path@ == start,
                    pos != goal,
                    walks_fit(*grid, start, pos, cost as int, hops_left as int),
                    fill(routes_view(results@), dfs_branches(*grid, start, pos, goal, hops_left as nat, cost as int, d as int), max_count as int)
                        == fill(r0, dfs_routes(*grid, start, pos, goal, hops_left as nat, cost as int), max_count as int),
                decreases 6 - d,
            {
                let ghost before = routes_view(results@);
                let ghost rest = dfs_branches(*grid, start, pos, goal, hops_left as nat, cost as int, d + 1);
                let ghost here = dfs_branch(*grid, start, pos, goal, hops_left as nat, cost as int, d as int);
                assert(dfs_branches(*grid, start, pos, goal, hops_left as nat, cost as int, d as int) == here + rest);
                match step_exec(pos, d) {
                    Some(next) => {
                        if !path_contains(path, &next) {
                            proof {
                                lemma_step_linked(pos, d as int);
                            }
                            let step_cost = grid.get(next.0, next.1, next.2);
                            proof {
                                lemma_walks_fit_push(*grid, start, pos, cost as int, hops_left as int, next);
                            }
                            path.push(next);
                            dfs_paths(grid, next, goal, hops_left - 1, path, cost + step_cost, results, max_count);
                            path.pop();
                            proof {
                                assert(start.push(next).drop_last() == start);
                                lemma_fill_concat(before, here, rest, max_count as int);
                            }
                        } else {
                            proof {
                                assert(here == Seq::<(Seq<Pos>, int)>::empty());
                                assert(here + rest == rest);
                            }
                        }
                    },
                    None => {
                        proof {
                            assert(here == Seq::<(Seq<Pos>, int)>::empty());
                            assert(here + rest == rest);
                        }
                    },
                }
                d = d + 1;
            }
            proof {
                assert(dfs_branches(*grid, start, pos, goal, hops_left as nat, cost as int, 6) == Seq::<(Seq<Pos>, int)>::empty());
                assert(routes_view(results@) + Seq::<(Seq<Pos>, int)>::empty() == routes_view(results@));
            }
        }
    }
    proof {
        let all = dfs_routes(*grid, start, pos, goal, hops_left as nat, cost as int);
        let v = routes_view(results@);
        lemma_fill_shape(r0, all, max_count as int);
        lemma_dfs_found(*grid, start, pos, goal, hops_left as nat, cost as int);
        assert forall|i: int| 0 <= i < old_results.len() implies #[trigger] route_view(results@[i]) == route_view(old_results[i]) by {
            assert(v[i] == r0[i]);
            assert(v[i] == route_view(results@[i]) && r0[i] == route_view(old_results[i]));
        }
        assert forall|i: int| old_results.len() <= i < results@.len() implies found_from(
            #[trigger] route_view(results@[i]), *grid, start, pos, goal, hops_left as nat, cost as int) by {
            assert(v[i] == route_view(results@[i]));
            assert(v[i] == all[i - r0.len()]);
        }
    }
}

/// The cost of every simple walk out of `from` of at most `max_hops` moves
/// fits in `u32`.
pub open spec fn hops_fit_u32(g: CostGrid, from: Pos, max_hops: int) -> bool {
    walks_fit(g, seq![from], from, 0, max_hops)
}

/// Tests the bound that can be checked cell by cell: the grid covers the
/// cube, and either every cell taken `max_hops` times, or all cube cells but
/// `from` together, fit in `u32`. When it holds `enumerate_paths` can run.
pub fn enumeration_ready(grid: &CostGrid, from: Pos, max_hops: usize) -> (r: bool)
    ensures
        r == (covers_cube(*grid) && budget_ok(*grid, seq![from], 0, max_hops as int)),
        r ==> hops_fit_u32(*grid, from, max_hops as int),
{
    if !grid_covers_cube(grid) {
        return false;
    }
    let m = max_cube_cost(grid);
    let a = max_hops as u128;
    let b = m as u128;
    assert(a * b <= 0xffff_ffff_ffff_ffffu128 * 0xffff_ffffu128) by (nonlinear_arith)
        requires a <= 0xffff_ffff_ffff_ffffu128, b <= 0xffff_ffffu128;
    let by_hops = a * b <= 4294967295u128;
    let mut start: Vec<Pos> = Vec::new();
    start.push(from);
    let rest = free_cells_sum(grid, &start);
    let by_cells = rest <= 4294967295u64;
    proof {
        assert(start@ == seq![from]);
        let w = choose|p: Pos| in_cube(p) && cost_at(*grid, p) == m;
        let first = forall|p: Pos| in_cube(p) ==> 0 + max_hops * #[trigger] cost_at(*grid, p) <= u32::MAX;
        assert(by_hops ==> first) by {
            if by_hops {
                assert forall|p: Pos| in_cube(p) implies 0 + max_hops * #[trigger] cost_at(*grid, p) <= u32::MAX by {
                    let c = cost_at(*grid, p);
                    assert(max_hops * c <= max_hops * m) by (nonlinear_arith)
                        requires c <= m, max_hops >= 0;
                }
            }
        }
        assert(first ==> by_hops) by {
            if first {
                assert(0 + max_hops * cost_at(*grid, w) <= u32::MAX);
            }
        }
    }
    proof {
        if by_hops || by_cells {
            lemma_budget_walks_fit(*grid, seq![from], from, 0, max_hops as int);
        }
    }
    by_hops || by_cells
}

/// Enumerates the simple routes from `from` to `to` of at most `max_hops`
/// moves by depth-first search, trying the six directions in order, and keeps
/// the first `max_count` found. Each route comes with its cost: the costs of
/// the cells it enters, the start excluded.
pub fn enumerate_paths(
    grid: &CostGrid,
    from: Pos,
    to: Pos,
    max_hops: usize,
    max_count: usize,
) -> (r: Vec<(Vec<Pos>, u32)>)
    requires
        covers_cube(*grid),
        hops_fit_u32(*grid, from, max_hops as int),
    ensures
        routes_view(r@) == fill(
            Seq::<(Seq<Pos>, int)>::empty(),
            all_routes(*grid, from, to, max_hops as nat),
            max_count as int,
        ),
        r@.len() <= max_count,
        forall|i: int| 0 <= i < r@.len() ==> {
            &&& is_route(#[trigger] r@[i].0@, from, to, max_hops as int)
            &&& r@[i].1 == walk_cost(*grid, r@[i].0@)
        },
        forall|i: int, j: int| 0 <= i < j < r@.len() ==> r@[i].0@ != r@[j].0@,
        r@.len() < max_count ==> forall|w: Seq<Pos>| is_route(w, from, to, max_hops as int) ==>
            routes_view(r@).contains((w, walk_cost(*grid, w))),
        forall|i: int, j: int| 0 <= i < j < r@.len() ==> dfs_before(r@[i].0@, r@[j].0@),
        forall|w: Seq<Pos>, i: int|
            is_route(w, from, to, max_hops as int) && 0 <= i < r@.len() && #[trigger] dfs_before(w, r@[i].0@)
                ==> exists|k: int| 0 <= k < i && r@[k].0@ == w,
{
    let mut results: Vec<(Vec<Pos>, u32)> = Vec::new();
    let mut visited: Vec<Pos> = Vec::new();
    visited.push(from);
    proof {
        assert(visited@ == seq![from]);
        assert(routes_view(results@) =~= Seq::<(Seq<Pos>, int)>::empty());
    }
    dfs_paths(grid, from, to, max_hops, &mut visited, 0, &mut results, max_count);
    proof {
        let all = all_routes(*grid, from, to, max_hops as nat);
        let e = Seq::<(Seq<Pos>, int)>::empty();
        lemma_enumeration_sound(*grid, from, to, max_hops as nat);
        assert(e + all == all);
        let v = routes_view(results@);
        assert(v.len() == results@.len());
        assert(v.len() <= all.len());
        assert(forall|i: int| 0 <= i < v.len() ==> v[i] == all[i]) by {
            if max_count == 0 {
            } else if all.len() <= max_count {
                assert(v == all);
            } else {
                assert(v == all.take(max_count as int));
            }
        }
        assert forall|i: int| 0 <= i < results@.len() implies {
            &&& is_route(#[trigger] results@[i].0@, from, to, max_hops as int)
            &&& results@[i].1 == walk_cost(*grid, results@[i].0@)
        } by {
            assert(v[i] == route_view(results@[i]));
            assert(v[i] == all[i]);
        }
        lemma_enumeration_distinct(*grid, from, to, max_hops as nat);
        assert forall|i: int, j: int| 0 <= i < j < results@.len() implies results@[i].0@ != results@[j].0@ by {
            assert(v[i] == route_view(results@[i]) && v[j] == route_view(results@[j]));
            assert(v[i] == all[i] && v[j] == all[j]);
        }
        lemma_first_routes(*grid, from, to, max_hops as nat, max_count as int);
        assert forall|i: int| 0 <= i < results@.len() implies #[trigger] v[i] == route_view(results@[i]) by {}
        assert forall|i: int, j: int| 0 <= i < j < results@.len() implies dfs_before(results@[i].0@, results@[j].0@) by {
            assert(v[i] == route_view(results@[i]) && v[j] == route_view(results@[j]));
        }
        assert forall|w: Seq<Pos>, i: int|
            is_route(w, from, to, max_hops as int) && 0 <= i < results@.len() && #[trigger] dfs_before(w, results@[i].0@)
            implies exists|k: int| 0 <= k < i && results@[k].0@ == w by {
            assert(v[i] == route_view(results@[i]));
            let k = choose|k: int| 0 <= k < i && v[k].0 == w;
            assert(v[k] == route_view(results@[k]));
        }
        if results@.len() < max_count {
            assert(v == all);
            assert forall|w: Seq<Pos>| is_route(w, from, to, max_hops as int) implies
                v.contains((w, walk_cost(*grid, w))) by {
                lemma_enumeration_complete(*grid, from, to, max_hops as nat, w);
            }
        }
    }
    results
}

} // verus!
