//! One-hot QUBO route selection: the coefficient matrix whose lowest energy
//! picks exactly one route, one of minimum cost.
//!
//! With a binary variable `x_i` per route and `λ = 2 * max_cost + 1`, the
//! Hamiltonian `H = Σ cost_i x_i + λ (Σ x_i - 1)^2` (constant dropped) is
//! written as `E(x) = Σ_ij Q[i][j] x_i x_j` with `Q[i][i] = cost_i - λ` and
//! `Q[i][j] = λ` for `i != j`: the matrix is symmetric and each selected pair
//! adds `2 λ`.

use vstd::prelude::*;
use crate::walk::Pos;

verus! {

/// The costs of a list of routes.
pub open spec fn route_costs(alts: Seq<(Vec<Pos>, u32)>) -> Seq<int> {
    alts.map_values(|a: (Vec<Pos>, u32)| a.1 as int)
}

/// The largest element of a non-empty sequence.
pub open spec fn seq_max(s: Seq<int>) -> int
    decreases s.len(),
{
    if s.len() <= 1 {
        s[0]
    } else {
        let m = seq_max(s.drop_last());
        if m >= s.last() { m } else { s.last() }
    }
}

/// `seq_max` bounds every element and is one of them.
pub proof fn lemma_seq_max(s: Seq<int>)
    requires
        s.len() >= 1,
    ensures
        forall|i: int| 0 <= i < s.len() ==> s[i] <= seq_max(s),
        exists|i: int| 0 <= i < s.len() && s[i] == seq_max(s),
    decreases s.len(),
{
    if s.len() > 1 {
        let t = s.drop_last();
        lemma_seq_max(t);
        assert forall|i: int| 0 <= i < s.len() implies s[i] <= seq_max(s) by {
            if i < t.len() {
                assert(s[i] == t[i]);
            }
        }
        if seq_max(t) >= s.last() {
            let i = choose|i: int| 0 <= i < t.len() && t[i] == seq_max(t);
            assert(s[i] == t[i]);
        } else {
            assert(s[s.len() - 1] == seq_max(s));
        }
    } else {
        assert(s[0] == seq_max(s));
    }
}

/// The one-hot penalty weight `λ = 2 * max_cost + 1`, `max_cost` being 1 for
/// an empty list.
pub open spec fn penalty(costs: Seq<int>) -> int {
    2 * (if costs.len() == 0 { 1 } else { seq_max(costs) }) + 1
}

/// The symmetric one-hot coefficient `Q[i][j]`.
pub open spec fn one_hot_coeff(costs: Seq<int>, i: int, j: int) -> int {
    if i == j { costs[i] - penalty(costs) } else { penalty(costs) }
}

/// `q` is the `n × n` one-hot matrix over `costs`.
pub open spec fn is_qubo_matrix(q: Seq<Vec<i64>>, costs: Seq<int>) -> bool {
    &&& q.len() == costs.len()
    &&& forall|i: int| 0 <= i < q.len() ==> #[trigger] q[i]@.len() == costs.len()
    &&& forall|i: int, j: int| 0 <= i < q.len() && 0 <= j < q.len() ==>
        #[trigger] q[i]@[j] == one_hot_coeff(costs, i, j)
}

/// The largest route cost, or 1 when there is no route; and `λ = 2 * it + 1`.
fn one_hot_penalty(alternatives: &Vec<(Vec<Pos>, u32)>) -> (lambda: i64)
    ensures
        lambda == penalty(route_costs(alternatives@)),
{
    let ghost costs = route_costs(alternatives@);
    if alternatives.len() == 0 {
        return 3;
    }
    let mut max_cost: u32 = alternatives[0].1;
    let mut i: usize = 1;
    while i < alternatives.len()
        invariant
            costs == route_costs(alternatives@),
            1 <= i <= alternatives.len(),
            max_cost == seq_max(costs.take(i as int)),
        decreases alternatives.len() - i,
    {
        assert(costs.take(i + 1).drop_last() == costs.take(i as int));
        if alternatives[i].1 > max_cost {
            max_cost = alternatives[i].1;
        }
        i = i + 1;
    }
    assert(costs.take(alternatives.len() as int) == costs);
    2 * (max_cost as i64) + 1
}

/// One row of the coefficient matrix.
fn qubo_row(alternatives: &Vec<(Vec<Pos>, u32)>, lambda: i64, i: usize) -> (row: Vec<i64>)
    requires
        i < alternatives.len(),
        lambda == penalty(route_costs(alternatives@)),
    ensures
        row@.len() == alternatives.len(),
        forall|j: int| 0 <= j < row@.len() ==> #[trigger] row@[j] == one_hot_coeff(route_costs(alternatives@), i as int, j),
{
    let ghost costs = route_costs(alternatives@);
    proof {
        lemma_seq_max(costs);
        assert(costs[i as int] == alternatives@[i as int].1);
    }
    let n = alternatives.len();
    let mut row: Vec<i64> = Vec::new();
    let mut j: usize = 0;
    while j < n
        invariant
            n == alternatives.len(),
            i < n,
            costs == route_costs(alternatives@),
            lambda == penalty(costs),
            0 <= costs[i as int] <= seq_max(costs),
            j <= n,
            row@.len() == j,
            forall|k: int| 0 <= k < j ==> #[trigger] row@[k] == one_hot_coeff(costs, i as int, k),
        decreases n - j,
    {
        let v: i64 = if j == i {
            alternatives[i].1 as i64 - lambda
        } else {
            lambda
        };
        row.push(v);
        j = j + 1;
    }
    row
}

/// The coefficients of the one-hot QUBO over `alternatives`:
/// `Q[i][i] = cost_i - λ`, `Q[i][j] = λ` for `i != j`, `λ = 2 * max_cost + 1`
/// (`max_cost` being 1 when there is no route).
pub fn build_one_hot_qubo(alternatives: &Vec<(Vec<Pos>, u32)>) -> (q: Vec<Vec<i64>>)
    ensures
        is_qubo_matrix(q@, route_costs(alternatives@)),
{
    let ghost costs = route_costs(alternatives@);
    let lambda = one_hot_penalty(alternatives);
    let n = alternatives.len();
    let mut q: Vec<Vec<i64>> = Vec::new();
    let mut i: usize = 0;
    while i < n
        invariant
            n == alternatives.len(),
            costs == route_costs(alternatives@),
            lambda == penalty(costs),
            i <= n,
            q@.len() == i,
            forall|k: int| 0 <= k < i ==> #[trigger] q@[k]@.len() == n,
            forall|k: int, j: int| 0 <= k < i && 0 <= j < n ==> #[trigger] q@[k]@[j] == one_hot_coeff(costs, k, j),
        decreases n - i,
    {
        let row = qubo_row(alternatives, lambda, i);
        q.push(row);
        i = i + 1;
    }
    q
}

/// The coefficient `Q[i][j]` as an integer.
pub open spec fn entry(q: Seq<Vec<i64>>, i: int, j: int) -> int {
    q[i]@[j] as int
}

/// `Σ_{j < m} Q[i][j] x_j`.
pub open spec fn row_energy(q: Seq<Vec<i64>>, x: Seq<bool>, i: int, m: int) -> int
    decreases m,
{
    if m <= 0 {
        0
    } else {
        row_energy(q, x, i, m - 1) + (if x[m - 1] { entry(q, i, m - 1) } else { 0 })
    }
}

/// `Σ_{i < k} x_i Σ_j Q[i][j] x_j`.
pub open spec fn energy_upto(q: Seq<Vec<i64>>, x: Seq<bool>, k: int) -> int
    decreases k,
{
    if k <= 0 {
        0
    } else {
        energy_upto(q, x, k - 1) + (if x[k - 1] { row_energy(q, x, k - 1, x.len() as int) } else { 0 })
    }
}

/// The energy `E(x) = Σ_ij Q[i][j] x_i x_j` of the assignment `x`.
pub open spec fn energy(q: Seq<Vec<i64>>, x: Seq<bool>) -> int {
    energy_upto(q, x, x.len() as int)
}

/// The number of variables set among the first `m`.
pub open spec fn count_upto(x: Seq<bool>, m: int) -> int
    decreases m,
{
    if m <= 0 { 0 } else { count_upto(x, m - 1) + (if x[m - 1] { 1int } else { 0 }) }
}

/// The summed cost of the routes selected among the first `m`.
pub open spec fn chosen_cost(costs: Seq<int>, x: Seq<bool>, m: int) -> int
    decreases m,
{
    if m <= 0 { 0 } else { chosen_cost(costs, x, m - 1) + (if x[m - 1] { costs[m - 1] } else { 0 }) }
}

/// The assignment that selects route `k` alone.
pub open spec fn one_hot(n: int, k: int) -> Seq<bool> {
    Seq::new(n as nat, |i: int| i == k)
}

proof fn lemma_mul_succ(a: int, b: int)
    ensures
        a * (b + 1) == a * b + a,
{
    assert(a * (b + 1) == a * b + a) by (nonlinear_arith);
}

/// What a selection of `count` routes costs at least, and what selecting
/// none or one route means.
proof fn lemma_selection(costs: Seq<int>, x: Seq<bool>, m: int, low: int)
    requires
        0 <= m <= x.len(),
        x.len() == costs.len(),
        0 <= low,
        forall|i: int| 0 <= i < costs.len() ==> low <= #[trigger] costs[i],
    ensures
        0 <= count_upto(x, m) <= m,
        chosen_cost(costs, x, m) >= low * count_upto(x, m),
        count_upto(x, m) == 0 ==> chosen_cost(costs, x, m) == 0 && forall|i: int| 0 <= i < m ==> !x[i],
        count_upto(x, m) == 1 ==> exists|j: int| 0 <= j < m && x[j] && chosen_cost(costs, x, m) == costs[j]
            && forall|i: int| 0 <= i < m && i != j ==> !x[i],
    decreases m,
{
    if m > 0 {
        lemma_selection(costs, x, m - 1, low);
        lemma_mul_succ(low, count_upto(x, m - 1));
        let c = count_upto(x, m - 1);
        if x[m - 1] && c == 0 {
            assert(forall|i: int| 0 <= i < m && i != m - 1 ==> !x[i]);
        }
        if !x[m - 1] && c == 1 {
            let j = choose|j: int| 0 <= j < m - 1 && x[j] && chosen_cost(costs, x, m - 1) == costs[j]
                && forall|i: int| 0 <= i < m - 1 && i != j ==> !x[i];
            assert(forall|i: int| 0 <= i < m && i != j ==> !x[i]);
        }
    }
}

/// Closed form of a row of the symmetric matrix.
proof fn lemma_row_symmetric(q: Seq<Vec<i64>>, costs: Seq<int>, x: Seq<bool>, i: int, m: int)
    requires
        is_qubo_matrix(q, costs),
        x.len() == costs.len(),
        0 <= i < costs.len(),
        0 <= m <= costs.len(),
    ensures
        row_energy(q, x, i, m) == (if x[i] && i < m { costs[i] - penalty(costs) } else { 0 })
            + penalty(costs) * count_upto(x, m) - (if x[i] && i < m { penalty(costs) } else { 0 }),
    decreases m,
{
    if m > 0 {
        lemma_row_symmetric(q, costs, x, i, m - 1);
        lemma_mul_succ(penalty(costs), count_upto(x, m - 1));
        assert(entry(q, i, m - 1) == one_hot_coeff(costs, i, m - 1));
    }
}

/// Closed form of the energy of the symmetric matrix:
/// `E(x) = C + s (λ s - 2 λ)`, `s` routes selected at summed cost `C`.
proof fn lemma_energy_symmetric(q: Seq<Vec<i64>>, costs: Seq<int>, x: Seq<bool>, k: int)
    requires
        is_qubo_matrix(q, costs),
        x.len() == costs.len(),
        0 <= k <= costs.len(),
    ensures
        energy_upto(q, x, k) == chosen_cost(costs, x, k) + count_upto(x, k) * (
            penalty(costs) * count_upto(x, x.len() as int) - 2 * penalty(costs)),
    decreases k,
{
    if k > 0 {
        lemma_energy_symmetric(q, costs, x, k - 1);
        lemma_row_symmetric(q, costs, x, k - 1, x.len() as int);
        let t = penalty(costs) * count_upto(x, x.len() as int) - 2 * penalty(costs);
        assert((count_upto(x, k - 1) + 1) * t == count_upto(x, k - 1) * t + t) by (nonlinear_arith);
    }
}

/// Selecting route `k` alone sets one variable, at the cost of route `k`.
proof fn lemma_one_hot_selection(costs: Seq<int>, n: int, k: int, m: int)
    requires
        0 <= k < n,
        n == costs.len(),
        0 <= m <= n,
    ensures
        count_upto(one_hot(n, k), m) == (if m > k { 1int } else { 0 }),
        chosen_cost(costs, one_hot(n, k), m) == (if m > k { costs[k] } else { 0 }),
    decreases m,
{
    if m > 0 {
        lemma_one_hot_selection(costs, n, k, m - 1);
    }
}

/// The facts both minimum laws start from: route costs are non-negative and
/// `λ` exceeds every one of them.
proof fn lemma_costs_below_penalty(alts: Seq<(Vec<Pos>, u32)>)
    requires
        alts.len() >= 1,
    ensures
        forall|i: int| 0 <= i < alts.len() ==> 0 <= #[trigger] route_costs(alts)[i] < penalty(route_costs(alts)),
{
    let costs = route_costs(alts);
    lemma_seq_max(costs);
    assert forall|i: int| 0 <= i < alts.len() implies 0 <= #[trigger] route_costs(alts)[i] < penalty(route_costs(alts)) by {
        assert(costs[i] == alts[i].1);
    }
}

/// Minimum law of the symmetric one-hot QUBO. Selecting route `j` alone has
/// energy `cost_j - λ`; no assignment has lower energy than selecting a
/// cheapest route `k` alone; and only selecting one cheapest route alone
/// reaches that energy.
pub proof fn lemma_one_hot_qubo_minimum(q: Seq<Vec<i64>>, alts: Seq<(Vec<Pos>, u32)>, x: Seq<bool>, k: int)
    requires
        is_qubo_matrix(q, route_costs(alts)),
        x.len() == alts.len(),
        0 <= k < alts.len(),
        forall|i: int| 0 <= i < alts.len() ==> alts[k].1 <= #[trigger] alts[i].1,
    ensures
        forall|j: int| 0 <= j < alts.len() ==>
            #[trigger] energy(q, one_hot(alts.len() as int, j)) == alts[j].1 - penalty(route_costs(alts)),
        energy(q, x) >= energy(q, one_hot(alts.len() as int, k)),
        energy(q, x) == energy(q, one_hot(alts.len() as int, k)) ==> exists|j: int|
            0 <= j < alts.len() && x == one_hot(alts.len() as int, j) && alts[j].1 == alts[k].1,
{
    let costs = route_costs(alts);
    let n = alts.len() as int;
    let l = penalty(costs);
    lemma_costs_below_penalty(alts);
    assert forall|j: int| 0 <= j < n implies
        #[trigger] energy(q, one_hot(n, j)) == alts[j].1 - penalty(route_costs(alts)) by {
        let h = one_hot(n, j);
        lemma_one_hot_selection(costs, n, j, n);
        lemma_energy_symmetric(q, costs, h, n);
        assert(costs[j] == alts[j].1);
    }
    let ck = costs[k];
    assert(ck == alts[k].1);
    assert forall|i: int| 0 <= i < costs.len() implies ck <= #[trigger] costs[i] by {
        assert(costs[i] == alts[i].1);
    }
    lemma_selection(costs, x, n, ck);
    lemma_energy_symmetric(q, costs, x, n);
    let s = count_upto(x, n);
    let c = chosen_cost(costs, x, n);
    assert(s * (l * s - 2 * l) + l == l * ((s - 1) * (s - 1))) by (nonlinear_arith);
    if s == 0 {
    } else if s == 1 {
        let j = choose|j: int| 0 <= j < n && x[j] && chosen_cost(costs, x, n) == costs[j]
            && forall|i: int| 0 <= i < n && i != j ==> !x[i];
        assert(x == one_hot(n, j));
        assert(costs[j] == alts[j].1);
    } else {
        assert(l * ((s - 1) * (s - 1)) >= l) by (nonlinear_arith)
            requires s >= 2, l >= 0;
        assert(ck * s >= 0) by (nonlinear_arith)
            requires ck >= 0, s >= 0;
    }
}

} // verus!
