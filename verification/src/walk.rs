//! Positions in the `GRID`-cube, the six-neighbourhood and walks through it.

use vstd::prelude::*;

verus! {

/// A cell of the cube, as `(x, y, z)`.
pub type Pos = (usize, usize, usize);

/// Side length of the cubic cost grid.
pub const GRID: usize = 20;

/// `p` lies inside the `GRID`-cube.
pub open spec fn in_cube(p: Pos) -> bool {
    p.0 < GRID && p.1 < GRID && p.2 < GRID
}

/// Absolute difference of two integers.
pub open spec fn dist(a: int, b: int) -> int {
    if a <= b { b - a } else { a - b }
}

/// Manhattan distance between two positions.
pub open spec fn manhattan(p: Pos, q: Pos) -> int {
    dist(p.0 as int, q.0 as int) + dist(p.1 as int, q.1 as int) + dist(p.2 as int, q.2 as int)
}

/// The six unit moves, in the order in which every search tries them:
/// +x, -x, +y, -y, +z, -z.
pub open spec fn dir_delta(d: int) -> (int, int, int) {
    if d == 0 { (1, 0, 0) }
    else if d == 1 { (-1, 0, 0) }
    else if d == 2 { (0, 1, 0) }
    else if d == 3 { (0, -1, 0) }
    else if d == 4 { (0, 0, 1) }
    else { (0, 0, -1) }
}

/// The position one move in direction `d` away from `p`, when it lies in the cube.
pub open spec fn step(p: Pos, d: int) -> Option<Pos> {
    let (dx, dy, dz) = dir_delta(d);
    let (x, y, z) = (p.0 + dx, p.1 + dy, p.2 + dz);
    if 0 <= x < GRID && 0 <= y < GRID && 0 <= z < GRID {
        Some((x as usize, y as usize, z as usize))
    } else {
        None
    }
}

/// `q` is one unit move away from `p` and lies in the cube.
pub open spec fn linked(p: Pos, q: Pos) -> bool {
    in_cube(q) && manhattan(p, q) == 1
}

/// A walk: a non-empty sequence of positions, each linked to the next.
pub open spec fn is_walk(w: Seq<Pos>) -> bool {
    &&& w.len() >= 1
    &&& forall|i: int| 0 <= i < w.len() - 1 ==> #[trigger] linked(w[i], w[i + 1])
}

/// A walk from `a` to `b`.
pub open spec fn walk_between(w: Seq<Pos>, a: Pos, b: Pos) -> bool {
    is_walk(w) && w[0] == a && w.last() == b
}

/// No position occurs twice.
pub open spec fn no_repeats(w: Seq<Pos>) -> bool {
    forall|i: int, j: int| 0 <= i < j < w.len() ==> w[i] != w[j]
}

/// Some walk leads from `a` to `b`.
pub open spec fn reachable(a: Pos, b: Pos) -> bool {
    exists|w: Seq<Pos>| walk_between(w, a, b)
}

/// The unit neighbours of `p` in the cube, directions `d..6` in order.
pub open spec fn neighbours_from(p: Pos, d: int) -> Seq<Pos>
    decreases 6 - d,
{
    if d >= 6 || d < 0 {
        Seq::empty()
    } else {
        match step(p, d) {
            Some(q) => seq![q] + neighbours_from(p, d + 1),
            None => neighbours_from(p, d + 1),
        }
    }
}

/// The unit neighbours of `p` in the cube, in direction order.
pub open spec fn neighbours(p: Pos) -> Seq<Pos> {
    neighbours_from(p, 0)
}

/// A move in any direction lands on a linked position.
pub proof fn lemma_step_linked(p: Pos, d: int)
    requires
        0 <= d < 6,
        step(p, d) is Some,
    ensures
        linked(p, step(p, d)->Some_0),
{
}

/// Every linked position is reached by a move in one direction.
pub proof fn lemma_linked_step(p: Pos, q: Pos)
    requires
        linked(p, q),
    ensures
        exists|d: int| 0 <= d < 6 && step(p, d) == Some(q),
{
    if q.0 == p.0 + 1 {
        assert(step(p, 0) == Some(q));
    } else if q.0 + 1 == p.0 {
        assert(step(p, 1) == Some(q));
    } else if q.1 == p.1 + 1 {
        assert(step(p, 2) == Some(q));
    } else if q.1 + 1 == p.1 {
        assert(step(p, 3) == Some(q));
    } else if q.2 == p.2 + 1 {
        assert(step(p, 4) == Some(q));
    } else {
        assert(step(p, 5) == Some(q));
    }
}

/// The listed neighbours are exactly the moves in directions `d..6`.
pub proof fn lemma_neighbours_from(p: Pos, d: int)
    requires
        0 <= d <= 6,
    ensures
        forall|q: Pos| neighbours_from(p, d).contains(q)
            <==> exists|e: int| d <= e < 6 && step(p, e) == Some(q),
    decreases 6 - d,
{
    if d < 6 {
        lemma_neighbours_from(p, d + 1);
        assert forall|q: Pos| neighbours_from(p, d).contains(q)
            <==> exists|e: int| d <= e < 6 && step(p, e) == Some(q) by {
            match step(p, d) {
                Some(s) => {
                    let rest = neighbours_from(p, d + 1);
                    assert(neighbours_from(p, d) == seq![s] + rest);
                    if neighbours_from(p, d).contains(q) {
                        let k = choose|k: int| 0 <= k < neighbours_from(p, d).len() && neighbours_from(p, d)[k] == q;
                        if k == 0 {
                            assert(step(p, d) == Some(q));
                        } else {
                            assert(rest[k - 1] == q);
                            assert(rest.contains(q));
                        }
                    }
                    if exists|e: int| d <= e < 6 && step(p, e) == Some(q) {
                        let e = choose|e: int| d <= e < 6 && step(p, e) == Some(q);
                        if e == d {
                            assert(neighbours_from(p, d)[0] == q);
                        } else {
                            assert(rest.contains(q));
                            let k = choose|k: int| 0 <= k < rest.len() && rest[k] == q;
                            assert(neighbours_from(p, d)[k + 1] == q);
                        }
                    }
                },
                None => {
                    assert(neighbours_from(p, d) == neighbours_from(p, d + 1));
                    if exists|e: int| d <= e < 6 && step(p, e) == Some(q) {
                        let e = choose|e: int| d <= e < 6 && step(p, e) == Some(q);
                        assert(e != d);
                    }
                },
            }
        }
    }
}

/// The neighbours of `p` are exactly the positions linked to it.
pub proof fn lemma_neighbours(p: Pos)
    ensures
        forall|q: Pos| #[trigger] neighbours(p).contains(q) <==> linked(p, q),
{
    lemma_neighbours_from(p, 0);
    assert forall|q: Pos| #[trigger] neighbours(p).contains(q) <==> linked(p, q) by {
        if linked(p, q) {
            lemma_linked_step(p, q);
        }
        if neighbours(p).contains(q) {
            let e = choose|e: int| 0 <= e < 6 && step(p, e) == Some(q);
            lemma_step_linked(p, e);
        }
    }
}

/// The next position on the way from `a` to `b`: one move along the first
/// axis on which they differ.
pub open spec fn toward(a: Pos, b: Pos) -> Pos {
    if a.0 < b.0 { ((a.0 + 1) as usize, a.1, a.2) }
    else if a.0 > b.0 { ((a.0 - 1) as usize, a.1, a.2) }
    else if a.1 < b.1 { (a.0, (a.1 + 1) as usize, a.2) }
    else if a.1 > b.1 { (a.0, (a.1 - 1) as usize, a.2) }
    else if a.2 < b.2 { (a.0, a.1, (a.2 + 1) as usize) }
    else { (a.0, a.1, (a.2 - 1) as usize) }
}

/// The axis-by-axis walk from `a` to `b`.
pub open spec fn straight_walk(a: Pos, b: Pos) -> Seq<Pos>
    decreases manhattan(a, b),
{
    if a == b || manhattan(a, b) <= 0 {
        seq![a]
    } else {
        seq![a] + straight_walk(toward(a, b), b)
    }
}

/// Inside the cube, the axis-by-axis walk leads from `a` to `b` in exactly
/// `manhattan(a, b)` moves.
pub proof fn lemma_straight_walk(a: Pos, b: Pos)
    requires
        in_cube(a),
        in_cube(b),
    ensures
        walk_between(straight_walk(a, b), a, b),
        straight_walk(a, b).len() == manhattan(a, b) + 1,
    decreases manhattan(a, b),
{
    if a == b {
    } else {
        let t = toward(a, b);
        assert(manhattan(t, b) == manhattan(a, b) - 1);
        lemma_straight_walk(t, b);
        let w = straight_walk(a, b);
        let r = straight_walk(t, b);
        assert(w == seq![a] + r);
        assert(linked(a, t));
        assert forall|i: int| 0 <= i < w.len() - 1 implies #[trigger] linked(w[i], w[i + 1]) by {
            if i > 0 {
                assert(w[i] == r[i - 1]);
                assert(w[i + 1] == r[i]);
                assert(linked(r[i - 1], r[(i - 1) + 1]));
            }
        }
    }
}

/// `p` lies in the cube or one move outside one of its faces, so that one of
/// its neighbours lies in the cube.
pub open spec fn at_cube(p: Pos) -> bool {
    ||| in_cube(p)
    ||| p.0 == GRID && p.1 < GRID && p.2 < GRID
    ||| p.0 < GRID && p.1 == GRID && p.2 < GRID
    ||| p.0 < GRID && p.1 < GRID && p.2 == GRID
}

/// The cell of the cube next to `p`: `p` itself inside the cube, else one
/// move back across the face it lies beyond.
pub open spec fn entry(p: Pos) -> Pos {
    (
        if p.0 == GRID { (GRID - 1) as usize } else { p.0 },
        if p.1 == GRID { (GRID - 1) as usize } else { p.1 },
        if p.2 == GRID { (GRID - 1) as usize } else { p.2 },
    )
}

/// A walk of fewest moves from `a` to `b`: into the cube first, then axis by
/// axis.
pub open spec fn entry_walk(a: Pos, b: Pos) -> Seq<Pos> {
    if in_cube(a) { straight_walk(a, b) } else { seq![a] + straight_walk(entry(a), b) }
}

/// From a position at the cube, `entry_walk` leads to any cell of the cube in
/// exactly `manhattan(a, b)` moves.
pub proof fn lemma_entry_walk(a: Pos, b: Pos)
    requires
        at_cube(a),
        in_cube(b),
    ensures
        walk_between(entry_walk(a, b), a, b),
        entry_walk(a, b).len() == manhattan(a, b) + 1,
{
    if in_cube(a) {
        lemma_straight_walk(a, b);
    } else {
        let n = entry(a);
        assert(in_cube(n));
        assert(manhattan(a, n) == 1);
        assert(manhattan(n, b) == manhattan(a, b) - 1);
        lemma_straight_walk(n, b);
        let r = straight_walk(n, b);
        let w = entry_walk(a, b);
        assert(w == seq![a] + r);
        assert(linked(a, n));
        assert forall|i: int| 0 <= i < w.len() - 1 implies #[trigger] linked(w[i], w[i + 1]) by {
            if i > 0 {
                assert(w[i] == r[i - 1]);
                assert(w[i + 1] == r[i]);
                assert(linked(r[i - 1], r[(i - 1) + 1]));
            }
        }
    }
}

/// Any two cells of the cube are joined by a walk.
pub proof fn lemma_cube_connected(a: Pos, b: Pos)
    requires
        in_cube(a),
        in_cube(b),
    ensures
        reachable(a, b),
{
    lemma_straight_walk(a, b);
}

/// A walk takes at least as many moves as the Manhattan distance between its ends.
pub proof fn lemma_walk_len_lower_bound(w: Seq<Pos>)
    requires
        is_walk(w),
    ensures
        w.len() >= manhattan(w[0], w.last()) + 1,
    decreases w.len(),
{
    if w.len() > 1 {
        let v = w.drop_last();
        assert forall|i: int| 0 <= i < v.len() - 1 implies #[trigger] linked(v[i], v[i + 1]) by {
            assert(linked(w[i], w[i + 1]));
        }
        lemma_walk_len_lower_bound(v);
        let i = w.len() - 2;
        assert(linked(w[i], w[i + 1]));
    }
}

/// A walk that starts in the cube stays in it.
pub proof fn lemma_walk_in_cube(w: Seq<Pos>)
    requires
        is_walk(w),
        in_cube(w[0]),
    ensures
        forall|i: int| 0 <= i < w.len() ==> in_cube(#[trigger] w[i]),
{
    assert forall|i: int| 0 <= i < w.len() implies in_cube(#[trigger] w[i]) by {
        if i > 0 {
            assert(linked(w[i - 1], w[(i - 1) + 1]));
        }
    }
}

/// Computes `step(p, d)`.
pub fn step_exec(p: Pos, d: usize) -> (r: Option<Pos>)
    requires
        d < 6,
    ensures
        r == step(p, d as int),
{
    let (x, y, z) = p;
    if d == 0 {
        if x < GRID - 1 && y < GRID && z < GRID { Some((x + 1, y, z)) } else { None }
    } else if d == 1 {
        if 1 <= x && x - 1 < GRID && y < GRID && z < GRID { Some((x - 1, y, z)) } else { None }
    } else if d == 2 {
        if x < GRID && y < GRID - 1 && z < GRID { Some((x, y + 1, z)) } else { None }
    } else if d == 3 {
        if x < GRID && 1 <= y && y - 1 < GRID && z < GRID { Some((x, y - 1, z)) } else { None }
    } else if d == 4 {
        if x < GRID && y < GRID && z < GRID - 1 { Some((x, y, z + 1)) } else { None }
    } else {
        if x < GRID && y < GRID && 1 <= z && z - 1 < GRID { Some((x, y, z - 1)) } else { None }
    }
}

/// `p == q`, the goal test handed to the searches.
pub fn same_pos(p: &Pos, q: &Pos) -> (r: bool)
    ensures
        r == (*p == *q),
{
    p.0 == q.0 && p.1 == q.1 && p.2 == q.2
}

/// `path` holds `p`.
pub fn path_contains(path: &Vec<Pos>, p: &Pos) -> (r: bool)
    ensures
        r == path@.contains(*p),
{
    let mut i: usize = 0;
    while i < path.len()
        invariant
            i <= path.len(),
            forall|j: int| 0 <= j < i ==> path@[j] != *p,
        decreases path.len() - i,
    {
        if same_pos(&path[i], p) {
            assert(path@[i as int] == *p);
            return true;
        }
        i = i + 1;
    }
    false
}

/// The unit neighbours of `p` inside the cube, in direction order.
pub fn cube_neighbours(p: &Pos) -> (r: Vec<Pos>)
    ensures
        r@ == neighbours(*p),
{
    let mut r: Vec<Pos> = Vec::new();
    let mut d: usize = 0;
    while d < 6
        invariant
            d <= 6,
            r@ + neighbours_from(*p, d as int) == neighbours(*p),
        decreases 6 - d,
    {
        let ghost before = r@;
        match step_exec(*p, d) {
            Some(q) => {
                r.push(q);
                assert(neighbours_from(*p, d as int) == seq![q] + neighbours_from(*p, d + 1));
                assert(before + (seq![q] + neighbours_from(*p, d + 1)) == r@ + neighbours_from(*p, d + 1));
            },
            None => {},
        }
        d = d + 1;
    }
    assert(r@ + neighbours_from(*p, 6) == r@);
    r
}

/// Manhattan distance between two cells of the cube, the A* heuristic.
pub fn manhattan_exec(p: &Pos, q: &Pos) -> (r: u32)
    requires
        in_cube(*p),
        in_cube(*q),
    ensures
        r == manhattan(*p, *q),
{
    let dx = if p.0 <= q.0 { q.0 - p.0 } else { p.0 - q.0 };
    let dy = if p.1 <= q.1 { q.1 - p.1 } else { p.1 - q.1 };
    let dz = if p.2 <= q.2 { q.2 - p.2 } else { p.2 - q.2 };
    (dx + dy + dz) as u32
}

} // verus!
