use corridor_path::enumerate::{enumerate_paths, enumeration_ready};
use corridor_path::plan::{CorridorPlan, ObstacleCourse};
use corridor_path::grid::{build_terrain, grid_is_cube, max_cube_cost, CostGrid};
use corridor_path::qubo::build_one_hot_qubo;
use corridor_path::refine::{
    astar_window, choose_alternative, dedup_by_cost, inject_obstacles, obstacle_window, route_cost, route_saving,
    select_route, window_alternatives, window_ready, Refinement, OBSTACLE_COST, WINDOW,
};
use corridor_path::search::{astar_ready, find_path_astar, find_path_bfs};
use corridor_path::walk::{cube_neighbours, manhattan_exec, step_exec, Pos, GRID};

fn ones() -> CostGrid {
    CostGrid::ones((GRID, GRID, GRID))
}

fn is_unit_walk(path: &[Pos]) -> bool {
    path.windows(2).all(|w| {
        let (a, b) = (w[0], w[1]);
        a.0.abs_diff(b.0) + a.1.abs_diff(b.1) + a.2.abs_diff(b.2) == 1
    })
}

#[test]
fn terrain_has_two_slabs_with_gaps() {
    let g = build_terrain();
    assert_eq!(g.dims(), (20, 20, 20));
    // Slab at x = 6, gap at y = 10.
    assert_eq!(g.get(6, 0, 0), 50);
    assert_eq!(g.get(6, 19, 19), 50);
    assert_eq!(g.get(6, 10, 5), 1);
    // Slab at z = 13, gap at x = 10.
    assert_eq!(g.get(0, 0, 13), 50);
    assert_eq!(g.get(10, 3, 13), 1);
    // Plain cells.
    assert_eq!(g.get(0, 0, 0), 1);
    assert_eq!(g.get(19, 19, 19), 1);
    assert_eq!(g.get(7, 0, 12), 1);
    assert_eq!(max_cube_cost(&g), 50);
    let mut walls = 0;
    for x in 0..20 {
        for y in 0..20 {
            for z in 0..20 {
                if g.get(x, y, z) == 50 {
                    walls += 1;
                }
            }
        }
    }
    // 19 * 20 cells per slab, minus the 19 cells where both slabs meet.
    assert_eq!(walls, 380 + 380 - 19);
}

#[test]
fn from_shape_vec_checks_length() {
    assert!(CostGrid::from_shape_vec((2, 2, 2), vec![1; 7]).is_err());
    let g = CostGrid::from_shape_vec((2, 3, 4), (0..24).collect()).ok().unwrap();
    assert_eq!(g.get(1, 2, 3), 23);
    assert_eq!(g.get(0, 1, 0), 4);
    assert_eq!(g.get(1, 0, 0), 12);
}

#[test]
fn astar_crosses_both_gaps_at_minimum_cost() {
    let g = build_terrain();
    assert!(astar_ready(&g));
    let (path, cost) = find_path_astar(&g, (0, 0, 0), (19, 19, 19));
    assert_eq!(path.len(), 58);
    assert_eq!(cost, 57);
    assert_eq!(path[0], (0, 0, 0));
    assert_eq!(path[57], (19, 19, 19));
    assert!(is_unit_walk(&path));
    assert_eq!(route_cost(&g, &path), Some(57));
}

#[test]
fn astar_same_start_and_goal() {
    let g = build_terrain();
    let (path, cost) = find_path_astar(&g, (3, 4, 5), (3, 4, 5));
    assert_eq!(path, vec![(3, 4, 5)]);
    assert_eq!(cost, 0);
}

#[test]
fn astar_pays_for_an_unavoidable_cell() {
    let mut g = ones();
    g.set(1, 0, 0, 7);
    let (path, cost) = find_path_astar(&g, (0, 0, 0), (1, 0, 0));
    assert_eq!(path, vec![(0, 0, 0), (1, 0, 0)]);
    assert_eq!(cost, 7);
}

#[test]
fn astar_ready_rejects_small_and_costly_grids() {
    let small = CostGrid::ones((2, 20, 20));
    assert!(!astar_ready(&small));
    let mut costly = ones();
    costly.set(4, 4, 4, 1_000_000);
    assert!(astar_ready(&costly));
    let mut too_costly = ones();
    too_costly.set(4, 4, 4, 4_294_967_000);
    assert!(!astar_ready(&too_costly));
    assert!(astar_ready(&ones()));
    // One cell above half of `u32`: the cube total still fits, and every cell
    // costs at least 1.
    let mut half = ones();
    half.set(4, 4, 4, 2_148_483_648);
    assert!(astar_ready(&half));
    // The same cell with zero costs elsewhere needs the stricter bound.
    let mut zeros = CostGrid::from_shape_vec((20, 20, 20), vec![0; 8000]).ok().unwrap();
    zeros.set(4, 4, 4, 2_148_483_648);
    assert!(!astar_ready(&zeros));
}

#[test]
fn searches_from_one_move_outside_the_cube() {
    let path = find_path_bfs((20, 5, 5), (0, 5, 5));
    assert_eq!(path.len(), 21);
    assert_eq!(path[0], (20, 5, 5));
    assert_eq!(path[1], (19, 5, 5));
    assert!(is_unit_walk(&path));
    let mut g = ones();
    g.set(5, 19, 5, 9);
    let (path, cost) = find_path_astar(&g, (5, 20, 5), (5, 19, 5));
    assert_eq!(path, vec![(5, 20, 5), (5, 19, 5)]);
    assert_eq!(cost, 9);
    // Every route from outside crosses the one neighbour inside.
    let (_, cost) = find_path_astar(&g, (5, 20, 5), (5, 17, 5));
    assert_eq!(cost, 11);
}

#[test]
fn astar_cost_scales_and_never_drops_with_dearer_cells() {
    let base = build_terrain();
    let (_, c1) = find_path_astar(&base, (0, 0, 0), (19, 19, 19));
    let mut tripled = ones();
    let mut dearer = ones();
    for x in 0..20 {
        for y in 0..20 {
            for z in 0..20 {
                let c = base.get(x, y, z);
                tripled.set(x, y, z, 3 * c);
                dearer.set(x, y, z, if (x + y + z) % 3 == 0 { c + 7 } else { c });
            }
        }
    }
    let (_, c3) = find_path_astar(&tripled, (0, 0, 0), (19, 19, 19));
    assert_eq!(c3, 3 * c1);
    let (_, c4) = find_path_astar(&dearer, (0, 0, 0), (19, 19, 19));
    assert!(c4 >= c1);
}

#[test]
fn astar_past_a_cell_above_half_of_u32() {
    let mut g = ones();
    g.set(4, 4, 4, 2_148_483_648);
    let (path, cost) = find_path_astar(&g, (0, 0, 0), (19, 19, 19));
    assert_eq!(cost, 57);
    assert_eq!(path.len(), 58);
    assert!(!path.contains(&(4, 4, 4)));
}

#[test]
fn bfs_takes_manhattan_moves() {
    let path = find_path_bfs((0, 0, 0), (19, 19, 19));
    assert_eq!(path.len(), 58);
    assert_eq!(path[0], (0, 0, 0));
    assert_eq!(*path.last().unwrap(), (19, 19, 19));
    assert!(is_unit_walk(&path));
    let short = find_path_bfs((5, 5, 5), (5, 7, 4));
    assert_eq!(short.len(), 4);
    assert_eq!(find_path_bfs((2, 2, 2), (2, 2, 2)), vec![(2, 2, 2)]);
}

#[test]
fn neighbours_in_direction_order() {
    assert_eq!(cube_neighbours(&(0, 0, 0)), vec![(1, 0, 0), (0, 1, 0), (0, 0, 1)]);
    assert_eq!(
        cube_neighbours(&(5, 5, 5)),
        vec![(6, 5, 5), (4, 5, 5), (5, 6, 5), (5, 4, 5), (5, 5, 6), (5, 5, 4)]
    );
    assert_eq!(cube_neighbours(&(19, 19, 19)), vec![(18, 19, 19), (19, 18, 19), (19, 19, 18)]);
    assert_eq!(step_exec((20, 0, 0), 1), Some((19, 0, 0)));
    assert_eq!(step_exec((20, 0, 0), 2), None);
    assert_eq!(manhattan_exec(&(0, 0, 0), &(19, 19, 19)), 57);
}

#[test]
fn enumerate_in_dfs_order() {
    let g = ones();
    assert!(enumeration_ready(&g, (0, 0, 0), 3));
    let routes = enumerate_paths(&g, (0, 0, 0), (1, 0, 0), 3, 10);
    assert_eq!(
        routes,
        vec![
            (vec![(0, 0, 0), (1, 0, 0)], 1),
            (vec![(0, 0, 0), (0, 1, 0), (1, 1, 0), (1, 0, 0)], 3),
            (vec![(0, 0, 0), (0, 0, 1), (1, 0, 1), (1, 0, 0)], 3),
        ]
    );
}

#[test]
fn enumerate_stops_at_max_count() {
    let g = ones();
    let routes = enumerate_paths(&g, (0, 0, 0), (1, 0, 0), 3, 2);
    assert_eq!(routes.len(), 2);
    assert_eq!(routes[1].0, vec![(0, 0, 0), (0, 1, 0), (1, 1, 0), (1, 0, 0)]);
    assert!(enumerate_paths(&g, (0, 0, 0), (1, 0, 0), 3, 0).is_empty());
}

#[test]
fn enumerate_edge_cases() {
    let g = ones();
    // Start is the goal: the one-cell route.
    assert_eq!(enumerate_paths(&g, (4, 4, 4), (4, 4, 4), 0, 5), vec![(vec![(4, 4, 4)], 0)]);
    // Goal out of reach within the hops.
    assert!(enumerate_paths(&g, (0, 0, 0), (3, 0, 0), 2, 5).is_empty());
    // Costs of entered cells only.
    let mut g2 = ones();
    g2.set(1, 0, 0, 9);
    assert_eq!(enumerate_paths(&g2, (0, 0, 0), (1, 0, 0), 1, 5), vec![(vec![(0, 0, 0), (1, 0, 0)], 9)]);
}

#[test]
fn enumerated_routes_are_simple() {
    let g = build_terrain();
    let routes = enumerate_paths(&g, (3, 3, 3), (5, 4, 3), 5, 50);
    assert_eq!(routes.len(), 50);
    for (route, cost) in &routes {
        assert_eq!(route[0], (3, 3, 3));
        assert_eq!(*route.last().unwrap(), (5, 4, 3));
        assert!(route.len() <= 6);
        assert!(is_unit_walk(route));
        let mut seen = route.clone();
        seen.sort();
        seen.dedup();
        assert_eq!(seen.len(), route.len());
        assert_eq!(route_cost(&g, route), Some(*cost));
    }
    for i in 0..routes.len() {
        for j in (i + 1)..routes.len() {
            assert_ne!(routes[i].0, routes[j].0);
        }
    }
}

#[test]
fn qubo_symmetric_coefficients() {
    let alts = vec![(vec![(0, 0, 0)], 3u32), (vec![(0, 0, 0)], 5u32)];
    let q = build_one_hot_qubo(&alts);
    assert_eq!(q, vec![vec![-8, 11], vec![11, -6]]);
    assert!(build_one_hot_qubo(&Vec::new()).is_empty());
}

fn energy(q: &[Vec<i64>], x: &[bool]) -> i64 {
    let mut e = 0;
    for i in 0..x.len() {
        for j in 0..x.len() {
            if x[i] && x[j] {
                e += q[i][j];
            }
        }
    }
    e
}

#[test]
fn qubo_minimum_is_cheapest_route_alone() {
    let alts = vec![(vec![], 7u32), (vec![], 3u32), (vec![], 9u32), (vec![], 3u32)];
    {
        let q = build_one_hot_qubo(&alts);
        let mut best = i64::MAX;
        let mut argmins = Vec::new();
        for mask in 0u32..16 {
            let x: Vec<bool> = (0..4).map(|i| mask & (1 << i) != 0).collect();
            let e = energy(&q, &x);
            if e < best {
                best = e;
                argmins = vec![mask];
            } else if e == best {
                argmins.push(mask);
            }
        }
        // λ = 19: the minimum is 3 - 19, reached by route 1 or route 3 alone.
        assert_eq!(best, -16);
        assert_eq!(argmins, vec![2, 8]);
    }
}

#[test]
fn select_route_first_set_or_zero() {
    assert_eq!(select_route(&vec![false, true, true], 3), 1);
    assert_eq!(select_route(&vec![false, false], 2), 0);
    assert_eq!(select_route(&vec![true], 1), 0);
    assert_eq!(select_route(&Vec::new(), 4), 0);
    // Flags beyond the routes are ignored; missing flags count as unset.
    assert_eq!(select_route(&vec![false, false, true], 2), 0);
    assert_eq!(select_route(&vec![false], 3), 0);
}

#[test]
fn saving_only_when_cheaper() {
    assert_eq!(route_saving(10, 7), Some(3));
    assert_eq!(route_saving(10, 10), None);
    assert_eq!(route_saving(5, 9), None);
}

#[test]
fn windows() {
    assert_eq!(astar_window(58), (29, 34));
    assert_eq!(astar_window(3), (1, 2));
    assert_eq!(astar_window(1), (0, 0));
    assert_eq!(obstacle_window(8, 58), Some((6, 11)));
    assert_eq!(obstacle_window(44, 58), Some((42, 47)));
    assert_eq!(obstacle_window(1, 58), Some((0, 5)));
    assert_eq!(obstacle_window(44, 46), Some((42, 45)));
    assert_eq!(obstacle_window(8, 8), None);
    assert_eq!(obstacle_window(8, 7), None);
    assert_eq!(WINDOW, 5);
}

#[test]
fn dedup_drops_consecutive_equal_costs() {
    let v = vec![
        (vec![(0, 0, 0), (1, 0, 0)], 5u32),
        (vec![(0, 0, 0), (0, 1, 0)], 5u32),
        (vec![(0, 0, 0), (1, 0, 0)], 5u32),
        (vec![(0, 0, 1)], 3u32),
        (vec![(0, 0, 0), (0, 1, 0)], 5u32),
        (vec![(0, 0, 2)], 5u32),
    ];
    let d = dedup_by_cost(v);
    assert_eq!(
        d,
        vec![
            (vec![(0, 0, 0), (1, 0, 0)], 5),
            (vec![(0, 0, 1)], 3),
            (vec![(0, 0, 0), (0, 1, 0)], 5),
        ]
    );
    assert!(dedup_by_cost(Vec::new()).is_empty());
}

#[test]
fn window_alternatives_baseline_first() {
    let g = build_terrain();
    let (path, _) = find_path_astar(&g, (0, 0, 0), (19, 19, 19));
    let (mid, end) = astar_window(path.len());
    assert!(window_ready(&g, &path, mid, end));
    let (alts, base) = window_alternatives(&g, &path, mid, end);
    assert_eq!(base, 5);
    assert_eq!(alts[0].0, path[mid..=end].to_vec());
    assert_eq!(alts[0].1, 5);
    assert!(alts.len() <= 12);
    for i in 1..alts.len() {
        assert_ne!(alts[i - 1].1, alts[i].1);
    }
    for (route, cost) in &alts[1..] {
        assert_eq!(route[0], path[mid]);
        assert_eq!(*route.last().unwrap(), path[end]);
        assert!(route.len() <= 8);
        assert_eq!(route_cost(&g, route), Some(*cost));
    }
    assert!(!window_ready(&g, &path, end, mid));
}

#[test]
fn obstacles_on_bfs_path() {
    let mut g = ones();
    let path = find_path_bfs((0, 0, 0), (19, 19, 19));
    inject_obstacles(&mut g, &path);
    for (i, p) in path.iter().enumerate() {
        let expected = if [8, 20, 32, 44].contains(&i) { OBSTACLE_COST } else { 1 };
        assert_eq!(g.get(p.0, p.1, p.2), expected);
    }
    assert_eq!(route_cost(&g, &path), Some(57 + 4 * 17));
    // A short path holds fewer injection positions.
    let mut g2 = ones();
    let short: Vec<Pos> = (0..10).map(|x| (x, 0, 0)).collect();
    inject_obstacles(&mut g2, &short);
    assert_eq!(g2.get(8, 0, 0), OBSTACLE_COST);
    assert_eq!(g2.get(9, 0, 0), 1);
    assert!(grid_is_cube(&g2));
}

#[test]
fn refinement_keeps_balance() {
    let mut r = Refinement::new(125);
    assert!(r.can_record(20, 12));
    r.record(20, 12);
    assert_eq!((r.refined_cost, r.total_savings), (117, 8));
    r.record(20, 25);
    assert_eq!((r.refined_cost, r.total_savings), (117, 8));
    r.record(9, 9);
    assert_eq!((r.bfs_cost, r.refined_cost, r.total_savings), (125, 117, 8));
    let tight = Refinement::new(3);
    assert!(!tight.can_record(10, 2));
}

#[test]
fn route_cost_overflow_is_none() {
    let mut g = ones();
    g.set(1, 0, 0, u32::MAX);
    assert_eq!(route_cost(&g, &vec![(0, 0, 0), (1, 0, 0)]), Some(u32::MAX));
    assert_eq!(route_cost(&g, &vec![(0, 0, 0), (1, 0, 0), (2, 0, 0)]), None);
    assert_eq!(route_cost(&g, &vec![(7, 7, 7)]), Some(0));
}


#[test]
fn choose_alternative_reports_saving() {
    let alts = vec![(vec![], 10u32), (vec![], 7u32), (vec![], 12u32)];
    assert_eq!(choose_alternative(&alts, 10, &vec![false, true, false]), (1, 7, Some(3)));
    assert_eq!(choose_alternative(&alts, 10, &vec![false, false, true]), (2, 12, None));
    assert_eq!(choose_alternative(&alts, 10, &vec![false, false, false]), (0, 10, None));
}

#[test]
fn corridor_plan() {
    let plan = CorridorPlan::plan();
    assert_eq!(plan.path().len(), 58);
    assert_eq!(plan.cost(), 57);
    assert_eq!(plan.window(), (29, 34));
    assert_eq!(plan.baseline(), 5);
    let alts = plan.alternatives();
    assert_eq!(alts[0].0, plan.path()[29..=34].to_vec());
    assert_eq!(alts[0].1, 5);
    assert!(alts.len() <= 12);
    let none = vec![false; alts.len()];
    assert_eq!(plan.outcome(&none), (0, 5, None));
}

#[test]
fn obstacle_course() {
    let course = ObstacleCourse::build();
    assert_eq!(course.path().len(), 58);
    assert_eq!(course.bfs_cost(), 57 + 4 * 17);
    let p = course.path()[20];
    assert_eq!(course.grid().get(p.0, p.1, p.2), OBSTACLE_COST);
    let w = course.obstacle_alternatives(0).unwrap();
    assert_eq!((w.start, w.end), (6, 11));
    assert_eq!(w.baseline, 5 + 17);
    assert_eq!(w.alternatives[0].0, course.path()[6..=11].to_vec());
    assert_eq!(w.alternatives[0].1, 22);
    for (route, cost) in &w.alternatives[1..] {
        assert_eq!(route_cost(course.grid(), route), Some(*cost));
    }
    let last = course.obstacle_alternatives(3).unwrap();
    assert_eq!((last.start, last.end), (42, 47));
}

#[test]
fn astar_on_one_costly_cell() {
    let mut g = ones();
    g.set(1, 0, 0, 1_000_000);
    assert!(astar_ready(&g));
    let (path, cost) = find_path_astar(&g, (0, 0, 0), (2, 0, 0));
    assert_eq!(cost, 4);
    assert_eq!(path.len(), 5);
    assert!(!path.contains(&(1, 0, 0)));
}

#[test]
fn enumerate_near_a_far_costly_cell() {
    // The checked bound fails, yet no route within two moves reaches the cell.
    let mut g = ones();
    g.set(19, 19, 19, u32::MAX);
    assert!(!enumeration_ready(&g, (0, 0, 0), 2));
    let routes = enumerate_paths(&g, (0, 0, 0), (1, 0, 0), 2, 10);
    assert_eq!(routes, vec![(vec![(0, 0, 0), (1, 0, 0)], 1)]);
}

#[test]
fn enumeration_ready_by_cells_or_hops() {
    let g = ones();
    // Hops far beyond any simple route: all cells but the start still fit.
    assert!(enumeration_ready(&g, (0, 0, 0), usize::MAX));
    let mut big = ones();
    big.set(5, 5, 5, 3_000_000_000);
    big.set(6, 5, 5, 3_000_000_000);
    assert!(!enumeration_ready(&big, (0, 0, 0), 2));
    assert!(enumeration_ready(&big, (0, 0, 0), 1));
    assert!(!enumeration_ready(&CostGrid::ones((3, 3, 3)), (0, 0, 0), 1));
}

#[test]
fn enumerate_from_goal_keeps_the_start() {
    let g = ones();
    // The start is the goal: one route, with no move, whatever the hops.
    assert_eq!(enumerate_paths(&g, (2, 2, 2), (2, 2, 2), 4, 3), vec![(vec![(2, 2, 2)], 0)]);
}
