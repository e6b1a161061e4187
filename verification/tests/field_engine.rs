use spellbound::dijkstra_map::{DijkstraMap, DijkstraTile};

const P: DijkstraTile = DijkstraTile::Passable;
const X: DijkstraTile = DijkstraTile::Impassable;
const G: DijkstraTile = DijkstraTile::Goal;

fn rows(field: &DijkstraMap) -> Vec<Vec<Option<i64>>> {
    let mut out = Vec::new();
    for j in 0..field.height() {
        let mut row = Vec::new();
        for i in 0..field.width() {
            row.push(field.value(i, j));
        }
        out.push(row);
    }
    out
}

/// Distances by repeated relaxation over all cells, with no queue and no rounds.
fn relaxed(grid: &Vec<Vec<DijkstraTile>>) -> Vec<Vec<Option<i64>>> {
    let h = grid.len();
    let w = grid[0].len();
    let mut dist: Vec<Vec<Option<i64>>> = vec![vec![None; w]; h];
    for j in 0..h {
        for i in 0..w {
            if grid[j][i] == G {
                dist[j][i] = Some(0);
            }
        }
    }
    let mut changed = true;
    while changed {
        changed = false;
        for j in 0..h {
            for i in 0..w {
                if grid[j][i] == X || grid[j][i] == G {
                    continue;
                }
                for dj in -1i64..=1 {
                    for di in -1i64..=1 {
                        let (ni, nj) = (i as i64 + di, j as i64 + dj);
                        if (di, dj) == (0, 0) || ni < 0 || nj < 0 || ni >= w as i64 || nj >= h as i64 {
                            continue;
                        }
                        if let Some(d) = dist[nj as usize][ni as usize] {
                            if dist[j][i].map_or(true, |old| d + 1 < old) {
                                dist[j][i] = Some(d + 1);
                                changed = true;
                            }
                        }
                    }
                }
            }
        }
    }
    dist
}

fn open_five_by_five() -> Vec<Vec<DijkstraTile>> {
    let mut grid = vec![vec![P; 5]; 5];
    grid[2][2] = G;
    grid
}

fn walled() -> Vec<Vec<DijkstraTile>> {
    vec![
        vec![G, P, X, P, P, P],
        vec![P, P, X, P, X, P],
        vec![P, P, X, P, X, P],
        vec![P, P, P, P, X, P],
        vec![X, X, X, X, X, P],
        vec![P, P, X, P, P, P],
    ]
}

#[test]
fn no_goal_gives_no_value_anywhere() {
    let grid = vec![vec![P, P, X], vec![P, X, P]];
    let field = DijkstraMap::new(&grid);
    assert_eq!(rows(&field), vec![vec![None, None, None], vec![None, None, None]]);
}

#[test]
fn every_goal_has_distance_zero() {
    let grid = vec![vec![G, P, G], vec![P, X, P], vec![P, P, G]];
    let field = DijkstraMap::new(&grid);
    assert_eq!(field.value(0, 0), Some(0));
    assert_eq!(field.value(2, 0), Some(0));
    assert_eq!(field.value(2, 2), Some(0));
}

#[test]
fn distances_match_relaxation_on_a_walled_grid() {
    let grid = walled();
    let field = DijkstraMap::new(&grid);
    assert_eq!(rows(&field), relaxed(&grid));
    assert_eq!(
        rows(&field),
        vec![
            vec![Some(0), Some(1), None, Some(6), Some(6), Some(7)],
            vec![Some(1), Some(1), None, Some(5), None, Some(7)],
            vec![Some(2), Some(2), None, Some(4), None, Some(8)],
            vec![Some(3), Some(3), Some(3), Some(4), None, Some(9)],
            vec![None, None, None, None, None, Some(10)],
            vec![None, None, None, Some(12), Some(11), Some(11)],
        ]
    );
}

#[test]
fn distances_match_relaxation_with_several_goals() {
    let grid = vec![
        vec![P, P, P, P, P, P, G],
        vec![P, X, X, X, X, P, P],
        vec![P, X, G, P, X, P, P],
        vec![P, X, X, X, X, P, P],
        vec![P, P, P, P, P, P, P],
    ];
    let field = DijkstraMap::new(&grid);
    assert_eq!(rows(&field), relaxed(&grid));
    assert_eq!(field.value(3, 2), Some(1));
    assert_eq!(field.value(0, 4), Some(8));
}

#[test]
fn unreachable_passable_cells_have_no_value() {
    let grid = vec![vec![G, X, P], vec![X, X, P]];
    let field = DijkstraMap::new(&grid);
    assert_eq!(rows(&field), vec![vec![Some(0), None, None], vec![None, None, None]]);
}

#[test]
fn a_value_in_the_input_is_read_as_passable() {
    let grid = vec![vec![G, DijkstraTile::Value(40), P]];
    let field = DijkstraMap::new(&grid);
    assert_eq!(rows(&field), vec![vec![Some(0), Some(1), Some(2)]]);
}

#[test]
fn a_single_cell_grid() {
    assert_eq!(rows(&DijkstraMap::new(&vec![vec![G]])), vec![vec![Some(0)]]);
    assert_eq!(rows(&DijkstraMap::new(&vec![vec![P]])), vec![vec![None]]);
    assert_eq!(rows(&DijkstraMap::new(&vec![vec![X]])), vec![vec![None]]);
}

#[test]
fn neighbours_with_values_differ_by_at_most_one() {
    let grid = walled();
    let field = rows(&DijkstraMap::new(&grid));
    for j in 0..6i64 {
        for i in 0..6i64 {
            for dj in -1..=1 {
                for di in -1..=1 {
                    let (ni, nj) = (i + di, j + dj);
                    if ni < 0 || nj < 0 || ni >= 6 || nj >= 6 {
                        continue;
                    }
                    if let (Some(a), Some(b)) = (field[j as usize][i as usize], field[nj as usize][ni as usize]) {
                        assert!((a - b).abs() <= 1, "({i},{j}) and ({ni},{nj})");
                    }
                }
            }
        }
    }
}

#[test]
fn five_by_five_with_goal_in_the_middle() {
    let field = DijkstraMap::new(&open_five_by_five());
    assert_eq!(
        rows(&field),
        vec![
            vec![Some(2), Some(2), Some(2), Some(2), Some(2)],
            vec![Some(2), Some(1), Some(1), Some(1), Some(2)],
            vec![Some(2), Some(1), Some(0), Some(1), Some(2)],
            vec![Some(2), Some(1), Some(1), Some(1), Some(2)],
            vec![Some(2), Some(2), Some(2), Some(2), Some(2)],
        ]
    );
    for j in 0..5i64 {
        for i in 0..5i64 {
            let chebyshev = (i - 2).abs().max((j - 2).abs());
            assert_eq!(field.value(i as usize, j as usize), Some(chebyshev));
        }
    }
}

#[test]
fn overlay_then_step_avoids_the_obstacle() {
    let field = DijkstraMap::new(&open_five_by_five());
    assert_eq!(field.get_next_step((2, 0)), (2, 1));
    let masked = field.with_obstacles(vec![(2, 1)]);
    let step = masked.get_next_step((2, 0));
    assert_ne!(step, (2, 1));
    assert_eq!(step, (1, 1));
    assert_eq!(masked.value(2, 1), None);
}

#[test]
fn overlay_twice_is_overlay_once() {
    let field = DijkstraMap::new(&walled());
    let once = field.with_obstacles(vec![(1, 1), (3, 3), (1, 1)]);
    let twice = once.with_obstacles(vec![(1, 1), (3, 3), (1, 1)]);
    assert_eq!(rows(&once), rows(&twice));
}

#[test]
fn overlay_changes_only_the_listed_cells_and_only_to_nothing() {
    let field = DijkstraMap::new(&walled());
    let masked = field.with_obstacles(vec![(0, 0), (3, 3), (2, 0)]);
    let (before, after) = (rows(&field), rows(&masked));
    for j in 0..6 {
        for i in 0..6 {
            if [(0, 0), (3, 3), (2, 0)].contains(&(i, j)) {
                assert_eq!(after[j][i], None);
            } else {
                assert_eq!(after[j][i], before[j][i]);
            }
        }
    }
}

#[test]
fn overlay_keeps_stale_distances_in_a_cut_off_pocket() {
    let grid = vec![vec![G, P, P, P]];
    let field = DijkstraMap::new(&grid);
    let masked = field.with_obstacles(vec![(1, 0)]);
    assert_eq!(rows(&masked), vec![vec![Some(0), None, Some(2), Some(3)]]);
}

#[test]
fn overlay_with_no_coordinates_changes_nothing() {
    let field = DijkstraMap::new(&walled());
    assert_eq!(rows(&field.with_obstacles(vec![])), rows(&field));
}

#[test]
fn scale_by_one_is_identity() {
    let field = DijkstraMap::new(&walled());
    assert!(field.can_scale(1));
    assert_eq!(rows(&field.scale(1)), rows(&field));
}

#[test]
fn scale_multiplies_every_value() {
    let field = DijkstraMap::new(&vec![vec![G, P, P, X]]);
    assert_eq!(rows(&field.scale(-3)), vec![vec![Some(0), Some(-3), Some(-6), None]]);
    assert_eq!(rows(&field.scale(0)), vec![vec![Some(0), Some(0), Some(0), None]]);
}

#[test]
fn combine_needs_a_value_on_both_sides() {
    let a = DijkstraMap::new(&vec![vec![G, P, P, X]]);
    let b = DijkstraMap::new(&vec![vec![X, P, P, G]]);
    assert!(a.can_combine(&b));
    assert_eq!(rows(&a.combine(&b)), vec![vec![None, Some(3), Some(3), None]]);
    assert_eq!(rows(&b.combine(&a)), vec![vec![None, Some(3), Some(3), None]]);
}

#[test]
fn scale_distributes_over_combine() {
    let a = DijkstraMap::new(&walled());
    let mut other = walled();
    other[0][0] = P;
    other[5][5] = G;
    other[3][2] = X;
    let b = DijkstraMap::new(&other);
    for s in [-2i64, -1, 0, 1, 5] {
        let left = a.combine(&b).scale(s);
        let right = a.scale(s).combine(&b.scale(s));
        assert_eq!(rows(&left), rows(&right));
    }
}

#[test]
fn can_scale_refuses_a_product_that_does_not_fit() {
    let field = DijkstraMap::new(&vec![vec![G, P, P]]);
    assert!(field.can_scale(i64::MAX / 2));
    assert!(!field.can_scale(i64::MAX / 2 + 1));
    assert!(field.can_scale(i64::MIN / 2));
    assert!(!field.can_scale(i64::MIN / 2 - 1));
    assert!(DijkstraMap::new(&vec![vec![G, X]]).can_scale(i64::MIN));
}

#[test]
fn can_combine_refuses_other_shapes_and_sums_that_do_not_fit() {
    let a = DijkstraMap::new(&vec![vec![G, P, P]]);
    let wider = DijkstraMap::new(&vec![vec![G, P, P, P]]);
    let taller = DijkstraMap::new(&vec![vec![G, P, P], vec![P, P, P]]);
    assert!(!a.can_combine(&wider));
    assert!(!a.can_combine(&taller));
    let big = a.scale(i64::MAX / 2 - 1);
    assert!(big.can_combine(&a));
    assert!(!big.can_combine(&big));
    let low = a.scale(i64::MIN / 4);
    assert!(low.can_combine(&low));
    assert!(!low.combine(&low).can_combine(&a.scale(-1)));
}

#[test]
fn flee_and_explore_compose() {
    let to_player = DijkstraMap::new(&vec![vec![G, P, P, P, P]]);
    let to_unseen = DijkstraMap::new(&vec![vec![P, P, P, P, G]]);
    let desire = to_player.scale(-2).combine(&to_unseen.scale(1));
    assert_eq!(
        rows(&desire),
        vec![vec![Some(4), Some(1), Some(-2), Some(-5), Some(-8)]]
    );
    assert_eq!(desire.get_next_step((1, 0)), (2, 0));
}

#[test]
fn step_next_to_a_goal_reaches_it() {
    let field = DijkstraMap::new(&open_five_by_five());
    for (origin, want) in [
        ((1, 2), (2, 2)),
        ((3, 2), (2, 2)),
        ((2, 1), (2, 2)),
        ((2, 3), (2, 2)),
        ((1, 1), (2, 2)),
        ((3, 3), (2, 2)),
    ] {
        let step = field.get_next_step(origin);
        assert_eq!(step, want);
        assert_eq!(field.value(step.0, step.1), Some(0));
    }
}

#[test]
fn step_prefers_a_straight_move_among_equals() {
    // Two goals at the same distance from (1, 1): one diagonal, one straight.
    let grid = vec![vec![G, P, P], vec![P, P, G], vec![P, P, P]];
    let field = DijkstraMap::new(&grid);
    assert_eq!(field.value(0, 0), Some(0));
    assert_eq!(field.value(2, 1), Some(0));
    assert_eq!(field.get_next_step((1, 1)), (2, 1));
}

#[test]
fn step_tries_the_neighbours_in_a_fixed_order() {
    // All eight neighbours of the middle are goals: the first tried wins.
    let all = vec![vec![G, G, G], vec![G, P, G], vec![G, G, G]];
    assert_eq!(DijkstraMap::new(&all).get_next_step((1, 1)), (0, 1));
    let no_left = vec![vec![G, G, G], vec![X, P, G], vec![G, G, G]];
    assert_eq!(DijkstraMap::new(&no_left).get_next_step((1, 1)), (1, 2));
    let no_down = vec![vec![G, G, G], vec![X, P, G], vec![G, X, G]];
    assert_eq!(DijkstraMap::new(&no_down).get_next_step((1, 1)), (2, 1));
    let no_right = vec![vec![G, G, G], vec![X, P, X], vec![G, X, G]];
    assert_eq!(DijkstraMap::new(&no_right).get_next_step((1, 1)), (1, 0));
    let diagonals = vec![vec![G, X, G], vec![X, P, X], vec![G, X, G]];
    assert_eq!(DijkstraMap::new(&diagonals).get_next_step((1, 1)), (0, 2));
    let three = vec![vec![G, X, G], vec![X, P, X], vec![X, X, G]];
    assert_eq!(DijkstraMap::new(&three).get_next_step((1, 1)), (2, 2));
    let two = vec![vec![G, X, G], vec![X, P, X], vec![X, X, X]];
    assert_eq!(DijkstraMap::new(&two).get_next_step((1, 1)), (2, 0));
    let one = vec![vec![G, X, X], vec![X, P, X], vec![X, X, X]];
    assert_eq!(DijkstraMap::new(&one).get_next_step((1, 1)), (0, 0));
}

#[test]
fn step_from_an_isolated_cell_stands_still() {
    let grid = vec![vec![X, X, X, G], vec![X, P, X, P], vec![X, X, X, P]];
    let field = DijkstraMap::new(&grid);
    assert_eq!(field.get_next_step((1, 1)), (1, 1));
    let lonely_goal = DijkstraMap::new(&vec![vec![X, X, X], vec![X, G, X], vec![X, X, X]]);
    assert_eq!(lonely_goal.get_next_step((1, 1)), (1, 1));
}

#[test]
fn step_from_a_goal_stands_still() {
    let field = DijkstraMap::new(&open_five_by_five());
    assert_eq!(field.get_next_step((2, 2)), (2, 2));
}

#[test]
fn step_from_an_impassable_cell_takes_a_neighbour_with_a_value() {
    let grid = vec![vec![G, P, P], vec![P, X, P], vec![P, P, P]];
    let field = DijkstraMap::new(&grid);
    assert_eq!(field.value(1, 1), None);
    assert_eq!(field.get_next_step((1, 1)), (0, 0));
}

#[test]
fn step_from_outside_the_grid_stands_still() {
    let field = DijkstraMap::new(&open_five_by_five());
    assert_eq!(field.get_next_step((5, 2)), (5, 2));
    assert_eq!(field.get_next_step((2, 5)), (2, 5));
    assert_eq!(field.get_next_step((usize::MAX, usize::MAX)), (usize::MAX, usize::MAX));
}

#[test]
fn step_at_the_border_ignores_what_lies_outside() {
    let field = DijkstraMap::new(&vec![vec![P, P, G]]);
    assert_eq!(field.get_next_step((0, 0)), (1, 0));
    assert_eq!(field.get_next_step((1, 0)), (2, 0));
    let column = DijkstraMap::new(&vec![vec![G], vec![P], vec![P]]);
    assert_eq!(column.get_next_step((0, 2)), (0, 1));
}

#[test]
fn following_steps_takes_as_many_moves_as_the_distance() {
    let grid = walled();
    let field = DijkstraMap::new(&grid);
    let mut at = (3, 5);
    let mut moves = 0;
    while field.value(at.0, at.1) != Some(0) {
        let next = field.get_next_step(at);
        assert_eq!(field.value(next.0, next.1), field.value(at.0, at.1).map(|d| d - 1));
        at = next;
        moves += 1;
    }
    assert_eq!(moves, 12);
    assert_eq!(at, (0, 0));
}

#[test]
fn value_outside_the_grid_is_none() {
    let field = DijkstraMap::new(&open_five_by_five());
    assert_eq!(field.value(5, 0), None);
    assert_eq!(field.value(0, 5), None);
    assert_eq!(field.width(), 5);
    assert_eq!(field.height(), 5);
}

#[test]
fn clone_is_an_equal_field() {
    let field = DijkstraMap::new(&walled());
    let copy = field.clone();
    assert_eq!(rows(&copy), rows(&field));
}
