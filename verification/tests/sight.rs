use spellbound::dungeon::{fov, los, DungeonMap, TerrainType, Tile};
use std::collections::BTreeSet;

fn map_of(rows: &[&str]) -> DungeonMap {
    let mut grid = Vec::new();
    for (j, row) in rows.iter().enumerate() {
        let mut tiles = Vec::new();
        for (i, ch) in row.chars().enumerate() {
            let terrain = match ch {
                '#' => TerrainType::Wall,
                '+' => TerrainType::Door,
                'o' => TerrainType::Window,
                _ => TerrainType::Floor,
            };
            tiles.push(Tile::new(terrain, i, j));
        }
        grid.push(tiles);
    }
    DungeonMap { grid }
}

/// The same walk with the distance from the line computed in floating point.
fn los_by_floats(map: &DungeonMap, x0: isize, y0: isize, x1: isize, y1: isize) -> Option<(usize, usize)> {
    if x1 < 0 || y1 < 0 || x1 >= map.width() as isize || y1 >= map.height() as isize {
        return None;
    }
    let dx = x1 - x0;
    let dy = y1 - y0;
    if dx == 0 && dy == 0 {
        return Some((x0 as usize, y0 as usize));
    }
    let sx = if x0 < x1 { 1 } else { -1 };
    let sy = if y0 < y1 { 1 } else { -1 };
    let mut xnext = x0;
    let mut ynext = y0;
    let denom = ((dx * dx + dy * dy) as f64).sqrt();
    while xnext != x1 || ynext != y1 {
        if !map.grid[ynext as usize][xnext as usize].is_transvisible() && !(xnext == x0 && ynext == y0) {
            return Some((xnext as usize, ynext as usize));
        }
        if ((dy * (xnext - x0 + sx) - dx * (ynext - y0)) as f64).abs() / denom < 0.5 {
            xnext += sx;
        } else if ((dy * (xnext - x0) - dx * (ynext - y0 + sy)) as f64).abs() / denom < 0.5 {
            ynext += sy;
        } else {
            xnext += sx;
            ynext += sy;
        }
    }
    Some((x1 as usize, y1 as usize))
}

fn hall() -> DungeonMap {
    map_of(&[
        "..........#.",
        "..#.........",
        "......o.....",
        "...+........",
        ".........#..",
        "............",
        "....#.......",
        "............",
    ])
}

#[test]
fn sight_of_own_cell_is_that_cell() {
    let map = hall();
    assert_eq!(los(&map, 3, 4, 3, 4), Some((3, 4)));
    assert_eq!(los(&map, 0, 0, 0, 0), Some((0, 0)));
    // also on a cell that cannot be seen through
    assert_eq!(los(&map, 2, 1, 2, 1), Some((2, 1)));
}

#[test]
fn sight_stops_at_an_opaque_cell_on_a_straight_path() {
    let map = map_of(&[".....", "..#..", "....."]);
    assert_eq!(los(&map, 0, 1, 4, 1), Some((2, 1)));
    assert_eq!(los(&map, 4, 1, 0, 1), Some((2, 1)));
    assert_eq!(los(&map, 2, 0, 2, 2), Some((2, 1)));
    assert_eq!(los(&map, 2, 2, 2, 0), Some((2, 1)));
    let diagonal = map_of(&[".....", ".....", "..#..", ".....", "....."]);
    assert_eq!(los(&diagonal, 0, 0, 4, 4), Some((2, 2)));
    assert_eq!(los(&diagonal, 4, 0, 0, 4), Some((2, 2)));
}

#[test]
fn sight_reaches_the_target_on_a_clear_path() {
    let map = map_of(&[".....", ".....", "....."]);
    assert_eq!(los(&map, 0, 0, 4, 2), Some((4, 2)));
    assert_eq!(los(&map, 4, 2, 0, 0), Some((0, 0)));
    assert_eq!(los(&map, 0, 1, 4, 1), Some((4, 1)));
}

#[test]
fn sight_of_an_opaque_target_is_the_target() {
    let map = map_of(&["...#."]);
    assert_eq!(los(&map, 0, 0, 3, 0), Some((3, 0)));
    assert_eq!(los(&map, 0, 0, 4, 0), Some((3, 0)));
}

#[test]
fn sight_from_an_opaque_origin_is_not_blocked_by_it() {
    let map = map_of(&["#...."]);
    assert_eq!(los(&map, 0, 0, 4, 0), Some((4, 0)));
}

#[test]
fn sight_goes_through_windows_and_stops_at_doors() {
    let map = map_of(&["..o..+.."]);
    assert_eq!(los(&map, 0, 0, 4, 0), Some((4, 0)));
    assert_eq!(los(&map, 0, 0, 7, 0), Some((5, 0)));
}

#[test]
fn sight_of_a_target_outside_the_map_is_nothing() {
    let map = hall();
    assert_eq!(los(&map, 3, 3, -1, 3), None);
    assert_eq!(los(&map, 3, 3, 3, -1), None);
    assert_eq!(los(&map, 3, 3, 12, 3), None);
    assert_eq!(los(&map, 3, 3, 3, 8), None);
    assert_eq!(los(&map, 3, 3, isize::MAX, isize::MIN), None);
    // whatever the origin
    assert_eq!(los(&map, -5, 40, 12, 3), None);
}

#[test]
fn sight_follows_the_ray_cell_by_cell() {
    // From (0, 0) to (5, 2) the walk is
    // (1,0) (2,1) (3,1) (4,2) (5,2): each wall on it is met, one beside it is not.
    let open = map_of(&["......", "......", "......"]);
    assert_eq!(los(&open, 0, 0, 5, 2), Some((5, 2)));
    for (wall, meets) in [((1, 0), true), ((2, 1), true), ((3, 1), true), ((4, 2), true), ((1, 1), false), ((2, 0), false), ((4, 1), false), ((3, 2), false)] {
        let mut map = map_of(&["......", "......", "......"]);
        map.grid[wall.1][wall.0] = Tile::new(TerrainType::Wall, wall.0, wall.1);
        let want = if meets { Some(wall) } else { Some((5, 2)) };
        assert_eq!(los(&map, 0, 0, 5, 2), want, "wall at {wall:?}");
    }
}

#[test]
fn sight_agrees_with_the_walk_in_floating_point() {
    let map = hall();
    for y0 in 0..8 {
        for x0 in 0..12 {
            for y1 in -2..10 {
                for x1 in -2..14 {
                    assert_eq!(
                        los(&map, x0, y0, x1, y1),
                        los_by_floats(&map, x0, y0, x1, y1),
                        "from ({x0},{y0}) to ({x1},{y1})"
                    );
                }
            }
        }
    }
}

#[test]
fn sight_agrees_with_floating_point_on_long_clear_rays() {
    let row = ".".repeat(97);
    let rows: Vec<&str> = (0..61).map(|_| row.as_str()).collect();
    let map = map_of(&rows);
    for (x1, y1) in [(96, 60), (96, 0), (0, 60), (96, 1), (1, 60), (53, 37), (96, 59), (95, 60), (64, 48)] {
        assert_eq!(los(&map, 0, 0, x1, y1), Some((x1 as usize, y1 as usize)));
        assert_eq!(los(&map, 0, 0, x1, y1), los_by_floats(&map, 0, 0, x1, y1));
        assert_eq!(los(&map, x1, y1, 0, 0), Some((0, 0)));
    }
}

fn fov_by_floats(map: &DungeonMap, x: isize, y: isize, radius: isize) -> BTreeSet<(usize, usize)> {
    let mut out = BTreeSet::new();
    for i in -radius..radius + 1 {
        for j in -radius..radius + 1 {
            if i * i + j * j < radius * radius {
                if let Some(c) = los_by_floats(map, x, y, x + i, y + j) {
                    out.insert(c);
                }
            }
        }
    }
    out
}

#[test]
fn sweep_agrees_with_the_sweep_in_floating_point() {
    let map = hall();
    for radius in 0..9 {
        for (x, y) in [(0, 0), (5, 3), (11, 7), (3, 3), (6, 2)] {
            let cells: BTreeSet<(usize, usize)> = fov(&map, x, y, radius).into_iter().collect();
            assert_eq!(cells, fov_by_floats(&map, x, y, radius), "radius {radius} from ({x},{y})");
        }
    }
}

#[test]
fn sweep_of_radius_zero_sees_nothing_and_of_one_the_own_cell() {
    let map = hall();
    assert_eq!(fov(&map, 5, 5, 0), vec![]);
    assert_eq!(fov(&map, 5, 5, 1), vec![(5, 5)]);
}

#[test]
fn sweep_of_radius_two_sees_the_eight_neighbours() {
    let map = map_of(&[".....", ".....", ".....", ".....", "....."]);
    let cells: BTreeSet<(usize, usize)> = fov(&map, 2, 2, 2).into_iter().collect();
    let want: BTreeSet<(usize, usize)> =
        [(1, 1), (2, 1), (3, 1), (1, 2), (2, 2), (3, 2), (1, 3), (2, 3), (3, 3)].into_iter().collect();
    assert_eq!(cells, want);
}

#[test]
fn sweep_does_not_see_behind_a_wall() {
    let map = map_of(&[".....", ".....", ".#...", ".....", "....."]);
    let cells: BTreeSet<(usize, usize)> = fov(&map, 2, 2, 3).into_iter().collect();
    assert!(cells.contains(&(1, 2)));
    assert!(!cells.contains(&(0, 2)));
    assert!(cells.contains(&(4, 2)));
}

#[test]
fn sweep_stays_inside_the_map() {
    let map = map_of(&["...", "...", "..."]);
    let cells = fov(&map, 0, 0, 14);
    assert!(cells.iter().all(|&(i, j)| i < 3 && j < 3));
    let seen: BTreeSet<(usize, usize)> = cells.into_iter().collect();
    assert_eq!(seen.len(), 9);
}

#[test]
fn sweep_with_a_negative_radius_sees_as_far_as_its_square_says() {
    let map = map_of(&[".....", ".....", ".....", ".....", "....."]);
    let back: BTreeSet<(usize, usize)> = fov(&map, 2, 2, -2).into_iter().collect();
    let forth: BTreeSet<(usize, usize)> = fov(&map, 2, 2, 2).into_iter().collect();
    assert_eq!(back, forth);
}

#[test]
fn tiles_take_their_flags_from_the_terrain() {
    for (terrain, passable, transvisible) in [
        (TerrainType::Wall, false, false),
        (TerrainType::Floor, true, true),
        (TerrainType::Door, true, false),
        (TerrainType::Window, false, true),
    ] {
        let tile = Tile::new(terrain, 3, 9);
        assert_eq!(tile.is_passable(), passable);
        assert_eq!(tile.is_transvisible(), transvisible);
        assert!(!tile.visible());
        assert!(!tile.is_explored());
        assert_eq!((tile.i, tile.j), (3, 9));
    }
}

#[test]
fn a_tile_once_seen_stays_explored() {
    let mut tile = Tile::new(TerrainType::Floor, 0, 0);
    tile.unsee();
    assert!(!tile.visible() && !tile.is_explored());
    tile.see();
    assert!(tile.visible() && tile.is_explored());
    tile.unsee();
    assert!(!tile.visible() && tile.is_explored());
}

#[test]
fn vision_marks_what_the_sweep_sees() {
    let mut map = hall();
    let lit: BTreeSet<(usize, usize)> = fov(&map, 5, 3, 14).into_iter().collect();
    map.update_vision((5, 3));
    for j in 0..map.height() {
        for i in 0..map.width() {
            let tile = map.tile(i, j);
            assert_eq!(tile.visible(), lit.contains(&(i, j)), "({i},{j})");
            assert_eq!(tile.is_explored(), lit.contains(&(i, j)));
        }
    }
    assert!(map.tile(5, 3).visible());
    assert!(map.tile(3, 3).visible());
    assert!(!map.tile(0, 3).visible());
}

#[test]
fn vision_forgets_what_is_out_of_sight_but_keeps_it_explored() {
    let mut map = map_of(&["....#....."]);
    map.update_vision((0, 0));
    assert!(map.tile(3, 0).visible());
    assert!(map.tile(4, 0).visible());
    assert!(!map.tile(5, 0).visible());
    map.update_vision((9, 0));
    assert!(!map.tile(3, 0).visible());
    assert!(map.tile(3, 0).is_explored());
    assert!(map.tile(5, 0).visible());
    assert!(map.tile(4, 0).visible());
    // vision changes neither the floor plan nor the positions
    assert!(!map.tile(4, 0).is_passable());
    assert!(map.tile(3, 0).is_passable());
    assert_eq!((map.tile(7, 0).i, map.tile(7, 0).j), (7, 0));
}

#[test]
fn a_map_gives_its_tiles_and_its_size() {
    let map = hall();
    assert_eq!(map.width(), 12);
    assert_eq!(map.height(), 8);
    assert!(!map.tile(10, 0).is_passable());
    assert!(map.tile(3, 3).is_passable());
    assert!(!map.tile(3, 3).is_transvisible());
    assert!(map.tile(6, 2).is_transvisible());
    assert!(!map.tile(6, 2).is_passable());
}
