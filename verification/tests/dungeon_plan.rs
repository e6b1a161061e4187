use spellbound::dijkstra_map::{DijkstraMap, DijkstraTile};
use spellbound::dungeon::{DungeonMap, TerrainType};
use spellbound::generate::generate_fractal_dungeon;

fn check_plan(plan: &Vec<Vec<TerrainType>>, width: usize, height: usize) {
    assert_eq!(plan.len(), height);
    for (j, row) in plan.iter().enumerate() {
        assert_eq!(row.len(), width);
        for (i, terrain) in row.iter().enumerate() {
            let rim = i == 0 || j == 0 || i == width - 1 || j == height - 1;
            if rim {
                assert_eq!(*terrain, TerrainType::Wall, "rim at ({i},{j})");
            } else if i % 2 == 1 && j % 2 == 1 {
                assert_eq!(*terrain, TerrainType::Floor, "chamber at ({i},{j})");
            }
            if (*terrain == TerrainType::Door || *terrain == TerrainType::Window) && !rim {
                // an opening stands in a wall: on an even row or an even column
                assert!(i % 2 == 0 || j % 2 == 0, "opening at ({i},{j})");
            }
        }
    }
}

#[test]
fn a_plan_has_walls_around_and_floor_in_its_chambers() {
    for _ in 0..10 {
        check_plan(&generate_fractal_dungeon(42, 42), 42, 42);
    }
    check_plan(&generate_fractal_dungeon(17, 30), 17, 30);
    check_plan(&generate_fractal_dungeon(31, 8), 31, 8);
}

#[test]
fn a_small_plan_is_one_room() {
    assert_eq!(generate_fractal_dungeon(1, 1), vec![vec![TerrainType::Wall]]);
    assert_eq!(generate_fractal_dungeon(2, 1), vec![vec![TerrainType::Wall; 2]]);
    let w = TerrainType::Wall;
    let f = TerrainType::Floor;
    assert_eq!(
        generate_fractal_dungeon(5, 4),
        vec![vec![w, w, w, w, w], vec![w, f, f, f, w], vec![w, f, f, f, w], vec![w, w, w, w, w]]
    );
    // five tiles a side is still too small to split, whatever the other side
    let long = generate_fractal_dungeon(5, 12);
    for j in 1..11 {
        assert_eq!(long[j], vec![w, f, f, f, w]);
    }
}

#[test]
fn a_plan_of_six_by_six_is_split_once() {
    for _ in 0..20 {
        let plan = generate_fractal_dungeon(6, 6);
        check_plan(&plan, 6, 6);
        // the only wall that fits is on column 2, with its opening on row 2
        for j in 1..5 {
            for i in 1..5 {
                if i != 2 {
                    assert_eq!(plan[j][i], TerrainType::Floor);
                }
            }
        }
        // and since it fits, it is drawn: a wall with a door in its only place
        for j in 0..6 {
            let want = if j == 2 { TerrainType::Door } else { TerrainType::Wall };
            assert_eq!(plan[j][2], want, "row {j}");
        }
    }
}

#[test]
fn a_room_wide_enough_gets_a_wall_with_a_door() {
    // Eleven by six is wider than high, so the walls run down: on column 2, 4 or 6.
    for _ in 0..20 {
        let plan = generate_fractal_dungeon(11, 6);
        check_plan(&plan, 11, 6);
        let walls: Vec<usize> = (1..10).filter(|&i| plan[1][i] == TerrainType::Wall).collect();
        assert!(!walls.is_empty());
        for i in walls {
            assert!(i % 2 == 0);
            let doors = (0..6).filter(|&j| plan[j][i] == TerrainType::Door).count();
            // the only place for an opening is row 2
            assert_eq!(doors, 1);
            assert_eq!(plan[2][i], TerrainType::Door);
            for j in [0, 1, 3, 4, 5] {
                assert_eq!(plan[j][i], TerrainType::Wall);
            }
        }
    }
}

#[test]
fn plans_differ_from_one_another() {
    let first = generate_fractal_dungeon(42, 42);
    let mut differs = false;
    for _ in 0..20 {
        if generate_fractal_dungeon(42, 42) != first {
            differs = true;
        }
    }
    assert!(differs);
}

#[test]
fn every_floor_of_a_plan_can_be_reached() {
    for _ in 0..10 {
        let plan = generate_fractal_dungeon(42, 42);
        let mut grid: Vec<Vec<DijkstraTile>> = plan
            .iter()
            .map(|row| {
                row.iter()
                    .map(|t| match t {
                        TerrainType::Floor | TerrainType::Door => DijkstraTile::Passable,
                        _ => DijkstraTile::Impassable,
                    })
                    .collect()
            })
            .collect();
        grid[1][1] = DijkstraTile::Goal;
        let field = DijkstraMap::new(&grid);
        for j in 0..42 {
            for i in 0..42 {
                if grid[j][i] != DijkstraTile::Impassable {
                    assert!(field.value(i, j).is_some(), "({i},{j}) is cut off");
                }
            }
        }
    }
}

#[test]
fn a_new_map_is_unseen_and_walled() {
    let map = DungeonMap::new(42);
    assert_eq!(map.width(), 42);
    assert_eq!(map.height(), 42);
    for j in 0..42 {
        for i in 0..42 {
            let tile = map.tile(i, j);
            assert_eq!((tile.i, tile.j), (i, j));
            assert!(!tile.visible());
            assert!(!tile.is_explored());
            if i == 0 || j == 0 || i == 41 || j == 41 {
                assert!(!tile.is_passable() && !tile.is_transvisible());
            } else if i % 2 == 1 && j % 2 == 1 {
                assert!(tile.is_passable() && tile.is_transvisible());
            }
        }
    }
}

#[test]
fn the_smallest_map_is_one_wall() {
    let map = DungeonMap::new(1);
    assert_eq!((map.width(), map.height()), (1, 1));
    assert!(!map.tile(0, 0).is_passable());
}
