use spellbound::dijkstra_map::DijkstraMap;
use spellbound::dungeon::{DungeonMap, TerrainType, Tile};

fn map_of(rows: &[&str]) -> DungeonMap {
    let mut grid = Vec::new();
    for (j, row) in rows.iter().enumerate() {
        let mut tiles = Vec::new();
        for (i, ch) in row.chars().enumerate() {
            let terrain = match ch {
                '#' => TerrainType::Wall,
                '+' => TerrainType::Door,
                'o' => TerrainType::Window,
                _ => TerrainType::Floor,
            };
            tiles.push(Tile::new(terrain, i, j));
        }
        grid.push(tiles);
    }
    DungeonMap { grid }
}

fn rows(field: &DijkstraMap) -> Vec<Vec<Option<i64>>> {
    (0..field.height()).map(|j| (0..field.width()).map(|i| field.value(i, j)).collect()).collect()
}

#[test]
fn doors_are_walked_through_and_windows_are_not() {
    let map = map_of(&["..+..o.."]);
    let field = map.get_dijkstra_map(vec![(0, 0)]);
    assert_eq!(
        rows(&field),
        vec![vec![Some(0), Some(1), Some(2), Some(3), Some(4), None, None, None]]
    );
}

#[test]
fn a_goal_on_a_wall_counts_for_nothing() {
    let map = map_of(&["..#.."]);
    let field = map.get_dijkstra_map(vec![(2, 0)]);
    assert_eq!(rows(&field), vec![vec![None, None, None, None, None]]);
    let both = map.get_dijkstra_map(vec![(2, 0), (4, 0)]);
    assert_eq!(rows(&both), vec![vec![None, None, None, Some(1), Some(0)]]);
}

#[test]
fn no_goals_give_no_distances() {
    let map = map_of(&["...", "..."]);
    let field = map.get_dijkstra_map(vec![]);
    assert_eq!(rows(&field), vec![vec![None; 3], vec![None; 3]]);
}

#[test]
fn a_goal_listed_twice_is_one_goal() {
    let map = map_of(&["....."]);
    let field = map.get_dijkstra_map(vec![(4, 0), (4, 0), (0, 0)]);
    assert_eq!(rows(&field), vec![vec![Some(0), Some(1), Some(2), Some(1), Some(0)]]);
}

#[test]
fn distances_go_around_the_walls() {
    let map = map_of(&[
        ".#...",
        ".#.#.",
        "...#.",
    ]);
    let field = map.get_dijkstra_map(vec![(0, 0)]);
    assert_eq!(
        rows(&field),
        vec![
            vec![Some(0), None, Some(4), Some(4), Some(5)],
            vec![Some(1), None, Some(3), None, Some(5)],
            vec![Some(2), Some(2), Some(3), None, Some(6)],
        ]
    );
}
