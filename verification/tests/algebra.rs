use spellbound::dijkstra_map::{DijkstraMap, DijkstraTile};

const P: DijkstraTile = DijkstraTile::Passable;
const X: DijkstraTile = DijkstraTile::Impassable;
const G: DijkstraTile = DijkstraTile::Goal;

fn rows(field: &DijkstraMap) -> Vec<Vec<Option<i64>>> {
    (0..field.height()).map(|j| (0..field.width()).map(|i| field.value(i, j)).collect()).collect()
}

fn left() -> DijkstraMap {
    DijkstraMap::new(&vec![vec![G, P, P, X, P], vec![P, P, P, P, P]])
}

fn right() -> DijkstraMap {
    DijkstraMap::new(&vec![vec![X, P, P, P, G], vec![P, P, X, P, P]])
}

#[test]
fn a_scalar_times_a_field_in_all_four_forms() {
    let want = vec![
        vec![Some(0), Some(3), Some(6), None, Some(12)],
        vec![Some(3), Some(3), Some(6), Some(9), Some(12)],
    ];
    let field = left();
    assert_eq!(rows(&(3 * &field)), want);
    assert_eq!(rows(&(&field * 3)), want);
    assert_eq!(rows(&(3 * left())), want);
    assert_eq!(rows(&(left() * 3)), want);
    // by reference the field is still there
    assert_eq!(rows(&field), rows(&left()));
}

#[test]
fn a_field_plus_a_field_in_all_four_forms() {
    let want = vec![
        vec![None, Some(4), Some(4), None, Some(4)],
        vec![Some(5), Some(4), None, Some(4), Some(5)],
    ];
    let (a, b) = (left(), right());
    assert_eq!(rows(&(&a + &b)), want);
    assert_eq!(rows(&(left() + &b)), want);
    assert_eq!(rows(&(&a + right())), want);
    assert_eq!(rows(&(left() + right())), want);
    assert_eq!(rows(&(&b + &a)), want);
}

#[test]
fn formulas_of_fields() {
    let (a, b) = (left(), right());
    let desire = &(&a * -2) + &b;
    assert_eq!(
        rows(&desire),
        vec![
            vec![None, Some(1), Some(-2), None, Some(-8)],
            vec![Some(2), Some(1), None, Some(-5), Some(-7)],
        ]
    );
    assert!(2 * (&a + &b) == &(2 * &a) + &(2 * &b));
    assert!(1 * &a == a);
    assert!(&a * 1 == a);
}

#[test]
fn fields_are_equal_by_what_they_hold() {
    let a = left();
    assert!(a == left());
    assert!(a == a.clone());
    assert!(a != right());
    assert!(a != a.with_obstacles(vec![(1, 1)]));
    assert!(a.with_obstacles(vec![(3, 0)]) == a);
    assert!(a.with_obstacles(vec![(1, 1), (2, 0)]) == a.with_obstacles(vec![(2, 0), (1, 1), (2, 0)]));
    // the same values on another shape are another field
    let flat = DijkstraMap::new(&vec![vec![G, P]]);
    let tall = DijkstraMap::new(&vec![vec![G], vec![P]]);
    assert!(flat != tall);
    assert!(&a * 0 != a);
}

#[test]
fn masking_twice_is_masking_once() {
    let a = left();
    let cells = vec![(0, 0), (4, 1), (0, 0)];
    assert!(a.with_obstacles(cells.clone()).with_obstacles(cells.clone()) == a.with_obstacles(cells));
}
