//! King-move routes on a classified grid, and what it means for a number to be
//! the distance from a cell to the nearest goal.
//!
//! A cell is written `(column, row)`; a grid is a sequence of rows.

use vstd::prelude::*;
use crate::dijkstra_map::DijkstraTile;

verus! {

/// A grid is rectangular and has at least one row and one column.
pub open spec fn is_grid<T>(g: Seq<Seq<T>>) -> bool {
    &&& g.len() > 0
    &&& g[0].len() > 0
    &&& forall|j: int| 0 <= j < g.len() ==> (#[trigger] g[j]).len() == g[0].len()
}

/// Two grids have the same number of rows, and row by row the same length.
pub open spec fn same_shape<S, T>(a: Seq<Seq<S>>, b: Seq<Seq<T>>) -> bool {
    &&& a.len() == b.len()
    &&& forall|j: int| 0 <= j < a.len() ==> (#[trigger] a[j]).len() == (#[trigger] b[j]).len()
}

/// The rows of a nested vector, as a sequence of sequences.
pub open spec fn grid_view<T>(v: &Vec<Vec<T>>) -> Seq<Seq<T>> {
    Seq::new(v.len() as nat, |j: int| v[j]@)
}

/// The number of cells of a grid.
pub open spec fn area<T>(g: Seq<Seq<T>>) -> int {
    (g.len() * g[0].len()) as int
}

/// A position given by machine integers, as a cell.
pub open spec fn cell(p: (usize, usize)) -> (int, int) {
    (p.0 as int, p.1 as int)
}

/// The cell `c` lies on the grid.
pub open spec fn in_bounds<T>(g: Seq<Seq<T>>, c: (int, int)) -> bool {
    0 <= c.1 < g.len() && 0 <= c.0 < g[c.1].len()
}

/// What the grid holds at the cell `c`.
pub open spec fn at<T>(g: Seq<Seq<T>>, c: (int, int)) -> T {
    g[c.1][c.0]
}

/// Chebyshev distance between two cells: the number of king moves between
/// them on an empty board.
pub open spec fn chebyshev(a: (int, int), b: (int, int)) -> int {
    let dx = if a.0 >= b.0 { a.0 - b.0 } else { b.0 - a.0 };
    let dy = if a.1 >= b.1 { a.1 - b.1 } else { b.1 - a.1 };
    if dx >= dy { dx } else { dy }
}

/// One king move apart: any of the eight neighbours.
pub open spec fn adjacent(a: (int, int), b: (int, int)) -> bool {
    chebyshev(a, b) == 1
}

/// A cell that a route may pass through: inside the grid and not impassable.
pub open spec fn walkable(g: Seq<Seq<DijkstraTile>>, c: (int, int)) -> bool {
    in_bounds(g, c) && !(at(g, c) is Impassable)
}

/// The cell `c` is a goal of the grid.
pub open spec fn is_goal(g: Seq<Seq<DijkstraTile>>, c: (int, int)) -> bool {
    in_bounds(g, c) && at(g, c) is Goal
}

/// A route is a walk of king moves over walkable cells that ends on a goal.
pub open spec fn is_route(g: Seq<Seq<DijkstraTile>>, r: Seq<(int, int)>) -> bool {
    &&& r.len() > 0
    &&& forall|k: int| 0 <= k < r.len() ==> walkable(g, #[trigger] r[k])
    &&& forall|k: int| 0 <= k < r.len() - 1 ==> adjacent(#[trigger] r[k], r[k + 1])
    &&& is_goal(g, r.last())
}

/// Some route leads from `c` to a goal in at most `n` king moves.
pub open spec fn reaches_within(g: Seq<Seq<DijkstraTile>>, c: (int, int), n: int) -> bool {
    exists|r: Seq<(int, int)>| #[trigger] is_route(g, r) && r[0] == c && r.len() <= n + 1
}

/// Some route leads from `c` to a goal.
pub open spec fn reachable(g: Seq<Seq<DijkstraTile>>, c: (int, int)) -> bool {
    exists|n: int| reaches_within(g, c, n)
}

/// `d` is the length of a shortest route from `c` to a goal.
pub open spec fn is_distance(g: Seq<Seq<DijkstraTile>>, c: (int, int), d: int) -> bool {
    reaches_within(g, c, d) && !reaches_within(g, c, d - 1)
}

/// `f` gives every cell of `g` its distance to the nearest goal, and no value
/// to the cells that no route leaves.
pub open spec fn is_distance_field(g: Seq<Seq<DijkstraTile>>, f: Seq<Seq<Option<int>>>) -> bool {
    &&& same_shape(g, f)
    &&& forall|i: int, j: int|
        in_bounds(g, (i, j)) ==> match #[trigger] f[j][i] {
            Some(d) => is_distance(g, (i, j), d),
            None => !reachable(g, (i, j)),
        }
}

/// A grid's shape makes whatever has that shape a grid too.
pub proof fn lemma_shape_of_grid<S, T>(a: Seq<Seq<S>>, b: Seq<Seq<T>>)
    requires
        is_grid(a),
        same_shape(a, b),
    ensures
        is_grid(b),
        b.len() == a.len(),
        b[0].len() == a[0].len(),
        forall|c: (int, int)| in_bounds(a, c) <==> in_bounds(b, c),
{
    assert(a[0].len() == b[0].len());
    assert forall|j: int| 0 <= j < b.len() implies (#[trigger] b[j]).len() == b[0].len() by {
        assert(a[j].len() == b[j].len());
    }
    assert forall|c: (int, int)| in_bounds(a, c) <==> in_bounds(b, c) by {
        if 0 <= c.1 < a.len() {
            assert(a[c.1].len() == b[c.1].len());
        }
    }
}

/// Having the same shape carries over.
pub proof fn lemma_same_shape_chain<R, S, T>(a: Seq<Seq<R>>, b: Seq<Seq<S>>, c: Seq<Seq<T>>)
    requires
        same_shape(a, b),
        same_shape(b, c),
    ensures
        same_shape(a, c),
{
    assert forall|j: int| 0 <= j < a.len() implies (#[trigger] a[j]).len() == (#[trigger] c[j]).len() by {
        assert(a[j].len() == b[j].len());
        assert(b[j].len() == c[j].len());
    }
}

/// A goal reaches a goal without a move.
pub proof fn lemma_goal_reaches(g: Seq<Seq<DijkstraTile>>, c: (int, int))
    requires
        is_goal(g, c),
    ensures
        reaches_within(g, c, 0),
{
    let r = seq![c];
    assert(r[0] == c);
    assert(r.last() == c);
    assert(is_route(g, r));
}

/// Only a goal reaches a goal without a move, and nothing does in less.
pub proof fn lemma_reaches_zero(g: Seq<Seq<DijkstraTile>>, c: (int, int), n: int)
    requires
        reaches_within(g, c, n),
        n <= 0,
    ensures
        n == 0,
        is_goal(g, c),
{
    let r = choose|r: Seq<(int, int)>| #[trigger] is_route(g, r) && r[0] == c && r.len() <= n + 1;
    assert(r.last() == r[0]);
}

/// What reaches a goal is walkable.
pub proof fn lemma_reaches_walkable(g: Seq<Seq<DijkstraTile>>, c: (int, int), n: int)
    requires
        reaches_within(g, c, n),
    ensures
        walkable(g, c),
        n >= 0,
{
    let r = choose|r: Seq<(int, int)>| #[trigger] is_route(g, r) && r[0] == c && r.len() <= n + 1;
    assert(walkable(g, r[0]));
}

/// What reaches a goal within so many moves reaches it within more.
pub proof fn lemma_reaches_more(g: Seq<Seq<DijkstraTile>>, c: (int, int), n: int, m: int)
    requires
        reaches_within(g, c, n),
        n <= m,
    ensures
        reaches_within(g, c, m),
{
    let r = choose|r: Seq<(int, int)>| #[trigger] is_route(g, r) && r[0] == c && r.len() <= n + 1;
    assert(is_route(g, r) && r[0] == c && r.len() <= m + 1);
}

/// A walkable cell next to one that reaches a goal reaches it with one more move.
pub proof fn lemma_step_away(g: Seq<Seq<DijkstraTile>>, c: (int, int), next: (int, int), n: int)
    requires
        walkable(g, c),
        adjacent(c, next),
        reaches_within(g, next, n),
    ensures
        reaches_within(g, c, n + 1),
{
    let r = choose|r: Seq<(int, int)>| #[trigger] is_route(g, r) && r[0] == next && r.len() <= n + 1;
    let longer = seq![c] + r;
    assert(longer[0] == c);
    assert(longer.last() == r.last());
    assert forall|k: int| 0 <= k < longer.len() implies walkable(g, #[trigger] longer[k]) by {
        if k > 0 {
            assert(longer[k] == r[k - 1]);
        }
    }
    assert forall|k: int| 0 <= k < longer.len() - 1 implies adjacent(
        #[trigger] longer[k],
        longer[k + 1],
    ) by {
        assert(longer[k + 1] == r[k]);
        if k > 0 {
            assert(longer[k] == r[k - 1]);
            assert(adjacent(r[k - 1], r[k - 1 + 1]));
        }
    }
    assert(is_route(g, longer));
}

/// A cell that reaches a goal, and is none itself, has a neighbour that
/// reaches one with one move less.
pub proof fn lemma_step_towards(g: Seq<Seq<DijkstraTile>>, c: (int, int), n: int) -> (next: (
    int,
    int,
))
    requires
        reaches_within(g, c, n),
        !is_goal(g, c),
    ensures
        adjacent(c, next),
        reaches_within(g, next, n - 1),
{
    let r = choose|r: Seq<(int, int)>| #[trigger] is_route(g, r) && r[0] == c && r.len() <= n + 1;
    assert(r.len() >= 2) by {
        if r.len() == 1 {
            assert(r.last() == r[0]);
        }
    }
    let rest = r.subrange(1, r.len() as int);
    assert(rest.last() == r.last());
    assert forall|k: int| 0 <= k < rest.len() implies walkable(g, #[trigger] rest[k]) by {
        assert(rest[k] == r[k + 1]);
    }
    assert forall|k: int| 0 <= k < rest.len() - 1 implies adjacent(
        #[trigger] rest[k],
        rest[k + 1],
    ) by {
        assert(rest[k] == r[k + 1]);
        assert(rest[k + 1] == r[k + 1 + 1]);
        assert(adjacent(r[k + 1], r[k + 1 + 1]));
    }
    assert(is_route(g, rest));
    assert(rest[0] == r[1]);
    assert(adjacent(r[0int], r[0int + 1]));
    r[1]
}

/// Once a round of distances adds no cell, no later round does.
pub proof fn lemma_no_further(g: Seq<Seq<DijkstraTile>>, d: int, c: (int, int), n: int)
    requires
        d >= 0,
        forall|x: (int, int)| #[trigger] reaches_within(g, x, d) ==> reaches_within(g, x, d - 1),
        reaches_within(g, c, n),
    ensures
        reaches_within(g, c, d - 1),
    decreases n,
{
    lemma_reaches_walkable(g, c, n);
    if n <= d {
        lemma_reaches_more(g, c, n, d);
    } else {
        if is_goal(g, c) {
            lemma_goal_reaches(g, c);
            lemma_reaches_more(g, c, 0, d);
        } else {
            let next = lemma_step_towards(g, c, n);
            lemma_no_further(g, d, next, n - 1);
            lemma_step_away(g, c, next, d - 1);
        }
    }
}

/// A cell has at most one distance.
pub proof fn lemma_distance_unique(g: Seq<Seq<DijkstraTile>>, c: (int, int), d: int, e: int)
    requires
        is_distance(g, c, d),
        is_distance(g, c, e),
    ensures
        d == e,
{
    if d < e {
        lemma_reaches_more(g, c, d, e - 1);
    }
    if e < d {
        lemma_reaches_more(g, c, e, d - 1);
    }
}


/// On a grid without a goal no cell has a distance.
pub proof fn lemma_no_goal_no_distance(g: Seq<Seq<DijkstraTile>>, f: Seq<Seq<Option<int>>>)
    requires
        is_distance_field(g, f),
        forall|c: (int, int)| !is_goal(g, c),
    ensures
        forall|c: (int, int)| in_bounds(g, c) ==> #[trigger] at(f, c) is None,
{
    assert forall|c: (int, int)| in_bounds(g, c) implies #[trigger] at(f, c) is None by {
        if let Some(d) = f[c.1][c.0] {
            let r = choose|r: Seq<(int, int)>| #[trigger]
                is_route(g, r) && r[0] == c && r.len() <= d + 1;
            assert(is_goal(g, r.last()));
        }
    }
}

/// A goal's distance is zero.
pub proof fn lemma_goal_distance_zero(
    g: Seq<Seq<DijkstraTile>>,
    f: Seq<Seq<Option<int>>>,
    c: (int, int),
)
    requires
        is_distance_field(g, f),
        is_goal(g, c),
    ensures
        at(f, c) == Some(0int),
{
    lemma_goal_reaches(g, c);
    match f[c.1][c.0] {
        Some(d) => {
            lemma_reaches_walkable(g, c, d);
            if d > 0 {
                lemma_reaches_more(g, c, 0, d - 1);
            }
        },
        None => {
            assert(reachable(g, c));
        },
    }
}


/// Next to a cell with a distance, every walkable cell has one too, and the
/// two differ by one at most.
pub proof fn lemma_neighbour_distance(
    g: Seq<Seq<DijkstraTile>>,
    f: Seq<Seq<Option<int>>>,
    a: (int, int),
    b: (int, int),
)
    requires
        is_distance_field(g, f),
        in_bounds(g, a),
        adjacent(a, b),
        walkable(g, b),
        at(f, a) is Some,
    ensures
        at(f, b) is Some,
        at(f, a)->0 - 1 <= at(f, b)->0 <= at(f, a)->0 + 1,
{
    let da = f[a.1][a.0]->0;
    assert(is_distance(g, a, da));
    lemma_reaches_walkable(g, a, da);
    lemma_step_away(g, b, a, da);
    match f[b.1][b.0] {
        Some(db) => {
            assert(is_distance(g, b, db));
            if db > da + 1 {
                lemma_reaches_more(g, b, da + 1, db - 1);
            }
            lemma_step_away(g, a, b, db);
            if da > db + 1 {
                lemma_reaches_more(g, a, db + 1, da - 1);
            }
        },
        None => {
            assert(reachable(g, b));
        },
    }
}

/// Along a shortest route the distance falls by one with every move.
pub proof fn lemma_along_shortest_route(g: Seq<Seq<DijkstraTile>>, r: Seq<(int, int)>, k: int)
    requires
        is_route(g, r),
        is_distance(g, r[0], r.len() - 1),
        0 <= k < r.len(),
    ensures
        is_distance(g, r[k], r.len() - 1 - k),
    decreases k,
{
    if k > 0 {
        lemma_along_shortest_route(g, r, k - 1);
        let rest = r.subrange(k, r.len() as int);
        assert(rest.last() == r.last());
        assert forall|n: int| 0 <= n < rest.len() implies walkable(g, #[trigger] rest[n]) by {
            assert(rest[n] == r[k + n]);
        }
        assert forall|n: int| 0 <= n < rest.len() - 1 implies adjacent(
            #[trigger] rest[n],
            rest[n + 1],
        ) by {
            assert(rest[n] == r[k + n]);
            assert(rest[n + 1] == r[k + n + 1]);
            assert(adjacent(r[k + n], r[k + n + 1]));
        }
        assert(is_route(g, rest));
        assert(rest[0] == r[k]);
        assert(reaches_within(g, r[k], r.len() - 1 - k));
        if reaches_within(g, r[k], r.len() - 1 - k - 1) {
            assert(walkable(g, r[k - 1]));
            assert(adjacent(r[k - 1], r[k - 1 + 1]));
            lemma_step_away(g, r[k - 1], r[k], r.len() - 1 - k - 1);
        }
    }
}


/// A grid has one field of distances.
pub proof fn lemma_distance_field_unique(
    g: Seq<Seq<DijkstraTile>>,
    f: Seq<Seq<Option<int>>>,
    h: Seq<Seq<Option<int>>>,
)
    requires
        is_distance_field(g, f),
        is_distance_field(g, h),
    ensures
        f == h,
{
    assert(f.len() == h.len());
    assert forall|j: int| 0 <= j < f.len() implies #[trigger] f[j] =~= h[j] by {
        assert(g[j].len() == f[j].len());
        assert(g[j].len() == h[j].len());
        assert forall|i: int| 0 <= i < f[j].len() implies f[j][i] == h[j][i] by {
            assert(in_bounds(g, (i, j)));
            match (f[j][i], h[j][i]) {
                (Some(d), Some(e)) => {
                    lemma_distance_unique(g, (i, j), d, e);
                },
                (Some(d), None) => {
                    assert(reachable(g, (i, j)));
                },
                (None, Some(e)) => {
                    assert(reachable(g, (i, j)));
                },
                (None, None) => {},
            }
        }
    }
    assert(f =~= h);
}

} // verus!
