//! Fields as values: what masking, scaling, adding and stepping mean on a
//! grid of optional distances, and the laws these operations obey.

use vstd::prelude::*;
use crate::dijkstra_map::DijkstraTile;
use crate::king_distance::{
    adjacent, at, cell, in_bounds, is_distance, is_distance_field, is_goal, lemma_goal_reaches,
    lemma_neighbour_distance, lemma_reaches_more, lemma_reaches_walkable, lemma_step_towards,
    same_shape,
};

verus! {

/// The value of a field at a cell; none outside the grid.
pub open spec fn value_at(f: Seq<Seq<Option<int>>>, c: (int, int)) -> Option<int> {
    if in_bounds(f, c) {
        at(f, c)
    } else {
        None
    }
}

/// A list of positions, as cells.
pub open spec fn cells(s: Seq<(usize, usize)>) -> Seq<(int, int)> {
    s.map_values(|p: (usize, usize)| cell(p))
}

/// One more position in a list adds its cell and nothing else.
pub proof fn lemma_cells_take(s: Seq<(usize, usize)>, n: int, c: (int, int))
    requires
        0 <= n < s.len(),
    ensures
        cells(s.take(n + 1)).contains(c) <==> (cells(s.take(n)).contains(c) || cell(s[n]) == c),
{
    let shorter = cells(s.take(n));
    let longer = cells(s.take(n + 1));
    assert(longer =~= shorter.push(cell(s[n]))) by {
        assert(s.take(n + 1) =~= s.take(n).push(s[n]));
    }
    if shorter.contains(c) {
        let m = choose|m: int| 0 <= m < shorter.len() && shorter[m] == c;
        assert(longer[m] == c);
    }
    if cell(s[n]) == c {
        assert(longer[n] == c);
    }
    if longer.contains(c) && cell(s[n]) != c {
        let m = choose|m: int| 0 <= m < longer.len() && longer[m] == c;
        assert(shorter[m] == c);
    }
}

/// The field `f` without a value at the listed cells.
pub open spec fn masked(f: Seq<Seq<Option<int>>>, cells: Seq<(int, int)>) -> Seq<Seq<Option<int>>> {
    Seq::new(
        f.len(),
        |j: int|
            Seq::new(
                f[j].len(),
                |i: int|
                    if cells.contains((i, j)) {
                        None
                    } else {
                        f[j][i]
                    },
            ),
    )
}

/// Every value of `f` multiplied by `s`.
pub open spec fn scaled(f: Seq<Seq<Option<int>>>, s: int) -> Seq<Seq<Option<int>>> {
    Seq::new(
        f.len(),
        |j: int|
            Seq::new(
                f[j].len(),
                |i: int|
                    match f[j][i] {
                        Some(v) => Some(s * v),
                        None => None,
                    },
            ),
    )
}

/// The sum of two values, where both are there.
pub open spec fn sum(a: Option<int>, b: Option<int>) -> Option<int> {
    match (a, b) {
        (Some(v), Some(w)) => Some(v + w),
        _ => None,
    }
}

/// Cell by cell the sum of `a` and `b`, over the grid of `a`.
pub open spec fn summed(a: Seq<Seq<Option<int>>>, b: Seq<Seq<Option<int>>>) -> Seq<
    Seq<Option<int>>,
> {
    Seq::new(a.len(), |j: int| Seq::new(a[j].len(), |i: int| sum(a[j][i], b[j][i])))
}

/// Every value of `f` times `s` fits a cell.
pub open spec fn scale_fits(f: Seq<Seq<Option<int>>>, s: int) -> bool {
    forall|c: (int, int)|
        in_bounds(f, c) ==> (#[trigger] at(f, c) matches Some(v) ==> i64::MIN <= s * v <= i64::MAX)
}

/// Every sum of a value of `a` and the value of `b` at the same cell fits a cell.
pub open spec fn sum_fits(a: Seq<Seq<Option<int>>>, b: Seq<Seq<Option<int>>>) -> bool {
    forall|c: (int, int)|
        in_bounds(a, c) ==> (#[trigger] sum(at(a, c), at(b, c)) matches Some(v) ==> i64::MIN <= v
            <= i64::MAX)
}

/// The eight king moves, in the order in which a step tries them: the four
/// straight ones, then the four diagonal ones.
pub open spec fn offset(k: int) -> (int, int) {
    if k == 0 {
        (-1, 0)
    } else if k == 1 {
        (0, 1)
    } else if k == 2 {
        (1, 0)
    } else if k == 3 {
        (0, -1)
    } else if k == 4 {
        (-1, 1)
    } else if k == 5 {
        (1, 1)
    } else if k == 6 {
        (1, -1)
    } else {
        (-1, -1)
    }
}

/// The `k`-th neighbour of a cell.
pub open spec fn neighbour(o: (int, int), k: int) -> (int, int) {
    (o.0 + offset(k).0, o.1 + offset(k).1)
}

/// To stand on `c` is better than to stand on `best`: `c` has a value, and
/// `best` has none or a greater one.
pub open spec fn improves(f: Seq<Seq<Option<int>>>, best: (int, int), c: (int, int)) -> bool {
    value_at(f, c) matches Some(m) && (value_at(f, best) matches Some(n) ==> m < n)
}

/// Of the first `n` neighbours of `o`, the `k`-th has the lowest value, and is
/// the first that has it.
pub open spec fn lowest_among(f: Seq<Seq<Option<int>>>, o: (int, int), k: int, n: int) -> bool {
    &&& 0 <= k < n
    &&& value_at(f, neighbour(o, k)) matches Some(v)
    &&& forall|m: int|
        0 <= m < n ==> (#[trigger] value_at(f, neighbour(o, m)) matches Some(w) ==> v <= w)
    &&& forall|m: int| 0 <= m < k ==> #[trigger] value_at(f, neighbour(o, m)) != Some(v)
}

/// The `k`-th neighbour of `o` is where a step from `o` leads: it improves on
/// `o`, no neighbour has a lower value, and none tried before it has the same.
pub open spec fn preferred(f: Seq<Seq<Option<int>>>, o: (int, int), k: int) -> bool {
    in_bounds(f, o) && lowest_among(f, o, k, 8) && improves(f, o, neighbour(o, k))
}

/// `step` is the next step from `o`: the preferred neighbour if there is one,
/// else `o` itself.
pub open spec fn is_next_step(f: Seq<Seq<Option<int>>>, o: (int, int), step: (int, int)) -> bool {
    if exists|k: int| preferred(f, o, k) {
        exists|k: int| preferred(f, o, k) && step == neighbour(o, k)
    } else {
        step == o
    }
}

/// At most one neighbour is preferred.
pub proof fn lemma_preferred_unique(f: Seq<Seq<Option<int>>>, o: (int, int), k: int, m: int)
    requires
        preferred(f, o, k),
        preferred(f, o, m),
    ensures
        k == m,
{
    let v = value_at(f, neighbour(o, k));
    let w = value_at(f, neighbour(o, m));
    assert(v == w);
}

/// The next step is determined by the field and the origin.
pub proof fn lemma_next_step_unique(
    f: Seq<Seq<Option<int>>>,
    o: (int, int),
    a: (int, int),
    b: (int, int),
)
    requires
        is_next_step(f, o, a),
        is_next_step(f, o, b),
    ensures
        a == b,
{
    if exists|k: int| preferred(f, o, k) {
        let k = choose|k: int| preferred(f, o, k) && a == neighbour(o, k);
        let m = choose|m: int| preferred(f, o, m) && b == neighbour(o, m);
        lemma_preferred_unique(f, o, k, m);
    }
}

/// A cell whose neighbours all lack a value stays where it is.
pub proof fn lemma_isolated_stands_still(f: Seq<Seq<Option<int>>>, o: (int, int), step: (int, int))
    requires
        is_next_step(f, o, step),
        forall|k: int| 0 <= k < 8 ==> #[trigger] value_at(f, neighbour(o, k)) is None,
    ensures
        step == o,
{
    if exists|k: int| preferred(f, o, k) {
        let k = choose|k: int| preferred(f, o, k);
        assert(value_at(f, neighbour(o, k)) is None);
    }
}

/// Masking the same cells twice is masking them once.
pub proof fn lemma_masked_twice(f: Seq<Seq<Option<int>>>, cells: Seq<(int, int)>)
    ensures
        masked(masked(f, cells), cells) == masked(f, cells),
{
    assert(masked(masked(f, cells), cells) =~~= masked(f, cells));
}

/// Masking leaves a cell as it was, or without a value.
pub proof fn lemma_masked_cell(f: Seq<Seq<Option<int>>>, cells: Seq<(int, int)>, c: (int, int))
    requires
        in_bounds(f, c),
    ensures
        in_bounds(masked(f, cells), c),
        at(masked(f, cells), c) == (if cells.contains(c) {
            None
        } else {
            at(f, c)
        }),
{
}

/// To scale by one changes nothing.
pub proof fn lemma_scaled_by_one(f: Seq<Seq<Option<int>>>)
    ensures
        scaled(f, 1) == f,
{
    assert(scaled(f, 1) =~~= f);
}

/// Scaling distributes over the sum of two fields of one shape.
pub proof fn lemma_scaled_sum(a: Seq<Seq<Option<int>>>, b: Seq<Seq<Option<int>>>, s: int)
    requires
        same_shape(a, b),
    ensures
        scaled(summed(a, b), s) == summed(scaled(a, s), scaled(b, s)),
{
    let left = scaled(summed(a, b), s);
    let right = summed(scaled(a, s), scaled(b, s));
    assert(left.len() == right.len());
    assert forall|j: int| 0 <= j < left.len() implies left[j] =~= right[j] by {
        assert(a[j].len() == b[j].len());
        assert forall|i: int| 0 <= i < left[j].len() implies left[j][i] == right[j][i] by {
            match (a[j][i], b[j][i]) {
                (Some(v), Some(w)) => {
                    assert(s * (v + w) == s * v + s * w) by (nonlinear_arith);
                },
                _ => {},
            }
        }
    }
    assert(left =~= right);
}


/// Each of the eight neighbours is one king move away.
pub proof fn lemma_neighbour_adjacent(o: (int, int), k: int)
    requires
        0 <= k < 8,
    ensures
        adjacent(o, neighbour(o, k)),
{
}

/// Whatever is one king move away is one of the eight neighbours.
pub proof fn lemma_adjacent_neighbour(o: (int, int), c: (int, int)) -> (k: int)
    requires
        adjacent(o, c),
    ensures
        0 <= k < 8,
        c == neighbour(o, k),
{
    let d = (c.0 - o.0, c.1 - o.1);
    if d == (-1int, 0int) {
        0
    } else if d == (0int, 1int) {
        1
    } else if d == (1int, 0int) {
        2
    } else if d == (0int, -1int) {
        3
    } else if d == (-1int, 1int) {
        4
    } else if d == (1int, 1int) {
        5
    } else if d == (1int, -1int) {
        6
    } else {
        assert(d == (-1int, -1int));
        7
    }
}

/// The first of the first `n` neighbours of `o` that has the value `v`.
proof fn lemma_first_with(f: Seq<Seq<Option<int>>>, o: (int, int), v: int, n: int) -> (k: int)
    requires
        0 <= n <= 8,
        exists|j: int| 0 <= j < n && value_at(f, neighbour(o, j)) == Some(v),
    ensures
        0 <= k < n,
        value_at(f, neighbour(o, k)) == Some(v),
        forall|m: int| 0 <= m < k ==> #[trigger] value_at(f, neighbour(o, m)) != Some(v),
    decreases n,
{
    if exists|j: int| 0 <= j < n - 1 && value_at(f, neighbour(o, j)) == Some(v) {
        lemma_first_with(f, o, v, n - 1)
    } else {
        let j = choose|j: int| 0 <= j < n && value_at(f, neighbour(o, j)) == Some(v);
        assert(j == n - 1);
        assert forall|m: int| 0 <= m < n - 1 implies #[trigger] value_at(f, neighbour(o, m)) != Some(
            v,
        ) by {}
        n - 1
    }
}

/// On a field of distances a step from a cell that is `d > 0` moves away
/// from the nearest goal leads to a neighbour that is `d - 1` moves away: to
/// the first such neighbour in the order in which a step tries them, so to a
/// straight one wherever a straight one will do.
pub proof fn lemma_step_descends(
    g: Seq<Seq<DijkstraTile>>,
    f: Seq<Seq<Option<int>>>,
    o: (int, int),
    step: (int, int),
)
    requires
        is_distance_field(g, f),
        in_bounds(g, o),
        at(f, o) is Some,
        at(f, o)->0 > 0,
        is_next_step(f, o, step),
    ensures
        adjacent(o, step),
        value_at(f, step) == Some(at(f, o)->0 - 1),
        forall|m: int|
            0 <= m < 8 && #[trigger] value_at(f, neighbour(o, m)) == Some(at(f, o)->0 - 1)
                ==> exists|k: int| 0 <= k <= m && step == neighbour(o, k),
{
    let d = f[o.1][o.0]->0;
    assert(in_bounds(f, o)) by {
        assert(g[o.1].len() == f[o.1].len());
    }
    assert(is_distance(g, o, d));
    if is_goal(g, o) {
        lemma_goal_reaches(g, o);
        lemma_reaches_more(g, o, 0, d - 1);
    }
    lemma_reaches_walkable(g, o, d);
    let towards = lemma_step_towards(g, o, d);
    lemma_reaches_walkable(g, towards, d - 1);
    lemma_neighbour_distance(g, f, o, towards);
    assert(g[towards.1].len() == f[towards.1].len());
    let x = f[towards.1][towards.0]->0;
    assert(is_distance(g, towards, x));
    if x > d - 1 {
        lemma_reaches_more(g, towards, d - 1, x - 1);
    }
    let j = lemma_adjacent_neighbour(o, towards);
    assert(value_at(f, neighbour(o, j)) == Some(d - 1));
    let k = lemma_first_with(f, o, d - 1, 8);
    assert forall|m: int| 0 <= m < 8 implies (#[trigger] value_at(f, neighbour(o, m)) matches Some(
        w,
    ) ==> d - 1 <= w) by {
        let c = neighbour(o, m);
        if let Some(w) = value_at(f, c) {
            assert(g[c.1].len() == f[c.1].len());
            assert(is_distance(g, c, w));
            lemma_reaches_walkable(g, c, w);
            lemma_neighbour_adjacent(o, m);
            lemma_neighbour_distance(g, f, o, c);
        }
    }
    assert(preferred(f, o, k));
    let chosen = choose|n: int| preferred(f, o, n) && step == neighbour(o, n);
    lemma_preferred_unique(f, o, k, chosen);
    lemma_neighbour_adjacent(o, k);
    assert forall|m: int|
        0 <= m < 8 && #[trigger] value_at(f, neighbour(o, m)) == Some(d - 1) implies exists|
        n: int,
    | 0 <= n <= m && step == neighbour(o, n) by {
        assert(k <= m);
    }
}


/// A step from a cell of the grid stays on the grid, and is one king move at most.
pub proof fn lemma_next_step_near(f: Seq<Seq<Option<int>>>, o: (int, int), step: (int, int))
    requires
        in_bounds(f, o),
        is_next_step(f, o, step),
    ensures
        in_bounds(f, step),
        step == o || adjacent(o, step),
{
    if exists|k: int| preferred(f, o, k) {
        let k = choose|k: int| preferred(f, o, k) && step == neighbour(o, k);
        lemma_neighbour_adjacent(o, k);
    }
}


/// Masking, scaling and adding keep the shape of a field.
pub proof fn lemma_shapes_kept(
    a: Seq<Seq<Option<int>>>,
    b: Seq<Seq<Option<int>>>,
    s: int,
    taken: Seq<(int, int)>,
)
    ensures
        same_shape(a, masked(a, taken)),
        same_shape(a, scaled(a, s)),
        same_shape(a, summed(a, b)),
{
}

} // verus!
