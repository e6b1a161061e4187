//! The flood that fills a field: from the goals outwards, one king move per round.

use vstd::prelude::*;
use vstd::set_lib::*;
use crate::dijkstra_map::{field_of_tiles, DijkstraTile};
use crate::king_distance::{
    adjacent, area, at, cell, grid_view, in_bounds, is_distance, is_distance_field, is_goal,
    is_grid, lemma_goal_reaches, lemma_no_further, lemma_reaches_more, lemma_reaches_walkable,
    lemma_reaches_zero, lemma_shape_of_grid, lemma_step_away, lemma_step_towards, reachable,
    reaches_within, same_shape, walkable,
};

verus! {

/// One of the first `k` entries of `s` is the cell `c`.
spec fn holds_before(s: Seq<(usize, usize)>, k: int, c: (int, int)) -> bool {
    exists|n: int| 0 <= n < k && n < s.len() && cell(#[trigger] s[n]) == c
}

spec fn holds(s: Seq<(usize, usize)>, c: (int, int)) -> bool {
    holds_before(s, s.len() as int, c)
}

/// Every entry of `s` lies exactly `d` king moves from the nearest goal.
spec fn all_at_distance(g: Seq<Seq<DijkstraTile>>, s: Seq<(usize, usize)>, d: int) -> bool {
    forall|n: int| 0 <= n < s.len() ==> is_distance(g, cell(#[trigger] s[n]), d)
}

/// `s` lists every cell that lies exactly `d` king moves from the nearest goal.
spec fn lists_distance(g: Seq<Seq<DijkstraTile>>, s: Seq<(usize, usize)>, d: int) -> bool {
    forall|c: (int, int)| #[trigger] is_distance(g, c, d) ==> holds(s, c)
}

/// The marked cells are those within `d` moves of a goal and those listed in `next`.
spec fn marks_ok(
    g: Seq<Seq<DijkstraTile>>,
    seen: Seq<Seq<bool>>,
    next: Seq<(usize, usize)>,
    d: int,
) -> bool {
    &&& same_shape(g, seen)
    &&& forall|c: (int, int)|
        in_bounds(g, c) ==> (#[trigger] at(seen, c) <==> (reaches_within(g, c, d) || holds(
            next,
            c,
        )))
}

/// The cells written so far carry their distance: those nearer than `d`, and
/// the first `k` of the cells at distance `d`.
spec fn written_ok(
    g: Seq<Seq<DijkstraTile>>,
    out: Seq<Seq<DijkstraTile>>,
    current: Seq<(usize, usize)>,
    k: int,
    d: int,
) -> bool {
    &&& same_shape(g, out)
    &&& forall|c: (int, int)|
        in_bounds(g, c) ==> match #[trigger] at(out, c) {
            DijkstraTile::Value(x) => is_distance(g, c, x as int) && (x < d || (x == d
                && holds_before(current, k, c))),
            DijkstraTile::Impassable => !reaches_within(g, c, d - 1) && !holds_before(
                current,
                k,
                c,
            ),
            _ => false,
        }
}

/// Every walkable neighbour of the first `k` cells of `current` is marked.
spec fn expanded(
    g: Seq<Seq<DijkstraTile>>,
    seen: Seq<Seq<bool>>,
    current: Seq<(usize, usize)>,
    k: int,
) -> bool {
    forall|c: (int, int), n: int|
        0 <= n < k && n < current.len() && walkable(g, c) && #[trigger] adjacent(
            c,
            cell(current[n]),
        ) ==> at(seen, c)
}

spec fn code(w: int, c: (int, int)) -> int {
    c.1 * w + c.0
}

/// `vis` holds the codes of the marked cells, and nothing else.
spec fn counted(seen: Seq<Seq<bool>>, vis: Set<int>) -> bool {
    &&& vis.finite()
    &&& forall|x: int| #[trigger] vis.contains(x) ==> 0 <= x < area(seen)
    &&& forall|c: (int, int)|
        in_bounds(seen, c) ==> (#[trigger] at(seen, c) <==> vis.contains(code(seen[0].len() as int, c)))
}

proof fn lemma_code(w: int, h: int, c: (int, int))
    requires
        0 <= c.0 < w,
        0 <= c.1 < h,
    ensures
        0 <= code(w, c) < h * w,
{
    assert(c.1 * w + c.0 < h * w && c.1 * w >= 0) by (nonlinear_arith)
        requires
            0 <= c.0 < w,
            0 <= c.1 < h,
    ;
}

proof fn lemma_code_differs(w: int, a: (int, int), b: (int, int))
    requires
        0 <= a.0 < w,
        0 <= b.0 < w,
        a != b,
    ensures
        code(w, a) != code(w, b),
{
    if a.1 != b.1 {
        assert(a.1 * w + a.0 != b.1 * w + b.0) by (nonlinear_arith)
            requires
                0 <= a.0 < w,
                0 <= b.0 < w,
                a.1 != b.1,
        ;
    }
}

proof fn lemma_count_bound(seen: Seq<Seq<bool>>, vis: Set<int>)
    requires
        is_grid(seen),
        counted(seen, vis),
    ensures
        vis.len() <= area(seen),
{
    let all = set_int_range(0, area(seen));
    lemma_int_range(0, area(seen));
    assert(vis.subset_of(all));
    lemma_len_subset(vis, all);
}

/// Marking one more cell keeps the count of marked cells in step.
proof fn lemma_mark(seen: Seq<Seq<bool>>, after: Seq<Seq<bool>>, vis: Set<int>, c: (int, int))
    requires
        is_grid(seen),
        counted(seen, vis),
        in_bounds(seen, c),
        !at(seen, c),
        same_shape(seen, after),
        forall|x: (int, int)| in_bounds(seen, x) ==> #[trigger] at(after, x) == (x == c || at(seen, x)),
    ensures
        counted(after, vis.insert(code(seen[0].len() as int, c))),
        vis.insert(code(seen[0].len() as int, c)).len() == vis.len() + 1,
{
    let w = seen[0].len() as int;
    let grown = vis.insert(code(w, c));
    lemma_code(w, seen.len() as int, c);
    assert(after[0].len() == seen[0].len());
    assert(area(after) == area(seen));
    assert forall|x: (int, int)| in_bounds(after, x) implies (#[trigger] at(after, x)
        <==> grown.contains(code(w, x))) by {
        assert(in_bounds(seen, x));
        if x != c {
            lemma_code_differs(w, x, c);
        }
    }
}

/// What remains to be shown when a round ends: the cells gathered for the next
/// round are exactly those one move further out.
proof fn lemma_round_done(
    g: Seq<Seq<DijkstraTile>>,
    seen: Seq<Seq<bool>>,
    out: Seq<Seq<DijkstraTile>>,
    current: Seq<(usize, usize)>,
    next: Seq<(usize, usize)>,
    d: int,
)
    requires
        d >= 0,
        all_at_distance(g, current, d),
        lists_distance(g, current, d),
        all_at_distance(g, next, d + 1),
        marks_ok(g, seen, next, d),
        written_ok(g, out, current, current.len() as int, d),
        expanded(g, seen, current, current.len() as int),
    ensures
        lists_distance(g, next, d + 1),
        marks_ok(g, seen, Seq::empty(), d + 1),
        written_ok(g, out, next, 0, d + 1),
{
    assert forall|c: (int, int)| in_bounds(g, c) implies (#[trigger] at(seen, c) <==> (
    reaches_within(g, c, d + 1) || holds(Seq::empty(), c))) by {
        if at(seen, c) {
            if reaches_within(g, c, d) {
                lemma_reaches_more(g, c, d, d + 1);
            } else {
                assert(holds(next, c));
            }
        }
        if reaches_within(g, c, d + 1) && !reaches_within(g, c, d) {
            lemma_reaches_walkable(g, c, d + 1);
            if is_goal(g, c) {
                lemma_goal_reaches(g, c);
                lemma_reaches_more(g, c, 0, d);
            }
            let towards = lemma_step_towards(g, c, d + 1);
            if reaches_within(g, towards, d - 1) {
                lemma_step_away(g, c, towards, d - 1);
            }
            assert(is_distance(g, towards, d));
            assert(holds(current, towards));
            let n = choose|n: int|
                0 <= n < current.len() && n < current.len() && cell(#[trigger] current[n])
                    == towards;
            assert(adjacent(c, cell(current[n])));
        }
    }
    assert forall|c: (int, int)| #[trigger] is_distance(g, c, d + 1) implies holds(next, c) by {
        lemma_reaches_walkable(g, c, d + 1);
        assert(at(seen, c));
    }
    assert forall|c: (int, int)| in_bounds(g, c) implies match #[trigger] at(out, c) {
        DijkstraTile::Value(x) => is_distance(g, c, x as int) && (x < d + 1 || (x == d + 1
            && holds_before(next, 0, c))),
        DijkstraTile::Impassable => !reaches_within(g, c, d) && !holds_before(next, 0, c),
        _ => false,
    } by {
        if at(out, c) is Impassable && reaches_within(g, c, d) {
            assert(is_distance(g, c, d));
            assert(holds(current, c));
        }
    }
}

/// What the rounds have shown once a round finds nothing to do.
proof fn lemma_rounds_done(g: Seq<Seq<DijkstraTile>>, out: Seq<Seq<DijkstraTile>>, d: int)
    requires
        d >= 0,
        lists_distance(g, Seq::empty(), d),
        written_ok(g, out, Seq::empty(), 0, d),
    ensures
        is_distance_field(g, field_of_tiles(out)),
        forall|c: (int, int)|
            in_bounds(g, c) ==> (#[trigger] at(out, c) matches DijkstraTile::Value(x) ==> 0 <= x
                < d),
{
    let f = field_of_tiles(out);
    assert(same_shape(g, f));
    assert forall|x: (int, int)| #[trigger]
        reaches_within(g, x, d) implies reaches_within(g, x, d - 1) by {
        if !reaches_within(g, x, d - 1) {
            assert(is_distance(g, x, d));
            assert(holds(Seq::empty(), x));
        }
    }
    assert forall|i: int, j: int| in_bounds(g, (i, j)) implies match #[trigger] f[j][i] {
        Some(x) => is_distance(g, (i, j), x),
        None => !reachable(g, (i, j)),
    } by {
        let c = (i, j);
        assert(f[j][i] == at(out, c).value());
        if reachable(g, c) {
            let n = choose|n: int| reaches_within(g, c, n);
            lemma_no_further(g, d, c, n);
        }
    }
    assert forall|c: (int, int)| in_bounds(g, c) implies (#[trigger] at(out, c) matches DijkstraTile::Value(
        x,
    ) ==> 0 <= x < d) by {
        if let DijkstraTile::Value(x) = at(out, c) {
            lemma_reaches_walkable(g, c, x as int);
        }
    }
}


proof fn lemma_holds_push(s: Seq<(usize, usize)>, p: (usize, usize), c: (int, int))
    ensures
        holds(s.push(p), c) <==> (holds(s, c) || cell(p) == c),
{
    let t = s.push(p);
    if holds(s, c) {
        let n = choose|n: int| 0 <= n < s.len() && n < s.len() && cell(#[trigger] s[n]) == c;
        assert(cell(t[n]) == c);
    }
    if cell(p) == c {
        assert(cell(t[s.len() as int]) == c);
    }
    if holds(t, c) {
        let n = choose|n: int| 0 <= n < t.len() && n < t.len() && cell(#[trigger] t[n]) == c;
        if n < s.len() {
            assert(cell(s[n]) == c);
        }
    }
}

proof fn lemma_holds_one_more(s: Seq<(usize, usize)>, k: int, c: (int, int))
    requires
        0 <= k < s.len(),
    ensures
        holds_before(s, k + 1, c) <==> (holds_before(s, k, c) || cell(s[k]) == c),
{
    if holds_before(s, k, c) {
        let n = choose|n: int| 0 <= n < k && n < s.len() && cell(#[trigger] s[n]) == c;
        assert(0 <= n < k + 1 && cell(s[n]) == c);
    }
    if cell(s[k]) == c {
        assert(0 <= k < k + 1 && cell(s[k]) == c);
    }
}

/// A grid of the given size with the same value in every cell.
fn filled<T: Copy>(width: usize, height: usize, value: T) -> (grid: Vec<Vec<T>>)
    ensures
        grid.len() == height,
        forall|j: int| 0 <= j < height ==> (#[trigger] grid[j]).len() == width,
        forall|c: (int, int)| in_bounds(grid_view(&grid), c) ==> #[trigger] at(grid_view(&grid), c) == value,
{
    let mut grid: Vec<Vec<T>> = Vec::new();
    let mut j: usize = 0;
    while j < height
        invariant
            j <= height,
            grid.len() == j,
            forall|r: int| 0 <= r < j ==> (#[trigger] grid[r]).len() == width,
            forall|r: int, i: int| 0 <= r < j && 0 <= i < width ==> (#[trigger] grid[r][i]) == value,
        decreases height - j,
    {
        let mut row: Vec<T> = Vec::new();
        let mut i: usize = 0;
        while i < width
            invariant
                i <= width,
                row.len() == i,
                forall|n: int| 0 <= n < i ==> (#[trigger] row[n]) == value,
            decreases width - i,
        {
            row.push(value);
            i += 1;
        }
        grid.push(row);
        j += 1;
    }
    assert forall|c: (int, int)| in_bounds(grid_view(&grid), c) implies #[trigger] at(
        grid_view(&grid),
        c,
    ) == value by {
        assert(grid[c.1][c.0] == value);
    }
    grid
}

/// Row by row, the cells before column `i` of row `j`.
spec fn before(c: (int, int), i: int, j: int) -> bool {
    c.1 < j || (c.1 == j && c.0 < i)
}

/// Marks the cell `(i, j)` and appends it to `list`.
fn mark(
    seen: &mut Vec<Vec<bool>>,
    list: &mut Vec<(usize, usize)>,
    i: usize,
    j: usize,
    Ghost(vis): Ghost<Set<int>>,
) -> (grown: Ghost<Set<int>>)
    requires
        is_grid(grid_view(old(seen))),
        in_bounds(grid_view(old(seen)), (i as int, j as int)),
        !at(grid_view(old(seen)), (i as int, j as int)),
        counted(grid_view(old(seen)), vis),
    ensures
        same_shape(grid_view(old(seen)), grid_view(final(seen))),
        is_grid(grid_view(final(seen))),
        forall|c: (int, int)|
            in_bounds(grid_view(old(seen)), c) ==> #[trigger] at(grid_view(final(seen)), c) == (c
                == (i as int, j as int) || at(grid_view(old(seen)), c)),
        final(list)@ == old(list)@.push((i, j)),
        counted(grid_view(final(seen)), grown@),
        grown@.len() == vis.len() + 1,
{
    let ghost before_view = grid_view(seen);
    seen[j][i] = true;
    list.push((i, j));
    let ghost after_view = grid_view(seen);
    proof {
        assert(same_shape(before_view, after_view));
        assert forall|c: (int, int)| in_bounds(before_view, c) implies #[trigger] at(
            after_view,
            c,
        ) == (c == (i as int, j as int) || at(before_view, c)) by {
            if c.1 != j {
                assert(seen[c.1] == old(seen)[c.1]);
            }
        }
        lemma_shape_of_grid(before_view, after_view);
        lemma_mark(before_view, after_view, vis, (i as int, j as int));
    }
    Ghost(vis.insert(code(before_view[0].len() as int, (i as int, j as int))))
}


/// Marks the goals of `map` and lists them.
fn seed(map: &Vec<Vec<DijkstraTile>>) -> (r: (Vec<Vec<bool>>, Vec<(usize, usize)>, Ghost<Set<int>>))
    requires
        is_grid(grid_view(map)),
    ensures
        marks_ok(grid_view(map), grid_view(&r.0), Seq::empty(), 0),
        all_at_distance(grid_view(map), r.1@, 0),
        lists_distance(grid_view(map), r.1@, 0),
        counted(grid_view(&r.0), r.2@),
        r.2@.len() == r.1.len(),
{
    let ghost g = grid_view(map);
    let height = map.len();
    let width = map[0].len();
    let mut seen: Vec<Vec<bool>> = filled(width, height, false);
    let mut goals: Vec<(usize, usize)> = Vec::new();
    let ghost mut vis: Set<int> = Set::empty();
    proof {
        assert(same_shape(g, grid_view(&seen)));
        lemma_shape_of_grid(g, grid_view(&seen));
    }
    let mut j: usize = 0;
    while j < height
        invariant
            is_grid(g),
            g == grid_view(map),
            height == map.len(),
            width == map[0].len(),
            j <= height,
            same_shape(g, grid_view(&seen)),
            forall|c: (int, int)|
                in_bounds(g, c) ==> (#[trigger] at(grid_view(&seen), c) <==> (before(c, 0, j as int)
                    && is_goal(g, c))),
            forall|n: int| 0 <= n < goals.len() ==> is_goal(g, cell(#[trigger] goals[n])),
            forall|c: (int, int)|
                in_bounds(g, c) && #[trigger] at(grid_view(&seen), c) ==> holds(goals@, c),
            counted(grid_view(&seen), vis),
            vis.len() == goals.len(),
        decreases height - j,
    {
        let mut i: usize = 0;
        while i < width
            invariant
                is_grid(g),
                g == grid_view(map),
                height == map.len(),
                width == map[0].len(),
                j < height,
                i <= width,
                same_shape(g, grid_view(&seen)),
                forall|c: (int, int)|
                    in_bounds(g, c) ==> (#[trigger] at(grid_view(&seen), c) <==> (before(
                        c,
                        i as int,
                        j as int,
                    ) && is_goal(g, c))),
                forall|n: int| 0 <= n < goals.len() ==> is_goal(g, cell(#[trigger] goals[n])),
                forall|c: (int, int)|
                    in_bounds(g, c) && #[trigger] at(grid_view(&seen), c) ==> holds(goals@, c),
                counted(grid_view(&seen), vis),
                vis.len() == goals.len(),
            decreases width - i,
        {
            proof {
                lemma_shape_of_grid(g, grid_view(&seen));
                assert(g[j as int].len() == g[0].len());
                assert(in_bounds(g, (i as int, j as int)));
            }
            let is_goal_here = match map[j][i] {
                DijkstraTile::Goal => true,
                _ => false,
            };
            if is_goal_here {
                let ghost listed = goals@;
                let ghost marked = grid_view(&seen);
                assert(!at(marked, (i as int, j as int)));
                let Ghost(grown) = mark(&mut seen, &mut goals, i, j, Ghost(vis));
                proof {
                    vis = grown;
                    assert forall|c: (int, int)|
                        in_bounds(g, c) && #[trigger] at(grid_view(&seen), c) implies holds(
                        goals@,
                        c,
                    ) by {
                        lemma_holds_push(listed, (i, j), c);
                        assert(at(grid_view(&seen), c) == (c == (i as int, j as int) || at(
                            marked,
                            c,
                        )));
                    }
                    assert forall|c: (int, int)| in_bounds(g, c) implies (#[trigger] at(
                        grid_view(&seen),
                        c,
                    ) <==> (before(c, i + 1, j as int) && is_goal(g, c))) by {
                        assert(at(grid_view(&seen), c) == (c == (i as int, j as int) || at(
                            marked,
                            c,
                        )));
                    }
                }
            }
            i += 1;
        }
        j += 1;
    }
    proof {
        assert forall|c: (int, int)| in_bounds(g, c) implies (#[trigger] at(grid_view(&seen), c) <==> (
        reaches_within(g, c, 0) || holds(Seq::empty(), c))) by {
            if is_goal(g, c) {
                lemma_goal_reaches(g, c);
            }
            if reaches_within(g, c, 0) {
                lemma_reaches_zero(g, c, 0);
            }
        }
        assert forall|n: int| 0 <= n < goals.len() implies is_distance(
            g,
            cell(#[trigger] goals[n]),
            0,
        ) by {
            lemma_goal_reaches(g, cell(goals[n]));
            if reaches_within(g, cell(goals[n]), -1) {
                lemma_reaches_walkable(g, cell(goals[n]), -1);
            }
        }
        assert forall|c: (int, int)| #[trigger] is_distance(g, c, 0) implies holds(goals@, c) by {
            lemma_reaches_zero(g, c, 0);
            assert(at(grid_view(&seen), c));
        }
    }
    (seen, goals, Ghost(vis))
}

/// Marks and lists every walkable neighbour of `(i, j)` that is not marked yet.
fn expand(
    map: &Vec<Vec<DijkstraTile>>,
    seen: &mut Vec<Vec<bool>>,
    next: &mut Vec<(usize, usize)>,
    i: usize,
    j: usize,
    Ghost(d): Ghost<int>,
    Ghost(vis): Ghost<Set<int>>,
) -> (grown: Ghost<Set<int>>)
    requires
        is_grid(grid_view(map)),
        in_bounds(grid_view(map), (i as int, j as int)),
        reaches_within(grid_view(map), (i as int, j as int), d),
        marks_ok(grid_view(map), grid_view(old(seen)), old(next)@, d),
        all_at_distance(grid_view(map), old(next)@, d + 1),
        counted(grid_view(old(seen)), vis),
    ensures
        marks_ok(grid_view(map), grid_view(final(seen)), final(next)@, d),
        all_at_distance(grid_view(map), final(next)@, d + 1),
        counted(grid_view(final(seen)), grown@),
        grown@.len() - final(next).len() == vis.len() - old(next).len(),
        forall|c: (int, int)|
            in_bounds(grid_view(map), c) && at(grid_view(old(seen)), c) ==> #[trigger] at(
                grid_view(final(seen)),
                c,
            ),
        forall|c: (int, int)|
            walkable(grid_view(map), c) && #[trigger] adjacent(c, (i as int, j as int)) ==> at(
                grid_view(final(seen)),
                c,
            ),
{
    let ghost g = grid_view(map);
    let ghost here = (i as int, j as int);
    let height = map.len();
    let width = map[0].len();
    proof {
        assert(g[j as int].len() == g[0].len());
    }
    let low_i = if i > 0 { i - 1 } else { i };
    let high_i = if i + 1 < width { i + 1 } else { i };
    let low_j = if j > 0 { j - 1 } else { j };
    let high_j = if j + 1 < height { j + 1 } else { j };
    let ghost mut codes = vis;
    let mut nj = low_j;
    while nj <= high_j
        invariant
            is_grid(g),
            g == grid_view(map),
            height == map.len(),
            width == map[0].len(),
            here == (i as int, j as int),
            in_bounds(g, here),
            reaches_within(g, here, d),
            low_i <= i <= high_i < width,
            low_j <= j <= high_j < height,
            i - low_i <= 1 && high_i - i <= 1,
            j - low_j <= 1 && high_j - j <= 1,
            low_j <= nj <= high_j + 1,
            marks_ok(g, grid_view(seen), next@, d),
            all_at_distance(g, next@, d + 1),
            counted(grid_view(seen), codes),
            codes.len() - next.len() == vis.len() - old(next).len(),
            forall|c: (int, int)|
                in_bounds(g, c) && at(grid_view(old(seen)), c) ==> #[trigger] at(
                    grid_view(seen),
                    c,
                ),
            forall|c: (int, int)|
                walkable(g, c) && low_i <= c.0 <= high_i && low_j <= c.1 < nj ==> #[trigger] at(
                    grid_view(seen),
                    c,
                ),
        decreases high_j + 1 - nj,
    {
        let mut ni = low_i;
        while ni <= high_i
            invariant
                is_grid(g),
                g == grid_view(map),
                height == map.len(),
                width == map[0].len(),
                here == (i as int, j as int),
                in_bounds(g, here),
                reaches_within(g, here, d),
                low_i <= i <= high_i < width,
                low_j <= j <= high_j < height,
                i - low_i <= 1 && high_i - i <= 1,
                j - low_j <= 1 && high_j - j <= 1,
                low_j <= nj <= high_j,
                low_i <= ni <= high_i + 1,
                marks_ok(g, grid_view(seen), next@, d),
                all_at_distance(g, next@, d + 1),
                counted(grid_view(seen), codes),
                codes.len() - next.len() == vis.len() - old(next).len(),
                forall|c: (int, int)|
                    in_bounds(g, c) && at(grid_view(old(seen)), c) ==> #[trigger] at(
                        grid_view(seen),
                        c,
                    ),
                forall|c: (int, int)|
                    walkable(g, c) && low_i <= c.0 <= high_i && (low_j <= c.1 < nj || (c.1 == nj
                        && c.0 < ni)) ==> #[trigger] at(grid_view(seen), c),
            decreases high_i + 1 - ni,
        {
            let ghost there = (ni as int, nj as int);
            proof {
                lemma_shape_of_grid(g, grid_view(seen));
                assert(g[nj as int].len() == g[0].len());
                assert(in_bounds(g, there));
            }
            let open = match map[nj][ni] {
                DijkstraTile::Impassable => false,
                _ => true,
            };
            if open && !seen[nj][ni] {
                let ghost listed = next@;
                let ghost marked = grid_view(seen);
                proof {
                    assert(!at(marked, there));
                    lemma_reaches_walkable(g, here, d);
                    assert(at(marked, here));
                    assert(adjacent(there, here));
                    lemma_step_away(g, there, here, d);
                    assert(is_distance(g, there, d + 1));
                }
                let Ghost(grown) = mark(seen, next, ni, nj, Ghost(codes));
                proof {
                    codes = grown;
                    assert forall|c: (int, int)| in_bounds(g, c) implies (#[trigger] at(
                        grid_view(seen),
                        c,
                    ) <==> (reaches_within(g, c, d) || holds(next@, c))) by {
                        lemma_holds_push(listed, (ni, nj), c);
                        assert(at(grid_view(seen), c) == (c == there || at(marked, c)));
                    }
                    assert forall|c: (int, int)|
                        in_bounds(g, c) && at(grid_view(old(seen)), c) implies #[trigger] at(
                        grid_view(seen),
                        c,
                    ) by {
                        assert(at(grid_view(seen), c) == (c == there || at(marked, c)));
                    }
                    assert forall|c: (int, int)|
                        walkable(g, c) && low_i <= c.0 <= high_i && (low_j <= c.1 < nj || (c.1
                            == nj && c.0 < ni + 1)) implies #[trigger] at(grid_view(seen), c) by {
                        assert(at(grid_view(seen), c) == (c == there || at(marked, c)));
                    }
                }
            }
            ni += 1;
        }
        nj += 1;
    }
    Ghost(codes)
}


/// Floods `map` from its goals: every cell that a route leaves gets the length
/// of its shortest route as a `Value`, every other cell stays `Impassable`.
pub(crate) fn flood(map: &Vec<Vec<DijkstraTile>>) -> (output: Vec<Vec<DijkstraTile>>)
    requires
        is_grid(grid_view(map)),
        area(grid_view(map)) <= i64::MAX,
    ensures
        is_distance_field(grid_view(map), field_of_tiles(grid_view(&output))),
        forall|c: (int, int)|
            in_bounds(grid_view(map), c) ==> (#[trigger] at(grid_view(&output), c) matches DijkstraTile::Value(
                d,
            ) ==> 0 <= d < area(grid_view(map))),
{
    let ghost g = grid_view(map);
    let height = map.len();
    let width = map[0].len();
    let mut output: Vec<Vec<DijkstraTile>> = filled(width, height, DijkstraTile::Impassable);
    let (mut seen, mut current, Ghost(seeded)) = seed(map);
    let ghost mut codes = seeded;
    let ghost mut done: int = 0;
    let mut distance: i64 = 0;
    proof {
        assert(same_shape(g, grid_view(&output)));
        assert forall|c: (int, int)| in_bounds(g, c) implies !reaches_within(g, c, -1) by {
            if reaches_within(g, c, -1) {
                lemma_reaches_walkable(g, c, -1);
            }
        }
        lemma_shape_of_grid(g, grid_view(&output));
        assert(written_ok(g, grid_view(&output), current@, 0, 0));
    }
    while current.len() > 0
        invariant
            is_grid(g),
            g == grid_view(map),
            area(g) <= i64::MAX,
            0 <= distance <= done,
            all_at_distance(g, current@, distance as int),
            lists_distance(g, current@, distance as int),
            marks_ok(g, grid_view(&seen), Seq::empty(), distance as int),
            written_ok(g, grid_view(&output), current@, 0, distance as int),
            counted(grid_view(&seen), codes),
            codes.len() == done + current.len(),
            done <= area(g),
        decreases area(g) - done,
    {
        let mut next: Vec<(usize, usize)> = Vec::new();
        let mut k: usize = 0;
        proof {
            lemma_shape_of_grid(g, grid_view(&seen));
            lemma_count_bound(grid_view(&seen), codes);
            assert(area(grid_view(&seen)) == area(g));
        }
        while k < current.len()
            invariant
                is_grid(g),
                g == grid_view(map),
                0 <= distance < i64::MAX,
                k <= current.len(),
                all_at_distance(g, current@, distance as int),
                all_at_distance(g, next@, distance + 1),
                marks_ok(g, grid_view(&seen), next@, distance as int),
                written_ok(g, grid_view(&output), current@, k as int, distance as int),
                expanded(g, grid_view(&seen), current@, k as int),
                counted(grid_view(&seen), codes),
                codes.len() == done + current.len() + next.len(),
            decreases current.len() - k,
        {
            let (i, j) = current[k];
            let ghost here = (i as int, j as int);
            let ghost written = grid_view(&output);
            let ghost marked = grid_view(&seen);
            proof {
                assert(is_distance(g, cell(current@[k as int]), distance as int));
                lemma_reaches_walkable(g, here, distance as int);
                lemma_shape_of_grid(g, written);
            }
            output[j][i] = DijkstraTile::Value(distance);
            proof {
                assert(same_shape(written, grid_view(&output)));
                assert forall|r: int| 0 <= r < g.len() implies (#[trigger] g[r]).len() == (
                #[trigger] grid_view(&output)[r]).len() by {
                    assert(g[r].len() == written[r].len());
                }
                assert forall|c: (int, int)| in_bounds(g, c) implies #[trigger] at(
                    grid_view(&output),
                    c,
                ) == (if c == here {
                    DijkstraTile::Value(distance)
                } else {
                    at(written, c)
                }) by {
                    if c.1 != j {
                        assert(grid_view(&output)[c.1] == written[c.1]);
                    }
                }
                assert forall|c: (int, int)| in_bounds(g, c) implies match #[trigger] at(
                    grid_view(&output),
                    c,
                ) {
                    DijkstraTile::Value(x) => is_distance(g, c, x as int) && (x < distance || (x
                        == distance && holds_before(current@, k + 1, c))),
                    DijkstraTile::Impassable => !reaches_within(g, c, distance - 1)
                        && !holds_before(current@, k + 1, c),
                    _ => false,
                } by {
                    lemma_holds_one_more(current@, k as int, c);
                    assert(at(grid_view(&output), c) == (if c == here {
                        DijkstraTile::Value(distance)
                    } else {
                        at(written, c)
                    }));
                }
            }
            let Ghost(grown) = expand(
                map,
                &mut seen,
                &mut next,
                i,
                j,
                Ghost(distance as int),
                Ghost(codes),
            );
            proof {
                codes = grown;
                assert forall|c: (int, int), n: int|
                    0 <= n < k + 1 && n < current@.len() && walkable(g, c) && #[trigger] adjacent(
                        c,
                        cell(current@[n]),
                    ) implies at(grid_view(&seen), c) by {
                    if n < k {
                        assert(at(marked, c));
                    }
                }
            }
            k += 1;
        }
        proof {
            lemma_round_done(
                g,
                grid_view(&seen),
                grid_view(&output),
                current@,
                next@,
                distance as int,
            );
            lemma_shape_of_grid(g, grid_view(&seen));
            lemma_count_bound(grid_view(&seen), codes);
            done = done + current.len();
        }
        current = next;
        distance = distance + 1;
    }
    proof {
        assert(current@ =~= Seq::empty());
        lemma_rounds_done(g, grid_view(&output), distance as int);
    }
    proof {
        assert forall|c: (int, int)| in_bounds(g, c) implies (#[trigger] at(grid_view(&output), c) matches DijkstraTile::Value(
            d,
        ) ==> 0 <= d < area(g)) by {
        }
    }
    output
}

} // verus!
