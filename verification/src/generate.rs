//! The floor plan of a dungeon: a walled rectangle, split again and again by
//! walls with doors and windows in them.

use rand::Rng;
use vstd::prelude::*;
use crate::dungeon::TerrainType;
use crate::king_distance::{
    at, cell, grid_view, in_bounds, is_grid, lemma_same_shape_chain, lemma_shape_of_grid, same_shape,
};

verus! {

/// A cell on the outer rim of a grid.
pub open spec fn on_rim<T>(g: Seq<Seq<T>>, c: (int, int)) -> bool {
    in_bounds(g, c) && (c.0 == 0 || c.1 == 0 || c.0 == g[0].len() - 1 || c.1 == g.len() - 1)
}

/// A cell off the rim whose column and row are both odd: no wall is ever
/// drawn through it.
pub open spec fn is_chamber<T>(g: Seq<Seq<T>>, c: (int, int)) -> bool {
    in_bounds(g, c) && !on_rim(g, c) && c.0 % 2 == 1 && c.1 % 2 == 1
}

/// A floor plan that the splitting leaves behind: walls all around the rim,
/// and floor on every chamber cell.
pub open spec fn is_plan(g: Seq<Seq<TerrainType>>) -> bool {
    &&& is_grid(g)
    &&& forall|c: (int, int)| on_rim(g, c) ==> #[trigger] at(g, c) is Wall
    &&& forall|c: (int, int)| is_chamber(g, c) ==> #[trigger] at(g, c) is Floor
}

/// Puts the entries of `values` into a random order.
///
/// Calls `rand::thread_rng` for the generator of this thread and
/// `rand::Rng::shuffle` on it, which swaps entries among themselves: the
/// result holds the same values as often as before, and nothing more is said
/// of their order. The generator stops the program if the system can give it
/// no seed.
#[verifier::external_body]
pub(crate) fn shuffle<T>(values: &mut Vec<T>)
    ensures
        final(values)@.to_multiset() == old(values)@.to_multiset(),
{
    rand::thread_rng().shuffle(values);
}


/// The terrain `t` may stand at the cell `c` of a floor plan.
pub open spec fn may_put(g: Seq<Seq<TerrainType>>, c: (int, int), t: TerrainType) -> bool {
    &&& in_bounds(g, c)
    &&& on_rim(g, c) ==> t is Wall
    &&& is_chamber(g, c) ==> t is Floor
}

/// A shuffled list holds what the list held before, as often as before: so
/// nothing twice that was there once.
pub proof fn lemma_shuffled_members<T>(before: Seq<T>, after: Seq<T>)
    requires
        before.to_multiset() == after.to_multiset(),
    ensures
        after.len() == before.len(),
        forall|k: int| 0 <= k < after.len() ==> before.contains(#[trigger] after[k]),
        forall|v: T| #[trigger] after.contains(v) <==> before.contains(v),
        before.no_duplicates() ==> after.no_duplicates(),
{
    after.to_multiset_ensures();
    before.to_multiset_ensures();
    assert forall|k: int| 0 <= k < after.len() implies before.contains(#[trigger] after[k]) by {
        let v = after[k];
        assert(after.contains(v));
        assert(before.to_multiset().count(v) > 0);
    }
    assert forall|v: T| #[trigger] after.contains(v) <==> before.contains(v) by {
        assert(after.contains(v) <==> after.to_multiset().count(v) > 0);
        assert(before.contains(v) <==> before.to_multiset().count(v) > 0);
    }
    if before.no_duplicates() {
        before.lemma_multiset_has_no_duplicates();
        after.lemma_multiset_has_no_duplicates_conv();
    }
}

/// The even numbers from `low` up to `high`, without `high`, each of them
/// once, in a random order.
fn shuffled_evens(low: usize, high: usize) -> (values: Vec<usize>)
    ensures
        values@.no_duplicates(),
        forall|v: usize| #[trigger] values@.contains(v) <==> (low <= v < high && v % 2 == 0),
        forall|k: int| 0 <= k < values.len() ==> low <= (#[trigger] values[k]) < high && values[k] % 2 == 0,
{
    let mut values: Vec<usize> = Vec::new();
    let mut n: usize = low;
    while n < high
        invariant
            low <= n,
            n <= high || values.len() == 0,
            forall|k: int| 0 <= k < values.len() ==> low <= (#[trigger] values[k]) < n && values[k] % 2 == 0,
            forall|k: int, m: int| 0 <= k < m < values.len() ==> values[k] < values[m],
            forall|v: usize| low <= v < n && v % 2 == 0 ==> #[trigger] values@.contains(v),
        decreases high - n,
    {
        let ghost sorted = values@;
        if n % 2 == 0 {
            values.push(n);
            proof {
                assert(values@[values.len() - 1] == n);
                assert forall|v: usize| low <= v < n + 1 && v % 2 == 0 implies #[trigger] values@.contains(
                    v,
                ) by {
                    if v < n {
                        assert(sorted.contains(v));
                        let k = choose|k: int| 0 <= k < sorted.len() && sorted[k] == v;
                        assert(values@[k] == v);
                    }
                }
            }
        }
        n += 1;
    }
    let ghost before = values@;
    shuffle(&mut values);
    proof {
        assert(before.no_duplicates());
        lemma_shuffled_members(before, values@);
        assert forall|v: usize| #[trigger] values@.contains(v) <==> (low <= v < high && v % 2 == 0) by {
            if before.contains(v) {
                let k = choose|k: int| 0 <= k < before.len() && before[k] == v;
                assert(low <= before[k] < high);
            }
        }
        assert forall|k: int| 0 <= k < values.len() implies low <= (#[trigger] values[k]) < high
            && values[k] % 2 == 0 by {
            assert(values@.contains(values[k]));
        }
    }
    values
}

/// Puts the terrain `t` at column `x` of row `y`.
fn put(d: &mut Vec<Vec<TerrainType>>, x: usize, y: usize, t: TerrainType)
    requires
        is_plan(grid_view(old(d))),
        may_put(grid_view(old(d)), (x as int, y as int), t),
    ensures
        is_plan(grid_view(final(d))),
        same_shape(grid_view(old(d)), grid_view(final(d))),
        grid_view(final(d)).len() == grid_view(old(d)).len(),
        grid_view(final(d))[0].len() == grid_view(old(d))[0].len(),
        forall|c: (int, int)|
            in_bounds(grid_view(old(d)), c) ==> #[trigger] at(grid_view(final(d)), c) == (if c == (
                x as int,
                y as int,
            ) {
                t
            } else {
                at(grid_view(old(d)), c)
            }),
{
    let ghost before = grid_view(d);
    d[y][x] = t;
    proof {
        let after = grid_view(d);
        assert(same_shape(before, after));
        assert(after[0].len() == before[0].len());
        assert forall|j: int| 0 <= j < after.len() implies (#[trigger] after[j]).len()
            == after[0].len() by {
            assert(before[j].len() == after[j].len());
            assert(before[j].len() == before[0].len());
        }
        assert forall|c: (int, int)| in_bounds(before, c) implies #[trigger] at(after, c) == (if c
            == (x as int, y as int) {
            t
        } else {
            at(before, c)
        }) by {
            if c.1 != y {
                assert(after[c.1] == before[c.1]);
            }
        }
        assert forall|c: (int, int)| on_rim(after, c) implies #[trigger] at(after, c) is Wall by {
            assert(before[c.1].len() == after[c.1].len());
            assert(on_rim(before, c));
            assert(at(before, c) is Wall);
        }
        assert forall|c: (int, int)| is_chamber(after, c) implies #[trigger] at(after, c) is Floor by {
            assert(before[c.1].len() == after[c.1].len());
            assert(is_chamber(before, c));
            assert(at(before, c) is Floor);
        }
    }
}

/// Whether a wall stands at column `x` of row `y`.
fn is_wall(d: &Vec<Vec<TerrainType>>, x: usize, y: usize) -> (b: bool)
    requires
        in_bounds(grid_view(d), (x as int, y as int)),
    ensures
        b == (at(grid_view(d), (x as int, y as int)) is Wall),
{
    match d[y][x] {
        TerrainType::Wall => true,
        _ => false,
    }
}

/// The `k`-th cell of a line: of the row `line` if the line runs across, of
/// the column `line` if it runs down.
pub open spec fn on_line(across: bool, line: int, k: int) -> (int, int) {
    if across {
        (k, line)
    } else {
        (line, k)
    }
}

/// The cell `c` lies on the line, between its places `from` and `to` and on
/// neither.
pub open spec fn within_line(across: bool, line: int, from: int, to: int, c: (int, int)) -> bool {
    if across {
        c.1 == line && from < c.0 < to
    } else {
        c.0 == line && from < c.1 < to
    }
}

/// A wall may be drawn along `line` from `from` to `to`: the line is even,
/// lies at least two off the sides `low` and `high` of the rectangle, and
/// both its ends stand on walls.
pub open spec fn line_fits(
    g: Seq<Seq<TerrainType>>,
    across: bool,
    from: int,
    to: int,
    low: int,
    high: int,
    line: int,
) -> bool {
    &&& low + 2 <= line < high - 2
    &&& line % 2 == 0
    &&& at(g, on_line(across, line, from)) is Wall
    &&& at(g, on_line(across, line, to)) is Wall
}

/// An opening may stand at the place `k` of a wall from `from` to `to`: an
/// even place, at least two off the ends.
pub open spec fn opening_place(from: int, to: int, k: int) -> bool {
    from + 2 <= k < to - 2 && k % 2 == 0
}

/// From `from` up to `to` the line is a wall, but for doors and windows at
/// places where an opening may stand.
pub open spec fn is_wall_line(
    g: Seq<Seq<TerrainType>>,
    across: bool,
    line: int,
    from: int,
    to: int,
) -> bool {
    forall|k: int|
        from <= k < to ==> {
            let t = at(g, #[trigger] on_line(across, line, k));
            t is Wall || ((t is Door || t is Window) && opening_place(from, to, k))
        }
}

/// There is a door in the line between `from` and `to`.
pub open spec fn has_door(
    g: Seq<Seq<TerrainType>>,
    across: bool,
    line: int,
    from: int,
    to: int,
) -> bool {
    exists|k: int| from <= k < to && at(g, #[trigger] on_line(across, line, k)) is Door
}

/// A rectangle with a side of five cells or less is a room: it is not split.
pub open spec fn too_small(x0: int, x1: int, y0: int, y1: int) -> bool {
    x1 - x0 + 1 <= 5 || y1 - y0 + 1 <= 5
}

/// The new wall of a rectangle that is higher than wide runs across it.
pub open spec fn runs_across(x0: int, x1: int, y0: int, y1: int) -> bool {
    x1 - x0 < y1 - y0
}

/// A wall may be drawn along `line` through the rectangle.
pub open spec fn splits_at(
    g: Seq<Seq<TerrainType>>,
    x0: int,
    x1: int,
    y0: int,
    y1: int,
    line: int,
) -> bool {
    if runs_across(x0, x1, y0, y1) {
        line_fits(g, true, x0, x1, y0, y1, line)
    } else {
        line_fits(g, false, y0, y1, x0, x1, line)
    }
}

/// In `g` the rectangle is split along `line`: the line is a wall from side
/// to side, with a door in it wherever an opening has a place.
pub open spec fn split_along(
    g: Seq<Seq<TerrainType>>,
    x0: int,
    x1: int,
    y0: int,
    y1: int,
    line: int,
) -> bool {
    let across = runs_across(x0, x1, y0, y1);
    let from = if across { x0 } else { y0 };
    let to = if across { x1 } else { y1 };
    &&& is_wall_line(g, across, line, from, to)
    &&& (exists|k: int| #[trigger] opening_place(from, to, k)) ==> has_door(g, across, line, from, to)
}

/// Picks at random a line along which a wall may be drawn; none if there is
/// none.
fn pick_line(
    d: &Vec<Vec<TerrainType>>,
    across: bool,
    from: usize,
    to: usize,
    low: usize,
    high: usize,
) -> (found: Option<usize>)
    requires
        is_grid(grid_view(d)),
        from <= to,
        low + 5 <= high,
        across ==> to < grid_view(d)[0].len() && high < grid_view(d).len(),
        !across ==> to < grid_view(d).len() && high < grid_view(d)[0].len(),
    ensures
        match found {
            Some(line) => line_fits(grid_view(d), across, from as int, to as int, low as int, high as int, line as int),
            None => forall|line: int|
                !#[trigger] line_fits(grid_view(d), across, from as int, to as int, low as int, high as int, line),
        },
{
    let ghost g = grid_view(d);
    let mut splitpoints = shuffled_evens(low + 2, high - 2);
    let mut found: Option<usize> = None;
    while found.is_none()
        invariant
            g == grid_view(d),
            is_grid(g),
            from <= to,
            low + 5 <= high,
            across ==> to < g[0].len() && high < g.len(),
            !across ==> to < g.len() && high < g[0].len(),
            forall|k: int|
                0 <= k < splitpoints.len() ==> low + 2 <= (#[trigger] splitpoints[k]) < high - 2
                    && splitpoints[k] % 2 == 0,
            found matches Some(line) ==> line_fits(g, across, from as int, to as int, low as int, high as int, line as int),
            found is None ==> forall|line: int|
                #[trigger] line_fits(g, across, from as int, to as int, low as int, high as int, line)
                    ==> splitpoints@.contains(line as usize),
        decreases splitpoints.len(),
    {
        let ghost left = splitpoints@;
        match splitpoints.pop() {
            Some(line) => {
                let one_end = if across { (from, line) } else { (line, from) };
                let other_end = if across { (to, line) } else { (line, to) };
                proof {
                    assert(cell(one_end) == on_line(across, line as int, from as int));
                    assert(cell(other_end) == on_line(across, line as int, to as int));
                    if across {
                        assert(g[line as int].len() == g[0].len());
                    } else {
                        assert(g[from as int].len() == g[0].len());
                        assert(g[to as int].len() == g[0].len());
                    }
                }
                if is_wall(d, one_end.0, one_end.1) && is_wall(d, other_end.0, other_end.1) {
                    found = Some(line);
                } else {
                    proof {
                        assert forall|other: int|
                            #[trigger] line_fits(g, across, from as int, to as int, low as int, high as int, other)
                            implies splitpoints@.contains(other as usize) by {
                            assert(left.contains(other as usize));
                            let n = choose|n: int| 0 <= n < left.len() && left[n] == other as usize;
                            assert(other != line);
                            assert(splitpoints@[n] == other as usize);
                        }
                    }
                }
            },
            None => {
                proof {
                    assert forall|line: int|
                        !#[trigger] line_fits(g, across, from as int, to as int, low as int, high as int, line) by {
                        if line_fits(g, across, from as int, to as int, low as int, high as int, line) {
                            assert(splitpoints@.contains(line as usize));
                        }
                    }
                }
                return None;
            },
        }
    }
    found
}

/// Draws a wall along `line` from `from` up to `to`, and puts up to two doors
/// and a window into it, at places chosen at random: a door first.
fn wall_line(d: &mut Vec<Vec<TerrainType>>, across: bool, line: usize, from: usize, to: usize)
    requires
        is_plan(grid_view(old(d))),
        from + 5 <= to,
        line % 2 == 0,
        0 < line,
        across ==> to < grid_view(old(d))[0].len() && line + 1 < grid_view(old(d)).len(),
        !across ==> to < grid_view(old(d)).len() && line + 1 < grid_view(old(d))[0].len(),
        at(grid_view(old(d)), on_line(across, line as int, from as int)) is Wall,
    ensures
        is_plan(grid_view(final(d))),
        same_shape(grid_view(old(d)), grid_view(final(d))),
        grid_view(final(d)).len() == grid_view(old(d)).len(),
        grid_view(final(d))[0].len() == grid_view(old(d))[0].len(),
        forall|c: (int, int)|
            in_bounds(grid_view(old(d)), c) && !within_line(across, line as int, from as int, to as int, c)
                ==> #[trigger] at(grid_view(final(d)), c) == at(grid_view(old(d)), c),
        forall|c: (int, int)|
            in_bounds(grid_view(old(d)), c) ==> #[trigger] at(grid_view(final(d)), c) == at(
                grid_view(old(d)),
                c,
            ) || !(at(grid_view(final(d)), c) is Floor),
        is_wall_line(grid_view(final(d)), across, line as int, from as int, to as int),
        (exists|k: int| #[trigger] opening_place(from as int, to as int, k)) ==> has_door(
            grid_view(final(d)),
            across,
            line as int,
            from as int,
            to as int,
        ),
{
    let ghost start = grid_view(d);
    proof {
        assert(start[0].len() == d[0].len());
        assert(start.len() == d.len());
    }
    let mut k = from;
    while k < to
        invariant
            is_plan(grid_view(d)),
            same_shape(start, grid_view(d)),
            is_grid(start),
            grid_view(d).len() == start.len(),
            grid_view(d)[0].len() == start[0].len(),
            from <= k <= to,
            line % 2 == 0,
            0 < line,
            across ==> to < start[0].len() && line + 1 < start.len(),
            !across ==> to < start.len() && line + 1 < start[0].len(),
            at(start, on_line(across, line as int, from as int)) is Wall,
            forall|c: (int, int)|
                in_bounds(start, c) && !within_line(across, line as int, from as int, to as int, c)
                    ==> #[trigger] at(grid_view(d), c) == at(start, c),
            forall|c: (int, int)|
                in_bounds(start, c) ==> #[trigger] at(grid_view(d), c) == at(start, c) || at(
                    grid_view(d),
                    c,
                ) is Wall,
            forall|n: int|
                from <= n < k ==> at(grid_view(d), #[trigger] on_line(across, line as int, n)) is Wall,
        decreases to - k,
    {
        let ghost before = grid_view(d);
        let (x, y) = if across { (k, line) } else { (line, k) };
        proof {
            assert(before[y as int].len() == before[0].len());
            assert((x as int, y as int) == on_line(across, line as int, k as int));
            lemma_shape_of_grid(start, before);
        }
        put(d, x, y, TerrainType::Wall);
        proof {
            let after = grid_view(d);
            lemma_same_shape_chain(start, before, after);
            assert forall|c: (int, int)|
                in_bounds(start, c) && !within_line(across, line as int, from as int, to as int, c)
                implies #[trigger] at(after, c) == at(start, c) by {
                assert(at(before, c) == at(start, c));
            }
            assert forall|c: (int, int)| in_bounds(start, c) implies #[trigger] at(after, c) == at(
                start,
                c,
            ) || at(after, c) is Wall by {
                assert(at(before, c) == at(start, c) || at(before, c) is Wall);
            }
            assert forall|n: int| from <= n < k + 1 implies at(
                after,
                #[trigger] on_line(across, line as int, n),
            ) is Wall by {
                let c = on_line(across, line as int, n);
                assert(before[c.1].len() == before[0].len());
                assert(in_bounds(before, c));
                if n < k {
                    assert(at(before, on_line(across, line as int, n)) is Wall);
                }
            }
        }
        k += 1;
    }
    // Openings in the new wall, off its ends.
    let mut terrains: Vec<TerrainType> = Vec::new();
    terrains.push(TerrainType::Window);
    terrains.push(TerrainType::Door);
    terrains.push(TerrainType::Door);
    let mut locations = shuffled_evens(from + 2, to - 2);
    let ghost places = locations@;
    let ghost kinds = terrains@;
    let ghost mut door: int = 0;
    proof {
        assert forall|n: int| from <= n < to implies {
            let t = at(grid_view(d), #[trigger] on_line(across, line as int, n));
            t is Wall || ((t is Door || t is Window) && opening_place(from as int, to as int, n))
        } by {}
    }
    while terrains.len() > 0 && locations.len() > 0
        invariant
            is_plan(grid_view(d)),
            same_shape(start, grid_view(d)),
            is_grid(start),
            grid_view(d).len() == start.len(),
            grid_view(d)[0].len() == start[0].len(),
            from + 5 <= to,
            line % 2 == 0,
            0 < line,
            across ==> to < start[0].len() && line + 1 < start.len(),
            !across ==> to < start.len() && line + 1 < start[0].len(),
            kinds == seq![TerrainType::Window, TerrainType::Door, TerrainType::Door],
            terrains.len() <= 3,
            terrains@ == kinds.take(terrains.len() as int),
            locations@.no_duplicates(),
            forall|n: int|
                0 <= n < locations.len() ==> opening_place(from as int, to as int, (#[trigger] locations[n]) as int),
            terrains.len() == 3 ==> locations@ == places,
            terrains.len() < 3 ==> from <= door < to && at(
                grid_view(d),
                on_line(across, line as int, door),
            ) is Door && !locations@.contains(door as usize),
            forall|c: (int, int)|
                in_bounds(start, c) && !within_line(across, line as int, from as int, to as int, c)
                    ==> #[trigger] at(grid_view(d), c) == at(start, c),
            forall|c: (int, int)|
                in_bounds(start, c) ==> #[trigger] at(grid_view(d), c) == at(start, c) || !(at(
                    grid_view(d),
                    c,
                ) is Floor),
            is_wall_line(grid_view(d), across, line as int, from as int, to as int),
        decreases terrains.len(),
    {
        let ghost before = grid_view(d);
        let ghost left = locations@;
        let ghost first = terrains.len() == 3;
        let terrain = terrains.pop().unwrap();
        let place = locations.pop().unwrap();
        let (x, y) = if across { (place, line) } else { (line, place) };
        proof {
            assert(opening_place(from as int, to as int, left[left.len() - 1] as int));
            assert(before[y as int].len() == before[0].len());
            assert((x as int, y as int) == on_line(across, line as int, place as int));
            lemma_shape_of_grid(start, before);
            assert(terrain == kinds[terrains.len() as int]);
            assert(terrain is Door || terrain is Window);
            assert(first ==> terrain is Door);
        }
        put(d, x, y, terrain);
        proof {
            let after = grid_view(d);
            lemma_same_shape_chain(start, before, after);
            assert(terrains@ =~= kinds.take(terrains.len() as int));
            assert forall|c: (int, int)|
                in_bounds(start, c) && !within_line(across, line as int, from as int, to as int, c)
                implies #[trigger] at(after, c) == at(start, c) by {
                assert(at(before, c) == at(start, c));
            }
            assert forall|c: (int, int)| in_bounds(start, c) implies #[trigger] at(after, c) == at(
                start,
                c,
            ) || !(at(after, c) is Floor) by {
                assert(at(before, c) == at(start, c) || !(at(before, c) is Floor));
            }
            assert forall|n: int| from <= n < to implies {
                let t = at(after, #[trigger] on_line(across, line as int, n));
                t is Wall || ((t is Door || t is Window) && opening_place(from as int, to as int, n))
            } by {
                let c = on_line(across, line as int, n);
                assert(before[c.1].len() == before[0].len());
                assert(in_bounds(before, c));
                let t = at(before, on_line(across, line as int, n));
                assert(t is Wall || ((t is Door || t is Window) && opening_place(
                    from as int,
                    to as int,
                    n,
                )));
            }
            if first {
                door = place as int;
            } else {
                assert(left.contains(place));
                assert(door != place);
                let c = on_line(across, line as int, door);
                assert(before[c.1].len() == before[0].len());
                assert(in_bounds(before, c));
            }
            assert(!locations@.contains(door as usize)) by {
                if locations@.contains(door as usize) {
                    let n = choose|n: int| 0 <= n < locations@.len() && locations@[n] == door as usize;
                    assert(left[n] == door as usize);
                    if first {
                        assert(left[left.len() - 1] == place);
                    } else {
                        assert(left.contains(door as usize));
                    }
                }
            }
        }
    }
    proof {
        if exists|n: int| #[trigger] opening_place(from as int, to as int, n) {
            let n = choose|n: int| #[trigger] opening_place(from as int, to as int, n);
            assert(places.contains(n as usize));
            assert(places.len() > 0);
            assert(terrains.len() < 3);
        }
    }
}

/// Splits the rectangle between the columns `x0` and `x1` and the rows `y0`
/// and `y1` by a wall across its longer side, on an even row or column chosen
/// at random among those that end on walls. Up to two doors and a window are
/// put into the new wall, and both halves are split in turn, until a side has
/// five cells or less.
fn rec_split(d: &mut Vec<Vec<TerrainType>>, x0: usize, x1: usize, y0: usize, y1: usize)
    requires
        is_plan(grid_view(old(d))),
        x0 <= x1 < grid_view(old(d))[0].len(),
        y0 <= y1 < grid_view(old(d)).len(),
    ensures
        is_plan(grid_view(final(d))),
        same_shape(grid_view(old(d)), grid_view(final(d))),
        grid_view(final(d)).len() == grid_view(old(d)).len(),
        grid_view(final(d))[0].len() == grid_view(old(d))[0].len(),
        // Nothing changes but strictly inside the rectangle.
        forall|c: (int, int)|
            in_bounds(grid_view(old(d)), c) && !(x0 < c.0 < x1 && y0 < c.1 < y1) ==> #[trigger] at(
                grid_view(final(d)),
                c,
            ) == at(grid_view(old(d)), c),
        // No floor is laid.
        forall|c: (int, int)|
            in_bounds(grid_view(old(d)), c) ==> #[trigger] at(grid_view(final(d)), c) == at(
                grid_view(old(d)),
                c,
            ) || !(at(grid_view(final(d)), c) is Floor),
        // A room, or a rectangle through which no wall can be drawn, stays as it is.
        too_small(x0 as int, x1 as int, y0 as int, y1 as int) || (forall|line: int|
            !#[trigger] splits_at(grid_view(old(d)), x0 as int, x1 as int, y0 as int, y1 as int, line))
            ==> grid_view(final(d)) == grid_view(old(d)),
        // Any other rectangle is split along a line that ended on walls.
        !too_small(x0 as int, x1 as int, y0 as int, y1 as int) && (exists|line: int|
            #[trigger] splits_at(grid_view(old(d)), x0 as int, x1 as int, y0 as int, y1 as int, line))
            ==> exists|line: int|
            #[trigger] splits_at(grid_view(old(d)), x0 as int, x1 as int, y0 as int, y1 as int, line)
                && split_along(grid_view(final(d)), x0 as int, x1 as int, y0 as int, y1 as int, line),
    decreases (x1 - x0) + (y1 - y0),
{
    let ghost start = grid_view(d);
    proof {
        assert(start[0].len() == d[0].len());
        assert(start.len() == d.len());
    }
    let width = x1 - x0 + 1;
    let height = y1 - y0 + 1;
    // A rectangle this small is a room.
    if width <= 5 || height <= 5 {
        return ;
    }
    let across = width < height;
    let (from, to, low, high) = if across { (x0, x1, y0, y1) } else { (y0, y1, x0, x1) };
    let line = match pick_line(d, across, from, to, low, high) {
        Some(line) => line,
        None => {
            proof {
                assert forall|line: int|
                    !#[trigger] splits_at(start, x0 as int, x1 as int, y0 as int, y1 as int, line) by {
                    assert(!line_fits(start, across, from as int, to as int, low as int, high as int, line));
                }
            }
            return ;
        },
    };
    proof {
        assert(splits_at(start, x0 as int, x1 as int, y0 as int, y1 as int, line as int));
    }
    wall_line(d, across, line, from, to);
    let ghost walled = grid_view(d);
    // Now the two smaller rooms.
    if across {
        rec_split(d, x0, x1, y0, line);
    } else {
        rec_split(d, x0, line, y0, y1);
    }
    let ghost halfway = grid_view(d);
    proof {
        lemma_shape_of_grid(start, walled);
        lemma_shape_of_grid(walled, halfway);
    }
    if across {
        rec_split(d, x0, x1, line, y1);
    } else {
        rec_split(d, line, x1, y0, y1);
    }
    proof {
        let done = grid_view(d);
        lemma_same_shape_chain(start, walled, halfway);
        lemma_same_shape_chain(start, halfway, done);
        lemma_shape_of_grid(start, halfway);
        assert forall|c: (int, int)|
            in_bounds(start, c) && !(x0 < c.0 < x1 && y0 < c.1 < y1) implies #[trigger] at(done, c)
            == at(start, c) by {
            assert(at(halfway, c) == at(walled, c));
            assert(at(walled, c) == at(start, c));
        }
        assert forall|c: (int, int)| in_bounds(start, c) implies #[trigger] at(done, c) == at(
            start,
            c,
        ) || !(at(done, c) is Floor) by {
            assert(at(halfway, c) == at(walled, c) || !(at(halfway, c) is Floor));
            assert(at(walled, c) == at(start, c) || !(at(walled, c) is Floor));
        }
        // The new wall lies on a side of both halves: it stays as it was drawn.
        assert forall|k: int| from <= k < to implies at(
            done,
            #[trigger] on_line(across, line as int, k),
        ) == at(walled, on_line(across, line as int, k)) by {
            let c = on_line(across, line as int, k);
            assert(start[c.1].len() == start[0].len());
            assert(in_bounds(start, c));
            assert(in_bounds(walled, c));
            assert(in_bounds(halfway, c));
            assert(at(halfway, c) == at(walled, c));
            assert(at(done, c) == at(halfway, c));
        }
        assert(is_wall_line(done, across, line as int, from as int, to as int)) by {
            assert forall|k: int| from <= k < to implies {
                let t = at(done, #[trigger] on_line(across, line as int, k));
                t is Wall || ((t is Door || t is Window) && opening_place(from as int, to as int, k))
            } by {
                let t = at(walled, on_line(across, line as int, k));
                assert(t is Wall || ((t is Door || t is Window) && opening_place(
                    from as int,
                    to as int,
                    k,
                )));
            }
        }
        if exists|k: int| #[trigger] opening_place(from as int, to as int, k) {
            let k = choose|k: int|
                from <= k < to && at(walled, #[trigger] on_line(across, line as int, k)) is Door;
            assert(at(done, on_line(across, line as int, k)) is Door);
        }
        assert(split_along(done, x0 as int, x1 as int, y0 as int, y1 as int, line as int));
    }
}

/// A floor plan of the given size: a walled rectangle of floor, split into
/// rooms at random.
pub fn generate_fractal_dungeon(width: usize, height: usize) -> (dungeon: Vec<Vec<TerrainType>>)
    requires
        width >= 1,
        height >= 1,
    ensures
        is_plan(grid_view(&dungeon)),
        dungeon.len() == height,
        grid_view(&dungeon)[0].len() == width,
{
    let mut dungeon: Vec<Vec<TerrainType>> = Vec::new();
    let mut n: usize = 0;
    while n < height
        invariant
            width >= 1,
            n <= height,
            dungeon.len() == n,
            forall|j: int| 0 <= j < n ==> (#[trigger] dungeon[j]).len() == width,
            forall|j: int, i: int|
                0 <= j < n && 0 <= i < width ==> (#[trigger] dungeon[j][i]) == (if i == 0 || j == 0
                    || i == width - 1 || j == height - 1 {
                    TerrainType::Wall
                } else {
                    TerrainType::Floor
                }),
        decreases height - n,
    {
        let mut row: Vec<TerrainType> = Vec::new();
        let mut m: usize = 0;
        while m < width
            invariant
                width >= 1,
                n < height,
                m <= width,
                row.len() == m,
                forall|i: int|
                    0 <= i < m ==> (#[trigger] row[i]) == (if i == 0 || n == 0 || i == width - 1 || n
                        == height - 1 {
                        TerrainType::Wall
                    } else {
                        TerrainType::Floor
                    }),
            decreases width - m,
        {
            if m == 0 || n == 0 || m == width - 1 || n == height - 1 {
                row.push(TerrainType::Wall);
            } else {
                row.push(TerrainType::Floor);
            }
            m += 1;
        }
        dungeon.push(row);
        n += 1;
    }
    proof {
        let g = grid_view(&dungeon);
        assert(is_grid(g));
        assert forall|c: (int, int)| on_rim(g, c) implies #[trigger] at(g, c) is Wall by {
            assert(dungeon[c.1][c.0] is Wall);
        }
        assert forall|c: (int, int)| is_chamber(g, c) implies #[trigger] at(g, c) is Floor by {
            assert(dungeon[c.1][c.0] is Floor);
        }
    }
    rec_split(&mut dungeon, 0, width - 1, 0, height - 1);
    dungeon
}

} // verus!
