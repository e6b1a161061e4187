//! Distance fields: the number of king moves from every tile to the nearest goal.

use vstd::prelude::*;
use vstd::std_specs::cmp::PartialEqSpecImpl;
use crate::field::{
    cells, improves, is_next_step, lowest_among, masked, neighbour, offset, preferred, scale_fits,
    scaled, sum, sum_fits, summed, value_at,
};
use crate::flood::flood;
use crate::king_distance::{
    area, at, cell, grid_view, in_bounds, is_distance_field, is_goal, is_grid, lemma_goal_distance_zero,
    lemma_no_goal_no_distance, lemma_shape_of_grid, same_shape,
};

verus! {

/// One cell of a grid handed to the field builder, or of a finished field.
///
/// The builder reads `Impassable`, `Passable` and `Goal`, and takes a `Value`
/// for `Passable`. A finished field holds `Impassable` and `Value` only.
#[derive(Clone, Copy, Debug, PartialEq, Eq, Structural)]
pub enum DijkstraTile {
    Impassable,
    Passable,
    Goal,
    Value(i64),
}

impl DijkstraTile {
    /// The distance this cell carries, if it carries one.
    pub open spec fn value(self) -> Option<int> {
        match self {
            DijkstraTile::Value(n) => Some(n as int),
            _ => None,
        }
    }
}

/// What a grid of tiles says as a field: each cell's value, or none.
pub open spec fn field_of_tiles(tiles: Seq<Seq<DijkstraTile>>) -> Seq<Seq<Option<int>>> {
    Seq::new(tiles.len(), |j: int| Seq::new(tiles[j].len(), |i: int| tiles[j][i].value()))
}

/// A dense field over a grid: every cell holds a distance or nothing.
pub struct DijkstraMap {
    map: Vec<Vec<DijkstraTile>>,
}

impl View for DijkstraMap {
    type V = Seq<Seq<Option<int>>>;

    closed spec fn view(&self) -> Seq<Seq<Option<int>>> {
        field_of_tiles(grid_view(&self.map))
    }
}

impl DijkstraMap {
    /// A field covers a grid: at least one cell, and every row as long as the first.
    pub open spec fn wf(&self) -> bool {
        is_grid(self@)
    }

    /// Builds the field of distances to the nearest goal of `map`.
    ///
    /// Goals get 0, and every other walkable cell the number of king moves of a
    /// shortest route to a goal over walkable cells. A cell that no route
    /// leaves, walkable or not, gets no value. A `Value` in `map` is read as
    /// `Passable`.
    pub fn new(map: &Vec<Vec<DijkstraTile>>) -> (field: DijkstraMap)
        requires
            is_grid(grid_view(map)),
            area(grid_view(map)) <= i64::MAX,
        ensures
            field.wf(),
            is_distance_field(grid_view(map), field@),
            forall|c: (int, int)|
                in_bounds(grid_view(map), c) ==> (#[trigger] at(field@, c) matches Some(d) ==> 0
                    <= d < area(grid_view(map))),
            forall|c: (int, int)| is_goal(grid_view(map), c) ==> #[trigger] at(field@, c) == Some(0int),
            (forall|c: (int, int)| !is_goal(grid_view(map), c)) ==> forall|c: (int, int)|
                in_bounds(grid_view(map), c) ==> #[trigger] at(field@, c) is None,
    {
        let ghost g = grid_view(map);
        let output = flood(map);
        let field = DijkstraMap { map: output };
        proof {
            lemma_shape_of_grid(g, field@);
            assert forall|c: (int, int)| in_bounds(g, c) implies (#[trigger] at(field@, c) matches Some(
                d,
            ) ==> 0 <= d < area(g)) by {
                assert(at(field@, c) == at(grid_view(&field.map), c).value());
            }
            assert forall|c: (int, int)| is_goal(g, c) implies #[trigger] at(field@, c) == Some(
                0int,
            ) by {
                lemma_goal_distance_zero(g, field@, c);
            }
            if forall|c: (int, int)| !is_goal(g, c) {
                lemma_no_goal_no_distance(g, field@);
            }
        }
        field
    }

    /// The number of rows.
    pub fn height(&self) -> (h: usize)
        ensures
            h == self@.len(),
    {
        self.map.len()
    }

    /// The number of columns.
    pub fn width(&self) -> (w: usize)
        requires
            self.wf(),
        ensures
            w == self@[0].len(),
    {
        self.map[0].len()
    }

    /// The value at column `i` of row `j`; none where the field has none, and
    /// none outside the grid.
    pub fn value(&self, i: usize, j: usize) -> (v: Option<i64>)
        ensures
            match v {
                Some(d) => value_at(self@, (i as int, j as int)) == Some(d as int),
                None => value_at(self@, (i as int, j as int)) is None,
            },
    {
        if j < self.map.len() && i < self.map[j].len() {
            match self.map[j][i] {
                DijkstraTile::Value(d) => Some(d),
                _ => None,
            }
        } else {
            None
        }
    }

    /// The same field with every listed cell made impassable.
    ///
    /// No distance is computed anew: a pocket that the new obstacles cut off
    /// keeps the values it had.
    pub fn with_obstacles(&self, coordinates: Vec<(usize, usize)>) -> (field: DijkstraMap)
        requires
            forall|n: int|
                0 <= n < coordinates.len() ==> in_bounds(self@, cell(#[trigger] coordinates[n])),
        ensures
            field@ == masked(self@, cells(coordinates@)),
            self.wf() ==> field.wf(),
            forall|c: (int, int)|
                in_bounds(self@, c) ==> #[trigger] at(field@, c) == at(self@, c) || at(field@, c)
                    is None,
    {
        let mut tiles = copy_tiles(&self.map);
        let mut n: usize = 0;
        while n < coordinates.len()
            invariant
                n <= coordinates.len(),
                same_shape(grid_view(&self.map), grid_view(&tiles)),
                forall|m: int|
                    0 <= m < coordinates.len() ==> in_bounds(
                        grid_view(&self.map),
                        cell(#[trigger] coordinates[m]),
                    ),
                forall|c: (int, int)|
                    in_bounds(grid_view(&self.map), c) ==> #[trigger] at(grid_view(&tiles), c).value()
                        == (if cells(coordinates@.take(n as int)).contains(c) {
                        None
                    } else {
                        at(grid_view(&self.map), c).value()
                    }),
            decreases coordinates.len() - n,
        {
            let (i, j) = coordinates[n];
            let ghost before = grid_view(&tiles);
            proof {
                assert(in_bounds(grid_view(&self.map), cell(coordinates[n as int])));
                assert(before[j as int].len() == grid_view(&self.map)[j as int].len());
            }
            tiles[j][i] = DijkstraTile::Impassable;
            proof {
                let g = grid_view(&self.map);
                let after = grid_view(&tiles);
                let shorter = cells(coordinates@.take(n as int));
                let longer = cells(coordinates@.take(n + 1));
                assert(same_shape(before, after));
                assert forall|r: int| 0 <= r < g.len() implies (#[trigger] g[r]).len() == (
                #[trigger] after[r]).len() by {
                    assert(g[r].len() == before[r].len());
                }
                assert(longer =~= shorter.push((i as int, j as int))) by {
                    assert(coordinates@.take(n + 1) =~= coordinates@.take(n as int).push(
                        coordinates@[n as int],
                    ));
                }
                assert forall|c: (int, int)| in_bounds(g, c) implies #[trigger] at(after, c).value()
                    == (if longer.contains(c) {
                    None
                } else {
                    at(g, c).value()
                }) by {
                    assert(g[c.1].len() == before[c.1].len());
                    if c.1 != j {
                        assert(after[c.1] == before[c.1]);
                    }
                    assert(at(after, c) == (if c == (i as int, j as int) {
                        DijkstraTile::Impassable
                    } else {
                        at(before, c)
                    }));
                    assert(at(before, c).value() == (if shorter.contains(c) {
                        None
                    } else {
                        at(g, c).value()
                    }));
                    if shorter.contains(c) {
                        let m = choose|m: int| 0 <= m < shorter.len() && shorter[m] == c;
                        assert(longer[m] == c);
                    }
                    if c == (i as int, j as int) {
                        assert(longer[n as int] == c);
                    }
                    if longer.contains(c) && c != (i as int, j as int) {
                        let m = choose|m: int| 0 <= m < longer.len() && longer[m] == c;
                        assert(shorter[m] == c);
                    }
                }
            }
            n += 1;
        }
        let field = DijkstraMap { map: tiles };
        proof {
            assert(coordinates@.take(coordinates.len() as int) =~= coordinates@);
            assert(field@ =~~= masked(self@, cells(coordinates@))) by {
                assert forall|j: int| 0 <= j < field@.len() implies #[trigger] field@[j] =~= masked(
                    self@,
                    cells(coordinates@),
                )[j] by {
                    assert(grid_view(&self.map)[j].len() == grid_view(&field.map)[j].len());
                    assert forall|i: int| 0 <= i < field@[j].len() implies field@[j][i] == masked(
                        self@,
                        cells(coordinates@),
                    )[j][i] by {
                        assert(in_bounds(grid_view(&self.map), (i, j)));
                        assert(field@[j][i] == at(grid_view(&field.map), (i, j)).value());
                    }
                }
            }
            if self.wf() {
                lemma_shape_of_grid(self@, field@);
            }
        }
        field
    }

    /// Where to step from `coordinates` to descend the field.
    ///
    /// The eight neighbours are tried straight ones first. One takes the place
    /// of the best cell so far only if it has a value and the best so far has
    /// none or a greater one, so among equals the one tried first is kept, and
    /// the origin is kept unless a neighbour is strictly better. From a
    /// position outside the grid the step is that position.
    pub fn get_next_step(&self, coordinates: (usize, usize)) -> (step: (usize, usize))
        requires
            self.wf(),
        ensures
            is_next_step(self@, cell(coordinates), cell(step)),
    {
        let (i0, j0) = coordinates;
        let ghost f = self@;
        let ghost o = (i0 as int, j0 as int);
        let height = self.map.len();
        let width = self.map[0].len();
        if j0 >= height || i0 >= width {
            proof {
                if j0 < height {
                    assert(f[j0 as int].len() == f[0].len());
                }
                assert(!in_bounds(f, o));
            }
            return coordinates;
        }
        proof {
            assert(f[j0 as int].len() == f[0].len());
        }
        let mut step = coordinates;
        let mut best: Option<i64> = self.value(i0, j0);
        let ghost mut pick: int = -1;
        let mut k: usize = 0;
        while k < 8
            invariant
                self.wf(),
                f == self@,
                o == (i0 as int, j0 as int),
                coordinates == (i0, j0),
                height == self.map.len(),
                width == self.map[0].len(),
                in_bounds(f, o),
                i0 < width,
                j0 < height,
                k <= 8,
                -1 <= pick < k,
                match best {
                    Some(b) => value_at(f, cell(step)) == Some(b as int),
                    None => value_at(f, cell(step)) is None,
                },
                pick == -1 ==> step == coordinates && forall|m: int|
                    0 <= m < k ==> !#[trigger] improves(f, o, neighbour(o, m)),
                pick >= 0 ==> cell(step) == neighbour(o, pick) && lowest_among(f, o, pick, k as int)
                    && improves(f, o, neighbour(o, pick)),
            decreases 8 - k,
        {
            let (di, dj) = step_offset(k);
            let ghost c = neighbour(o, k as int);
            let ghost was = pick;
            let ghost held = value_at(f, cell(step));
            let ghost prior = best;
            let mut found: Option<i64> = None;
            match moved(i0, di, width) {
                Some(i) => match moved(j0, dj, height) {
                    Some(j) => {
                        proof {
                            assert(f[j as int].len() == f[0].len());
                            assert(in_bounds(f, c));
                        }
                        found = self.value(i, j);
                        let better = match (found, best) {
                            (Some(m), Some(n)) => m < n,
                            (Some(_), None) => true,
                            _ => false,
                        };
                        if better {
                            step = (i, j);
                            best = found;
                            proof {
                                pick = k as int;
                            }
                        }
                    },
                    None => {
                        proof {
                            assert(!in_bounds(f, c)) by {
                                if 0 <= c.1 < f.len() {
                                    assert(f[c.1].len() == f[0].len());
                                }
                            }
                        }
                    },
                },
                None => {
                    proof {
                        assert(!in_bounds(f, c)) by {
                            if 0 <= c.1 < f.len() {
                                assert(f[c.1].len() == f[0].len());
                            }
                        }
                    }
                },
            }
            proof {
                let seen = value_at(f, c);
                assert(match found {
                    Some(m) => seen == Some(m as int),
                    None => seen is None,
                });
                if pick == k {
                    let v = seen->0;
                    assert(seen is Some);
                    assert(held matches Some(n) ==> v < n);
                    assert(was >= 0 ==> held == value_at(f, neighbour(o, was)) && lowest_among(
                        f,
                        o,
                        was,
                        k as int,
                    ));
                    assert(was == -1 ==> held == value_at(f, o));
                    assert forall|m: int| 0 <= m < k + 1 implies (#[trigger] value_at(
                        f,
                        neighbour(o, m),
                    ) matches Some(w) ==> v <= w) by {
                        if m < k && was == -1 {
                            assert(!improves(f, o, neighbour(o, m)));
                        }
                    }
                    assert forall|m: int| 0 <= m < k implies #[trigger] value_at(
                        f,
                        neighbour(o, m),
                    ) != Some(v) by {
                        if was == -1 {
                            assert(!improves(f, o, neighbour(o, m)));
                        }
                    }
                } else if pick >= 0 {
                    assert(lowest_among(f, o, pick, k + 1));
                } else {
                    assert forall|m: int| 0 <= m < k + 1 implies !#[trigger] improves(
                        f,
                        o,
                        neighbour(o, m),
                    ) by {}
                }
            }
            k += 1;
        }
        proof {
            if pick >= 0 {
                assert(preferred(f, o, pick));
            } else {
                assert forall|m: int| !preferred(f, o, m) by {
                    if 0 <= m < 8 {
                        assert(!improves(f, o, neighbour(o, m)));
                    }
                }
            }
        }
        step
    }

    /// Whether every value of the field times `scalar` fits a cell.
    pub fn can_scale(&self, scalar: i64) -> (fits: bool)
        ensures
            fits == scale_fits(self@, scalar as int),
    {
        let ghost f = self@;
        let mut j: usize = 0;
        while j < self.map.len()
            invariant
                f == self@,
                j <= self.map.len(),
                forall|c: (int, int)|
                    in_bounds(f, c) && c.1 < j ==> (#[trigger] at(f, c) matches Some(v) ==> i64::MIN
                        <= scalar * v <= i64::MAX),
            decreases self.map.len() - j,
        {
            let mut i: usize = 0;
            while i < self.map[j].len()
                invariant
                    f == self@,
                    j < self.map.len(),
                    i <= self.map[j as int].len(),
                    forall|c: (int, int)|
                        in_bounds(f, c) && (c.1 < j || (c.1 == j && c.0 < i)) ==> (#[trigger] at(
                            f,
                            c,
                        ) matches Some(v) ==> i64::MIN <= scalar * v <= i64::MAX),
                decreases self.map[j as int].len() - i,
            {
                if let DijkstraTile::Value(v) = self.map[j][i] {
                    if scalar.checked_mul(v).is_none() {
                        proof {
                            let c = (i as int, j as int);
                            assert(in_bounds(f, c));
                            assert(at(f, c) == Some(v as int));
                        }
                        return false;
                    }
                }
                proof {
                    assert(at(f, (i as int, j as int)) == self.map[j as int][i as int].value());
                }
                i += 1;
            }
            j += 1;
        }
        true
    }

    /// The field with every value multiplied by `scalar`; cells without a
    /// value stay without one.
    pub fn scale(&self, scalar: i64) -> (field: DijkstraMap)
        requires
            scale_fits(self@, scalar as int),
        ensures
            field@ == scaled(self@, scalar as int),
            self.wf() ==> field.wf(),
    {
        let ghost f = self@;
        let mut tiles: Vec<Vec<DijkstraTile>> = Vec::new();
        let mut j: usize = 0;
        while j < self.map.len()
            invariant
                f == self@,
                scale_fits(f, scalar as int),
                j <= self.map.len(),
                tiles.len() == j,
                forall|r: int|
                    0 <= r < j ==> field_of_tiles(grid_view(&tiles))[r] == #[trigger] scaled(
                        f,
                        scalar as int,
                    )[r],
            decreases self.map.len() - j,
        {
            let mut row: Vec<DijkstraTile> = Vec::new();
            let mut i: usize = 0;
            while i < self.map[j].len()
                invariant
                    f == self@,
                    scale_fits(f, scalar as int),
                    j < self.map.len(),
                    i <= self.map[j as int].len(),
                    row.len() == i,
                    forall|n: int|
                        0 <= n < i ==> (#[trigger] row[n]).value() == scaled(f, scalar as int)[j as int][n],
                decreases self.map[j as int].len() - i,
            {
                let tile = match self.map[j][i] {
                    DijkstraTile::Value(v) => {
                        proof {
                            let c = (i as int, j as int);
                            assert(in_bounds(f, c));
                            assert(at(f, c) == Some(v as int));
                        }
                        DijkstraTile::Value(scalar * v)
                    },
                    other => other,
                };
                row.push(tile);
                i += 1;
            }
            tiles.push(row);
            proof {
                assert(field_of_tiles(grid_view(&tiles))[j as int] =~= scaled(f, scalar as int)[j as int]);
            }
            j += 1;
        }
        let field = DijkstraMap { map: tiles };
        proof {
            assert(field@ =~= scaled(f, scalar as int));
            if self.wf() {
                assert(same_shape(f, field@));
                lemma_shape_of_grid(f, field@);
            }
        }
        field
    }

    /// Whether `self` and `other` have one shape and every sum of their values
    /// fits a cell.
    pub fn can_combine(&self, other: &DijkstraMap) -> (fits: bool)
        ensures
            fits == (same_shape(self@, other@) && sum_fits(self@, other@)),
    {
        let ghost a = self@;
        let ghost b = other@;
        if self.map.len() != other.map.len() {
            return false;
        }
        let mut j: usize = 0;
        while j < self.map.len()
            invariant
                a == self@,
                b == other@,
                a.len() == b.len(),
                j <= self.map.len(),
                forall|r: int| 0 <= r < j ==> (#[trigger] a[r]).len() == (#[trigger] b[r]).len(),
                forall|c: (int, int)|
                    in_bounds(a, c) && c.1 < j ==> (#[trigger] sum(at(a, c), at(b, c)) matches Some(
                        v,
                    ) ==> i64::MIN <= v <= i64::MAX),
            decreases self.map.len() - j,
        {
            if self.map[j].len() != other.map[j].len() {
                proof {
                    assert(a[j as int].len() != b[j as int].len());
                }
                return false;
            }
            let mut i: usize = 0;
            while i < self.map[j].len()
                invariant
                    a == self@,
                    b == other@,
                    a.len() == b.len(),
                    j < self.map.len(),
                    a[j as int].len() == b[j as int].len(),
                    i <= self.map[j as int].len(),
                    forall|r: int| 0 <= r < j ==> (#[trigger] a[r]).len() == (#[trigger] b[r]).len(),
                    forall|c: (int, int)|
                        in_bounds(a, c) && (c.1 < j || (c.1 == j && c.0 < i)) ==> (#[trigger] sum(
                            at(a, c),
                            at(b, c),
                        ) matches Some(v) ==> i64::MIN <= v <= i64::MAX),
                decreases self.map[j as int].len() - i,
            {
                proof {
                    let c = (i as int, j as int);
                    assert(at(a, c) == self.map[j as int][i as int].value());
                    assert(at(b, c) == other.map[j as int][i as int].value());
                }
                if let DijkstraTile::Value(v) = self.map[j][i] {
                    if let DijkstraTile::Value(w) = other.map[j][i] {
                        if v.checked_add(w).is_none() {
                            proof {
                                let c = (i as int, j as int);
                                assert(in_bounds(a, c));
                                assert(sum(at(a, c), at(b, c)) == Some(v + w));
                            }
                            return false;
                        }
                    }
                }
                i += 1;
            }
            j += 1;
        }
        true
    }

    /// Cell by cell the sum of two fields of one shape: a cell has a value
    /// only where both have one.
    pub fn combine(&self, other: &DijkstraMap) -> (field: DijkstraMap)
        requires
            same_shape(self@, other@),
            sum_fits(self@, other@),
        ensures
            field@ == summed(self@, other@),
            self.wf() ==> field.wf(),
    {
        let ghost a = self@;
        let ghost b = other@;
        let mut tiles: Vec<Vec<DijkstraTile>> = Vec::new();
        let mut j: usize = 0;
        while j < self.map.len()
            invariant
                a == self@,
                b == other@,
                same_shape(a, b),
                sum_fits(a, b),
                j <= self.map.len(),
                tiles.len() == j,
                forall|r: int|
                    0 <= r < j ==> field_of_tiles(grid_view(&tiles))[r] == #[trigger] summed(a, b)[r],
            decreases self.map.len() - j,
        {
            let mut row: Vec<DijkstraTile> = Vec::new();
            let mut i: usize = 0;
            proof {
                assert(a[j as int].len() == b[j as int].len());
            }
            while i < self.map[j].len()
                invariant
                    a == self@,
                    b == other@,
                    same_shape(a, b),
                    sum_fits(a, b),
                    j < self.map.len(),
                    j < other.map.len(),
                    self.map[j as int].len() == other.map[j as int].len(),
                    i <= self.map[j as int].len(),
                    row.len() == i,
                    forall|n: int| 0 <= n < i ==> (#[trigger] row[n]).value() == summed(a, b)[j as int][n],
                decreases self.map[j as int].len() - i,
            {
                proof {
                    let c = (i as int, j as int);
                    assert(in_bounds(a, c));
                    assert(at(a, c) == self.map[j as int][i as int].value());
                    assert(at(b, c) == other.map[j as int][i as int].value());
                    assert(sum(at(a, c), at(b, c)) matches Some(v) ==> i64::MIN <= v <= i64::MAX);
                }
                let tile = match (self.map[j][i], other.map[j][i]) {
                    (DijkstraTile::Value(v), DijkstraTile::Value(w)) => DijkstraTile::Value(v + w),
                    _ => DijkstraTile::Impassable,
                };
                row.push(tile);
                i += 1;
            }
            tiles.push(row);
            proof {
                assert(field_of_tiles(grid_view(&tiles))[j as int] =~= summed(a, b)[j as int]);
            }
            j += 1;
        }
        let field = DijkstraMap { map: tiles };
        proof {
            assert(field@ =~= summed(a, b));
            if self.wf() {
                assert(same_shape(a, field@));
                lemma_shape_of_grid(a, field@);
            }
        }
        field
    }
}

impl PartialEq for DijkstraMap {
    /// Two fields are equal where they have one shape and cell by cell the
    /// same value, or both none.
    fn eq(&self, other: &DijkstraMap) -> (same: bool) {
        let ghost a = self@;
        let ghost b = other@;
        if self.map.len() != other.map.len() {
            return false;
        }
        let mut j: usize = 0;
        while j < self.map.len()
            invariant
                a == self@,
                b == other@,
                a.len() == b.len(),
                j <= self.map.len(),
                forall|r: int| 0 <= r < j ==> #[trigger] a[r] == b[r],
            decreases self.map.len() - j,
        {
            if self.map[j].len() != other.map[j].len() {
                proof {
                    assert(a[j as int].len() != b[j as int].len());
                }
                return false;
            }
            let mut i: usize = 0;
            while i < self.map[j].len()
                invariant
                    a == self@,
                    b == other@,
                    j < self.map.len(),
                    j < other.map.len(),
                    a[j as int].len() == b[j as int].len(),
                    i <= self.map[j as int].len(),
                    forall|n: int| 0 <= n < i ==> #[trigger] a[j as int][n] == b[j as int][n],
                decreases self.map[j as int].len() - i,
            {
                let same = match (self.map[j][i], other.map[j][i]) {
                    (DijkstraTile::Value(v), DijkstraTile::Value(w)) => v == w,
                    (DijkstraTile::Value(_), _) => false,
                    (_, DijkstraTile::Value(_)) => false,
                    _ => true,
                };
                proof {
                    assert(a[j as int][i as int] == self.map[j as int][i as int].value());
                    assert(b[j as int][i as int] == other.map[j as int][i as int].value());
                }
                if !same {
                    proof {
                        assert(a[j as int][i as int] != b[j as int][i as int]);
                    }
                    return false;
                }
                i += 1;
            }
            proof {
                assert(a[j as int] =~= b[j as int]);
            }
            j += 1;
        }
        proof {
            assert(a =~= b);
        }
        true
    }
}

impl PartialEqSpecImpl for DijkstraMap {
    open spec fn obeys_eq_spec() -> bool {
        true
    }

    open spec fn eq_spec(&self, other: &DijkstraMap) -> bool {
        self@ == other@
    }
}

impl Clone for DijkstraMap {
    fn clone(&self) -> (copy: DijkstraMap)
        ensures
            copy@ == self@,
    {
        DijkstraMap { map: copy_tiles(&self.map) }
    }
}

/// The `k`-th king move, in the order in which a step tries them.
fn step_offset(k: usize) -> (d: (i8, i8))
    requires
        k < 8,
    ensures
        (d.0 as int, d.1 as int) == offset(k as int),
{
    match k {
        0 => (-1, 0),
        1 => (0, 1),
        2 => (1, 0),
        3 => (0, -1),
        4 => (-1, 1),
        5 => (1, 1),
        6 => (1, -1),
        _ => (-1, -1),
    }
}

/// `p` moved by `delta`, if that stays below `limit`.
fn moved(p: usize, delta: i8, limit: usize) -> (q: Option<usize>)
    requires
        -1 <= delta <= 1,
        p < limit,
    ensures
        match q {
            Some(v) => v == p + delta && v < limit,
            None => !(0 <= p + delta < limit),
        },
{
    if delta < 0 {
        if p > 0 {
            Some(p - 1)
        } else {
            None
        }
    } else if delta > 0 {
        if p + 1 < limit {
            Some(p + 1)
        } else {
            None
        }
    } else {
        Some(p)
    }
}

/// A copy of a grid of tiles.
fn copy_tiles(tiles: &Vec<Vec<DijkstraTile>>) -> (copy: Vec<Vec<DijkstraTile>>)
    ensures
        grid_view(&copy) == grid_view(tiles),
{
    let mut copy: Vec<Vec<DijkstraTile>> = Vec::new();
    let mut j: usize = 0;
    while j < tiles.len()
        invariant
            j <= tiles.len(),
            copy.len() == j,
            forall|r: int| 0 <= r < j ==> (#[trigger] copy[r])@ == tiles[r]@,
        decreases tiles.len() - j,
    {
        let mut row: Vec<DijkstraTile> = Vec::new();
        let mut i: usize = 0;
        while i < tiles[j].len()
            invariant
                j < tiles.len(),
                i <= tiles[j as int].len(),
                row.len() == i,
                forall|n: int| 0 <= n < i ==> (#[trigger] row[n]) == tiles[j as int][n],
            decreases tiles[j as int].len() - i,
        {
            row.push(tiles[j][i]);
            i += 1;
        }
        assert(row@ =~= tiles[j as int]@);
        copy.push(row);
        j += 1;
    }
    assert(grid_view(&copy) =~= grid_view(tiles));
    copy
}

} // verus!
