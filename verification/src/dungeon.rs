//! The dungeon: its tiles, what can be seen from a tile, and the distance
//! fields that its floor plan gives.

use vstd::prelude::*;
use crate::dijkstra_map::{DijkstraMap, DijkstraTile};
use crate::field::{cells, lemma_cells_take};
use crate::generate::{generate_fractal_dungeon, is_chamber, is_plan, on_rim};
use crate::king_distance::{
    area, at, cell, grid_view, in_bounds, is_distance_field, is_grid, lemma_same_shape_chain, lemma_shape_of_grid, same_shape,
};
use crate::sight::{
    is_sight, lemma_ray_step, lemma_sight_unique, lit, look, near_line, off_line, on_the_way,
    ray_cell, ray_point, ray_step, span, stops, toward, within,
};

verus! {

/// What a tile is made of.
#[derive(Clone, Copy, Debug, PartialEq, Eq, Structural)]
pub enum TerrainType {
    Wall,
    Floor,
    Window,
    Door,
}

/// What is known of a tile.
pub struct TileState {
    /// One can move onto it.
    pub passable: bool,
    /// One can see through it.
    pub transvisible: bool,
    /// It is in sight now.
    pub visible: bool,
    /// It has been in sight before.
    pub explored: bool,
    pub i: usize,
    pub j: usize,
}

/// A tile of a map.
#[derive(Clone, Copy, Debug)]
pub struct Tile {
    passable: bool,
    transvisible: bool,
    visible: bool,
    explored: bool,
    pub i: usize,
    pub j: usize,
}

impl View for Tile {
    type V = TileState;

    closed spec fn view(&self) -> TileState {
        TileState {
            passable: self.passable,
            transvisible: self.transvisible,
            visible: self.visible,
            explored: self.explored,
            i: self.i,
            j: self.j,
        }
    }
}

impl TerrainType {
    /// One can move onto floors and through doors.
    pub open spec fn passable(self) -> bool {
        self is Floor || self is Door
    }

    /// One can see across floors and through windows.
    pub open spec fn transvisible(self) -> bool {
        self is Floor || self is Window
    }
}

impl Tile {
    /// A tile of the given terrain at column `i` of row `j`, not seen yet.
    pub fn new(terrain: TerrainType, i: usize, j: usize) -> (tile: Tile)
        ensures
            tile@ == (TileState {
                passable: terrain.passable(),
                transvisible: terrain.transvisible(),
                visible: false,
                explored: false,
                i,
                j,
            }),
    {
        let (passable, transvisible) = match terrain {
            TerrainType::Wall => (false, false),
            TerrainType::Floor => (true, true),
            TerrainType::Door => (true, false),
            TerrainType::Window => (false, true),
        };
        Tile { passable, transvisible, visible: false, explored: false, i, j }
    }

    /// Brings the tile into sight.
    pub fn see(&mut self)
        ensures
            final(self)@ == (TileState { visible: true, explored: true, ..old(self)@ }),
    {
        self.visible = true;
        self.explored = true;
    }

    /// Takes the tile out of sight.
    pub fn unsee(&mut self)
        ensures
            final(self)@ == (TileState { visible: false, ..old(self)@ }),
    {
        self.visible = false;
    }

    /// Whether the tile is in sight now.
    pub fn visible(&self) -> (b: bool)
        ensures
            b == self@.visible,
    {
        self.visible
    }

    /// Whether one can move onto the tile.
    pub fn is_passable(&self) -> (b: bool)
        ensures
            b == self@.passable,
    {
        self.passable
    }

    /// Whether one can see through the tile.
    pub fn is_transvisible(&self) -> (b: bool)
        ensures
            b == self@.transvisible,
    {
        self.transvisible
    }

    /// Whether the tile has been in sight before.
    pub fn is_explored(&self) -> (b: bool)
        ensures
            b == self@.explored,
    {
        self.explored
    }
}

/// The floor plan as the field builder reads it: a tile that one cannot move
/// onto is impassable, and of the others those listed in `goals` are goals.
pub open spec fn classified(tiles: Seq<Seq<TileState>>, goals: Seq<(int, int)>) -> Seq<
    Seq<DijkstraTile>,
> {
    Seq::new(
        tiles.len(),
        |j: int|
            Seq::new(
                tiles[j].len(),
                |i: int|
                    if !tiles[j][i].passable {
                        DijkstraTile::Impassable
                    } else if goals.contains((i, j)) {
                        DijkstraTile::Goal
                    } else {
                        DijkstraTile::Passable
                    },
            ),
    )
}

/// Where one can see through, row by row.
pub open spec fn clear_of(tiles: Seq<Seq<TileState>>) -> Seq<Seq<bool>> {
    Seq::new(tiles.len(), |j: int| Seq::new(tiles[j].len(), |i: int| tiles[j][i].transvisible))
}

/// The tiles of a dungeon, as rows.
pub struct DungeonMap {
    pub grid: Vec<Vec<Tile>>,
}

impl DungeonMap {
    /// The states of the tiles, row by row.
    pub open spec fn view(&self) -> Seq<Seq<TileState>> {
        Seq::new(
            self.grid.len() as nat,
            |j: int| Seq::new(self.grid[j].len() as nat, |i: int| self.grid[j][i]@),
        )
    }

    /// Where one can see through, row by row.
    pub open spec fn clear(&self) -> Seq<Seq<bool>> {
        clear_of(self@)
    }

    /// A map has at least one tile, and every row is as long as the first.
    pub open spec fn wf(&self) -> bool {
        &&& is_grid(self@)
        &&& self@.len() <= isize::MAX
        &&& self@[0].len() <= isize::MAX
    }

    /// A dungeon of `size` by `size` tiles, laid out at random: walls all
    /// around, rooms and the walls between them inside. No tile has been seen.
    pub fn new(size: usize) -> (map: DungeonMap)
        requires
            1 <= size <= isize::MAX,
        ensures
            map.wf(),
            map@.len() == size,
            map@[0].len() == size,
            forall|c: (int, int)|
                in_bounds(map@, c) ==> {
                    let tile = #[trigger] at(map@, c);
                    &&& tile.i == c.0
                    &&& tile.j == c.1
                    &&& !tile.visible
                    &&& !tile.explored
                    &&& on_rim(map@, c) ==> !tile.passable && !tile.transvisible
                    &&& is_chamber(map@, c) ==> tile.passable && tile.transvisible
                },
    {
        let terrain = generate_fractal_dungeon(size, size);
        let ghost plan = grid_view(&terrain);
        let mut grid: Vec<Vec<Tile>> = Vec::new();
        let mut j: usize = 0;
        while j < terrain.len()
            invariant
                plan == grid_view(&terrain),
                is_plan(plan),
                j <= terrain.len(),
                grid.len() == j,
                forall|r: int| 0 <= r < j ==> (#[trigger] grid[r]).len() == plan[r].len(),
                forall|r: int, i: int|
                    0 <= r < j && 0 <= i < plan[r].len() ==> (#[trigger] grid[r][i])@ == (TileState {
                        passable: plan[r][i].passable(),
                        transvisible: plan[r][i].transvisible(),
                        visible: false,
                        explored: false,
                        i: i as usize,
                        j: r as usize,
                    }),
            decreases terrain.len() - j,
        {
            let mut row: Vec<Tile> = Vec::new();
            let mut i: usize = 0;
            while i < terrain[j].len()
                invariant
                    plan == grid_view(&terrain),
                    j < terrain.len(),
                    i <= terrain[j as int].len(),
                    row.len() == i,
                    forall|n: int|
                        0 <= n < i ==> (#[trigger] row[n])@ == (TileState {
                            passable: plan[j as int][n].passable(),
                            transvisible: plan[j as int][n].transvisible(),
                            visible: false,
                            explored: false,
                            i: n as usize,
                            j,
                        }),
                decreases terrain[j as int].len() - i,
            {
                row.push(Tile::new(terrain[j][i], i, j));
                i += 1;
            }
            grid.push(row);
            j += 1;
        }
        let map = DungeonMap { grid };
        proof {
            assert(same_shape(plan, map@));
            lemma_shape_of_grid(plan, map@);
            assert forall|c: (int, int)| in_bounds(map@, c) implies {
                let tile = #[trigger] at(map@, c);
                &&& tile.i == c.0
                &&& tile.j == c.1
                &&& !tile.visible
                &&& !tile.explored
                &&& on_rim(map@, c) ==> !tile.passable && !tile.transvisible
                &&& is_chamber(map@, c) ==> tile.passable && tile.transvisible
            } by {
                assert(in_bounds(plan, c));
                assert(at(map@, c) == map.grid[c.1][c.0]@);
                if on_rim(map@, c) {
                    assert(on_rim(plan, c));
                    assert(at(plan, c) is Wall);
                }
                if is_chamber(map@, c) {
                    assert(is_chamber(plan, c));
                    assert(at(plan, c) is Floor);
                }
            }
        }
        map
    }

    /// The tile at column `i` of row `j`.
    pub fn tile(&self, i: usize, j: usize) -> (tile: &Tile)
        requires
            in_bounds(self@, (i as int, j as int)),
        ensures
            tile@ == at(self@, (i as int, j as int)),
    {
        &self.grid[j][i]
    }

    /// The number of columns: the length of the first row.
    pub fn width(&self) -> (w: usize)
        requires
            self.grid.len() > 0,
        ensures
            w == self.grid[0].len(),
    {
        self.grid[0].len()
    }

    /// The number of rows.
    pub fn height(&self) -> (h: usize)
        ensures
            h == self.grid.len(),
    {
        self.grid.len()
    }

    /// The field of distances to the nearest of `goals` over the tiles one can
    /// move onto. A goal on a tile that one cannot move onto counts for nothing.
    pub fn get_dijkstra_map(&self, goals: Vec<(usize, usize)>) -> (field: DijkstraMap)
        requires
            self.wf(),
            area(self@) <= i64::MAX,
            forall|n: int| 0 <= n < goals.len() ==> in_bounds(self@, cell(#[trigger] goals[n])),
        ensures
            field.wf(),
            same_shape(self@, field@),
            is_distance_field(classified(self@, cells(goals@)), field@),
            forall|c: (int, int)|
                in_bounds(self@, c) ==> (#[trigger] at(field@, c) matches Some(d) ==> 0 <= d < area(
                    self@,
                )),
    {
        let ghost tiles = self@;
        let mut map: Vec<Vec<DijkstraTile>> = Vec::new();
        let mut j: usize = 0;
        while j < self.grid.len()
            invariant
                tiles == self@,
                j <= self.grid.len(),
                map.len() == j,
                forall|r: int| 0 <= r < j ==> (#[trigger] map[r]).len() == tiles[r].len(),
                forall|r: int, i: int|
                    0 <= r < j && 0 <= i < tiles[r].len() ==> (#[trigger] map[r][i]) == (if tiles[r][i].passable {
                        DijkstraTile::Passable
                    } else {
                        DijkstraTile::Impassable
                    }),
            decreases self.grid.len() - j,
        {
            let mut row: Vec<DijkstraTile> = Vec::new();
            let mut i: usize = 0;
            while i < self.grid[j].len()
                invariant
                    tiles == self@,
                    j < self.grid.len(),
                    i <= self.grid[j as int].len(),
                    row.len() == i,
                    forall|n: int|
                        0 <= n < i ==> (#[trigger] row[n]) == (if tiles[j as int][n].passable {
                            DijkstraTile::Passable
                        } else {
                            DijkstraTile::Impassable
                        }),
                decreases self.grid[j as int].len() - i,
            {
                let tile = if self.grid[j][i].is_passable() {
                    DijkstraTile::Passable
                } else {
                    DijkstraTile::Impassable
                };
                row.push(tile);
                i += 1;
            }
            map.push(row);
            j += 1;
        }
        proof {
            assert(same_shape(tiles, grid_view(&map)));
            assert(goals@.take(0) =~= Seq::empty());
            assert(cells(goals@.take(0)) =~= Seq::empty());
        }
        let mut n: usize = 0;
        while n < goals.len()
            invariant
                tiles == self@,
                n <= goals.len(),
                same_shape(tiles, grid_view(&map)),
                forall|m: int| 0 <= m < goals.len() ==> in_bounds(tiles, cell(#[trigger] goals[m])),
                forall|c: (int, int)|
                    in_bounds(tiles, c) ==> #[trigger] at(grid_view(&map), c) == at(
                        classified(tiles, cells(goals@.take(n as int))),
                        c,
                    ),
            decreases goals.len() - n,
        {
            let (i, j) = goals[n];
            let ghost before = grid_view(&map);
            proof {
                assert(in_bounds(tiles, cell(goals[n as int])));
                assert(tiles[j as int].len() == before[j as int].len());
                assert(at(before, (i as int, j as int)) == at(
                    classified(tiles, cells(goals@.take(n as int))),
                    (i as int, j as int),
                ));
            }
            match map[j][i] {
                DijkstraTile::Passable => {
                    map[j][i] = DijkstraTile::Goal;
                },
                _ => {},
            }
            proof {
                let after = grid_view(&map);
                assert(same_shape(before, after));
                lemma_same_shape_chain(tiles, before, after);
                assert forall|c: (int, int)| in_bounds(tiles, c) implies #[trigger] at(after, c)
                    == at(classified(tiles, cells(goals@.take(n + 1))), c) by {
                    lemma_cells_take(goals@, n as int, c);
                    assert(tiles[c.1].len() == before[c.1].len());
                    assert(at(before, c) == at(
                        classified(tiles, cells(goals@.take(n as int))),
                        c,
                    ));
                    if c.1 != j {
                        assert(after[c.1] == before[c.1]);
                    }
                }
            }
            n += 1;
        }
        proof {
            assert(goals@.take(goals.len() as int) =~= goals@);
            let want = classified(tiles, cells(goals@));
            assert(grid_view(&map) =~~= want) by {
                assert forall|r: int| 0 <= r < want.len() implies #[trigger] grid_view(&map)[r]
                    =~= want[r] by {
                    assert(tiles[r].len() == grid_view(&map)[r].len());
                    assert forall|i: int| 0 <= i < want[r].len() implies grid_view(&map)[r][i]
                        == want[r][i] by {
                        assert(in_bounds(tiles, (i, r)));
                        assert(at(grid_view(&map), (i, r)) == at(want, (i, r)));
                    }
                }
            }
            lemma_shape_of_grid(tiles, want);
        }
        DijkstraMap::new(&map)
    }

    /// Looks around from `origin`: the tiles in sight within fourteen cells
    /// become visible and explored, every other tile goes out of sight.
    pub fn update_vision(&mut self, origin: (usize, usize))
        requires
            old(self).wf(),
            in_bounds(old(self)@, cell(origin)),
        ensures
            final(self).wf(),
            same_shape(old(self)@, final(self)@),
            forall|c: (int, int)|
                in_bounds(old(self)@, c) ==> #[trigger] at(final(self)@, c) == (TileState {
                    visible: lit(old(self).clear(), cell(origin), 14, c),
                    explored: at(old(self)@, c).explored || lit(
                        old(self).clear(),
                        cell(origin),
                        14,
                        c,
                    ),
                    ..at(old(self)@, c)
                }),
    {
        let (i, j) = origin;
        let ghost before = self@;
        let ghost clear = self.clear();
        let mut r: usize = 0;
        while r < self.grid.len()
            invariant
                same_shape(before, self@),
                self.grid.len() == old(self).grid.len(),
                r <= self.grid.len(),
                forall|c: (int, int)|
                    in_bounds(before, c) ==> #[trigger] at(self@, c) == (if c.1 < r {
                        TileState { visible: false, ..at(before, c) }
                    } else {
                        at(before, c)
                    }),
            decreases self.grid.len() - r,
        {
            let mut k: usize = 0;
            while k < self.grid[r].len()
                invariant
                    same_shape(before, self@),
                    self.grid.len() == old(self).grid.len(),
                    r < self.grid.len(),
                    k <= self.grid[r as int].len(),
                    forall|c: (int, int)|
                        in_bounds(before, c) ==> #[trigger] at(self@, c) == (if c.1 < r || (c.1 == r
                            && c.0 < k) {
                            TileState { visible: false, ..at(before, c) }
                        } else {
                            at(before, c)
                        }),
                decreases self.grid[r as int].len() - k,
            {
                let ghost earlier = self@;
                self.grid[r][k].unsee();
                proof {
                    assert(same_shape(earlier, self@));
                    lemma_same_shape_chain(before, earlier, self@);
                    assert forall|c: (int, int)| in_bounds(before, c) implies #[trigger] at(
                        self@,
                        c,
                    ) == (if c.1 < r || (c.1 == r && c.0 < k + 1) {
                        TileState { visible: false, ..at(before, c) }
                    } else {
                        at(before, c)
                    }) by {
                        assert(before[c.1].len() == earlier[c.1].len());
                        assert(at(earlier, c) == (if c.1 < r || (c.1 == r && c.0 < k) {
                            TileState { visible: false, ..at(before, c) }
                        } else {
                            at(before, c)
                        }));
                    }
                }
                k += 1;
            }
            r += 1;
        }
        proof {
            lemma_shape_of_grid(before, self@);
            assert(self.clear() =~~= clear) by {
                assert forall|n: int| 0 <= n < clear.len() implies #[trigger] self.clear()[n]
                    =~= clear[n] by {
                    assert(before[n].len() == self@[n].len());
                    assert forall|m: int| 0 <= m < clear[n].len() implies self.clear()[n][m]
                        == clear[n][m] by {
                        assert(in_bounds(before, (m, n)));
                        assert(at(self@, (m, n)).transvisible == at(before, (m, n)).transvisible);
                    }
                }
            }
            assert(self.wf());
            assert(before[j as int].len() == before[0].len());
            assert(in_bounds(self@, cell(origin)));
            assert(in_bounds(self.clear(), cell(origin)));
        }
        let cells = fov(self, i as isize, j as isize, 14);
        let ghost wiped = self@;
        let mut n: usize = 0;
        while n < cells.len()
            invariant
                same_shape(before, self@),
                same_shape(wiped, self@),
                n <= cells.len(),
                forall|m: int| 0 <= m < cells.len() ==> in_bounds(wiped, cell(#[trigger] cells[m])),
                forall|c: (int, int)|
                    in_bounds(wiped, c) ==> #[trigger] at(self@, c) == (if listed_before(
                        cells@,
                        n as int,
                        c,
                    ) {
                        TileState { visible: true, explored: true, ..at(wiped, c) }
                    } else {
                        at(wiped, c)
                    }),
            decreases cells.len() - n,
        {
            let (ci, cj) = cells[n];
            let ghost earlier = self@;
            proof {
                assert(in_bounds(wiped, cell(cells[n as int])));
                assert(wiped[cj as int].len() == earlier[cj as int].len());
            }
            self.grid[cj][ci].see();
            proof {
                assert(same_shape(earlier, self@));
                lemma_same_shape_chain(before, earlier, self@);
                lemma_same_shape_chain(wiped, earlier, self@);
                assert forall|c: (int, int)| in_bounds(wiped, c) implies #[trigger] at(self@, c) == (
                if listed_before(cells@, n + 1, c) {
                    TileState { visible: true, explored: true, ..at(wiped, c) }
                } else {
                    at(wiped, c)
                }) by {
                    assert(wiped[c.1].len() == earlier[c.1].len());
                    assert(at(earlier, c) == (if listed_before(cells@, n as int, c) {
                        TileState { visible: true, explored: true, ..at(wiped, c) }
                    } else {
                        at(wiped, c)
                    }));
                    if listed_before(cells@, n as int, c) {
                        let m = choose|m: int|
                            0 <= m < n && m < cells@.len() && cell(#[trigger] cells@[m]) == c;
                        assert(0 <= m < n + 1);
                    }
                    if c == cell(cells@[n as int]) {
                        assert(listed_before(cells@, n + 1, c));
                    }
                    if listed_before(cells@, n + 1, c) && c != cell(cells@[n as int]) {
                        let m = choose|m: int|
                            0 <= m < n + 1 && m < cells@.len() && cell(#[trigger] cells@[m]) == c;
                        assert(0 <= m < n);
                    }
                }
            }
            n += 1;
        }
        proof {
            assert forall|c: (int, int)| in_bounds(before, c) implies #[trigger] at(self@, c) == (
            TileState {
                visible: lit(clear, cell(origin), 14, c),
                explored: at(before, c).explored || lit(clear, cell(origin), 14, c),
                ..at(before, c)
            }) by {
                assert(before[c.1].len() == wiped[c.1].len());
                assert(at(wiped, c) == TileState { visible: false, ..at(before, c) });
            }
            lemma_shape_of_grid(before, self@);
        }
    }
}

/// Whether `4 * g * g < d`, for numbers whose squares need not fit a machine integer.
fn near(g: i128, d: u128) -> (b: bool)
    requires
        -0x1_0000_0000_0000_0000 <= g <= 0x1_0000_0000_0000_0000,
    ensures
        b == (4 * (g * g) < d),
{
    let m: u128 = if g < 0 { (-g) as u128 } else { g as u128 };
    assert(m * m == g * g) by (nonlinear_arith)
        requires
            m == g || m == -g,
    ;
    if m >= 0x8000_0000_0000_0000 {
        assert(4 * (m * m) >= 0x1_0000_0000_0000_0000_0000_0000_0000_0000) by (nonlinear_arith)
            requires
                m >= 0x8000_0000_0000_0000,
        ;
        false
    } else {
        assert(4 * (m * m) < 0x1_0000_0000_0000_0000_0000_0000_0000_0000 && m * m >= 0) by (nonlinear_arith)
            requires
                0 <= m < 0x8000_0000_0000_0000,
        ;
        let m2: u128 = m * m;
        4 * m2 < d
    }
}

/// What a look from `(x0, y0)` towards `(x1, y1)` meets.
///
/// The look follows a ray of cells from the origin to the target, each step
/// along x, along y or along both, never further than half a cell from the
/// straight line. It meets the first cell after the origin that cannot be seen
/// through, or else the target; it meets nothing if the target lies outside
/// the map.
pub fn los(map: &DungeonMap, x0: isize, y0: isize, x1: isize, y1: isize) -> (seen: Option<(usize, usize)>)
    requires
        map.wf(),
        in_bounds(map.clear(), (x1 as int, y1 as int)) ==> in_bounds(
            map.clear(),
            (x0 as int, y0 as int),
        ),
    ensures
        is_sight(
            map.clear(),
            (x0 as int, y0 as int),
            (x1 as int, y1 as int),
            match seen {
                Some(c) => Some(cell(c)),
                None => None,
            },
        ),
        seen matches Some(c) ==> in_bounds(map.clear(), cell(c)),
{
    let ghost clear = map.clear();
    let ghost o = (x0 as int, y0 as int);
    let ghost t = (x1 as int, y1 as int);
    proof {
        assert(map@[0].len() == clear[0].len());
        assert forall|j: int| 0 <= j < clear.len() implies (#[trigger] clear[j]).len()
            == clear[0].len() by {
            assert(map@[j].len() == map@[0].len());
        }
    }
    if x1 < 0 || y1 < 0 || x1 as usize >= map.width() || y1 as usize >= map.height() {
        return None;
    }
    proof {
        assert(clear[t.1].len() == clear[0].len());
        assert(in_bounds(clear, t));
        assert(is_grid(clear));
    }
    if x0 == x1 && y0 == y1 {
        proof {
            let start = ray_point(span(o.0, t.0), span(o.1, t.1), 0);
            assert(start == (0int, 0int));
            assert(toward(o.0, t.0) * start.0 == 0 && toward(o.1, t.1) * start.1 == 0) by (nonlinear_arith)
                requires
                    start == (0int, 0int),
            ;
            assert(ray_cell(o, t, 0) == t);
            assert(stops(clear, o, t, 0));
        }
        return Some((x0 as usize, y0 as usize));
    }
    let forward_x = x0 < x1;
    let forward_y = y0 < y1;
    let a: i128 = if forward_x { x1 as i128 - x0 as i128 } else { x0 as i128 - x1 as i128 };
    let b: i128 = if forward_y { y1 as i128 - y0 as i128 } else { y0 as i128 - y1 as i128 };
    assert(a * a + b * b < 0x8000_0000_0000_0000_0000_0000_0000_0000 && a * a >= 0 && b * b >= 0) by (nonlinear_arith)
        requires
            0 <= a < 0x8000_0000_0000_0000,
            0 <= b < 0x8000_0000_0000_0000,
    ;
    let d: u128 = (a * a + b * b) as u128;
    let mut x = x0;
    let mut y = y0;
    let mut f: i128 = 0;
    let ghost mut n: nat = 0;
    let ghost mut p: (int, int) = (0, 0);
    proof {
        assert(ray_point(a as int, b as int, 0) == (0int, 0int));
        assert(off_line(a as int, b as int, p) == 0) by (nonlinear_arith)
            requires
                p == (0int, 0int),
        ;
        assert(a * a + b * b > 0) by (nonlinear_arith)
            requires
                a > 0 || b > 0,
                a >= 0,
                b >= 0,
        ;
    }
    while x != x1 || y != y1
        invariant
            map.wf(),
            clear == map.clear(),
            is_grid(clear),
            o == (x0 as int, y0 as int),
            t == (x1 as int, y1 as int),
            in_bounds(clear, o),
            in_bounds(clear, t),
            forward_x == (x0 < x1),
            forward_y == (y0 < y1),
            a == span(o.0, t.0),
            b == span(o.1, t.1),
            0 <= a < 0x8000_0000_0000_0000,
            0 <= b < 0x8000_0000_0000_0000,
            d == a * a + b * b,
            a * a + b * b < 0x8000_0000_0000_0000_0000_0000_0000_0000,
            p == ray_point(a as int, b as int, n),
            0 <= p.0 <= a,
            0 <= p.1 <= b,
            x == o.0 + toward(o.0, t.0) * p.0,
            y == o.1 + toward(o.1, t.1) * p.1,
            f == off_line(a as int, b as int, p),
            near_line(a as int, b as int, p),
            forall|m: nat| m < n ==> !#[trigger] stops(clear, o, t, m),
        decreases (a - p.0) + (b - p.1),
    {
        let ghost here = (x as int, y as int);
        proof {
            assert(ray_cell(o, t, n) == here);
            assert(p != (a as int, b as int)) by {
                if p == (a as int, b as int) {
                    assert(toward(o.0, t.0) * a == t.0 - o.0) by (nonlinear_arith)
                        requires
                            a == span(o.0, t.0),
                    ;
                    assert(toward(o.1, t.1) * b == t.1 - o.1) by (nonlinear_arith)
                        requires
                            b == span(o.1, t.1),
                    ;
                }
            }
            assert(on_the_way(a as int, b as int, p));
            assert(clear[o.1].len() == clear[0].len());
            assert(clear[t.1].len() == clear[0].len());
            assert(toward(o.0, t.0) * p.0 == if o.0 < t.0 {
                p.0
            } else {
                -p.0
            }) by (nonlinear_arith);
            assert(toward(o.1, t.1) * p.1 == if o.1 < t.1 {
                p.1
            } else {
                -p.1
            }) by (nonlinear_arith);
            assert(0 <= here.0 < clear[0].len() && 0 <= here.1 < clear.len());
            assert(clear[here.1].len() == clear[0].len());
            assert(map@[here.1].len() == clear[here.1].len());
        }
        if !map.grid[y as usize][x as usize].is_transvisible() && !(x == x0 && y == y0) {
            proof {
                assert(at(clear, here) == map.grid[here.1][here.0]@.transvisible);
                assert(stops(clear, o, t, n));
            }
            return Some((x as usize, y as usize));
        }
        proof {
            assert(at(clear, here) == map.grid[here.1][here.0]@.transvisible);
            assert(!stops(clear, o, t, n));
            lemma_ray_step(a as int, b as int, p);
            assert(off_line(a as int, b as int, (p.0 + 1, p.1)) == f + b && off_line(
                a as int,
                b as int,
                (p.0, p.1 + 1),
            ) == f - a && off_line(a as int, b as int, (p.0 + 1, p.1 + 1)) == f + b - a) by (nonlinear_arith)
                requires
                    f == off_line(a as int, b as int, p),
            ;
            assert(4 * (f * f) < 0x8000_0000_0000_0000_0000_0000_0000_0000);
            assert(-0x8000_0000_0000_0000 < f < 0x8000_0000_0000_0000) by (nonlinear_arith)
                requires
                    4 * (f * f) < 0x8000_0000_0000_0000_0000_0000_0000_0000,
            ;
        }
        let ghost q = ray_step(a as int, b as int, p);
        if near(f + b, d) {
            x = if forward_x { x + 1 } else { x - 1 };
            f = f + b;
        } else if near(f - a, d) {
            y = if forward_y { y + 1 } else { y - 1 };
            f = f - a;
        } else {
            x = if forward_x { x + 1 } else { x - 1 };
            y = if forward_y { y + 1 } else { y - 1 };
            f = f + b - a;
        }
        proof {
            assert(toward(o.0, t.0) * q.0 == toward(o.0, t.0) * p.0 + toward(o.0, t.0) * (q.0
                - p.0)) by (nonlinear_arith);
            assert(toward(o.1, t.1) * q.1 == toward(o.1, t.1) * p.1 + toward(o.1, t.1) * (q.1
                - p.1)) by (nonlinear_arith);
            n = n + 1;
            p = q;
            assert(ray_point(a as int, b as int, n) == q);
        }
    }
    proof {
        assert(ray_cell(o, t, n) == t);
        assert(stops(clear, o, t, n));
    }
    Some((x1 as usize, y1 as usize))
}


/// One of the first `k` entries of `s` is the cell `c`.
pub open spec fn listed_before(s: Seq<(usize, usize)>, k: int, c: (int, int)) -> bool {
    exists|n: int| 0 <= n < k && n < s.len() && cell(#[trigger] s[n]) == c
}

proof fn lemma_within(di: int, dj: int, radius: int, r: int)
    requires
        within(di, dj, radius),
        r == if radius < 0 {
            -radius
        } else {
            radius
        },
    ensures
        -r < di < r,
        -r < dj < r,
{
    assert(radius * radius == r * r) by (nonlinear_arith)
        requires
            r == radius || r == -radius,
    ;
    assert(di * di < r * r && dj * dj < r * r) by (nonlinear_arith)
        requires
            di * di + dj * dj < r * r,
    ;
    assert(-r < di < r) by (nonlinear_arith)
        requires
            di * di < r * r,
            r >= 0,
    ;
    assert(-r < dj < r) by (nonlinear_arith)
        requires
            dj * dj < r * r,
            r >= 0,
    ;
}

/// The cells in sight from `(x, y)`: what a look meets towards each cell less
/// than `radius` away.
///
/// One ray is walked for each cell inside the circle, so a cell may be listed
/// more than once.
pub fn fov(map: &DungeonMap, x: isize, y: isize, radius: isize) -> (cells: Vec<(usize, usize)>)
    requires
        map.wf(),
        forall|di: int, dj: int|
            #[trigger] within(di, dj, radius as int) && in_bounds(map.clear(), (x + di, y + dj))
                ==> in_bounds(map.clear(), (x as int, y as int)),
    ensures
        forall|c: (int, int)|
            listed_before(cells@, cells.len() as int, c) <==> lit(
                map.clear(),
                (x as int, y as int),
                radius as int,
                c,
            ),
        forall|n: int| 0 <= n < cells.len() ==> in_bounds(map.clear(), cell(#[trigger] cells[n])),
{
    let ghost clear = map.clear();
    let ghost o = (x as int, y as int);
    let mut cells: Vec<(usize, usize)> = Vec::new();
    let r: i128 = if radius < 0 { -(radius as i128) } else { radius as i128 };
    assert(r * r <= 0x4000_0000_0000_0000_0000_0000_0000_0000) by (nonlinear_arith)
        requires
            0 <= r <= 0x8000_0000_0000_0000,
    ;
    let rr: i128 = r * r;
    let mut i: i128 = -r;
    proof {
        assert(r * r == radius * radius) by (nonlinear_arith)
            requires
                r == radius || r == -radius,
        ;
        assert forall|di: int, dj: int, c: (int, int)|
            di < i && within(di, dj, radius as int) && #[trigger] look(
                clear,
                o,
                di,
                dj,
                c,
            ) implies listed_before(cells@, cells.len() as int, c) by {
            lemma_within(di, dj, radius as int, r as int);
        }
    }
    while i <= r
        invariant
            map.wf(),
            clear == map.clear(),
            o == (x as int, y as int),
            r == if radius < 0 {
                -radius
            } else {
                radius as int
            },
            0 <= r <= 0x8000_0000_0000_0000,
            rr == r * r,
            rr == radius * radius,
            -r <= i <= r + 1,
            forall|di: int, dj: int|
                #[trigger] within(di, dj, radius as int) && in_bounds(clear, (o.0 + di, o.1 + dj))
                    ==> in_bounds(clear, o),
            forall|n: int| 0 <= n < cells.len() ==> in_bounds(clear, cell(#[trigger] cells[n])),
            forall|c: (int, int)|
                listed_before(cells@, cells.len() as int, c) ==> lit(clear, o, radius as int, c),
            forall|di: int, dj: int, c: (int, int)|
                di < i && within(di, dj, radius as int) && #[trigger] look(clear, o, di, dj, c)
                    ==> listed_before(cells@, cells.len() as int, c),
        decreases r + 1 - i,
    {
        let mut j: i128 = -r;
        proof {
            assert forall|di: int, dj: int, c: (int, int)|
                (di < i || (di == i && dj < j)) && within(di, dj, radius as int) && #[trigger] look(
                    clear,
                    o,
                    di,
                    dj,
                    c,
                ) implies listed_before(cells@, cells.len() as int, c) by {
                lemma_within(di, dj, radius as int, r as int);
            }
        }
        while j <= r
            invariant
                map.wf(),
                clear == map.clear(),
                o == (x as int, y as int),
                r == if radius < 0 {
                    -radius
                } else {
                    radius as int
                },
                0 <= r <= 0x8000_0000_0000_0000,
                rr == r * r,
                rr == radius * radius,
                -r <= i <= r,
                -r <= j <= r + 1,
                forall|di: int, dj: int|
                    #[trigger] within(di, dj, radius as int) && in_bounds(
                        clear,
                        (o.0 + di, o.1 + dj),
                    ) ==> in_bounds(clear, o),
                forall|n: int| 0 <= n < cells.len() ==> in_bounds(clear, cell(#[trigger] cells[n])),
                forall|c: (int, int)|
                    listed_before(cells@, cells.len() as int, c) ==> lit(clear, o, radius as int, c),
                forall|di: int, dj: int, c: (int, int)|
                    (di < i || (di == i && dj < j)) && within(di, dj, radius as int) && #[trigger] look(
                        clear,
                        o,
                        di,
                        dj,
                        c,
                    ) ==> listed_before(cells@, cells.len() as int, c),
            decreases r + 1 - j,
        {
            assert(i * i <= r * r && j * j <= r * r && i * i >= 0 && j * j >= 0) by (nonlinear_arith)
                requires
                    -r <= i <= r,
                    -r <= j <= r,
            ;
            let ghost before = cells@;
            let mut seen: Option<(usize, usize)> = None;
            let ii: i128 = i * i;
            let jj: i128 = j * j;
            if (ii as u128) + (jj as u128) < rr as u128 {
                let tx: i128 = x as i128 + i;
                let ty: i128 = y as i128 + j;
                assert(within(i as int, j as int, radius as int));
                if isize::MIN as i128 <= tx && tx <= isize::MAX as i128 && isize::MIN as i128 <= ty
                    && ty <= isize::MAX as i128 {
                    seen = los(map, x, y, tx as isize, ty as isize);
                } else {
                    proof {
                        assert(!in_bounds(clear, (tx as int, ty as int))) by {
                            if 0 <= ty < clear.len() {
                                assert(map@[ty as int].len() == map@[0].len());
                            }
                        }
                    }
                }
                proof {
                    assert(is_sight(
                        clear,
                        o,
                        (o.0 + i, o.1 + j),
                        match seen {
                            Some(c) => Some(cell(c)),
                            None => None,
                        },
                    ));
                }
                if let Some(c) = seen {
                    cells.push(c);
                    proof {
                        assert(look(clear, o, i as int, j as int, cell(c)));
                        assert(lit(clear, o, radius as int, cell(c)));
                    }
                }
            }
            proof {
                assert forall|c: (int, int)|
                    listed_before(cells@, cells.len() as int, c) implies lit(
                    clear,
                    o,
                    radius as int,
                    c,
                ) by {
                    let n = choose|n: int|
                        0 <= n < cells.len() && n < cells@.len() && cell(#[trigger] cells@[n]) == c;
                    if n < before.len() {
                        assert(cell(before[n]) == c);
                        assert(listed_before(before, before.len() as int, c));
                    }
                }
                assert forall|di: int, dj: int, c: (int, int)|
                    (di < i || (di == i && dj < j + 1)) && within(di, dj, radius as int) && #[trigger] look(
                        clear,
                        o,
                        di,
                        dj,
                        c,
                    ) implies listed_before(cells@, cells.len() as int, c) by {
                    if di == i && dj == j {
                        lemma_sight_unique(
                            clear,
                            o,
                            (o.0 + i, o.1 + j),
                            Some(c),
                            match seen {
                                Some(c) => Some(cell(c)),
                                None => None,
                            },
                        );
                        assert(cell(cells@[cells.len() - 1]) == c);
                    } else {
                        assert(listed_before(before, before.len() as int, c));
                        let n = choose|n: int|
                            0 <= n < before.len() && n < before.len() && cell(#[trigger] before[n])
                                == c;
                        assert(cell(cells@[n]) == c);
                    }
                }
            }
            j += 1;
        }
        proof {
            assert forall|di: int, dj: int, c: (int, int)|
                di < i + 1 && within(di, dj, radius as int) && #[trigger] look(
                    clear,
                    o,
                    di,
                    dj,
                    c,
                ) implies listed_before(cells@, cells.len() as int, c) by {
                lemma_within(di, dj, radius as int, r as int);
            }
        }
        i += 1;
    }
    proof {
        assert forall|c: (int, int)| lit(clear, o, radius as int, c) implies listed_before(
            cells@,
            cells.len() as int,
            c,
        ) by {
            let (di, dj) = choose|di: int, dj: int|
                within(di, dj, radius as int) && #[trigger] look(clear, o, di, dj, c);
            lemma_within(di, dj, radius as int, r as int);
        }
    }
    cells
}

} // verus!
