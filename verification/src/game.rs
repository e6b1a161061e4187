//! The game: a player and cowardly creatures in a dungeon, one turn for each
//! command of the player.

use vstd::prelude::*;
use crate::dungeon::{classified, clear_of, listed_before, los, DungeonMap, TileState};
use crate::field::{
    cells, is_next_step, lemma_next_step_near, lemma_shapes_kept, masked, scaled, sum, summed,
};
use crate::generate::{lemma_shuffled_members, shuffle};
use crate::king_distance::{
    area, at, cell, in_bounds, is_distance_field, lemma_same_shape_chain, lemma_shape_of_grid,
    same_shape,
};
use crate::object::{Behavior, Creature};
use crate::sight::{is_sight, lemma_sight_unique, lit};

verus! {

/// What the player asks for.
#[derive(Clone, Copy, Debug, PartialEq, Eq, Structural)]
pub enum Command {
    /// Nothing yet: no turn is played.
    Idle,
    /// A move by so many columns and rows.
    Move(isize, isize),
    /// A step towards the nearest tile not yet explored.
    Automove,
}

/// The state of a game: the dungeon, the player and the other creatures.
pub struct Game {
    player: Creature,
    map: DungeonMap,
    creatures: Vec<Creature>,
}

/// Where a creature stands.
pub open spec fn spot(creature: Creature) -> (int, int) {
    (creature.object.i as int, creature.object.j as int)
}

/// One may move onto the cell `c`: it is a tile of the map that one can move
/// onto, and nobody stands there.
pub open spec fn can_enter(tiles: Seq<Seq<TileState>>, taken: Seq<(int, int)>, c: (int, int)) -> bool {
    in_bounds(tiles, c) && at(tiles, c).passable && !taken.contains(c)
}

/// `to` is the step from `from` towards the nearest tile not yet explored,
/// around the cells that are taken.
pub open spec fn explore_step(
    tiles: Seq<Seq<TileState>>,
    taken: Seq<(int, int)>,
    from: (int, int),
    to: (int, int),
) -> bool {
    exists|goals: Seq<(int, int)>, f: Seq<Seq<Option<int>>>|
        (forall|c: (int, int)| goals.contains(c) <==> in_bounds(tiles, c) && !at(tiles, c).explored)
            && #[trigger] is_distance_field(classified(tiles, goals), f) && is_next_step(
            masked(f, taken),
            from,
            to,
        )
}

/// The tiles `after` are the tiles `before` after a look around from `from`.
pub open spec fn looked_around(
    before: Seq<Seq<TileState>>,
    after: Seq<Seq<TileState>>,
    from: (int, int),
) -> bool {
    &&& same_shape(before, after)
    &&& forall|c: (int, int)|
        in_bounds(before, c) ==> #[trigger] at(after, c) == (TileState {
            visible: lit(clear_of(before), from, 14, c),
            explored: at(before, c).explored || lit(clear_of(before), from, 14, c),
            ..at(before, c)
        })
}

/// The cells taken when the `n`-th creature moves: the player's, those onto
/// which the creatures before it have moved, and those on which the others
/// still stand.
pub open spec fn taken_at(
    player: (int, int),
    before: Seq<(int, int)>,
    after: Seq<(int, int)>,
    n: int,
) -> Seq<(int, int)> {
    seq![player] + Seq::new(
        before.len(),
        |m: int|
            if m < n {
                after[m]
            } else {
                before[m]
            },
    )
}

/// The tile `c` cannot be seen from `from`.
pub open spec fn out_of_sight(tiles: Seq<Seq<TileState>>, from: (int, int), c: (int, int)) -> bool {
    in_bounds(tiles, c) && !is_sight(clear_of(tiles), from, c, Some(c))
}

/// `f` is the field that a coward descends: the distance to the nearest tile
/// out of the player's sight, less twice the distance to the player.
pub open spec fn is_coward_field(
    tiles: Seq<Seq<TileState>>,
    player: (int, int),
    f: Seq<Seq<Option<int>>>,
) -> bool {
    exists|near: Seq<Seq<Option<int>>>, hidden: Seq<(int, int)>, far: Seq<Seq<Option<int>>>|
        #![trigger is_distance_field(classified(tiles, hidden), far), scaled(near, -2)]
        is_distance_field(classified(tiles, seq![player]), near) && (forall|c: (int, int)|
            hidden.contains(c) <==> out_of_sight(tiles, player, c)) && is_distance_field(
            classified(tiles, hidden),
            far,
        ) && f == summed(scaled(near, -2), far)
}

/// One after the other, each creature has taken its step down the coward's
/// field, around whoever stood in its way then.
pub open spec fn cowards_moved(
    tiles: Seq<Seq<TileState>>,
    player: (int, int),
    before: Seq<(int, int)>,
    after: Seq<(int, int)>,
) -> bool {
    &&& before.len() == after.len()
    &&& exists|f: Seq<Seq<Option<int>>>|
        #[trigger] is_coward_field(tiles, player, f) && forall|n: int|
            0 <= n < before.len() ==> is_next_step(
                masked(f, taken_at(player, before, after, n)),
                before[n],
                #[trigger] after[n],
            )
}

/// A creature may come onto the tile `c`: one can move onto it, and its column
/// and its row are odd.
pub open spec fn may_spawn(tiles: Seq<Seq<TileState>>, c: (int, int)) -> bool {
    in_bounds(tiles, c) && at(tiles, c).passable && c.0 % 2 == 1 && c.1 % 2 == 1
}

/// While there are less than twenty creatures one more may have come, onto a
/// tile with odd coordinates that one can move onto.
pub open spec fn spawned_from(
    tiles: Seq<Seq<TileState>>,
    before: Seq<(int, int)>,
    after: Seq<(int, int)>,
) -> bool {
    after == before || (before.len() < 20 && exists|born: (int, int)|
        #![auto]
        after == before.push(born) && in_bounds(tiles, born) && at(tiles, born).passable && born.0 % 2
            == 1 && born.1 % 2 == 1)
}

/// A turn has been played after the player's move: the player has looked
/// around, a creature may have come, and the creatures have moved.
pub open spec fn turn_played(
    tiles_before: Seq<Seq<TileState>>,
    spots_before: Seq<(int, int)>,
    player: (int, int),
    tiles_after: Seq<Seq<TileState>>,
    spots_after: Seq<(int, int)>,
) -> bool {
    &&& looked_around(tiles_before, tiles_after, player)
    &&& exists|spots: Seq<(int, int)>|
        #[trigger] spawned_from(tiles_after, spots_before, spots) && cowards_moved(
            tiles_after,
            player,
            spots,
            spots_after,
        )
}

impl Game {
    /// Where the player stands.
    pub closed spec fn player_spot(&self) -> (int, int) {
        spot(self.player)
    }

    /// Where the other creatures stand.
    pub closed spec fn creature_spots(&self) -> Seq<(int, int)> {
        Seq::new(self.creatures.len() as nat, |n: int| spot(self.creatures[n]))
    }

    /// The tiles of the dungeon.
    pub closed spec fn tiles(&self) -> Seq<Seq<TileState>> {
        self.map@
    }

    /// The cells on which somebody stands: the player first.
    pub open spec fn taken(&self) -> Seq<(int, int)> {
        seq![self.player_spot()] + self.creature_spots()
    }

    /// The dungeon is a map, small enough for sums of distances to fit a cell
    /// of a field, and everybody stands on it.
    pub closed spec fn wf(&self) -> bool {
        &&& self.map.wf()
        &&& 4 * area(self.map@) <= i64::MAX
        &&& in_bounds(self.map@, spot(self.player))
        &&& forall|n: int|
            0 <= n < self.creatures.len() ==> in_bounds(self.map@, spot(#[trigger] self.creatures[n]))
    }

    /// A new game: the player in the upper left room of a fresh dungeon of
    /// forty-two tiles a side, and nobody else yet.
    pub fn new() -> (game: Game)
        ensures
            game.wf(),
            game.player_spot() == (1int, 1int),
            game.creature_spots().len() == 0,
            game.tiles().len() == 42,
    {
        let map = DungeonMap::new(42);
        proof {
            assert(map@[1].len() == map@[0].len());
            assert(area(map@) == 42 * 42);
        }
        Game { player: Creature::new((1, 1), Behavior::Player), map, creatures: Vec::new() }
    }

    /// The player.
    pub fn player(&self) -> (player: &Creature)
        ensures
            spot(*player) == self.player_spot(),
    {
        &self.player
    }

    /// The dungeon.
    pub fn map(&self) -> (map: &DungeonMap)
        ensures
            map@ == self.tiles(),
            self.wf() ==> map.wf(),
    {
        &self.map
    }

    /// The creatures other than the player, in the order in which they came.
    pub fn creatures(&self) -> (creatures: &Vec<Creature>)
        ensures
            creatures.len() == self.creature_spots().len(),
            forall|n: int|
                0 <= n < creatures.len() ==> spot(#[trigger] creatures[n]) == self.creature_spots()[n],
    {
        &self.creatures
    }

    /// The cells that nobody can move onto because somebody stands there.
    fn get_obstacles(&self) -> (output: Vec<(usize, usize)>)
        requires
            self.wf(),
        ensures
            cells(output@) == self.taken(),
            forall|n: int| 0 <= n < output.len() ==> in_bounds(self.map@, cell(#[trigger] output[n])),
    {
        let mut output: Vec<(usize, usize)> = Vec::new();
        output.push((self.player.object.i, self.player.object.j));
        let mut n: usize = 0;
        while n < self.creatures.len()
            invariant
                self.wf(),
                n <= self.creatures.len(),
                output.len() == n + 1,
                cell(output[0]) == spot(self.player),
                forall|m: int| 0 <= m < n ==> cell(#[trigger] output[m + 1]) == spot(self.creatures[m]),
            decreases self.creatures.len() - n,
        {
            output.push((self.creatures[n].object.i, self.creatures[n].object.j));
            n += 1;
        }
        proof {
            assert(cells(output@) =~= self.taken()) by {
                assert forall|k: int| 0 <= k < output.len() implies cells(output@)[k]
                    == self.taken()[k] by {
                    if k > 0 {
                        assert(cell(output[(k - 1) + 1]) == spot(self.creatures[k - 1]));
                    }
                }
            }
            assert forall|k: int| 0 <= k < output.len() implies in_bounds(
                self.map@,
                cell(#[trigger] output[k]),
            ) by {
                if k > 0 {
                    assert(cell(output[(k - 1) + 1]) == spot(self.creatures[k - 1]));
                }
            }
        }
        output
    }

    /// Whether one can move onto the tile at column `i` of row `j`.
    fn is_passable(&self, i: usize, j: usize) -> (b: bool)
        requires
            in_bounds(self.map@, (i as int, j as int)),
        ensures
            b == at(self.map@, (i as int, j as int)).passable,
    {
        self.map.tile(i, j).is_passable()
    }

    /// The first look around, before the first turn.
    pub fn on_load(&mut self)
        requires
            old(self).wf(),
        ensures
            final(self).wf(),
            final(self).player_spot() == old(self).player_spot(),
            final(self).creature_spots() == old(self).creature_spots(),
            looked_around(old(self).tiles(), final(self).tiles(), old(self).player_spot()),
    {
        self.look_around();
    }

    /// Looks around from where the player stands.
    fn look_around(&mut self)
        requires
            old(self).wf(),
        ensures
            final(self).wf(),
            final(self).player == old(self).player,
            final(self).creatures == old(self).creatures,
            looked_around(old(self).map@, final(self).map@, spot(old(self).player)),
    {
        let origin = (self.player.object.i, self.player.object.j);
        self.map.update_vision(origin);
        proof {
            lemma_shape_of_grid(old(self).map@, self.map@);
            assert(area(self.map@) == area(old(self).map@));
        }
    }

    /// Moves the player by `di` columns and `dj` rows, if the tile there is
    /// one that can be moved onto and nobody stands on it.
    fn move_player(&mut self, di: isize, dj: isize)
        requires
            old(self).wf(),
        ensures
            final(self).wf(),
            final(self).map == old(self).map,
            final(self).creatures == old(self).creatures,
            spot(final(self).player) == (if can_enter(
                old(self).map@,
                old(self).taken(),
                (spot(old(self).player).0 + di, spot(old(self).player).1 + dj),
            ) {
                (spot(old(self).player).0 + di, spot(old(self).player).1 + dj)
            } else {
                spot(old(self).player)
            }),
    {
        let (i0, j0) = self.player.coordinates();
        let ghost target = (i0 + di, j0 + dj);
        let to_i: i128 = i0 as i128 + di as i128;
        let to_j: i128 = j0 as i128 + dj as i128;
        proof {
            assert(self.map@[j0 as int].len() == self.map@[0].len());
        }
        if to_i < 0 || to_j < 0 || to_j >= self.map.height() as i128 || to_i >= self.map.width() as i128 {
            proof {
                if 0 <= target.1 < self.map@.len() {
                    assert(self.map@[target.1].len() == self.map@[0].len());
                }
                assert(!in_bounds(self.map@, target));
            }
            return ;
        }
        let i1 = to_i as usize;
        let j1 = to_j as usize;
        proof {
            assert(self.map@[j1 as int].len() == self.map@[0].len());
        }
        let obstacles = self.get_obstacles();
        let mut exists_obstacle = false;
        let mut n: usize = 0;
        while n < obstacles.len()
            invariant
                n <= obstacles.len(),
                exists_obstacle <==> exists|m: int|
                    0 <= m < n && cell(#[trigger] obstacles[m]) == (i1 as int, j1 as int),
            decreases obstacles.len() - n,
        {
            let (i2, j2) = obstacles[n];
            if i2 == i1 && j2 == j1 {
                exists_obstacle = true;
            }
            n += 1;
        }
        proof {
            let taken = cells(obstacles@);
            if exists_obstacle {
                let m = choose|m: int|
                    0 <= m < obstacles.len() && cell(#[trigger] obstacles[m]) == (
                        i1 as int,
                        j1 as int,
                    );
                assert(taken[m] == target);
            }
            if taken.contains(target) {
                let m = choose|m: int| 0 <= m < taken.len() && taken[m] == target;
                assert(cell(obstacles[m]) == target);
            }
        }
        if self.is_passable(i1, j1) && !exists_obstacle {
            self.player.object.mov(di, dj);
        }
    }

    /// Steps the player towards the nearest tile not yet explored, around
    /// whoever stands in the way.
    fn explore(&mut self)
        requires
            old(self).wf(),
        ensures
            final(self).wf(),
            final(self).map == old(self).map,
            final(self).creatures == old(self).creatures,
            explore_step(old(self).map@, old(self).taken(), spot(old(self).player), spot(final(self).player)),
    {
        let ghost tiles = self.map@;
        let mut goals: Vec<(usize, usize)> = Vec::new();
        let mut j: usize = 0;
        while j < self.map.height()
            invariant
                self.wf(),
                tiles == self.map@,
                j <= tiles.len(),
                forall|n: int|
                    0 <= n < goals.len() ==> in_bounds(tiles, cell(#[trigger] goals[n])) && !at(
                        tiles,
                        cell(goals[n]),
                    ).explored,
                forall|c: (int, int)|
                    in_bounds(tiles, c) && c.1 < j && !#[trigger] at(tiles, c).explored
                        ==> listed_before(goals@, goals.len() as int, c),
            decreases tiles.len() - j,
        {
            let mut i: usize = 0;
            proof {
                assert(tiles[j as int].len() == tiles[0].len());
            }
            while i < self.map.width()
                invariant
                    self.wf(),
                    tiles == self.map@,
                    j < tiles.len(),
                    i <= tiles[0].len(),
                    tiles[j as int].len() == tiles[0].len(),
                    forall|n: int|
                        0 <= n < goals.len() ==> in_bounds(tiles, cell(#[trigger] goals[n])) && !at(
                            tiles,
                            cell(goals[n]),
                        ).explored,
                    forall|c: (int, int)|
                        in_bounds(tiles, c) && (c.1 < j || (c.1 == j && c.0 < i)) && !#[trigger] at(
                            tiles,
                            c,
                        ).explored ==> listed_before(goals@, goals.len() as int, c),
                decreases tiles[0].len() - i,
            {
                let ghost before = goals@;
                if !self.map.tile(i, j).is_explored() {
                    goals.push((i, j));
                }
                proof {
                    assert forall|c: (int, int)|
                        in_bounds(tiles, c) && (c.1 < j || (c.1 == j && c.0 < i + 1)) && !#[trigger] at(
                            tiles,
                            c,
                        ).explored implies listed_before(goals@, goals.len() as int, c) by {
                        if c == (i as int, j as int) {
                            assert(cell(goals@[goals.len() - 1]) == c);
                        } else {
                            assert(listed_before(before, before.len() as int, c));
                            let n = choose|n: int|
                                0 <= n < before.len() && n < before.len() && cell(
                                    #[trigger] before[n],
                                ) == c;
                            assert(cell(goals@[n]) == c);
                        }
                    }
                }
                i += 1;
            }
            j += 1;
        }
        let ghost wanted = cells(goals@);
        let ghost from = spot(self.player);
        proof {
            assert forall|c: (int, int)| wanted.contains(c) <==> in_bounds(tiles, c) && !at(
                tiles,
                c,
            ).explored by {
                if wanted.contains(c) {
                    let n = choose|n: int| 0 <= n < wanted.len() && wanted[n] == c;
                    assert(cell(goals[n]) == c);
                }
                if in_bounds(tiles, c) && !at(tiles, c).explored {
                    assert(listed_before(goals@, goals.len() as int, c));
                    let n = choose|n: int|
                        0 <= n < goals.len() && n < goals@.len() && cell(#[trigger] goals@[n]) == c;
                    assert(wanted[n] == c);
                }
            }
        }
        let field = self.map.get_dijkstra_map(goals);
        let obstacles = self.get_obstacles();
        proof {
            lemma_shape_of_grid(tiles, field@);
        }
        let unexplored = field.with_obstacles(obstacles);
        proof {
            lemma_shape_of_grid(tiles, unexplored@);
        }
        self.player.object.automove(&unexplored);
        proof {
            lemma_next_step_near(unexplored@, from, spot(self.player));
            assert(is_distance_field(classified(tiles, wanted), field@));
        }
    }

    /// Puts a new creature on a tile with odd coordinates, chosen at random
    /// among those that one can move onto. Nobody comes where there is no such
    /// tile.
    fn spawn_creature(&mut self, ai: Behavior)
        requires
            old(self).wf(),
        ensures
            final(self).wf(),
            final(self).map == old(self).map,
            final(self).player == old(self).player,
            (exists|c: (int, int)| may_spawn(old(self).map@, c)) ==> exists|born: Creature|
                #![auto]
                final(self).creatures@ == old(self).creatures@.push(born) && born.ai == ai
                    && may_spawn(old(self).map@, spot(born)),
            !(exists|c: (int, int)| may_spawn(old(self).map@, c)) ==> final(self).creatures@ == old(self).creatures@,
    {
        let ghost tiles = self.map@;
        // Walls stand on even rows and columns only.
        let mut coordinates: Vec<(usize, usize)> = Vec::new();
        let mut j: usize = 0;
        while j < self.map.height()
            invariant
                self.wf(),
                tiles == self.map@,
                j <= tiles.len(),
                forall|n: int|
                    0 <= n < coordinates.len() ==> in_bounds(tiles, cell(#[trigger] coordinates[n]))
                        && coordinates[n].0 % 2 == 1 && coordinates[n].1 % 2 == 1,
                forall|p: (usize, usize)|
                    in_bounds(tiles, cell(p)) && p.0 % 2 == 1 && p.1 % 2 == 1 && p.1 < j
                        ==> #[trigger] coordinates@.contains(p),
            decreases tiles.len() - j,
        {
            let mut i: usize = 0;
            proof {
                assert(tiles[j as int].len() == tiles[0].len());
            }
            while i < self.map.width()
                invariant
                    self.wf(),
                    tiles == self.map@,
                    j < tiles.len(),
                    i <= tiles[0].len(),
                    tiles[j as int].len() == tiles[0].len(),
                    forall|n: int|
                        0 <= n < coordinates.len() ==> in_bounds(
                            tiles,
                            cell(#[trigger] coordinates[n]),
                        ) && coordinates[n].0 % 2 == 1 && coordinates[n].1 % 2 == 1,
                    forall|p: (usize, usize)|
                        in_bounds(tiles, cell(p)) && p.0 % 2 == 1 && p.1 % 2 == 1 && (p.1 < j || (p.1
                            == j && p.0 < i)) ==> #[trigger] coordinates@.contains(p),
                decreases tiles[0].len() - i,
            {
                let ghost listed = coordinates@;
                if i % 2 == 1 && j % 2 == 1 {
                    coordinates.push((i, j));
                }
                proof {
                    assert forall|p: (usize, usize)|
                        in_bounds(tiles, cell(p)) && p.0 % 2 == 1 && p.1 % 2 == 1 && (p.1 < j || (p.1
                            == j && p.0 < i + 1)) implies #[trigger] coordinates@.contains(p) by {
                        if p == (i, j) {
                            assert(coordinates@[coordinates.len() - 1] == p);
                        } else {
                            assert(listed.contains(p));
                            let n = choose|n: int| 0 <= n < listed.len() && listed[n] == p;
                            assert(coordinates@[n] == p);
                        }
                    }
                }
                i += 1;
            }
            j += 1;
        }
        let ghost before = coordinates@;
        shuffle(&mut coordinates);
        proof {
            lemma_shuffled_members(before, coordinates@);
            assert forall|n: int| 0 <= n < coordinates.len() implies in_bounds(
                tiles,
                cell(#[trigger] coordinates[n]),
            ) && coordinates[n].0 % 2 == 1 && coordinates[n].1 % 2 == 1 by {
                let m = choose|m: int| 0 <= m < before.len() && before[m] == coordinates[n];
                assert(in_bounds(tiles, cell(before[m])));
            }
            assert forall|p: (usize, usize)| may_spawn(tiles, cell(p)) implies #[trigger] coordinates@.contains(
                p,
            ) by {
                assert(before.contains(p));
            }
        }
        let mut placed = false;
        while !placed && coordinates.len() > 0
            invariant
                self.wf(),
                tiles == self.map@,
                self.map == old(self).map,
                self.player == old(self).player,
                forall|n: int|
                    0 <= n < coordinates.len() ==> in_bounds(tiles, cell(#[trigger] coordinates[n]))
                        && coordinates[n].0 % 2 == 1 && coordinates[n].1 % 2 == 1,
                !placed ==> self.creatures@ == old(self).creatures@,
                !placed ==> forall|p: (usize, usize)|
                    may_spawn(tiles, cell(p)) ==> #[trigger] coordinates@.contains(p),
                placed ==> exists|born: Creature|
                    #![auto]
                    self.creatures@ == old(self).creatures@.push(born) && born.ai == ai && may_spawn(
                        tiles,
                        spot(born),
                    ),
            decreases coordinates.len(),
        {
            let ghost left = coordinates@;
            let (i, j) = coordinates.pop().unwrap();
            proof {
                assert(in_bounds(tiles, cell((i, j))));
            }
            if self.is_passable(i, j) {
                let born = Creature::new((i, j), ai);
                self.creatures.push(born);
                placed = true;
                proof {
                    assert(self.creatures@ == old(self).creatures@.push(born));
                    assert(may_spawn(tiles, spot(born)));
                    assert forall|n: int| 0 <= n < self.creatures.len() implies in_bounds(
                        self.map@,
                        spot(#[trigger] self.creatures[n]),
                    ) by {
                        if n < old(self).creatures.len() {
                            assert(self.creatures[n] == old(self).creatures[n]);
                        }
                    }
                }
            } else {
                proof {
                    assert forall|p: (usize, usize)| may_spawn(tiles, cell(p)) implies #[trigger] coordinates@.contains(
                        p,
                    ) by {
                        assert(left.contains(p));
                        let n = choose|n: int| 0 <= n < left.len() && left[n] == p;
                        assert(p != (i, j));
                        assert(coordinates@[n] == p);
                    }
                }
            }
        }
        proof {
            if !placed {
                assert forall|c: (int, int)| !may_spawn(tiles, c) by {
                    if may_spawn(tiles, c) {
                        let p = (c.0 as usize, c.1 as usize);
                        assert(cell(p) == c);
                        assert(coordinates@.contains(p));
                    }
                }
            }
        }
    }

    /// Moves every creature one step: away from the player, and towards the
    /// tiles that the player cannot see.
    fn move_creatures(&mut self)
        requires
            old(self).wf(),
        ensures
            final(self).wf(),
            final(self).map == old(self).map,
            final(self).player == old(self).player,
            cowards_moved(
                old(self).map@,
                spot(old(self).player),
                old(self).creature_spots(),
                final(self).creature_spots(),
            ),
    {
        let ghost tiles = self.map@;
        let ghost player = spot(self.player);
        let ghost before = self.creature_spots();
        let (pi, pj) = self.player.coordinates();
        proof {
            assert(tiles[pj as int].len() == tiles[0].len());
        }
        // How far it is to the player.
        let mut seeds: Vec<(usize, usize)> = Vec::new();
        seeds.push((pi, pj));
        proof {
            assert(cells(seeds@) =~= seq![player]);
        }
        let player_location = self.map.get_dijkstra_map(seeds);
        // How far it is to the nearest tile that the player cannot see.
        let mut goals: Vec<(usize, usize)> = Vec::new();
        let mut j: usize = 0;
        while j < self.map.height()
            invariant
                self.wf(),
                tiles == self.map@,
                player == (pi as int, pj as int),
                in_bounds(tiles, player),
                j <= tiles.len(),
                forall|n: int| 0 <= n < goals.len() ==> out_of_sight(tiles, player, cell(#[trigger] goals[n])),
                forall|c: (int, int)|
                    c.1 < j && #[trigger] out_of_sight(tiles, player, c) ==> listed_before(
                        goals@,
                        goals.len() as int,
                        c,
                    ),
            decreases tiles.len() - j,
        {
            let mut i: usize = 0;
            proof {
                assert(tiles[j as int].len() == tiles[0].len());
            }
            while i < self.map.width()
                invariant
                    self.wf(),
                    tiles == self.map@,
                    player == (pi as int, pj as int),
                    in_bounds(tiles, player),
                    j < tiles.len(),
                    i <= tiles[0].len(),
                    tiles[j as int].len() == tiles[0].len(),
                    forall|n: int|
                        0 <= n < goals.len() ==> out_of_sight(tiles, player, cell(#[trigger] goals[n])),
                    forall|c: (int, int)|
                        (c.1 < j || (c.1 == j && c.0 < i)) && #[trigger] out_of_sight(tiles, player, c)
                            ==> listed_before(goals@, goals.len() as int, c),
                decreases tiles[0].len() - i,
            {
                let ghost listed = goals@;
                let ghost here = (i as int, j as int);
                proof {
                    assert(tiles[pj as int].len() == tiles[0].len());
                    assert(in_bounds(clear_of(tiles), player));
                }
                let seen = los(&self.map, pi as isize, pj as isize, i as isize, j as isize);
                let in_sight = match seen {
                    Some((x, y)) => x == i && y == j,
                    None => false,
                };
                proof {
                    let met = match seen {
                        Some(c) => Some(cell(c)),
                        None => None,
                    };
                    assert(is_sight(clear_of(tiles), player, here, met));
                    if is_sight(clear_of(tiles), player, here, Some(here)) {
                        lemma_sight_unique(clear_of(tiles), player, here, met, Some(here));
                    }
                    assert(in_sight <==> !out_of_sight(tiles, player, here));
                }
                if !in_sight {
                    goals.push((i, j));
                }
                proof {
                    assert forall|c: (int, int)|
                        (c.1 < j || (c.1 == j && c.0 < i + 1)) && #[trigger] out_of_sight(
                            tiles,
                            player,
                            c,
                        ) implies listed_before(goals@, goals.len() as int, c) by {
                        if c == here {
                            assert(cell(goals@[goals.len() - 1]) == c);
                        } else {
                            assert(listed_before(listed, listed.len() as int, c));
                            let n = choose|n: int|
                                0 <= n < listed.len() && n < listed.len() && cell(
                                    #[trigger] listed[n],
                                ) == c;
                            assert(cell(goals@[n]) == c);
                        }
                    }
                }
                i += 1;
            }
            j += 1;
        }
        let ghost hidden = cells(goals@);
        proof {
            assert forall|c: (int, int)| hidden.contains(c) <==> out_of_sight(tiles, player, c) by {
                if hidden.contains(c) {
                    let n = choose|n: int| 0 <= n < hidden.len() && hidden[n] == c;
                    assert(cell(goals[n]) == c);
                }
                if out_of_sight(tiles, player, c) {
                    assert(listed_before(goals@, goals.len() as int, c));
                    let n = choose|n: int|
                        0 <= n < goals.len() && n < goals@.len() && cell(#[trigger] goals@[n]) == c;
                    assert(hidden[n] == c);
                }
            }
        }
        let unseen_tiles = self.map.get_dijkstra_map(goals);
        let ghost near = player_location@;
        let ghost far = unseen_tiles@;
        proof {
            lemma_shape_of_grid(tiles, near);
            lemma_shape_of_grid(tiles, far);
            lemma_shapes_kept(near, far, -2, Seq::empty());
            assert forall|c: (int, int)| in_bounds(near, c) implies (#[trigger] at(near, c) matches Some(
                v,
            ) ==> i64::MIN <= -2 * v <= i64::MAX) by {
                assert(in_bounds(tiles, c));
            }
        }
        let flee = &player_location * -2;
        proof {
            lemma_same_shape_chain(tiles, near, flee@);
            lemma_shape_of_grid(tiles, flee@);
            lemma_same_shape_chain(flee@, tiles, far);
            assert forall|c: (int, int)| in_bounds(flee@, c) implies (#[trigger] sum(
                at(flee@, c),
                at(far, c),
            ) matches Some(v) ==> i64::MIN <= v <= i64::MAX) by {
                assert(in_bounds(tiles, c));
                assert(in_bounds(near, c));
                assert(at(near, c) matches Some(v) ==> 0 <= v < area(tiles));
                assert(at(far, c) matches Some(v) ==> 0 <= v < area(tiles));
            }
        }
        let desire = &flee + &unseen_tiles;
        let ghost field = desire@;
        proof {
            lemma_shapes_kept(flee@, far, 1, Seq::empty());
            lemma_same_shape_chain(tiles, flee@, field);
            lemma_shape_of_grid(tiles, field);
            assert(is_coward_field(tiles, player, field)) by {
                assert(is_distance_field(classified(tiles, seq![player]), near));
                assert(is_distance_field(classified(tiles, hidden), far));
                assert(field == summed(scaled(near, -2), far));
            }
        }
        let mut n: usize = 0;
        while n < self.creatures.len()
            invariant
                self.wf(),
                self.map == old(self).map,
                self.player == old(self).player,
                tiles == self.map@,
                player == spot(self.player),
                before == old(self).creature_spots(),
                self.creatures.len() == old(self).creatures.len(),
                n <= self.creatures.len(),
                desire.wf(),
                field == desire@,
                same_shape(tiles, field),
                forall|m: int|
                    n <= m < self.creatures.len() ==> #[trigger] self.creatures[m] == old(self).creatures[m],
                forall|m: int|
                    0 <= m < n ==> is_next_step(
                        masked(field, taken_at(player, before, self.creature_spots(), m)),
                        before[m],
                        #[trigger] self.creature_spots()[m],
                    ),
            decreases self.creatures.len() - n,
        {
            let ghost earlier = self.creature_spots();
            let obstacles = self.get_obstacles();
            proof {
                lemma_shape_of_grid(tiles, field);
            }
            let dmap = desire.with_obstacles(obstacles);
            proof {
                lemma_shapes_kept(field, field, 1, cells(obstacles@));
                lemma_same_shape_chain(tiles, field, dmap@);
                lemma_shape_of_grid(tiles, dmap@);
                assert(in_bounds(tiles, spot(self.creatures[n as int])));
            }
            self.creatures[n].object.automove(&dmap);
            proof {
                let later = self.creature_spots();
                let from = earlier[n as int];
                let to = later[n as int];
                assert(is_next_step(dmap@, from, to));
                lemma_next_step_near(dmap@, from, to);
                assert forall|m: int| 0 <= m < self.creatures.len() implies in_bounds(
                    self.map@,
                    spot(#[trigger] self.creatures[m]),
                ) by {
                    if m != n {
                        assert(later[m] == earlier[m]);
                    }
                }
                let was_taken = seq![player] + earlier;
                let now_taken = taken_at(player, before, later, n as int);
                assert(was_taken =~= now_taken) by {
                    assert forall|k: int| 0 <= k < was_taken.len() implies #[trigger] was_taken[k]
                        == now_taken[k] by {
                        if 0 < k && k - 1 < n {
                            assert(later[k - 1] == earlier[k - 1]);
                        } else if 0 < k {
                            assert(earlier[k - 1] == before[k - 1]);
                        }
                    }
                }
                assert(cells(obstacles@) == now_taken);
                assert forall|m: int| 0 <= m < n + 1 implies is_next_step(
                    masked(field, taken_at(player, before, later, m)),
                    before[m],
                    #[trigger] later[m],
                ) by {
                    if m < n {
                        assert(later[m] == earlier[m]);
                        assert(taken_at(player, before, later, m) =~= taken_at(
                            player,
                            before,
                            earlier,
                            m,
                        ));
                        assert(is_next_step(
                            masked(field, taken_at(player, before, earlier, m)),
                            before[m],
                            earlier[m],
                        ));
                    } else {
                        assert(earlier[n as int] == before[n as int]);
                    }
                }
                assert forall|m: int|
                    n + 1 <= m < self.creatures.len() implies #[trigger] self.creatures[m] == old(self).creatures[m] by {}
            }
            n += 1;
        }
    }

    /// Plays a turn: the player does what `command` says, looks around, and
    /// the creatures move; while there are less than twenty of them, one more
    /// may come. On `Command::Idle` nothing happens.
    pub fn on_input(&mut self, command: Command)
        requires
            old(self).wf(),
        ensures
            final(self).wf(),
            match command {
                Command::Idle => final(self).player_spot() == old(self).player_spot() && final(self).creature_spots() == old(self).creature_spots() && final(self).tiles() == old(self).tiles(),
                Command::Move(di, dj) => final(self).player_spot() == (if can_enter(
                    old(self).tiles(),
                    old(self).taken(),
                    (old(self).player_spot().0 + di, old(self).player_spot().1 + dj),
                ) {
                    (old(self).player_spot().0 + di, old(self).player_spot().1 + dj)
                } else {
                    old(self).player_spot()
                }),
                Command::Automove => explore_step(
                    old(self).tiles(),
                    old(self).taken(),
                    old(self).player_spot(),
                    final(self).player_spot(),
                ),
            },
            command !is Idle ==> turn_played(
                old(self).tiles(),
                old(self).creature_spots(),
                final(self).player_spot(),
                final(self).tiles(),
                final(self).creature_spots(),
            ),
    {
        match command {
            Command::Move(di, dj) => {
                self.move_player(di, dj);
            },
            Command::Automove => {
                self.explore();
            },
            Command::Idle => {
                return ;
            },
        }
        let ghost moved = spot(self.player);
        self.look_around();
        let ghost tiles = self.map@;
        let ghost before = self.creature_spots();
        if self.creatures.len() < 20 {
            self.spawn_creature(Behavior::Coward);
        }
        let ghost spots = self.creature_spots();
        proof {
            assert(spawned_from(tiles, before, spots)) by {
                if before.len() < 20 && exists|c: (int, int)| may_spawn(tiles, c) {
                    let born = choose|born: Creature|
                        #![auto]
                        self.creatures@ == old(self).creatures@.push(born) && born.ai
                            == Behavior::Coward && may_spawn(tiles, spot(born));
                    assert(spots =~= before.push(spot(born)));
                } else {
                    assert(spots =~= before);
                }
            }
        }
        self.move_creatures();
    }
}

} // verus!
