//! What stands in the dungeon: the player and the other creatures.

use vstd::prelude::*;
use crate::dijkstra_map::DijkstraMap;
use crate::dungeon::DungeonMap;
use crate::field::is_next_step;
use crate::king_distance::{at, in_bounds};

verus! {

/// How a creature decides what to do.
#[derive(Clone, Copy, Debug, PartialEq, Eq, Structural)]
pub enum Behavior {
    /// It does what the player says.
    Player,
    /// It keeps away from the player and out of sight.
    Coward,
}

/// A thing at column `i` of row `j`.
#[derive(Clone, Copy, Debug, PartialEq, Eq, Structural)]
pub struct Object {
    pub i: usize,
    pub j: usize,
}

#[derive(Clone, Copy, Debug, PartialEq, Eq, Structural)]
/// Something that stands in the dungeon and acts.
pub struct Creature {
    pub object: Object,
    pub ai: Behavior,
}

impl Creature {
    /// A creature at column `pos.0` of row `pos.1`.
    pub fn new(pos: (usize, usize), ai: Behavior) -> (creature: Creature)
        ensures
            creature.object.i == pos.0,
            creature.object.j == pos.1,
            creature.ai == ai,
    {
        Creature { object: Object::new(pos), ai }
    }

    /// Where the creature stands: column, then row.
    pub fn coordinates(&self) -> (pos: (usize, usize))
        ensures
            pos == (self.object.i, self.object.j),
    {
        self.object.coordinates()
    }
}

impl Object {
    /// An object at column `pos.0` of row `pos.1`.
    pub fn new(pos: (usize, usize)) -> (object: Object)
        ensures
            object.i == pos.0,
            object.j == pos.1,
    {
        Object { i: pos.0, j: pos.1 }
    }

    /// Where the object is: column, then row.
    pub fn coordinates(&self) -> (pos: (usize, usize))
        ensures
            pos == (self.i, self.j),
    {
        (self.i, self.j)
    }

    /// Moves the object by `i` columns and `j` rows.
    pub fn mov(&mut self, i: isize, j: isize)
        requires
            0 <= old(self).i + i <= usize::MAX,
            0 <= old(self).j + j <= usize::MAX,
        ensures
            final(self).i == old(self).i + i,
            final(self).j == old(self).j + j,
    {
        let to_i: i128 = self.i as i128 + i as i128;
        let to_j: i128 = self.j as i128 + j as i128;
        self.i = to_i as usize;
        self.j = to_j as usize;
    }

    /// Whether the tile that the object stands on is in sight.
    pub fn visible(&self, map: &DungeonMap) -> (seen: bool)
        requires
            in_bounds(map@, (self.i as int, self.j as int)),
        ensures
            seen == at(map@, (self.i as int, self.j as int)).visible,
    {
        map.tile(self.i, self.j).visible()
    }

    /// Takes the next step down the field `dmap`.
    pub fn automove(&mut self, dmap: &DijkstraMap)
        requires
            dmap.wf(),
        ensures
            is_next_step(
                dmap@,
                (old(self).i as int, old(self).j as int),
                (final(self).i as int, final(self).j as int),
            ),
    {
        let (i, j) = dmap.get_next_step((self.i, self.j));
        self.i = i;
        self.j = j;
    }
}

} // verus!
