//! The spatial map: a dense grid of cell occupancy, flat over the floor
//! levels, kept consistent with the game-object store and used by the
//! monster AI for collision and pathing.

use vstd::prelude::*;

use crate::objects::{keys_unique, lookup, GameObject, GameObjects};
use crate::types::{loc_in_bounds, Location, MAP_HEIGHT, MAP_WIDTH, Z_LEVELS};

verus! {

/// A monster standing on the map: its tile identity and the times (in
/// milliseconds) of its last move and last attack.
#[derive(Debug, Clone, Copy, PartialEq, Eq, Structural)]
pub struct Monster {
    pub id: u32,
    pub tileset_location: usize,
    pub last_movement: u64,
    pub last_attack: u64,
}

/// A static prop standing on the map.
#[derive(Debug, Clone, Copy, PartialEq, Eq, Structural)]
pub struct Object {
    pub id: u32,
    pub tileset_location: usize,
}

/// What one grid cell holds.
#[derive(Debug, Clone, Copy, PartialEq, Eq, Structural)]
pub enum MapElement {
    Empty,
    Monster(Monster),
    Player(u128),
    Object(Object),
}

/// The flat index of cell `l` in the cell vector.
pub open spec fn spec_cell_index(l: Location) -> int {
    (l.z * MAP_HEIGHT + l.y) * MAP_WIDTH + l.x
}

/// The map element a game object stands for, stamped with the time the
/// world was built.
pub open spec fn spec_element_of(o: GameObject, now_ms: u64) -> MapElement {
    match o {
        GameObject::Orc { id, tileset_location, .. } => MapElement::Monster(
            Monster { id, tileset_location, last_movement: now_ms, last_attack: now_ms },
        ),
        GameObject::FlowerPot { id, tileset_location } => MapElement::Object(
            Object { id, tileset_location },
        ),
        GameObject::Ladder { id, tileset_location, .. } => MapElement::Object(
            Object { id, tileset_location },
        ),
    }
}

/// The dense world grid: one `MapElement` per cell over every floor level.
#[derive(Debug)]
pub struct MmoMap {
    pub cells: Vec<MapElement>,
}

impl MmoMap {
    /// The grid holds exactly one element per cell.
    pub open spec fn wf(self) -> bool {
        self.cells@.len() == MAP_WIDTH * MAP_HEIGHT * Z_LEVELS
    }

    /// The element standing at cell `l`.
    pub open spec fn spec_at(self, l: Location) -> MapElement {
        self.cells@[spec_cell_index(l)]
    }

    /// Flat index of an in-bounds cell.
    fn cell_index(l: Location) -> (r: usize)
        requires
            loc_in_bounds(l),
        ensures
            r == spec_cell_index(l),
            r < MAP_WIDTH * MAP_HEIGHT * Z_LEVELS,
    {
        let z = l.z as usize;
        let y = l.y as usize;
        let x = l.x as usize;
        proof {
            assert(z * (MAP_HEIGHT as usize) + y <= 39) by (nonlinear_arith)
                requires
                    z < 2 && y < 20 && MAP_HEIGHT == 20,
            {
            }
            assert((z * (MAP_HEIGHT as usize) + y) * (MAP_WIDTH as usize) + x <= 1199)
                by (nonlinear_arith)
                requires
                    z < 2 && y < 20 && x < 30 && MAP_HEIGHT == 20 && MAP_WIDTH == 30,
            {
            }
        }
        (z * MAP_HEIGHT as usize + y) * MAP_WIDTH as usize + x
    }

    /// An all-empty map.
    pub fn new() -> (r: MmoMap)
        ensures
            r.wf(),
            forall|l: Location| loc_in_bounds(l) ==> r.spec_at(l) == MapElement::Empty,
    {
        let total: usize = MAP_WIDTH as usize * MAP_HEIGHT as usize * Z_LEVELS as usize;
        let mut cells: Vec<MapElement> = Vec::new();
        let mut i: usize = 0;
        while i < total
            invariant
                0 <= i <= total,
                total == MAP_WIDTH * MAP_HEIGHT * Z_LEVELS,
                cells@.len() == i,
                forall|k: int| 0 <= k < i ==> cells@[k] == MapElement::Empty,
            decreases total - i,
        {
            cells.push(MapElement::Empty);
            i = i + 1;
        }
        MmoMap { cells }
    }

    /// The element at cell `l`.
    pub fn get(&self, l: Location) -> (r: MapElement)
        requires
            self.wf(),
            loc_in_bounds(l),
        ensures
            r == self.spec_at(l),
    {
        self.cells[Self::cell_index(l)]
    }

    /// The element at cell `l`, or nothing for a cell off the grid.
    pub fn get_checked(&self, l: Location) -> (r: Option<MapElement>)
        requires
            self.wf(),
        ensures
            r is Some <==> loc_in_bounds(l),
            loc_in_bounds(l) ==> r == Some(self.spec_at(l)),
    {
        if l.x < MAP_WIDTH && l.y < MAP_HEIGHT && l.z < Z_LEVELS {
            Some(self.get(l))
        } else {
            None
        }
    }

    /// Writes `e` into cell `l`, leaving every other cell alone.
    pub fn set(&mut self, l: Location, e: MapElement)
        requires
            old(self).wf(),
            loc_in_bounds(l),
        ensures
            final(self).wf(),
            final(self).spec_at(l) == e,
            forall|l2: Location|
                loc_in_bounds(l2) && l2 != l ==> final(self).spec_at(l2) == old(self).spec_at(l2),
    {
        let i = Self::cell_index(l);
        self.cells.set(i, e);
        proof {
            assert forall|l2: Location| loc_in_bounds(l2) && l2 != l implies self.spec_at(l2)
                == old(self).spec_at(l2) by {
                lemma_cell_index_injective(l, l2);
            }
        }
    }

    /// Builds the grid from the object store, stamping monsters with
    /// `now_ms`: each stored object occupies its cell, everything else is
    /// empty.
    pub fn from_game_objects(game_objects: GameObjects, now_ms: u64) -> (r: MmoMap)
        requires
            game_objects.wf(),
            forall|k: int|
                0 <= k < game_objects.entries@.len() ==> loc_in_bounds(
                    (#[trigger] game_objects.entries@[k]).0,
                ),
        ensures
            r.wf(),
            forall|l: Location|
                loc_in_bounds(l) ==> r.spec_at(l) == match lookup(game_objects.entries@, l) {
                    Some(o) => spec_element_of(o, now_ms),
                    None => MapElement::Empty,
                },
    {
        let mut map = MmoMap::new();
        let n = game_objects.entries.len();
        let mut i: usize = 0;
        while i < n
            invariant
                map.wf(),
                n == game_objects.entries@.len(),
                0 <= i <= n,
                keys_unique(game_objects.entries@),
                forall|k: int|
                    0 <= k < n ==> loc_in_bounds((#[trigger] game_objects.entries@[k]).0),
                forall|k: int|
                    0 <= k < i ==> map.spec_at((#[trigger] game_objects.entries@[k]).0)
                        == spec_element_of(game_objects.entries@[k].1, now_ms),
                forall|l: Location|
                    loc_in_bounds(l) && (forall|k: int|
                        0 <= k < i ==> (#[trigger] game_objects.entries@[k]).0 != l)
                        ==> map.spec_at(l) == MapElement::Empty,
            decreases n - i,
        {
            let (l, o) = game_objects.entries[i];
            let e = match o {
                GameObject::Orc { id, tileset_location, .. } => MapElement::Monster(
                    Monster { id, tileset_location, last_movement: now_ms, last_attack: now_ms },
                ),
                GameObject::FlowerPot { id, tileset_location } => MapElement::Object(
                    Object { id, tileset_location },
                ),
                GameObject::Ladder { id, tileset_location, .. } => MapElement::Object(
                    Object { id, tileset_location },
                ),
            };
            map.set(l, e);
            i = i + 1;
        }
        proof {
            assert forall|l: Location| loc_in_bounds(l) implies map.spec_at(l) == match lookup(
                game_objects.entries@,
                l,
            ) {
                Some(o) => spec_element_of(o, now_ms),
                None => MapElement::Empty,
            } by {
                match lookup(game_objects.entries@, l) {
                    Some(o) => {
                        let k = crate::objects::lemma_lookup_some_index(
                            game_objects.entries@,
                            l,
                        );
                    },
                    None => {
                        if exists|k: int|
                            0 <= k < n && (#[trigger] game_objects.entries@[k]).0 == l {
                            let k = choose|k: int|
                                0 <= k < n && (#[trigger] game_objects.entries@[k]).0 == l;
                            crate::objects::lemma_lookup_found(game_objects.entries@, k);
                        }
                    },
                }
            }
        }
        map
    }

    /// Moves the monster at `from` to `to`, stamping its move time with
    /// `now_ms` and emptying `from`. A self-move, or a `from` cell that
    /// holds no monster, changes nothing; the call always succeeds.
    pub fn move_monster(&mut self, from: Location, to: Location, now_ms: u64) -> (r: Option<()>)
        requires
            old(self).wf(),
            loc_in_bounds(from),
            loc_in_bounds(to),
        ensures
            final(self).wf(),
            r is Some,
            (from == to || !(old(self).spec_at(from) is Monster)) ==> *final(self) == *old(self),
            (from != to && old(self).spec_at(from) is Monster) ==> {
                &&& final(self).spec_at(to) == MapElement::Monster(
                    Monster {
                        last_movement: now_ms,
                        ..old(self).spec_at(from)->Monster_0
                    },
                )
                &&& final(self).spec_at(from) == MapElement::Empty
                &&& forall|l2: Location|
                    loc_in_bounds(l2) && l2 != from && l2 != to ==> final(self).spec_at(l2) == old(
                        self,
                    ).spec_at(l2)
            },
    {
        if from == to {
            return Some(());
        }
        let element = self.get(from);
        match element {
            MapElement::Monster(monster) => {
                let moved = Monster { last_movement: now_ms, ..monster };
                self.set(to, MapElement::Monster(moved));
                self.set(from, MapElement::Empty);
                Some(())
            },
            _ => Some(()),
        }
    }
}

/// Distinct in-bounds cells have distinct flat indices.
pub proof fn lemma_cell_index_injective(a: Location, b: Location)
    requires
        loc_in_bounds(a),
        loc_in_bounds(b),
        a != b,
    ensures
        spec_cell_index(a) != spec_cell_index(b),
{
    assert(spec_cell_index(a) != spec_cell_index(b)) by (nonlinear_arith)
        requires
            a.x < MAP_WIDTH && a.y < MAP_HEIGHT && a.z < Z_LEVELS,
            b.x < MAP_WIDTH && b.y < MAP_HEIGHT && b.z < Z_LEVELS,
            a != b,
            spec_cell_index(a) == (a.z * MAP_HEIGHT + a.y) * MAP_WIDTH + a.x,
            spec_cell_index(b) == (b.z * MAP_HEIGHT + b.y) * MAP_WIDTH + b.x,
    {
    }
}

} // verus!
