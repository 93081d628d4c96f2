//! Shared primitive types: grid locations, facing directions, and the world
//! constants that bound them.

use vstd::prelude::*;

verus! {

/// A grid cell: `(x, y, z)` coordinates, where `z` is the floor level.
#[derive(Debug, Clone, Copy, PartialEq, Eq, Structural, Hash)]
pub struct Location {
    pub x: u32,
    pub y: u32,
    pub z: u32,
}

impl Location {
    /// The cell at `(x, y, z)`.
    pub fn new(x: u32, y: u32, z: u32) -> (r: Location)
        ensures
            r == (Location { x, y, z }),
    {
        Location { x, y, z }
    }
}

/// Width of the world grid in tiles.
pub const MAP_WIDTH: u32 = 30;
/// Height of the world grid in tiles.
pub const MAP_HEIGHT: u32 = 20;
/// Number of floor levels.
pub const Z_LEVELS: u32 = 2;

/// Width of the camera box in tiles; also the monster perception box width.
pub const CAMERA_WIDTH: u32 = 19;
/// Height of the camera box in tiles; also the monster perception box height.
pub const CAMERA_HEIGHT: u32 = 15;

/// Server tick period in milliseconds.
pub const SERVER_TICK_RATE: u64 = 16;
/// Base delay between two single-step moves, in milliseconds.
pub const BASE_MOVE_DELAY_MS: u64 = 200;
/// Monster attack cooldown in milliseconds.
pub const MONSTER_ATTACK_COOLDOWN_MS: u64 = 2000;
/// Monster move cooldown in milliseconds.
pub const MONSTER_MOVE_COOLDOWN_MS: u64 = 200;
/// Damage dealt by one monster attack.
pub const MONSTER_DAMAGE: u32 = 50;
/// Hit points a fresh player starts with.
pub const PLAYER_MAX_HP: u32 = 100;
/// How many times the client retries a reconnect before giving up.
pub const MAX_CONNECTION_RETRIES: u8 = 5;

/// A location lies on the grid.
pub open spec fn loc_in_bounds(l: Location) -> bool {
    l.x < MAP_WIDTH && l.y < MAP_HEIGHT && l.z < Z_LEVELS
}

/// The facing of a player or monster.
#[derive(Debug, Clone, Copy, PartialEq, Eq, Structural)]
pub enum Direction {
    North,
    South,
    East,
    West,
}

/// The eight movement deltas a client key press can produce.
#[derive(Debug, Clone, Copy, PartialEq, Eq, Structural)]
pub enum Directions {
    North,
    East,
    South,
    West,
    NorthEast,
    NorthWest,
    SouthEast,
    SouthWest,
}

impl Directions {
    /// The `(dx, dy)` delta of one step in this direction.
    pub fn delta(&self) -> (d: (i8, i8))
        ensures
            d == self.spec_delta(),
    {
        match self {
            Directions::North => (0, -1),
            Directions::East => (1, 0),
            Directions::South => (0, 1),
            Directions::West => (-1, 0),
            Directions::NorthEast => (1, -1),
            Directions::NorthWest => (-1, -1),
            Directions::SouthEast => (1, 1),
            Directions::SouthWest => (-1, 1),
        }
    }

    /// What `delta` returns.
    pub open spec fn spec_delta(self) -> (i8, i8) {
        match self {
            Directions::North => (0i8, -1i8),
            Directions::East => (1i8, 0i8),
            Directions::South => (0i8, 1i8),
            Directions::West => (-1i8, 0i8),
            Directions::NorthEast => (1i8, -1i8),
            Directions::NorthWest => (-1i8, -1i8),
            Directions::SouthEast => (1i8, 1i8),
            Directions::SouthWest => (-1i8, 1i8),
        }
    }
}

/// What `calculate_new_direction` returns: horizontal difference wins; on a
/// tie of `x`, a strictly smaller `y` gives South and anything else North.
pub open spec fn spec_new_direction(prev: Location, target: Location) -> Direction {
    if prev.x < target.x {
        Direction::East
    } else if prev.x > target.x {
        Direction::West
    } else if prev.y < target.y {
        Direction::South
    } else {
        Direction::North
    }
}

/// The facing an entity adopts when it moves from `prev` towards `target`.
/// Ties break horizontally first; with equal `x` and equal or larger `y`
/// the result collapses to North, matching the locked behaviour.
pub fn calculate_new_direction(prev: Location, target: Location) -> (d: Direction)
    ensures
        d == spec_new_direction(prev, target),
{
    if prev.x < target.x {
        Direction::East
    } else if prev.x > target.x {
        Direction::West
    } else if prev.y < target.y {
        Direction::South
    } else {
        Direction::North
    }
}

/// Two cells are Chebyshev-adjacent: both coordinate gaps are at most one.
pub open spec fn spec_adjacent(a: Location, b: Location) -> bool {
    &&& -1 <= a.x - b.x <= 1
    &&& -1 <= a.y - b.y <= 1
}

/// Whether two cells are Chebyshev-adjacent (`|dx| <= 1 && |dy| <= 1`).
pub fn is_adjacent(a: Location, b: Location) -> (r: bool)
    ensures
        r == spec_adjacent(a, b),
{
    let dx_ok = if a.x >= b.x {
        a.x - b.x <= 1
    } else {
        b.x - a.x <= 1
    };
    let dy_ok = if a.y >= b.y {
        a.y - b.y <= 1
    } else {
        b.y - a.y <= 1
    };
    dx_ok && dy_ok
}

/// A player stands inside the camera box centred on a monster.
pub open spec fn spec_within_view(monster_pos: Location, player_pos: Location) -> bool {
    &&& monster_pos.x - (CAMERA_WIDTH / 2) <= player_pos.x <= monster_pos.x + (CAMERA_WIDTH / 2)
    &&& monster_pos.y - (CAMERA_HEIGHT / 2) <= player_pos.y <= monster_pos.y + (CAMERA_HEIGHT / 2)
}

/// Whether the player is inside the perception box of a monster: the
/// `CAMERA_WIDTH x CAMERA_HEIGHT` rectangle centred on the monster.
pub fn is_within_view(monster_pos: Location, player_pos: Location) -> (r: bool)
    ensures
        r == spec_within_view(monster_pos, player_pos),
{
    let half_w = CAMERA_WIDTH / 2;
    let half_h = CAMERA_HEIGHT / 2;
    let px = player_pos.x as i64;
    let py = player_pos.y as i64;
    let mx = monster_pos.x as i64;
    let my = monster_pos.y as i64;
    mx - half_w as i64 <= px && px <= mx + half_w as i64 && my - half_h as i64 <= py && py <= my
        + half_h as i64
}

} // verus!
