//! The client core: the local player snapshot reconciled against
//! authoritative updates, the table of other players, manual movement, and
//! the click-to-walk auto-pather.

use vstd::prelude::*;

use crate::messages::{bytes_eq, UdpClientMsg};
use crate::objects::{lookup, GameObjects};
use crate::path::{bfs_grid, cell2_ok, flat2, is_grid_path, walk_at};
use crate::types::{
    loc_in_bounds, spec_new_direction, Direction, Directions, Location, BASE_MOVE_DELAY_MS,
    MAP_HEIGHT, MAP_WIDTH, MAX_CONNECTION_RETRIES,
};

verus! {

/// One line of the chat log.
#[derive(Debug, Clone, PartialEq, Eq)]
pub struct ChatMessage {
    pub username: Vec<u8>,
    pub message: Vec<u8>,
    pub timestamp: u64,
}

impl ChatMessage {
    /// A chat line stamped with the time it arrived.
    pub fn new(username: Vec<u8>, message: Vec<u8>, timestamp: u64) -> (r: ChatMessage)
        ensures
            r == (ChatMessage { username, message, timestamp }),
    {
        ChatMessage { username, message, timestamp }
    }
}

/// Another player as this client sees it.
#[derive(Debug, Clone, PartialEq, Eq)]
pub struct OtherPlayer {
    pub username: Vec<u8>,
    pub location: Location,
    pub direction: Direction,
    pub frame: u32,
}

impl OtherPlayer {
    /// A newly seen player, on its first animation frame.
    pub fn new(username: Vec<u8>, location: Location, direction: Direction) -> (r: OtherPlayer)
        ensures
            r == (OtherPlayer { username, location, direction, frame: 0 }),
    {
        OtherPlayer { username, location, direction, frame: 0 }
    }
}

/// The other players this client knows, keyed by username.
#[derive(Debug, Clone, PartialEq, Eq)]
pub struct OtherPlayers(pub Vec<OtherPlayer>);

/// Some entry holds this username.
pub open spec fn has_other(s: Seq<OtherPlayer>, name: Seq<u8>) -> bool {
    exists|i: int| 0 <= i < s.len() && (#[trigger] s[i]).username@ == name
}

/// The index of the entry holding this username.
pub open spec fn other_index(s: Seq<OtherPlayer>, name: Seq<u8>) -> int {
    choose|i: int| 0 <= i < s.len() && (#[trigger] s[i]).username@ == name
}

/// Usernames are unique in the table.
pub open spec fn others_unique(s: Seq<OtherPlayer>) -> bool {
    forall|i: int, j: int|
        0 <= i < j < s.len() ==> (#[trigger] s[i]).username@ != (#[trigger] s[j]).username@
}

impl OtherPlayers {
    /// The index of the entry with this username, if one exists.
    pub fn find(&self, name: &Vec<u8>) -> (r: Option<usize>)
        requires
            others_unique(self.0@),
        ensures
            match r {
                Some(k) => k < self.0@.len() && self.0@[k as int].username@ == name@ && k as int
                    == other_index(self.0@, name@) && has_other(self.0@, name@),
                None => !has_other(self.0@, name@),
            },
    {
        let n = self.0.len();
        let mut i: usize = 0;
        while i < n
            invariant
                others_unique(self.0@),
                n == self.0@.len(),
                0 <= i <= n,
                forall|k: int| 0 <= k < i ==> (#[trigger] self.0@[k]).username@ != name@,
            decreases n - i,
        {
            if bytes_eq(&self.0[i].username, name) {
                return Some(i);
            }
            i = i + 1;
        }
        None
    }

    /// Whether some known player stands on cell `(x, y)` of floor `z`.
    pub fn occupies(&self, l: Location) -> (r: bool)
        ensures
            r == spec_other_at(self.0@, l),
    {
        let n = self.0.len();
        let mut i: usize = 0;
        while i < n
            invariant
                n == self.0@.len(),
                0 <= i <= n,
                forall|k: int| 0 <= k < i ==> (#[trigger] self.0@[k]).location != l,
            decreases n - i,
        {
            if self.0[i].location == l {
                return true;
            }
            i = i + 1;
        }
        false
    }
}

/// Some known player stands on cell `l`.
pub open spec fn spec_other_at(s: Seq<OtherPlayer>, l: Location) -> bool {
    exists|i: int| 0 <= i < s.len() && (#[trigger] s[i]).location == l
}

/// The next of the three animation frames.
pub open spec fn spec_next_frame(f: u32) -> u32 {
    if f >= 2 {
        0u32
    } else {
        (f + 1) as u32
    }
}

/// How a report about another player changes the table: an unknown name is
/// inserted on its first frame; a known one whose cell or facing changed
/// adopts them and advances its frame; an identical report changes nothing.
pub open spec fn spec_upsert_other(
    pre: Seq<OtherPlayer>,
    post: Seq<OtherPlayer>,
    username: Vec<u8>,
    location: Location,
    direction: Direction,
) -> bool {
    if !has_other(pre, username@) {
        post == pre.push(OtherPlayer { username, location, direction, frame: 0 })
    } else {
        let k = other_index(pre, username@);
        let e = pre[k];
        if e.location == location && e.direction == direction {
            post == pre
        } else {
            post == pre.update(
                k,
                OtherPlayer {
                    username: e.username,
                    location,
                    direction,
                    frame: spec_next_frame(e.frame),
                },
            )
        }
    }
}

/// This client's own player snapshot: predicted position, pending route,
/// move cooldown, and the request counter for reconciliation.
#[derive(Debug, Clone, PartialEq, Eq)]
pub struct Player {
    pub id: u128,
    pub username: Vec<u8>,
    pub request_id: u32,
    pub level: u32,
    pub hp: u32,
    pub max_hp: u32,
    pub curr_location: Location,
    pub prev_location: Location,
    pub route: Vec<Location>,
    pub last_move_timer: u64,
    pub speed: u64,
    pub direction: Direction,
    pub frame: u32,
}

impl Player {
    /// Whether the player may step onto `(x, y)`: on the map, and free of
    /// other players on the same floor.
    pub fn can_move(x: i64, y: i64, z: u32, op: &OtherPlayers) -> (r: bool)
        ensures
            r == Self::spec_can_move(x as int, y as int, z, op.0@),
    {
        if x < 0 || y < 0 {
            return false;
        }
        if x > (MAP_WIDTH - 1) as i64 || y > (MAP_HEIGHT - 1) as i64 {
            return false;
        }
        !op.occupies(Location { x: x as u32, y: y as u32, z })
    }

    /// What `can_move` decides.
    pub open spec fn spec_can_move(x: int, y: int, z: u32, others: Seq<OtherPlayer>) -> bool {
        &&& 0 <= x < MAP_WIDTH
        &&& 0 <= y < MAP_HEIGHT
        &&& !spec_other_at(others, Location { x: x as u32, y: y as u32, z })
    }
}

/// The client player after one committed step.
pub open spec fn spec_stepped(
    p: Player,
    target: Location,
    now_ms: u64,
    speed: u64,
) -> Player {
    Player {
        prev_location: p.curr_location,
        curr_location: target,
        last_move_timer: now_ms,
        speed,
        direction: spec_new_direction(p.curr_location, target),
        frame: if p.frame >= 2 {
            0u32
        } else {
            (p.frame + 1) as u32
        },
        ..p
    }
}

/// Steps the player one cell in `direction`, stamping the move time and
/// the cooldown that must elapse before the next one; the facing follows
/// the step and the animation frame cycles through three.
pub fn move_player(player: &mut Player, direction: Directions, now_ms: u64, speed: u64)
    requires
        direction.spec_delta().0 < 0 ==> old(player).curr_location.x >= 1,
        direction.spec_delta().0 > 0 ==> old(player).curr_location.x + 1 < 0x100000000,
        direction.spec_delta().1 < 0 ==> old(player).curr_location.y >= 1,
        direction.spec_delta().1 > 0 ==> old(player).curr_location.y + 1 < 0x100000000,
    ensures
        *final(player) == spec_stepped(
            *old(player),
            spec_step_target(old(player).curr_location, direction),
            now_ms,
            speed,
        ),
{
    let (dx, dy) = direction.delta();
    let x = if dx < 0 {
        player.curr_location.x - 1
    } else if dx > 0 {
        player.curr_location.x + 1
    } else {
        player.curr_location.x
    };
    let y = if dy < 0 {
        player.curr_location.y - 1
    } else if dy > 0 {
        player.curr_location.y + 1
    } else {
        player.curr_location.y
    };
    let target = Location { x, y, z: player.curr_location.z };
    let d = crate::types::calculate_new_direction(player.curr_location, target);
    player.prev_location = player.curr_location;
    player.curr_location = target;
    player.last_move_timer = now_ms;
    player.speed = speed;
    player.direction = d;
    player.frame = if player.frame >= 2 {
        0
    } else {
        player.frame + 1
    };
}

/// The cell one step in `direction` from `from`.
pub open spec fn spec_step_target(from: Location, direction: Directions) -> Location {
    let dx = direction.spec_delta().0;
    let dy = direction.spec_delta().1;
    Location {
        x: (from.x + dx) as u32,
        y: (from.y + dy) as u32,
        z: from.z,
    }
}

/// One held movement key: the player steps if its cooldown has elapsed and
/// the target cell is free; a diagonal costs twice the base delay.
pub fn handle_player_movement(
    player: &mut Player,
    op: &OtherPlayers,
    direction: Directions,
    now_ms: u64,
)
    ensures
        !spec_move_allowed(*old(player), op.0@, direction, now_ms) ==> *final(player) == *old(
            player,
        ),
        spec_move_allowed(*old(player), op.0@, direction, now_ms) ==> *final(player)
            == spec_stepped(
            *old(player),
            spec_step_target(old(player).curr_location, direction),
            now_ms,
            spec_step_delay(direction),
        ),
{
    if !(now_ms >= player.last_move_timer && now_ms - player.last_move_timer >= player.speed) {
        return ;
    }
    let (dx, dy) = direction.delta();
    let x = player.curr_location.x as i64 + dx as i64;
    let y = player.curr_location.y as i64 + dy as i64;
    if !Player::can_move(x, y, player.curr_location.z, op) {
        return ;
    }
    let speed = if dx != 0 && dy != 0 {
        BASE_MOVE_DELAY_MS * 2
    } else {
        BASE_MOVE_DELAY_MS
    };
    move_player(player, direction, now_ms, speed);
}

/// The cooldown one step in `direction` imposes: doubled on a diagonal.
pub open spec fn spec_step_delay(direction: Directions) -> u64 {
    if direction.spec_delta().0 != 0 && direction.spec_delta().1 != 0 {
        (BASE_MOVE_DELAY_MS * 2) as u64
    } else {
        BASE_MOVE_DELAY_MS
    }
}

/// The step is allowed: the cooldown has elapsed and the target cell is on
/// the map and free of other players.
pub open spec fn spec_move_allowed(
    p: Player,
    others: Seq<OtherPlayer>,
    direction: Directions,
    now_ms: u64,
) -> bool {
    &&& now_ms >= p.last_move_timer
    &&& now_ms - p.last_move_timer >= p.speed
    &&& Player::spec_can_move(
        p.curr_location.x + direction.spec_delta().0,
        p.curr_location.y + direction.spec_delta().1,
        p.curr_location.z,
        others,
    )
}

/// The outbound move report: nothing while the player stands still; after
/// a step, the new position under the next request id, which the player
/// remembers.
pub fn send_pos_to_server(player: &mut Player) -> (r: Option<UdpClientMsg>)
    requires
        old(player).request_id < u32::MAX,
    ensures
        old(player).curr_location == old(player).prev_location ==> r is None && *final(player)
            == *old(player),
        old(player).curr_location != old(player).prev_location ==> {
            &&& *final(player) == (Player {
                request_id: (old(player).request_id + 1) as u32,
                ..*old(player)
            })
            &&& r == Some(
                UdpClientMsg::PlayerMove {
                    id: old(player).id,
                    client_request_id: (old(player).request_id + 1) as u32,
                    location: old(player).curr_location,
                },
            )
        },
{
    if player.curr_location == player.prev_location {
        return None;
    }
    player.request_id = player.request_id + 1;
    Some(
        UdpClientMsg::PlayerMove {
            id: player.id,
            client_request_id: player.request_id,
            location: player.curr_location,
        },
    )
}

/// The walkability mask of floor `z` as the auto-pather sees it: cells
/// holding a monster, or another player, are blocked.
pub fn construct_map_from_unwalkable_objects(
    game_objects: &GameObjects,
    other_players: &OtherPlayers,
    z: u32,
) -> (mask: Vec<bool>)
    requires
        game_objects.wf(),
        z < crate::types::Z_LEVELS,
    ensures
        mask@.len() == MAP_WIDTH * MAP_HEIGHT,
        forall|c: Location|
            cell2_ok(c, z) ==> (#[trigger] walk_at(mask@, c) <==> !(lookup(
                game_objects.entries@,
                c,
            ) matches Some(o) && o is Orc) && !spec_other_at(other_players.0@, c)),
{
    let mut mask: Vec<bool> = Vec::new();
    let mut y: u32 = 0;
    while y < MAP_HEIGHT
        invariant
            game_objects.wf(),
            z < crate::types::Z_LEVELS,
            0 <= y <= MAP_HEIGHT,
            mask@.len() == y * MAP_WIDTH,
            forall|c: Location|
                cell2_ok(c, z) && c.y < y ==> (#[trigger] walk_at(mask@, c) <==> !(lookup(
                    game_objects.entries@,
                    c,
                ) matches Some(o) && o is Orc) && !spec_other_at(other_players.0@, c)),
        decreases MAP_HEIGHT - y,
    {
        let mut x: u32 = 0;
        while x < MAP_WIDTH
            invariant
                game_objects.wf(),
                z < crate::types::Z_LEVELS,
                0 <= y < MAP_HEIGHT,
                0 <= x <= MAP_WIDTH,
                mask@.len() == y * MAP_WIDTH + x,
                forall|c: Location|
                    cell2_ok(c, z) && (c.y < y || (c.y == y && c.x < x)) ==> (#[trigger] walk_at(
                        mask@,
                        c,
                    ) <==> !(lookup(game_objects.entries@, c) matches Some(o) && o is Orc)
                        && !spec_other_at(other_players.0@, c)),
            decreases MAP_WIDTH - x,
        {
            let cell = Location { x, y, z };
            let blocked_by_orc = match game_objects.get(cell) {
                Some(o) => o.is_monster(),
                None => false,
            };
            let walkable = !blocked_by_orc && !other_players.occupies(cell);
            let ghost pre_mask = mask@;
            mask.push(walkable);
            proof {
                assert(flat2(cell) == mask@.len() - 1);
                assert forall|c: Location|
                    cell2_ok(c, z) && (c.y < y || (c.y == y && c.x < x + 1)) implies (
                #[trigger] walk_at(mask@, c) <==> !(lookup(game_objects.entries@, c) matches Some(
                    o,
                ) && o is Orc) && !spec_other_at(other_players.0@, c)) by {
                    if c == cell {
                        assert(walk_at(mask@, c) == walkable);
                    } else {
                        crate::path::lemma_flat2_injective(c, cell, z);
                        crate::path::lemma_flat2_bounds(c, z);
                        assert(flat2(c) < y * MAP_WIDTH + x) by (nonlinear_arith)
                            requires
                                c.x < MAP_WIDTH && MAP_WIDTH == 30,
                                c.y < y || (c.y == y && c.x < x),
                                flat2(c) == c.y * MAP_WIDTH + c.x,
                        {
                        }
                        assert(mask@[flat2(c)] == pre_mask[flat2(c)]);
                        assert(walk_at(pre_mask, c) <==> !(lookup(
                            game_objects.entries@,
                            c,
                        ) matches Some(o) && o is Orc) && !spec_other_at(other_players.0@, c));
                    }
                }
            }
            x = x + 1;
        }
        y = y + 1;
    }
    proof {
        assert(mask@.len() == MAP_HEIGHT * MAP_WIDTH);
    }
    mask
}

/// The shortest route from `start` to `end` over the mask, excluding the
/// starting cell: what remains to walk. Empty when the target cannot be
/// reached, or is the cell already stood on.
pub fn bfs_find_path(walk: &Vec<bool>, start: Location, end: Location) -> (r: Vec<Location>)
    requires
        walk@.len() == MAP_WIDTH * MAP_HEIGHT,
        cell2_ok(start, start.z),
        cell2_ok(end, start.z),
    ensures
        r@.len() > 0 ==> is_grid_path(walk@, seq![start] + r@, start, end, start.z),
        r@.len() > 0 ==> forall|p: Seq<Location>|
            is_grid_path(walk@, p, start, end, start.z) ==> p.len() >= r@.len() + 1,
        r@.len() == 0 ==> start == end || forall|p: Seq<Location>|
            !is_grid_path(walk@, p, start, end, start.z),
{
    let full = bfs_grid(walk, start, end);
    if full.len() == 0 {
        return Vec::new();
    }
    let n = full.len();
    let mut r: Vec<Location> = Vec::new();
    let mut i: usize = 1;
    while i < n
        invariant
            n == full@.len(),
            1 <= i <= n,
            r@ =~= full@.subrange(1, i as int),
        decreases n - i,
    {
        r.push(full[i]);
        proof {
            assert(r@ =~= full@.subrange(1, i + 1));
        }
        i = i + 1;
    }
    proof {
        if full@.len() == 1 {
            assert(full@[0] == start && full@[full@.len() - 1] == end);
        } else {
            assert(seq![start] + r@ =~= full@);
        }
    }
    r
}

/// `p` walks from `s` to `t`: it starts at `s`, ends at `t`, moves one
/// step at a time, and every cell but the first is in bounds and free of
/// orcs and of other players.
pub open spec fn is_client_path(
    go: GameObjects,
    others: Seq<OtherPlayer>,
    p: Seq<Location>,
    s: Location,
    t: Location,
    z: u32,
) -> bool {
    &&& p.len() >= 1
    &&& p[0] == s
    &&& p[p.len() - 1] == t
    &&& forall|i: int| 0 <= i < p.len() - 1 ==> crate::path::adj4(p[i], #[trigger] p[i + 1])
    &&& forall|i: int|
        1 <= i < p.len() ==> cell2_ok(#[trigger] p[i], z) && !(lookup(go.entries@, p[i])
            matches Some(o) && o is Orc) && !spec_other_at(others, p[i])
}

/// Over the auto-pather's mask, grid paths and client paths agree.
proof fn lemma_client_path_equiv(
    mask: Seq<bool>,
    go: GameObjects,
    others: Seq<OtherPlayer>,
    p: Seq<Location>,
    s: Location,
    t: Location,
    z: u32,
)
    requires
        mask.len() == MAP_WIDTH * MAP_HEIGHT,
        forall|c: Location|
            cell2_ok(c, z) ==> (#[trigger] walk_at(mask, c) <==> !(lookup(go.entries@, c)
                matches Some(o) && o is Orc) && !spec_other_at(others, c)),
    ensures
        is_grid_path(mask, p, s, t, z) <==> is_client_path(go, others, p, s, t, z),
{
    if is_grid_path(mask, p, s, t, z) {
        assert forall|i: int| 1 <= i < p.len() implies cell2_ok(#[trigger] p[i], z) && !(lookup(
            go.entries@,
            p[i],
        ) matches Some(o) && o is Orc) && !spec_other_at(others, p[i]) by {
            assert(walk_at(mask, p[i]));
        }
    }
    if is_client_path(go, others, p, s, t, z) {
        assert forall|i: int| 1 <= i < p.len() implies cell2_ok(#[trigger] p[i], z) && walk_at(
            mask,
            p[i],
        ) by {
            assert(!(lookup(go.entries@, p[i]) matches Some(o) && o is Orc) && !spec_other_at(
                others,
                p[i],
            ));
        }
    }
}

/// A click on the map: when the clicked cell differs from the one stood
/// on and a route free of orcs and other players reaches it, the shortest
/// such route (excluding the start) becomes the pending route; otherwise
/// nothing changes.
pub fn program_route_if_user_clicks_map(
    player: &mut Player,
    game_objects: &GameObjects,
    other_players: &OtherPlayers,
    target: Location,
) -> (routed: bool)
    requires
        game_objects.wf(),
        loc_in_bounds(old(player).curr_location),
        loc_in_bounds(target),
        target.z == old(player).curr_location.z,
    ensures
        routed <==> (target != old(player).curr_location && exists|p: Seq<Location>|
            is_client_path(
                *game_objects,
                other_players.0@,
                p,
                old(player).curr_location,
                target,
                old(player).curr_location.z,
            )),
        !routed ==> *final(player) == *old(player),
        routed ==> {
            &&& final(player).route@.len() > 0
            &&& *final(player) == (Player { route: final(player).route, ..*old(player) })
            &&& is_client_path(
                *game_objects,
                other_players.0@,
                seq![old(player).curr_location] + final(player).route@,
                old(player).curr_location,
                target,
                old(player).curr_location.z,
            )
            &&& forall|p: Seq<Location>|
                is_client_path(
                    *game_objects,
                    other_players.0@,
                    p,
                    old(player).curr_location,
                    target,
                    old(player).curr_location.z,
                ) ==> p.len() >= final(player).route@.len() + 1
        },
{
    let ghost z = player.curr_location.z;
    let ghost start = player.curr_location;
    let mask = construct_map_from_unwalkable_objects(
        game_objects,
        other_players,
        player.curr_location.z,
    );
    let path = bfs_find_path(&mask, player.curr_location, target);
    proof {
        assert forall|p: Seq<Location>|
            #[trigger] is_grid_path(mask@, p, start, target, z) implies is_client_path(
            *game_objects,
            other_players.0@,
            p,
            start,
            target,
            z,
        ) by {
            lemma_client_path_equiv(mask@, *game_objects, other_players.0@, p, start, target, z);
        }
        assert forall|p: Seq<Location>|
            #[trigger] is_client_path(*game_objects, other_players.0@, p, start, target, z)
            implies is_grid_path(mask@, p, start, target, z) by {
            lemma_client_path_equiv(mask@, *game_objects, other_players.0@, p, start, target, z);
        }
        if path@.len() > 0 {
            let full = seq![start] + path@;
            assert(is_grid_path(mask@, full, start, target, z));
            assert(is_client_path(*game_objects, other_players.0@, full, start, target, z));
            if target == start {
                assert(is_grid_path(mask@, seq![start], start, target, z));
                assert(seq![start].len() >= path@.len() + 1);
                assert(false);
            }
        } else {
            if target != start {
                assert forall|p: Seq<Location>|
                    !is_client_path(*game_objects, other_players.0@, p, start, target, z) by {
                    if is_client_path(*game_objects, other_players.0@, p, start, target, z) {
                        assert(is_grid_path(mask@, p, start, target, z));
                    }
                }
            }
        }
    }
    if path.len() == 0 {
        return false;
    }
    player.route = path;
    true
}

/// The cardinal direction of a one-cell step in the grid plane, if the
/// step is one.
pub open spec fn spec_cardinal_dir(from: Location, to: Location) -> Option<Directions> {
    if to.x == from.x && to.y + 1 == from.y {
        Some(Directions::North)
    } else if to.x == from.x && to.y == from.y + 1 {
        Some(Directions::South)
    } else if to.y == from.y && to.x == from.x + 1 {
        Some(Directions::East)
    } else if to.y == from.y && to.x + 1 == from.x {
        Some(Directions::West)
    } else {
        None
    }
}

/// An orc stands on this cell of the store.
pub open spec fn spec_orc_at(go: GameObjects, l: Location) -> bool {
    lookup(go.entries@, l) matches Some(o) && o is Orc
}

/// One frame of the auto-pather: nothing happens without a pending route,
/// before the move cooldown elapses, while a monster holds the next cell,
/// or when the next cell is no single cardinal step away; otherwise the
/// due step is committed by the movement rule and leaves the route.
pub fn handle_route(
    player: &mut Player,
    game_objects: &GameObjects,
    other_players: &OtherPlayers,
    now_ms: u64,
)
    requires
        game_objects.wf(),
    ensures
        old(player).route@.len() == 0 ==> *final(player) == *old(player),
        old(player).route@.len() > 0 ==> {
            let next = old(player).route@[0];
            let cool = now_ms >= old(player).last_move_timer && now_ms - old(
                player,
            ).last_move_timer >= old(player).speed;
            &&& (!cool ==> *final(player) == *old(player))
            &&& (cool && spec_orc_at(*game_objects, next) ==> *final(player) == *old(player))
            &&& (cool && !spec_orc_at(*game_objects, next) && spec_cardinal_dir(
                old(player).curr_location,
                next,
            ) is None ==> *final(player) == *old(player))
            &&& ((cool && !spec_orc_at(*game_objects, next) && spec_cardinal_dir(
                old(player).curr_location,
                next,
            ) is Some) ==> {
                let d = spec_cardinal_dir(old(player).curr_location, next)->0;
                let walked = if spec_move_allowed(*old(player), other_players.0@, d, now_ms) {
                    spec_stepped(
                        *old(player),
                        spec_step_target(old(player).curr_location, d),
                        now_ms,
                        spec_step_delay(d),
                    )
                } else {
                    *old(player)
                };
                &&& final(player).route@ == old(player).route@.drop_first()
                &&& *final(player) == (Player { route: final(player).route, ..walked })
            })
        },
{
    if player.route.len() == 0 {
        return ;
    }
    if !(now_ms >= player.last_move_timer && now_ms - player.last_move_timer >= player.speed) {
        return ;
    }
    let next = player.route[0];
    if let Some(o) = game_objects.get(next) {
        if o.is_monster() {
            return ;
        }
    }
    let dx = next.x as i64 - player.curr_location.x as i64;
    let dy = next.y as i64 - player.curr_location.y as i64;
    let direction = if dx == 0 && dy == -1 {
        Directions::North
    } else if dx == 0 && dy == 1 {
        Directions::South
    } else if dx == 1 && dy == 0 {
        Directions::East
    } else if dx == -1 && dy == 0 {
        Directions::West
    } else {
        proof {
            assert(spec_cardinal_dir(player.curr_location, next) is None);
        }
        return ;
    };
    proof {
        assert(spec_cardinal_dir(old(player).curr_location, next) == Some(direction));
    }
    let ghost route0 = player.route@;
    handle_player_movement(player, other_players, direction, now_ms);
    player.route.remove(0);
    proof {
        assert(player.route@ =~= route0.drop_first());
    }
}

/// The outstanding pings and the clock of the last one sent.
#[derive(Debug, Clone, PartialEq, Eq)]
pub struct PingMonitor {
    pub ping_counter: u32,
    pub last_sent_ping_time: u64,
    pub pings: Vec<(u32, u64)>,
}

/// How often the client pings, in milliseconds.
pub const PING_INTERVAL_MS: u64 = 5000;

impl PingMonitor {
    /// A monitor with no pings outstanding.
    pub fn new() -> (r: PingMonitor)
        ensures
            r.ping_counter == 0,
            r.last_sent_ping_time == 0,
            r.pings@.len() == 0,
    {
        PingMonitor { ping_counter: 0, last_sent_ping_time: 0, pings: Vec::new() }
    }

    /// Sends a ping if the interval has elapsed: the fresh ping id and its
    /// send time are remembered.
    pub fn ping_server(&mut self, id: u128, now_ms: u64) -> (r: Option<UdpClientMsg>)
        requires
            old(self).ping_counter < u32::MAX,
        ensures
            !(now_ms >= old(self).last_sent_ping_time + PING_INTERVAL_MS) ==> r is None && *final(self) == *old(self),
            now_ms >= old(self).last_sent_ping_time + PING_INTERVAL_MS ==> {
                &&& final(self).ping_counter == old(self).ping_counter + 1
                &&& final(self).last_sent_ping_time == now_ms
                &&& final(self).pings@ == old(self).pings@.push(
                    (final(self).ping_counter, now_ms),
                )
                &&& r == Some(
                    UdpClientMsg::Ping {
                        id,
                        client_request_id: (old(self).ping_counter + 1) as u32,
                    },
                )
            },
    {
        if !(now_ms >= self.last_sent_ping_time && now_ms - self.last_sent_ping_time
            >= PING_INTERVAL_MS) {
            return None;
        }
        self.ping_counter = self.ping_counter + 1;
        self.pings.push((self.ping_counter, now_ms));
        self.last_sent_ping_time = now_ms;
        Some(UdpClientMsg::Ping { id, client_request_id: self.ping_counter })
    }

    /// Answers a pong: the first matching outstanding ping leaves the
    /// table and its latency comes back; an unknown ping id changes
    /// nothing.
    pub fn log_ping(&mut self, ping_id: u32, now_ms: u64) -> (r: Option<u64>)
        ensures
            spec_log_ping_rel(*old(self), *final(self), ping_id, r, now_ms),
    {
        let n = self.pings.len();
        let mut i: usize = 0;
        while i < n
            invariant
                *self == *old(self),
                n == self.pings@.len(),
                0 <= i <= n,
                forall|j: int| 0 <= j < i ==> (#[trigger] self.pings@[j]).0 != ping_id,
            decreases n - i,
        {
            if self.pings[i].0 == ping_id {
                let (_, sent) = self.pings.remove(i);
                let latency = if now_ms >= sent {
                    now_ms - sent
                } else {
                    0
                };
                return Some(latency);
            }
            i = i + 1;
        }
        proof {
            assert(!has_ping(self.pings@, ping_id));
        }
        None
    }
}

/// Some outstanding ping carries this id.
pub open spec fn has_ping(s: Seq<(u32, u64)>, id: u32) -> bool {
    exists|i: int| 0 <= i < s.len() && (#[trigger] s[i]).0 == id
}

/// How a pong settles the ping table: the first outstanding ping with the
/// answered id leaves it and its round-trip time comes back; a pong nobody
/// asked for changes nothing. Counters and pacing are untouched.
pub open spec fn spec_log_ping_rel(
    pre: PingMonitor,
    post: PingMonitor,
    ping_id: u32,
    r: Option<u64>,
    now_ms: u64,
) -> bool {
    &&& post.ping_counter == pre.ping_counter
    &&& post.last_sent_ping_time == pre.last_sent_ping_time
    &&& (r is Some <==> has_ping(pre.pings@, ping_id))
    &&& (r is None ==> post == pre)
    &&& (r matches Some(latency) ==> exists|k: int|
        {
            &&& 0 <= k < pre.pings@.len()
            &&& (#[trigger] pre.pings@[k]).0 == ping_id
            &&& forall|j: int| 0 <= j < k ==> (#[trigger] pre.pings@[j]).0 != ping_id
            &&& post.pings@ == pre.pings@.remove(k)
            &&& latency == if now_ms >= pre.pings@[k].1 {
                (now_ms - pre.pings@[k].1) as u64
            } else {
                0u64
            }
        })
}

/// How a pong settles the table, whatever its measured latency was: the
/// first matching outstanding ping leaves; an unmatched pong is ignored.
pub open spec fn spec_pong_rel(pre: PingMonitor, post: PingMonitor, ping_id: u32) -> bool {
    &&& post.ping_counter == pre.ping_counter
    &&& post.last_sent_ping_time == pre.last_sent_ping_time
    &&& (!has_ping(pre.pings@, ping_id) ==> post == pre)
    &&& (has_ping(pre.pings@, ping_id) ==> exists|k: int|
        {
            &&& 0 <= k < pre.pings@.len()
            &&& (#[trigger] pre.pings@[k]).0 == ping_id
            &&& forall|j: int| 0 <= j < k ==> (#[trigger] pre.pings@[j]).0 != ping_id
            &&& post.pings@ == pre.pings@.remove(k)
        })
}

/// How long the client waits between reconnect attempts, in milliseconds.
pub const RECONNECT_RETRY_DELAY_MS: u64 = 5000;

/// The reconnect policy after a failed attempt: up to
/// `MAX_CONNECTION_RETRIES` tries, each after the fixed delay; beyond
/// that the client gives up.
pub fn reconnect_backoff(attempts: u8) -> (r: Option<u64>)
    ensures
        attempts <= MAX_CONNECTION_RETRIES <==> r == Some(RECONNECT_RETRY_DELAY_MS),
        attempts > MAX_CONNECTION_RETRIES <==> r is None,
{
    if attempts <= MAX_CONNECTION_RETRIES {
        Some(RECONNECT_RETRY_DELAY_MS)
    } else {
        None
    }
}


/// One event on the client channel: for which player, and what happened.
pub struct ClientChannel {
    pub id: u128,
    pub msg: Cc,
}

/// What the network told this client.
pub enum Cc {
    PlayerMove { client_request_id: u32, location: Location },
    OtherPlayer { username: Vec<u8>, location: Location, direction: Direction },
    Disconnect,
    MoveObject { from: Location, to: Location },
    Objects(GameObjects),
    ChatMsg { from: Vec<u8>, msg: Vec<u8> },
    Pong(u32),
    ReconnectOk,
    PlayerHealthUpdate { hp: u32 },
    PlayerDeath { message: Vec<u8> },
    RespawnOk { hp: u32, location: Location },
    DamageNumber { damage: u32 },
}

/// Everything the running client holds: its own player, the others, the
/// object snapshot, the chat log, and the session flags.
pub struct ClientGame {
    pub player: Player,
    pub other_players: OtherPlayers,
    pub game_objects: GameObjects,
    pub user_chat: Vec<ChatMessage>,
    pub is_dead: bool,
    pub is_disconnected: bool,
    pub ping_monitor: PingMonitor,
}

impl ClientGame {
    /// Usernames in the table are unique and the object snapshot is well
    /// formed.
    pub open spec fn wf(self) -> bool {
        &&& others_unique(self.other_players.0@)
        &&& self.game_objects.wf()
    }

    /// Applies one authoritative event, the heart of reconciliation: a
    /// position report at or above the local request counter snaps the
    /// player there; a stale one only settles the prediction. The other
    /// events replace the snapshot they carry, advance the other-player
    /// table, append chat, resolve pings, or flip the session flags.
    pub fn apply_server_msg(&mut self, ev: Cc, now_ms: u64)
        requires
            old(self).wf(),
            ev matches Cc::Objects(go) ==> go.wf(),
        ensures
            final(self).wf(),
            ev matches Cc::PlayerMove { client_request_id, location } ==> {
                &&& client_request_id >= old(self).player.request_id ==> final(self).player == (
                Player {
                    prev_location: location,
                    curr_location: location,
                    ..old(self).player
                })
                &&& client_request_id < old(self).player.request_id ==> final(self).player == (
                Player { prev_location: old(self).player.curr_location, ..old(self).player })
                &&& final(self).game_objects == old(self).game_objects
                &&& final(self).is_dead == old(self).is_dead
            },
            ev matches Cc::Objects(go) ==> final(self).game_objects == go && final(self).player
                == old(self).player,
            ev matches Cc::MoveObject { from, to } ==> (old(self).game_objects@.dom().contains(
                from,
            ) ==> final(self).game_objects@ =~= old(self).game_objects@.remove(from).insert(
                to,
                old(self).game_objects@[from],
            )) && (!old(self).game_objects@.dom().contains(from) ==> final(self).game_objects
                == old(self).game_objects),
            ev matches Cc::PlayerHealthUpdate { hp } ==> final(self).player == (Player {
                hp,
                ..old(self).player
            }) && final(self).is_dead == old(self).is_dead,
            ev matches Cc::PlayerDeath { .. } ==> final(self).is_dead && final(self).player == old(self).player,
            ev matches Cc::RespawnOk { hp, location } ==> !final(self).is_dead && final(self).player == (Player {
                hp,
                curr_location: location,
                prev_location: location,
                route: final(self).player.route,
                ..old(self).player
            }) && final(self).player.route@.len() == 0,
            ev is Disconnect ==> final(self).is_disconnected && final(self).player == old(self).player,
            ev is ReconnectOk ==> !final(self).is_disconnected && final(self).player == old(self).player,
            ev matches Cc::ChatMsg { from, msg } ==> final(self).user_chat@ == old(self).user_chat@.push(ChatMessage { username: from, message: msg, timestamp: now_ms })
                && final(self).player == old(self).player,
            ev matches Cc::OtherPlayer { username, location, direction } ==> spec_upsert_other(
                old(self).other_players.0@,
                final(self).other_players.0@,
                username,
                location,
                direction,
            ) && final(self).player == old(self).player,
            ev matches Cc::Pong(ping_id) ==> spec_pong_rel(
                old(self).ping_monitor,
                final(self).ping_monitor,
                ping_id,
            ) && final(self).player == old(self).player && final(self).game_objects == old(
                self,
            ).game_objects,
    {
        match ev {
            Cc::PlayerMove { client_request_id, location } => {
                if client_request_id >= self.player.request_id {
                    self.player.prev_location = location;
                    self.player.curr_location = location;
                } else {
                    self.player.prev_location = self.player.curr_location;
                }
            },
            Cc::MoveObject { from, to } => {
                match self.game_objects.remove(from) {
                    Some(o) => {
                        self.game_objects.insert(to, o);
                    },
                    None => {},
                }
            },
            Cc::ChatMsg { from, msg } => {
                self.user_chat.push(ChatMessage::new(from, msg, now_ms));
            },
            Cc::Pong(ping_id) => {
                let _ = self.ping_monitor.log_ping(ping_id, now_ms);
            },
            Cc::Objects(go) => {
                self.game_objects = go;
            },
            Cc::Disconnect => {
                self.is_disconnected = true;
            },
            Cc::ReconnectOk => {
                self.is_disconnected = false;
            },
            Cc::OtherPlayer { username, location, direction } => {
                match self.other_players.find(&username) {
                    Some(k) => {
                        let ghost pre = self.other_players.0@;
                        let entry = &mut self.other_players.0[k];
                        let changed = !(entry.location == location) || !(entry.direction
                            == direction);
                        if changed {
                            entry.frame = if entry.frame >= 2 {
                                0
                            } else {
                                entry.frame + 1
                            };
                            entry.location = location;
                            entry.direction = direction;
                        }
                        proof {
                            if changed {
                                assert(self.other_players.0@ =~= pre.update(
                                    k as int,
                                    OtherPlayer {
                                        username: pre[k as int].username,
                                        location,
                                        direction,
                                        frame: spec_next_frame(pre[k as int].frame),
                                    },
                                ));
                            } else {
                                assert(self.other_players.0@ =~= pre.update(
                                    k as int,
                                    pre[k as int],
                                ));
                                assert(pre.update(k as int, pre[k as int]) =~= pre);
                            }
                            assert forall|i: int, j: int|
                                0 <= i < j < self.other_players.0@.len() implies (
                            #[trigger] self.other_players.0@[i]).username@ != (
                            #[trigger] self.other_players.0@[j]).username@ by {
                                if i != k as int {
                                    assert(self.other_players.0@[i] == pre[i]);
                                }
                                if j != k as int {
                                    assert(self.other_players.0@[j] == pre[j]);
                                }
                            }
                            assert(self.other_players.0@[k as int].username@ == username@);
                        }
                    },
                    None => {
                        let ghost pre = self.other_players.0@;
                        self.other_players.0.push(
                            OtherPlayer::new(username, location, direction),
                        );
                        proof {
                            assert(self.other_players.0@ =~= pre.push(
                                OtherPlayer {
                                    username: self.other_players.0@.last().username,
                                    location,
                                    direction,
                                    frame: 0,
                                },
                            ));
                            assert forall|i: int, j: int|
                                0 <= i < j < self.other_players.0@.len() implies (
                            #[trigger] self.other_players.0@[i]).username@ != (
                            #[trigger] self.other_players.0@[j]).username@ by {
                                if j == self.other_players.0@.len() - 1 {
                                    assert(self.other_players.0@[i] == pre[i]);
                                }
                            }
                            assert(self.other_players.0@[self.other_players.0@.len() - 1].username@
                                == username@);
                        }
                    },
                }
            },
            Cc::PlayerHealthUpdate { hp } => {
                self.player.hp = hp;
            },
            Cc::PlayerDeath { message: _ } => {
                self.is_dead = true;
            },
            Cc::RespawnOk { hp, location } => {
                self.player.hp = hp;
                self.player.curr_location = location;
                self.player.prev_location = location;
                self.player.route = Vec::new();
                self.is_dead = false;
            },
            Cc::DamageNumber { damage: _ } => {},
        }
    }
}

} // verus!
