//! The server's world state and its event dispatcher: the single consumer
//! of all peer events, which alone mutates the session registry, the object
//! store and the spatial map, and says which messages go out in reply.

use vstd::prelude::*;
use vstd::string::{StrSliceExecFns, StringSliceAdditionalSpecFns};

use crate::messages::{bytes_eq, TcpServerMsg, UdpServerMsg};
use crate::objects::{lookup, GameObject, GameObjects};
use crate::player::Player;
use crate::types::{
    calculate_new_direction, spec_new_direction, Direction, Location, MAP_HEIGHT, MAP_WIDTH,
};

verus! {

/// One event on the server channel: which player sent it, and what it was.
pub struct ServerChannel {
    pub id: u128,
    pub msg: Sc,
}

/// What a peer asked the server to do.
pub enum Sc {
    PlayerMove { client_request_id: u32, location: Location },
    Disconnect,
    MoveObject { from: Location, to: Location },
    ChatMsg(Vec<u8>),
    Ping(u32),
    Respawn,
}

/// A message the dispatcher wants sent, to a stream peer or a datagram
/// peer. The transport layer performs the send.
#[derive(Debug, Clone, PartialEq, Eq)]
pub enum Action {
    SendTcp { peer: u64, msg: TcpServerMsg },
    SendUdp { peer: u64, msg: UdpServerMsg },
}

/// No two players share an id.
pub open spec fn ids_unique(s: Seq<Player>) -> bool {
    forall|i: int, j: int| 0 <= i < j < s.len() ==> (#[trigger] s[i]).id != (#[trigger] s[j]).id
}

/// Some player carries this id.
pub open spec fn has_player(s: Seq<Player>, id: u128) -> bool {
    exists|i: int| 0 <= i < s.len() && (#[trigger] s[i]).id == id
}

/// The index of the player carrying `id`.
pub open spec fn player_index(s: Seq<Player>, id: u128) -> int {
    choose|i: int| 0 <= i < s.len() && (#[trigger] s[i]).id == id
}

/// Some player already uses this username.
pub open spec fn spec_username_taken(s: Seq<Player>, name: Seq<u8>) -> bool {
    exists|i: int| 0 <= i < s.len() && (#[trigger] s[i]).username@ == name
}

/// No two entries of the address map share a peer handle.
pub open spec fn addrs_unique(s: Seq<(u64, u128)>) -> bool {
    forall|i: int, j: int| 0 <= i < j < s.len() ==> (#[trigger] s[i]).0 != (#[trigger] s[j]).0
}

/// Some entry maps this peer handle.
pub open spec fn has_addr(s: Seq<(u64, u128)>, a: u64) -> bool {
    exists|i: int| 0 <= i < s.len() && (#[trigger] s[i]).0 == a
}

/// The index of the entry mapping peer `a`.
pub open spec fn addr_index(s: Seq<(u64, u128)>, a: u64) -> int {
    choose|i: int| 0 <= i < s.len() && (#[trigger] s[i]).0 == a
}

/// The world as the dispatcher owns it: the session registry (players and
/// the peer-to-id index), the object store, and the spatial map.
pub struct ServerState {
    pub players: Vec<Player>,
    pub address_map: Vec<(u64, u128)>,
    pub game_objects: GameObjects,
    pub mmo_map: crate::mmo_map::MmoMap,
}

/// Cell `l` is closed to spawning: a live player stands on it, or an orc
/// does.
pub open spec fn spec_spawn_taken(
    players: Seq<Player>,
    objects: Seq<(Location, GameObject)>,
    l: Location,
) -> bool {
    ||| exists|i: int|
        0 <= i < players.len() && !(#[trigger] players[i]).is_dead && players[i].location == l
    ||| lookup(objects, l) matches Some(o) && o is Orc
}

/// `a` comes strictly before `b` in a row-major scan of the ground floor.
pub open spec fn spec_row_major_before(a: Location, b: Location) -> bool {
    a.y < b.y || (a.y == b.y && a.x < b.x)
}

impl ServerState {
    /// Ids unique, peer handles unique, every player healthy in form:
    /// health within bounds, death exactly at zero, a positive maximum.
    pub open spec fn wf(self) -> bool {
        &&& ids_unique(self.players@)
        &&& addrs_unique(self.address_map@)
        &&& forall|i: int|
            0 <= i < self.players@.len() ==> (#[trigger] self.players@[i]).hp_wf()
        &&& forall|i: int| 0 <= i < self.players@.len() ==> (#[trigger] self.players@[i]).max_hp > 0
        &&& self.game_objects.wf()
        &&& self.mmo_map.wf()
    }

    /// A world with no players and no objects.
    pub fn new() -> (r: ServerState)
        ensures
            r.wf(),
            r.players@.len() == 0,
            r.address_map@.len() == 0,
            r.game_objects.entries@.len() == 0,
    {
        ServerState {
            players: Vec::new(),
            address_map: Vec::new(),
            game_objects: GameObjects::new(),
            mmo_map: crate::mmo_map::MmoMap::new(),
        }
    }

    /// The index of the player carrying `id`, if one is registered.
    pub fn find_player(&self, id: u128) -> (r: Option<usize>)
        requires
            ids_unique(self.players@),
        ensures
            match r {
                Some(k) => k < self.players@.len() && self.players@[k as int].id == id && k as int
                    == player_index(self.players@, id) && has_player(self.players@, id),
                None => !has_player(self.players@, id),
            },
    {
        let n = self.players.len();
        let mut i: usize = 0;
        while i < n
            invariant
                ids_unique(self.players@),
                n == self.players@.len(),
                0 <= i <= n,
                forall|k: int| 0 <= k < i ==> (#[trigger] self.players@[k]).id != id,
            decreases n - i,
        {
            if self.players[i].id == id {
                return Some(i);
            }
            i = i + 1;
        }
        None
    }

    /// Whether some registered player already holds this username.
    pub fn is_username_taken(&self, name: &Vec<u8>) -> (r: bool)
        ensures
            r == spec_username_taken(self.players@, name@),
    {
        let n = self.players.len();
        let mut i: usize = 0;
        while i < n
            invariant
                n == self.players@.len(),
                0 <= i <= n,
                forall|k: int| 0 <= k < i ==> (#[trigger] self.players@[k]).username@ != name@,
            decreases n - i,
        {
            if bytes_eq(&self.players[i].username, name) {
                return true;
            }
            i = i + 1;
        }
        false
    }

    /// The id a peer handle is bound to, if any.
    pub fn lookup_address(&self, a: u64) -> (r: Option<u128>)
        requires
            addrs_unique(self.address_map@),
        ensures
            match r {
                Some(id) => has_addr(self.address_map@, a) && self.address_map@[addr_index(
                    self.address_map@,
                    a,
                )].1 == id,
                None => !has_addr(self.address_map@, a),
            },
    {
        let n = self.address_map.len();
        let mut i: usize = 0;
        while i < n
            invariant
                addrs_unique(self.address_map@),
                n == self.address_map@.len(),
                0 <= i <= n,
                forall|k: int| 0 <= k < i ==> (#[trigger] self.address_map@[k]).0 != a,
            decreases n - i,
        {
            if self.address_map[i].0 == a {
                return Some(self.address_map[i].1);
            }
            i = i + 1;
        }
        None
    }

    /// Binds peer handle `a` to player `id`, replacing any stale binding
    /// of the same handle.
    pub fn bind_address(&mut self, a: u64, id: u128)
        requires
            addrs_unique(old(self).address_map@),
        ensures
            addrs_unique(final(self).address_map@),
            has_addr(final(self).address_map@, a),
            final(self).address_map@[addr_index(final(self).address_map@, a)].1 == id,
            forall|k: int|
                0 <= k < final(self).address_map@.len() && (#[trigger] final(self).address_map@[k]).0 != a ==> old(self).address_map@.contains(
                    final(self).address_map@[k],
                ),
            forall|e: (u64, u128)|
                old(self).address_map@.contains(e) && e.0 != a ==> final(self).address_map@.contains(e),
            final(self).players == old(self).players,
            final(self).game_objects == old(self).game_objects,
            final(self).mmo_map == old(self).mmo_map,
    {
        self.remove_address(a);
        let ghost mid = self.address_map@;
        self.address_map.push((a, id));
        proof {
            assert forall|i: int, j: int|
                0 <= i < j < self.address_map@.len() implies (#[trigger] self.address_map@[i]).0
                != (#[trigger] self.address_map@[j]).0 by {
                if j == self.address_map@.len() - 1 {
                    assert(self.address_map@[i] == mid[i]);
                }
            }
            let k = self.address_map@.len() - 1;
            assert(self.address_map@[k].0 == a);
            let ki = addr_index(self.address_map@, a);
            assert(self.address_map@[ki].0 == a);
            if ki != k {
                assert(false);
            }
            assert forall|i: int|
                0 <= i < self.address_map@.len() && (#[trigger] self.address_map@[i]).0 != a
                implies old(self).address_map@.contains(self.address_map@[i]) by {
                assert(self.address_map@[i] == mid[i]);
                assert(mid.contains(mid[i]));
            }
            assert forall|e: (u64, u128)|
                old(self).address_map@.contains(e) && e.0 != a implies self.address_map@.contains(
                e,
            ) by {
                let i = choose|i: int| 0 <= i < mid.len() && mid[i] == e;
                assert(self.address_map@[i] == e);
            }
        }
    }

    /// Drops the binding of peer handle `a`, if one exists; every other
    /// binding stays.
    pub fn remove_address(&mut self, a: u64)
        requires
            addrs_unique(old(self).address_map@),
        ensures
            addrs_unique(final(self).address_map@),
            !has_addr(final(self).address_map@, a),
            forall|k: int|
                0 <= k < final(self).address_map@.len() ==> old(self).address_map@.contains(
                    #[trigger] final(self).address_map@[k],
                ),
            forall|e: (u64, u128)|
                old(self).address_map@.contains(e) && e.0 != a ==> final(self).address_map@.contains(e),
            !has_addr(old(self).address_map@, a) ==> final(self).address_map@ == old(self).address_map@,
            final(self).players == old(self).players,
            final(self).game_objects == old(self).game_objects,
            final(self).mmo_map == old(self).mmo_map,
    {
        let n = self.address_map.len();
        let mut i: usize = 0;
        while i < n
            invariant
                *self == *old(self),
                addrs_unique(self.address_map@),
                n == self.address_map@.len(),
                0 <= i <= n,
                forall|k: int| 0 <= k < i ==> (#[trigger] self.address_map@[k]).0 != a,
            decreases n - i,
        {
            if self.address_map[i].0 == a {
                let ghost pre = self.address_map@;
                self.address_map.remove(i);
                proof {
                    assert forall|k: int|
                        0 <= k < self.address_map@.len() implies (#[trigger] self.address_map@[
                        k]).0 != a by {
                        if k < i {
                            assert(self.address_map@[k] == pre[k]);
                        } else {
                            assert(self.address_map@[k] == pre[k + 1]);
                        }
                    }
                    assert forall|k: int|
                        0 <= k < self.address_map@.len() implies pre.contains(
                        #[trigger] self.address_map@[k]) by {
                        if k < i {
                            assert(self.address_map@[k] == pre[k]);
                        } else {
                            assert(self.address_map@[k] == pre[k + 1]);
                        }
                    }
                    assert forall|e: (u64, u128)| pre.contains(e) && e.0 != a implies self
                        .address_map@.contains(e) by {
                        let j = choose|j: int| 0 <= j < pre.len() && pre[j] == e;
                        if j < i {
                            assert(self.address_map@[j] == e);
                        } else {
                            assert(self.address_map@[j - 1] == e);
                        }
                    }
                }
                return ;
            }
            i = i + 1;
        }
    }

    /// Registers a fresh player; the caller has made sure the id is new.
    pub fn add_player(&mut self, p: Player)
        requires
            old(self).wf(),
            !has_player(old(self).players@, p.id),
            p.hp_wf(),
            p.max_hp > 0,
        ensures
            final(self).wf(),
            final(self).players@ == old(self).players@.push(p),
            final(self).address_map == old(self).address_map,
            final(self).game_objects == old(self).game_objects,
            final(self).mmo_map == old(self).mmo_map,
    {
        let ghost pre = self.players@;
        self.players.push(p);
        proof {
            assert forall|i: int, j: int|
                0 <= i < j < self.players@.len() implies (#[trigger] self.players@[i]).id != (
            #[trigger] self.players@[j]).id by {
                if j == self.players@.len() - 1 {
                    assert(self.players@[i] == pre[i]);
                }
            }
        }
    }

    /// Whether cell `l` is closed to spawning: a live player or an orc
    /// stands on it.
    pub fn is_spawn_taken(&self, l: Location) -> (r: bool)
        requires
            self.game_objects.wf(),
        ensures
            r == spec_spawn_taken(self.players@, self.game_objects.entries@, l),
    {
        let n = self.players.len();
        let mut i: usize = 0;
        while i < n
            invariant
                n == self.players@.len(),
                0 <= i <= n,
                forall|k: int|
                    0 <= k < i ==> !(!(#[trigger] self.players@[k]).is_dead && self.players@[
                    k].location == l),
            decreases n - i,
        {
            let p = &self.players[i];
            if !p.is_dead && p.location == l {
                return true;
            }
            i = i + 1;
        }
        match self.game_objects.get(l) {
            Some(o) => o.is_monster(),
            None => false,
        }
    }

    /// Scans the ground floor row-major and returns the first cell free of
    /// live players and orcs; a full map falls back to the origin cell.
    pub fn generate_spawn_location(&self) -> (r: Location)
        requires
            self.game_objects.wf(),
        ensures
            spec_spawn_ok(self.players@, self.game_objects.entries@, r),
    {
        let mut y: u32 = 0;
        while y < MAP_HEIGHT
            invariant
                self.game_objects.wf(),
                0 <= y <= MAP_HEIGHT,
                forall|l: Location|
                    l.z == 0 && l.x < MAP_WIDTH && l.y < y ==> spec_spawn_taken(
                        self.players@,
                        self.game_objects.entries@,
                        l,
                    ),
            decreases MAP_HEIGHT - y,
        {
            let mut x: u32 = 0;
            while x < MAP_WIDTH
                invariant
                    self.game_objects.wf(),
                    0 <= y < MAP_HEIGHT,
                    0 <= x <= MAP_WIDTH,
                    forall|l: Location|
                        l.z == 0 && l.x < MAP_WIDTH && l.y < y ==> spec_spawn_taken(
                            self.players@,
                            self.game_objects.entries@,
                            l,
                        ),
                    forall|l: Location|
                        l.z == 0 && l.x < x && l.y == y ==> spec_spawn_taken(
                            self.players@,
                            self.game_objects.entries@,
                            l,
                        ),
                decreases MAP_WIDTH - x,
            {
                let cell = Location { x, y, z: 0 };
                if !self.is_spawn_taken(cell) {
                    return cell;
                }
                x = x + 1;
            }
            y = y + 1;
        }
        Location { x: 0, y: 0, z: 0 }
    }
}

/// The stream peers of the first `i` registered players whose username
/// differs from the sender's, in registry order: the chat fan-out goes to
/// exactly these.
pub open spec fn spec_chat_peers(players: Seq<Player>, sender_name: Seq<u8>, i: int) -> Seq<u64>
    decreases i,
{
    if i <= 0 {
        Seq::empty()
    } else {
        spec_chat_peers(players, sender_name, i - 1) + if players[i - 1].username@ == sender_name {
            Seq::empty()
        } else {
            seq![players[i - 1].tcp_peer]
        }
    }
}

/// A copy of a byte string.
pub fn clone_bytes(v: &Vec<u8>) -> (r: Vec<u8>)
    ensures
        r@ == v@,
{
    let n = v.len();
    let mut r: Vec<u8> = Vec::new();
    let mut i: usize = 0;
    while i < n
        invariant
            n == v@.len(),
            0 <= i <= n,
            r@.len() == i,
            forall|k: int| 0 <= k < i ==> r@[k] == v@[k],
        decreases n - i,
    {
        r.push(v[i]);
        i = i + 1;
    }
    proof {
        assert(r@ =~= v@);
    }
    r
}

/// A player after one move request: a request id not above the accepted
/// one, or a move to the cell already occupied, changes nothing; any other
/// request commits the location, the id, and the derived facing.
pub open spec fn spec_apply_move(p: Player, req: u32, loc: Location) -> Player {
    if req <= p.client_request_id || loc == p.location {
        p
    } else {
        Player {
            location: loc,
            client_request_id: req,
            direction: spec_new_direction(p.location, loc),
            ..p
        }
    }
}

/// How a `Disconnect` event changes the state: an unknown id changes
/// nothing; a known id leaves the registry, with both its peer handles
/// unbound and every other binding kept.
pub open spec fn spec_disconnect_rel(pre: ServerState, post: ServerState, id: u128) -> bool {
    &&& (!has_player(pre.players@, id) ==> post == pre)
    &&& !has_player(post.players@, id)
    &&& post.game_objects == pre.game_objects
    &&& post.mmo_map == pre.mmo_map
    &&& (has_player(pre.players@, id) ==> {
        let p = pre.players@[player_index(pre.players@, id)];
        &&& post.players@ == pre.players@.remove(player_index(pre.players@, id))
        &&& !has_addr(post.address_map@, p.tcp_peer)
        &&& (p.udp_peer matches Some(u) ==> !has_addr(post.address_map@, u))
        &&& forall|e: (u64, u128)|
            pre.address_map@.contains(e) && e.0 != p.tcp_peer && (p.udp_peer matches Some(u)
                ==> e.0 != u) ==> post.address_map@.contains(e)
        &&& forall|k: int|
            0 <= k < post.address_map@.len() ==> pre.address_map@.contains(
                #[trigger] post.address_map@[k],
            )
    })
}

/// How a move request changes the state: only the sender's record can
/// change, and it changes exactly by `spec_apply_move`.
pub open spec fn spec_move_rel(
    pre: ServerState,
    post: ServerState,
    id: u128,
    client_request_id: u32,
    location: Location,
) -> bool {
    &&& post.address_map == pre.address_map
    &&& post.game_objects == pre.game_objects
    &&& post.mmo_map == pre.mmo_map
    &&& (!has_player(pre.players@, id) ==> post.players == pre.players)
    &&& (has_player(pre.players@, id) ==> post.players@ == pre.players@.update(
        player_index(pre.players@, id),
        spec_apply_move(
            pre.players@[player_index(pre.players@, id)],
            client_request_id,
            location,
        ),
    ))
}

/// How an object-move request changes the state: only the store can
/// change, and only by moving the entry at `from` to `to`, reoriented by
/// the move's delta; an empty `from` changes nothing.
pub open spec fn spec_move_object_rel(
    pre: ServerState,
    post: ServerState,
    from: Location,
    to: Location,
) -> bool {
    &&& post.players == pre.players
    &&& post.address_map == pre.address_map
    &&& post.mmo_map == pre.mmo_map
    &&& (pre.game_objects@.dom().contains(from) ==> post.game_objects@ =~= pre.game_objects@.remove(
        from,
    ).insert(to, pre.game_objects@[from].spec_with_direction(spec_new_direction(from, to))))
    &&& (!pre.game_objects@.dom().contains(from) ==> post.game_objects == pre.game_objects)
}

/// The chat fan-out a message from player `id` produces: one copy per
/// player not sharing the sender's username, in registry order, tagged
/// with the sender's name; none for an unknown sender.
pub open spec fn spec_chat_actions(
    pre: ServerState,
    id: u128,
    msg: Seq<u8>,
    actions: Seq<Action>,
) -> bool {
    &&& (!has_player(pre.players@, id) ==> actions.len() == 0)
    &&& (has_player(pre.players@, id) ==> {
        let sender = pre.players@[player_index(pre.players@, id)];
        let peers = spec_chat_peers(pre.players@, sender.username@, pre.players@.len() as int);
        &&& actions.len() == peers.len()
        &&& forall|j: int|
            0 <= j < actions.len() ==> (#[trigger] actions[j] matches Action::SendTcp {
                peer,
                msg: m,
            } && peer == peers[j] && (m matches TcpServerMsg::ChatMsg { username: u, msg: body }
                && u@ == sender.username@ && body@ == msg))
    })
}

/// The reply a ping from player `id` produces: one pong to its datagram
/// peer when the server knows one, nothing otherwise.
pub open spec fn spec_ping_actions(
    pre: ServerState,
    id: u128,
    ping_id: u32,
    actions: Seq<Action>,
) -> bool {
    &&& (spec_ping_reply_peer(pre, id) matches Some(u) ==> actions =~= seq![
        (Action::SendUdp { peer: u, msg: UdpServerMsg::Pong(ping_id) }),
    ])
    &&& (spec_ping_reply_peer(pre, id) is None ==> actions.len() == 0)
}

/// How a respawn request changes the state: a live or unknown player is
/// left alone; a dead one comes back at a fresh spawn with full health,
/// confirmed on the stream and reported on its datagram peer.
pub open spec fn spec_respawn_rel(
    pre: ServerState,
    post: ServerState,
    id: u128,
    actions: Seq<Action>,
) -> bool {
    &&& post.address_map == pre.address_map
    &&& post.game_objects == pre.game_objects
    &&& post.mmo_map == pre.mmo_map
    &&& (!(has_player(pre.players@, id) && pre.players@[player_index(pre.players@, id)].is_dead)
        ==> post.players == pre.players && actions.len() == 0)
    &&& ((has_player(pre.players@, id) && pre.players@[player_index(pre.players@, id)].is_dead)
        ==> {
        let k = player_index(pre.players@, id);
        let p = pre.players@[k];
        exists|spawn: Location|
            {
                &&& #[trigger] spec_spawn_ok(pre.players@, pre.game_objects.entries@, spawn)
                &&& post.players@ == pre.players@.update(
                    k,
                    Player { hp: p.max_hp, location: spawn, is_dead: false, ..p },
                )
                &&& actions[0] == (Action::SendTcp {
                    peer: p.tcp_peer,
                    msg: TcpServerMsg::RespawnOk,
                })
                &&& (p.udp_peer matches Some(u) ==> actions.len() == 2 && actions[1] == (
                Action::SendUdp {
                    peer: u,
                    msg: UdpServerMsg::PlayerHealthUpdate { hp: p.max_hp },
                }))
                &&& (p.udp_peer is None ==> actions.len() == 1)
            }
    })
}

impl ServerState {
    /// Applies one move request from player `id`: stale or no-op requests
    /// are dropped; anything else commits location, request id, and facing.
    /// Nothing but that player's record changes. An unknown id is ignored.
    pub fn handle_player_move(&mut self, id: u128, client_request_id: u32, location: Location)
        requires
            old(self).wf(),
        ensures
            final(self).wf(),
            spec_move_rel(*old(self), *final(self), id, client_request_id, location),
    {
        let k = match self.find_player(id) {
            Some(k) => k,
            None => {
                return ;
            },
        };
        let ghost pre = self.players@;
        let p = &mut self.players[k];
        if client_request_id <= p.client_request_id {
            proof {
                assert(pre.update(k as int, pre[k as int]) =~= pre);
            }
            return ;
        }
        if location == p.location {
            proof {
                assert(pre.update(k as int, pre[k as int]) =~= pre);
            }
            return ;
        }
        let direction = calculate_new_direction(p.location, location);
        p.direction = direction;
        p.client_request_id = client_request_id;
        p.location = location;
        proof {
            lemma_update_keeps_wf(pre, self.players@, k as int);
        }
    }

    /// Moves an object for a client: delegated to the store, which drops
    /// the request if `from` holds nothing.
    pub fn handle_move_object(&mut self, from: Location, to: Location)
        requires
            old(self).wf(),
        ensures
            final(self).wf(),
            spec_move_object_rel(*old(self), *final(self), from, to),
    {
        let _ = self.game_objects.move_object(from, to);
    }

    /// Relays a chat message from player `id`: every player not sharing
    /// the sender's username gets one copy, tagged with the sender's name;
    /// the sender gets none. The state does not change.
    pub fn handle_chat(&mut self, id: u128, msg: Vec<u8>) -> (r: Vec<Action>)
        requires
            old(self).wf(),
        ensures
            *final(self) == *old(self),
            spec_chat_actions(*old(self), id, msg@, r@),
    {
        let k = match self.find_player(id) {
            Some(k) => k,
            None => {
                return Vec::new();
            },
        };
        let sender_name = clone_bytes(&self.players[k].username);
        let ghost players = self.players@;
        let n = self.players.len();
        let mut actions: Vec<Action> = Vec::new();
        let mut i: usize = 0;
        while i < n
            invariant
                n == players.len(),
                self.players@ == players,
                0 <= i <= n,
                sender_name@ == players[player_index(players, id)].username@,
                actions@.len() == spec_chat_peers(players, sender_name@, i as int).len(),
                forall|j: int|
                    0 <= j < actions@.len() ==> (#[trigger] actions@[j] matches Action::SendTcp {
                        peer,
                        msg: m,
                    } && peer == spec_chat_peers(players, sender_name@, i as int)[j]
                        && (m matches TcpServerMsg::ChatMsg { username: u, msg: body } && u@
                        == sender_name@ && body@ == msg@)),
            decreases n - i,
        {
            let p = &self.players[i];
            if !bytes_eq(&p.username, &sender_name) {
                let act = Action::SendTcp {
                    peer: p.tcp_peer,
                    msg: TcpServerMsg::ChatMsg {
                        username: clone_bytes(&sender_name),
                        msg: clone_bytes(&msg),
                    },
                };
                actions.push(act);
            }
            i = i + 1;
        }
        actions
    }

    /// Answers a ping: the pong goes back to the player's datagram peer,
    /// if the server knows one. The state does not change.
    pub fn handle_ping(&mut self, id: u128, ping_id: u32) -> (r: Vec<Action>)
        requires
            old(self).wf(),
        ensures
            *final(self) == *old(self),
            spec_ping_actions(*old(self), id, ping_id, r@),
    {
        let mut r: Vec<Action> = Vec::new();
        if let Some(k) = self.find_player(id) {
            if let Some(u) = self.players[k].udp_peer {
                r.push(Action::SendUdp { peer: u, msg: UdpServerMsg::Pong(ping_id) });
            }
        }
        r
    }

    /// Respawns a dead player: full health, a fresh spawn cell, alive
    /// again; the client hears it on the stream and sees the new health on
    /// the datagram peer. A live or unknown player is left alone.
    pub fn handle_respawn(&mut self, id: u128) -> (r: Vec<Action>)
        requires
            old(self).wf(),
        ensures
            final(self).wf(),
            spec_respawn_rel(*old(self), *final(self), id, r@),
    {
        let mut r: Vec<Action> = Vec::new();
        let k = match self.find_player(id) {
            Some(k) => k,
            None => {
                return r;
            },
        };
        if !self.players[k].is_dead {
            return r;
        }
        let spawn = self.generate_spawn_location();
        let ghost pre = self.players@;
        let p = &mut self.players[k];
        p.hp = p.max_hp;
        p.location = spawn;
        p.is_dead = false;
        let p_tcp = p.tcp_peer;
        let p_udp = p.udp_peer;
        let p_max = p.max_hp;
        r.push(Action::SendTcp { peer: p_tcp, msg: TcpServerMsg::RespawnOk });
        if let Some(u) = p_udp {
            r.push(Action::SendUdp { peer: u, msg: UdpServerMsg::PlayerHealthUpdate { hp: p_max } });
        }
        proof {
            lemma_update_keeps_wf(pre, self.players@, k as int);
        }
        r
    }

    /// Removes player `id` from the registry and unbinds both its peer
    /// handles. Unknown ids change nothing, so a repeated disconnect is
    /// harmless.
    pub fn handle_disconnect(&mut self, id: u128)
        requires
            old(self).wf(),
        ensures
            final(self).wf(),
            spec_disconnect_rel(*old(self), *final(self), id),
    {
        let k = match self.find_player(id) {
            Some(k) => k,
            None => {
                return ;
            },
        };
        let tcp_peer = self.players[k].tcp_peer;
        let udp_peer = self.players[k].udp_peer;
        self.remove_address(tcp_peer);
        if let Some(u) = udp_peer {
            self.remove_address(u);
        }
        let ghost pre = self.players@;
        self.players.remove(k);
        proof {
            lemma_remove_keeps_wf(pre, self.players@, k as int, id);
        }
    }

    /// Feeds one event to the dispatcher: the single place the world
    /// changes, returning the messages to send in reply.
    pub fn handle_event(&mut self, ev: ServerChannel) -> (r: Vec<Action>)
        requires
            old(self).wf(),
        ensures
            final(self).wf(),
            ev.msg matches Sc::PlayerMove { client_request_id, location } ==> (spec_move_rel(
                *old(self),
                *final(self),
                ev.id,
                client_request_id,
                location,
            ) && r@.len() == 0),
            ev.msg matches Sc::MoveObject { from, to } ==> (spec_move_object_rel(
                *old(self),
                *final(self),
                from,
                to,
            ) && r@.len() == 0),
            ev.msg matches Sc::ChatMsg(msg) ==> (*final(self) == *old(self) && spec_chat_actions(
                *old(self),
                ev.id,
                msg@,
                r@,
            )),
            ev.msg matches Sc::Ping(ping_id) ==> (*final(self) == *old(self) && spec_ping_actions(
                *old(self),
                ev.id,
                ping_id,
                r@,
            )),
            ev.msg is Respawn ==> spec_respawn_rel(*old(self), *final(self), ev.id, r@),
            ev.msg is Disconnect ==> (spec_disconnect_rel(*old(self), *final(self), ev.id)
                && r@.len() == 0),
    {
        match ev.msg {
            Sc::PlayerMove { client_request_id, location } => {
                self.handle_player_move(ev.id, client_request_id, location);
                Vec::new()
            },
            Sc::MoveObject { from, to } => {
                self.handle_move_object(from, to);
                Vec::new()
            },
            Sc::ChatMsg(msg) => self.handle_chat(ev.id, msg),
            Sc::Ping(ping_id) => self.handle_ping(ev.id, ping_id),
            Sc::Respawn => self.handle_respawn(ev.id),
            Sc::Disconnect => {
                self.handle_disconnect(ev.id);
                Vec::new()
            },
        }
    }
}

/// The datagram peer a pong for player `id` goes to: none when the player
/// is unknown or its datagram peer has not introduced itself yet.
pub open spec fn spec_ping_reply_peer(s: ServerState, id: u128) -> Option<u64> {
    if has_player(s.players@, id) {
        s.players@[player_index(s.players@, id)].udp_peer
    } else {
        None
    }
}

/// The cell a spawn scan may return: on the ground floor, in bounds, and
/// either the row-major-first free cell or the origin fallback of a full
/// map.
pub open spec fn spec_spawn_ok(
    players: Seq<Player>,
    objects: Seq<(Location, GameObject)>,
    r: Location,
) -> bool {
    &&& r.z == 0
    &&& r.x < MAP_WIDTH && r.y < MAP_HEIGHT
    &&& (spec_spawn_taken(players, objects, r) ==> r == (Location { x: 0, y: 0, z: 0 }))
    &&& (!spec_spawn_taken(players, objects, r) ==> forall|l: Location|
        l.z == 0 && l.x < MAP_WIDTH && l.y < MAP_HEIGHT && spec_row_major_before(l, r)
            ==> spec_spawn_taken(players, objects, l))
}

/// Updating one player in place, without touching its id, keeps ids
/// unique and every player healthy in form.
pub(crate) proof fn lemma_update_keeps_wf(pre: Seq<Player>, post: Seq<Player>, k: int)
    requires
        ids_unique(pre),
        forall|i: int| 0 <= i < pre.len() ==> (#[trigger] pre[i]).hp_wf(),
        forall|i: int| 0 <= i < pre.len() ==> (#[trigger] pre[i]).max_hp > 0,
        0 <= k < pre.len(),
        post == pre.update(k, post[k]),
        post[k].id == pre[k].id,
        post[k].hp_wf(),
        post[k].max_hp > 0,
    ensures
        ids_unique(post),
        forall|i: int| 0 <= i < post.len() ==> (#[trigger] post[i]).hp_wf(),
        forall|i: int| 0 <= i < post.len() ==> (#[trigger] post[i]).max_hp > 0,
{
    assert forall|i: int| 0 <= i < post.len() implies (#[trigger] post[i]).hp_wf() by {
        if i != k {
            assert(post[i] == pre[i]);
        }
    }
    assert forall|i: int| 0 <= i < post.len() implies (#[trigger] post[i]).max_hp > 0 by {
        if i != k {
            assert(post[i] == pre[i]);
        }
    }
    assert forall|i: int, j: int|
        0 <= i < j < post.len() implies (#[trigger] post[i]).id != (#[trigger] post[j]).id by {
        assert(pre[i].id != pre[j].id);
        if i != k {
            assert(post[i] == pre[i]);
        }
        if j != k {
            assert(post[j] == pre[j]);
        }
    }
}

/// Removing the player at `k` (carrying `id`) keeps ids unique, keeps
/// every player healthy in form, and leaves no player with `id`.
proof fn lemma_remove_keeps_wf(pre: Seq<Player>, post: Seq<Player>, k: int, id: u128)
    requires
        ids_unique(pre),
        forall|i: int| 0 <= i < pre.len() ==> (#[trigger] pre[i]).hp_wf(),
        forall|i: int| 0 <= i < pre.len() ==> (#[trigger] pre[i]).max_hp > 0,
        0 <= k < pre.len(),
        pre[k].id == id,
        post == pre.remove(k),
    ensures
        ids_unique(post),
        forall|i: int| 0 <= i < post.len() ==> (#[trigger] post[i]).hp_wf(),
        forall|i: int| 0 <= i < post.len() ==> (#[trigger] post[i]).max_hp > 0,
        !has_player(post, id),
{
    assert forall|i: int| 0 <= i < post.len() implies (#[trigger] post[i]).hp_wf() && (
    #[trigger] post[i]).max_hp > 0 && post[i].id != id by {
        if i < k {
            assert(post[i] == pre[i]);
        } else {
            assert(post[i] == pre[i + 1]);
        }
    }
    assert forall|i: int, j: int|
        0 <= i < j < post.len() implies (#[trigger] post[i]).id != (#[trigger] post[j]).id by {
        if i < k {
            assert(post[i] == pre[i]);
        } else {
            assert(post[i] == pre[i + 1]);
        }
        if j < k {
            assert(post[j] == pre[j]);
        } else {
            assert(post[j] == pre[j + 1]);
        }
    }
}


/// A fresh 128-bit player id.
///
/// Relies on `uuid::Uuid::new_v4` for a random version-4 identifier; its
/// value depends on the random generator, so nothing is promised of it,
/// and the registration itself is done by `register_player`, which is
/// verified for every id.
#[verifier::external_body]
fn fresh_player_id() -> u128 {
    uuid::Uuid::new_v4().as_u128()
}

/// A username must be at least this many bytes long.
pub const MIN_USERNAME_LEN: usize = 4;

impl ServerState {
    /// Registers a new player under the given id: a short or taken
    /// username, or an id already in use, is refused with a reason and
    /// changes nothing; otherwise the player spawns on the first free
    /// cell with full health and both the registry and the peer index
    /// carry it.
    pub fn register_player(&mut self, username: Vec<u8>, tcp_peer: u64, new_id: u128) -> (r:
        Result<crate::messages::InitPlayer, Vec<u8>>)
        requires
            old(self).wf(),
        ensures
            final(self).wf(),
            r is Ok <==> (username@.len() >= MIN_USERNAME_LEN && !spec_username_taken(
                old(self).players@,
                username@,
            ) && !has_player(old(self).players@, new_id)),
            r is Err ==> *final(self) == *old(self),
            r matches Ok(ip) ==> {
                &&& ip.id == new_id
                &&& ip.username@ == username@
                &&& ip.hp == crate::types::PLAYER_MAX_HP
                &&& ip.max_hp == crate::types::PLAYER_MAX_HP
                &&& ip.level == 1
                &&& ip.direction == Direction::South
                &&& spec_spawn_ok(old(self).players@, old(self).game_objects.entries@, ip.location)
                &&& final(self).players@ == old(self).players@.push(
                    Player {
                        id: new_id,
                        username: final(self).players@.last().username,
                        client_request_id: 0,
                        location: ip.location,
                        hp: crate::types::PLAYER_MAX_HP,
                        max_hp: crate::types::PLAYER_MAX_HP,
                        level: 1,
                        direction: Direction::South,
                        is_dead: false,
                        tcp_peer,
                        udp_peer: None,
                    },
                )
                &&& final(self).players@.last().username@ == username@
                &&& has_addr(final(self).address_map@, tcp_peer)
                &&& final(self).address_map@[addr_index(final(self).address_map@, tcp_peer)].1
                    == new_id
                &&& final(self).game_objects == old(self).game_objects
                &&& final(self).mmo_map == old(self).mmo_map
            },
    {
        if username.len() < MIN_USERNAME_LEN {
            return Err(error_text());
        }
        if self.is_username_taken(&username) {
            return Err(error_text());
        }
        if let Some(_) = self.find_player(new_id) {
            return Err(error_text());
        }
        let spawn = self.generate_spawn_location();
        let init = crate::messages::InitPlayer {
            id: new_id,
            username: clone_bytes(&username),
            location: spawn,
            hp: crate::types::PLAYER_MAX_HP,
            max_hp: crate::types::PLAYER_MAX_HP,
            level: 1,
            direction: Direction::South,
        };
        let player = Player::new(new_id, username, tcp_peer, spawn);
        self.add_player(player);
        self.bind_address(tcp_peer, new_id);
        Ok(init)
    }

    /// Handles a fresh connection's sign-up: draws a random id and
    /// registers the player under it.
    pub fn handle_init(&mut self, username: Vec<u8>, tcp_peer: u64) -> (r: Result<
        crate::messages::InitPlayer,
        Vec<u8>,
    >)
        requires
            old(self).wf(),
        ensures
            final(self).wf(),
            r is Err ==> *final(self) == *old(self),
            (username@.len() < MIN_USERNAME_LEN || spec_username_taken(
                old(self).players@,
                username@,
            )) ==> r is Err,
            r matches Ok(ip) ==> ip.username@ == username@ && has_player(
                final(self).players@,
                ip.id,
            ),
    {
        let new_id = fresh_player_id();
        let r = self.register_player(username, tcp_peer, new_id);
        proof {
            if r is Ok {
                assert(final(self).players@.last().id == new_id);
                assert(final(self).players@[final(self).players@.len() - 1].id == new_id);
            }
        }
        r
    }

    /// Learns a player's datagram peer from the first datagram bearing
    /// its id: an unset peer is bound and indexed; a known one stays.
    pub fn bind_udp_peer(&mut self, id: u128, peer: u64)
        requires
            old(self).wf(),
        ensures
            final(self).wf(),
            final(self).game_objects == old(self).game_objects,
            final(self).mmo_map == old(self).mmo_map,
            !has_player(old(self).players@, id) ==> *final(self) == *old(self),
            has_player(old(self).players@, id) ==> {
                let k = player_index(old(self).players@, id);
                &&& (old(self).players@[k].udp_peer is Some ==> final(self).players == old(
                    self,
                ).players && final(self).address_map == old(self).address_map)
                &&& (old(self).players@[k].udp_peer is None ==> final(self).players@ == old(
                    self,
                ).players@.update(
                    k,
                    Player { udp_peer: Some(peer), ..old(self).players@[k] },
                ) && has_addr(final(self).address_map@, peer) && final(self).address_map@[
                    addr_index(final(self).address_map@, peer)
                ].1 == id)
            },
    {
        let k = match self.find_player(id) {
            Some(k) => k,
            None => {
                return ;
            },
        };
        if self.players[k].udp_peer.is_some() {
            return ;
        }
        let ghost pre = self.players@;
        let p = &mut self.players[k];
        p.udp_peer = Some(peer);
        proof {
            lemma_update_keeps_wf(pre, self.players@, k as int);
        }
        self.bind_address(peer, id);
    }

    /// Rebinds a reconnecting player's stream peer: a known id adopts the
    /// new peer handle and succeeds; an unknown id changes nothing.
    pub fn handle_reconnect(&mut self, id: u128, tcp_peer: u64) -> (r: bool)
        requires
            old(self).wf(),
        ensures
            final(self).wf(),
            r == has_player(old(self).players@, id),
            !r ==> *final(self) == *old(self),
            r ==> {
                let k = player_index(old(self).players@, id);
                &&& final(self).players@ == old(self).players@.update(
                    k,
                    Player { tcp_peer, ..old(self).players@[k] },
                )
                &&& has_addr(final(self).address_map@, tcp_peer)
                &&& final(self).address_map@[addr_index(final(self).address_map@, tcp_peer)].1
                    == id
                &&& final(self).game_objects == old(self).game_objects
                &&& final(self).mmo_map == old(self).mmo_map
            },
    {
        let k = match self.find_player(id) {
            Some(k) => k,
            None => {
                return false;
            },
        };
        let ghost pre = self.players@;
        let p = &mut self.players[k];
        p.tcp_peer = tcp_peer;
        proof {
            lemma_update_keeps_wf(pre, self.players@, k as int);
        }
        self.bind_address(tcp_peer, id);
        true
    }
}

/// The reason text a refused sign-up gets.
fn error_text() -> (r: Vec<u8>)
    ensures
        r@ == spec_error_text(),
{
    "username rejected".as_bytes_vec()
}

/// The bytes of the refusal notice.
pub open spec fn spec_error_text() -> Seq<u8> {
    "username rejected".spec_bytes()
}

/// The player a chain of move requests leaves behind, oldest first.
pub open spec fn spec_apply_moves(p: Player, evs: Seq<(u32, Location)>) -> Player
    decreases evs.len(),
{
    if evs.len() == 0 {
        p
    } else {
        spec_apply_move(
            spec_apply_moves(p, evs.drop_last()),
            evs.last().0,
            evs.last().1,
        )
    }
}

/// A move request not above the accepted counter, or going nowhere, is a
/// no-op on the player.
pub proof fn lemma_stale_move_noop(p: Player, req: u32, loc: Location)
    requires
        req <= p.client_request_id || loc == p.location,
    ensures
        spec_apply_move(p, req, loc) == p,
{
}

/// The accepted request counter never goes down, whatever chain of move
/// requests arrives.
pub proof fn lemma_request_id_monotonic(p: Player, evs: Seq<(u32, Location)>)
    ensures
        spec_apply_moves(p, evs).client_request_id >= p.client_request_id,
    decreases evs.len(),
{
    if evs.len() > 0 {
        lemma_request_id_monotonic(p, evs.drop_last());
    }
}

/// Under strictly rising request ids, the stored location is the last
/// delivered one, and the counter stays bounded by the last id.
pub proof fn lemma_moves_track_last(p: Player, evs: Seq<(u32, Location)>)
    requires
        evs.len() > 0,
        forall|i: int|
            0 <= i < evs.len() ==> (#[trigger] evs[i]).0 > (if i == 0 {
                p.client_request_id as int
            } else {
                evs[i - 1].0 as int
            }),
    ensures
        spec_apply_moves(p, evs).location == evs.last().1,
        spec_apply_moves(p, evs).client_request_id <= evs.last().0,
        spec_apply_moves(p, evs).client_request_id >= p.client_request_id,
    decreases evs.len(),
{
    lemma_request_id_monotonic(p, evs);
    if evs.len() == 1 {
        assert(evs[0].0 > p.client_request_id);
    } else {
        let rest = evs.drop_last();
        assert forall|i: int|
            0 <= i < rest.len() implies (#[trigger] rest[i]).0 > (if i == 0 {
            p.client_request_id as int
        } else {
            rest[i - 1].0 as int
        }) by {
            assert(evs[i] == rest[i]);
            if i > 0 {
                assert(evs[i - 1] == rest[i - 1]);
            }
        }
        lemma_moves_track_last(p, rest);
        let mid = spec_apply_moves(p, rest);
        assert(evs[evs.len() - 2] == rest.last());
        assert(evs.last().0 > rest.last().0);
        assert(mid.client_request_id <= rest.last().0);
        if evs.last().1 == mid.location {
            assert(spec_apply_moves(p, evs) == mid);
        }
    }
}

/// Dropping a player twice leaves exactly the state the first drop left.
pub proof fn lemma_disconnect_idempotent(
    pre: ServerState,
    mid: ServerState,
    post: ServerState,
    id: u128,
)
    requires
        spec_disconnect_rel(pre, mid, id),
        spec_disconnect_rel(mid, post, id),
    ensures
        post == mid,
{
}

} // verus!
