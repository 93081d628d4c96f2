//! The two wire message families: reliable stream messages and datagram
//! messages, in both directions. Text travels as bytes.

use vstd::prelude::*;

use crate::objects::GameObjects;
use crate::types::{Direction, Location};

verus! {

/// The state a freshly accepted player starts from, as told to the client.
#[derive(Debug, Clone, PartialEq, Eq)]
pub struct InitPlayer {
    pub id: u128,
    pub username: Vec<u8>,
    pub location: Location,
    pub hp: u32,
    pub max_hp: u32,
    pub level: u32,
    pub direction: Direction,
}

/// Client-to-server messages on the reliable stream.
#[derive(Debug, Clone, PartialEq, Eq)]
pub enum TcpClientMsg {
    Init(Vec<u8>),
    Reconnect(u128),
    ChatMsg(Vec<u8>),
    Respawn(u128),
    Disconnect,
}

/// Server-to-client messages on the reliable stream.
#[derive(Debug, Clone, PartialEq, Eq)]
pub enum TcpServerMsg {
    InitOk(InitPlayer),
    InitErr(Vec<u8>),
    ReconnectOk,
    ChatMsg { username: Vec<u8>, msg: Vec<u8> },
    RespawnOk,
}

/// Client-to-server datagrams.
#[derive(Debug, Clone, PartialEq, Eq)]
pub enum UdpClientMsg {
    PlayerMove { id: u128, client_request_id: u32, location: Location },
    Ping { id: u128, client_request_id: u32 },
    MoveObject { id: u128, from: Location, to: Location },
}

impl UdpClientMsg {
    /// The player id every client datagram carries.
    pub fn get_player_id(&self) -> (r: u128)
        ensures
            r == self.spec_player_id(),
    {
        match self {
            UdpClientMsg::PlayerMove { id, .. } => *id,
            UdpClientMsg::Ping { id, .. } => *id,
            UdpClientMsg::MoveObject { id, .. } => *id,
        }
    }

    /// What `get_player_id` returns.
    pub open spec fn spec_player_id(self) -> u128 {
        match self {
            UdpClientMsg::PlayerMove { id, .. } => id,
            UdpClientMsg::Ping { id, .. } => id,
            UdpClientMsg::MoveObject { id, .. } => id,
        }
    }
}

/// Server-to-client datagrams.
#[derive(Debug, Clone, PartialEq, Eq)]
pub enum UdpServerMsg {
    PlayerMove { location: Location, client_request_id: u32 },
    OtherPlayer { username: Vec<u8>, location: Location, direction: Direction },
    Objects(GameObjects),
    Pong(u32),
    PlayerHealthUpdate { hp: u32 },
    PlayerDeath { message: Vec<u8> },
    DamageNumber { damage: u32 },
}

/// Whether two byte strings hold the same bytes.
pub fn bytes_eq(a: &Vec<u8>, b: &Vec<u8>) -> (r: bool)
    ensures
        r == (a@ == b@),
{
    if a.len() != b.len() {
        return false;
    }
    let n = a.len();
    let mut i: usize = 0;
    while i < n
        invariant
            n == a@.len(),
            n == b@.len(),
            0 <= i <= n,
            forall|k: int| 0 <= k < i ==> a@[k] == b@[k],
        decreases n - i,
    {
        if a[i] != b[i] {
            return false;
        }
        i = i + 1;
    }
    proof {
        assert(a@ =~= b@);
    }
    true
}

} // verus!
