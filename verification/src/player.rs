//! The server-side player record: identity, position, health, and the
//! damage/death transitions.

use vstd::prelude::*;
use vstd::string::{StrSliceExecFns, StringSliceAdditionalSpecFns};

use crate::types::{Direction, Location, PLAYER_MAX_HP};

verus! {

/// What one application of damage did to a player.
#[derive(Debug, Clone, PartialEq, Eq)]
pub enum DamageResult {
    Damaged { damage: u32, hp: u32 },
    Died { damage: u32, death_message: Vec<u8> },
    AlreadyDead,
}

/// The text sent to a player slain by a monster.
pub fn death_message() -> (r: Vec<u8>)
    ensures
        r@ == spec_death_message(),
{
    "You have been slain!".as_bytes_vec()
}

/// The bytes of the death notice.
pub open spec fn spec_death_message() -> Seq<u8> {
    "You have been slain!".spec_bytes()
}

/// A connected player as the server's session registry holds it. Peers are
/// opaque handles the transport layer assigns to socket addresses.
#[derive(Debug, Clone, PartialEq, Eq)]
pub struct Player {
    pub id: u128,
    pub username: Vec<u8>,
    pub client_request_id: u32,
    pub location: Location,
    pub hp: u32,
    pub max_hp: u32,
    pub level: u32,
    pub direction: Direction,
    pub is_dead: bool,
    pub tcp_peer: u64,
    pub udp_peer: Option<u64>,
}

impl Player {
    /// Health is never above the maximum, and a player is dead exactly
    /// when health has reached zero.
    pub open spec fn hp_wf(self) -> bool {
        &&& self.hp <= self.max_hp
        &&& (self.hp == 0 <==> self.is_dead)
    }

    /// A fresh player: full health, level one, facing south, standing at
    /// `location`, with no move accepted yet and no datagram peer known.
    pub fn new(id: u128, username: Vec<u8>, tcp_peer: u64, location: Location) -> (r: Player)
        ensures
            r == (Player {
                id,
                username,
                client_request_id: 0,
                location,
                hp: PLAYER_MAX_HP,
                max_hp: PLAYER_MAX_HP,
                level: 1,
                direction: Direction::South,
                is_dead: false,
                tcp_peer,
                udp_peer: None,
            }),
            r.hp_wf(),
    {
        Player {
            id,
            username,
            client_request_id: 0,
            location,
            hp: PLAYER_MAX_HP,
            max_hp: PLAYER_MAX_HP,
            level: 1,
            direction: Direction::South,
            is_dead: false,
            tcp_peer,
            udp_peer: None,
        }
    }

    /// Health after subtracting `damage` from `hp`, floored at zero.
    pub open spec fn spec_hp_after(hp: u32, damage: u32) -> u32 {
        if damage >= hp {
            0u32
        } else {
            (hp - damage) as u32
        }
    }

    /// Applies `damage`: a dead player is left alone; otherwise health
    /// drops by `damage`, saturating at zero, and reaching zero kills the
    /// player and reports the death notice.
    pub fn take_damage(&mut self, damage: u32) -> (r: DamageResult)
        requires
            old(self).hp_wf(),
        ensures
            final(self).hp_wf(),
            old(self).is_dead ==> r == DamageResult::AlreadyDead && *final(self) == *old(self),
            !old(self).is_dead ==> {
                &&& final(self).hp == Player::spec_hp_after(old(self).hp, damage)
                &&& final(self).is_dead == (final(self).hp == 0)
                &&& *final(self) == (Player {
                    hp: final(self).hp,
                    is_dead: final(self).is_dead,
                    ..*old(self)
                })
                &&& if final(self).hp == 0 {
                    r matches DamageResult::Died { damage: d, death_message }
                        && d == damage && death_message@ == spec_death_message()
                } else {
                    r == (DamageResult::Damaged { damage, hp: final(self).hp })
                }
            },
    {
        if self.is_dead {
            return DamageResult::AlreadyDead;
        }
        if damage >= self.hp {
            self.hp = 0;
        } else {
            self.hp = self.hp - damage;
        }
        if self.hp == 0 {
            self.is_dead = true;
            DamageResult::Died { damage, death_message: death_message() }
        } else {
            DamageResult::Damaged { damage, hp: self.hp }
        }
    }
}

} // verus!
