//! The fixed-rate tick: monster perception, attack and pursuit against each
//! player, the damage they deal, and the per-player world broadcast.

use vstd::prelude::*;

use crate::messages::UdpServerMsg;
use crate::mmo_map::{MapElement, MmoMap, Monster};
use crate::objects::{GameObject, GameObjects, FLOWER_POT_TILE_ID};
use crate::player::{DamageResult, Player};
use crate::server::{clone_bytes, Action, ServerState};
use crate::types::{
    is_adjacent, is_within_view, loc_in_bounds, spec_adjacent, spec_within_view, Direction,
    Location, MONSTER_ATTACK_COOLDOWN_MS, MONSTER_DAMAGE, MONSTER_MOVE_COOLDOWN_MS,
};

verus! {

/// The monster entries among the first `i` of the store, in store order.
pub open spec fn spec_monsters(s: Seq<(Location, GameObject)>, i: int) -> Seq<
    (Location, GameObject),
>
    decreases i,
{
    if i <= 0 {
        Seq::empty()
    } else {
        spec_monsters(s, i - 1) + if s[i - 1].1 is Orc {
            seq![s[i - 1]]
        } else {
            Seq::empty()
        }
    }
}

/// The monsters standing in the store, each with its cell, in store order.
pub fn get_active_monsters(game_objects: &GameObjects) -> (r: Vec<(Location, GameObject)>)
    ensures
        r@ == spec_monsters(game_objects.entries@, game_objects.entries@.len() as int),
{
    let n = game_objects.entries.len();
    let mut r: Vec<(Location, GameObject)> = Vec::new();
    let mut i: usize = 0;
    while i < n
        invariant
            n == game_objects.entries@.len(),
            0 <= i <= n,
            r@ == spec_monsters(game_objects.entries@, i as int),
        decreases n - i,
    {
        let (l, o) = game_objects.entries[i];
        if o.is_monster() {
            r.push((l, o));
        }
        proof {
            assert(r@ == spec_monsters(game_objects.entries@, i + 1));
        }
        i = i + 1;
    }
    r
}

/// What one blow leaves behind: the health report to send the player, and,
/// on a kill, the tombstone placed where the player fell.
pub open spec fn spec_damage_rel(
    pre_p: Player,
    post_p: Player,
    pre_o: GameObjects,
    post_o: GameObjects,
    msgs: Seq<UdpServerMsg>,
    damage: u32,
) -> bool {
    &&& post_p.hp_wf()
    &&& (pre_p.is_dead ==> post_p == pre_p && post_o == pre_o && msgs.len() == 0)
    &&& (!pre_p.is_dead ==> {
        &&& post_p.hp == Player::spec_hp_after(pre_p.hp, damage)
        &&& post_p == (Player { hp: post_p.hp, is_dead: post_p.hp == 0, ..pre_p })
        &&& (post_p.hp > 0 ==> post_o == pre_o && msgs =~= seq![
            (UdpServerMsg::PlayerHealthUpdate { hp: post_p.hp }),
        ])
        &&& (post_p.hp == 0 ==> {
            &&& post_o@ =~= pre_o@.insert(
                pre_p.location,
                GameObject::FlowerPot { id: FLOWER_POT_TILE_ID, tileset_location: 0 },
            )
            &&& msgs.len() == 1
            &&& msgs[0] matches UdpServerMsg::PlayerDeath { message } && message@
                == crate::player::spec_death_message()
        })
    })
}

/// Applies `damage` to the player: an untouched corpse stays quiet, a hit
/// reports the new health, and a kill plants a flower pot on the spot and
/// reports the death.
pub fn handle_player_damage(player: &mut Player, damage: u32, game_objects: &mut GameObjects) -> (
    msgs: Vec<UdpServerMsg>)
    requires
        old(player).hp_wf(),
        old(game_objects).wf(),
    ensures
        final(game_objects).wf(),
        spec_damage_rel(
            *old(player),
            *final(player),
            *old(game_objects),
            *final(game_objects),
            msgs@,
            damage,
        ),
    {
    let mut msgs: Vec<UdpServerMsg> = Vec::new();
    match player.take_damage(damage) {
        DamageResult::AlreadyDead => {},
        DamageResult::Damaged { hp, .. } => {
            msgs.push(UdpServerMsg::PlayerHealthUpdate { hp });
        },
        DamageResult::Died { death_message, .. } => {
            game_objects.insert(
                player.location,
                GameObject::FlowerPot { id: FLOWER_POT_TILE_ID, tileset_location: 0 },
            );
            msgs.push(UdpServerMsg::PlayerDeath { message: death_message });
        },
    }
    msgs
}

/// How an attack attempt leaves the world: a cell without a monster, or a
/// monster still cooling down, changes nothing; otherwise the monster's
/// attack clock restarts and the player takes one blow.
pub open spec fn spec_attack_rel(
    monster_location: Location,
    pre_m: MmoMap,
    post_m: MmoMap,
    pre_p: Player,
    post_p: Player,
    pre_o: GameObjects,
    post_o: GameObjects,
    msgs: Seq<UdpServerMsg>,
    now_ms: u64,
) -> bool {
    &&& (!(pre_m.spec_at(monster_location) is Monster) ==> post_m == pre_m && post_p == pre_p
        && post_o == pre_o && msgs.len() == 0)
    &&& (pre_m.spec_at(monster_location) matches MapElement::Monster(mon) ==> {
        let ready = now_ms >= mon.last_attack && now_ms - mon.last_attack
            >= MONSTER_ATTACK_COOLDOWN_MS;
        &&& (!ready ==> post_m == pre_m && post_p == pre_p && post_o == pre_o && msgs.len() == 0)
        &&& (ready ==> {
            &&& post_m.spec_at(monster_location) == MapElement::Monster(
                Monster { last_attack: now_ms, ..mon },
            )
            &&& forall|l: Location|
                loc_in_bounds(l) && l != monster_location ==> post_m.spec_at(l) == pre_m.spec_at(
                    l,
                )
            &&& spec_damage_rel(pre_p, post_p, pre_o, post_o, msgs, MONSTER_DAMAGE)
        })
    })
}

/// A monster strikes the player, if one stands at `monster_location` and
/// its attack cooldown has elapsed: the blow costs `MONSTER_DAMAGE` health,
/// restarts the monster's attack clock, and yields the reports for the
/// player's datagram peer.
pub fn process_monster_attack(
    monster_location: Location,
    player: &mut Player,
    game_objects: &mut GameObjects,
    mmo_map: &mut MmoMap,
    now_ms: u64,
) -> (msgs: Vec<UdpServerMsg>)
    requires
        old(player).hp_wf(),
        old(game_objects).wf(),
        old(mmo_map).wf(),
        loc_in_bounds(monster_location),
    ensures
        final(player).hp_wf(),
        final(game_objects).wf(),
        final(mmo_map).wf(),
        spec_attack_rel(
            monster_location,
            *old(mmo_map),
            *final(mmo_map),
            *old(player),
            *final(player),
            *old(game_objects),
            *final(game_objects),
            msgs@,
            now_ms,
        ),
        msgs@.len() > 0 <==> (old(mmo_map).spec_at(monster_location) matches
            MapElement::Monster(mon) && now_ms >= mon.last_attack && now_ms - mon.last_attack
            >= MONSTER_ATTACK_COOLDOWN_MS && !old(player).is_dead),
{
    let element = mmo_map.get(monster_location);
    let monster = match element {
        MapElement::Monster(m) => m,
        _ => {
            return Vec::new();
        },
    };
    if !(now_ms >= monster.last_attack && now_ms - monster.last_attack
        >= MONSTER_ATTACK_COOLDOWN_MS) {
        return Vec::new();
    }
    mmo_map.set(
        monster_location,
        MapElement::Monster(Monster { last_attack: now_ms, ..monster }),
    );
    handle_player_damage(player, MONSTER_DAMAGE, game_objects)
}


/// Whether a location lies on the grid.
pub fn loc_in_bounds_exec(l: Location) -> (r: bool)
    ensures
        r == loc_in_bounds(l),
{
    l.x < crate::types::MAP_WIDTH && l.y < crate::types::MAP_HEIGHT && l.z
        < crate::types::Z_LEVELS
}

/// A path worth walking exists: some route of empty cells reaches the
/// player, and even the shortest one is longer than two cells, so the
/// monster is neither cut off nor already next to its target.
pub open spec fn spec_pursuit_gate(m: MmoMap, ml: Location, pl: Location) -> bool {
    &&& exists|p: Seq<Location>| crate::path::is_map_path(m, p, ml, pl)
    &&& forall|p: Seq<Location>| crate::path::is_map_path(m, p, ml, pl) ==> p.len() > 2
}

/// A pursuit step was taken: the object left `ml` for an adjacent cell that
/// the map showed empty, the store reoriented it, and the map carries the
/// monster there with a fresh move stamp.
pub open spec fn spec_pursuit_moved(
    pre_m: MmoMap,
    post_m: MmoMap,
    pre_o: GameObjects,
    post_o: GameObjects,
    ml: Location,
    now_ms: u64,
) -> bool {
    exists|next: Location|
        {
            &&& #[trigger] crate::path::adj4(ml, next)
            &&& loc_in_bounds(next)
            &&& pre_m.spec_at(next) is Empty
            &&& pre_o@.dom().contains(ml)
            &&& post_o@ =~= pre_o@.remove(ml).insert(
                next,
                pre_o@[ml].spec_with_direction(crate::types::spec_new_direction(ml, next)),
            )
            &&& (pre_m.spec_at(ml) matches MapElement::Monster(mon) && post_m.spec_at(next)
                == MapElement::Monster(Monster { last_movement: now_ms, ..mon }))
            &&& post_m.spec_at(ml) is Empty
            &&& forall|l: Location|
                loc_in_bounds(l) && l != ml && l != next ==> post_m.spec_at(l) == pre_m.spec_at(l)
        }
}

/// How a pursuit attempt leaves the world: without a path worth walking,
/// without a monster on the cell, or during the move cooldown nothing
/// changes; a store that has lost the object fails with nothing changed;
/// otherwise the monster walks one step.
pub open spec fn spec_pursuit_rel(
    pre_m: MmoMap,
    post_m: MmoMap,
    pre_o: GameObjects,
    post_o: GameObjects,
    ml: Location,
    pl: Location,
    now_ms: u64,
    ok: bool,
) -> bool {
    &&& (!spec_pursuit_gate(pre_m, ml, pl) ==> ok && post_o == pre_o && post_m == pre_m)
    &&& (spec_pursuit_gate(pre_m, ml, pl) ==> {
        let ready = pre_m.spec_at(ml) matches MapElement::Monster(mon) && now_ms
            >= mon.last_movement && now_ms - mon.last_movement >= MONSTER_MOVE_COOLDOWN_MS;
        &&& (!ready ==> ok && post_o == pre_o && post_m == pre_m)
        &&& (ready && !pre_o@.dom().contains(ml) ==> !ok && post_o == pre_o && post_m == pre_m)
        &&& (ready && pre_o@.dom().contains(ml) ==> ok && spec_pursuit_moved(
            pre_m,
            post_m,
            pre_o,
            post_o,
            ml,
            now_ms,
        ))
    })
}

/// The monster at `ml` walks one step of a shortest path towards the
/// player, when it may: a missing or two-cell path, a cell without a
/// monster, or a move cooldown still running leave the world alone; a
/// store that has lost the object is reported as an error.
pub fn process_monster_movement(
    monster_location: Location,
    player_location: Location,
    game_objects: &mut GameObjects,
    mmo_map: &mut MmoMap,
    now_ms: u64,
) -> (r: Result<(), ()>)
    requires
        old(game_objects).wf(),
        old(mmo_map).wf(),
        loc_in_bounds(monster_location),
        loc_in_bounds(player_location),
        monster_location.z == player_location.z,
    ensures
        final(game_objects).wf(),
        final(mmo_map).wf(),
        spec_pursuit_rel(
            *old(mmo_map),
            *final(mmo_map),
            *old(game_objects),
            *final(game_objects),
            monster_location,
            player_location,
            now_ms,
            r is Ok,
        ),
{
    let path = mmo_map.shortest_path(monster_location, player_location);
    proof {
        if path@.len() > 2 {
            assert(crate::path::is_map_path(*mmo_map, path@, monster_location, player_location));
            assert(spec_pursuit_gate(*mmo_map, monster_location, player_location)) by {
                assert forall|p: Seq<Location>|
                    crate::path::is_map_path(
                        *mmo_map,
                        p,
                        monster_location,
                        player_location,
                    ) implies p.len() > 2 by {
                    assert(p.len() >= path@.len());
                }
            }
        } else {
            assert(!spec_pursuit_gate(*mmo_map, monster_location, player_location)) by {
                if path@.len() == 0 {
                    assert(forall|p: Seq<Location>|
                        !crate::path::is_map_path(*mmo_map, p, monster_location, player_location));
                } else {
                    assert(crate::path::is_map_path(
                        *mmo_map,
                        path@,
                        monster_location,
                        player_location,
                    ));
                }
            }
        }
    }
    if path.len() <= 2 {
        return Ok(());
    }
    let next = path[1];
    let element = mmo_map.get(monster_location);
    let monster = match element {
        MapElement::Monster(m) => m,
        _ => {
            return Ok(());
        },
    };
    if !(now_ms >= monster.last_movement && now_ms - monster.last_movement
        >= MONSTER_MOVE_COOLDOWN_MS) {
        return Ok(());
    }
    proof {
        assert(crate::path::is_map_path(*mmo_map, path@, monster_location, player_location));
        assert(crate::path::adj4(path@[0], path@[0int + 1]));
        assert(crate::path::cell2_ok(path@[1], monster_location.z));
        assert(mmo_map.spec_at(path@[1]) is Empty);
    }
    if game_objects.move_object(monster_location, next).is_none() {
        return Err(());
    }
    mmo_map.move_monster(monster_location, next, now_ms);
    proof {
        assert(next != monster_location);
        assert(spec_pursuit_moved(
            *old(mmo_map),
            *mmo_map,
            *old(game_objects),
            *game_objects,
            monster_location,
            now_ms,
        ));
    }
    Ok(())
}

/// A monster at `l` engages this player: both stand on the grid, share a
/// floor, and the player lies inside the monster's perception box.
pub open spec fn spec_engages(p: Player, l: Location) -> bool {
    &&& loc_in_bounds(l)
    &&& loc_in_bounds(p.location)
    &&& l.z == p.location.z
    &&& spec_within_view(l, p.location)
}

/// The monsters of the store, in store order.
pub open spec fn spec_active_monsters(go: GameObjects) -> Seq<(Location, GameObject)> {
    spec_monsters(go.entries@, go.entries@.len() as int)
}

/// Exactly the monster at position `j` of the monster list engages the
/// player; every other one is out of its perception box.
pub open spec fn spec_sole_engager(go: GameObjects, p: Player, j: int) -> bool {
    let ms = spec_active_monsters(go);
    &&& 0 <= j < ms.len()
    &&& spec_engages(p, ms[j].0)
    &&& forall|j2: int|
        0 <= j2 < ms.len() && j2 != j ==> !spec_engages(p, (#[trigger] ms[j2]).0)
}

/// Runs every monster against one player for this tick: a monster that
/// sees the player on its own floor strikes when adjacent and otherwise
/// walks one step closer, cooldowns permitting. Only the player's health
/// and death flag can change; a dead player is left entirely alone, and so
/// is the whole world when no monster sees the player. When exactly one
/// monster does, the tick is exactly that monster's attack or pursuit.
pub fn process_monster_ai(
    player: &mut Player,
    game_objects: &mut GameObjects,
    mmo_map: &mut MmoMap,
    now_ms: u64,
) -> (r: Result<Vec<UdpServerMsg>, ()>)
    requires
        old(player).hp_wf(),
        old(game_objects).wf(),
        old(mmo_map).wf(),
    ensures
        final(player).hp_wf(),
        final(game_objects).wf(),
        final(mmo_map).wf(),
        *final(player) == (Player {
            hp: final(player).hp,
            is_dead: final(player).is_dead,
            ..*old(player)
        }),
        final(player).hp <= old(player).hp,
        old(player).is_dead ==> *final(player) == *old(player) && *final(game_objects) == *old(
            game_objects,
        ) && *final(mmo_map) == *old(mmo_map) && (r matches Ok(msgs) && msgs@.len() == 0),
        (forall|j: int|
            0 <= j < spec_active_monsters(*old(game_objects)).len() ==> !spec_engages(
                *old(player),
                (#[trigger] spec_active_monsters(*old(game_objects))[j]).0,
            )) ==> *final(player) == *old(player) && *final(game_objects) == *old(game_objects)
            && *final(mmo_map) == *old(mmo_map) && (r matches Ok(msgs) && msgs@.len() == 0),
        forall|j: int|
            !old(player).is_dead && #[trigger] spec_sole_engager(
                *old(game_objects),
                *old(player),
                j,
            ) ==> {
                let ml = spec_active_monsters(*old(game_objects))[j].0;
                &&& (spec_adjacent(ml, old(player).location) ==> (r matches Ok(msgs)
                    && spec_attack_rel(
                    ml,
                    *old(mmo_map),
                    *final(mmo_map),
                    *old(player),
                    *final(player),
                    *old(game_objects),
                    *final(game_objects),
                    msgs@,
                    now_ms,
                )))
                &&& (!spec_adjacent(ml, old(player).location) ==> *final(player) == *old(player)
                    && spec_pursuit_rel(
                    *old(mmo_map),
                    *final(mmo_map),
                    *old(game_objects),
                    *final(game_objects),
                    ml,
                    old(player).location,
                    now_ms,
                    r is Ok,
                ) && (r matches Ok(msgs) ==> msgs@.len() == 0))
            },
{
    let mut msgs: Vec<UdpServerMsg> = Vec::new();
    if player.is_dead {
        return Ok(msgs);
    }
    let monsters = get_active_monsters(game_objects);
    let n = monsters.len();
    let mut i: usize = 0;
    while i < n
        invariant
            0 <= i <= n,
            n == monsters@.len(),
            monsters@ == spec_active_monsters(*old(game_objects)),
            !old(player).is_dead,
            player.hp_wf(),
            game_objects.wf(),
            mmo_map.wf(),
            *player == (Player { hp: player.hp, is_dead: player.is_dead, ..*old(player) }),
            player.hp <= old(player).hp,
            (forall|j: int|
                0 <= j < monsters@.len() ==> !spec_engages(
                    *old(player),
                    (#[trigger] monsters@[j]).0,
                )) ==> *player == *old(player) && *game_objects == *old(game_objects) && *mmo_map
                == *old(mmo_map) && msgs@.len() == 0,
            forall|j: int|
                #[trigger] spec_sole_engager(*old(game_objects), *old(player), j) ==> {
                    let ml = monsters@[j].0;
                    &&& (i <= j ==> *player == *old(player) && *game_objects == *old(game_objects)
                        && *mmo_map == *old(mmo_map) && msgs@.len() == 0)
                    &&& (i > j && spec_adjacent(ml, old(player).location) ==> spec_attack_rel(
                        ml,
                        *old(mmo_map),
                        *mmo_map,
                        *old(player),
                        *player,
                        *old(game_objects),
                        *game_objects,
                        msgs@,
                        now_ms,
                    ))
                    &&& (i > j && !spec_adjacent(ml, old(player).location) ==> *player == *old(
                        player,
                    ) && spec_pursuit_rel(
                        *old(mmo_map),
                        *mmo_map,
                        *old(game_objects),
                        *game_objects,
                        ml,
                        old(player).location,
                        now_ms,
                        true,
                    ) && msgs@.len() == 0)
                },
        decreases n - i,
    {
        let ghost pre_p = *player;
        let ghost pre_o = *game_objects;
        let ghost pre_m = *mmo_map;
        let ghost pre_msgs = msgs@;
        let (monster_location, _) = monsters[i];
        let engaged = loc_in_bounds_exec(monster_location) && loc_in_bounds_exec(player.location)
            && monster_location.z == player.location.z && is_within_view(
            monster_location,
            player.location,
        );
        proof {
            assert(engaged == spec_engages(pre_p, monster_location));
            assert(spec_engages(pre_p, monster_location) == spec_engages(
                *old(player),
                monster_location,
            ));
        }
        if engaged {
            if is_adjacent(monster_location, player.location) {
                let mut reports = process_monster_attack(
                    monster_location,
                    player,
                    game_objects,
                    mmo_map,
                    now_ms,
                );
                let ghost reports0 = reports@;
                msgs.append(&mut reports);
                proof {
                    lemma_ai_iteration_gates(
                        monsters@,
                        i as int,
                        *old(game_objects),
                        *old(player),
                        pre_p,
                        pre_o,
                        pre_m,
                        *game_objects,
                        pre_msgs,
                    );
                    assert forall|j: int|
                        #[trigger] spec_sole_engager(*old(game_objects), *old(player), j) && i
                            as int == j implies msgs@ =~= reports0 && pre_msgs.len() == 0 by {}
                }
            } else {
                let moved = process_monster_movement(
                    monster_location,
                    player.location,
                    game_objects,
                    mmo_map,
                    now_ms,
                );
                if moved.is_err() {
                    proof {
                        lemma_ai_iteration_gates(
                            monsters@,
                            i as int,
                            *old(game_objects),
                            *old(player),
                            pre_p,
                            pre_o,
                            pre_m,
                            *game_objects,
                            pre_msgs,
                        );
                    }
                    return Err(());
                }
                proof {
                    lemma_ai_iteration_gates(
                        monsters@,
                        i as int,
                        *old(game_objects),
                        *old(player),
                        pre_p,
                        pre_o,
                        pre_m,
                        *game_objects,
                        pre_msgs,
                    );
                }
            }
        }
        i = i + 1;
    }
    Ok(msgs)
}

/// Inside one loop round of the tick against an engaging monster: the
/// engagement contradicts both the nobody-engages hypothesis and any sole
/// engager elsewhere in the list, once the state before the round is the
/// starting one.
proof fn lemma_ai_iteration_gates(
    ms: Seq<(Location, GameObject)>,
    i: int,
    go0: GameObjects,
    p0: Player,
    pre_p: Player,
    pre_o: GameObjects,
    pre_m: MmoMap,
    cur_o: GameObjects,
    pre_msgs: Seq<UdpServerMsg>,
)
    requires
        ms == spec_active_monsters(go0),
        0 <= i < ms.len(),
        pre_p.location == p0.location,
        spec_engages(pre_p, ms[i].0),
    ensures
        !(forall|j: int|
            0 <= j < ms.len() ==> !spec_engages(p0, (#[trigger] ms[j]).0)),
        forall|j: int|
            #[trigger] spec_sole_engager(go0, p0, j) && j != i ==> false,
{
    assert(spec_engages(p0, ms[i].0));
    assert forall|j: int|
        #[trigger] spec_sole_engager(go0, p0, j) && j != i implies false by {
        assert(!spec_engages(p0, ms[i].0));
    }
}

/// A copy of the object store, entry for entry.
pub fn clone_objects(game_objects: &GameObjects) -> (r: GameObjects)
    ensures
        r.entries@ == game_objects.entries@,
{
    let n = game_objects.entries.len();
    let mut entries: Vec<(Location, GameObject)> = Vec::new();
    let mut i: usize = 0;
    while i < n
        invariant
            n == game_objects.entries@.len(),
            0 <= i <= n,
            entries@ == game_objects.entries@.take(i as int),
        decreases n - i,
    {
        entries.push(game_objects.entries[i]);
        proof {
            assert(entries@ =~= game_objects.entries@.take(i + 1));
        }
        i = i + 1;
    }
    proof {
        assert(entries@ =~= game_objects.entries@);
    }
    GameObjects { entries }
}

/// The name, cell and facing of each live player other than `self_id`
/// among the first `i` registered, in registry order: one `OtherPlayer`
/// report goes out for each.
pub open spec fn spec_other_infos(players: Seq<Player>, self_id: u128, i: int) -> Seq<
    (Seq<u8>, Location, Direction),
>
    decreases i,
{
    if i <= 0 {
        Seq::empty()
    } else {
        spec_other_infos(players, self_id, i - 1) + if players[i - 1].id != self_id && !players[i
            - 1].is_dead {
            seq![(players[i - 1].username@, players[i - 1].location, players[i - 1].direction)]
        } else {
            Seq::empty()
        }
    }
}

/// The per-tick broadcast for one player: nothing without a datagram peer;
/// otherwise the authoritative own position while alive, one report per
/// other live player, and the full object snapshot, in that order.
pub fn send_player_updates(
    player: &Player,
    all_players: &Vec<Player>,
    game_objects: &GameObjects,
) -> (r: Vec<Action>)
    ensures
        player.udp_peer is None ==> r@.len() == 0,
        player.udp_peer matches Some(peer) ==> {
            let infos = spec_other_infos(all_players@, player.id, all_players@.len() as int);
            let base: int = if !player.is_dead {
                1
            } else {
                0
            };
            &&& r@.len() == base + infos.len() + 1
            &&& (!player.is_dead ==> r@[0] == (Action::SendUdp {
                peer,
                msg: UdpServerMsg::PlayerMove {
                    location: player.location,
                    client_request_id: player.client_request_id,
                },
            }))
            &&& forall|j: int|
                0 <= j < infos.len() ==> (#[trigger] r@[base + j] matches Action::SendUdp {
                    peer: p2,
                    msg: m,
                } && p2 == peer && (m matches UdpServerMsg::OtherPlayer {
                    username,
                    location,
                    direction,
                } && username@ == infos[j].0 && location == infos[j].1 && direction
                    == infos[j].2))
            &&& (r@[base + infos.len()] matches Action::SendUdp { peer: p3, msg: m } && p3 == peer
                && (m matches UdpServerMsg::Objects(go) && go.entries@ == game_objects.entries@))
        },
{
    let mut r: Vec<Action> = Vec::new();
    let peer = match player.udp_peer {
        Some(p) => p,
        None => {
            return r;
        },
    };
    if !player.is_dead {
        r.push(
            Action::SendUdp {
                peer,
                msg: UdpServerMsg::PlayerMove {
                    location: player.location,
                    client_request_id: player.client_request_id,
                },
            },
        );
    }
    let ghost base: int = r@.len() as int;
    let n = all_players.len();
    let mut i: usize = 0;
    while i < n
        invariant
            n == all_players@.len(),
            0 <= i <= n,
            base == if !player.is_dead { 1int } else { 0int },
            base <= r@.len(),
            r@.len() == base + spec_other_infos(all_players@, player.id, i as int).len(),
            !player.is_dead ==> r@[0] == (Action::SendUdp {
                peer,
                msg: UdpServerMsg::PlayerMove {
                    location: player.location,
                    client_request_id: player.client_request_id,
                },
            }),
            forall|j: int|
                0 <= j < spec_other_infos(all_players@, player.id, i as int).len() ==> (
                #[trigger] r@[base + j] matches Action::SendUdp { peer: p2, msg: m } && p2 == peer
                    && (m matches UdpServerMsg::OtherPlayer { username, location, direction }
                    && username@ == spec_other_infos(all_players@, player.id, i as int)[j].0
                    && location == spec_other_infos(all_players@, player.id, i as int)[j].1
                    && direction == spec_other_infos(all_players@, player.id, i as int)[j].2)),
        decreases n - i,
    {
        let p = &all_players[i];
        if p.id != player.id && !p.is_dead {
            r.push(
                Action::SendUdp {
                    peer,
                    msg: UdpServerMsg::OtherPlayer {
                        username: clone_bytes(&p.username),
                        location: p.location,
                        direction: p.direction,
                    },
                },
            );
        }
        i = i + 1;
    }
    r.push(Action::SendUdp { peer, msg: UdpServerMsg::Objects(clone_objects(game_objects)) });
    r
}

/// One tick of the world: each registered player in turn has the monsters
/// run against it and then receives its broadcast. Only health and death
/// flags of players change; the world stays well formed.
pub fn process_game_tick(state: &mut ServerState, now_ms: u64) -> (r: Result<Vec<Action>, ()>)
    requires
        old(state).wf(),
    ensures
        final(state).wf(),
        final(state).address_map == old(state).address_map,
        final(state).players@.len() == old(state).players@.len(),
        forall|k: int|
            0 <= k < final(state).players@.len() ==> #[trigger] final(state).players@[k] == (
            Player {
                hp: final(state).players@[k].hp,
                is_dead: final(state).players@[k].is_dead,
                ..old(state).players@[k]
            }),
        forall|k: int|
            0 <= k < final(state).players@.len() && (#[trigger] old(state).players@[k]).udp_peer
                is None ==> final(state).players@[k] == old(state).players@[k],
        r matches Ok(actions) ==> forall|k: int|
            0 <= k < final(state).players@.len() && (#[trigger] final(state).players@[k]).udp_peer
                is Some && !final(state).players@[k].is_dead ==> actions@.contains(
                Action::SendUdp {
                    peer: final(state).players@[k].udp_peer->0,
                    msg: UdpServerMsg::PlayerMove {
                        location: final(state).players@[k].location,
                        client_request_id: final(state).players@[k].client_request_id,
                    },
                },
            ),
{
    let mut actions: Vec<Action> = Vec::new();
    let n = state.players.len();
    let mut k: usize = 0;
    while k < n
        invariant
            0 <= k <= n,
            n == state.players@.len(),
            state.wf(),
            state.address_map == old(state).address_map,
            state.players@.len() == old(state).players@.len(),
            forall|j: int|
                0 <= j < state.players@.len() ==> #[trigger] state.players@[j] == (Player {
                    hp: state.players@[j].hp,
                    is_dead: state.players@[j].is_dead,
                    ..old(state).players@[j]
                }),
            forall|j: int|
                0 <= j < state.players@.len() && (#[trigger] old(state).players@[j]).udp_peer
                    is None ==> state.players@[j] == old(state).players@[j],
            forall|j: int|
                0 <= j < k && (#[trigger] state.players@[j]).udp_peer is Some && !state.players@[
                    j
                ].is_dead ==> actions@.contains(
                    Action::SendUdp {
                        peer: state.players@[j].udp_peer->0,
                        msg: UdpServerMsg::PlayerMove {
                            location: state.players@[j].location,
                            client_request_id: state.players@[j].client_request_id,
                        },
                    },
                ),
        decreases n - k,
    {
        let ghost pre_players = state.players@;
        let ghost pre_actions = actions@;
        let has_udp = state.players[k].udp_peer.is_some();
        if has_udp {
            let p = &mut state.players[k];
            let ran = process_monster_ai(p, &mut state.game_objects, &mut state.mmo_map, now_ms);
            proof {
                crate::server::lemma_update_keeps_wf(pre_players, state.players@, k as int);
            }
            match ran {
                Ok(mut reports) => {
                    let peer = match state.players[k].udp_peer {
                        Some(u) => u,
                        None => {
                            return Err(());
                        },
                    };
                    let mut j: usize = 0;
                    let m = reports.len();
                    while j < m
                        invariant
                            0 <= j <= m,
                            m == reports@.len(),
                            actions@.len() >= pre_actions.len(),
                            forall|x: int|
                                0 <= x < pre_actions.len() ==> #[trigger] actions@[x]
                                    == pre_actions[x],
                        decreases m - j,
                    {
                        let msg = reports[j].clone();
                        actions.push(Action::SendUdp { peer, msg });
                        j = j + 1;
                    }
                    let ghost mid_len = actions@.len();
                    let mut updates = send_player_updates(
                        &state.players[k],
                        &state.players,
                        &state.game_objects,
                    );
                    let ghost updates0 = updates@;
                    actions.append(&mut updates);
                    proof {
                        lemma_tick_broadcast_kept(
                            pre_actions,
                            actions@,
                            pre_players,
                            state.players@,
                            k as int,
                        );
                        if !state.players@[k as int].is_dead {
                            assert(actions@[mid_len as int] == updates0[0]);
                        }
                    }
                },
                Err(()) => {
                    return Err(());
                },
            }
        }
        k = k + 1;
    }
    Ok(actions)
}

/// Once a player's broadcast is in the action list, later rounds, which
/// only extend the list and touch other players, keep it there.
proof fn lemma_tick_broadcast_kept(
    pre_actions: Seq<Action>,
    post_actions: Seq<Action>,
    pre_players: Seq<Player>,
    post_players: Seq<Player>,
    k: int,
)
    requires
        pre_actions.len() <= post_actions.len(),
        forall|x: int| 0 <= x < pre_actions.len() ==> #[trigger] post_actions[x] == pre_actions[x],
        pre_players.len() == post_players.len(),
        forall|j: int| 0 <= j < pre_players.len() && j != k ==> post_players[j] == pre_players[j],
    ensures
        forall|a: Action| #[trigger] pre_actions.contains(a) ==> post_actions.contains(a),
{
    assert forall|a: Action| pre_actions.contains(a) implies post_actions.contains(a) by {
        let x = choose|x: int| 0 <= x < pre_actions.len() && pre_actions[x] == a;
        assert(post_actions[x] == a);
    }
}

} // verus!