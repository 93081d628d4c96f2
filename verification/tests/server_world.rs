//! Server-side scenarios: move reconciliation, damage and death, monster
//! cooldowns and pursuit, chat fan-out, spawn search, and disconnects.

use mmo_core::types::{Direction, Location, MONSTER_DAMAGE, PLAYER_MAX_HP};
use mmo_core::{
    calculate_new_direction, get_active_monsters, handle_player_damage, is_adjacent,
    process_monster_attack, process_monster_movement, Action, DamageResult, GameObject,
    GameObjects, MapElement, MmoMap, Monster, Player, Sc, ServerChannel, ServerState,
    TcpServerMsg, UdpServerMsg,
};

fn loc(x: u32, y: u32, z: u32) -> Location {
    Location { x, y, z }
}

fn player_at(id: u128, name: &[u8], l: Location, req: u32, tcp: u64) -> Player {
    let mut p = Player::new(id, name.to_vec(), tcp, l);
    p.client_request_id = req;
    p
}

fn state_with(players: Vec<Player>) -> ServerState {
    let mut st = ServerState::new();
    for p in players {
        st.add_player(p);
    }
    st
}

#[test]
fn move_accept_and_reject() {
    // A request id that is not strictly greater is dropped; the next one
    // commits the move and the derived facing.
    let mut st = state_with(vec![player_at(1, b"alice", loc(5, 5, 0), 7, 10)]);
    st.handle_player_move(1, 7, loc(6, 5, 0));
    assert_eq!(st.players[0].location, loc(5, 5, 0));
    assert_eq!(st.players[0].client_request_id, 7);
    st.handle_player_move(1, 8, loc(6, 5, 0));
    assert_eq!(st.players[0].location, loc(6, 5, 0));
    assert_eq!(st.players[0].client_request_id, 8);
    assert_eq!(st.players[0].direction, Direction::East);
}

#[test]
fn stale_move_is_a_no_op() {
    let mut st = state_with(vec![player_at(1, b"alice", loc(5, 5, 0), 7, 10)]);
    st.handle_player_move(1, 6, loc(9, 9, 0));
    assert_eq!(st.players[0].location, loc(5, 5, 0));
    assert_eq!(st.players[0].client_request_id, 7);
    assert_eq!(st.players[0].direction, Direction::South);
}

#[test]
fn monotonic_moves_track_last_location() {
    let mut st = state_with(vec![player_at(1, b"alice", loc(0, 0, 0), 0, 10)]);
    let moves = [(1u32, loc(1, 0, 0)), (2, loc(2, 0, 0)), (3, loc(2, 1, 0)), (5, loc(2, 1, 0))];
    let mut last_req = 0;
    for (req, l) in moves {
        st.handle_player_move(1, req, l);
        assert!(st.players[0].client_request_id >= last_req);
        last_req = st.players[0].client_request_id;
    }
    assert_eq!(st.players[0].location, loc(2, 1, 0));
}

#[test]
fn damage_death_and_corpse() {
    let mut p = player_at(1, b"alice", loc(3, 3, 0), 0, 10);
    let mut objects = GameObjects::new();
    let msgs = handle_player_damage(&mut p, 50, &mut objects);
    assert_eq!(p.hp, 50);
    assert!(!p.is_dead);
    assert_eq!(msgs, vec![UdpServerMsg::PlayerHealthUpdate { hp: 50 }]);
    let msgs = handle_player_damage(&mut p, 50, &mut objects);
    assert_eq!(p.hp, 0);
    assert!(p.is_dead);
    assert_eq!(
        msgs,
        vec![UdpServerMsg::PlayerDeath { message: b"You have been slain!".to_vec() }]
    );
    // the corpse marker stands where the player fell
    assert_eq!(
        objects.get(loc(3, 3, 0)),
        Some(GameObject::FlowerPot { id: 149, tileset_location: 0 })
    );
    // a dead player takes no further damage
    let msgs = handle_player_damage(&mut p, 50, &mut objects);
    assert!(msgs.is_empty());
    assert_eq!(p.hp, 0);
}

#[test]
fn take_damage_saturates() {
    let mut p = player_at(1, b"alice", loc(3, 3, 0), 0, 10);
    match p.take_damage(250) {
        DamageResult::Died { damage, .. } => assert_eq!(damage, 250),
        _ => panic!("expected a death"),
    }
    assert_eq!(p.hp, 0);
    assert!(p.is_dead);
    assert!(p.hp <= p.max_hp);
}

#[test]
fn monster_attack_cooldown() {
    // The orc strikes when ready, is silent during the cooldown, and the
    // second blow kills and plants the corpse marker.
    let orc_cell = loc(10, 10, 0);
    let mut map = MmoMap::new();
    map.set(
        orc_cell,
        MapElement::Monster(Monster { id: 63, tileset_location: 0, last_movement: 0, last_attack: 0 }),
    );
    let mut p = player_at(1, b"alice", loc(10, 11, 0), 0, 10);
    p.hp = 100;
    let mut objects = GameObjects::new();
    assert!(is_adjacent(orc_cell, p.location));

    let msgs = process_monster_attack(orc_cell, &mut p, &mut objects, &mut map, 2000);
    assert_eq!(p.hp, 100 - MONSTER_DAMAGE);
    assert_eq!(msgs, vec![UdpServerMsg::PlayerHealthUpdate { hp: 50 }]);

    // one second later the cooldown still runs
    let msgs = process_monster_attack(orc_cell, &mut p, &mut objects, &mut map, 3000);
    assert!(msgs.is_empty());
    assert_eq!(p.hp, 50);

    // two seconds after the first blow the second one kills
    let msgs = process_monster_attack(orc_cell, &mut p, &mut objects, &mut map, 4000);
    assert_eq!(p.hp, 0);
    assert!(p.is_dead);
    assert_eq!(
        msgs,
        vec![UdpServerMsg::PlayerDeath { message: b"You have been slain!".to_vec() }]
    );
    assert_eq!(
        objects.get(loc(10, 11, 0)),
        Some(GameObject::FlowerPot { id: 149, tileset_location: 0 })
    );
}

#[test]
fn bfs_pursuit_reaches_attack_range() {
    // Orc and player on an empty corridor: the path has six cells, and
    // four paced steps bring the orc adjacent to the player.
    let mut map = MmoMap::new();
    let mut objects = GameObjects::new();
    let orc = GameObject::Orc { id: 63, tileset_location: 0, hp: 100, direction: Direction::South };
    objects.insert(loc(0, 0, 0), orc);
    map.set(
        loc(0, 0, 0),
        MapElement::Monster(Monster { id: 63, tileset_location: 0, last_movement: 0, last_attack: 0 }),
    );
    let target = loc(5, 0, 0);

    let path = map.shortest_path(loc(0, 0, 0), target);
    assert_eq!(path.len(), 6);
    assert_eq!(path[0], loc(0, 0, 0));
    assert_eq!(path[5], target);
    for w in path.windows(2) {
        let dx = (w[0].x as i64 - w[1].x as i64).abs();
        let dy = (w[0].y as i64 - w[1].y as i64).abs();
        assert_eq!(dx + dy, 1);
    }

    let mut orc_cell = loc(0, 0, 0);
    let mut now = 200;
    for step in 1..=4u32 {
        process_monster_movement(orc_cell, target, &mut objects, &mut map, now).unwrap();
        orc_cell = loc(step, 0, 0);
        assert!(matches!(map.get(orc_cell), MapElement::Monster(_)));
        now += 200;
    }
    assert_eq!(orc_cell, loc(4, 0, 0));
    assert!(is_adjacent(orc_cell, target));

    // adjacent now: a further pursuit step is not taken (path too short)
    process_monster_movement(orc_cell, target, &mut objects, &mut map, now + 200).unwrap();
    assert!(matches!(map.get(orc_cell), MapElement::Monster(_)));
}

#[test]
fn monster_move_cooldown_holds_it_still() {
    let mut map = MmoMap::new();
    let mut objects = GameObjects::new();
    let orc = GameObject::Orc { id: 63, tileset_location: 0, hp: 100, direction: Direction::South };
    objects.insert(loc(0, 0, 0), orc);
    map.set(
        loc(0, 0, 0),
        MapElement::Monster(Monster {
            id: 63,
            tileset_location: 0,
            last_movement: 100,
            last_attack: 0,
        }),
    );
    process_monster_movement(loc(0, 0, 0), loc(5, 0, 0), &mut objects, &mut map, 200).unwrap();
    assert!(matches!(map.get(loc(0, 0, 0)), MapElement::Monster(_)));
}

#[test]
fn chat_fans_out_to_everyone_else() {
    let mut st = state_with(vec![
        player_at(1, b"aaaa", loc(0, 0, 0), 0, 11),
        player_at(2, b"bbbb", loc(1, 0, 0), 0, 12),
        player_at(3, b"cccc", loc(2, 0, 0), 0, 13),
    ]);
    let actions = st.handle_event(ServerChannel { id: 1, msg: Sc::ChatMsg(b"hi".to_vec()) });
    assert_eq!(actions.len(), 2);
    let expect = |peer: u64| Action::SendTcp {
        peer,
        msg: TcpServerMsg::ChatMsg { username: b"aaaa".to_vec(), msg: b"hi".to_vec() },
    };
    assert_eq!(actions[0], expect(12));
    assert_eq!(actions[1], expect(13));
}

#[test]
fn disconnect_is_idempotent() {
    let mut st = state_with(vec![player_at(1, b"alice", loc(5, 5, 0), 0, 10)]);
    st.bind_udp_peer(1, 77);
    st.handle_disconnect(1);
    assert_eq!(st.players.len(), 0);
    assert_eq!(st.lookup_address(10), None);
    assert_eq!(st.lookup_address(77), None);
    let addr_len = st.address_map.len();
    st.handle_disconnect(1);
    assert_eq!(st.players.len(), 0);
    assert_eq!(st.address_map.len(), addr_len);
}

#[test]
fn reconnect_after_disconnect_fails() {
    // The server retains no state for a dropped session, so the old id is
    // refused.
    let mut st = state_with(vec![player_at(1, b"alice", loc(5, 5, 0), 0, 10)]);
    st.handle_disconnect(1);
    assert!(!st.handle_reconnect(1, 99));
}

#[test]
fn register_and_reject_players() {
    let mut st = ServerState::new();
    let ok = st.register_player(b"alice".to_vec(), 10, 1);
    assert!(ok.is_ok());
    let ip = ok.unwrap();
    assert_eq!(ip.hp, PLAYER_MAX_HP);
    assert_eq!(ip.max_hp, PLAYER_MAX_HP);
    assert_eq!(ip.level, 1);
    assert_eq!(ip.direction, Direction::South);
    assert_eq!(ip.location, loc(0, 0, 0));
    // too short
    assert!(st.register_player(b"bob".to_vec(), 11, 2).is_err());
    // taken
    assert!(st.register_player(b"alice".to_vec(), 12, 3).is_err());
    // id in use
    assert!(st.register_player(b"carol".to_vec(), 13, 1).is_err());
    // the next player spawns on the next free cell
    let ok = st.register_player(b"carol".to_vec(), 13, 4).unwrap();
    assert_eq!(ok.location, loc(1, 0, 0));
}

#[test]
fn spawn_skips_live_players_and_orcs() {
    let mut st = ServerState::new();
    st.add_player(player_at(1, b"alice", loc(0, 0, 0), 0, 10));
    st.game_objects.insert(
        loc(1, 0, 0),
        GameObject::Orc { id: 63, tileset_location: 0, hp: 100, direction: Direction::South },
    );
    assert_eq!(st.generate_spawn_location(), loc(2, 0, 0));
}

#[test]
fn respawn_only_when_dead() {
    let mut st = state_with(vec![player_at(1, b"alice", loc(5, 5, 0), 0, 10)]);
    st.bind_udp_peer(1, 77);
    assert!(st.handle_respawn(1).is_empty());
    st.players[0].hp = 0;
    st.players[0].is_dead = true;
    let actions = st.handle_respawn(1);
    assert_eq!(actions.len(), 2);
    assert_eq!(actions[0], Action::SendTcp { peer: 10, msg: TcpServerMsg::RespawnOk });
    assert_eq!(
        actions[1],
        Action::SendUdp { peer: 77, msg: UdpServerMsg::PlayerHealthUpdate { hp: PLAYER_MAX_HP } }
    );
    assert!(!st.players[0].is_dead);
    assert_eq!(st.players[0].hp, PLAYER_MAX_HP);
    assert_eq!(st.players[0].location, loc(0, 0, 0));
}

#[test]
fn ping_answers_to_known_datagram_peer() {
    let mut st = state_with(vec![player_at(1, b"alice", loc(5, 5, 0), 0, 10)]);
    assert!(st.handle_ping(1, 5).is_empty());
    st.bind_udp_peer(1, 77);
    let actions = st.handle_ping(1, 5);
    assert_eq!(actions, vec![Action::SendUdp { peer: 77, msg: UdpServerMsg::Pong(5) }]);
}

#[test]
fn move_object_keeps_count_and_reorients_orcs() {
    let mut objects = GameObjects::new();
    let orc = GameObject::Orc { id: 63, tileset_location: 0, hp: 100, direction: Direction::South };
    objects.insert(loc(2, 2, 0), orc);
    objects.insert(loc(5, 5, 0), GameObject::FlowerPot { id: 149, tileset_location: 0 });
    assert_eq!(objects.len(), 2);
    assert!(objects.move_object(loc(2, 2, 0), loc(3, 2, 0)).is_some());
    assert_eq!(objects.len(), 2);
    assert_eq!(objects.get(loc(2, 2, 0)), None);
    match objects.get(loc(3, 2, 0)) {
        Some(GameObject::Orc { direction, .. }) => assert_eq!(direction, Direction::East),
        other => panic!("expected the orc, got {:?}", other),
    }
    // an empty source cell is refused and changes nothing
    assert!(objects.move_object(loc(9, 9, 0), loc(8, 8, 0)).is_none());
    assert_eq!(objects.len(), 2);
}

#[test]
fn direction_tie_breaks_horizontally_first() {
    let a = loc(5, 5, 0);
    assert_eq!(calculate_new_direction(a, loc(6, 9, 0)), Direction::East);
    assert_eq!(calculate_new_direction(a, loc(4, 0, 0)), Direction::West);
    assert_eq!(calculate_new_direction(a, loc(5, 6, 0)), Direction::South);
    assert_eq!(calculate_new_direction(a, loc(5, 4, 0)), Direction::North);
    // with equal coordinates the tie collapses to North
    assert_eq!(calculate_new_direction(a, a), Direction::North);
}

#[test]
fn active_monsters_are_the_orcs() {
    let mut objects = GameObjects::new();
    objects.insert(loc(1, 1, 0), GameObject::FlowerPot { id: 149, tileset_location: 0 });
    let orc = GameObject::Orc { id: 63, tileset_location: 0, hp: 100, direction: Direction::South };
    objects.insert(loc(2, 2, 0), orc);
    let monsters = get_active_monsters(&objects);
    assert_eq!(monsters, vec![(loc(2, 2, 0), orc)]);
    assert!(orc.is_monster());
    assert_eq!(orc.id(), 63);
    assert_eq!(orc.tileset_location(), 0);
    let mut reoriented = orc;
    reoriented.change_direction(Direction::West);
    match reoriented {
        GameObject::Orc { direction, .. } => assert_eq!(direction, Direction::West),
        _ => unreachable!(),
    }
}

#[test]
fn tile_data_builds_the_store_and_rejects_unknown_ids() {
    let tiles = vec![(loc(1, 1, 0), 149u32, 0usize), (loc(2, 2, 0), 63, 4), (loc(3, 3, 1), 83, 9)];
    let go = GameObjects::from_tile_data(&tiles).unwrap();
    assert_eq!(go.len(), 3);
    assert_eq!(go.get(loc(1, 1, 0)), Some(GameObject::FlowerPot { id: 149, tileset_location: 0 }));
    assert_eq!(
        go.get(loc(2, 2, 0)),
        Some(GameObject::Orc { id: 63, tileset_location: 4, hp: 100, direction: Direction::South })
    );
    assert_eq!(
        go.get(loc(3, 3, 1)),
        Some(GameObject::Ladder { id: 83, tileset_location: 9, target_z: 1 })
    );
    let bad = vec![(loc(0, 0, 0), 7u32, 0usize)];
    assert_eq!(GameObjects::from_tile_data(&bad), Err(7));
}

#[test]
fn world_map_mirrors_the_store() {
    let mut objects = GameObjects::new();
    let orc = GameObject::Orc { id: 63, tileset_location: 2, hp: 100, direction: Direction::South };
    objects.insert(loc(4, 4, 0), orc);
    objects.insert(loc(6, 6, 1), GameObject::FlowerPot { id: 149, tileset_location: 1 });
    let map = MmoMap::from_game_objects(objects, 500);
    match map.get(loc(4, 4, 0)) {
        MapElement::Monster(m) => {
            assert_eq!(m.id, 63);
            assert_eq!(m.last_movement, 500);
            assert_eq!(m.last_attack, 500);
        },
        other => panic!("expected a monster, got {:?}", other),
    }
    assert!(matches!(map.get(loc(6, 6, 1)), MapElement::Object(_)));
    assert_eq!(map.get(loc(0, 0, 0)), MapElement::Empty);
}

#[test]
fn unreachable_targets_give_no_path() {
    let mut map = MmoMap::new();
    // wall off the target cell
    for (dx, dy) in [(0i64, 1i64), (0, -1), (1, 0), (-1, 0)] {
        let x = (5 + dx) as u32;
        let y = (5 + dy) as u32;
        map.set(
            loc(x, y, 0),
            MapElement::Object(mmo_core::Object { id: 149, tileset_location: 0 }),
        );
    }
    let path = map.shortest_path(loc(0, 0, 0), loc(5, 5, 0));
    assert!(path.is_empty());
}

#[test]
fn out_of_view_monsters_do_nothing() {
    // the orc sits far outside its perception box of the player
    let mut objects = GameObjects::new();
    let orc = GameObject::Orc { id: 63, tileset_location: 0, hp: 100, direction: Direction::South };
    objects.insert(loc(29, 19, 0), orc);
    let mut map = MmoMap::from_game_objects(objects.clone(), 0);
    let mut p = player_at(1, b"alice", loc(0, 0, 0), 0, 10);
    let before = p.clone();
    let msgs = mmo_core::process_monster_ai(&mut p, &mut objects, &mut map, 5000).unwrap();
    assert!(msgs.is_empty());
    assert_eq!(p, before);
    assert_eq!(objects.get(loc(29, 19, 0)), Some(orc));
}

#[test]
fn events_route_through_the_dispatcher() {
    let mut st = state_with(vec![player_at(1, b"alice", loc(5, 5, 0), 7, 10)]);
    let actions = st.handle_event(ServerChannel {
        id: 1,
        msg: Sc::PlayerMove { client_request_id: 8, location: loc(6, 5, 0) },
    });
    assert!(actions.is_empty());
    assert_eq!(st.players[0].location, loc(6, 5, 0));
    st.bind_udp_peer(1, 77);
    let actions = st.handle_event(ServerChannel { id: 1, msg: Sc::Ping(3) });
    assert_eq!(actions, vec![Action::SendUdp { peer: 77, msg: UdpServerMsg::Pong(3) }]);
    let actions = st.handle_event(ServerChannel { id: 1, msg: Sc::Disconnect });
    assert!(actions.is_empty());
    assert!(st.players.is_empty());
}

#[test]
fn off_grid_cells_read_as_nothing() {
    let map = MmoMap::new();
    assert_eq!(map.get_checked(loc(30, 0, 0)), None);
    assert_eq!(map.get_checked(loc(0, 20, 0)), None);
    assert_eq!(map.get_checked(loc(0, 0, 2)), None);
    assert_eq!(map.get_checked(loc(3, 3, 1)), Some(MapElement::Empty));
}
