//! Client-side scenarios: reconciliation against authoritative updates,
//! manual movement with its cooldowns, and the click-to-walk route.

use mmo_core::client::{reconnect_backoff, Cc, ClientGame, OtherPlayers, Player, PingMonitor,
    RECONNECT_RETRY_DELAY_MS};
use mmo_core::types::{Direction, Directions, Location, BASE_MOVE_DELAY_MS};
use mmo_core::{GameObject, GameObjects, UdpClientMsg};

fn loc(x: u32, y: u32, z: u32) -> Location {
    Location { x, y, z }
}

fn client_player(l: Location) -> Player {
    Player {
        id: 1,
        username: b"alice".to_vec(),
        request_id: 0,
        level: 1,
        hp: 100,
        max_hp: 100,
        curr_location: l,
        prev_location: l,
        route: Vec::new(),
        last_move_timer: 0,
        speed: BASE_MOVE_DELAY_MS,
        direction: Direction::South,
        frame: 0,
    }
}

fn game_at(l: Location) -> ClientGame {
    ClientGame {
        player: client_player(l),
        other_players: OtherPlayers(Vec::new()),
        game_objects: GameObjects::new(),
        user_chat: Vec::new(),
        is_dead: false,
        is_disconnected: false,
        ping_monitor: PingMonitor::new(),
    }
}

#[test]
fn authoritative_move_snaps_only_when_fresh() {
    let mut g = game_at(loc(5, 5, 0));
    g.player.request_id = 4;
    // a report at or above the local counter is authoritative
    g.apply_server_msg(Cc::PlayerMove { client_request_id: 4, location: loc(9, 9, 0) }, 0);
    assert_eq!(g.player.curr_location, loc(9, 9, 0));
    assert_eq!(g.player.prev_location, loc(9, 9, 0));
    // a stale one leaves the prediction standing
    g.player.curr_location = loc(9, 8, 0);
    g.player.request_id = 7;
    g.apply_server_msg(Cc::PlayerMove { client_request_id: 5, location: loc(1, 1, 0) }, 0);
    assert_eq!(g.player.curr_location, loc(9, 8, 0));
    assert_eq!(g.player.prev_location, loc(9, 8, 0));
}

#[test]
fn death_and_respawn_flow() {
    let mut g = game_at(loc(5, 5, 0));
    g.player.route = vec![loc(6, 5, 0), loc(7, 5, 0)];
    g.apply_server_msg(Cc::PlayerDeath { message: b"You have been slain!".to_vec() }, 0);
    assert!(g.is_dead);
    g.apply_server_msg(Cc::RespawnOk { hp: 100, location: loc(0, 0, 0) }, 0);
    assert!(!g.is_dead);
    assert_eq!(g.player.hp, 100);
    assert_eq!(g.player.curr_location, loc(0, 0, 0));
    assert!(g.player.route.is_empty());
}

#[test]
fn other_players_upsert_and_animate() {
    let mut g = game_at(loc(5, 5, 0));
    g.apply_server_msg(
        Cc::OtherPlayer {
            username: b"bobby".to_vec(),
            location: loc(1, 1, 0),
            direction: Direction::East,
        },
        0,
    );
    assert_eq!(g.other_players.0.len(), 1);
    assert_eq!(g.other_players.0[0].frame, 0);
    // an unchanged report keeps the frame
    g.apply_server_msg(
        Cc::OtherPlayer {
            username: b"bobby".to_vec(),
            location: loc(1, 1, 0),
            direction: Direction::East,
        },
        0,
    );
    assert_eq!(g.other_players.0[0].frame, 0);
    // a changed one advances it
    g.apply_server_msg(
        Cc::OtherPlayer {
            username: b"bobby".to_vec(),
            location: loc(2, 1, 0),
            direction: Direction::East,
        },
        0,
    );
    assert_eq!(g.other_players.0.len(), 1);
    assert_eq!(g.other_players.0[0].frame, 1);
    assert_eq!(g.other_players.0[0].location, loc(2, 1, 0));
}

#[test]
fn session_flags_and_chat() {
    let mut g = game_at(loc(5, 5, 0));
    g.apply_server_msg(Cc::Disconnect, 0);
    assert!(g.is_disconnected);
    g.apply_server_msg(Cc::ReconnectOk, 0);
    assert!(!g.is_disconnected);
    g.apply_server_msg(Cc::ChatMsg { from: b"bobby".to_vec(), msg: b"hi".to_vec() }, 42);
    assert_eq!(g.user_chat.len(), 1);
    assert_eq!(g.user_chat[0].username, b"bobby".to_vec());
    assert_eq!(g.user_chat[0].message, b"hi".to_vec());
    assert_eq!(g.user_chat[0].timestamp, 42);
}

#[test]
fn movement_respects_cooldown_and_occupancy() {
    let mut p = client_player(loc(5, 5, 0));
    let empty = OtherPlayers(Vec::new());
    // before the cooldown elapses nothing happens
    mmo_core::handle_player_movement(&mut p, &empty, Directions::East, 100);
    assert_eq!(p.curr_location, loc(5, 5, 0));
    // after it, the step lands and the facing follows
    mmo_core::handle_player_movement(&mut p, &empty, Directions::East, 200);
    assert_eq!(p.curr_location, loc(6, 5, 0));
    assert_eq!(p.prev_location, loc(5, 5, 0));
    assert_eq!(p.direction, Direction::East);
    assert_eq!(p.speed, BASE_MOVE_DELAY_MS);
    // a diagonal costs twice the delay
    mmo_core::handle_player_movement(&mut p, &empty, Directions::NorthEast, 400);
    assert_eq!(p.curr_location, loc(7, 4, 0));
    assert_eq!(p.speed, BASE_MOVE_DELAY_MS * 2);
    // an occupied cell blocks
    let blocker = mmo_core::client::OtherPlayer::new(b"bobby".to_vec(), loc(8, 4, 0), Direction::South);
    let others = OtherPlayers(vec![blocker]);
    mmo_core::handle_player_movement(&mut p, &others, Directions::East, 1000);
    assert_eq!(p.curr_location, loc(7, 4, 0));
}

#[test]
fn outbound_move_bumps_the_request_id() {
    let mut p = client_player(loc(5, 5, 0));
    assert_eq!(mmo_core::send_pos_to_server(&mut p), None);
    p.curr_location = loc(6, 5, 0);
    let msg = mmo_core::send_pos_to_server(&mut p);
    assert_eq!(
        msg,
        Some(UdpClientMsg::PlayerMove { id: 1, client_request_id: 1, location: loc(6, 5, 0) })
    );
    assert_eq!(p.request_id, 1);
}

#[test]
fn route_pauses_while_an_orc_blocks_the_step() {
    let mut p = client_player(loc(0, 0, 0));
    let empty = OtherPlayers(Vec::new());
    let mut objects = GameObjects::new();
    let orc = GameObject::Orc { id: 63, tileset_location: 0, hp: 100, direction: Direction::South };
    objects.insert(loc(1, 0, 0), orc);

    let routed = mmo_core::program_route_if_user_clicks_map(&mut p, &objects, &empty, loc(3, 0, 0));
    assert!(routed);
    // the route goes around the orc, never through it
    for cell in p.route.iter() {
        assert_ne!(*cell, loc(1, 0, 0));
    }
    let first = p.route[0];

    // an orc stepping onto the next cell pauses the route
    let mut blocked = GameObjects::new();
    blocked.insert(first, orc);
    let len_before = p.route.len();
    mmo_core::handle_route(&mut p, &blocked, &empty, 200);
    assert_eq!(p.route.len(), len_before);
    assert_eq!(p.curr_location, loc(0, 0, 0));

    // once it leaves, the step is consumed
    mmo_core::handle_route(&mut p, &objects, &empty, 400);
    assert_eq!(p.route.len(), len_before - 1);
    assert_eq!(p.curr_location, first);
}

#[test]
fn straight_route_excludes_the_start() {
    let p = client_player(loc(0, 0, 0));
    let empty = OtherPlayers(Vec::new());
    let objects = GameObjects::new();
    let mask = mmo_core::construct_map_from_unwalkable_objects(&objects, &empty, 0);
    let path = mmo_core::bfs_find_path(&mask, p.curr_location, loc(4, 0, 0));
    assert_eq!(path, vec![loc(1, 0, 0), loc(2, 0, 0), loc(3, 0, 0), loc(4, 0, 0)]);
}

#[test]
fn pings_are_paced_and_answered() {
    let mut pm = PingMonitor::new();
    let first = pm.ping_server(1, 5000);
    assert_eq!(first, Some(UdpClientMsg::Ping { id: 1, client_request_id: 1 }));
    assert_eq!(pm.ping_server(1, 6000), None);
    assert_eq!(pm.log_ping(1, 5400), Some(400));
    assert_eq!(pm.log_ping(9, 5400), None);
}

#[test]
fn reconnect_gives_up_after_the_retries() {
    for attempts in 0..=5u8 {
        assert_eq!(reconnect_backoff(attempts), Some(RECONNECT_RETRY_DELAY_MS));
    }
    assert_eq!(reconnect_backoff(6), None);
}

#[test]
fn identical_other_player_report_changes_nothing() {
    let mut g = game_at(loc(5, 5, 0));
    g.apply_server_msg(
        Cc::OtherPlayer {
            username: b"bobby".to_vec(),
            location: loc(1, 1, 0),
            direction: Direction::East,
        },
        0,
    );
    let before = g.other_players.0.clone();
    g.apply_server_msg(
        Cc::OtherPlayer {
            username: b"bobby".to_vec(),
            location: loc(1, 1, 0),
            direction: Direction::East,
        },
        0,
    );
    assert_eq!(g.other_players.0, before);
}

#[test]
fn pong_resolves_the_matching_ping_only() {
    let mut g = game_at(loc(5, 5, 0));
    let _ = g.ping_monitor.ping_server(1, 5000);
    g.apply_server_msg(Cc::Pong(9), 5100);
    assert_eq!(g.ping_monitor.pings.len(), 1);
    g.apply_server_msg(Cc::Pong(1), 5100);
    assert!(g.ping_monitor.pings.is_empty());
}
