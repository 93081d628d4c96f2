//! Round trips of the wire codec: every variant of every message family
//! survives encoding and decoding, and garbled frames are rejected.

use mmo_core::types::{Direction, Location};
use mmo_core::{GameObject, GameObjects, InitPlayer, TcpClientMsg, TcpServerMsg, UdpClientMsg,
    UdpServerMsg};
use mmo_core::{decode_tcp_client_msg, decode_tcp_server_msg, decode_udp_client_msg,
    decode_udp_server_msg, encode_tcp_client_msg, encode_tcp_server_msg, encode_udp_client_msg,
    encode_udp_server_msg};

fn loc(x: u32, y: u32, z: u32) -> Location {
    Location { x, y, z }
}

fn rt_tcp_client(m: TcpClientMsg) {
    let buf = encode_tcp_client_msg(&m);
    assert_eq!(decode_tcp_client_msg(&buf), Some(m));
}

fn rt_tcp_server(m: TcpServerMsg) {
    let buf = encode_tcp_server_msg(&m);
    assert_eq!(decode_tcp_server_msg(&buf), Some(m));
}

fn rt_udp_client(m: UdpClientMsg) {
    let buf = encode_udp_client_msg(&m);
    assert_eq!(decode_udp_client_msg(&buf), Some(m));
}

fn rt_udp_server(m: UdpServerMsg) {
    let buf = encode_udp_server_msg(&m);
    assert_eq!(decode_udp_server_msg(&buf), Some(m));
}

#[test]
fn tcp_client_round_trips() {
    rt_tcp_client(TcpClientMsg::Init(b"alice".to_vec()));
    rt_tcp_client(TcpClientMsg::Reconnect(0x1234_5678_9abc_def0_1111_2222_3333_4444));
    rt_tcp_client(TcpClientMsg::ChatMsg(b"hello there".to_vec()));
    rt_tcp_client(TcpClientMsg::Respawn(42));
    rt_tcp_client(TcpClientMsg::Disconnect);
    rt_tcp_client(TcpClientMsg::Init(Vec::new()));
}

#[test]
fn tcp_server_round_trips() {
    rt_tcp_server(TcpServerMsg::InitOk(InitPlayer {
        id: 7,
        username: b"alice".to_vec(),
        location: loc(3, 4, 0),
        hp: 100,
        max_hp: 100,
        level: 1,
        direction: Direction::South,
    }));
    rt_tcp_server(TcpServerMsg::InitErr(b"username rejected".to_vec()));
    rt_tcp_server(TcpServerMsg::ReconnectOk);
    rt_tcp_server(TcpServerMsg::ChatMsg { username: b"alice".to_vec(), msg: b"hi".to_vec() });
    rt_tcp_server(TcpServerMsg::RespawnOk);
}

#[test]
fn udp_client_round_trips() {
    rt_udp_client(UdpClientMsg::PlayerMove {
        id: 9,
        client_request_id: 17,
        location: loc(6, 5, 0),
    });
    rt_udp_client(UdpClientMsg::Ping { id: 9, client_request_id: 3 });
    rt_udp_client(UdpClientMsg::MoveObject { id: 9, from: loc(1, 2, 0), to: loc(2, 2, 0) });
}

#[test]
fn udp_server_round_trips() {
    rt_udp_server(UdpServerMsg::PlayerMove { location: loc(5, 5, 1), client_request_id: 8 });
    rt_udp_server(UdpServerMsg::OtherPlayer {
        username: b"bobby".to_vec(),
        location: loc(9, 9, 0),
        direction: Direction::West,
    });
    let objects = GameObjects {
        entries: vec![
            (loc(1, 1, 0), GameObject::FlowerPot { id: 149, tileset_location: 0 }),
            (loc(2, 3, 0), GameObject::Orc {
                id: 63,
                tileset_location: 5,
                hp: 100,
                direction: Direction::South,
            }),
            (loc(4, 4, 1), GameObject::Ladder { id: 83, tileset_location: 7, target_z: 1 }),
        ],
    };
    rt_udp_server(UdpServerMsg::Objects(objects));
    rt_udp_server(UdpServerMsg::Objects(GameObjects { entries: Vec::new() }));
    rt_udp_server(UdpServerMsg::Pong(12));
    rt_udp_server(UdpServerMsg::PlayerHealthUpdate { hp: 50 });
    rt_udp_server(UdpServerMsg::PlayerDeath { message: b"You have been slain!".to_vec() });
    rt_udp_server(UdpServerMsg::DamageNumber { damage: 50 });
}

#[test]
fn garbled_frames_are_rejected() {
    assert_eq!(decode_udp_client_msg(&Vec::new()), None);
    assert_eq!(decode_udp_client_msg(&vec![99u8, 1, 2, 3]), None);
    assert_eq!(decode_tcp_client_msg(&vec![0u8, 1]), None);
    assert_eq!(decode_tcp_server_msg(&vec![7u8]), None);
    assert_eq!(decode_udp_server_msg(&vec![3u8, 1, 2]), None);
    // a trailing byte makes the frame invalid
    let mut buf = encode_tcp_client_msg(&TcpClientMsg::Disconnect);
    buf.push(0);
    assert_eq!(decode_tcp_client_msg(&buf), None);
}
