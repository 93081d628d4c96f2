//! Core logic of a tile-based multiplayer game: the wire codec, the spatial
//! map with breadth-first pathfinding, the game-object store, the session
//! registry, the server event dispatcher and tick loop, the monster AI, and
//! the client-side reconciliation and auto-pathing.

pub mod client;
pub mod codec;
pub mod messages;
pub mod mmo_map;
pub mod objects;
pub mod path;
pub mod player;
pub mod server;
pub mod tick;
pub mod types;

pub use client::{Cc, ChatMessage, ClientChannel, ClientGame, OtherPlayer, OtherPlayers,
    PingMonitor, bfs_find_path, construct_map_from_unwalkable_objects, handle_player_movement,
    handle_route, move_player, program_route_if_user_clicks_map, send_pos_to_server};
pub use codec::{decode_tcp_client_msg, decode_tcp_server_msg, decode_udp_client_msg,
    decode_udp_server_msg, encode_tcp_client_msg, encode_tcp_server_msg, encode_udp_client_msg,
    encode_udp_server_msg};
pub use messages::{InitPlayer, TcpClientMsg, TcpServerMsg, UdpClientMsg, UdpServerMsg};
pub use mmo_map::{MapElement, MmoMap, Monster, Object};
pub use objects::{GameObject, GameObjects, ORC_MAX_HP};
pub use player::{DamageResult, Player};
pub use server::{Action, Sc, ServerChannel, ServerState};
pub use tick::{get_active_monsters, handle_player_damage, process_game_tick, process_monster_ai,
    process_monster_attack, process_monster_movement, send_player_updates};
pub use types::{Direction, Directions, Location, calculate_new_direction, is_adjacent,
    is_within_view};
