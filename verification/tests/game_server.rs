use shardworld::binary32::Binary32;
use shardworld::dedicated_server::{
    build_game_data, Authority, PlayerInput, PlayerState, ServerConfig, ServerVars,
};
use shardworld::game_server::{Context, Effect, GameServer};
use shardworld::net::PeerAddr;
use shardworld::topics::topic_for_shard;
use shardworld::wire::{
    build_authority, build_broadcast, build_claim, build_client_message, build_input,
    build_position, build_ready, push_u32_all,
};

const NOTHING: Context = Context { seen: None, input: None, join: false };

fn b(x: f32) -> Binary32 {
    Binary32::from_bits(x.to_bits())
}

fn server(shards: &str) -> GameServer {
    let vars = ServerVars {
        ds_port: None,
        max_players: None,
        zone: None,
        shards: Some(shards.to_string()),
        parent_shard: None,
    };
    let broker = PeerAddr::V4 { ip: 0x7f00_0001, port: 9000 };
    GameServer::new(ServerConfig::with_id("s".to_string(), vars, 8000, broker))
}

fn show(effects: &[Effect]) -> Vec<String> {
    effects
        .iter()
        .map(|effect| match effect {
            Effect::Exit => "exit".to_string(),
            Effect::Send { data } => format!("send {:?}", data),
            Effect::Spawn { state, authority } => {
                format!("spawn {} {:?} {:?}", state.client_id, place(state), authority)
            }
            Effect::Place { state } => format!("place {} {:?}", state.client_id, place(state)),
            Effect::Steer { client_id, input } => format!(
                "steer {} {} {}",
                client_id,
                f32::from_bits(input.movement_x.to_bits()),
                f32::from_bits(input.movement_y.to_bits())
            ),
            Effect::SetAuthority { client_id, authority } => {
                format!("authority {} {:?}", client_id, authority)
            }
            Effect::Despawn { client_id } => format!("despawn {}", client_id),
        })
        .collect()
}

fn place(state: &PlayerState) -> (f32, f32) {
    (f32::from_bits(state.x.to_bits()), f32::from_bits(state.y.to_bits()))
}

fn position(client: u32, x: f32, y: f32) -> Vec<u8> {
    build_position(client, x.to_bits(), y.to_bits())
}

fn joining() -> Context {
    Context { seen: None, input: None, join: true }
}

#[test]
fn a_player_joins() {
    let mut server = server("shard:0");
    let packet = build_input(7, b"{\"username\":\"Player_7\"}");
    assert_eq!(
        show(&server.handle_packet(&packet, joining())),
        vec!["spawn 7 (0.0, 0.0) Owned"]
    );
    assert!(server.knows(7));
    assert_eq!(server.player_count(), 1);
    // Asking again promotes a player who is there.
    assert_eq!(show(&server.handle_packet(&packet, joining())), vec!["authority 7 Owned"]);
    assert_eq!(server.player_count(), 1);
}

#[test]
fn inputs_steer_known_players() {
    let mut server = server("shard:0");
    let input = PlayerInput { movement_x: b(1.0), movement_y: b(-0.5) };
    let context = Context { seen: None, input: Some(input), join: false };
    assert!(server.handle_packet(&build_input(7, b"?"), context).is_empty());
    server.handle_packet(&build_input(7, b"?"), joining());
    assert_eq!(
        show(&server.handle_packet(&build_input(7, b"?"), context)),
        vec!["steer 7 1 -0.5"]
    );
    // An input comes before a request to join.
    let both = Context { seen: None, input: Some(input), join: true };
    assert_eq!(show(&server.handle_packet(&build_input(7, b"?"), both)), vec!["steer 7 1 -0.5"]);
    assert!(server.handle_packet(&build_input(7, b"?"), NOTHING).is_empty());
}

#[test]
fn positions_make_shadows() {
    let mut server = server("shard:0");
    assert_eq!(
        show(&server.handle_packet(&position(7, 1.0, 2.0), NOTHING)),
        vec!["spawn 7 (1.0, 2.0) Shadow"]
    );
    let shadow = Context { seen: Some(Authority::Shadow), input: None, join: false };
    assert_eq!(
        show(&server.handle_packet(&position(7, 3.0, 4.0), shadow)),
        vec!["place 7 (3.0, 4.0)"]
    );
    let owned = Context { seen: Some(Authority::Owned), input: None, join: false };
    assert!(server.handle_packet(&position(7, 3.0, 4.0), owned).is_empty());
    assert!(server.handle_packet(&position(7, 3.0, 4.0), NOTHING).is_empty());
    // A position that is cut off is no position, and no request to join either.
    assert!(server.handle_packet(&position(8, 3.0, 4.0)[..13], joining()).is_empty());
    assert!(!server.knows(8));
    assert_eq!(GameServer::subject(&position(7, 0.0, 0.0)), Some(7));
    assert_eq!(GameServer::subject(&[0x07, 1, 0, 0, 0]), None);
}

#[test]
fn players_leave() {
    let mut server = server("shard:0");
    server.handle_packet(&build_input(7, b"?"), joining());
    let leave = build_client_message(0x07, 7);
    assert!(server.handle_packet(&leave[..4], NOTHING).is_empty());
    assert_eq!(show(&server.handle_packet(&leave, NOTHING)), vec!["despawn 7"]);
    assert_eq!(server.player_count(), 0);
    assert!(server.handle_packet(&leave, NOTHING).is_empty());
}

#[test]
fn authority_follows_the_shard() {
    let mut server = server("shard:1,shard:2");
    assert!(server.handle_packet(&build_authority(7, 0, 1), NOTHING).is_empty());
    server.handle_packet(&build_input(7, b"?"), joining());
    for (old, new, expected) in [
        (0, 1, vec!["authority 7 Owned"]),
        (1, 2, vec!["authority 7 Owned"]),
        (1, 3, vec!["authority 7 Shadow"]),
        (3, 4, vec![]),
    ] {
        assert_eq!(show(&server.handle_packet(&build_authority(7, old, new), NOTHING)), expected);
    }
    assert!(server.handle_packet(&build_authority(7, 0, 1)[..12], NOTHING).is_empty());
}

#[test]
fn assigned_shards_are_taken_over() {
    let mut server = server("shard:0");
    let mut packet = vec![0x18];
    packet.extend_from_slice(&2u32.to_le_bytes());
    push_u32_all(&mut packet, &vec![5, 6]);
    let expected: Vec<String> = [
        build_claim(&topic_for_shard(5)),
        build_ready(5),
        build_claim(&topic_for_shard(6)),
        build_ready(6),
    ]
    .iter()
    .map(|data| format!("send {:?}", data))
    .collect();
    assert_eq!(show(&server.handle_packet(&packet, NOTHING)), expected);
    assert_eq!(server.config.shards, vec!["shard:0", "shard:5", "shard:6"]);
    assert!(server.config.hosts(6));
    assert!(server.config.check_names());
}

#[test]
fn players_of_another_server_are_followed() {
    let mut server = server("shard:0");
    server.handle_packet(&build_input(7, b"?"), joining());
    let players: Vec<PlayerState> = [(7u32, 1.0f32), (8, 2.0), (8, 3.0)]
        .iter()
        .map(|(client_id, x)| PlayerState { client_id: *client_id, x: b(*x), y: b(0.0) })
        .collect();
    let mut packet = build_broadcast(&build_game_data(&players));
    assert_eq!(
        show(&server.handle_packet(&packet, NOTHING)),
        vec!["place 7 (1.0, 0.0)", "spawn 8 (2.0, 0.0) Shadow", "place 8 (3.0, 0.0)"]
    );
    assert_eq!(server.player_count(), 2);
    packet.truncate(4 + 12 + 11);
    assert_eq!(show(&server.handle_packet(&packet, NOTHING)), vec!["place 7 (1.0, 0.0)"]);
}

#[test]
fn an_unknown_player_of_a_broadcast_enters_as_a_shadow() {
    let mut server = server("shard:0");
    let mut packet = vec![0x04, 13, 0, 1];
    packet.extend_from_slice(&9u32.to_le_bytes());
    packet.extend_from_slice(&1.5f32.to_le_bytes());
    packet.extend_from_slice(&(-2.5f32).to_le_bytes());
    assert_eq!(
        show(&server.handle_packet(&packet, NOTHING)),
        vec!["spawn 9 (1.5, -2.5) Shadow"]
    );
    assert!(server.knows(9));
    assert_eq!(server.player_count(), 1);
    assert!(server.handle_packet(&[0x04, 1, 0, 0], NOTHING).is_empty());
    assert!(server.handle_packet(&[0x04, 1], NOTHING).is_empty());
}

#[test]
fn a_shutdown_ends_the_server() {
    let mut server = server("shard:0");
    assert_eq!(show(&server.handle_packet(&[0x17], NOTHING)), vec!["exit"]);
    assert!(server.handle_packet(&[], NOTHING).is_empty());
    assert!(server.handle_packet(&[0x99; 30], NOTHING).is_empty());
}

#[test]
fn players_are_counted() {
    let mut server = server("shard:0");
    let mut expected = 0usize;
    for step in 0..60u32 {
        let client = step * 7 % 11;
        let effects = if step % 3 == 2 {
            server.handle_packet(&build_client_message(0x07, client), NOTHING)
        } else if step % 3 == 1 {
            server.handle_packet(&position(client, 0.0, 0.0), NOTHING)
        } else {
            server.handle_packet(&build_input(client, b"?"), joining())
        };
        for effect in effects {
            match effect {
                Effect::Spawn { .. } => expected += 1,
                Effect::Despawn { .. } => expected -= 1,
                _ => {}
            }
        }
        assert_eq!(server.player_count(), expected);
    }
}
