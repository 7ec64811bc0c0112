use shardworld::client::new_client_id;
use shardworld::dedicated_server::{Authority, NewPlayer, PlayerState, ServerConfig, ServerVars};
use shardworld::binary32::Binary32;
use shardworld::net::PeerAddr;
use std::collections::HashSet;

fn is_uuid(id: &str) -> bool {
    let bytes = id.as_bytes();
    bytes.len() == 36
        && bytes.iter().enumerate().all(|(i, byte)| match i {
            8 | 13 | 18 | 23 => *byte == b'-',
            _ => byte.is_ascii_digit() || (b'a'..=b'f').contains(byte),
        })
        && bytes[14] == b'4'
        && b"89ab".contains(&bytes[19])
}

#[test]
fn player_ids_are_random_uuids() {
    let zero = Binary32::from_bits(0);
    let state = PlayerState { client_id: 3, x: zero, y: zero };
    let mut seen = HashSet::new();
    for _ in 0..50 {
        let player = NewPlayer::new(state, Authority::Owned);
        assert!(is_uuid(&player.player.id));
        assert!(seen.insert(player.player.id));
    }
}

#[test]
fn server_ids_fit_into_a_topic() {
    let vars = ServerVars {
        ds_port: None,
        max_players: None,
        zone: None,
        shards: None,
        parent_shard: None,
    };
    let broker = PeerAddr::V4 { ip: 0x7f00_0001, port: 9000 };
    let config = ServerConfig::from_env(vars, 8000, broker);
    let bytes = config.id.as_bytes();
    assert_eq!(bytes.len(), 32);
    assert!(bytes.iter().all(|byte| byte.is_ascii_digit() || (b'a'..=b'f').contains(byte)));
    assert_eq!(bytes[12], b'4');
    assert!(b"89ab".contains(&bytes[16]));
    assert!(config.check_names());
}

#[test]
fn client_ids_have_four_digits() {
    let mut seen = HashSet::new();
    for _ in 0..200 {
        let id = new_client_id();
        assert!((1000..9999).contains(&id));
        seen.insert(id);
    }
    assert!(seen.len() > 1);
}
