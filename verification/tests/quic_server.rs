use shardworld::net::PeerAddr;
use shardworld::quic_server::{greet, PlayerRegistry, ServerConfig, ServerVars};

fn peer(port: u16) -> PeerAddr {
    PeerAddr::V6 { ip: 1, port, flowinfo: 0, scope_id: 0 }
}

#[test]
fn a_player_joins_once_per_address() {
    let mut registry = PlayerRegistry::new();
    assert!(!registry.knows(peer(1)));
    let player = registry.join(peer(1)).unwrap();
    assert_eq!(player.id.len(), 36);
    assert!(registry.join(peer(1)).is_none());
    assert!(registry.join_as(peer(2), "two".to_string()));
    assert!(!registry.join_as(peer(2), "other".to_string()));
    assert!(registry.knows(peer(2)));
    assert_eq!(registry.players.len(), 2);
    assert_eq!(registry.players[0].player_id, player.id);
    assert_eq!(registry.players[1].player_id, "two");
}

#[test]
fn players_are_greeted() {
    assert_eq!(greet().player_id.len(), 36);
    assert_ne!(greet().player_id, greet().player_id);
}

#[test]
fn the_configuration_follows_the_variables() {
    let vars = ServerVars {
        ds_port: Some("+7009".to_string()),
        max_players: None,
        zone: Some("z".to_string()),
    };
    let config = ServerConfig::with_id("me".to_string(), vars.clone(), 8001);
    assert_eq!((config.port, config.max_players), (7009, 100));
    assert_eq!((config.id.as_str(), config.ip.as_str(), config.zone.as_str()), ("me", "127.0.0.1", "z"));
    assert_eq!(config.orchestrator_addr, PeerAddr::V4 { ip: 0x7f00_0001, port: 8001 });
    assert_eq!(ServerConfig::from_env(vars, 8001).id.len(), 36);
}
