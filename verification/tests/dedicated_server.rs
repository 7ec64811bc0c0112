use bevy::time::{Timer, TimerMode};
use shardworld::binary32::Binary32;
use shardworld::client::read_snapshot;
use shardworld::dedicated_server::{
    build_game_data, move_player, shard_number, warmup_system, Authority, NewPlayer, PlayerInput,
    PlayerState, ServerConfig, ServerVars, WarmupTimer,
};
use shardworld::net::PeerAddr;
use shardworld::settings::orchestrator_port;
use shardworld::topics::{string_to_topic, topic_for_shard};
use shardworld::wire::{build_broadcast, build_claim, build_publish, build_ready, build_subscription};
use std::time::Duration;

fn b(x: f32) -> Binary32 {
    Binary32::from_bits(x.to_bits())
}

fn player(client_id: u32, x: f32, y: f32) -> PlayerState {
    PlayerState { client_id, x: b(x), y: b(y) }
}

fn no_vars() -> ServerVars {
    ServerVars { ds_port: None, max_players: None, zone: None, shards: None, parent_shard: None }
}

fn broker() -> PeerAddr {
    PeerAddr::V4 { ip: 0x7f00_0001, port: 9000 }
}

fn config(vars: ServerVars) -> ServerConfig {
    ServerConfig::with_id("server".to_string(), vars, 8000, broker())
}

#[test]
fn defaults_of_the_configuration() {
    let config = config(no_vars());
    assert_eq!(config.id, "server");
    assert_eq!(config.ip, "127.0.0.1");
    assert_eq!(config.port, 7001);
    assert_eq!(config.zone, "zone_A");
    assert_eq!(config.max_players, 100);
    assert_eq!(config.orchestrator_addr, PeerAddr::V4 { ip: 0x7f00_0001, port: 8000 });
    assert_eq!(config.broker_addr, broker());
    assert_eq!(config.shards, vec!["shard:0"]);
    assert_eq!(config.parent_shard, None);
    assert!(!config.warming_up());
    assert_eq!(config.warmup_millis(), 0);
}

#[test]
fn variables_change_the_configuration() {
    let config = config(ServerVars {
        ds_port: Some("7105".to_string()),
        max_players: Some("12".to_string()),
        zone: Some("zone_B".to_string()),
        shards: Some("shard:5,shard:6".to_string()),
        parent_shard: Some("shard:1".to_string()),
    });
    assert_eq!(config.port, 7105);
    assert_eq!(config.max_players, 12);
    assert_eq!(config.zone, "zone_B");
    assert_eq!(config.shards, vec!["shard:5", "shard:6"]);
    assert_eq!(config.parent_shard, Some("shard:1".to_string()));
    assert_eq!(config.warmup_millis(), 2000);
}

#[test]
fn bad_numbers_fall_back_to_the_defaults() {
    let config = config(ServerVars {
        ds_port: Some("70000".to_string()),
        max_players: Some("many".to_string()),
        zone: None,
        shards: None,
        parent_shard: None,
    });
    assert_eq!(config.port, 7001);
    assert_eq!(config.max_players, 100);
}

#[test]
fn the_orchestrator_port_must_be_a_port() {
    assert_eq!(orchestrator_port(&None), Some(8000));
    assert_eq!(orchestrator_port(&Some("8123".to_string())), Some(8123));
    assert_eq!(orchestrator_port(&Some("x".to_string())), Some(8000));
    assert_eq!(orchestrator_port(&Some("99999999999".to_string())), Some(8000));
    assert_eq!(orchestrator_port(&Some("-0".to_string())), Some(0));
    assert_eq!(orchestrator_port(&Some("70000".to_string())), None);
    assert_eq!(orchestrator_port(&Some("-1".to_string())), None);
}

#[test]
fn shard_names_hold_a_number() {
    assert_eq!(shard_number("shard:5"), Some(5));
    assert_eq!(shard_number("shard:4294967295"), Some(u32::MAX));
    assert_eq!(shard_number("shard:4294967296"), None);
    assert_eq!(shard_number("a:7:8"), Some(7));
    assert_eq!(shard_number("shard"), None);
    assert_eq!(shard_number("shard:"), None);
    assert_eq!(shard_number("shard:x"), None);
    for id in [0u32, 1, 42, 1_000_000] {
        assert_eq!(shard_number(&format!("shard:{}", id)), Some(id));
    }
}

#[test]
fn a_server_registers_and_is_ready_at_once() {
    let mut vars = no_vars();
    vars.shards = Some("shard:3,lobby".to_string());
    let config = config(vars);
    assert_eq!(
        config.boot_messages(),
        vec![
            build_claim(&topic_for_shard(3)),
            build_ready(3),
            build_claim(&string_to_topic("lobby")),
            build_claim(&string_to_topic("server")),
        ]
    );
    assert_eq!(config.ready_messages(), vec![build_ready(3)]);
    assert_eq!(config.shard_numbers(), vec![3]);
}

#[test]
fn a_server_with_a_parent_warms_up_first() {
    let mut vars = no_vars();
    vars.shards = Some("shard:3,shard:4".to_string());
    vars.parent_shard = Some("shard:0".to_string());
    let config = config(vars);
    assert_eq!(
        config.boot_messages(),
        vec![
            build_subscription(0x01, 0xffff_ffff, &topic_for_shard(0)),
            vec![0x05, 0xff, 0xff, 0xff, 0xff],
            build_claim(&topic_for_shard(3)),
            build_claim(&topic_for_shard(4)),
            build_claim(&string_to_topic("server")),
        ]
    );
    assert_eq!(config.ready_messages(), vec![build_ready(3), build_ready(4)]);
}

#[test]
fn ready_signals_go_out_once() {
    let mut vars = no_vars();
    vars.shards = Some("shard:3,lobby,shard:4".to_string());
    vars.parent_shard = Some("shard:0".to_string());
    let mut config = config(vars);
    let mut timer = WarmupTimer::new(config.warmup_millis());
    assert!(warmup_system(&mut timer, 0, &config).is_empty());
    assert!(warmup_system(&mut timer, 1_500_000_000, &config).is_empty());
    assert!(warmup_system(&mut timer, 499_999_999, &config).is_empty());
    config.shards.push("shard:9".to_string());
    assert_eq!(
        warmup_system(&mut timer, 1, &config),
        vec![build_ready(3), build_ready(4), build_ready(9)]
    );
    assert!(warmup_system(&mut timer, 0, &config).is_empty());
    assert!(warmup_system(&mut timer, u128::MAX, &config).is_empty());
}

#[test]
fn without_a_warm_up_the_first_step_ends_it() {
    let config = config(no_vars());
    let mut timer = WarmupTimer::new(config.warmup_millis());
    assert_eq!(warmup_system(&mut timer, 0, &config), vec![build_ready(0)]);
    assert!(warmup_system(&mut timer, 5, &config).is_empty());
}

#[test]
fn the_warm_up_agrees_with_a_timer_of_the_game_loop() {
    for millis in [0u64, 1, 2000] {
        let mut theirs = Timer::new(Duration::from_millis(millis), TimerMode::Once);
        let mut ours = WarmupTimer::new(millis);
        for step in [0u64, 999_999, 1, 700_000_000, 0, 1_299_000_000, 1, 16_666_667, 3_000_000_000] {
            theirs.tick(Duration::from_nanos(step));
            assert_eq!(ours.tick(step as u128), theirs.just_finished());
            assert_eq!(ours.finished, theirs.is_finished());
            assert_eq!(ours.elapsed, theirs.elapsed().as_nanos());
        }
    }
}

#[test]
fn names_must_fit_into_a_topic() {
    let mut vars = no_vars();
    vars.shards = Some("x".repeat(32));
    assert!(config(vars.clone()).check_names());
    vars.shards = Some("x".repeat(33));
    assert!(!config(vars.clone()).check_names());
    assert!(!config(vars.clone()).check_shards());
    vars.shards = None;
    vars.parent_shard = Some("é".repeat(17));
    assert!(!config(vars.clone()).check_names());
    // The broadcasts need only the names of the shards.
    assert!(config(vars.clone()).check_shards());
    assert_eq!(config(vars).state_messages(&vec![player(1, 0.0, 0.0)]).len(), 1);
}

#[test]
fn a_server_hosts_its_shards() {
    let mut vars = no_vars();
    vars.shards = Some("shard:1,shard:12".to_string());
    let config = config(vars);
    assert!(config.hosts(1));
    assert!(config.hosts(12));
    assert!(!config.hosts(2));
    assert!(!config.hosts(121));
}

#[test]
fn heartbeats_say_whether_there_is_room() {
    let config = config(no_vars());
    let idle = config.heartbeat(99);
    assert_eq!((idle.player_count, idle.max_players, idle.port), (99, 100, 7001));
    assert_eq!(idle.status, "available");
    assert_eq!((idle.id.as_str(), idle.ip.as_str()), ("server", "127.0.0.1"));
    assert_eq!(idle.zone, "zone_A");
    assert_eq!(config.heartbeat(100).status, "full");
    assert_eq!(config.heartbeat(101).status, "full");
}

#[test]
fn new_players_stand_still() {
    let new = NewPlayer::with_id("p".to_string(), player(9, 1.5, -2.5), Authority::Shadow);
    assert_eq!(new.player.id, "p");
    assert_eq!((new.x, new.y), (b(1.5), b(-2.5)));
    assert_eq!(new.input.movement_x, b(0.0));
    assert_eq!(new.input.movement_y, b(0.0));
    assert_eq!(new.network_id.0, 9);
    assert_eq!(new.authority, Authority::Shadow);
}

#[test]
fn players_move_as_native_numbers_do() {
    for (x, movement, delta) in
        [(0.0f32, 1.0f32, 0.016f32), (-250.0, -0.7, 0.0167), (999.9, 0.3, 1.0), (1.0, 0.0, 0.5)]
    {
        let input = PlayerInput { movement_x: b(movement), movement_y: b(-movement) };
        let moved = move_player(player(1, x, x), input, Authority::Owned, b(delta));
        assert_eq!(moved.x, b(x + movement * 5.0 * delta));
        assert_eq!(moved.y, b(x + -movement * 5.0 * delta));
        let still = move_player(player(1, x, x), input, Authority::Shadow, b(delta));
        assert_eq!(still, player(1, x, x));
    }
}

#[test]
fn game_data_hold_the_players() {
    let data = build_game_data(&vec![player(258, 1.0, -2.0)]);
    let mut expected = vec![1u8, 2, 1, 0, 0];
    expected.extend_from_slice(&1.0f32.to_le_bytes());
    expected.extend_from_slice(&(-2.0f32).to_le_bytes());
    assert_eq!(data, expected);
    assert_eq!(build_game_data(&vec![]), vec![0]);
}

#[test]
fn broadcasts_are_read_back() {
    for count in [0u32, 1, 3, 124] {
        let players: Vec<PlayerState> =
            (0..count).map(|i| player(i * 7, i as f32, -(i as f32))).collect();
        assert_eq!(read_snapshot(&build_broadcast(&build_game_data(&players))), players);
    }
}

#[test]
fn a_broadcast_holds_at_most_255_players() {
    let players: Vec<PlayerState> = (0..300).map(|i| player(i, 0.0, 0.0)).collect();
    let data = build_game_data(&players);
    assert_eq!(data.len(), 1 + 12 * 255);
    assert_eq!(data[0], 255);
    assert_eq!(read_snapshot(&build_broadcast(&data)), players[..255].to_vec());
}

#[test]
fn the_state_goes_to_every_shard() {
    let mut vars = no_vars();
    vars.shards = Some("shard:1,shard:2".to_string());
    let config = config(vars);
    assert!(config.state_messages(&vec![]).is_empty());
    let players = vec![player(1, 3.0, 4.0)];
    let data = build_game_data(&players);
    assert_eq!(
        config.state_messages(&players),
        vec![
            build_publish(&topic_for_shard(1), &data),
            build_publish(&topic_for_shard(2), &data),
        ]
    );
}
