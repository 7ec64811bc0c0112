use shardworld::dedicated_server::{ServerConfig, ServerVars};
use shardworld::messages::Heartbeat;
use shardworld::net::PeerAddr;
use shardworld::orchestrator::{
    count_available_servers, count_missing, launch_arguments, next_shard_port, plan_fleet, plan_steps,
    read_command, record_heartbeat, registration, shards_variable, Command, FleetStep,
};
use shardworld::wire::build_scale;

#[test]
fn the_orchestrator_takes_charge_of_its_topic() {
    let message = registration();
    assert_eq!(message.len(), 33);
    assert_eq!(message[0], 0x06);
    assert_eq!(&message[1..22], b"orchestrator_commands");
    assert_eq!(message[22..], [0u8; 11]);
}

fn heartbeat(players: usize, max: usize) -> Heartbeat {
    Heartbeat {
        id: "abc".to_string(),
        ip: "127.0.0.1".to_string(),
        port: 7001,
        zone: "zone_A".to_string(),
        player_count: players,
        max_players: max,
        status: "whatever".to_string(),
    }
}

fn steps(command: Command) -> Vec<String> {
    plan_steps(command)
        .iter()
        .map(|step| match step {
            FleetStep::Stop { key } => format!("stop {}", key),
            FleetStep::Start { key, shards } => format!("start {} {:?}", key, shards),
        })
        .collect()
}

#[test]
fn requests_are_read() {
    let up = &build_scale(0x13, 9, &vec![1, 2, 3, 4])[33..];
    assert_eq!(read_command(up), Command::ScaleUp { s1: 1, s2: 2, s3: 3, s4: 4 });
    let down = &build_scale(0x15, 9, &vec![1, 2, 3, 4])[33..];
    assert_eq!(read_command(down), Command::ScaleDown { parent: 9, s1: 1, s2: 2, s3: 3, s4: 4 });
    assert_eq!(read_command(&up[..20]), Command::Report);
    assert_eq!(read_command(&down[..20]), Command::Report);
    assert_eq!(read_command(b"{}"), Command::Report);
    assert_eq!(read_command(&[]), Command::Ignored);
}

#[test]
fn requests_start_and_stop_servers() {
    assert_eq!(
        steps(Command::ScaleUp { s1: 1, s2: 2, s3: 3, s4: 4 }),
        vec!["start 1 [1, 2, 3, 4]"]
    );
    assert_eq!(
        steps(Command::ScaleDown { parent: 9, s1: 1, s2: 2, s3: 3, s4: 4 }),
        vec!["stop 1", "start 9 [9]"]
    );
    assert!(steps(Command::Report).is_empty());
    assert!(steps(Command::Ignored).is_empty());
}

#[test]
fn a_hundred_ports_are_tried() {
    let mut tried = None;
    let mut ports = Vec::new();
    while let Some(port) = next_shard_port(tried) {
        ports.push(port);
        tried = Some(port);
    }
    assert_eq!(ports, (7100..7200).collect::<Vec<u16>>());
    assert_eq!(next_shard_port(Some(80)), None);
}

#[test]
fn heartbeats_are_put_on_record() {
    let record = record_heartbeat(&heartbeat(3, 100));
    assert_eq!(record.key, "server:abc");
    assert_eq!((record.id.as_str(), record.ip.as_str()), ("abc", "127.0.0.1"));
    assert_eq!((record.port, record.zone.as_str(), record.players), (7001, "zone_A", 3));
    assert_eq!(record.status, "available");
    assert_eq!(record.ttl_seconds, 15);
    assert_eq!(record_heartbeat(&heartbeat(100, 100)).status, "full");
    assert_eq!(record_heartbeat(&heartbeat(0, 0)).status, "full");
}

#[test]
fn available_servers_are_counted() {
    let statuses = vec![
        Some("available".to_string()),
        Some("full".to_string()),
        None,
        Some("available".to_string()),
        Some("Available".to_string()),
    ];
    assert_eq!(count_available_servers(&statuses), 2);
    assert_eq!(count_available_servers(&vec![]), 0);
}

#[test]
fn missing_servers_are_started() {
    assert_eq!((count_missing(0), count_missing(1), count_missing(2), count_missing(9)), (2, 1, 0, 0));
    assert_eq!(plan_fleet(0, 7001), (vec![7001, 7002], 7003));
    assert_eq!(plan_fleet(1, 7003), (vec![7003], 7004));
    assert_eq!(plan_fleet(2, 7004), (vec![], 7004));
    assert_eq!(plan_fleet(50, 65535), (vec![], 65535));
}

#[test]
fn a_server_reads_the_shards_it_was_started_for() {
    let text = shards_variable(&vec![1, 20, 4294967295]);
    assert_eq!(text, "shard:1,shard:20,shard:4294967295");
    assert_eq!(shards_variable(&vec![]), "");
    let vars = ServerVars {
        ds_port: None,
        max_players: None,
        zone: None,
        shards: Some(text),
        parent_shard: None,
    };
    let broker = PeerAddr::V4 { ip: 0, port: 0 };
    let config = ServerConfig::with_id("s".to_string(), vars, 8000, broker);
    assert_eq!(config.shard_numbers(), vec![1, 20, 4294967295]);
}

#[test]
fn cargo_is_told_what_to_run() {
    assert_eq!(launch_arguments("cargo"), vec!["run", "-p", "dedicated_server", "--"]);
    assert!(launch_arguments("./dedicated_server").is_empty());
}
