//! The services together: a broker, the spatial server, the servers of the shards and three
//! clients, with every datagram passed by hand.

use shardworld::broker::{handle_packet, BrokerState};
use shardworld::client::{farewell, greeting};
use shardworld::dedicated_server::{Authority, ServerConfig, ServerVars};
use shardworld::game_server::{Context, Effect, GameServer};
use shardworld::net::PeerAddr;
use shardworld::orchestrator::{plan_steps, read_command, registration, shards_variable, FleetStep};
use shardworld::spatial_server::{read_event, SpatialServer};
use shardworld::wire::{build_position, read_u32};
use std::collections::{HashMap, VecDeque};

const SPATIAL: u16 = 9001;
const ORCHESTRATOR: u16 = 8000;

fn peer(port: u16) -> PeerAddr {
    PeerAddr::V4 { ip: 0x7f00_0001, port }
}

struct World {
    broker: BrokerState,
    spatial: SpatialServer,
    servers: HashMap<u16, GameServer>,
    processes: HashMap<u32, u16>,
    authority: HashMap<(u16, u32), Authority>,
    inbox: HashMap<u16, Vec<Vec<u8>>>,
    to_broker: VecDeque<(u16, Vec<u8>)>,
    next_port: u16,
}

impl World {
    fn new() -> World {
        let mut world = World {
            broker: BrokerState::new(),
            spatial: SpatialServer::new(),
            servers: HashMap::new(),
            processes: HashMap::new(),
            authority: HashMap::new(),
            inbox: HashMap::new(),
            to_broker: VecDeque::new(),
            next_port: 7100,
        };
        world.to_broker.push_back((SPATIAL, SpatialServer::registration()));
        world.to_broker.push_back((ORCHESTRATOR, registration()));
        world.start(0, &vec![0]);
        world.run();
        world
    }

    fn start(&mut self, key: u32, shards: &Vec<u32>) {
        self.start_behind(key, shards, None);
    }

    fn start_behind(&mut self, key: u32, shards: &Vec<u32>, parent_shard: Option<String>) {
        let port = self.next_port;
        self.next_port += 1;
        let vars = ServerVars {
            ds_port: Some(port.to_string()),
            max_players: None,
            zone: None,
            shards: Some(shards_variable(shards)),
            parent_shard,
        };
        let config = ServerConfig::from_env(vars, ORCHESTRATOR, peer(9000));
        assert!(config.check_names());
        for message in config.boot_messages() {
            self.to_broker.push_back((port, message));
        }
        self.servers.insert(port, GameServer::new(config));
        self.processes.insert(key, port);
    }

    fn run(&mut self) {
        while let Some((from, packet)) = self.to_broker.pop_front() {
            for datagram in handle_packet(&mut self.broker, &packet, peer(from)) {
                match datagram.to {
                    PeerAddr::V4 { port, .. } => self.deliver(port, datagram.data),
                    PeerAddr::V6 { .. } => unreachable!(),
                }
            }
        }
    }

    fn deliver(&mut self, port: u16, packet: Vec<u8>) {
        if port == SPATIAL {
            assert!(self.spatial.can_number(&read_event(&packet)));
            for message in self.spatial.handle_packet(&packet) {
                self.to_broker.push_back((SPATIAL, message));
            }
        } else if port == ORCHESTRATOR {
            for step in plan_steps(read_command(&packet)) {
                match step {
                    FleetStep::Stop { key } => {
                        let stopped = self.processes.remove(&key).unwrap();
                        self.servers.remove(&stopped);
                    }
                    FleetStep::Start { key, shards } => self.start(key, &shards),
                }
            }
        } else if self.servers.contains_key(&port) {
            let seen = GameServer::subject(&packet)
                .and_then(|client| self.authority.get(&(port, client)).copied());
            let context = Context { seen, input: None, join: false };
            let effects = self.servers.get_mut(&port).unwrap().handle_packet(&packet, context);
            for effect in effects {
                match effect {
                    Effect::Send { data } => self.to_broker.push_back((port, data)),
                    Effect::Spawn { state, authority } => {
                        self.authority.insert((port, state.client_id), authority);
                    }
                    Effect::SetAuthority { client_id, authority } => {
                        self.authority.insert((port, client_id), authority);
                    }
                    Effect::Despawn { client_id } => {
                        self.authority.remove(&(port, client_id));
                    }
                    _ => {}
                }
            }
        } else {
            self.inbox.entry(port).or_default().push(packet);
        }
    }

    fn join(&mut self, client: u32) {
        self.to_broker.push_back((client as u16, greeting(client)));
        self.run();
    }

    fn move_to(&mut self, client: u32, x: f32, y: f32) {
        self.to_broker
            .push_back((client as u16, build_position(client, x.to_bits(), y.to_bits())));
        self.run();
    }

    fn leave(&mut self, client: u32) {
        self.to_broker.push_back((client as u16, farewell(client)));
        self.run();
    }

    /// What a client was told under a tag since it was last asked.
    fn told(&mut self, client: u32, tag: u8) -> Vec<Vec<u8>> {
        let all = self.inbox.remove(&(client as u16)).unwrap_or_default();
        all.into_iter().filter(|packet| packet[0] == tag).collect()
    }

    /// The publications of the server in charge of a shard reach the client.
    fn hears(&mut self, client: u32, shard_key: u32) -> bool {
        let port = self.processes[&shard_key];
        let player = shardworld::dedicated_server::PlayerState {
            client_id: client,
            x: shardworld::binary32::Binary32::from_bits(0),
            y: shardworld::binary32::Binary32::from_bits(0),
        };
        let messages = self.servers[&port].config.state_messages(&vec![player]);
        for message in messages {
            self.to_broker.push_back((port, message));
        }
        self.run();
        !self.told(client, 0x04).is_empty()
    }
}

#[test]
fn clients_cross_borders_while_shards_come_and_go() {
    let mut world = World::new();
    for client in [101, 102, 103] {
        world.join(client);
    }

    // The first client is taken by shard 0 and hears its broadcasts.
    world.move_to(101, 0.0, 0.0);
    assert!(world.hears(101, 0));

    // Three clients in one quadrant divide the world, and they pass to the new shard.
    for client in [101, 102, 103] {
        world.move_to(client, -250.0, 250.0);
    }
    assert_eq!(world.processes.len(), 2);
    world.told(101, 0x12);
    world.move_to(101, -250.0, 250.0);
    let changes = world.told(101, 0x12);
    assert_eq!(changes.len(), 1);
    assert_eq!((read_u32(&changes[0], 5), read_u32(&changes[0], 9)), (0, 1));
    assert!(world.hears(101, 1));
    assert!(!world.hears(101, 0));

    // Near the border the client is alerted.
    world.move_to(101, -40.0, 250.0);
    let alerts = world.told(101, 0x11);
    assert_eq!(alerts.len(), 1);
    assert_eq!(alerts[0][5], 2);

    // Over the border, and back.
    world.move_to(101, 10.0, 250.0);
    let changes = world.told(101, 0x12);
    assert_eq!((read_u32(&changes[0], 5), read_u32(&changes[0], 9)), (1, 2));
    world.move_to(101, -10.0, 250.0);
    let changes = world.told(101, 0x12);
    assert_eq!((read_u32(&changes[0], 5), read_u32(&changes[0], 9)), (2, 1));

    // When two clients leave, the shards merge, and the third passes to the parent.
    world.leave(102);
    world.leave(103);
    assert_eq!(world.processes.keys().copied().collect::<Vec<u32>>(), vec![0]);
    world.move_to(101, -10.0, 250.0);
    let changes = world.told(101, 0x12);
    assert_eq!((read_u32(&changes[0], 5), read_u32(&changes[0], 9)), (1, 0));
    assert!(world.hears(101, 0));
    assert!(world.spatial.pending_ready.is_empty());
    assert!(world.spatial.service.pending_splits.is_empty());
    assert!(world.spatial.service.pending_merges.is_empty());
}

#[test]
fn the_server_of_the_new_shard_meets_the_players() {
    let mut world = World::new();
    for client in [101, 102, 103] {
        world.join(client);
        world.move_to(client, -250.0, 250.0);
    }
    for client in [101, 102] {
        world.move_to(client, -250.0, 250.0);
        world.move_to(client, -251.0, 250.0);
    }
    let new = world.processes[&1];
    assert!(world.servers[&new].knows(101));
    assert_eq!(world.servers[&new].player_count(), 2);
    assert_eq!(world.authority[&(new, 101)], Authority::Shadow);
    // The server is told that a player left before it is stopped for want of players.
    world.leave(101);
    assert!(!world.authority.contains_key(&(new, 101)));
    assert!(!world.processes.contains_key(&1));
}

#[test]
fn a_server_that_warms_up_follows_its_parent() {
    let mut world = World::new();
    world.start_behind(7, &vec![7], Some("shard:0".to_string()));
    world.run();
    let parent = world.processes[&0];
    let new = world.processes[&7];
    let player = shardworld::dedicated_server::PlayerState {
        client_id: 42,
        x: shardworld::binary32::Binary32::from_bits(3.0f32.to_bits()),
        y: shardworld::binary32::Binary32::from_bits(4.0f32.to_bits()),
    };
    for message in world.servers[&parent].config.state_messages(&vec![player]) {
        world.to_broker.push_back((parent, message));
    }
    world.run();
    assert!(world.servers[&new].knows(42));
    assert_eq!(world.authority[&(new, 42)], Authority::Shadow);
    assert_eq!(world.servers[&new].player_count(), 1);
    assert_eq!(world.servers[&parent].player_count(), 0);
}
