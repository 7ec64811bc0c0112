//! The verified core of a sharded game world.
//!
//! The world is a square that is divided into shards as it fills with players and merged again
//! as it empties. A spatial server decides which shard a client belongs to, dedicated servers
//! run the shards, an orchestrator starts and stops them, a broker passes every message on, and
//! a gatekeeper lets the clients in.

pub mod binary32;
pub mod broker;
pub mod broker_laws;
pub mod client;
pub mod client_laws;
pub mod dedicated_server;
pub mod event_laws;
pub mod fleet_laws;
pub mod game_laws;
pub mod game_server;
pub mod gate_laws;
pub mod gatekeeper;
pub mod geometry;
pub mod grid;
pub mod ids;
pub mod messages;
pub mod net;
pub mod number_laws;
pub mod orchestrator;
pub mod packet_laws;
pub mod quadtree;
pub mod quadtree_laws;
pub mod quic_server;
pub mod service_laws;
pub mod settings;
pub mod shard_laws;
pub mod sorted;
pub mod spatial;
pub mod spatial_laws;
pub mod spatial_server;
pub mod system_laws;
pub mod text;
pub mod topics;
pub mod view_laws;
pub mod wide;
pub mod wire;
