use shardworld::broker::{handle_packet, BrokerState};
use shardworld::net::{Datagram, PeerAddr};
use shardworld::topics::{string_to_topic, topic_for_shard};
use shardworld::wire::{
    build_authority, build_claim, build_client_message, build_crossing, build_input, build_publish,
    build_ready, build_route, build_subscription,
};

fn peer(port: u16) -> PeerAddr {
    PeerAddr::V4 { ip: 0x7f00_0001, port }
}

fn send(broker: &mut BrokerState, packet: &[u8], port: u16) -> Vec<(u16, Vec<u8>)> {
    let out: Vec<Datagram> = handle_packet(broker, packet, peer(port));
    let mut list: Vec<(u16, Vec<u8>)> = out
        .into_iter()
        .map(|d| match d.to {
            PeerAddr::V4 { port, .. } => (port, d.data),
            PeerAddr::V6 { port, .. } => (port, d.data),
        })
        .collect();
    list.sort();
    list
}

/// A broker with a shard in charge of `shard:0` on port 7001, and two clients of it on ports 1
/// and 2.
fn busy() -> BrokerState {
    let mut broker = BrokerState::new();
    let topic = topic_for_shard(0);
    send(&mut broker, &build_claim(&topic), 7001);
    for client in [1u32, 2] {
        send(&mut broker, &build_subscription(0x01, client, &topic), client as u16);
        send(&mut broker, &build_input(client, &[0]), client as u16);
    }
    broker
}

#[test]
fn unknown_and_short_packets_are_ignored() {
    let mut broker = busy();
    assert!(send(&mut broker, &[], 1).is_empty());
    for tag in 0u8..=255 {
        assert!(send(&mut broker, &[tag], 1).is_empty());
        assert!(send(&mut broker, &[tag, 0, 0], 1).is_empty());
    }
    assert!(send(&mut broker, &[0x55; 100], 1).is_empty());
}

#[test]
fn published_data_reach_every_listener() {
    let mut broker = busy();
    let out = send(&mut broker, &build_publish(&topic_for_shard(0), &[7, 8]), 7001);
    let message = vec![0x04, 2, 0, 7, 8];
    assert_eq!(out, vec![(1, message.clone()), (2, message)]);
}

#[test]
fn only_the_authority_publishes() {
    let mut broker = busy();
    let publication = build_publish(&topic_for_shard(0), &[7, 8]);
    assert!(send(&mut broker, &publication, 7002).is_empty());
    assert!(send(&mut broker, &build_publish(&topic_for_shard(1), &[7]), 7001).is_empty());
    assert_eq!(send(&mut broker, &publication, 7001).len(), 2);
}

#[test]
fn incomplete_and_long_publications_are_dropped() {
    let mut broker = busy();
    let topic = topic_for_shard(0);
    let mut cut = build_publish(&topic, &[1, 2, 3]);
    cut.pop();
    assert!(send(&mut broker, &cut, 7001).is_empty());
    assert_eq!(send(&mut broker, &build_publish(&topic, &[0; 1497]), 7001).len(), 2);
    assert!(send(&mut broker, &build_publish(&topic, &[0; 1498]), 7001).is_empty());
    // What follows the announced data is not passed on.
    let mut longer = build_publish(&topic, &[5]);
    longer.push(6);
    assert_eq!(send(&mut broker, &longer, 7001)[0].1, vec![0x04, 1, 0, 5]);
}

#[test]
fn listeners_without_an_address_get_nothing() {
    let mut broker = BrokerState::new();
    let topic = topic_for_shard(0);
    send(&mut broker, &build_claim(&topic), 7001);
    send(&mut broker, &build_subscription(0x01, 9, &topic), 9);
    assert!(send(&mut broker, &build_publish(&topic, &[1]), 7001).is_empty());
    send(&mut broker, &build_input(9, &[0]), 90);
    assert_eq!(send(&mut broker, &build_publish(&topic, &[1]), 7001)[0].0, 90);
}

#[test]
fn who_subscribes_before_anyone_is_in_charge_listens_as_soon_as_someone_is() {
    let mut broker = BrokerState::new();
    let topic = topic_for_shard(3);
    send(&mut broker, &build_subscription(0x01, 9, &topic), 9);
    send(&mut broker, &build_input(9, &[0]), 9);
    send(&mut broker, &build_subscription(0x01, 10, &topic_for_shard(4)), 10);
    send(&mut broker, &build_input(10, &[0]), 10);
    assert!(send(&mut broker, &build_publish(&topic, &[1]), 7001).is_empty());
    send(&mut broker, &build_claim(&topic), 7001);
    let published = send(&mut broker, &build_publish(&topic, &[1]), 7001);
    assert_eq!(published.len(), 1);
    assert_eq!(published[0].0, 9);
    assert_eq!(send(&mut broker, &build_input(9, &[1]), 9).len(), 1);
    // Another server that takes over keeps the listeners.
    send(&mut broker, &build_claim(&topic), 7002);
    assert!(send(&mut broker, &build_publish(&topic, &[1]), 7001).is_empty());
    assert_eq!(send(&mut broker, &build_publish(&topic, &[1]), 7002).len(), 1);
}

#[test]
fn a_claimed_topic_has_its_subscribers() {
    let mut broker = BrokerState::new();
    let topic = string_to_topic("shard:1");
    send(&mut broker, &build_subscription(0x01, 5, &topic), 5);
    send(&mut broker, &build_subscription(0x01, 6, &topic), 6);
    send(&mut broker, &build_subscription(0x02, 6, &topic), 6);
    send(&mut broker, &build_claim(&topic), 7001);
    let route = &broker.routes.entries[0].route;
    assert_eq!(route.authority_shard, peer(7001));
    assert_eq!(route.clients.iter().copied().collect::<Vec<u32>>(), vec![5]);
}

#[test]
fn unsubscribing_undoes_subscribing() {
    let mut broker = busy();
    let topic = topic_for_shard(0);
    send(&mut broker, &build_subscription(0x02, 1, &topic), 1);
    assert_eq!(send(&mut broker, &build_publish(&topic, &[1]), 7001).len(), 1);
    assert!(send(&mut broker, &build_input(1, &[1]), 1).is_empty());
    // Once more changes nothing, and neither does a stranger.
    send(&mut broker, &build_subscription(0x02, 1, &topic), 1);
    send(&mut broker, &build_subscription(0x02, 77, &topic), 1);
    assert_eq!(send(&mut broker, &build_publish(&topic, &[1]), 7001).len(), 1);
}

#[test]
fn inputs_reach_every_authority_of_the_client() {
    let mut broker = busy();
    let other = string_to_topic("spatial_updates");
    send(&mut broker, &build_claim(&other), 9001);
    send(&mut broker, &build_subscription(0x01, 1, &other), 1);
    let input = build_input(1, b"go");
    assert_eq!(
        send(&mut broker, &input, 1),
        vec![(7001, input.clone()), (9001, input.clone())]
    );
    // Subscribing twice does not double them.
    send(&mut broker, &build_subscription(0x01, 1, &other), 1);
    assert_eq!(send(&mut broker, &input, 1).len(), 2);
}

#[test]
fn long_inputs_only_tell_where_the_client_is() {
    let mut broker = busy();
    assert_eq!(send(&mut broker, &build_input(1, &[0; 507]), 1).len(), 1);
    assert!(send(&mut broker, &build_input(1, &[0; 508]), 11).is_empty());
    let out = send(&mut broker, &build_publish(&topic_for_shard(0), &[1]), 7001);
    assert_eq!(out[1].0, 11);
}

#[test]
fn a_client_that_left_is_forgotten() {
    let mut broker = busy();
    let leave = build_client_message(0x07, 1);
    assert_eq!(send(&mut broker, &leave, 1), vec![(7001, leave.clone())]);
    assert!(send(&mut broker, &leave, 1).is_empty());
    let out = send(&mut broker, &build_publish(&topic_for_shard(0), &[1]), 7001);
    assert_eq!(out.len(), 1);
    assert!(send(&mut broker, &build_crossing(1, &vec![0]), 9001).is_empty());
}

#[test]
fn claimed_topics_are_routed() {
    let mut broker = BrokerState::new();
    let topic = string_to_topic("orchestrator_commands");
    assert!(send(&mut broker, &build_route(&topic, &[1, 2]), 5).is_empty());
    send(&mut broker, &build_claim(&topic), 8000);
    assert_eq!(send(&mut broker, &build_route(&topic, &[1, 2]), 5), vec![(8000, vec![1, 2])]);
    assert_eq!(send(&mut broker, &build_route(&topic, &[]), 5), vec![(8000, vec![])]);
    // Whoever claims the topic last is in charge.
    send(&mut broker, &build_claim(&topic), 8001);
    assert_eq!(send(&mut broker, &build_route(&topic, &[3]), 5), vec![(8001, vec![3])]);
}

#[test]
fn a_new_authority_keeps_the_listeners() {
    let mut broker = busy();
    let topic = topic_for_shard(0);
    send(&mut broker, &build_claim(&topic), 7002);
    assert!(send(&mut broker, &build_publish(&topic, &[1]), 7001).is_empty());
    assert_eq!(send(&mut broker, &build_publish(&topic, &[1]), 7002).len(), 2);
}

#[test]
fn ready_signals_go_to_the_spatial_server() {
    let mut broker = BrokerState::new();
    assert!(send(&mut broker, &build_ready(7), 7001).is_empty());
    send(&mut broker, &build_claim(&string_to_topic("spatial_updates")), 9001);
    assert_eq!(
        send(&mut broker, &build_ready(7), 7001),
        vec![(9001, vec![0x05, 0, 0, 0, 0, 0x14, 7, 0, 0, 0])]
    );
}

#[test]
fn alerts_and_changes_are_passed_on() {
    let mut broker = busy();
    let alert = build_crossing(1, &vec![0, 4]);
    assert_eq!(send(&mut broker, &alert, 9001), vec![(1, alert.clone())]);
    assert!(send(&mut broker, &build_crossing(3, &vec![0]), 9001).is_empty());
    send(&mut broker, &build_claim(&topic_for_shard(4)), 7004);
    let change = build_authority(1, 0, 4);
    assert_eq!(
        send(&mut broker, &change, 9001),
        vec![(1, change.clone()), (7001, change.clone()), (7004, change.clone())]
    );
    let elsewhere = build_authority(5, 8, 4);
    assert_eq!(send(&mut broker, &elsewhere, 9001), vec![(7004, elsewhere.clone())]);
}
