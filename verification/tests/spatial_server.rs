use shardworld::spatial_server::{read_event, SpatialServer};
use shardworld::wire::{
    build_authority, build_client_message, build_crossing, build_position, build_scale,
    build_subscription,
};
use shardworld::topics::topic_for_shard;

fn seen(server: &mut SpatialServer, client: u32, x: f32, y: f32) -> Vec<Vec<u8>> {
    server.handle_packet(&build_position(client, x.to_bits(), y.to_bits()))
}

fn ready(server: &mut SpatialServer, shard: u32) -> Vec<Vec<u8>> {
    let mut packet = build_client_message(0x05, 0);
    packet.push(0x14);
    packet.extend_from_slice(&shard.to_le_bytes());
    server.handle_packet(&packet)
}

/// A server whose root was divided by clients 101, 102 and 103 at (-250, 250).
fn divided() -> SpatialServer {
    let mut server = SpatialServer::new();
    for client in [101, 102, 103] {
        seen(&mut server, client, -250.0, 250.0);
    }
    server
}

#[test]
fn the_server_takes_charge_of_its_topic() {
    let message = SpatialServer::registration();
    assert_eq!(message.len(), 33);
    assert_eq!(message[0], 0x06);
    assert_eq!(&message[1..16], b"spatial_updates");
    assert!(message[16..].iter().all(|byte| *byte == 0));
}

#[test]
fn the_whole_world_is_shard_zero() {
    let mut server = SpatialServer::new();
    for (x, y) in [(0.0, 0.0), (-1000.0, -1000.0), (1000.0, 1000.0), (999.9, -0.1)] {
        let expected = if x == 0.0 {
            vec![build_subscription(0x01, 5, &topic_for_shard(0))]
        } else {
            vec![]
        };
        assert_eq!(seen(&mut server, 5, x, y), expected);
    }
    assert_eq!(server.service.client_primary_shard.get(&5), Some(&0));
    assert_eq!(server.service.next_shard_id, 1);
}

#[test]
fn packets_that_say_nothing_are_ignored() {
    let mut server = SpatialServer::new();
    let position = build_position(5, 0, 0);
    for len in 0..14 {
        assert!(server.handle_packet(&position[..len]).is_empty());
    }
    assert!(server.service.client_primary_shard.is_empty());
    assert!(server.handle_packet(&[0x05, 0, 0, 0, 0, 0x99, 1, 2, 3, 4]).is_empty());
    assert!(server.handle_packet(&[0x99; 20]).is_empty());
    assert!(server.handle_packet(&[0x07, 1, 0, 0]).is_empty());
}

#[test]
fn three_clients_make_the_server_ask_for_shards() {
    let mut server = SpatialServer::new();
    seen(&mut server, 101, -250.0, 250.0);
    seen(&mut server, 102, -250.0, 250.0);
    assert_eq!(
        seen(&mut server, 103, -250.0, 250.0),
        vec![
            build_subscription(0x01, 103, &topic_for_shard(0)),
            build_scale(0x13, 0, &vec![1, 2, 3, 4]),
        ]
    );
    for shard in 1..=4 {
        assert_eq!(server.pending_ready.get(&shard), Some(&0));
    }
    assert_eq!(server.parent_to_children.get(&0), Some(&vec![1, 2, 3, 4]));
}

#[test]
fn clients_pass_to_a_shard_once_it_is_ready() {
    let mut server = divided();
    assert!(seen(&mut server, 101, -250.0, 250.0).is_empty());
    assert!(ready(&mut server, 1).is_empty());
    assert_eq!(server.parent_to_children.get(&0), Some(&vec![2, 3, 4]));
    assert_eq!(
        seen(&mut server, 101, -250.0, 250.0),
        vec![
            build_authority(101, 0, 1),
            build_subscription(0x01, 101, &topic_for_shard(1)),
            build_subscription(0x02, 101, &topic_for_shard(0)),
        ]
    );
    for shard in 2..=4 {
        assert!(server.service.pending_splits.contains(&0));
        ready(&mut server, shard);
    }
    assert!(!server.service.pending_splits.contains(&0));
    assert!(server.pending_ready.is_empty());
    assert!(server.parent_to_children.is_empty());
    // A signal that nobody waits for changes nothing.
    assert!(ready(&mut server, 2).is_empty());
}

#[test]
fn departures_make_the_server_ask_for_a_merge() {
    let mut server = divided();
    for shard in 1..=4 {
        ready(&mut server, shard);
    }
    for client in [101, 102] {
        seen(&mut server, client, -250.0, 250.0);
    }
    assert!(server.handle_packet(&build_client_message(0x07, 103)).is_empty());
    assert_eq!(
        server.handle_packet(&build_client_message(0x07, 102)),
        vec![build_scale(0x15, 0, &vec![1, 2, 3, 4])]
    );
    assert_eq!(server.pending_ready.get(&0), Some(&0));
    assert_eq!(server.parent_to_children.get(&0), Some(&vec![0]));
    assert_eq!(
        seen(&mut server, 101, -250.0, 250.0)[0],
        build_authority(101, 1, 0)
    );
    ready(&mut server, 0);
    assert!(server.service.pending_merges.is_empty());
    assert!(server.pending_ready.is_empty());
}

#[test]
fn a_crash_hands_the_clients_over() {
    let mut server = divided();
    for shard in 1..=4 {
        ready(&mut server, shard);
    }
    for client in [101, 102] {
        seen(&mut server, client, -250.0, 250.0);
    }
    let mut packet = build_client_message(0x05, 0);
    packet.push(0x19);
    packet.extend_from_slice(&2u32.to_le_bytes());
    packet.extend_from_slice(&1u32.to_le_bytes());
    packet.extend_from_slice(&2u32.to_le_bytes());
    assert_eq!(
        server.handle_packet(&packet),
        vec![build_authority(101, 1, 0), build_authority(102, 1, 0)]
    );
    assert!(server.handle_packet(&packet[..9]).is_empty());
}

#[test]
fn a_client_near_a_border_is_alerted() {
    let mut server = divided();
    for shard in 1..=4 {
        ready(&mut server, shard);
    }
    seen(&mut server, 101, -250.0, 250.0);
    assert_eq!(
        seen(&mut server, 101, -40.0, 250.0),
        vec![
            build_subscription(0x01, 101, &topic_for_shard(2)),
            build_crossing(101, &vec![1, 2]),
        ]
    );
    // In the middle of the world four shards are near.
    let alert = seen(&mut server, 101, 0.0, 0.0).pop().unwrap();
    assert_eq!(alert, build_crossing(101, &vec![1, 2, 3, 4]));
}

#[test]
fn numbers_do_not_run_out_early() {
    let server = SpatialServer::new();
    let event = read_event(&build_position(103, 0, 0));
    assert!(server.can_number(&event));
    let mut late = SpatialServer::new();
    late.service.next_shard_id = u32::MAX - 3;
    // Only what divides a shard needs numbers.
    assert!(late.can_number(&event));
    for client in [101, 102] {
        seen(&mut late, client, 0.0, 0.0);
    }
    assert!(!late.can_number(&event));
    assert!(late.can_number(&read_event(&build_position(101, 0, 0))));
    assert!(late.can_number(&read_event(&build_client_message(0x07, 101))));
    late.service.next_shard_id = u32::MAX - 4;
    assert!(late.can_number(&event));
    assert_eq!(seen(&mut late, 103, 0.0, 0.0).len(), 2);
    assert_eq!(late.service.next_shard_id, u32::MAX);
}

#[test]
fn ready_signals_in_any_order_end_the_division() {
    for order in [[4u32, 2, 3, 1], [1, 3, 2, 4], [2, 1, 4, 3]] {
        let mut server = divided();
        for (i, shard) in order.iter().enumerate() {
            assert!(server.service.pending_splits.contains(&0));
            ready(&mut server, *shard);
            // Saying it twice changes nothing.
            ready(&mut server, *shard);
            assert_eq!(server.pending_ready.len(), 3 - i);
        }
        assert!(!server.service.pending_splits.contains(&0));
        assert!(server.parent_to_children.is_empty());
    }
}

#[test]
fn the_world_is_covered_at_every_depth() {
    let mut server = SpatialServer::new();
    let point = |i: u32| -1000.0 + 2000.0 * (i as f32) / 40.0;
    for _ in 0..6 {
        // Clients in one place divide their shard again and again.
        for client in 1..=3 {
            seen(&mut server, client, 1.0, 1.0);
        }
        let waiting: Vec<u32> = server.pending_ready.keys().copied().collect();
        for shard in waiting {
            ready(&mut server, shard);
        }
        for i in 0..=40 {
            for j in 0..=40 {
                seen(&mut server, 99, point(i), point(j));
                let shard = server.service.client_primary_shard[&99];
                assert!(shard < server.service.next_shard_id);
                assert!(server.service.client_subscribed_shards[&99].contains(&shard));
            }
        }
    }
    // The world is divided four times, as deep as it goes.
    assert_eq!(server.service.next_shard_id, 17);
}

#[test]
fn one_client_does_not_move_the_others() {
    let mut server = divided();
    for shard in 1..=4 {
        ready(&mut server, shard);
    }
    seen(&mut server, 102, 300.0, -300.0);
    let primary = server.service.client_primary_shard[&102];
    let near = server.service.client_subscribed_shards[&102].clone();
    for step in 0..20 {
        seen(&mut server, 101, -500.0 + 50.0 * step as f32, 100.0);
        assert_eq!(server.service.client_primary_shard[&102], primary);
        assert_eq!(server.service.client_subscribed_shards[&102], near);
    }
}
