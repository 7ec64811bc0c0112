use shardworld::binary32::Binary32;
use shardworld::geometry::{Rect, Vec2};
use shardworld::quadtree::QuadTree;
use shardworld::spatial::{PositionUpdate, SpatialAction, SpatialService};
use shardworld::topics::topic_for_shard;
use std::collections::HashMap;

fn b(x: f32) -> Binary32 {
    Binary32::from_bits(x.to_bits())
}

fn seen(client_id: u32, x: f32, y: f32) -> PositionUpdate {
    PositionUpdate { client_id, x: b(x), y: b(y) }
}

/// A service for a square of side 2000 with a margin of 50, whose only shard is 0.
fn service(max_depth: u8) -> SpatialService {
    let bounds = Rect::from_center_size(
        Vec2::new(b(0.0), b(0.0)),
        Vec2::new(b(2000.0), b(2000.0)),
    );
    let mut tree = QuadTree::new(bounds, 0, max_depth);
    let mut next = 0;
    tree.assign_shards(&mut next);
    SpatialService::new(tree, b(50.0), next)
}

fn nobody() -> HashMap<u32, u32> {
    HashMap::new()
}

#[test]
fn a_new_client_subscribes_to_its_shard() {
    let mut service = service(4);
    let actions = service.handle_position_update(&seen(7, 0.0, 0.0), &nobody());
    assert_eq!(
        actions,
        vec![SpatialAction::Subscribe { client_id: 7, topic: topic_for_shard(0) }]
    );
    assert_eq!(service.client_primary_shard.get(&7), Some(&0));
    assert_eq!(service.client_subscribed_shards.get(&7), Some(&vec![0]));
    // Nothing more is asked for when it moves inside the shard.
    assert!(service.handle_position_update(&seen(7, 5.0, 5.0), &nobody()).is_empty());
}

#[test]
fn a_client_outside_the_world_has_no_shard() {
    let mut service = service(4);
    service.handle_position_update(&seen(7, 0.0, 0.0), &nobody());
    let actions = service.handle_position_update(&seen(7, 5000.0, 0.0), &nobody());
    assert_eq!(
        actions,
        vec![SpatialAction::Unsubscribe { client_id: 7, topic: topic_for_shard(0) }]
    );
    assert_eq!(service.client_primary_shard.get(&7), Some(&0));
    assert_eq!(service.client_subscribed_shards.get(&7), Some(&vec![]));
    assert!(service.handle_position_update(&seen(8, f32::NAN, 0.0), &nobody()).is_empty());
    assert_eq!(service.client_primary_shard.get(&8), None);
}

#[test]
fn a_division_is_foreseen() {
    let mut service = service(1);
    for client in 1..=2 {
        assert!(!service.will_divide(&seen(client, -250.0, 250.0), &nobody()));
        service.handle_position_update(&seen(client, -250.0, 250.0), &nobody());
    }
    assert!(!service.will_divide(&seen(1, -250.0, 250.0), &nobody()));
    assert!(!service.will_divide(&seen(3, 5000.0, 250.0), &nobody()));
    assert!(service.will_divide(&seen(3, -250.0, 250.0), &nobody()));
    service.handle_position_update(&seen(3, -250.0, 250.0), &nobody());
    assert!(service.quadtree.children.is_some());
    // The new shards lie at the deepest level.
    for client in 1..=3 {
        assert!(!service.will_divide(&seen(client, -250.0, 250.0), &nobody()));
        service.handle_position_update(&seen(client, -250.0, 250.0), &nobody());
    }
    assert_eq!(service.next_shard_id, 5);
}

#[test]
fn the_third_client_divides_the_shard() {
    let mut service = service(4);
    for client in 1..=2 {
        let actions = service.handle_position_update(&seen(client, -250.0, 250.0), &nobody());
        assert_eq!(actions.len(), 1);
    }
    let actions = service.handle_position_update(&seen(3, -250.0, 250.0), &nobody());
    assert_eq!(
        actions,
        vec![
            SpatialAction::Subscribe { client_id: 3, topic: topic_for_shard(0) },
            SpatialAction::ScaleUp { parent_shard: 0, new_shards: vec![1, 2, 3, 4] },
        ]
    );
    assert!(service.pending_splits.contains(&0));
    assert_eq!(service.next_shard_id, 5);
}

#[test]
fn a_shard_that_cannot_be_divided_stays() {
    let mut service = service(0);
    for client in 1..=4 {
        let actions = service.handle_position_update(&seen(client, 0.0, 0.0), &nobody());
        assert_eq!(actions.len(), 1);
    }
    assert!(service.pending_splits.contains(&0));
    assert_eq!(service.next_shard_id, 1);
}

#[test]
fn the_parent_stands_in_for_shards_that_are_not_ready() {
    let mut service = service(4);
    for client in 1..=3 {
        service.handle_position_update(&seen(client, -250.0, 250.0), &nobody());
    }
    let mut waiting = HashMap::new();
    for shard in 1..=4 {
        waiting.insert(shard, 0);
    }
    assert!(service.handle_position_update(&seen(1, -250.0, 250.0), &waiting).is_empty());
    waiting.remove(&1);
    let actions = service.handle_position_update(&seen(1, -250.0, 250.0), &waiting);
    assert_eq!(
        actions,
        vec![
            SpatialAction::AuthorityChange { client_id: 1, old_shard: 0, new_shard: 1 },
            SpatialAction::Subscribe { client_id: 1, topic: topic_for_shard(1) },
            SpatialAction::Unsubscribe { client_id: 1, topic: topic_for_shard(0) },
        ]
    );
    // Near a shard that is not ready, the client listens to the one that stands in for it.
    let actions = service.handle_position_update(&seen(1, -40.0, 250.0), &waiting);
    assert_eq!(
        actions,
        vec![
            SpatialAction::Subscribe { client_id: 1, topic: topic_for_shard(0) },
            SpatialAction::CrossingAlert { client_id: 1, shards: vec![0, 1] },
        ]
    );
}

#[test]
fn crossing_a_border_changes_the_authority() {
    let mut service = service(4);
    for client in 1..=3 {
        service.handle_position_update(&seen(client, -250.0, 250.0), &nobody());
    }
    service.handle_position_update(&seen(1, -250.0, 250.0), &nobody());
    let near = service.handle_position_update(&seen(1, -40.0, 250.0), &nobody());
    assert_eq!(
        near,
        vec![
            SpatialAction::Subscribe { client_id: 1, topic: topic_for_shard(2) },
            SpatialAction::CrossingAlert { client_id: 1, shards: vec![1, 2] },
        ]
    );
    let over = service.handle_position_update(&seen(1, 10.0, 250.0), &nobody());
    assert_eq!(
        over,
        vec![
            SpatialAction::AuthorityChange { client_id: 1, old_shard: 1, new_shard: 2 },
            SpatialAction::CrossingAlert { client_id: 1, shards: vec![1, 2] },
        ]
    );
    let back = service.handle_position_update(&seen(1, -10.0, 250.0), &nobody());
    assert_eq!(
        back[0],
        SpatialAction::AuthorityChange { client_id: 1, old_shard: 2, new_shard: 1 }
    );
    // Other clients are where they were.
    assert_eq!(service.client_primary_shard.get(&2), Some(&0));
    assert_eq!(service.client_subscribed_shards.get(&2), Some(&vec![0]));
}

#[test]
fn crowded_shards_are_divided_again() {
    let mut service = service(4);
    for _ in 0..2 {
        for client in 1..=3 {
            service.handle_position_update(&seen(client, -250.0, 250.0), &nobody());
        }
    }
    assert!(service.pending_splits.contains(&1));
    assert_eq!(service.next_shard_id, 9);
}

#[test]
fn few_clients_let_shards_merge() {
    let mut service = service(4);
    for client in 1..=3 {
        service.handle_position_update(&seen(client, -250.0, 250.0), &nobody());
    }
    for client in 1..=2 {
        service.handle_position_update(&seen(client, -250.0, 250.0), &nobody());
    }
    assert!(service.check_merges().is_empty());
    service.remove_client(3);
    assert!(service.check_merges().is_empty());
    service.remove_client(2);
    assert_eq!(
        service.check_merges(),
        vec![SpatialAction::ScaleDown { parent_shard: 0, old_shards: vec![1, 2, 3, 4] }]
    );
    assert!(service.pending_merges.contains(&0));
    let actions = service.handle_position_update(&seen(1, -250.0, 250.0), &nobody());
    assert_eq!(
        actions[0],
        SpatialAction::AuthorityChange { client_id: 1, old_shard: 1, new_shard: 0 }
    );
}

#[test]
fn clients_of_crashed_shards_are_taken_over() {
    let mut service = service(4);
    for client in 1..=3 {
        service.handle_position_update(&seen(client, -250.0, 250.0), &nobody());
    }
    service.handle_position_update(&seen(3, 250.0, 250.0), &nobody());
    service.handle_position_update(&seen(2, -250.0, 250.0), &nobody());
    service.handle_position_update(&seen(1, -250.0, 250.0), &nobody());
    let actions = service.handle_server_crash(&vec![1, 77]);
    assert_eq!(
        actions,
        vec![
            SpatialAction::AuthorityChange { client_id: 1, old_shard: 1, new_shard: 0 },
            SpatialAction::AuthorityChange { client_id: 2, old_shard: 1, new_shard: 0 },
        ]
    );
    assert_eq!(service.client_primary_shard.get(&1), Some(&0));
    assert_eq!(service.client_primary_shard.get(&3), Some(&2));
    assert!(service.quadtree.children.is_none());
    assert!(service.handle_server_crash(&vec![0]).is_empty());
}
