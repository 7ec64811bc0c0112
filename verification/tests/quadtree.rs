use shardworld::binary32::Binary32;
use shardworld::geometry::{rects_overlap, Rect, Vec2};
use shardworld::quadtree::QuadTree;
use std::collections::HashMap;

fn b(x: f32) -> Binary32 {
    Binary32::from_bits(x.to_bits())
}

fn f(x: Binary32) -> f32 {
    f32::from_bits(x.to_bits())
}

fn at(x: f32, y: f32) -> Vec2 {
    Vec2::new(b(x), b(y))
}

fn square(side: f32) -> Rect {
    Rect::from_center_size(at(0.0, 0.0), at(side, side))
}

fn corners(r: &Rect) -> [f32; 4] {
    [f(r.min.x), f(r.min.y), f(r.max.x), f(r.max.y)]
}

/// A tree of side 100 that is divided once, its leaves numbered from zero.
fn divided() -> QuadTree {
    let mut tree = QuadTree::new(square(100.0), 0, 3);
    tree.split();
    let mut next = 0;
    tree.assign_shards(&mut next);
    assert_eq!(next, 4);
    tree
}

#[test]
fn rectangles_agree_with_native_ones() {
    let samples = [-1000.0f32, -3.7, -0.1, 0.0, 0.1, 0.3, 2.5, 77.77, 1.0e7];
    for cx in samples {
        for cy in samples {
            for side in [0.0f32, 0.1, 0.7, 3.3, 1000.0, 1.0e8] {
                let ours = Rect::from_center_size(at(cx, cy), at(side, side / 3.0));
                let theirs = bevy::math::Rect::from_center_size(
                    bevy::math::Vec2::new(cx, cy),
                    bevy::math::Vec2::new(side, side / 3.0),
                );
                assert_eq!(
                    corners(&ours),
                    [theirs.min.x, theirs.min.y, theirs.max.x, theirs.max.y]
                );
                assert_eq!(f(ours.width()), theirs.width());
                assert_eq!(f(ours.height()), theirs.height());
                let center = ours.center();
                assert_eq!((f(center.x), f(center.y)), (theirs.center().x, theirs.center().y));
                for px in samples {
                    let point = bevy::math::Vec2::new(px, cy);
                    assert_eq!(ours.contains(at(px, cy)), theirs.contains(point));
                }
            }
        }
    }
}

#[test]
fn rectangles_that_touch_overlap() {
    let left = Rect { min: at(0.0, 0.0), max: at(1.0, 1.0) };
    let right = Rect { min: at(1.0, 1.0), max: at(2.0, 2.0) };
    let apart = Rect { min: at(1.5, 0.0), max: at(2.0, 0.5) };
    assert!(rects_overlap(left, right));
    assert!(rects_overlap(right, left));
    assert!(!rects_overlap(left, apart));
}

#[test]
fn split_makes_four_quadrants() {
    let mut tree = QuadTree::new(square(100.0), 0, 1);
    tree.shard_id = Some(7);
    tree.split();
    assert_eq!(tree.shard_id, Some(7));
    let children = tree.children.as_ref().unwrap();
    assert_eq!(corners(&children.nw.bounds), [-50.0, 0.0, 0.0, 50.0]);
    assert_eq!(corners(&children.ne.bounds), [0.0, 0.0, 50.0, 50.0]);
    assert_eq!(corners(&children.sw.bounds), [-50.0, -50.0, 0.0, 0.0]);
    assert_eq!(corners(&children.se.bounds), [0.0, -50.0, 50.0, 0.0]);
    assert_eq!((children.nw.depth, children.nw.max_depth), (1, 1));
    assert_eq!(children.nw.shard_id, None);
}

#[test]
fn split_stops_at_the_deepest_level_and_at_divided_nodes() {
    let mut deep = QuadTree::new(square(100.0), 2, 2);
    deep.split();
    assert!(deep.children.is_none());
    let mut tree = divided();
    tree.split();
    assert_eq!(tree.children.as_ref().unwrap().nw.shard_id, Some(0));
}

#[test]
fn leaves_are_numbered_in_order() {
    let tree = divided();
    let children = tree.children.as_ref().unwrap();
    assert_eq!(tree.shard_id, None);
    assert_eq!(children.nw.shard_id, Some(0));
    assert_eq!(children.ne.shard_id, Some(1));
    assert_eq!(children.sw.shard_id, Some(2));
    assert_eq!(children.se.shard_id, Some(3));
}

#[test]
fn positions_belong_to_shards() {
    let tree = divided();
    assert_eq!(tree.shard_for(at(-10.0, 10.0)), Some(0));
    assert_eq!(tree.shard_for(at(10.0, 10.0)), Some(1));
    assert_eq!(tree.shard_for(at(-10.0, -10.0)), Some(2));
    assert_eq!(tree.shard_for(at(10.0, -10.0)), Some(3));
    // A position on a border belongs to the first shard that holds it.
    assert_eq!(tree.shard_for(at(0.0, 0.0)), Some(0));
    assert_eq!(tree.shard_for(at(0.0, -10.0)), Some(2));
    assert_eq!(tree.shard_for(at(50.0, 50.0)), Some(1));
    assert_eq!(tree.shard_for(at(50.1, 0.0)), None);
    assert_eq!(tree.shard_for(at(f32::NAN, 0.0)), None);
}

#[test]
fn shards_near_a_position_are_ascending() {
    let tree = divided();
    assert_eq!(tree.shards_near(at(-20.0, 20.0), b(5.0)), vec![0]);
    assert_eq!(tree.shards_near(at(-3.0, 20.0), b(5.0)), vec![0, 1]);
    assert_eq!(tree.shards_near(at(-3.0, 3.0), b(5.0)), vec![0, 1, 2, 3]);
    assert_eq!(tree.shards_near(at(-5.0, 20.0), b(5.0)), vec![0, 1]);
    assert_eq!(tree.shards_near(at(-5.1, 20.0), b(5.0)), vec![0]);
    assert!(tree.shards_near(at(100.0, 100.0), b(5.0)).is_empty());
    assert!(tree.shards_near(at(f32::NAN, 0.0), b(5.0)).is_empty());
}

#[test]
fn shards_are_near_in_a_radius() {
    let mut tree = QuadTree::new(square(2000.0), 0, 4);
    tree.shard_id = Some(0);
    let mut next = 1;
    tree.split_leaf(0, &mut next);
    // The nearest point of shard 4 is the origin, about 56.6 away.
    assert_eq!(tree.shards_near(at(-40.0, 40.0), b(50.0)), vec![1, 2, 3]);
    assert_eq!(tree.shards_near(at(-40.0, 40.0), b(56.5)), vec![1, 2, 3]);
    assert_eq!(tree.shards_near(at(-40.0, 40.0), b(56.6)), vec![1, 2, 3, 4]);
    // 30, 40 and 50 make a right angle.
    assert_eq!(tree.shards_near(at(30.0, 40.0), b(50.0)), vec![1, 2, 3, 4]);
    assert_eq!(tree.shards_near(at(30.0, 40.0), b(49.9)), vec![1, 2, 4]);
    // Outside the world, too.
    assert_eq!(tree.shards_near(at(1003.0, 1004.0), b(5.0)), vec![2]);
    assert!(tree.shards_near(at(1004.0, 1004.0), b(5.0)).is_empty());
}

#[test]
fn nearness_is_not_rounded() {
    // 12013 * 12013 + 155 * 155 is two less than 12014 * 12014.
    let mut tree = QuadTree::new(Rect { min: at(0.0, 0.0), max: at(1000.0, 1000.0) }, 0, 4);
    tree.shard_id = Some(7);
    assert_eq!(tree.shards_near(at(-12013.0, -155.0), b(12014.0)), vec![7]);
    assert!(tree.shards_near(at(-12013.0, -156.0), b(12014.0)).is_empty());
    // Squares that are too small or too large for single precision.
    let tiny = Rect { min: at(1.0e-25, 0.0), max: at(1.0, 1.0) };
    assert!(!tiny.is_within(at(0.0, 0.0), b(1.0e-30)));
    assert!(tiny.is_within(at(0.0, 0.0), b(1.0e-25)));
    let far = Rect { min: at(3.0e30, 0.0), max: at(3.1e30, 1.0) };
    assert!(!far.is_within(at(0.0, 0.0), b(2.9e30)));
    assert!(far.is_within(at(0.0, 0.0), b(3.0e30)));
    assert!(far.is_within(at(-3.0e38, 3.0e38), b(f32::INFINITY)));
    assert!(!far.is_within(at(-3.4e38, 3.4e38), b(f32::MAX)));
    // A distance of 2^24 + 1.
    let edge = Rect { min: at(1.0, 0.0), max: at(2.0, 1.0) };
    assert!(!edge.is_within(at(-16777216.0, 0.0), b(16777216.0)));
    assert!(edge.is_within(at(-16777216.0, 0.0), b(16777218.0)));
    // The smallest numbers.
    let least = f32::from_bits(1);
    let next = Rect { min: at(least, least), max: at(1.0, 1.0) };
    assert!(!next.is_within(at(0.0, 0.0), b(least)));
    assert!(next.is_within(at(0.0, 0.0), b(f32::from_bits(2))));
}

#[test]
fn nearness_agrees_with_whole_numbers() {
    let r = Rect { min: at(-7.0, 3.0), max: at(11.0, 19.0) };
    for x in -30i64..40 {
        for y in -20i64..45 {
            let dx = (-7 - x).max(x - 11).max(0);
            let dy = (3 - y).max(y - 19).max(0);
            for m in [0i64, 1, 5, 13, 25] {
                assert_eq!(
                    r.is_within(at(x as f32, y as f32), b(m as f32)),
                    dx * dx + dy * dy <= m * m
                );
            }
        }
    }
}

#[test]
fn infinite_positions_are_near_what_holds_them() {
    let half = Rect { min: at(0.0, 0.0), max: at(f32::INFINITY, 10.0) };
    assert!(half.is_within(at(f32::INFINITY, 5.0), b(0.0)));
    assert!(half.is_within(at(f32::INFINITY, 12.0), b(2.0)));
    assert!(!half.is_within(at(f32::INFINITY, 12.5), b(2.0)));
    assert!(!half.is_within(at(f32::NEG_INFINITY, 5.0), b(f32::MAX)));
}

#[test]
fn a_larger_margin_finds_at_least_the_same_shards() {
    let mut tree = divided();
    let mut next = 4;
    tree.split_leaf(1, &mut next);
    for x in [-60.0f32, -25.5, 0.0, 12.5, 49.9] {
        for y in [-50.0f32, -0.3, 20.0, 33.3, 70.0] {
            let mut before = Vec::new();
            for margin in [0.0f32, 0.2, 5.0, 17.7, 30.0, 100.0, 1.0e30, f32::INFINITY] {
                let found = tree.shards_near(at(x, y), b(margin));
                assert!(before.iter().all(|id| found.contains(id)));
                before = found;
            }
            assert_eq!(before, vec![0, 2, 3, 4, 5, 6, 7]);
        }
    }
}

#[test]
fn distances_to_rectangles() {
    let r = Rect { min: at(0.0, 0.0), max: at(10.0, 20.0) };
    assert!(r.is_within(at(5.0, 5.0), b(0.0)));
    assert!(r.is_within(at(10.0, 20.0), b(0.0)));
    assert!(!r.is_within(at(10.5, 20.0), b(0.25)));
    assert!(r.is_within(at(13.0, 24.0), b(5.0)));
    assert!(!r.is_within(at(13.0, 24.5), b(5.0)));
    assert!(r.is_within(at(-3.0, -4.0), b(5.0)));
    assert!(!r.is_within(at(5.0, f32::NAN), b(f32::INFINITY)));
    let empty = Rect { min: at(1.0, 0.0), max: at(0.0, 1.0) };
    assert!(!empty.is_within(at(0.5, 0.5), b(100.0)));
}

#[test]
fn a_position_is_near_its_own_shard() {
    let tree = divided();
    for x in [-50.0f32, -25.5, 0.0, 0.1, 49.9] {
        for y in [-50.0f32, -0.3, 0.0, 33.3, 50.0] {
            let own = tree.shard_for(at(x, y)).unwrap();
            assert!(tree.shards_near(at(x, y), b(0.0)).contains(&own));
        }
    }
}

#[test]
fn a_leaf_is_split_by_its_number() {
    let mut tree = divided();
    let mut next = 4;
    assert_eq!(tree.split_leaf(1, &mut next), Some([4, 5, 6, 7]));
    assert_eq!(next, 8);
    assert_eq!(tree.shard_for(at(10.0, 10.0)), Some(6));
    assert_eq!(tree.shard_for(at(40.0, 40.0)), Some(5));
    // Other shards are as they were.
    assert_eq!(tree.shard_for(at(-10.0, 10.0)), Some(0));
    // The divided shard is no leaf any more, and nobody has the number 99.
    assert_eq!(tree.split_leaf(1, &mut next), None);
    assert_eq!(tree.split_leaf(99, &mut next), None);
    assert_eq!(next, 8);
}

#[test]
fn leaves_at_the_deepest_level_are_not_split() {
    let mut tree = QuadTree::new(square(100.0), 0, 1);
    tree.shard_id = Some(0);
    let mut next = 1;
    assert_eq!(tree.split_leaf(0, &mut next), Some([1, 2, 3, 4]));
    assert_eq!(tree.split_leaf(1, &mut next), None);
    assert_eq!(next, 5);
}

#[test]
fn a_merge_undoes_a_split() {
    let mut tree = QuadTree::new(square(100.0), 0, 2);
    tree.shard_id = Some(0);
    let mut next = 1;
    tree.split_leaf(0, &mut next);
    let mut populations = HashMap::new();
    populations.insert(1u32, 1usize);
    populations.insert(4u32, 1usize);
    assert_eq!(tree.try_merge(&populations, 1), None);
    populations.remove(&4);
    assert_eq!(tree.try_merge(&populations, 1), Some((0, [1, 2, 3, 4])));
    assert!(tree.children.is_none());
    assert_eq!(tree.shard_for(at(-10.0, 10.0)), Some(0));
    assert_eq!(tree.try_merge(&populations, 1), None);
}

#[test]
fn the_deepest_shards_merge_first() {
    let mut tree = QuadTree::new(square(100.0), 0, 3);
    tree.shard_id = Some(0);
    let mut next = 1;
    tree.split_leaf(0, &mut next);
    tree.split_leaf(3, &mut next);
    let empty = HashMap::new();
    assert_eq!(tree.try_merge(&empty, 1), Some((3, [5, 6, 7, 8])));
    assert_eq!(tree.try_merge(&empty, 1), Some((0, [1, 2, 3, 4])));
}

#[test]
fn a_merge_moves_only_its_own_positions() {
    let mut tree = QuadTree::new(square(100.0), 0, 3);
    tree.shard_id = Some(0);
    let mut next = 1;
    tree.split_leaf(0, &mut next);
    tree.split_leaf(2, &mut next);
    let before: Vec<Option<u32>> = (0..20)
        .map(|i| tree.shard_for(at(-49.0 + 5.0 * i as f32, 3.0 * i as f32 - 20.0)))
        .collect();
    assert_eq!(tree.try_merge(&HashMap::new(), 1), Some((2, [5, 6, 7, 8])));
    for (i, old) in before.iter().enumerate() {
        let now = tree.shard_for(at(-49.0 + 5.0 * i as f32, 3.0 * i as f32 - 20.0));
        match old {
            Some(id) if *id >= 5 => assert_eq!(now, Some(2)),
            other => assert_eq!(now, *other),
        }
    }
}

#[test]
fn crashed_leaves_collapse_into_their_parent() {
    let mut tree = QuadTree::new(square(100.0), 0, 3);
    tree.shard_id = Some(0);
    let mut next = 1;
    tree.split_leaf(0, &mut next);
    tree.split_leaf(3, &mut next);
    let crashed = vec![6];
    assert_eq!(tree.refuge_for(&crashed, 6), Some(3));
    assert_eq!(tree.refuge_for(&crashed, 5), Some(3));
    assert_eq!(tree.refuge_for(&crashed, 1), None);
    tree.collapse(&crashed);
    assert_eq!(tree.shard_for(at(-10.0, -10.0)), Some(3));
    assert_eq!(tree.shard_for(at(-10.0, 10.0)), Some(1));
    tree.collapse(&vec![4]);
    assert_eq!(tree.shard_for(at(10.0, -10.0)), Some(0));
}

#[test]
fn a_copy_of_a_tree_is_the_same_tree() {
    let tree = divided();
    let copy = tree.clone();
    for x in [-40.0f32, -1.0, 1.0, 40.0] {
        for y in [-40.0f32, -1.0, 1.0, 40.0] {
            assert_eq!(copy.shard_for(at(x, y)), tree.shard_for(at(x, y)));
        }
    }
}
