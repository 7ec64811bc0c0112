//! The quadtree that divides the world into shards.
//!
//! A leaf is a shard, known by its number. A node keeps the number it had as a leaf, so
//! that merging its quadrants again brings the old shard back.

use crate::binary32::Binary32;
use crate::geometry::{at_least_zero, Rect, Vec2};
use crate::sorted::{ascending, contains, in_order, sort_distinct};
use std::collections::HashMap;
use vstd::prelude::*;

verus! {

broadcast use vstd::std_specs::hash::group_hash_axioms;

/// The four quadrants of a divided node, in the order in which they are searched.
#[derive(Debug)]
pub struct Quadrants {
    pub nw: QuadTree,
    pub ne: QuadTree,
    pub sw: QuadTree,
    pub se: QuadTree,
}

#[derive(Debug)]
pub struct QuadTree {
    pub bounds: Rect,
    pub depth: u8,
    pub max_depth: u8,
    pub children: Option<Box<Quadrants>>,
    pub shard_id: Option<u32>,
}

/// Whether a margin is a number that is at least zero.
pub open spec fn is_margin(margin: Binary32) -> bool {
    at_least_zero(margin)
}

/// How many clients a population count holds for a shard.
pub open spec fn population_of(populations: Map<u32, usize>, shard: u32) -> nat {
    if populations.contains_key(shard) {
        populations[shard] as nat
    } else {
        0
    }
}

impl Quadrants {
    pub open spec fn all_leaves(self) -> bool {
        self.nw.is_leaf() && self.ne.is_leaf() && self.sw.is_leaf() && self.se.is_leaf()
    }

    pub open spec fn all_numbered(self) -> bool {
        &&& self.nw.shard_id is Some
        &&& self.ne.shard_id is Some
        &&& self.sw.shard_id is Some
        &&& self.se.shard_id is Some
    }

    /// The numbers of the four quadrants.
    pub open spec fn numbers(self) -> Seq<u32> {
        seq![
            self.nw.shard_id->0,
            self.ne.shard_id->0,
            self.sw.shard_id->0,
            self.se.shard_id->0,
        ]
    }

    pub open spec fn population(self, populations: Map<u32, usize>) -> nat {
        population_of(populations, self.nw.shard_id->0) + population_of(
            populations,
            self.ne.shard_id->0,
        ) + population_of(populations, self.sw.shard_id->0) + population_of(
            populations,
            self.se.shard_id->0,
        )
    }
}

impl QuadTree {
    pub open spec fn is_leaf(self) -> bool {
        self.children is None
    }

    /// How many more times the node's area may be divided.
    pub open spec fn levels(self) -> nat {
        if self.depth < self.max_depth {
            (self.max_depth - self.depth) as nat
        } else {
            0
        }
    }

    pub open spec fn leaf(bounds: Rect, depth: u8, max_depth: u8, shard_id: Option<u32>) -> QuadTree {
        QuadTree { bounds, depth, max_depth, children: None, shard_id }
    }

    /// The area of every node can be divided down to the deepest level.
    pub open spec fn divisible(self) -> bool
        decreases self,
    {
        &&& self.bounds.divisible_to(self.levels())
        &&& match self.children {
            None => true,
            Some(c) => {
                &&& c.nw.divisible()
                &&& c.ne.divisible()
                &&& c.sw.divisible()
                &&& c.se.divisible()
            },
        }
    }

    /// The quadrants of a node with a number all have one.
    pub open spec fn families_numbered(self) -> bool
        decreases self,
    {
        match self.children {
            None => true,
            Some(c) => {
                &&& self.shard_id is Some ==> c.all_numbered()
                &&& c.nw.families_numbered()
                &&& c.ne.families_numbered()
                &&& c.sw.families_numbered()
                &&& c.se.families_numbered()
            },
        }
    }

    /// Whether the node is a leaf that may still be divided.
    pub open spec fn can_split(self) -> bool {
        self.depth < self.max_depth && self.is_leaf()
    }

    /// The node divided into four quadrants with the given numbers.
    pub open spec fn divided(
        self,
        nw: Option<u32>,
        ne: Option<u32>,
        sw: Option<u32>,
        se: Option<u32>,
    ) -> QuadTree {
        let depth = (self.depth + 1) as u8;
        QuadTree {
            children: Some(
                Box::new(
                    Quadrants {
                        nw: QuadTree::leaf(self.bounds.north_west(), depth, self.max_depth, nw),
                        ne: QuadTree::leaf(self.bounds.north_east(), depth, self.max_depth, ne),
                        sw: QuadTree::leaf(self.bounds.south_west(), depth, self.max_depth, sw),
                        se: QuadTree::leaf(self.bounds.south_east(), depth, self.max_depth, se),
                    },
                ),
            ),
            ..self
        }
    }

    /// The tree with the leaves numbered upwards from `next`, in search order.
    pub open spec fn numbered_from(self, next: int) -> QuadTree
        decreases self,
    {
        match self.children {
            None => QuadTree { shard_id: Some(next as u32), ..self },
            Some(c) => {
                let after_nw = next + c.nw.leaf_count();
                let after_ne = after_nw + c.ne.leaf_count();
                let after_sw = after_ne + c.sw.leaf_count();
                QuadTree {
                    children: Some(
                        Box::new(
                            Quadrants {
                                nw: c.nw.numbered_from(next),
                                ne: c.ne.numbered_from(after_nw),
                                sw: c.sw.numbered_from(after_ne),
                                se: c.se.numbered_from(after_sw),
                            },
                        ),
                    ),
                    ..self
                }
            },
        }
    }

    pub open spec fn leaf_count(self) -> nat
        decreases self,
    {
        match self.children {
            None => 1,
            Some(c) => c.nw.leaf_count() + c.ne.leaf_count() + c.sw.leaf_count()
                + c.se.leaf_count(),
        }
    }

    /// The first leaf with the number `target` that may still be divided.
    pub open spec fn leaf_to_split(self, target: u32) -> Option<QuadTree>
        decreases self,
    {
        match self.children {
            None => if self.shard_id == Some(target) && self.depth < self.max_depth {
                Some(self)
            } else {
                None
            },
            Some(c) => if c.nw.leaf_to_split(target) is Some {
                c.nw.leaf_to_split(target)
            } else if c.ne.leaf_to_split(target) is Some {
                c.ne.leaf_to_split(target)
            } else if c.sw.leaf_to_split(target) is Some {
                c.sw.leaf_to_split(target)
            } else {
                c.se.leaf_to_split(target)
            },
        }
    }

    /// The tree with that leaf divided into shards numbered upwards from `next`.
    pub open spec fn with_leaf_split(self, target: u32, next: int) -> QuadTree
        decreases self,
    {
        match self.children {
            None => if self.leaf_to_split(target) is Some {
                self.divided(
                    Some(next as u32),
                    Some((next + 1) as u32),
                    Some((next + 2) as u32),
                    Some((next + 3) as u32),
                )
            } else {
                self
            },
            Some(c) => {
                let quadrants = if c.nw.leaf_to_split(target) is Some {
                    Quadrants { nw: c.nw.with_leaf_split(target, next), ..*c }
                } else if c.ne.leaf_to_split(target) is Some {
                    Quadrants { ne: c.ne.with_leaf_split(target, next), ..*c }
                } else if c.sw.leaf_to_split(target) is Some {
                    Quadrants { sw: c.sw.with_leaf_split(target, next), ..*c }
                } else {
                    Quadrants { se: c.se.with_leaf_split(target, next), ..*c }
                };
                QuadTree { children: Some(Box::new(quadrants)), ..self }
            },
        }
    }

    /// The number of the first leaf that holds `pos`, as do all nodes above it.
    pub open spec fn shard_at(self, pos: Vec2) -> Option<u32>
        decreases self,
    {
        if !self.bounds.holds(pos) {
            None
        } else {
            match self.children {
                None => self.shard_id,
                Some(c) => if c.nw.shard_at(pos) is Some {
                    c.nw.shard_at(pos)
                } else if c.ne.shard_at(pos) is Some {
                    c.ne.shard_at(pos)
                } else if c.sw.shard_at(pos) is Some {
                    c.sw.shard_at(pos)
                } else {
                    c.se.shard_at(pos)
                },
            }
        }
    }

    /// The numbers of the leaves whose area comes within `margin` of `pos`.
    pub open spec fn shards_within(self, pos: Vec2, margin: Binary32) -> Set<u32>
        decreases self,
    {
        match self.children {
            None => match self.shard_id {
                Some(id) => if self.bounds.within(pos, margin) {
                    set![id]
                } else {
                    Set::empty()
                },
                None => Set::empty(),
            },
            Some(c) => c.nw.shards_within(pos, margin) + c.ne.shards_within(pos, margin)
                + c.sw.shards_within(pos, margin) + c.se.shards_within(pos, margin),
        }
    }

    /// The tree after the first possible merge, the number of the merged node, and those of
    /// its quadrants. A node merges when it has a number, its quadrants are leaves, and they
    /// hold at most `max_pop` clients together; a merge deeper in the tree comes first.
    pub open spec fn merge_result(self, populations: Map<u32, usize>, max_pop: nat) -> Option<
        (QuadTree, u32, Seq<u32>),
    >
        decreases self,
    {
        match self.children {
            None => None,
            Some(c) => {
                let nw = c.nw.merge_result(populations, max_pop);
                let ne = c.ne.merge_result(populations, max_pop);
                let sw = c.sw.merge_result(populations, max_pop);
                let se = c.se.merge_result(populations, max_pop);
                if nw is Some {
                    let tree = Quadrants { nw: (nw->0).0, ..*c };
                    Some((QuadTree { children: Some(Box::new(tree)), ..self }, (nw->0).1, (nw->0).2))
                } else if ne is Some {
                    let tree = Quadrants { ne: (ne->0).0, ..*c };
                    Some((QuadTree { children: Some(Box::new(tree)), ..self }, (ne->0).1, (ne->0).2))
                } else if sw is Some {
                    let tree = Quadrants { sw: (sw->0).0, ..*c };
                    Some((QuadTree { children: Some(Box::new(tree)), ..self }, (sw->0).1, (sw->0).2))
                } else if se is Some {
                    let tree = Quadrants { se: (se->0).0, ..*c };
                    Some((QuadTree { children: Some(Box::new(tree)), ..self }, (se->0).1, (se->0).2))
                } else if self.shard_id is Some && c.all_leaves() && c.population(populations)
                    <= max_pop {
                    Some((QuadTree { children: None, ..self }, self.shard_id->0, c.numbers()))
                } else {
                    None
                }
            },
        }
    }

    /// The search for a merge meets no leaf without a number where it needs one.
    pub open spec fn merge_defined(self, populations: Map<u32, usize>, max_pop: nat) -> bool
        decreases self,
    {
        match self.children {
            None => true,
            Some(c) => {
                &&& c.nw.merge_defined(populations, max_pop)
                &&& c.nw.merge_result(populations, max_pop) is None ==> {
                    &&& c.ne.merge_defined(populations, max_pop)
                    &&& c.ne.merge_result(populations, max_pop) is None ==> {
                        &&& c.sw.merge_defined(populations, max_pop)
                        &&& c.sw.merge_result(populations, max_pop) is None ==> {
                            &&& c.se.merge_defined(populations, max_pop)
                            &&& c.se.merge_result(populations, max_pop) is None
                                && self.shard_id is Some && c.all_leaves() ==> c.all_numbered()
                        }
                    }
                }
            },
        }
    }

    /// Whether the node is a leaf with one of the given numbers.
    pub open spec fn is_lost(self, crashed: Seq<u32>) -> bool {
        self.is_leaf() && (self.shard_id matches Some(id) && crashed.contains(id))
    }

    /// Whether the node takes the place of its quadrants: it has a number, and one of them is
    /// a crashed leaf.
    pub open spec fn collapses(self, crashed: Seq<u32>) -> bool {
        &&& self.shard_id is Some
        &&& self.children matches Some(c) && (c.nw.is_lost(crashed) || c.ne.is_lost(crashed)
            || c.sw.is_lost(crashed) || c.se.is_lost(crashed))
    }

    /// The tree in which every such node, from the root down, has become a leaf.
    pub open spec fn collapsed(self, crashed: Seq<u32>) -> QuadTree
        decreases self,
    {
        match self.children {
            None => self,
            Some(c) => if self.collapses(crashed) {
                QuadTree { children: None, ..self }
            } else {
                QuadTree {
                    children: Some(
                        Box::new(
                            Quadrants {
                                nw: c.nw.collapsed(crashed),
                                ne: c.ne.collapsed(crashed),
                                sw: c.sw.collapsed(crashed),
                                se: c.se.collapsed(crashed),
                            },
                        ),
                    ),
                    ..self
                }
            },
        }
    }

    /// Whether a leaf has the number `shard`.
    pub open spec fn has_leaf(self, shard: u32) -> bool
        decreases self,
    {
        match self.children {
            None => self.shard_id == Some(shard),
            Some(c) => c.nw.has_leaf(shard) || c.ne.has_leaf(shard) || c.sw.has_leaf(shard)
                || c.se.has_leaf(shard),
        }
    }

    /// The number of the collapsing node above the leaf `shard`.
    pub open spec fn refuge(self, crashed: Seq<u32>, shard: u32) -> Option<u32>
        decreases self,
    {
        match self.children {
            None => None,
            Some(c) => if self.collapses(crashed) {
                if self.has_leaf(shard) {
                    self.shard_id
                } else {
                    None
                }
            } else if c.nw.refuge(crashed, shard) is Some {
                c.nw.refuge(crashed, shard)
            } else if c.ne.refuge(crashed, shard) is Some {
                c.ne.refuge(crashed, shard)
            } else if c.sw.refuge(crashed, shard) is Some {
                c.sw.refuge(crashed, shard)
            } else {
                c.se.refuge(crashed, shard)
            },
        }
    }

    pub fn new(bounds: Rect, depth: u8, max_depth: u8) -> (r: QuadTree)
        ensures
            r == QuadTree::leaf(bounds, depth, max_depth, None),
    {
        QuadTree { bounds, depth, max_depth, children: None, shard_id: None }
    }

    /// Divides this node into four quadrants without numbers, unless it is divided already or
    /// lies at the deepest level. The node keeps its own number.
    pub fn split(&mut self)
        requires
            old(self).can_split() ==> old(self).bounds.divisible(),
        ensures
            *final(self) == (if old(self).can_split() {
                old(self).divided(None, None, None, None)
            } else {
                *old(self)
            }),
    {
        if self.depth >= self.max_depth || self.children.is_some() {
            return;
        }
        let half_w: Binary32 = self.bounds.width().half();
        let half_h: Binary32 = self.bounds.height().half();
        let center: Vec2 = self.bounds.center();
        let size: Vec2 = Vec2::new(half_w, half_h);
        let west: Binary32 = center.x.minus(half_w.half());
        let east: Binary32 = center.x.plus(half_w.half());
        let north: Binary32 = center.y.plus(half_h.half());
        let south: Binary32 = center.y.minus(half_h.half());
        let nw_bounds: Rect = Rect::from_center_size(Vec2::new(west, north), size);
        let ne_bounds: Rect = Rect::from_center_size(Vec2::new(east, north), size);
        let sw_bounds: Rect = Rect::from_center_size(Vec2::new(west, south), size);
        let se_bounds: Rect = Rect::from_center_size(Vec2::new(east, south), size);
        let next_depth: u8 = self.depth + 1;
        self.children = Some(
            Box::new(
                Quadrants {
                    nw: QuadTree::new(nw_bounds, next_depth, self.max_depth),
                    ne: QuadTree::new(ne_bounds, next_depth, self.max_depth),
                    sw: QuadTree::new(sw_bounds, next_depth, self.max_depth),
                    se: QuadTree::new(se_bounds, next_depth, self.max_depth),
                },
            ),
        );
    }

    /// Numbers the leaves upwards from `next_id`, in search order.
    pub fn assign_shards(&mut self, next_id: &mut u32)
        requires
            *old(next_id) + old(self).leaf_count() <= u32::MAX,
        ensures
            *final(self) == old(self).numbered_from(*old(next_id) as int),
            *final(next_id) == *old(next_id) + old(self).leaf_count(),
        decreases *old(self),
    {
        if let Some(children) = &mut self.children {
            children.nw.assign_shards(next_id);
            children.ne.assign_shards(next_id);
            children.sw.assign_shards(next_id);
            children.se.assign_shards(next_id);
        } else {
            self.shard_id = Some(*next_id);
            *next_id = *next_id + 1;
        }
    }

    /// Divides the leaf `target_shard_id` into four new shards and returns their numbers.
    pub fn split_leaf(&mut self, target_shard_id: u32, next_id: &mut u32) -> (r: Option<[u32; 4]>)
        requires
            old(self).leaf_to_split(target_shard_id) matches Some(leaf) ==> leaf.bounds.divisible()
                && *old(next_id) + 4 <= u32::MAX,
        ensures
            r is Some <==> old(self).leaf_to_split(target_shard_id) is Some,
            r matches Some(ids) ==> {
                &&& ids@ == seq![
                    *old(next_id),
                    (*old(next_id) + 1) as u32,
                    (*old(next_id) + 2) as u32,
                    (*old(next_id) + 3) as u32,
                ]
                &&& *final(next_id) == *old(next_id) + 4
                &&& *final(self) == old(self).with_leaf_split(
                    target_shard_id,
                    *old(next_id) as int,
                )
            },
            r is None ==> *final(self) == *old(self) && *final(next_id) == *old(next_id),
        decreases *old(self),
    {
        if let Some(children) = &mut self.children {
            if let Some(new_ids) = children.nw.split_leaf(target_shard_id, next_id) {
                return Some(new_ids);
            }
            if let Some(new_ids) = children.ne.split_leaf(target_shard_id, next_id) {
                return Some(new_ids);
            }
            if let Some(new_ids) = children.sw.split_leaf(target_shard_id, next_id) {
                return Some(new_ids);
            }
            if let Some(new_ids) = children.se.split_leaf(target_shard_id, next_id) {
                return Some(new_ids);
            }
            None
        } else if self.shard_id == Some(target_shard_id) {
            self.split();
            if let Some(children) = &mut self.children {
                let first: u32 = *next_id;
                children.nw.shard_id = Some(first);
                children.ne.shard_id = Some(first + 1);
                children.sw.shard_id = Some(first + 2);
                children.se.shard_id = Some(first + 3);
                *next_id = first + 4;
                Some([first, first + 1, first + 2, first + 3])
            } else {
                None
            }
        } else {
            None
        }
    }
}

impl QuadTree {
    /// Whether a leaf with the number `target` may still be divided.
    pub fn has_leaf_to_split(&self, target: u32) -> (r: bool)
        ensures
            r == (self.leaf_to_split(target) is Some),
        decreases self,
    {
        match &self.children {
            None => self.shard_id == Some(target) && self.depth < self.max_depth,
            Some(c) => c.nw.has_leaf_to_split(target) || c.ne.has_leaf_to_split(target)
                || c.sw.has_leaf_to_split(target) || c.se.has_leaf_to_split(target),
        }
    }

    /// The number of the leaf that holds `pos`.
    pub fn shard_for(&self, pos: Vec2) -> (r: Option<u32>)
        ensures
            r == self.shard_at(pos),
        decreases self,
    {
        if !self.bounds.contains(pos) {
            return None;
        }
        match &self.children {
            Some(children) => {
                if let Some(id) = children.nw.shard_for(pos) {
                    return Some(id);
                }
                if let Some(id) = children.ne.shard_for(pos) {
                    return Some(id);
                }
                if let Some(id) = children.sw.shard_for(pos) {
                    return Some(id);
                }
                children.se.shard_for(pos)
            },
            None => self.shard_id,
        }
    }

    /// The distinct numbers of the leaves in a radius `margin` around `pos`, ascending.
    pub fn shards_near(&self, pos: Vec2, margin: Binary32) -> (r: Vec<u32>)
        requires
            is_margin(margin),
        ensures
            ascending(r@),
            r@.to_set() == self.shards_within(pos, margin),
            r@ == in_order(self.shards_within(pos, margin)),
    {
        let mut result: Vec<u32> = Vec::new();
        self.shards_near_impl(pos, margin, &mut result);
        proof {
            assert(Seq::<u32>::empty().to_set() =~= Set::<u32>::empty());
            assert(result@.to_set() =~= self.shards_within(pos, margin));
        }
        sort_distinct(&result)
    }

    fn shards_near_impl(&self, pos: Vec2, margin: Binary32, result: &mut Vec<u32>)
        requires
            is_margin(margin),
        ensures
            final(result)@.to_set() == old(result)@.to_set() + self.shards_within(pos, margin),
        decreases self,
    {
        let ghost before = result@.to_set();
        match &self.children {
            Some(children) => {
                children.nw.shards_near_impl(pos, margin, result);
                children.ne.shards_near_impl(pos, margin, result);
                children.sw.shards_near_impl(pos, margin, result);
                children.se.shards_near_impl(pos, margin, result);
                proof {
                    assert(result@.to_set() =~= before + self.shards_within(pos, margin));
                }
            },
            None => {
                if let Some(id) = self.shard_id {
                    if self.bounds.is_within(pos, margin) {
                        let ghost earlier = result@;
                        result.push(id);
                        proof {
                            earlier.lemma_push_to_set_commute(id);
                            assert(before + set![id] =~= before.insert(id));
                        }
                        return;
                    }
                }
                proof {
                    assert(before + Set::empty() =~= before);
                }
            },
        }
    }

    /// Merges the first node whose quadrants are leaves with at most `max_pop` clients
    /// together. Returns the number of the merged node and those its quadrants had.
    pub fn try_merge(&mut self, pop_map: &HashMap<u32, usize>, max_pop: usize) -> (r: Option<
        (u32, [u32; 4]),
    >)
        requires
            old(self).merge_defined(pop_map@, max_pop as nat),
        ensures
            match r {
                Some((parent, shards)) => old(self).merge_result(pop_map@, max_pop as nat) == Some(
                    (*final(self), parent, shards@),
                ),
                None => {
                    &&& old(self).merge_result(pop_map@, max_pop as nat) is None
                    &&& *final(self) == *old(self)
                },
            },
        decreases *old(self),
    {
        if let Some(children) = &mut self.children {
            if let Some(res) = children.nw.try_merge(pop_map, max_pop) {
                return Some(res);
            }
            if let Some(res) = children.ne.try_merge(pop_map, max_pop) {
                return Some(res);
            }
            if let Some(res) = children.sw.try_merge(pop_map, max_pop) {
                return Some(res);
            }
            if let Some(res) = children.se.try_merge(pop_map, max_pop) {
                return Some(res);
            }
            if let Some(parent_id) = self.shard_id {
                let all_leaves: bool = children.nw.children.is_none()
                    && children.ne.children.is_none() && children.sw.children.is_none()
                    && children.se.children.is_none();
                if all_leaves {
                    let nw: u32 = children.nw.shard_id.unwrap();
                    let ne: u32 = children.ne.shard_id.unwrap();
                    let sw: u32 = children.sw.shard_id.unwrap();
                    let se: u32 = children.se.shard_id.unwrap();
                    let total_pop: u128 = population(pop_map, nw) as u128 + population(
                        pop_map,
                        ne,
                    ) as u128 + population(pop_map, sw) as u128 + population(pop_map, se) as u128;
                    if total_pop <= max_pop as u128 {
                        self.children = None;
                        return Some((parent_id, [nw, ne, sw, se]));
                    }
                }
            }
        }
        None
    }
}

impl QuadTree {
    fn leaf_is_lost(&self, crashed: &Vec<u32>) -> (r: bool)
        ensures
            r == self.is_lost(crashed@),
    {
        if self.children.is_some() {
            return false;
        }
        match self.shard_id {
            Some(id) => contains(crashed, id),
            None => false,
        }
    }

    fn must_collapse(&self, crashed: &Vec<u32>) -> (r: bool)
        ensures
            r == self.collapses(crashed@),
    {
        if self.shard_id.is_none() {
            return false;
        }
        match &self.children {
            Some(c) => c.nw.leaf_is_lost(crashed) || c.ne.leaf_is_lost(crashed)
                || c.sw.leaf_is_lost(crashed) || c.se.leaf_is_lost(crashed),
            None => false,
        }
    }

    fn holds_leaf(&self, shard: u32) -> (r: bool)
        ensures
            r == self.has_leaf(shard),
        decreases self,
    {
        match &self.children {
            None => self.shard_id == Some(shard),
            Some(c) => c.nw.holds_leaf(shard) || c.ne.holds_leaf(shard) || c.sw.holds_leaf(shard)
                || c.se.holds_leaf(shard),
        }
    }

    /// Turns every numbered node with a crashed quadrant into a leaf again.
    pub fn collapse(&mut self, crashed: &Vec<u32>)
        ensures
            *final(self) == old(self).collapsed(crashed@),
        decreases *old(self),
    {
        let whole: bool = self.must_collapse(crashed);
        if let Some(children) = &mut self.children {
            if whole {
                self.children = None;
            } else {
                children.nw.collapse(crashed);
                children.ne.collapse(crashed);
                children.sw.collapse(crashed);
                children.se.collapse(crashed);
            }
        }
    }

    /// The shard that takes over from the leaf `shard` when the crashed leaves collapse.
    pub fn refuge_for(&self, crashed: &Vec<u32>, shard: u32) -> (r: Option<u32>)
        ensures
            r == self.refuge(crashed@, shard),
        decreases self,
    {
        match &self.children {
            None => None,
            Some(c) => {
                if self.must_collapse(crashed) {
                    if self.holds_leaf(shard) {
                        return self.shard_id;
                    }
                    return None;
                }
                if let Some(id) = c.nw.refuge_for(crashed, shard) {
                    return Some(id);
                }
                if let Some(id) = c.ne.refuge_for(crashed, shard) {
                    return Some(id);
                }
                if let Some(id) = c.sw.refuge_for(crashed, shard) {
                    return Some(id);
                }
                c.se.refuge_for(crashed, shard)
            },
        }
    }

    /// A collapse keeps the root's own data, and what holds of every node.
    pub(crate) proof fn lemma_collapse_keeps(self, crashed: Seq<u32>)
        ensures
            ({
                let after = self.collapsed(crashed);
                &&& after.shard_id == self.shard_id
                &&& after.bounds == self.bounds
                &&& after.depth == self.depth
                &&& after.max_depth == self.max_depth
                &&& self.divisible() ==> after.divisible()
                &&& self.families_numbered() ==> after.families_numbered()
            }),
        decreases self,
    {
        if let Some(c) = self.children {
            c.nw.lemma_collapse_keeps(crashed);
            c.ne.lemma_collapse_keeps(crashed);
            c.sw.lemma_collapse_keeps(crashed);
            c.se.lemma_collapse_keeps(crashed);
        }
    }
}

/// How many clients the count holds for a shard.
fn population(pop_map: &HashMap<u32, usize>, shard: u32) -> (r: usize)
    ensures
        r == population_of(pop_map@, shard),
{
    match pop_map.get(&shard) {
        Some(count) => *count,
        None => 0,
    }
}

impl QuadTree {
    fn duplicate(&self) -> (r: QuadTree)
        ensures
            r == *self,
        decreases self,
    {
        let children: Option<Box<Quadrants>> = match &self.children {
            None => None,
            Some(c) => Some(
                Box::new(
                    Quadrants {
                        nw: c.nw.duplicate(),
                        ne: c.ne.duplicate(),
                        sw: c.sw.duplicate(),
                        se: c.se.duplicate(),
                    },
                ),
            ),
        };
        QuadTree {
            bounds: self.bounds,
            depth: self.depth,
            max_depth: self.max_depth,
            children,
            shard_id: self.shard_id,
        }
    }
}

impl Clone for QuadTree {
    fn clone(&self) -> (r: QuadTree)
        ensures
            r == *self,
    {
        self.duplicate()
    }
}

impl QuadTree {
    /// Dividing a leaf keeps the root's own data, and what holds of every node.
    pub(crate) proof fn lemma_split_keeps(self, target: u32, next: int)
        ensures
            ({
                let after = self.with_leaf_split(target, next);
                &&& after.shard_id == self.shard_id
                &&& after.bounds == self.bounds
                &&& after.depth == self.depth
                &&& after.max_depth == self.max_depth
                &&& self.divisible() ==> after.divisible()
                &&& self.families_numbered() ==> after.families_numbered()
            }),
        decreases self,
    {
        match self.children {
            None => {
                if self.leaf_to_split(target) is Some {
                    reveal_with_fuel(QuadTree::divisible, 2);
                    reveal_with_fuel(QuadTree::families_numbered, 2);
                }
            },
            Some(c) => {
                let quadrant = if c.nw.leaf_to_split(target) is Some {
                    c.nw
                } else if c.ne.leaf_to_split(target) is Some {
                    c.ne
                } else if c.sw.leaf_to_split(target) is Some {
                    c.sw
                } else {
                    c.se
                };
                quadrant.lemma_split_keeps(target, next);
            },
        }
    }

    /// A leaf that may be divided has an area with quadrants, in a divisible tree.
    pub(crate) proof fn lemma_leaf_divisible(self, target: u32)
        requires
            self.divisible(),
        ensures
            self.leaf_to_split(target) matches Some(leaf) ==> leaf.bounds.divisible(),
        decreases self,
    {
        match self.children {
            None => {},
            Some(c) => {
                c.nw.lemma_leaf_divisible(target);
                c.ne.lemma_leaf_divisible(target);
                c.sw.lemma_leaf_divisible(target);
                c.se.lemma_leaf_divisible(target);
            },
        }
    }

    /// A merge keeps the root's own data, and what holds of every node.
    pub(crate) proof fn lemma_merge_keeps(self, populations: Map<u32, usize>, max_pop: nat)
        ensures
            self.merge_result(populations, max_pop) matches Some((after, parent, shards)) ==> {
                &&& after.shard_id == self.shard_id
                &&& after.bounds == self.bounds
                &&& after.depth == self.depth
                &&& after.max_depth == self.max_depth
                &&& self.divisible() ==> after.divisible()
                &&& self.families_numbered() ==> after.families_numbered()
                &&& shards.len() == 4
            },
        decreases self,
    {
        match self.children {
            None => {},
            Some(c) => {
                let quadrant = if c.nw.merge_result(populations, max_pop) is Some {
                    c.nw
                } else if c.ne.merge_result(populations, max_pop) is Some {
                    c.ne
                } else if c.sw.merge_result(populations, max_pop) is Some {
                    c.sw
                } else {
                    c.se
                };
                quadrant.lemma_merge_keeps(populations, max_pop);
            },
        }
    }

    /// Where families are numbered, the search for a merge never misses a number.
    pub(crate) proof fn lemma_merge_defined(self, populations: Map<u32, usize>, max_pop: nat)
        requires
            self.families_numbered(),
        ensures
            self.merge_defined(populations, max_pop),
        decreases self,
    {
        match self.children {
            None => {},
            Some(c) => {
                c.nw.lemma_merge_defined(populations, max_pop);
                c.ne.lemma_merge_defined(populations, max_pop);
                c.sw.lemma_merge_defined(populations, max_pop);
                c.se.lemma_merge_defined(populations, max_pop);
            },
        }
    }
}

} // verus!
