//! What holds of every quadtree, whatever is divided and merged.

use crate::binary32::{lemma_value_increases, magnitude_value, Binary32};
use crate::geometry::{law_within_is_reaching, Rect, Vec2};
use crate::quadtree::{is_margin, population_of, QuadTree};
use vstd::prelude::*;

verus! {

impl QuadTree {
    /// The numbers of all nodes.
    pub open spec fn all_numbers(self) -> Set<u32>
        decreases self,
    {
        let own = match self.shard_id {
            Some(id) => set![id],
            None => Set::empty(),
        };
        match self.children {
            None => own,
            Some(c) => own + c.nw.all_numbers() + c.ne.all_numbers() + c.sw.all_numbers()
                + c.se.all_numbers(),
        }
    }

    /// The numbers of the leaves.
    pub open spec fn shards(self) -> Set<u32>
        decreases self,
    {
        match self.children {
            None => match self.shard_id {
                Some(id) => set![id],
                None => Set::empty(),
            },
            Some(c) => c.nw.shards() + c.ne.shards() + c.sw.shards() + c.se.shards(),
        }
    }

    /// The leaves.
    pub open spec fn leaves(self) -> Set<QuadTree>
        decreases self,
    {
        match self.children {
            None => set![self],
            Some(c) => c.nw.leaves() + c.ne.leaves() + c.sw.leaves() + c.se.leaves(),
        }
    }

    /// No two nodes have the same number.
    pub open spec fn numbers_distinct(self) -> bool
        decreases self,
    {
        match self.children {
            None => true,
            Some(c) => {
                let nw = c.nw.all_numbers();
                let ne = c.ne.all_numbers();
                let sw = c.sw.all_numbers();
                let se = c.se.all_numbers();
                &&& c.nw.numbers_distinct()
                &&& c.ne.numbers_distinct()
                &&& c.sw.numbers_distinct()
                &&& c.se.numbers_distinct()
                &&& nw.disjoint(ne) && nw.disjoint(sw) && nw.disjoint(se)
                &&& ne.disjoint(sw) && ne.disjoint(se) && sw.disjoint(se)
                &&& self.shard_id matches Some(id) ==> !nw.contains(id) && !ne.contains(id)
                    && !sw.contains(id) && !se.contains(id)
            },
        }
    }

    /// Every number is below `next`.
    pub open spec fn numbers_below(self, next: int) -> bool {
        forall|id: u32| #[trigger] self.all_numbers().contains(id) ==> id < next
    }

    /// Every leaf has a number.
    pub open spec fn leaves_numbered(self) -> bool
        decreases self,
    {
        match self.children {
            None => self.shard_id is Some,
            Some(c) => {
                &&& c.nw.leaves_numbered()
                &&& c.ne.leaves_numbered()
                &&& c.sw.leaves_numbered()
                &&& c.se.leaves_numbered()
            },
        }
    }

    /// Every divided node is covered by its quadrants, and every area is covered by the
    /// quadrants it may still be divided into.
    pub open spec fn tiled(self) -> bool
        decreases self,
    {
        &&& self.bounds.covered_to(self.levels())
        &&& match self.children {
            None => true,
            Some(c) => {
                &&& c.nw.tiled()
                &&& c.ne.tiled()
                &&& c.sw.tiled()
                &&& c.se.tiled()
                &&& forall|pos: Vec2| #[trigger]
                    self.bounds.holds(pos) ==> c.nw.bounds.holds(pos) || c.ne.bounds.holds(pos)
                        || c.sw.bounds.holds(pos) || c.se.bounds.holds(pos)
            },
        }
    }
}

/// Every position inside a tiled tree with numbered leaves belongs to a shard.
pub proof fn law_every_position_has_a_shard(tree: QuadTree, pos: Vec2)
    requires
        tree.tiled(),
        tree.leaves_numbered(),
        tree.bounds.holds(pos),
    ensures
        tree.shard_at(pos) is Some,
    decreases tree,
{
    if let Some(c) = tree.children {
        if c.nw.bounds.holds(pos) {
            law_every_position_has_a_shard(c.nw, pos);
        }
        if c.ne.bounds.holds(pos) {
            law_every_position_has_a_shard(c.ne, pos);
        }
        if c.sw.bounds.holds(pos) {
            law_every_position_has_a_shard(c.sw, pos);
        }
        if c.se.bounds.holds(pos) {
            law_every_position_has_a_shard(c.se, pos);
        }
    }
}

/// The shard of a position is the number of a leaf.
pub proof fn law_shard_at_is_a_leaf(tree: QuadTree, pos: Vec2)
    ensures
        tree.shard_at(pos) matches Some(id) ==> tree.shards().contains(id),
        tree.shard_at(pos) is Some ==> tree.bounds.holds(pos),
    decreases tree,
{
    if let Some(c) = tree.children {
        law_shard_at_is_a_leaf(c.nw, pos);
        law_shard_at_is_a_leaf(c.ne, pos);
        law_shard_at_is_a_leaf(c.sw, pos);
        law_shard_at_is_a_leaf(c.se, pos);
    }
}

/// The leaves are among the nodes.
pub(crate) proof fn lemma_shards_are_numbers(tree: QuadTree)
    ensures
        tree.shards().subset_of(tree.all_numbers()),
    decreases tree,
{
    if let Some(c) = tree.children {
        lemma_shards_are_numbers(c.nw);
        lemma_shards_are_numbers(c.ne);
        lemma_shards_are_numbers(c.sw);
        lemma_shards_are_numbers(c.se);
    }
}

/// Dividing a leaf keeps tiled trees tiled and numbered leaves numbered.
#[verifier::spinoff_prover]
pub proof fn law_split_keeps_tiling(tree: QuadTree, target: u32, next: int)
    ensures
        tree.tiled() ==> tree.with_leaf_split(target, next).tiled(),
        tree.leaves_numbered() ==> tree.with_leaf_split(target, next).leaves_numbered(),
    decreases tree,
{
    match tree.children {
        None => {
            if tree.leaf_to_split(target) is Some {
                reveal_with_fuel(QuadTree::tiled, 2);
                reveal_with_fuel(QuadTree::leaves_numbered, 2);
                if tree.tiled() {
                    assert(tree.bounds.covered_by_quadrants());
                }
            }
        },
        Some(c) => {
            let quadrant = if c.nw.leaf_to_split(target) is Some {
                c.nw
            } else if c.ne.leaf_to_split(target) is Some {
                c.ne
            } else if c.sw.leaf_to_split(target) is Some {
                c.sw
            } else {
                c.se
            };
            law_split_keeps_tiling(quadrant, target, next);
            quadrant.lemma_split_keeps(target, next);
        },
    }
}

/// A merge keeps tiled trees tiled and numbered leaves numbered.
#[verifier::spinoff_prover]
pub proof fn law_merge_keeps_tiling(tree: QuadTree, populations: Map<u32, usize>, max_pop: nat)
    ensures
        tree.merge_result(populations, max_pop) matches Some((after, parent, shards)) ==> {
            &&& tree.tiled() ==> after.tiled()
            &&& tree.leaves_numbered() ==> after.leaves_numbered()
        },
    decreases tree,
{
    if let Some(c) = tree.children {
        let quadrant = if c.nw.merge_result(populations, max_pop) is Some {
            c.nw
        } else if c.ne.merge_result(populations, max_pop) is Some {
            c.ne
        } else if c.sw.merge_result(populations, max_pop) is Some {
            c.sw
        } else {
            c.se
        };
        law_merge_keeps_tiling(quadrant, populations, max_pop);
        quadrant.lemma_merge_keeps(populations, max_pop);
    }
}

/// The four numbers from `next` on.
pub open spec fn fresh(next: int) -> Set<u32> {
    set![next as u32, (next + 1) as u32, (next + 2) as u32, (next + 3) as u32]
}

/// Dividing a leaf adds exactly the four fresh numbers.
proof fn lemma_split_adds_numbers(tree: QuadTree, target: u32, next: int)
    requires
        tree.leaf_to_split(target) is Some,
    ensures
        tree.with_leaf_split(target, next).all_numbers() == tree.all_numbers() + fresh(next),
    decreases tree,
{
    let after = tree.with_leaf_split(target, next);
    match tree.children {
        None => {
            reveal_with_fuel(QuadTree::all_numbers, 2);
            assert(after.all_numbers() =~= tree.all_numbers() + fresh(next));
        },
        Some(c) => {
            let quadrant = if c.nw.leaf_to_split(target) is Some {
                c.nw
            } else if c.ne.leaf_to_split(target) is Some {
                c.ne
            } else if c.sw.leaf_to_split(target) is Some {
                c.sw
            } else {
                c.se
            };
            lemma_split_adds_numbers(quadrant, target, next);
            assert(after.all_numbers() =~= tree.all_numbers() + fresh(next));
        },
    }
}

/// Dividing a leaf adds exactly the four fresh numbers, and numbers stay distinct.
#[verifier::spinoff_prover]
pub proof fn law_split_numbers(tree: QuadTree, target: u32, next: int)
    requires
        0 <= next,
        next + 4 <= u32::MAX,
        tree.leaf_to_split(target) is Some,
        tree.numbers_below(next),
    ensures
        ({
            let after = tree.with_leaf_split(target, next);
            &&& after.all_numbers() == tree.all_numbers() + fresh(next)
            &&& after.numbers_below(next + 4)
            &&& tree.numbers_distinct() ==> after.numbers_distinct()
        }),
    decreases tree,
{
    lemma_split_adds_numbers(tree, target, next);
    match tree.children {
        None => {
            reveal_with_fuel(QuadTree::all_numbers, 2);
            reveal_with_fuel(QuadTree::numbers_distinct, 2);
            assert(tree.all_numbers().contains(target));
        },
        Some(c) => {
            let all = tree.all_numbers();
            assert(c.nw.all_numbers().subset_of(all));
            assert(c.ne.all_numbers().subset_of(all));
            assert(c.sw.all_numbers().subset_of(all));
            assert(c.se.all_numbers().subset_of(all));
            assert(tree.shard_id matches Some(id) ==> all.contains(id));
            assert forall|id: u32| #[trigger] fresh(next).contains(id) implies !all.contains(id) by {}
            let quadrant = if c.nw.leaf_to_split(target) is Some {
                c.nw
            } else if c.ne.leaf_to_split(target) is Some {
                c.ne
            } else if c.sw.leaf_to_split(target) is Some {
                c.sw
            } else {
                c.se
            };
            law_split_numbers(quadrant, target, next);
        },
    }
}

/// A merge drops numbers and adds none, and numbers stay distinct.
#[verifier::spinoff_prover]
pub proof fn law_merge_numbers(tree: QuadTree, populations: Map<u32, usize>, max_pop: nat)
    ensures
        tree.merge_result(populations, max_pop) matches Some((after, parent, shards)) ==> {
            &&& after.all_numbers().subset_of(tree.all_numbers())
            &&& tree.numbers_distinct() ==> after.numbers_distinct()
        },
    decreases tree,
{
    if let Some(c) = tree.children {
        let quadrant = if c.nw.merge_result(populations, max_pop) is Some {
            c.nw
        } else if c.ne.merge_result(populations, max_pop) is Some {
            c.ne
        } else if c.sw.merge_result(populations, max_pop) is Some {
            c.sw
        } else {
            c.se
        };
        law_merge_numbers(quadrant, populations, max_pop);
    }
}

/// Dividing a shard moves no position of another shard.
#[verifier::spinoff_prover]
pub proof fn law_split_moves_only_the_target(tree: QuadTree, target: u32, next: int, pos: Vec2)
    ensures
        tree.shard_at(pos) != Some(target) ==> tree.with_leaf_split(target, next).shard_at(pos)
            == tree.shard_at(pos),
    decreases tree,
{
    match tree.children {
        None => {},
        Some(c) => {
            let quadrant = if c.nw.leaf_to_split(target) is Some {
                c.nw
            } else if c.ne.leaf_to_split(target) is Some {
                c.ne
            } else if c.sw.leaf_to_split(target) is Some {
                c.sw
            } else {
                c.se
            };
            law_split_moves_only_the_target(quadrant, target, next, pos);
        },
    }
}

/// A merge right after a division, where nothing else is ready to merge, gives back the tree
/// as it was, with the number that the shard had.
#[verifier::spinoff_prover]
pub proof fn law_merge_undoes_split(
    tree: QuadTree,
    target: u32,
    next: int,
    populations: Map<u32, usize>,
    max_pop: nat,
)
    requires
        0 <= next,
        next + 4 <= u32::MAX,
        tree.leaf_to_split(target) is Some,
        tree.merge_result(populations, max_pop) is None,
        population_of(populations, next as u32) + population_of(populations, (next + 1) as u32)
            + population_of(populations, (next + 2) as u32) + population_of(
            populations,
            (next + 3) as u32,
        ) <= max_pop,
    ensures
        tree.with_leaf_split(target, next).merge_result(populations, max_pop) == Some(
            (
                tree,
                target,
                seq![next as u32, (next + 1) as u32, (next + 2) as u32, (next + 3) as u32],
            ),
        ),
    decreases tree,
{
    match tree.children {
        None => {
            reveal_with_fuel(QuadTree::merge_result, 2);
        },
        Some(c) => {
            if c.nw.leaf_to_split(target) is Some {
                law_merge_undoes_split(c.nw, target, next, populations, max_pop);
            } else if c.ne.leaf_to_split(target) is Some {
                law_merge_undoes_split(c.ne, target, next, populations, max_pop);
            } else if c.sw.leaf_to_split(target) is Some {
                law_merge_undoes_split(c.sw, target, next, populations, max_pop);
            } else {
                law_merge_undoes_split(c.se, target, next, populations, max_pop);
            }
        },
    }
}

/// In a tiled tree with distinct numbers, the positions of a divided shard go to the four
/// new shards.
#[verifier::spinoff_prover]
pub proof fn law_split_distributes_the_target(tree: QuadTree, target: u32, next: int, pos: Vec2)
    requires
        tree.tiled(),
        tree.numbers_distinct(),
        tree.leaf_to_split(target) is Some,
        tree.shard_at(pos) == Some(target),
    ensures
        tree.with_leaf_split(target, next).shard_at(pos) matches Some(id) && fresh(next).contains(
            id,
        ),
    decreases tree,
{
    match tree.children {
        None => {
            reveal_with_fuel(QuadTree::shard_at, 2);
            assert(tree.bounds.covered_by_quadrants());
            assert(tree.bounds.holds(pos));
        },
        Some(c) => {
            law_shard_at_is_a_leaf(c.nw, pos);
            law_shard_at_is_a_leaf(c.ne, pos);
            law_shard_at_is_a_leaf(c.sw, pos);
            law_shard_at_is_a_leaf(c.se, pos);
            lemma_shards_are_numbers(c.nw);
            lemma_shards_are_numbers(c.ne);
            lemma_shards_are_numbers(c.sw);
            lemma_shards_are_numbers(c.se);
            lemma_leaf_to_split_is_a_number(c.nw, target);
            lemma_leaf_to_split_is_a_number(c.ne, target);
            lemma_leaf_to_split_is_a_number(c.sw, target);
            lemma_leaf_to_split_is_a_number(c.se, target);
            if c.nw.leaf_to_split(target) is Some {
                law_split_distributes_the_target(c.nw, target, next, pos);
            } else if c.ne.leaf_to_split(target) is Some {
                law_split_distributes_the_target(c.ne, target, next, pos);
            } else if c.sw.leaf_to_split(target) is Some {
                law_split_distributes_the_target(c.sw, target, next, pos);
            } else {
                law_split_distributes_the_target(c.se, target, next, pos);
            }
        },
    }
}

proof fn lemma_leaf_to_split_is_a_number(tree: QuadTree, target: u32)
    ensures
        tree.leaf_to_split(target) is Some ==> tree.all_numbers().contains(target),
    decreases tree,
{
    if let Some(c) = tree.children {
        lemma_leaf_to_split_is_a_number(c.nw, target);
        lemma_leaf_to_split_is_a_number(c.ne, target);
        lemma_leaf_to_split_is_a_number(c.sw, target);
        lemma_leaf_to_split_is_a_number(c.se, target);
    }
}

/// Numbering the leaves from `next` on gives them exactly the next numbers.
pub proof fn law_numbering_is_consecutive(tree: QuadTree, next: int)
    requires
        0 <= next,
        next + tree.leaf_count() <= u32::MAX,
    ensures
        tree.numbered_from(next).leaf_count() == tree.leaf_count(),
        tree.numbered_from(next).leaves_numbered(),
        forall|id: u32| #[trigger]
            tree.numbered_from(next).shards().contains(id) <==> next <= id < next
                + tree.leaf_count(),
    decreases tree,
{
    if let Some(c) = tree.children {
        let after_nw = next + c.nw.leaf_count();
        let after_ne = after_nw + c.ne.leaf_count();
        let after_sw = after_ne + c.sw.leaf_count();
        law_numbering_is_consecutive(c.nw, next);
        law_numbering_is_consecutive(c.ne, after_nw);
        law_numbering_is_consecutive(c.sw, after_ne);
        law_numbering_is_consecutive(c.se, after_sw);
        assert forall|id: u32| #[trigger]
            tree.numbered_from(next).shards().contains(id) <==> next <= id < next
                + tree.leaf_count() by {
            let nw = c.nw.numbered_from(next).shards();
            let ne = c.ne.numbered_from(after_nw).shards();
            let sw = c.sw.numbered_from(after_ne).shards();
            let se = c.se.numbered_from(after_sw).shards();
            assert(tree.numbered_from(next).shards() == nw + ne + sw + se);
            assert(nw.contains(id) <==> next <= id < after_nw);
            assert(ne.contains(id) <==> after_nw <= id < after_ne);
            assert(sw.contains(id) <==> after_ne <= id < after_sw);
            assert(se.contains(id) <==> after_sw <= id < next + tree.leaf_count());
        }
    }
}

/// A rectangle that holds a position is at no distance from it.
proof fn lemma_inside_is_within(bounds: Rect, pos: Vec2, margin: Binary32)
    requires
        bounds.holds(pos),
        is_margin(margin),
    ensures
        bounds.within(pos, margin),
{
    let v = margin.value();
    assert(v * v >= 0) by (nonlinear_arith);
}

/// A larger radius reaches whatever a smaller one does.
proof fn lemma_larger_radius(bounds: Rect, pos: Vec2, small: Binary32, large: Binary32)
    requires
        is_margin(small),
        small.spec_le(large),
    ensures
        bounds.within(pos, small) ==> bounds.within(pos, large),
{
    assert(magnitude_value(0) == 0);
    let a = small.value();
    let b = large.value();
    assert(a * a <= b * b) by (nonlinear_arith)
        requires
            0 <= a <= b,
    ;
    if small.is_infinite() && large.is_finite() {
        lemma_value_increases(large.magnitude(), small.magnitude());
    }
}

/// The shard that holds a position is among those near it, however small the margin.
pub proof fn law_own_shard_is_near(tree: QuadTree, pos: Vec2, margin: Binary32)
    requires
        is_margin(margin),
    ensures
        tree.shard_at(pos) matches Some(id) ==> tree.shards_within(pos, margin).contains(id),
    decreases tree,
{
    if tree.bounds.holds(pos) {
        lemma_inside_is_within(tree.bounds, pos, margin);
        if let Some(c) = tree.children {
            law_own_shard_is_near(c.nw, pos, margin);
            law_own_shard_is_near(c.ne, pos, margin);
            law_own_shard_is_near(c.sw, pos, margin);
            law_own_shard_is_near(c.se, pos, margin);
        }
    }
}

/// A larger margin finds at least the same shards.
pub proof fn law_larger_margins_find_more(
    tree: QuadTree,
    pos: Vec2,
    small: Binary32,
    large: Binary32,
)
    requires
        is_margin(small),
        small.spec_le(large),
    ensures
        tree.shards_within(pos, small).subset_of(tree.shards_within(pos, large)),
    decreases tree,
{
    match tree.children {
        None => {
            lemma_larger_radius(tree.bounds, pos, small, large);
        },
        Some(c) => {
            law_larger_margins_find_more(c.nw, pos, small, large);
            law_larger_margins_find_more(c.ne, pos, small, large);
            law_larger_margins_find_more(c.sw, pos, small, large);
            law_larger_margins_find_more(c.se, pos, small, large);
        },
    }
}

/// A shard is near a position exactly where it is the number of a leaf whose area comes within
/// the margin.
pub proof fn law_near_shards_are_the_leaves_in_reach(
    tree: QuadTree,
    pos: Vec2,
    margin: Binary32,
    id: u32,
)
    ensures
        tree.shards_within(pos, margin).contains(id) <==> exists|leaf: QuadTree| #[trigger]
            tree.leaves().contains(leaf) && leaf.shard_id == Some(id) && leaf.bounds.within(
                pos,
                margin,
            ),
    decreases tree,
{
    if tree.shards_within(pos, margin).contains(id) {
        match tree.children {
            None => {
                assert(tree.leaves().contains(tree));
            },
            Some(c) => {
                let quadrant = if c.nw.shards_within(pos, margin).contains(id) {
                    c.nw
                } else if c.ne.shards_within(pos, margin).contains(id) {
                    c.ne
                } else if c.sw.shards_within(pos, margin).contains(id) {
                    c.sw
                } else {
                    c.se
                };
                law_near_shards_are_the_leaves_in_reach(quadrant, pos, margin, id);
                let leaf = choose|leaf: QuadTree| #[trigger]
                    quadrant.leaves().contains(leaf) && leaf.shard_id == Some(id)
                        && leaf.bounds.within(pos, margin);
                assert(tree.leaves().contains(leaf));
            },
        }
    }
    if exists|leaf: QuadTree| #[trigger]
        tree.leaves().contains(leaf) && leaf.shard_id == Some(id) && leaf.bounds.within(
            pos,
            margin,
        ) {
        let leaf = choose|leaf: QuadTree| #[trigger]
            tree.leaves().contains(leaf) && leaf.shard_id == Some(id) && leaf.bounds.within(
                pos,
                margin,
            );
        if let Some(c) = tree.children {
            let quadrant = if c.nw.leaves().contains(leaf) {
                c.nw
            } else if c.ne.leaves().contains(leaf) {
                c.ne
            } else if c.sw.leaves().contains(leaf) {
                c.sw
            } else {
                c.se
            };
            assert(quadrant.leaves().contains(leaf));
            law_near_shards_are_the_leaves_in_reach(quadrant, pos, margin, id);
        }
    }
}

/// The shards near a finite position, in a finite margin, are complete and no more: a number is
/// listed exactly where it is the number of a leaf that has a finite point at most the margin away
/// from the position. The distances are exact.
pub proof fn law_near_shards_are_those_in_the_radius(
    tree: QuadTree,
    pos: Vec2,
    margin: Binary32,
    id: u32,
)
    requires
        is_margin(margin),
        margin.is_finite(),
        pos.is_finite(),
    ensures
        tree.shards_within(pos, margin).contains(id) <==> exists|leaf: QuadTree| #[trigger]
            tree.leaves().contains(leaf) && leaf.shard_id == Some(id) && leaf.bounds.reaches(
                pos,
                margin,
            ),
{
    law_near_shards_are_the_leaves_in_reach(tree, pos, margin, id);
    assert forall|leaf: QuadTree| #[trigger] tree.leaves().contains(leaf) implies (
    leaf.bounds.within(pos, margin) <==> leaf.bounds.reaches(pos, margin)) by {
        law_within_is_reaching(leaf.bounds, pos, margin);
    }
    if tree.shards_within(pos, margin).contains(id) {
        let leaf = choose|leaf: QuadTree| #[trigger]
            tree.leaves().contains(leaf) && leaf.shard_id == Some(id) && leaf.bounds.within(
                pos,
                margin,
            );
        assert(tree.leaves().contains(leaf) && leaf.bounds.reaches(pos, margin));
    }
    if exists|leaf: QuadTree| #[trigger]
        tree.leaves().contains(leaf) && leaf.shard_id == Some(id) && leaf.bounds.reaches(
            pos,
            margin,
        ) {
        let leaf = choose|leaf: QuadTree| #[trigger]
            tree.leaves().contains(leaf) && leaf.shard_id == Some(id) && leaf.bounds.reaches(
                pos,
                margin,
            );
        assert(tree.leaves().contains(leaf) && leaf.bounds.within(pos, margin));
    }
}

#[verifier::spinoff_prover]
proof fn lemma_collapse_keeps_tiling(tree: QuadTree, crashed: Seq<u32>)
    ensures
        tree.tiled() ==> tree.collapsed(crashed).tiled(),
        tree.leaves_numbered() ==> tree.collapsed(crashed).leaves_numbered(),
    decreases tree,
{
    if let Some(c) = tree.children {
        if !tree.collapses(crashed) {
            lemma_collapse_keeps_tiling(c.nw, crashed);
            lemma_collapse_keeps_tiling(c.ne, crashed);
            lemma_collapse_keeps_tiling(c.sw, crashed);
            lemma_collapse_keeps_tiling(c.se, crashed);
            c.nw.lemma_collapse_keeps(crashed);
            c.ne.lemma_collapse_keeps(crashed);
            c.sw.lemma_collapse_keeps(crashed);
            c.se.lemma_collapse_keeps(crashed);
        }
    }
}

proof fn lemma_collapse_drops_numbers(tree: QuadTree, crashed: Seq<u32>)
    ensures
        tree.collapsed(crashed).all_numbers().subset_of(tree.all_numbers()),
        tree.numbers_distinct() ==> tree.collapsed(crashed).numbers_distinct(),
    decreases tree,
{
    if let Some(c) = tree.children {
        if !tree.collapses(crashed) {
            lemma_collapse_drops_numbers(c.nw, crashed);
            lemma_collapse_drops_numbers(c.ne, crashed);
            lemma_collapse_drops_numbers(c.sw, crashed);
            lemma_collapse_drops_numbers(c.se, crashed);
        }
    }
}

/// A collapse keeps tiled trees tiled and numbered leaves numbered, and adds no numbers.
pub proof fn law_collapse_keeps_tree(tree: QuadTree, crashed: Seq<u32>)
    ensures
        tree.tiled() ==> tree.collapsed(crashed).tiled(),
        tree.leaves_numbered() ==> tree.collapsed(crashed).leaves_numbered(),
        tree.collapsed(crashed).all_numbers().subset_of(tree.all_numbers()),
        tree.numbers_distinct() ==> tree.collapsed(crashed).numbers_distinct(),
{
    lemma_collapse_keeps_tiling(tree, crashed);
    lemma_collapse_drops_numbers(tree, crashed);
}

impl QuadTree {
    /// Every node has a number.
    pub open spec fn nodes_numbered(self) -> bool
        decreases self,
    {
        &&& self.shard_id is Some
        &&& match self.children {
            None => true,
            Some(c) => {
                &&& c.nw.nodes_numbered()
                &&& c.ne.nodes_numbered()
                &&& c.sw.nodes_numbered()
                &&& c.se.nodes_numbered()
            },
        }
    }
}

proof fn lemma_refuge_is_a_leaf(tree: QuadTree, crashed: Seq<u32>, shard: u32)
    ensures
        tree.refuge(crashed, shard) matches Some(id) ==> tree.collapsed(crashed).has_leaf(id),
    decreases tree,
{
    if let Some(c) = tree.children {
        lemma_refuge_is_a_leaf(c.nw, crashed, shard);
        lemma_refuge_is_a_leaf(c.ne, crashed, shard);
        lemma_refuge_is_a_leaf(c.sw, crashed, shard);
        lemma_refuge_is_a_leaf(c.se, crashed, shard);
    }
}

proof fn lemma_crashed_leaf_has_refuge(tree: QuadTree, crashed: Seq<u32>, shard: u32)
    requires
        tree.nodes_numbered(),
        tree.has_leaf(shard),
        crashed.contains(shard),
    ensures
        tree.is_leaf() || tree.refuge(crashed, shard) is Some,
    decreases tree,
{
    if let Some(c) = tree.children {
        if !tree.collapses(crashed) {
            if c.nw.has_leaf(shard) {
                lemma_crashed_leaf_has_refuge(c.nw, crashed, shard);
            } else if c.ne.has_leaf(shard) {
                lemma_crashed_leaf_has_refuge(c.ne, crashed, shard);
            } else if c.sw.has_leaf(shard) {
                lemma_crashed_leaf_has_refuge(c.sw, crashed, shard);
            } else {
                lemma_crashed_leaf_has_refuge(c.se, crashed, shard);
            }
        }
    }
}

/// Where every node has a number and the world is divided, another shard takes over from every
/// crashed one.
pub proof fn law_crashed_shards_have_a_refuge(tree: QuadTree, crashed: Seq<u32>, shard: u32)
    requires
        tree.nodes_numbered(),
        !tree.is_leaf(),
        tree.has_leaf(shard),
        crashed.contains(shard),
    ensures
        tree.refuge(crashed, shard) matches Some(id) && tree.collapsed(crashed).has_leaf(id),
{
    lemma_crashed_leaf_has_refuge(tree, crashed, shard);
    lemma_refuge_is_a_leaf(tree, crashed, shard);
}

/// Dividing a leaf leaves every node with a number.
pub proof fn law_split_keeps_nodes_numbered(tree: QuadTree, target: u32, next: int)
    requires
        tree.nodes_numbered(),
    ensures
        tree.with_leaf_split(target, next).nodes_numbered(),
    decreases tree,
{
    match tree.children {
        None => {
            reveal_with_fuel(QuadTree::nodes_numbered, 2);
        },
        Some(c) => {
            let quadrant = if c.nw.leaf_to_split(target) is Some {
                c.nw
            } else if c.ne.leaf_to_split(target) is Some {
                c.ne
            } else if c.sw.leaf_to_split(target) is Some {
                c.sw
            } else {
                c.se
            };
            law_split_keeps_nodes_numbered(quadrant, target, next);
        },
    }
}

/// A merge leaves every node with a number.
pub proof fn law_merge_keeps_nodes_numbered(tree: QuadTree, populations: Map<u32, usize>, max_pop: nat)
    requires
        tree.nodes_numbered(),
    ensures
        tree.merge_result(populations, max_pop) matches Some((after, parent, shards))
            ==> after.nodes_numbered(),
    decreases tree,
{
    if let Some(c) = tree.children {
        let quadrant = if c.nw.merge_result(populations, max_pop) is Some {
            c.nw
        } else if c.ne.merge_result(populations, max_pop) is Some {
            c.ne
        } else if c.sw.merge_result(populations, max_pop) is Some {
            c.sw
        } else {
            c.se
        };
        law_merge_keeps_nodes_numbered(quadrant, populations, max_pop);
    }
}

/// A collapse leaves every node with a number.
pub proof fn law_collapse_keeps_nodes_numbered(tree: QuadTree, crashed: Seq<u32>)
    requires
        tree.nodes_numbered(),
    ensures
        tree.collapsed(crashed).nodes_numbered(),
    decreases tree,
{
    if let Some(c) = tree.children {
        law_collapse_keeps_nodes_numbered(c.nw, crashed);
        law_collapse_keeps_nodes_numbered(c.ne, crashed);
        law_collapse_keeps_nodes_numbered(c.sw, crashed);
        law_collapse_keeps_nodes_numbered(c.se, crashed);
    }
}

/// Shards are merged only where they have few clients together.
pub proof fn law_merged_shards_are_sparse(
    tree: QuadTree,
    populations: Map<u32, usize>,
    max_pop: nat,
)
    ensures
        tree.merge_result(populations, max_pop) matches Some((after, parent, shards)) ==> {
            &&& shards.len() == 4
            &&& population_of(populations, shards[0]) + population_of(populations, shards[1])
                + population_of(populations, shards[2]) + population_of(populations, shards[3])
                <= max_pop
        },
    decreases tree,
{
    if let Some(c) = tree.children {
        law_merged_shards_are_sparse(c.nw, populations, max_pop);
        law_merged_shards_are_sparse(c.ne, populations, max_pop);
        law_merged_shards_are_sparse(c.sw, populations, max_pop);
        law_merged_shards_are_sparse(c.se, populations, max_pop);
    }
}

/// The number of a leaf is among its numbers.
proof fn lemma_own_number(tree: QuadTree)
    requires
        tree.is_leaf(),
        tree.leaves_numbered(),
    ensures
        tree.all_numbers().contains(tree.shard_id->0),
{
}

/// The merged shards are numbers of the tree.
proof fn lemma_merged_are_numbers(tree: QuadTree, populations: Map<u32, usize>, max_pop: nat)
    requires
        tree.leaves_numbered(),
    ensures
        tree.merge_result(populations, max_pop) matches Some((after, parent, merged)) ==> forall|
            id: u32,
        | #[trigger]
            merged.contains(id) ==> tree.all_numbers().contains(id),
    decreases tree,
{
    if let Some(c) = tree.children {
        if let Some((after, parent, merged)) = tree.merge_result(populations, max_pop) {
            if c.nw.merge_result(populations, max_pop) is Some {
                lemma_merged_are_numbers(c.nw, populations, max_pop);
            } else if c.ne.merge_result(populations, max_pop) is Some {
                lemma_merged_are_numbers(c.ne, populations, max_pop);
            } else if c.sw.merge_result(populations, max_pop) is Some {
                lemma_merged_are_numbers(c.sw, populations, max_pop);
            } else if c.se.merge_result(populations, max_pop) is Some {
                lemma_merged_are_numbers(c.se, populations, max_pop);
            } else {
                lemma_own_number(c.nw);
                lemma_own_number(c.ne);
                lemma_own_number(c.sw);
                lemma_own_number(c.se);
                assert forall|id: u32| #[trigger] merged.contains(
                    id,
                ) implies tree.all_numbers().contains(id) by {
                    let k = choose|k: int| 0 <= k < merged.len() && merged[k] == id;
                    assert(merged == c.numbers());
                    assert(k == 0 || k == 1 || k == 2 || k == 3);
                }
            }
        }
    }
}

/// Where a position goes when shards are merged.
pub open spec fn gathered(shard: Option<u32>, parent: u32, merged: Seq<u32>) -> Option<u32> {
    match shard {
        Some(id) => Some(
            if merged.contains(id) {
                parent
            } else {
                id
            },
        ),
        None => None,
    }
}

/// The shard of a position outside the numbers of a tree is not among its merged ones.
proof fn lemma_elsewhere(tree: QuadTree, other: QuadTree, merged: Seq<u32>, pos: Vec2)
    requires
        forall|id: u32| #[trigger] merged.contains(id) ==> tree.all_numbers().contains(id),
        tree.all_numbers().disjoint(other.all_numbers()),
    ensures
        forall|parent: u32| #[trigger]
            gathered(other.shard_at(pos), parent, merged) == other.shard_at(pos),
{
    law_shard_at_is_a_leaf(other, pos);
    lemma_shards_are_numbers(other);
}

/// A node that takes the place of its four quadrants takes their positions.
proof fn lemma_gathered_here(tree: QuadTree, pos: Vec2)
    requires
        tree.children matches Some(c) && c.all_leaves(),
        tree.shard_id is Some,
        tree.tiled(),
        tree.leaves_numbered(),
    ensures
        (QuadTree { children: None, ..tree }).shard_at(pos) == gathered(
            tree.shard_at(pos),
            tree.shard_id->0,
            (tree.children->0).numbers(),
        ),
{
    if tree.bounds.holds(pos) {
        law_every_position_has_a_shard(tree, pos);
    }
    reveal_with_fuel(QuadTree::shard_at, 2);
    reveal_with_fuel(QuadTree::leaves_numbered, 2);
    let c = tree.children->0;
    let merged = c.numbers();
    assert(merged[0] == c.nw.shard_id->0 && merged[1] == c.ne.shard_id->0 && merged[2]
        == c.sw.shard_id->0 && merged[3] == c.se.shard_id->0);
    assert(merged.contains(merged[0]) && merged.contains(merged[1]) && merged.contains(merged[2])
        && merged.contains(merged[3]));
}

/// A merge hands the positions of the merged shards to their parent, and moves no others.
#[verifier::spinoff_prover]
pub proof fn law_merge_gathers_its_shards(
    tree: QuadTree,
    populations: Map<u32, usize>,
    max_pop: nat,
    pos: Vec2,
)
    requires
        tree.tiled(),
        tree.leaves_numbered(),
        tree.numbers_distinct(),
    ensures
        tree.merge_result(populations, max_pop) matches Some((after, parent, merged))
            ==> after.shard_at(pos) == gathered(tree.shard_at(pos), parent, merged),
    decreases tree,
{
    if let Some(c) = tree.children {
        if let Some((after, parent, merged)) = tree.merge_result(populations, max_pop) {
            if c.nw.merge_result(populations, max_pop) is Some {
                law_merge_gathers_its_shards(c.nw, populations, max_pop, pos);
                lemma_merged_are_numbers(c.nw, populations, max_pop);
                lemma_elsewhere(c.nw, c.ne, merged, pos);
                lemma_elsewhere(c.nw, c.sw, merged, pos);
                lemma_elsewhere(c.nw, c.se, merged, pos);
            } else if c.ne.merge_result(populations, max_pop) is Some {
                law_merge_gathers_its_shards(c.ne, populations, max_pop, pos);
                lemma_merged_are_numbers(c.ne, populations, max_pop);
                lemma_elsewhere(c.ne, c.nw, merged, pos);
                lemma_elsewhere(c.ne, c.sw, merged, pos);
                lemma_elsewhere(c.ne, c.se, merged, pos);
            } else if c.sw.merge_result(populations, max_pop) is Some {
                law_merge_gathers_its_shards(c.sw, populations, max_pop, pos);
                lemma_merged_are_numbers(c.sw, populations, max_pop);
                lemma_elsewhere(c.sw, c.nw, merged, pos);
                lemma_elsewhere(c.sw, c.ne, merged, pos);
                lemma_elsewhere(c.sw, c.se, merged, pos);
            } else if c.se.merge_result(populations, max_pop) is Some {
                law_merge_gathers_its_shards(c.se, populations, max_pop, pos);
                lemma_merged_are_numbers(c.se, populations, max_pop);
                lemma_elsewhere(c.se, c.nw, merged, pos);
                lemma_elsewhere(c.se, c.ne, merged, pos);
                lemma_elsewhere(c.se, c.sw, merged, pos);
            } else {
                lemma_gathered_here(tree, pos);
            }
        }
    }
}

} // verus!
