//! Which shards are divided, merged and given up, in terms of the nodes of the tree.

use crate::geometry::{Rect, Vec2};
use crate::quadtree::QuadTree;
use crate::quadtree_laws::{law_every_position_has_a_shard, law_numbering_is_consecutive};
use vstd::prelude::*;

verus! {

/// How many clients a count holds for a node.
pub open spec fn counted(populations: Map<u32, usize>, node: QuadTree) -> nat {
    if node.shard_id is Some && populations.contains_key(node.shard_id->0) {
        populations[node.shard_id->0] as nat
    } else {
        0
    }
}

impl QuadTree {
    /// The nodes: the tree itself and everything below it.
    pub open spec fn nodes(self) -> Set<QuadTree>
        decreases self,
    {
        match self.children {
            None => set![self],
            Some(c) => set![self] + c.nw.nodes() + c.ne.nodes() + c.sw.nodes() + c.se.nodes(),
        }
    }

    /// Whether the node has a number and four leaves with a number as its quadrants.
    pub open spec fn is_family(self) -> bool {
        &&& self.shard_id is Some
        &&& self.children matches Some(c) && {
            &&& c.nw.children is None && c.nw.shard_id is Some
            &&& c.ne.children is None && c.ne.shard_id is Some
            &&& c.sw.children is None && c.sw.shard_id is Some
            &&& c.se.children is None && c.se.shard_id is Some
        }
    }

    /// Whether the node is such a family with at most `most` clients.
    pub open spec fn is_sparse(self, populations: Map<u32, usize>, most: nat) -> bool {
        &&& self.is_family()
        &&& self.children matches Some(c) && counted(populations, c.nw) + counted(
            populations,
            c.ne,
        ) + counted(populations, c.sw) + counted(populations, c.se) <= most
    }

    /// The node as the leaf it was before it was divided.
    pub open spec fn undivided(self) -> QuadTree {
        QuadTree {
            bounds: self.bounds,
            depth: self.depth,
            max_depth: self.max_depth,
            children: None,
            shard_id: self.shard_id,
        }
    }

    /// The nodes without what is below them: their areas, levels and numbers.
    pub open spec fn outlines(self) -> Set<QuadTree>
        decreases self,
    {
        match self.children {
            None => set![self],
            Some(c) => set![self.undivided()] + c.nw.outlines() + c.ne.outlines() + c.sw.outlines()
                + c.se.outlines(),
        }
    }

    /// Whether the node is one of the four quadrants of a node.
    pub open spec fn is_quadrant_of(self, node: QuadTree) -> bool {
        node.children matches Some(c) && (self == c.nw || self == c.ne || self == c.sw || self
            == c.se)
    }
}

/// The leaves of a divided node are those of its quadrants.
proof fn lemma_leaves_below(tree: QuadTree, leaf: QuadTree)
    requires
        tree.children is Some,
    ensures
        tree.leaves().contains(leaf) <==> {
            let c = *tree.children->0;
            c.nw.leaves().contains(leaf) || c.ne.leaves().contains(leaf) || c.sw.leaves().contains(
                leaf,
            ) || c.se.leaves().contains(leaf)
        },
{
}

proof fn lemma_has_leaf_below(tree: QuadTree, id: u32)
    requires
        tree.children is Some,
    ensures
        tree.has_leaf(id) <==> {
            let c = *tree.children->0;
            c.nw.has_leaf(id) || c.ne.has_leaf(id) || c.sw.has_leaf(id) || c.se.has_leaf(id)
        },
{
}

/// Where a node with few clients is, however deep and whatever is elsewhere, there is a merge.
pub proof fn law_sparse_shards_are_merged(
    tree: QuadTree,
    populations: Map<u32, usize>,
    most: nat,
    node: QuadTree,
)
    requires
        tree.nodes().contains(node),
        node.is_sparse(populations, most),
    ensures
        tree.merge_result(populations, most) is Some,
    decreases tree,
{
    if let Some(c) = tree.children {
        if node != tree {
            let quadrant = if c.nw.nodes().contains(node) {
                c.nw
            } else if c.ne.nodes().contains(node) {
                c.ne
            } else if c.sw.nodes().contains(node) {
                c.sw
            } else {
                c.se
            };
            law_sparse_shards_are_merged(quadrant, populations, most, node);
        }
    }
}

/// A merge turns one node with few clients into the leaf it was, and leaves the others as they
/// are.
#[verifier::spinoff_prover]
pub proof fn law_merges_take_a_sparse_node(
    tree: QuadTree,
    populations: Map<u32, usize>,
    most: nat,
) -> (node: QuadTree)
    requires
        tree.families_numbered(),
        tree.merge_result(populations, most) is Some,
    ensures
        tree.nodes().contains(node),
        node.is_sparse(populations, most),
        ({
            let (after, parent, shards) = tree.merge_result(populations, most)->0;
            let c = *node.children->0;
            &&& node.shard_id == Some(parent)
            &&& shards == seq![
                c.nw.shard_id->0,
                c.ne.shard_id->0,
                c.sw.shard_id->0,
                c.se.shard_id->0,
            ]
            &&& after.leaves().contains(node.undivided())
            &&& forall|leaf: QuadTree| #[trigger]
                after.leaves().contains(leaf) ==> leaf == node.undivided() || tree.leaves().contains(
                    leaf,
                )
            &&& forall|leaf: QuadTree| #[trigger]
                tree.leaves().contains(leaf) && !leaf.is_quadrant_of(node)
                    ==> after.leaves().contains(leaf)
            &&& forall|id: u32| #[trigger] after.has_leaf(id) ==> tree.has_leaf(id) || id == parent
            &&& after.bounds == tree.bounds && after.depth == tree.depth && after.max_depth
                == tree.max_depth && after.shard_id == tree.shard_id
        }),
    decreases tree,
{
    let c = *tree.children->0;
    let (after, parent, shards) = tree.merge_result(populations, most)->0;
    let nw = c.nw.merge_result(populations, most);
    let ne = c.ne.merge_result(populations, most);
    let sw = c.sw.merge_result(populations, most);
    let se = c.se.merge_result(populations, most);
    if nw is Some || ne is Some || sw is Some || se is Some {
        let quadrant = if nw is Some {
            c.nw
        } else if ne is Some {
            c.ne
        } else if sw is Some {
            c.sw
        } else {
            c.se
        };
        let node = law_merges_take_a_sparse_node(quadrant, populations, most);
        lemma_leaves_below(after, node.undivided());
        assert forall|leaf: QuadTree| #[trigger] after.leaves().contains(leaf) implies leaf
            == node.undivided() || tree.leaves().contains(leaf) by {
            lemma_leaves_below(after, leaf);
            lemma_leaves_below(tree, leaf);
        }
        assert forall|leaf: QuadTree| #[trigger] tree.leaves().contains(leaf)
            && !leaf.is_quadrant_of(node) implies after.leaves().contains(leaf) by {
            lemma_leaves_below(after, leaf);
            lemma_leaves_below(tree, leaf);
        }
        assert forall|id: u32| #[trigger] after.has_leaf(id) implies tree.has_leaf(id) || id
            == parent by {
            lemma_has_leaf_below(after, id);
            lemma_has_leaf_below(tree, id);
        }
        node
    } else {
        reveal_with_fuel(QuadTree::leaves, 2);
        assert(after == tree.undivided());
        assert(shards =~= seq![
            c.nw.shard_id->0,
            c.ne.shard_id->0,
            c.sw.shard_id->0,
            c.se.shard_id->0,
        ]);
        assert forall|leaf: QuadTree| #[trigger] tree.leaves().contains(
            leaf,
        ) implies leaf.is_quadrant_of(tree) by {
            assert(leaf == c.nw || leaf == c.ne || leaf == c.sw || leaf == c.se);
        }
        tree
    }
}

/// The outlines of a divided node are its own and those of its quadrants.
proof fn lemma_outlines_below(tree: QuadTree, outline: QuadTree)
    requires
        tree.children is Some,
    ensures
        tree.outlines().contains(outline) <==> {
            let c = *tree.children->0;
            outline == tree.undivided() || c.nw.outlines().contains(outline)
                || c.ne.outlines().contains(outline) || c.sw.outlines().contains(outline)
                || c.se.outlines().contains(outline)
        },
{
}

/// A merge takes nothing away but the four leaves of a node, and changes nothing else: every
/// other node keeps its area, its level and its number.
#[verifier::spinoff_prover]
pub proof fn law_merges_keep_the_other_nodes(
    tree: QuadTree,
    populations: Map<u32, usize>,
    most: nat,
) -> (node: QuadTree)
    requires
        tree.families_numbered(),
        tree.merge_result(populations, most) is Some,
    ensures
        node.is_family(),
        node.shard_id == Some((tree.merge_result(populations, most)->0).1),
        ({
            let after = (tree.merge_result(populations, most)->0).0;
            forall|outline: QuadTree| #[trigger]
                tree.outlines().contains(outline) <==> after.outlines().contains(outline)
                    || outline.is_quadrant_of(node)
        }),
    decreases tree,
{
    let c = *tree.children->0;
    let (after, parent, shards) = tree.merge_result(populations, most)->0;
    let nw = c.nw.merge_result(populations, most);
    let ne = c.ne.merge_result(populations, most);
    let sw = c.sw.merge_result(populations, most);
    let se = c.se.merge_result(populations, most);
    if nw is Some || ne is Some || sw is Some || se is Some {
        let quadrant = if nw is Some {
            c.nw
        } else if ne is Some {
            c.ne
        } else if sw is Some {
            c.sw
        } else {
            c.se
        };
        let node = law_merges_keep_the_other_nodes(quadrant, populations, most);
        assert(after.undivided() == tree.undivided());
        assert forall|outline: QuadTree| #[trigger] tree.outlines().contains(
            outline,
        ) <==> after.outlines().contains(outline) || outline.is_quadrant_of(node) by {
            lemma_outlines_below(after, outline);
            lemma_outlines_below(tree, outline);
        }
        node
    } else {
        reveal_with_fuel(QuadTree::outlines, 2);
        assert(after == tree.undivided());
        assert forall|outline: QuadTree| #[trigger] tree.outlines().contains(
            outline,
        ) <==> after.outlines().contains(outline) || outline.is_quadrant_of(tree) by {
            lemma_outlines_below(tree, outline);
        }
        tree
    }
}

/// A division adds nothing but the four new leaves, and changes nothing else: every node keeps its
/// area, its level and its number.
#[verifier::spinoff_prover]
pub proof fn law_divisions_keep_the_other_nodes(tree: QuadTree, target: u32, next: int) -> (leaf:
    QuadTree)
    requires
        tree.leaf_to_split(target) is Some,
    ensures
        Some(leaf) == tree.leaf_to_split(target),
        forall|outline: QuadTree| #[trigger]
            tree.with_leaf_split(target, next).outlines().contains(outline)
                <==> tree.outlines().contains(outline) || is_new_quadrant(outline, leaf, next),
    decreases tree,
{
    let after = tree.with_leaf_split(target, next);
    match tree.children {
        None => {
            reveal_with_fuel(QuadTree::outlines, 2);
            let c = *after.children->0;
            assert(after.undivided() == tree);
            assert forall|outline: QuadTree| #[trigger] after.outlines().contains(
                outline,
            ) <==> tree.outlines().contains(outline) || is_new_quadrant(outline, tree, next) by {
                lemma_outlines_below(after, outline);
                if is_new_quadrant(outline, tree, next) {
                    assert(outline == c.nw || outline == c.ne || outline == c.sw || outline
                        == c.se);
                }
            }
            tree
        },
        Some(c) => {
            let quadrant = if c.nw.leaf_to_split(target) is Some {
                c.nw
            } else if c.ne.leaf_to_split(target) is Some {
                c.ne
            } else if c.sw.leaf_to_split(target) is Some {
                c.sw
            } else {
                c.se
            };
            let leaf = law_divisions_keep_the_other_nodes(quadrant, target, next);
            assert(after.undivided() == tree.undivided());
            assert forall|outline: QuadTree| #[trigger] after.outlines().contains(
                outline,
            ) <==> tree.outlines().contains(outline) || is_new_quadrant(outline, leaf, next) by {
                lemma_outlines_below(after, outline);
                lemma_outlines_below(tree, outline);
            }
            leaf
        },
    }
}

/// A crash adds no node and changes none: whatever is left has the area, the level and the number
/// that it had.
#[verifier::spinoff_prover]
pub proof fn law_crashes_change_no_node(tree: QuadTree, crashed: Seq<u32>)
    ensures
        forall|outline: QuadTree| #[trigger]
            tree.collapsed(crashed).outlines().contains(outline) ==> tree.outlines().contains(
                outline,
            ),
        tree.collapsed(crashed).undivided() == tree.undivided(),
    decreases tree,
{
    let after = tree.collapsed(crashed);
    if let Some(c) = tree.children {
        if tree.collapses(crashed) {
            lemma_outlines_below(tree, after);
        } else {
            law_crashes_change_no_node(c.nw, crashed);
            law_crashes_change_no_node(c.ne, crashed);
            law_crashes_change_no_node(c.sw, crashed);
            law_crashes_change_no_node(c.se, crashed);
            assert forall|outline: QuadTree| #[trigger] after.outlines().contains(
                outline,
            ) implies tree.outlines().contains(outline) by {
                lemma_outlines_below(after, outline);
                lemma_outlines_below(tree, outline);
            }
        }
    }
}

/// After a crash a leaf is one that was a leaf before, or a node with a crashed leaf directly
/// below it.
#[verifier::spinoff_prover]
pub proof fn law_leaves_after_a_crash(tree: QuadTree, crashed: Seq<u32>, leaf: QuadTree)
    requires
        tree.collapsed(crashed).leaves().contains(leaf),
    ensures
        tree.leaves().contains(leaf) || exists|node: QuadTree| #[trigger]
            tree.nodes().contains(node) && gives_way(node, crashed) && leaf == node.undivided(),
    decreases tree,
{
    let after = tree.collapsed(crashed);
    if let Some(c) = tree.children {
        if tree.collapses(crashed) {
            lemma_gives_way(tree, crashed);
            assert(tree.nodes().contains(tree));
            assert(leaf == tree.undivided());
        } else {
            let d = *after.children->0;
            lemma_leaves_below(after, leaf);
            lemma_leaves_below(tree, leaf);
            let quadrant = if d.nw.leaves().contains(leaf) {
                c.nw
            } else if d.ne.leaves().contains(leaf) {
                c.ne
            } else if d.sw.leaves().contains(leaf) {
                c.sw
            } else {
                c.se
            };
            law_leaves_after_a_crash(quadrant, crashed, leaf);
            if !quadrant.leaves().contains(leaf) {
                let node = choose|node: QuadTree| #[trigger]
                    quadrant.nodes().contains(node) && gives_way(node, crashed) && leaf
                        == node.undivided();
                assert(tree.nodes().contains(node));
            }
        }
    }
}

/// Where several nodes could be merged, one in an earlier quadrant is: north-west, north-east,
/// south-west, south-east. The later quadrants stay as they are.
pub proof fn law_merges_come_quadrant_by_quadrant(
    tree: QuadTree,
    populations: Map<u32, usize>,
    most: nat,
    node: QuadTree,
)
    requires
        tree.families_numbered(),
        tree.children is Some,
        node.is_sparse(populations, most),
    ensures
        ({
            let c = *tree.children->0;
            let after = *((tree.merge_result(populations, most)->0).0).children->0;
            let idle = |quadrant: QuadTree|
                forall|n: QuadTree| #[trigger]
                    quadrant.nodes().contains(n) ==> !n.is_sparse(populations, most);
            &&& c.nw.nodes().contains(node) ==> after.ne == c.ne && after.sw == c.sw && after.se
                == c.se
            &&& c.ne.nodes().contains(node) && idle(c.nw) ==> after.nw == c.nw && after.sw == c.sw
                && after.se == c.se
            &&& c.sw.nodes().contains(node) && idle(c.nw) && idle(c.ne) ==> after.nw == c.nw
                && after.ne == c.ne && after.se == c.se
            &&& c.se.nodes().contains(node) && idle(c.nw) && idle(c.ne) && idle(c.sw) ==> after.nw
                == c.nw && after.ne == c.ne && after.sw == c.sw
        }),
{
    let c = *tree.children->0;
    if c.nw.nodes().contains(node) {
        law_sparse_shards_are_merged(c.nw, populations, most, node);
    }
    if c.ne.nodes().contains(node) {
        law_sparse_shards_are_merged(c.ne, populations, most, node);
    }
    if c.sw.nodes().contains(node) {
        law_sparse_shards_are_merged(c.sw, populations, most, node);
    }
    if c.se.nodes().contains(node) {
        law_sparse_shards_are_merged(c.se, populations, most, node);
    }
    if c.nw.merge_result(populations, most) is Some {
        let n = law_merges_take_a_sparse_node(c.nw, populations, most);
    }
    if c.ne.merge_result(populations, most) is Some {
        let n = law_merges_take_a_sparse_node(c.ne, populations, most);
    }
    if c.sw.merge_result(populations, most) is Some {
        let n = law_merges_take_a_sparse_node(c.sw, populations, most);
    }
}

/// A leaf above the deepest level is found by its number.
pub proof fn law_shards_to_divide_are_found(tree: QuadTree, target: u32, leaf: QuadTree)
    requires
        tree.leaves().contains(leaf),
        leaf.shard_id == Some(target),
        leaf.depth < leaf.max_depth,
    ensures
        tree.leaf_to_split(target) is Some,
    decreases tree,
{
    if let Some(c) = tree.children {
        let quadrant = if c.nw.leaves().contains(leaf) {
            c.nw
        } else if c.ne.leaves().contains(leaf) {
            c.ne
        } else if c.sw.leaves().contains(leaf) {
            c.sw
        } else {
            c.se
        };
        law_shards_to_divide_are_found(quadrant, target, leaf);
    }
}

/// Whether a leaf is one of the four into which another is divided, with its number.
pub open spec fn is_new_quadrant(new: QuadTree, old_leaf: QuadTree, next: int) -> bool {
    &&& new.children is None
    &&& new.depth == old_leaf.depth + 1
    &&& new.max_depth == old_leaf.max_depth
    &&& {
        ||| new.bounds == old_leaf.bounds.north_west() && new.shard_id == Some(next as u32)
        ||| new.bounds == old_leaf.bounds.north_east() && new.shard_id == Some((next + 1) as u32)
        ||| new.bounds == old_leaf.bounds.south_west() && new.shard_id == Some((next + 2) as u32)
        ||| new.bounds == old_leaf.bounds.south_east() && new.shard_id == Some((next + 3) as u32)
    }
}

/// A division turns one leaf with the number into a node with its quadrants as leaves, and
/// leaves the others as they are.
#[verifier::spinoff_prover]
pub proof fn law_divisions_take_one_leaf(tree: QuadTree, target: u32, next: int) -> (leaf: QuadTree)
    requires
        tree.leaf_to_split(target) is Some,
    ensures
        Some(leaf) == tree.leaf_to_split(target),
        tree.leaves().contains(leaf),
        leaf.shard_id == Some(target),
        leaf.children is None,
        leaf.depth < leaf.max_depth,
        ({
            let after = tree.with_leaf_split(target, next);
            &&& forall|new: QuadTree| #[trigger]
                is_new_quadrant(new, leaf, next) ==> after.leaves().contains(new)
            &&& forall|other: QuadTree| #[trigger]
                after.leaves().contains(other) ==> tree.leaves().contains(other)
                    || is_new_quadrant(other, leaf, next)
            &&& forall|other: QuadTree| #[trigger]
                tree.leaves().contains(other) && other != leaf ==> after.leaves().contains(other)
            &&& after.bounds == tree.bounds && after.depth == tree.depth && after.max_depth
                == tree.max_depth && after.shard_id == tree.shard_id
        }),
    decreases tree,
{
    let after = tree.with_leaf_split(target, next);
    match tree.children {
        None => {
            reveal_with_fuel(QuadTree::leaves, 2);
            let c = *after.children->0;
            assert forall|new: QuadTree| #[trigger] is_new_quadrant(
                new,
                tree,
                next,
            ) implies after.leaves().contains(new) by {
                assert(new == c.nw || new == c.ne || new == c.sw || new == c.se);
            }
            assert forall|other: QuadTree| #[trigger]
                after.leaves().contains(other) implies is_new_quadrant(other, tree, next) by {
                assert(other == c.nw || other == c.ne || other == c.sw || other == c.se);
            }
            tree
        },
        Some(c) => {
            let quadrant = if c.nw.leaf_to_split(target) is Some {
                c.nw
            } else if c.ne.leaf_to_split(target) is Some {
                c.ne
            } else if c.sw.leaf_to_split(target) is Some {
                c.sw
            } else {
                c.se
            };
            let leaf = law_divisions_take_one_leaf(quadrant, target, next);
            lemma_leaves_below(tree, leaf);
            assert forall|new: QuadTree| #[trigger] is_new_quadrant(
                new,
                leaf,
                next,
            ) implies after.leaves().contains(new) by {
                lemma_leaves_below(after, new);
            }
            assert forall|other: QuadTree| #[trigger] after.leaves().contains(
                other,
            ) implies tree.leaves().contains(other) || is_new_quadrant(other, leaf, next) by {
                lemma_leaves_below(after, other);
                lemma_leaves_below(tree, other);
            }
            assert forall|other: QuadTree| #[trigger] tree.leaves().contains(other) && other
                != leaf implies after.leaves().contains(other) by {
                lemma_leaves_below(after, other);
                lemma_leaves_below(tree, other);
            }
            leaf
        },
    }
}

/// A node is divided exactly where it is a leaf above the deepest level. Its quadrants are leaves
/// one level deeper, with the given numbers; the node keeps its own.
pub proof fn law_nodes_are_divided_once(
    node: QuadTree,
    nw: Option<u32>,
    ne: Option<u32>,
    sw: Option<u32>,
    se: Option<u32>,
)
    ensures
        node.can_split() <==> node.children is None && node.depth < node.max_depth,
        node.can_split() ==> {
            let after = node.divided(nw, ne, sw, se);
            let c = *after.children->0;
            let leaf = |q: QuadTree|
                q.children is None && q.depth == node.depth + 1 && q.max_depth == node.max_depth;
            &&& after.children is Some
            &&& after.undivided() == node
            &&& !after.can_split()
            &&& leaf(c.nw) && c.nw.bounds == node.bounds.north_west() && c.nw.shard_id == nw
            &&& leaf(c.ne) && c.ne.bounds == node.bounds.north_east() && c.ne.shard_id == ne
            &&& leaf(c.sw) && c.sw.bounds == node.bounds.south_west() && c.sw.shard_id == sw
            &&& leaf(c.se) && c.se.bounds == node.bounds.south_east() && c.se.shard_id == se
        },
{
}

/// A new node is a leaf with what it is given.
pub proof fn law_new_nodes_are_leaves(bounds: Rect, depth: u8, max_depth: u8, shard_id: Option<u32>)
    ensures
        ({
            let node = QuadTree::leaf(bounds, depth, max_depth, shard_id);
            &&& node.bounds == bounds
            &&& node.depth == depth
            &&& node.max_depth == max_depth
            &&& node.shard_id == shard_id
            &&& node.children is None
        }),
{
}

/// Numbering goes quadrant by quadrant: every number in an earlier quadrant is smaller than every
/// number in a later one. Nothing but the numbers of the leaves changes.
pub proof fn law_numbering_goes_quadrant_by_quadrant(tree: QuadTree, next: int, a: u32, b: u32)
    requires
        0 <= next,
        next + tree.leaf_count() <= u32::MAX,
        tree.children is Some,
    ensures
        ({
            let after = tree.numbered_from(next);
            let c = *after.children->0;
            &&& after.children is Some
            &&& after.shard_id == tree.shard_id && after.bounds == tree.bounds && after.depth
                == tree.depth && after.max_depth == tree.max_depth
            &&& c.nw.shards().contains(a) && (c.ne.shards().contains(b) || c.sw.shards().contains(b)
                || c.se.shards().contains(b)) ==> a < b
            &&& c.ne.shards().contains(a) && (c.sw.shards().contains(b) || c.se.shards().contains(
                b,
            )) ==> a < b
            &&& c.sw.shards().contains(a) && c.se.shards().contains(b) ==> a < b
            &&& tree.leaf_count() == c.nw.leaf_count() + c.ne.leaf_count() + c.sw.leaf_count()
                + c.se.leaf_count()
            &&& c.nw == tree.children->0.nw.numbered_from(next)
            &&& c.ne == tree.children->0.ne.numbered_from(next + c.nw.leaf_count())
            &&& c.sw == tree.children->0.sw.numbered_from(
                next + c.nw.leaf_count() + c.ne.leaf_count(),
            )
            &&& c.se == tree.children->0.se.numbered_from(
                next + c.nw.leaf_count() + c.ne.leaf_count() + c.sw.leaf_count(),
            )
        }),
{
    let c = *tree.children->0;
    let after_nw = next + c.nw.leaf_count();
    let after_ne = after_nw + c.ne.leaf_count();
    let after_sw = after_ne + c.sw.leaf_count();
    law_numbering_is_consecutive(c.nw, next);
    law_numbering_is_consecutive(c.ne, after_nw);
    law_numbering_is_consecutive(c.sw, after_ne);
    law_numbering_is_consecutive(c.se, after_sw);
}

/// A leaf is numbered with the next number, and counts as one.
pub proof fn law_a_leaf_gets_the_next_number(tree: QuadTree, next: int)
    requires
        tree.children is None,
    ensures
        tree.leaf_count() == 1,
        tree.numbered_from(next).undivided() == tree.numbered_from(next),
        tree.numbered_from(next).shard_id == Some(next as u32),
        tree.numbered_from(next).bounds == tree.bounds,
        tree.numbered_from(next).depth == tree.depth,
        tree.numbered_from(next).max_depth == tree.max_depth,
{
}

/// Whoever is in a shard is inside its area.
pub proof fn law_positions_are_inside_their_shard(tree: QuadTree, pos: Vec2) -> (leaf: QuadTree)
    requires
        tree.shard_at(pos) is Some,
    ensures
        tree.leaves().contains(leaf),
        leaf.shard_id == tree.shard_at(pos),
        leaf.bounds.holds(pos),
    decreases tree,
{
    match tree.children {
        None => tree,
        Some(c) => {
            if c.nw.shard_at(pos) is Some {
                law_positions_are_inside_their_shard(c.nw, pos)
            } else if c.ne.shard_at(pos) is Some {
                law_positions_are_inside_their_shard(c.ne, pos)
            } else if c.sw.shard_at(pos) is Some {
                law_positions_are_inside_their_shard(c.sw, pos)
            } else {
                law_positions_are_inside_their_shard(c.se, pos)
            }
        },
    }
}

/// Where areas meet, the earlier quadrant takes the position: north-west, north-east, south-west,
/// south-east.
pub proof fn law_borders_belong_to_the_earlier_quadrant(tree: QuadTree, pos: Vec2)
    requires
        tree.tiled(),
        tree.leaves_numbered(),
        tree.bounds.holds(pos),
        tree.children is Some,
    ensures
        ({
            let c = *tree.children->0;
            &&& c.nw.bounds.holds(pos) ==> tree.shard_at(pos) == c.nw.shard_at(pos)
            &&& !c.nw.bounds.holds(pos) && c.ne.bounds.holds(pos) ==> tree.shard_at(pos)
                == c.ne.shard_at(pos)
            &&& !c.nw.bounds.holds(pos) && !c.ne.bounds.holds(pos) && c.sw.bounds.holds(pos)
                ==> tree.shard_at(pos) == c.sw.shard_at(pos)
            &&& !c.nw.bounds.holds(pos) && !c.ne.bounds.holds(pos) && !c.sw.bounds.holds(pos)
                ==> tree.shard_at(pos) == c.se.shard_at(pos)
        }),
{
    let c = *tree.children->0;
    if c.nw.bounds.holds(pos) {
        law_every_position_has_a_shard(c.nw, pos);
    }
    if c.ne.bounds.holds(pos) {
        law_every_position_has_a_shard(c.ne, pos);
    }
    if c.sw.bounds.holds(pos) {
        law_every_position_has_a_shard(c.sw, pos);
    }
}

/// A leaf has a number exactly where it is among the leaves.
pub proof fn law_leaves_have_their_numbers(tree: QuadTree, shard: u32) -> (leaf: QuadTree)
    requires
        tree.has_leaf(shard),
    ensures
        tree.leaves().contains(leaf),
        leaf.shard_id == Some(shard),
        leaf.children is None,
    decreases tree,
{
    match tree.children {
        None => tree,
        Some(c) => {
            if c.nw.has_leaf(shard) {
                law_leaves_have_their_numbers(c.nw, shard)
            } else if c.ne.has_leaf(shard) {
                law_leaves_have_their_numbers(c.ne, shard)
            } else if c.sw.has_leaf(shard) {
                law_leaves_have_their_numbers(c.sw, shard)
            } else {
                law_leaves_have_their_numbers(c.se, shard)
            }
        },
    }
}

/// Every leaf of the tree is there under its number.
pub proof fn law_leaves_are_there(tree: QuadTree, leaf: QuadTree, shard: u32)
    requires
        tree.leaves().contains(leaf),
        leaf.shard_id == Some(shard),
    ensures
        tree.has_leaf(shard),
    decreases tree,
{
    if let Some(c) = tree.children {
        let quadrant = if c.nw.leaves().contains(leaf) {
            c.nw
        } else if c.ne.leaves().contains(leaf) {
            c.ne
        } else if c.sw.leaves().contains(leaf) {
            c.sw
        } else {
            c.se
        };
        law_leaves_are_there(quadrant, leaf, shard);
    }
}

/// Whether a node has a number, and a leaf directly below it is one of the crashed shards.
pub open spec fn gives_way(node: QuadTree, crashed: Seq<u32>) -> bool {
    &&& node.shard_id is Some
    &&& exists|leaf: QuadTree| #[trigger]
        leaf.is_quadrant_of(node) && leaf.children is None && leaf.shard_id is Some
            && crashed.contains(leaf.shard_id->0)
}

proof fn lemma_gives_way(node: QuadTree, crashed: Seq<u32>)
    ensures
        gives_way(node, crashed) <==> node.collapses(crashed),
{
    if let Some(c) = node.children {
        assert(c.nw.is_quadrant_of(node));
        assert(c.ne.is_quadrant_of(node));
        assert(c.sw.is_quadrant_of(node));
        assert(c.se.is_quadrant_of(node));
    }
}

/// A shard is taken over exactly where a numbered node above it has a crashed leaf directly
/// below.
pub proof fn law_shards_below_a_loss_are_taken_over(
    tree: QuadTree,
    crashed: Seq<u32>,
    node: QuadTree,
    shard: u32,
)
    requires
        tree.nodes().contains(node),
        gives_way(node, crashed),
        node.has_leaf(shard),
    ensures
        tree.refuge(crashed, shard) is Some,
        tree.has_leaf(shard),
    decreases tree,
{
    lemma_gives_way(node, crashed);
    if let Some(c) = tree.children {
        if node != tree {
            let quadrant = if c.nw.nodes().contains(node) {
                c.nw
            } else if c.ne.nodes().contains(node) {
                c.ne
            } else if c.sw.nodes().contains(node) {
                c.sw
            } else {
                c.se
            };
            law_shards_below_a_loss_are_taken_over(quadrant, crashed, node, shard);
        }
    }
}

/// The shard that takes over is such a node above.
pub proof fn law_a_node_above_takes_over(tree: QuadTree, crashed: Seq<u32>, shard: u32) -> (node:
    QuadTree)
    requires
        tree.refuge(crashed, shard) is Some,
    ensures
        tree.nodes().contains(node),
        gives_way(node, crashed),
        node.has_leaf(shard),
        node.shard_id == tree.refuge(crashed, shard),
        tree.collapsed(crashed).leaves().contains(node.undivided()),
    decreases tree,
{
    let c = *tree.children->0;
    if tree.collapses(crashed) {
        lemma_gives_way(tree, crashed);
        tree
    } else if c.nw.refuge(crashed, shard) is Some {
        law_a_node_above_takes_over(c.nw, crashed, shard)
    } else if c.ne.refuge(crashed, shard) is Some {
        law_a_node_above_takes_over(c.ne, crashed, shard)
    } else if c.sw.refuge(crashed, shard) is Some {
        law_a_node_above_takes_over(c.sw, crashed, shard)
    } else {
        law_a_node_above_takes_over(c.se, crashed, shard)
    }
}

/// Where no leaf is lost, a crash changes nothing.
pub proof fn law_crashes_elsewhere_change_no_tree(tree: QuadTree, crashed: Seq<u32>)
    requires
        forall|shard: u32| crashed.contains(shard) ==> !#[trigger] tree.has_leaf(shard),
    ensures
        tree.collapsed(crashed) == tree,
    decreases tree,
{
    if let Some(c) = tree.children {
        assert(!tree.collapses(crashed)) by {
            reveal_with_fuel(QuadTree::has_leaf, 2);
            if c.nw.is_lost(crashed) {
                assert(tree.has_leaf(c.nw.shard_id->0));
            }
            if c.ne.is_lost(crashed) {
                assert(tree.has_leaf(c.ne.shard_id->0));
            }
            if c.sw.is_lost(crashed) {
                assert(tree.has_leaf(c.sw.shard_id->0));
            }
            if c.se.is_lost(crashed) {
                assert(tree.has_leaf(c.se.shard_id->0));
            }
        }
        assert forall|shard: u32| crashed.contains(shard) implies !#[trigger] c.nw.has_leaf(shard) by {
            assert(!tree.has_leaf(shard));
        }
        assert forall|shard: u32| crashed.contains(shard) implies !#[trigger] c.ne.has_leaf(shard) by {
            assert(!tree.has_leaf(shard));
        }
        assert forall|shard: u32| crashed.contains(shard) implies !#[trigger] c.sw.has_leaf(shard) by {
            assert(!tree.has_leaf(shard));
        }
        assert forall|shard: u32| crashed.contains(shard) implies !#[trigger] c.se.has_leaf(shard) by {
            assert(!tree.has_leaf(shard));
        }
        law_crashes_elsewhere_change_no_tree(c.nw, crashed);
        law_crashes_elsewhere_change_no_tree(c.ne, crashed);
        law_crashes_elsewhere_change_no_tree(c.sw, crashed);
        law_crashes_elsewhere_change_no_tree(c.se, crashed);
    }
}

proof fn lemma_leaf_is_a_number(tree: QuadTree, shard: u32)
    requires
        tree.has_leaf(shard),
    ensures
        tree.all_numbers().contains(shard),
    decreases tree,
{
    if let Some(c) = tree.children {
        let quadrant = if c.nw.has_leaf(shard) {
            c.nw
        } else if c.ne.has_leaf(shard) {
            c.ne
        } else if c.sw.has_leaf(shard) {
            c.sw
        } else {
            c.se
        };
        lemma_leaf_is_a_number(quadrant, shard);
    }
}

proof fn lemma_refuge_of_a_leaf(tree: QuadTree, crashed: Seq<u32>, shard: u32)
    ensures
        tree.refuge(crashed, shard) is Some ==> tree.has_leaf(shard),
    decreases tree,
{
    if let Some(c) = tree.children {
        lemma_refuge_of_a_leaf(c.nw, crashed, shard);
        lemma_refuge_of_a_leaf(c.ne, crashed, shard);
        lemma_refuge_of_a_leaf(c.sw, crashed, shard);
        lemma_refuge_of_a_leaf(c.se, crashed, shard);
    }
}

proof fn lemma_shard_at_is_there(tree: QuadTree, pos: Vec2)
    ensures
        tree.shard_at(pos) matches Some(id) ==> tree.has_leaf(id),
    decreases tree,
{
    if let Some(c) = tree.children {
        lemma_shard_at_is_there(c.nw, pos);
        lemma_shard_at_is_there(c.ne, pos);
        lemma_shard_at_is_there(c.sw, pos);
        lemma_shard_at_is_there(c.se, pos);
    }
}

/// After a crash every position belongs to the shard that takes over, where its own shard is
/// taken over, and otherwise to the shard it belonged to.
#[verifier::spinoff_prover]
pub proof fn law_positions_move_with_their_shard(tree: QuadTree, crashed: Seq<u32>, pos: Vec2)
    requires
        tree.tiled(),
        tree.leaves_numbered(),
        tree.numbers_distinct(),
        tree.bounds.holds(pos),
    ensures
        tree.shard_at(pos) is Some,
        ({
            let own = tree.shard_at(pos)->0;
            tree.collapsed(crashed).shard_at(pos) == if tree.refuge(crashed, own) is Some {
                tree.refuge(crashed, own)
            } else {
                Some(own)
            }
        }),
    decreases tree,
{
    law_every_position_has_a_shard(tree, pos);
    let after = tree.collapsed(crashed);
    if let Some(c) = tree.children {
        let own = tree.shard_at(pos)->0;
        lemma_shard_at_is_there(tree, pos);
        if tree.collapses(crashed) {
            assert(after.shard_at(pos) == tree.shard_id);
            assert(tree.refuge(crashed, own) == tree.shard_id);
        } else {
            let d = *after.children->0;
            law_borders_belong_to_the_earlier_quadrant(tree, pos);
            c.nw.lemma_collapse_keeps(crashed);
            c.ne.lemma_collapse_keeps(crashed);
            c.sw.lemma_collapse_keeps(crashed);
            c.se.lemma_collapse_keeps(crashed);
            let quadrant = if c.nw.bounds.holds(pos) {
                c.nw
            } else if c.ne.bounds.holds(pos) {
                c.ne
            } else if c.sw.bounds.holds(pos) {
                c.sw
            } else {
                c.se
            };
            assert(quadrant.bounds.holds(pos));
            law_positions_move_with_their_shard(quadrant, crashed, pos);
            lemma_shard_at_is_there(quadrant, pos);
            lemma_leaf_is_a_number(quadrant, own);
            lemma_refuge_of_a_leaf(c.nw, crashed, own);
            lemma_refuge_of_a_leaf(c.ne, crashed, own);
            lemma_refuge_of_a_leaf(c.sw, crashed, own);
            lemma_refuge_of_a_leaf(c.se, crashed, own);
            if c.nw.has_leaf(own) {
                lemma_leaf_is_a_number(c.nw, own);
            }
            if c.ne.has_leaf(own) {
                lemma_leaf_is_a_number(c.ne, own);
            }
            if c.sw.has_leaf(own) {
                lemma_leaf_is_a_number(c.sw, own);
            }
            if c.se.has_leaf(own) {
                lemma_leaf_is_a_number(c.se, own);
            }
            assert(tree.refuge(crashed, own) == quadrant.refuge(crashed, own));
            assert(quadrant.shard_at(pos) == Some(own));
            assert(quadrant.collapsed(crashed).shard_at(pos) is Some);
            assert(!c.nw.bounds.holds(pos) ==> d.nw.shard_at(pos) is None);
            assert(!c.ne.bounds.holds(pos) ==> d.ne.shard_at(pos) is None);
            assert(!c.sw.bounds.holds(pos) ==> d.sw.shard_at(pos) is None);
            assert(after.bounds.holds(pos));
            assert(after.shard_at(pos) == quadrant.collapsed(crashed).shard_at(pos));
        }
    }
}

} // verus!
