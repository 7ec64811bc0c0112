//! The spatial service: which shard owns a client, which shards it listens to, and when a
//! shard is divided or merged.

use crate::binary32::Binary32;
use crate::geometry::Vec2;
use crate::quadtree::{is_margin, QuadTree};
use crate::sorted::{self, ascending, in_order, sort_distinct};
use crate::topics::{shard_topic, topic_for_shard};
use std::collections::{HashMap, HashSet};
use vstd::prelude::*;
use vstd::std_specs::hash::spec_keys_iter;
use vstd::std_specs::iter::IteratorSpec;

verus! {

broadcast use vstd::std_specs::hash::group_hash_axioms;

/// Where a client is.
#[derive(Clone, Copy, Debug)]
pub struct PositionUpdate {
    pub client_id: u32,
    pub x: Binary32,
    pub y: Binary32,
}

impl PositionUpdate {
    pub open spec fn position(self) -> Vec2 {
        Vec2 { x: self.x, y: self.y }
    }
}

/// What the service asks the servers around it to do.
#[derive(Clone, Debug, PartialEq, Eq)]
pub enum SpatialAction {
    Subscribe { client_id: u32, topic: [u8; 32] },
    Unsubscribe { client_id: u32, topic: [u8; 32] },
    CrossingAlert { client_id: u32, shards: Vec<u32> },
    AuthorityChange { client_id: u32, old_shard: u32, new_shard: u32 },
    ScaleUp { parent_shard: u32, new_shards: Vec<u32> },
    ScaleDown { parent_shard: u32, old_shards: Vec<u32> },
}

/// A `SpatialAction` with its contents as sequences.
pub enum ActionView {
    Subscribe { client_id: u32, topic: Seq<u8> },
    Unsubscribe { client_id: u32, topic: Seq<u8> },
    CrossingAlert { client_id: u32, shards: Seq<u32> },
    AuthorityChange { client_id: u32, old_shard: u32, new_shard: u32 },
    ScaleUp { parent_shard: u32, new_shards: Seq<u32> },
    ScaleDown { parent_shard: u32, old_shards: Seq<u32> },
}

impl View for SpatialAction {
    type V = ActionView;

    open spec fn view(&self) -> ActionView {
        match *self {
            SpatialAction::Subscribe { client_id, topic } => ActionView::Subscribe {
                client_id,
                topic: topic@,
            },
            SpatialAction::Unsubscribe { client_id, topic } => ActionView::Unsubscribe {
                client_id,
                topic: topic@,
            },
            SpatialAction::CrossingAlert { client_id, shards } => ActionView::CrossingAlert {
                client_id,
                shards: shards@,
            },
            SpatialAction::AuthorityChange { client_id, old_shard, new_shard } => {
                ActionView::AuthorityChange { client_id, old_shard, new_shard }
            },
            SpatialAction::ScaleUp { parent_shard, new_shards } => ActionView::ScaleUp {
                parent_shard,
                new_shards: new_shards@,
            },
            SpatialAction::ScaleDown { parent_shard, old_shards } => ActionView::ScaleDown {
                parent_shard,
                old_shards: old_shards@,
            },
        }
    }
}

/// A list of actions, each with its contents as sequences.
pub open spec fn views(actions: Seq<SpatialAction>) -> Seq<ActionView> {
    actions.map_values(|a: SpatialAction| a@)
}

/// How many clients have `shard` as their primary shard.
pub open spec fn population(primary: Map<u32, u32>, shard: u32) -> nat {
    clients_of(primary, shard).len()
}

/// The clients that have `shard` as their primary shard.
pub open spec fn clients_of(primary: Map<u32, u32>, shard: u32) -> Set<u32> {
    primary.dom().filter(|client: u32| primary[client] == shard)
}

/// The population of every shard that has one.
pub open spec fn populations(primary: Map<u32, u32>) -> Map<u32, usize> {
    Map::new(
        |shard: u32| population(primary, shard) > 0,
        |shard: u32| population(primary, shard) as usize,
    )
}

/// The shard that stands in for `shard`: the one it waits for while it is not ready, else
/// itself.
pub open spec fn routed(shard: u32, pending_ready: Map<u32, u32>) -> u32 {
    if pending_ready.contains_key(shard) {
        pending_ready[shard]
    } else {
        shard
    }
}

/// A `Subscribe` for every shard of `near` that is not in `current`, in the order of `near`.
pub open spec fn subscribes(client_id: u32, near: Seq<u32>, current: Seq<u32>) -> Seq<ActionView>
    decreases near.len(),
{
    if near.len() == 0 {
        Seq::empty()
    } else {
        let earlier = subscribes(client_id, near.drop_last(), current);
        if current.contains(near.last()) {
            earlier
        } else {
            earlier.push(ActionView::Subscribe { client_id, topic: shard_topic(near.last()) })
        }
    }
}

/// An `Unsubscribe` for every shard of `current` that is not in `near`, in the order of
/// `current`.
pub open spec fn unsubscribes(client_id: u32, near: Seq<u32>, current: Seq<u32>) -> Seq<ActionView>
    decreases current.len(),
{
    if current.len() == 0 {
        Seq::empty()
    } else {
        let earlier = unsubscribes(client_id, near, current.drop_last());
        if near.contains(current.last()) {
            earlier
        } else {
            earlier.push(ActionView::Unsubscribe { client_id, topic: shard_topic(current.last()) })
        }
    }
}

pub struct SpatialService {
    pub quadtree: QuadTree,
    pub margin: Binary32,
    pub client_primary_shard: HashMap<u32, u32>,
    pub client_subscribed_shards: HashMap<u32, Vec<u32>>,
    pub next_shard_id: u32,
    pub pending_splits: HashSet<u32>,
    pub pending_merges: HashSet<u32>,
}

/// A `SpatialService` with its collections as maps and sets.
pub struct ServiceView {
    pub tree: QuadTree,
    pub margin: Binary32,
    pub primary: Map<u32, u32>,
    pub subscribed: Map<u32, Seq<u32>>,
    pub next: u32,
    pub splits: Set<u32>,
    pub merges: Set<u32>,
}

impl View for SpatialService {
    type V = ServiceView;

    open spec fn view(&self) -> ServiceView {
        ServiceView {
            tree: self.quadtree,
            margin: self.margin,
            primary: self.client_primary_shard@,
            subscribed: self.client_subscribed_shards@.map_values(|shards: Vec<u32>| shards@),
            next: self.next_shard_id,
            splits: self.pending_splits@,
            merges: self.pending_merges@,
        }
    }
}

impl ServiceView {
    /// What every service keeps: areas that can be divided, numbers where merges need them,
    /// and a margin that is at least zero.
    pub open spec fn wf(self) -> bool {
        &&& self.tree.divisible()
        &&& self.tree.families_numbered()
        &&& is_margin(self.margin)
    }

    /// The shard that takes a client at `pos`.
    pub open spec fn owner(self, pos: Vec2, pending_ready: Map<u32, u32>) -> Option<u32> {
        match self.tree.shard_at(pos) {
            Some(shard) => Some(routed(shard, pending_ready)),
            None => None,
        }
    }

    /// The shards that a client at `pos` listens to, ascending: those within the margin, and
    /// the one that takes it.
    pub open spec fn near(self, pos: Vec2, pending_ready: Map<u32, u32>) -> Seq<u32> {
        let within = self.tree.shards_within(pos, self.margin).map(
            |shard: u32| routed(shard, pending_ready),
        );
        match self.owner(pos, pending_ready) {
            Some(shard) => in_order(within.insert(shard)),
            None => in_order(within),
        }
    }

    /// The shards a client listened to so far.
    pub open spec fn subscriptions(self, client_id: u32) -> Seq<u32> {
        if self.subscribed.contains_key(client_id) {
            self.subscribed[client_id]
        } else {
            Seq::empty()
        }
    }

    /// The primary shards after a client was seen.
    pub open spec fn primary_after(
        self,
        update: PositionUpdate,
        pending_ready: Map<u32, u32>,
    ) -> Map<u32, u32> {
        match self.owner(update.position(), pending_ready) {
            Some(shard) => self.primary.insert(update.client_id, shard),
            None => self.primary,
        }
    }

    /// The shard to be divided after a client was seen: the one that takes it, where that has
    /// more than two clients and is not being divided or merged already.
    pub open spec fn crowded(
        self,
        update: PositionUpdate,
        pending_ready: Map<u32, u32>,
    ) -> Option<u32> {
        match self.owner(update.position(), pending_ready) {
            Some(shard) => if !self.splits.contains(shard) && !self.merges.contains(shard)
                && population(self.primary_after(update, pending_ready), shard) > 2 {
                Some(shard)
            } else {
                None
            },
            None => None,
        }
    }

    /// Whether seeing the client divides a leaf.
    pub open spec fn divides(self, update: PositionUpdate, pending_ready: Map<u32, u32>) -> bool {
        match self.crowded(update, pending_ready) {
            Some(shard) => self.tree.leaf_to_split(shard) is Some,
            None => false,
        }
    }

    /// Whether what seeing the client divides can be divided: the leaf has quadrants, and there
    /// are numbers left for them.
    pub open spec fn can_divide(self, update: PositionUpdate, pending_ready: Map<u32, u32>) -> bool {
        self.divides(update, pending_ready) ==> {
            &&& self.next + 4 <= u32::MAX
            &&& (self.tree.leaf_to_split(
                self.crowded(update, pending_ready)->0,
            )->0).bounds.divisible()
        }
    }

    /// The service after a client was seen.
    pub open spec fn after_update(
        self,
        update: PositionUpdate,
        pending_ready: Map<u32, u32>,
    ) -> ServiceView {
        let seen = ServiceView {
            primary: self.primary_after(update, pending_ready),
            subscribed: self.subscribed.insert(
                update.client_id,
                self.near(update.position(), pending_ready),
            ),
            ..self
        };
        match self.crowded(update, pending_ready) {
            Some(shard) => if self.divides(update, pending_ready) {
                ServiceView {
                    splits: self.splits.insert(shard),
                    tree: self.tree.with_leaf_split(shard, self.next as int),
                    next: (self.next + 4) as u32,
                    ..seen
                }
            } else {
                ServiceView { splits: self.splits.insert(shard), ..seen }
            },
            None => seen,
        }
    }

    /// The change of authority when a client moves from one shard to another.
    pub open spec fn authority_actions(
        self,
        update: PositionUpdate,
        pending_ready: Map<u32, u32>,
    ) -> Seq<ActionView> {
        match self.owner(update.position(), pending_ready) {
            Some(shard) => if self.primary.contains_key(update.client_id)
                && self.primary[update.client_id] != shard {
                seq![
                    ActionView::AuthorityChange {
                        client_id: update.client_id,
                        old_shard: self.primary[update.client_id],
                        new_shard: shard,
                    },
                ]
            } else {
                Seq::empty()
            },
            None => Seq::empty(),
        }
    }

    /// The alert when a client is near more than one shard.
    pub open spec fn crossing_actions(
        self,
        update: PositionUpdate,
        pending_ready: Map<u32, u32>,
    ) -> Seq<ActionView> {
        let near = self.near(update.position(), pending_ready);
        if near.len() > 1 {
            seq![ActionView::CrossingAlert { client_id: update.client_id, shards: near }]
        } else {
            Seq::empty()
        }
    }

    /// The request for four new shards when a leaf is divided.
    pub open spec fn split_actions(
        self,
        update: PositionUpdate,
        pending_ready: Map<u32, u32>,
    ) -> Seq<ActionView> {
        if self.divides(update, pending_ready) {
            seq![
                ActionView::ScaleUp {
                    parent_shard: self.crowded(update, pending_ready)->0,
                    new_shards: seq![
                        self.next,
                        (self.next + 1) as u32,
                        (self.next + 2) as u32,
                        (self.next + 3) as u32,
                    ],
                },
            ]
        } else {
            Seq::empty()
        }
    }

    /// The first merge that the populations allow: the tree after it, the merged shard and
    /// the shards that it replaces.
    pub open spec fn merge(self) -> Option<(QuadTree, u32, Seq<u32>)> {
        self.tree.merge_result(populations(self.primary), 1)
    }

    /// The service after it looked for a merge.
    pub open spec fn after_merge(self) -> ServiceView {
        match self.merge() {
            Some((tree, parent, shards)) => ServiceView {
                tree,
                merges: self.merges.insert(parent),
                ..self
            },
            None => self,
        }
    }

    /// The request to merge.
    pub open spec fn merge_actions(self) -> Seq<ActionView> {
        match self.merge() {
            Some((tree, parent, shards)) => seq![
                ActionView::ScaleDown { parent_shard: parent, old_shards: shards },
            ],
            None => Seq::empty(),
        }
    }

    /// The shard that takes over a client when shards crash: the one above its own shard, where
    /// that crashed.
    pub open spec fn rescuer(self, crashed: Seq<u32>, client_id: u32) -> Option<u32> {
        if self.primary.contains_key(client_id) && crashed.contains(self.primary[client_id]) {
            self.tree.refuge(crashed, self.primary[client_id])
        } else {
            None
        }
    }

    /// The clients that are taken over.
    pub open spec fn rescued(self, crashed: Seq<u32>) -> Set<u32> {
        self.primary.dom().filter(|client: u32| self.rescuer(crashed, client) is Some)
    }

    /// The service after shards crashed.
    pub open spec fn after_crash(self, crashed: Seq<u32>) -> ServiceView {
        ServiceView {
            tree: self.tree.collapsed(crashed),
            primary: self.primary.union_prefer_right(
                Map::new(
                    |client: u32| self.rescued(crashed).contains(client),
                    |client: u32| self.rescuer(crashed, client)->0,
                ),
            ),
            ..self
        }
    }

    /// The change of authority that takes over a client.
    pub open spec fn rescue(self, crashed: Seq<u32>, client_id: u32) -> ActionView {
        ActionView::AuthorityChange {
            client_id,
            old_shard: self.primary[client_id],
            new_shard: self.rescuer(crashed, client_id)->0,
        }
    }

    /// One change of authority for each client that is taken over, by ascending number.
    pub open spec fn rescue_actions(self, crashed: Seq<u32>) -> Seq<ActionView> {
        in_order(self.rescued(crashed)).map_values(|client: u32| self.rescue(crashed, client))
    }

    /// The service without a client.
    pub open spec fn without_client(self, client_id: u32) -> ServiceView {
        ServiceView {
            primary: self.primary.remove(client_id),
            subscribed: self.subscribed.remove(client_id),
            ..self
        }
    }

    /// Everything that is asked for after a client was seen, in order.
    pub open spec fn update_actions(
        self,
        update: PositionUpdate,
        pending_ready: Map<u32, u32>,
    ) -> Seq<ActionView> {
        let near = self.near(update.position(), pending_ready);
        let current = self.subscriptions(update.client_id);
        self.authority_actions(update, pending_ready) + subscribes(update.client_id, near, current)
            + unsubscribes(update.client_id, near, current) + self.crossing_actions(
            update,
            pending_ready,
        ) + self.split_actions(update, pending_ready)
    }
}

/// The shard that stands in for `shard`.
fn route(shard: u32, pending_ready: &HashMap<u32, u32>) -> (r: u32)
    ensures
        r == routed(shard, pending_ready@),
{
    match pending_ready.get(&shard) {
        Some(parent) => *parent,
        None => shard,
    }
}

/// Counting one more client of a list without repetitions.
proof fn lemma_count_step(clients: Seq<u32>, i: int, here: spec_fn(u32) -> bool)
    requires
        clients.no_duplicates(),
        0 <= i < clients.len(),
    ensures
        clients.take(i + 1).to_set().filter(here).len() == clients.take(i).to_set().filter(
            here,
        ).len() + (if here(clients[i]) {
            1int
        } else {
            0int
        }),
{
    let before = clients.take(i);
    let client = clients[i];
    assert(clients.take(i + 1) =~= before.push(client));
    before.lemma_push_to_set_commute(client);
    assert(!before.contains(client));
    vstd::seq_lib::seq_to_set_is_finite(before);
    if here(client) {
        assert(before.to_set().insert(client).filter(here) =~= before.to_set().filter(here).insert(
            client,
        ));
    } else {
        assert(before.to_set().insert(client).filter(here) =~= before.to_set().filter(here));
    }
}

/// The population of a shard with a client who comes to it.
proof fn lemma_population_after(primary: Map<u32, u32>, client_id: u32, shard: u32)
    requires
        primary.dom().finite(),
    ensures
        population(primary.insert(client_id, shard), shard) == population(primary, shard) + (
        if primary.contains_key(client_id) && primary[client_id] == shard {
            0int
        } else {
            1int
        }),
{
    assert(clients_of(primary.insert(client_id, shard), shard) =~= clients_of(
        primary,
        shard,
    ).insert(client_id));
}

/// How many clients have `shard` as their primary shard.
fn count_population(primary: &HashMap<u32, u32>, shard: u32) -> (r: usize)
    ensures
        r == population(primary@, shard),
{
    let total: usize = primary.len();
    let mut count: usize = 0;
    let ghost here = |client: u32| primary@[client] == shard;
    proof {
        let clients = spec_keys_iter(primary).remaining().unref();
        assert(clients.take(0).to_set().filter(here) =~= Set::empty());
        assert(clients.take(clients.len() as int) =~= clients);
    }
    for client in it: primary.keys()
        invariant
            it.seq().len() == primary@.dom().len(),
            it.seq().unref().to_set() == primary@.dom(),
            it.seq().no_duplicates(),
            primary@.dom().len() == total,
            here == (|client: u32| primary@[client] == shard),
            count <= it.index(),
            count == it.seq().unref().take(it.index()).to_set().filter(here).len(),
    {
        proof {
            let clients = it.seq().unref();
            assert(clients.no_duplicates());
            lemma_count_step(clients, it.index(), here);
            assert(clients.to_set().contains(clients[it.index()]));
        }
        if let Some(own) = primary.get(client) {
            if *own == shard {
                count = count + 1;
            }
        }
    }
    proof {
        let clients = spec_keys_iter(primary).remaining().unref();
        assert(clients.take(clients.len() as int) =~= clients);
        assert(clients.to_set().filter(here) =~= clients_of(primary@, shard));
    }
    count
}

/// Which clients have `shard` as their primary shard.
spec fn at_home(primary: Map<u32, u32>, shard: u32) -> spec_fn(u32) -> bool {
    |client: u32| primary[client] == shard
}

/// The population of every shard that has one.
fn count_populations(primary: &HashMap<u32, u32>) -> (r: HashMap<u32, usize>)
    ensures
        r@ == populations(primary@),
{
    let total: usize = primary.len();
    let mut counts: HashMap<u32, usize> = HashMap::new();
    proof {
        let clients = spec_keys_iter(primary).remaining().unref();
        assert forall|shard: u32|
            clients.take(0).to_set().filter(#[trigger] at_home(primary@, shard)).len() == 0 by {
            assert(clients.take(0).to_set().filter(at_home(primary@, shard)) =~= Set::empty());
        }
    }
    for client in it: primary.keys()
        invariant
            it.seq().len() == primary@.dom().len(),
            it.seq().unref().to_set() == primary@.dom(),
            it.seq().no_duplicates(),
            primary@.dom().len() == total,
            forall|shard: u32| #[trigger]
                counts@.contains_key(shard) <==> it.seq().unref().take(it.index()).to_set().filter(
                    at_home(primary@, shard),
                ).len() > 0,
            forall|shard: u32| #[trigger]
                counts@.contains_key(shard) ==> counts@[shard] <= it.index() && counts@[shard]
                    == it.seq().unref().take(it.index()).to_set().filter(
                    at_home(primary@, shard),
                ).len(),
    {
        proof {
            let clients = it.seq().unref();
            assert(clients.no_duplicates());
            assert(clients.to_set().contains(clients[it.index()]));
            assert forall|shard: u32|
                clients.take(it.index() + 1).to_set().filter(
                    #[trigger] at_home(primary@, shard),
                ).len() == clients.take(it.index()).to_set().filter(
                    at_home(primary@, shard),
                ).len() + (if primary@[clients[it.index()]] == shard {
                    1int
                } else {
                    0int
                }) by {
                lemma_count_step(clients, it.index(), at_home(primary@, shard));
            }
        }
        if let Some(shard) = primary.get(client) {
            let count: usize = match counts.get(shard) {
                Some(count) => *count,
                None => 0,
            };
            counts.insert(*shard, count + 1);
        }
    }
    proof {
        let clients = spec_keys_iter(primary).remaining().unref();
        assert(clients.take(clients.len() as int) =~= clients);
        assert forall|shard: u32| #[trigger]
            primary@.dom().filter(at_home(primary@, shard)) == clients_of(primary@, shard) by {
            assert(primary@.dom().filter(at_home(primary@, shard)) =~= clients_of(primary@, shard));
        }
        assert(counts@ =~= populations(primary@));
    }
    counts
}

/// The stand-ins of `shards`, one by one.
fn route_all(shards: &Vec<u32>, pending_ready: &HashMap<u32, u32>) -> (r: Vec<u32>)
    ensures
        r@ == shards@.map_values(|shard: u32| routed(shard, pending_ready@)),
{
    let mut r: Vec<u32> = Vec::new();
    let mut i: usize = 0;
    while i < shards.len()
        invariant
            i <= shards.len(),
            r@.len() == i,
            forall|k: int| 0 <= k < i ==> r@[k] == routed(shards@[k], pending_ready@),
        decreases shards.len() - i,
    {
        r.push(route(shards[i], pending_ready));
        i = i + 1;
    }
    proof {
        assert(r@ =~= shards@.map_values(|shard: u32| routed(shard, pending_ready@)));
    }
    r
}

/// Adds the subscriptions that are new.
fn push_subscribes(
    client_id: u32,
    near: &Vec<u32>,
    current: &Vec<u32>,
    actions: &mut Vec<SpatialAction>,
)
    ensures
        views(final(actions)@) == views(old(actions)@) + subscribes(client_id, near@, current@),
{
    let ghost before = views(actions@);
    let mut i: usize = 0;
    proof {
        assert(near@.take(0) =~= Seq::empty());
        assert(views(actions@) =~= before + subscribes(client_id, near@.take(0), current@));
    }
    while i < near.len()
        invariant
            i <= near.len(),
            views(actions@) == before + subscribes(client_id, near@.take(i as int), current@),
        decreases near.len() - i,
    {
        let shard: u32 = near[i];
        proof {
            let part = near@.take(i + 1);
            assert(part.drop_last() =~= near@.take(i as int));
            assert(part.last() == shard);
        }
        if !sorted::contains(current, shard) {
            let ghost earlier = actions@;
            actions.push(SpatialAction::Subscribe { client_id, topic: topic_for_shard(shard) });
            proof {
                assert(views(actions@) =~= views(earlier).push(actions@.last()@));
            }
        }
        i = i + 1;
        proof {
            assert(views(actions@) =~= before + subscribes(client_id, near@.take(i as int), current@));
        }
    }
    proof {
        assert(near@.take(i as int) =~= near@);
    }
}

/// Adds the subscriptions that end.
fn push_unsubscribes(
    client_id: u32,
    near: &Vec<u32>,
    current: &Vec<u32>,
    actions: &mut Vec<SpatialAction>,
)
    ensures
        views(final(actions)@) == views(old(actions)@) + unsubscribes(client_id, near@, current@),
{
    let ghost before = views(actions@);
    let mut i: usize = 0;
    proof {
        assert(current@.take(0) =~= Seq::empty());
        assert(views(actions@) =~= before + unsubscribes(client_id, near@, current@.take(0)));
    }
    while i < current.len()
        invariant
            i <= current.len(),
            views(actions@) == before + unsubscribes(client_id, near@, current@.take(i as int)),
        decreases current.len() - i,
    {
        let shard: u32 = current[i];
        proof {
            let part = current@.take(i + 1);
            assert(part.drop_last() =~= current@.take(i as int));
            assert(part.last() == shard);
        }
        if !sorted::contains(near, shard) {
            let ghost earlier = actions@;
            actions.push(SpatialAction::Unsubscribe { client_id, topic: topic_for_shard(shard) });
            proof {
                assert(views(actions@) =~= views(earlier).push(actions@.last()@));
            }
        }
        i = i + 1;
        proof {
            assert(views(actions@) =~= before + unsubscribes(
                client_id,
                near@,
                current@.take(i as int),
            ));
        }
    }
    proof {
        assert(current@.take(i as int) =~= current@);
    }
}

/// Adds one action at the end.
fn push_action(actions: &mut Vec<SpatialAction>, action: SpatialAction)
    ensures
        views(final(actions)@) == views(old(actions)@) + seq![action@],
{
    let ghost before = actions@;
    actions.push(action);
    proof {
        assert(views(actions@) =~= views(before) + seq![action@]);
    }
}

impl SpatialService {
    /// A shard with more clients than this is divided.
    pub const MAX_POPULATION: usize = 2;

    /// Four quadrants with at most this many clients together are merged.
    pub const MIN_POPULATION: usize = 1;

    pub fn new(quadtree: QuadTree, margin: Binary32, next_shard_id: u32) -> (r: SpatialService)
        ensures
            r@ == (ServiceView {
                tree: quadtree,
                margin,
                primary: Map::empty(),
                subscribed: Map::empty(),
                next: next_shard_id,
                splits: Set::empty(),
                merges: Set::empty(),
            }),
    {
        let r: SpatialService = SpatialService {
            quadtree,
            margin,
            client_primary_shard: HashMap::new(),
            client_subscribed_shards: HashMap::new(),
            next_shard_id,
            pending_splits: HashSet::new(),
            pending_merges: HashSet::new(),
        };
        proof {
            assert(r@.subscribed =~= Map::empty());
        }
        r
    }

    /// The shards that a client at `pos` listens to.
    fn shards_around(
        &self,
        pos: Vec2,
        owner: Option<u32>,
        pending_ready: &HashMap<u32, u32>,
    ) -> (near: Vec<u32>)
        requires
            is_margin(self.margin),
            owner == self@.owner(pos, pending_ready@),
        ensures
            near@ == self@.near(pos, pending_ready@),
    {
        let found: Vec<u32> = self.quadtree.shards_near(pos, self.margin);
        let mut near: Vec<u32> = route_all(&found, pending_ready);
        proof {
            found@.lemma_to_set_map_commutes(|shard: u32| routed(shard, pending_ready@));
        }
        if let Some(primary) = owner {
            let ghost routed_shards = near@;
            if !sorted::contains(&near, primary) {
                near.push(primary);
            }
            proof {
                routed_shards.lemma_push_to_set_commute(primary);
                if routed_shards.contains(primary) {
                    assert(routed_shards.to_set().insert(primary) =~= routed_shards.to_set());
                }
            }
        }
        sort_distinct(&near)
    }

    /// Whether seeing a client divides a leaf.
    pub fn will_divide(&self, update: &PositionUpdate, pending_ready: &HashMap<u32, u32>) -> (r:
        bool)
        ensures
            r == self@.divides(*update, pending_ready@),
    {
        let primary: u32 = match self.quadtree.shard_for(Vec2::new(update.x, update.y)) {
            Some(shard) => route(shard, pending_ready),
            None => {
                return false;
            },
        };
        if self.pending_splits.contains(&primary) || self.pending_merges.contains(&primary) {
            return false;
        }
        let counted: bool = match self.client_primary_shard.get(&update.client_id) {
            Some(shard) => *shard == primary,
            None => false,
        };
        let pop: usize = count_population(&self.client_primary_shard, primary);
        proof {
            lemma_population_after(self@.primary, update.client_id, primary);
        }
        let crowded: bool = if counted {
            pop > Self::MAX_POPULATION
        } else {
            pop >= Self::MAX_POPULATION
        };
        crowded && self.quadtree.has_leaf_to_split(primary)
    }

    /// Takes note of where a client is, and says what follows from it.
    ///
    /// A shard in `pending_ready` is not ready yet; the shard it is mapped to stands in for it.
    pub fn handle_position_update(
        &mut self,
        update: &PositionUpdate,
        pending_ready: &HashMap<u32, u32>,
    ) -> (actions: Vec<SpatialAction>)
        requires
            is_margin(old(self).margin),
            old(self)@.can_divide(*update, pending_ready@),
        ensures
            final(self)@ == old(self)@.after_update(*update, pending_ready@),
            views(actions@) == old(self)@.update_actions(*update, pending_ready@),
            old(self)@.wf() ==> final(self)@.wf(),
    {
        let ghost start = self@;
        let mut actions: Vec<SpatialAction> = Vec::new();
        let pos: Vec2 = Vec2::new(update.x, update.y);
        let owner: Option<u32> = match self.quadtree.shard_for(pos) {
            Some(shard) => Some(route(shard, pending_ready)),
            None => None,
        };
        proof {
            assert(views(actions@) =~= Seq::empty());
        }
        if let Some(new_primary) = owner {
            let current_primary: Option<u32> = match self.client_primary_shard.get(
                &update.client_id,
            ) {
                Some(shard) => Some(*shard),
                None => None,
            };
            if current_primary != Some(new_primary) {
                if let Some(old) = current_primary {
                    push_action(
                        &mut actions,
                        SpatialAction::AuthorityChange {
                            client_id: update.client_id,
                            old_shard: old,
                            new_shard: new_primary,
                        },
                    );
                }
                self.client_primary_shard.insert(update.client_id, new_primary);
            }
        }
        proof {
            assert(views(actions@) =~= start.authority_actions(*update, pending_ready@));
            assert(self@.primary =~= start.primary_after(*update, pending_ready@));
        }
        let near: Vec<u32> = self.shards_around(pos, owner, pending_ready);
        let current: Vec<u32> = match self.client_subscribed_shards.get(&update.client_id) {
            Some(shards) => shards.clone(),
            None => Vec::new(),
        };
        proof {
            assert(current@ =~= start.subscriptions(update.client_id));
        }
        push_subscribes(update.client_id, &near, &current, &mut actions);
        push_unsubscribes(update.client_id, &near, &current, &mut actions);
        let kept: Vec<u32> = near.clone();
        proof {
            assert(kept@ =~= near@);
        }
        self.client_subscribed_shards.insert(update.client_id, kept);
        let ghost near_shards = near@;
        if near.len() > 1 {
            push_action(
                &mut actions,
                SpatialAction::CrossingAlert { client_id: update.client_id, shards: near },
            );
        }
        let ghost so_far = start.authority_actions(*update, pending_ready@) + subscribes(
            update.client_id,
            near_shards,
            current@,
        ) + unsubscribes(update.client_id, near_shards, current@) + start.crossing_actions(
            *update,
            pending_ready@,
        );
        proof {
            assert(views(actions@) =~= so_far);
            assert(self@.subscribed =~= start.subscribed.insert(update.client_id, near_shards));
        }
        if let Some(primary) = owner {
            if !self.pending_splits.contains(&primary) && !self.pending_merges.contains(&primary) {
                let pop: usize = count_population(&self.client_primary_shard, primary);
                if pop > Self::MAX_POPULATION {
                    self.pending_splits.insert(primary);
                    proof {
                        start.tree.lemma_split_keeps(primary, start.next as int);
                    }
                    if let Some(ids) = self.quadtree.split_leaf(primary, &mut self.next_shard_id) {
                        let new_shards: Vec<u32> = vec![ids[0], ids[1], ids[2], ids[3]];
                        proof {
                            assert(new_shards@ =~= ids@);
                        }
                        push_action(
                            &mut actions,
                            SpatialAction::ScaleUp { parent_shard: primary, new_shards },
                        );
                    }
                }
            }
        }
        proof {
            assert(views(actions@) =~= so_far + start.split_actions(*update, pending_ready@));
            assert(self@ == start.after_update(*update, pending_ready@));
        }
        actions
    }

    /// Takes out a client.
    pub fn remove_client(&mut self, client_id: u32)
        ensures
            final(self)@ == old(self)@.without_client(client_id),
    {
        let ghost start = self@;
        self.client_primary_shard.remove(&client_id);
        self.client_subscribed_shards.remove(&client_id);
        proof {
            assert(self@.subscribed =~= start.subscribed.remove(client_id));
        }
    }

    /// The shard that takes over a client when shards crash.
    fn rescuer_of(&self, crashed: &Vec<u32>, client_id: u32) -> (r: Option<u32>)
        ensures
            r == self@.rescuer(crashed@, client_id),
    {
        match self.client_primary_shard.get(&client_id) {
            Some(shard) => if sorted::contains(crashed, *shard) {
                self.quadtree.refuge_for(crashed, *shard)
            } else {
                None
            },
            None => None,
        }
    }

    /// The clients that are taken over when shards crash, ascending.
    fn find_rescued(&self, crashed: &Vec<u32>) -> (r: Vec<u32>)
        ensures
            r@ == in_order(self@.rescued(crashed@)),
            ascending(r@),
            r@.to_set() == self@.rescued(crashed@),
    {
        let mut found: Vec<u32> = Vec::new();
        let ghost here = |client: u32| self@.rescuer(crashed@, client) is Some;
        proof {
            let clients = spec_keys_iter(&self.client_primary_shard).remaining().unref();
            assert(found@.to_set() =~= clients.take(0).to_set().filter(here));
        }
        for client in it: self.client_primary_shard.keys()
            invariant
                here == (|client: u32| self@.rescuer(crashed@, client) is Some),
                found@.to_set() == it.seq().unref().take(it.index()).to_set().filter(here),
        {
            proof {
                let clients = it.seq().unref();
                assert(clients.take(it.index() + 1) =~= clients.take(it.index()).push(
                    clients[it.index()],
                ));
                clients.take(it.index()).lemma_push_to_set_commute(clients[it.index()]);
            }
            let ghost before = found@;
            if self.rescuer_of(crashed, *client).is_some() {
                found.push(*client);
                proof {
                    before.lemma_push_to_set_commute(*client);
                }
            }
            proof {
                assert(found@.to_set() =~= it.seq().unref().take(it.index() + 1).to_set().filter(
                    here,
                ));
            }
        }
        proof {
            let clients = spec_keys_iter(&self.client_primary_shard).remaining().unref();
            assert(clients.take(clients.len() as int) =~= clients);
            assert(found@.to_set() =~= self@.rescued(crashed@));
        }
        sort_distinct(&found)
    }

    /// Takes note that the servers of these shards are gone: every numbered node with a crashed
    /// quadrant becomes a leaf again and takes over the clients of the crashed shards below it.
    pub fn handle_server_crash(&mut self, crashed: &Vec<u32>) -> (actions: Vec<SpatialAction>)
        ensures
            final(self)@ == old(self)@.after_crash(crashed@),
            views(actions@) == old(self)@.rescue_actions(crashed@),
            old(self)@.wf() ==> final(self)@.wf(),
    {
        let ghost start = self@;
        let clients: Vec<u32> = self.find_rescued(crashed);
        let mut actions: Vec<SpatialAction> = Vec::new();
        let mut i: usize = 0;
        proof {
            assert(views(actions@) =~= Seq::empty());
        }
        while i < clients.len()
            invariant
                i <= clients@.len(),
                ascending(clients@),
                clients@.to_set() == start.rescued(crashed@),
                start.primary.dom() == self@.primary.dom(),
                self@ == (ServiceView { primary: self@.primary, ..start }),
                forall|client: u32| #[trigger]
                    start.primary.contains_key(client) ==> self@.primary[client] == (
                    if clients@.take(i as int).contains(client) {
                        start.rescuer(crashed@, client)->0
                    } else {
                        start.primary[client]
                    }),
                views(actions@).len() == i,
                forall|k: int|
                    0 <= k < i ==> #[trigger] views(actions@)[k] == start.rescue(
                        crashed@,
                        clients@[k],
                    ),
            decreases clients@.len() - i,
        {
            let client_id: u32 = clients[i];
            proof {
                assert(clients@.to_set().contains(client_id));
                assert(!clients@.take(i as int).contains(client_id));
                assert(clients@.take(i + 1) =~= clients@.take(i as int).push(client_id));
                assert(start.primary.contains_key(client_id));
                assert(self@.rescuer(crashed@, client_id) == start.rescuer(crashed@, client_id));
            }
            if let Some(old_shard) = self.client_primary_shard.get(&client_id) {
                let old_shard: u32 = *old_shard;
                if let Some(new_shard) = self.rescuer_of(crashed, client_id) {
                    let ghost before = self@;
                    push_action(
                        &mut actions,
                        SpatialAction::AuthorityChange { client_id, old_shard, new_shard },
                    );
                    self.client_primary_shard.insert(client_id, new_shard);
                    proof {
                        assert(self@.primary.dom() =~= start.primary.dom());
                        assert forall|client: u32| #[trigger]
                            start.primary.contains_key(client) implies self@.primary[client] == (
                        if clients@.take(i + 1).contains(client) {
                            start.rescuer(crashed@, client)->0
                        } else {
                            start.primary[client]
                        }) by {
                            assert(clients@.take(i + 1).contains(client) <==> clients@.take(
                                i as int,
                            ).contains(client) || client == client_id) by {
                                let before = clients@.take(i as int);
                                if before.contains(client) {
                                    let k = choose|k: int|
                                        0 <= k < before.len() && before[k] == client;
                                    assert(clients@.take(i + 1)[k] == client);
                                }
                                if client == client_id {
                                    assert(clients@.take(i + 1)[i as int] == client);
                                }
                            }
                        }
                    }
                }
            }
            i = i + 1;
        }
        self.quadtree.collapse(crashed);
        proof {
            start.tree.lemma_collapse_keeps(crashed@);
            assert(clients@.take(i as int) =~= clients@);
            assert forall|client: u32| #[trigger] clients@.contains(client) <==> start.rescued(
                crashed@,
            ).contains(client) by {
                assert(clients@.to_set().contains(client) <==> clients@.contains(client));
            }
            assert(self@.primary =~= start.after_crash(crashed@).primary);
            assert(views(actions@) =~= start.rescue_actions(crashed@));
        }
        actions
    }

    /// Merges the first four quadrants that have few clients.
    pub fn check_merges(&mut self) -> (actions: Vec<SpatialAction>)
        requires
            old(self)@.tree.merge_defined(populations(old(self)@.primary), 1),
        ensures
            final(self)@ == old(self)@.after_merge(),
            views(actions@) == old(self)@.merge_actions(),
            old(self)@.wf() ==> final(self)@.wf(),
    {
        let ghost start = self@;
        let mut actions: Vec<SpatialAction> = Vec::new();
        let pop_map: HashMap<u32, usize> = count_populations(&self.client_primary_shard);
        proof {
            assert(views(actions@) =~= Seq::empty());
            start.tree.lemma_merge_keeps(pop_map@, 1);
        }
        if let Some((parent_shard, shards)) = self.quadtree.try_merge(
            &pop_map,
            Self::MIN_POPULATION,
        ) {
            let old_shards: Vec<u32> = vec![shards[0], shards[1], shards[2], shards[3]];
            proof {
                assert(old_shards@ =~= shards@);
            }
            self.pending_merges.insert(parent_shard);
            push_action(&mut actions, SpatialAction::ScaleDown { parent_shard, old_shards });
        }
        proof {
            assert(views(actions@) =~= start.merge_actions());
        }
        actions
    }
}

} // verus!
