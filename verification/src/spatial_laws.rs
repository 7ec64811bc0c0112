//! What holds of the spatial service and its server, whatever happens.

use crate::binary32::Binary32;
use crate::geometry::Vec2;
use crate::quadtree::{population_of, QuadTree};
use crate::quadtree_laws::{
    law_collapse_keeps_nodes_numbered,
    law_collapse_keeps_tree,
    law_crashed_shards_have_a_refuge,
    law_every_position_has_a_shard,
    law_merge_keeps_nodes_numbered,
    law_merge_keeps_tiling,
    law_merge_numbers,
    law_merged_shards_are_sparse,
    law_split_keeps_nodes_numbered,
    law_split_keeps_tiling,
    law_split_numbers,
};
use crate::sorted::{ascending, in_order, lemma_in_order_exists};
use crate::spatial::{
    clients_of,
    population,
    populations,
    routed,
    subscribes,
    unsubscribes,
    ActionView,
    PositionUpdate,
    ServiceView,
};
use crate::spatial_server::{
    all_but,
    law_world_tiles,
    lemma_noted_all_keeps_service,
    world,
    EventView,
    ServerView,
    MAX_DEPTH,
    ROOT_SHARD,
};
use crate::topics::{law_shard_topics_differ, shard_topic};
use vstd::prelude::*;

verus! {

impl ServiceView {
    /// The service after a parent is done with its merge, or else with its division.
    pub open spec fn finished(self, parent: u32) -> ServiceView {
        if self.merges.contains(parent) {
            ServiceView { merges: self.merges.remove(parent), ..self }
        } else {
            ServiceView { splits: self.splits.remove(parent), ..self }
        }
    }

    /// The shards cover the world, every node has a number of its own, and new numbers are
    /// still to come.
    pub open spec fn sound(self) -> bool {
        &&& self.tree.tiled()
        &&& self.tree.leaves_numbered()
        &&& self.tree.nodes_numbered()
        &&& self.tree.numbers_distinct()
        &&& self.tree.numbers_below(self.next as int)
    }
}

/// Seeing a client keeps a sound service sound, and the world as large as it was.
pub proof fn law_update_keeps_service_sound(
    service: ServiceView,
    update: PositionUpdate,
    pending: Map<u32, u32>,
)
    requires
        service.sound(),
        service.divides(update, pending) ==> service.next + 4 <= u32::MAX,
    ensures
        service.after_update(update, pending).sound(),
        service.after_update(update, pending).tree.bounds == service.tree.bounds,
        service.after_update(update, pending).next >= service.next,
{
    if service.divides(update, pending) {
        let shard = service.crowded(update, pending)->0;
        let next = service.next as int;
        law_split_keeps_tiling(service.tree, shard, next);
        law_split_numbers(service.tree, shard, next);
        law_split_keeps_nodes_numbered(service.tree, shard, next);
        service.tree.lemma_split_keeps(shard, next);
    }
}

/// A merge keeps a sound service sound, and the world as large as it was.
pub proof fn law_merge_keeps_service_sound(service: ServiceView)
    requires
        service.sound(),
    ensures
        service.after_merge().sound(),
        service.after_merge().tree.bounds == service.tree.bounds,
        service.after_merge().next == service.next,
{
    let counts = populations(service.primary);
    law_merge_keeps_tiling(service.tree, counts, 1);
    law_merge_numbers(service.tree, counts, 1);
    law_merge_keeps_nodes_numbered(service.tree, counts, 1);
    service.tree.lemma_merge_keeps(counts, 1);
}

/// A crash keeps a sound service sound, and the world as large as it was.
pub proof fn law_crash_keeps_service_sound(service: ServiceView, crashed: Seq<u32>)
    requires
        service.sound(),
    ensures
        service.after_crash(crashed).sound(),
        service.after_crash(crashed).tree.bounds == service.tree.bounds,
        service.after_crash(crashed).next == service.next,
{
    law_collapse_keeps_tree(service.tree, crashed);
    law_collapse_keeps_nodes_numbered(service.tree, crashed);
    service.tree.lemma_collapse_keeps(crashed);
}

/// The world before anyone is in it is sound.
pub proof fn law_new_world_is_sound(service: ServiceView)
    requires
        service.tree == QuadTree::leaf(world(), 0, MAX_DEPTH, Some(ROOT_SHARD)),
        service.next == 1,
    ensures
        service.sound(),
{
    law_world_tiles();
}

/// Whatever happens, the shards cover the same world, and their numbers stay distinct.
pub proof fn law_every_event_keeps_the_world_whole(server: ServerView, event: EventView)
    requires
        server.service.sound(),
        server.has_room(event),
    ensures
        server.after(event).service.sound(),
        server.after(event).service.tree.bounds == server.service.tree.bounds,
{
    match event {
        EventView::Position { update } => {
            law_update_keeps_service_sound(server.service, update, server.pending);
            let seen = ServerView {
                service: server.service.after_update(update, server.pending),
                ..server
            };
            lemma_noted_all_keeps_service(seen, server.actions(event));
        },
        EventView::Crash { shards } => {
            law_crash_keeps_service_sound(server.service, shards);
        },
        EventView::Disconnect { client_id } => {
            let left = server.service.without_client(client_id);
            law_merge_keeps_service_sound(left);
            let merged = ServerView { service: left.after_merge(), ..server };
            lemma_noted_all_keeps_service(merged, server.actions(event));
        },
        _ => {},
    }
}

/// Every client inside the world has a shard.
pub proof fn law_every_client_has_a_shard(
    service: ServiceView,
    update: PositionUpdate,
    pending: Map<u32, u32>,
)
    requires
        service.sound(),
        service.tree.bounds.holds(update.position()),
    ensures
        service.owner(update.position(), pending) is Some,
        service.after_update(update, pending).primary.contains_key(update.client_id),
        Some(service.after_update(update, pending).primary[update.client_id]) == service.owner(
            update.position(),
            pending,
        ),
{
    law_every_position_has_a_shard(service.tree, update.position());
}

/// A tree has finitely many shards near a position.
proof fn lemma_shards_within_finite(tree: QuadTree, pos: Vec2, margin: Binary32)
    ensures
        tree.shards_within(pos, margin).finite(),
    decreases tree,
{
    if let Some(c) = tree.children {
        lemma_shards_within_finite(c.nw, pos, margin);
        lemma_shards_within_finite(c.ne, pos, margin);
        lemma_shards_within_finite(c.sw, pos, margin);
        lemma_shards_within_finite(c.se, pos, margin);
    }
}

/// A client listens to its own shard, and to whatever stands for a shard within the margin;
/// and to nothing else.
pub proof fn law_clients_listen_to_their_surroundings(
    service: ServiceView,
    update: PositionUpdate,
    pending: Map<u32, u32>,
    shard: u32,
)
    ensures
        service.after_update(update, pending).subscriptions(update.client_id).contains(shard)
            <==> service.owner(update.position(), pending) == Some(shard) || exists|near: u32|
            #[trigger]
            service.tree.shards_within(update.position(), service.margin).contains(near)
                && routed(near, pending) == shard,
        ascending(service.after_update(update, pending).subscriptions(update.client_id)),
{
    let within = service.tree.shards_within(update.position(), service.margin);
    let stand_in = |near: u32| routed(near, pending);
    lemma_shards_within_finite(service.tree, update.position(), service.margin);
    within.lemma_map_finite(stand_in);
    let all = match service.owner(update.position(), pending) {
        Some(own) => within.map(stand_in).insert(own),
        None => within.map(stand_in),
    };
    lemma_in_order_exists(all);
    let near = service.near(update.position(), pending);
    assert(near == in_order(all));
    assert(near.to_set().contains(shard) <==> near.contains(shard));
    assert(within.map(stand_in).contains(shard) <==> exists|x: u32| #[trigger]
        within.contains(x) && routed(x, pending) == shard);
}

/// Seeing one client changes nothing for the others.
pub proof fn law_other_clients_are_left_alone(
    service: ServiceView,
    update: PositionUpdate,
    pending: Map<u32, u32>,
    other: u32,
)
    requires
        other != update.client_id,
    ensures
        ({
            let after = service.after_update(update, pending);
            &&& after.primary.contains_key(other) == service.primary.contains_key(other)
            &&& after.primary[other] == service.primary[other]
            &&& after.subscriptions(other) == service.subscriptions(other)
        }),
{
}

/// A client who stays with its shard is told of no change, and one who comes to another shard
/// is told of exactly one.
pub proof fn law_authority_changes_with_the_shard(
    service: ServiceView,
    update: PositionUpdate,
    pending: Map<u32, u32>,
)
    requires
        service.primary.contains_key(update.client_id),
    ensures
        ({
            let told = service.authority_actions(update, pending);
            match service.owner(update.position(), pending) {
                Some(shard) => if shard == service.primary[update.client_id] {
                    told.len() == 0
                } else {
                    told == seq![
                        ActionView::AuthorityChange {
                            client_id: update.client_id,
                            old_shard: service.primary[update.client_id],
                            new_shard: shard,
                        },
                    ]
                },
                None => told.len() == 0,
            }
        }),
{
}

/// While a shard is being divided or merged it is not divided again.
pub proof fn law_no_division_while_one_is_under_way(
    service: ServiceView,
    update: PositionUpdate,
    pending: Map<u32, u32>,
    shard: u32,
)
    requires
        service.splits.contains(shard) || service.merges.contains(shard),
    ensures
        service.crowded(update, pending) != Some(shard),
{
}

/// While new shards are not ready, clients stay with the shard they replace.
pub proof fn law_waiting_shards_take_no_clients(
    service: ServiceView,
    update: PositionUpdate,
    pending: Map<u32, u32>,
    shard: u32,
)
    requires
        pending.contains_key(shard),
        pending[shard] != shard,
        forall|waiting: u32| #[trigger] pending.contains_key(waiting) ==> pending[waiting] != shard,
    ensures
        service.owner(update.position(), pending) != Some(shard),
{
}

/// Shards are merged only where they have at most one client together.
pub proof fn law_merge_needs_few_clients(service: ServiceView)
    requires
        service.primary.dom().finite(),
        service.primary.dom().len() <= usize::MAX,
    ensures
        service.merge() matches Some((tree, parent, shards)) ==> {
            &&& shards.len() == 4
            &&& population(service.primary, shards[0]) + population(service.primary, shards[1])
                + population(service.primary, shards[2]) + population(service.primary, shards[3])
                <= 1
        },
{
    law_merged_shards_are_sparse(service.tree, populations(service.primary), 1);
    assert forall|shard: u32| population(service.primary, shard) <= usize::MAX by {
        service.primary.dom().lemma_len_filter(|client: u32| service.primary[client] == shard);
        assert(clients_of(service.primary, shard) =~= service.primary.dom().filter(
            |client: u32| service.primary[client] == shard,
        ));
    }
    if let Some((tree, parent, shards)) = service.merge() {
        let counts = populations(service.primary);
        assert forall|i: int| 0 <= i < 4 implies population_of(counts, #[trigger] shards[i])
            == population(service.primary, shards[i]) by {
            assert(population(service.primary, shards[i]) <= usize::MAX);
        }
    }
}

/// A subscription is asked for exactly for the shards that come near, and one is ended exactly
/// for those that are near no longer.
pub proof fn law_subscriptions_follow_the_shards(
    client_id: u32,
    near: Seq<u32>,
    current: Seq<u32>,
    shard: u32,
)
    ensures
        subscribes(client_id, near, current).contains(
            (ActionView::Subscribe { client_id, topic: shard_topic(shard) }),
        ) <==> near.contains(shard) && !current.contains(shard),
        unsubscribes(client_id, near, current).contains(
            (ActionView::Unsubscribe { client_id, topic: shard_topic(shard) }),
        ) <==> current.contains(shard) && !near.contains(shard),
{
    lemma_subscribes(client_id, near, current, shard);
    lemma_unsubscribes(client_id, near, current, shard);
}

proof fn lemma_subscribes(client_id: u32, near: Seq<u32>, current: Seq<u32>, shard: u32)
    ensures
        subscribes(client_id, near, current).contains(
            (ActionView::Subscribe { client_id, topic: shard_topic(shard) }),
        ) <==> near.contains(shard) && !current.contains(shard),
    decreases near.len(),
{
    let wanted = ActionView::Subscribe { client_id, topic: shard_topic(shard) };
    let all = subscribes(client_id, near, current);
    if near.len() > 0 {
        let fewer = near.drop_last();
        let last = near.last();
        let earlier = subscribes(client_id, fewer, current);
        lemma_subscribes(client_id, fewer, current, shard);
        if last != shard {
            law_shard_topics_differ(last, shard);
        }
        assert(near =~= fewer.push(last));
        lemma_push_contains(fewer, last, shard);
        lemma_push_contains(
            earlier,
            ActionView::Subscribe { client_id, topic: shard_topic(last) },
            wanted,
        );
    }
}

proof fn lemma_unsubscribes(client_id: u32, near: Seq<u32>, current: Seq<u32>, shard: u32)
    ensures
        unsubscribes(client_id, near, current).contains(
            (ActionView::Unsubscribe { client_id, topic: shard_topic(shard) }),
        ) <==> current.contains(shard) && !near.contains(shard),
    decreases current.len(),
{
    let wanted = ActionView::Unsubscribe { client_id, topic: shard_topic(shard) };
    if current.len() > 0 {
        let fewer = current.drop_last();
        let last = current.last();
        let earlier = unsubscribes(client_id, near, fewer);
        lemma_unsubscribes(client_id, near, fewer, shard);
        if last != shard {
            law_shard_topics_differ(last, shard);
        }
        assert(current =~= fewer.push(last));
        lemma_push_contains(fewer, last, shard);
        lemma_push_contains(
            earlier,
            ActionView::Unsubscribe { client_id, topic: shard_topic(last) },
            wanted,
        );
    }
}

/// What a list with one more element contains.
pub(crate) proof fn lemma_push_contains<T>(list: Seq<T>, last: T, x: T)
    ensures
        list.push(last).contains(x) <==> list.contains(x) || x == last,
{
    let more = list.push(last);
    if list.contains(x) {
        let k = choose|k: int| 0 <= k < list.len() && list[k] == x;
        assert(more[k] == x);
    }
    if x == last {
        assert(more[list.len() as int] == x);
    }
    if more.contains(x) {
        let k = choose|k: int| 0 <= k < more.len() && more[k] == x;
        if k < list.len() {
            assert(list[k] == x);
        }
    }
}

/// When the servers of some shards crash in a divided world, every client of theirs is handed
/// to a shard that is there.
pub proof fn law_no_client_is_left_behind(service: ServiceView, crashed: Seq<u32>, client_id: u32)
    requires
        service.sound(),
        !service.tree.is_leaf(),
        service.primary.contains_key(client_id),
        service.tree.has_leaf(service.primary[client_id]),
        crashed.contains(service.primary[client_id]),
    ensures
        service.rescued(crashed).contains(client_id),
        service.after_crash(crashed).primary.contains_key(client_id),
        service.after_crash(crashed).tree.has_leaf(
            service.after_crash(crashed).primary[client_id],
        ),
{
    law_crashed_shards_have_a_refuge(service.tree, crashed, service.primary[client_id]);
}

/// A crash moves nobody but the clients of the crashed shards.
pub proof fn law_a_crash_moves_nobody_else(service: ServiceView, crashed: Seq<u32>, client_id: u32)
    requires
        service.primary.contains_key(client_id),
        !crashed.contains(service.primary[client_id]),
    ensures
        service.after_crash(crashed).primary.contains_key(client_id),
        service.after_crash(crashed).primary[client_id] == service.primary[client_id],
{
}

impl ServerView {
    /// The server after several shards became ready, in order.
    pub open spec fn after_all_ready(self, signals: Seq<u32>) -> ServerView
        decreases signals.len(),
    {
        if signals.len() == 0 {
            self
        } else {
            self.after_all_ready(signals.drop_last()).after_ready(signals.last())
        }
    }

    /// Whether a parent waits for some shards, all of them behind it.
    pub open spec fn waits_for(self, parent: u32, waiting: Seq<u32>) -> bool {
        &&& waiting.len() > 0
        &&& self.children.contains_key(parent)
        &&& self.children[parent] == waiting
        &&& forall|shard: u32| #[trigger]
            waiting.contains(shard) ==> self.pending.contains_key(shard) && self.pending[shard]
                == parent
    }
}

/// Whether a shard is still waited for after some signals.
spec fn is_missing(waiting: Seq<u32>, signals: Seq<u32>, shard: u32) -> bool {
    waiting.contains(shard) && !signals.contains(shard)
}

/// Whether some shard is still waited for after some signals.
spec fn any_missing(waiting: Seq<u32>, signals: Seq<u32>) -> bool {
    exists|shard: u32| #[trigger] is_missing(waiting, signals, shard)
}

/// What is left of a list without one of its elements.
pub(crate) proof fn lemma_all_but(list: Seq<u32>, gone: u32, x: u32)
    ensures
        all_but(list, gone).contains(x) <==> list.contains(x) && x != gone,
    decreases list.len(),
{
    reveal(Seq::filter);
    if list.len() > 0 {
        let fewer = list.drop_last();
        let last = list.last();
        lemma_all_but(fewer, gone, x);
        assert(list =~= fewer.push(last));
        lemma_push_contains(fewer, last, x);
        lemma_push_contains(all_but(fewer, gone), last, x);
    }
}

/// What a parent waits for after some of its shards became ready.
proof fn lemma_partly_ready(server: ServerView, parent: u32, waiting: Seq<u32>, signals: Seq<u32>)
    requires
        server.waits_for(parent, waiting),
        forall|i: int| 0 <= i < signals.len() ==> waiting.contains(#[trigger] signals[i]),
    ensures
        forall|shard: u32| #[trigger]
            waiting.contains(shard) ==> (server.after_all_ready(signals).pending.contains_key(shard)
                <==> is_missing(waiting, signals, shard)),
        forall|shard: u32| #[trigger]
            is_missing(waiting, signals, shard) ==> server.after_all_ready(signals).pending[shard]
                == parent,
        any_missing(waiting, signals) ==> server.after_all_ready(signals).service == server.service,
        server.after_all_ready(signals).children.contains_key(parent) <==> any_missing(
            waiting,
            signals,
        ),
        any_missing(waiting, signals) ==> forall|shard: u32| #[trigger]
            server.after_all_ready(signals).children[parent].contains(shard) <==> is_missing(
                waiting,
                signals,
                shard,
            ),
        !any_missing(waiting, signals) ==> server.after_all_ready(signals).service
            == server.service.finished(parent),
    decreases signals.len(),
{
    let after = server.after_all_ready(signals);
    if signals.len() == 0 {
        assert(waiting.contains(waiting[0]));
        assert(is_missing(waiting, signals, waiting[0]));
        assert forall|shard: u32| #[trigger] after.children[parent].contains(shard) <==> is_missing(
            waiting,
            signals,
            shard,
        ) by {}
    } else {
        let fewer = signals.drop_last();
        let signal = signals.last();
        assert forall|i: int| 0 <= i < fewer.len() implies waiting.contains(#[trigger] fewer[i]) by {
            assert(fewer[i] == signals[i]);
        }
        assert(waiting.contains(signals[signals.len() - 1]));
        lemma_partly_ready(server, parent, waiting, fewer);
        let mid = server.after_all_ready(fewer);
        assert(signals =~= fewer.push(signal));
        assert forall|shard: u32| #[trigger] is_missing(
            waiting,
            signals,
            shard,
        ) <==> is_missing(waiting, fewer, shard) && shard != signal by {
            lemma_push_contains(fewer, signal, shard);
        }
        if is_missing(waiting, fewer, signal) {
            assert(mid.pending.contains_key(signal) && mid.pending[signal] == parent);
            let rest = mid.still_waiting(parent, signal);
            assert forall|shard: u32| #[trigger] rest.contains(shard) <==> is_missing(waiting, signals, shard) by {
                lemma_all_but(mid.children[parent], signal, shard);
            }
            if rest.len() > 0 {
                assert(rest.contains(rest[0]));
                assert(is_missing(waiting, signals, rest[0]));
            } else {
                assert(!any_missing(waiting, signals)) by {
                    assert forall|shard: u32| !(#[trigger] is_missing(waiting, signals, shard)) by {
                        assert(!rest.contains(shard));
                    }
                }
            }
        } else {
            assert(!mid.pending.contains_key(signal));
            assert(after == mid);
            assert forall|shard: u32| #[trigger]
                is_missing(waiting, signals, shard) == is_missing(waiting, fewer, shard) by {}
            assert(any_missing(waiting, signals) == any_missing(waiting, fewer)) by {
                if any_missing(waiting, fewer) {
                    let shard = choose|shard: u32| #[trigger] is_missing(waiting, fewer, shard);
                    assert(is_missing(waiting, signals, shard));
                }
                if any_missing(waiting, signals) {
                    let shard = choose|shard: u32| #[trigger] is_missing(waiting, signals, shard);
                    assert(is_missing(waiting, fewer, shard));
                }
            }
        }
    }
}

/// Once every shard that a parent waits for is ready, in whatever order and however often they
/// say so, the parent is done with its merge, or else with its division.
pub proof fn law_ready_shards_end_the_wait(
    server: ServerView,
    parent: u32,
    waiting: Seq<u32>,
    signals: Seq<u32>,
)
    requires
        server.waits_for(parent, waiting),
        forall|i: int| 0 <= i < signals.len() ==> waiting.contains(#[trigger] signals[i]),
        forall|shard: u32| #[trigger] waiting.contains(shard) ==> signals.contains(shard),
    ensures
        server.after_all_ready(signals).service == server.service.finished(parent),
        !server.after_all_ready(signals).children.contains_key(parent),
        forall|shard: u32| #[trigger]
            waiting.contains(shard) ==> !server.after_all_ready(signals).pending.contains_key(shard),
{
    lemma_partly_ready(server, parent, waiting, signals);
    assert forall|shard: u32| !(#[trigger] is_missing(waiting, signals, shard)) by {}
}

/// Until then nothing about the division or merge changes.
pub proof fn law_missing_shards_keep_the_wait(
    server: ServerView,
    parent: u32,
    waiting: Seq<u32>,
    signals: Seq<u32>,
    missing: u32,
)
    requires
        server.waits_for(parent, waiting),
        forall|i: int| 0 <= i < signals.len() ==> waiting.contains(#[trigger] signals[i]),
        waiting.contains(missing),
        !signals.contains(missing),
    ensures
        server.after_all_ready(signals).service == server.service,
        server.after_all_ready(signals).children.contains_key(parent),
        server.after_all_ready(signals).pending.contains_key(missing),
{
    lemma_partly_ready(server, parent, waiting, signals);
    assert(is_missing(waiting, signals, missing));
}

/// After a request for four new shards, their parent waits for them.
pub proof fn law_division_makes_the_parent_wait(
    server: ServerView,
    parent_shard: u32,
    new_shards: Seq<u32>,
)
    requires
        new_shards.len() > 0,
    ensures
        server.noted((ActionView::ScaleUp { parent_shard, new_shards })).waits_for(
            parent_shard,
            new_shards,
        ),
{
}

/// After a request to merge, the parent waits for its own new server.
pub proof fn law_merge_makes_the_parent_wait(
    server: ServerView,
    parent_shard: u32,
    old_shards: Seq<u32>,
)
    ensures
        server.noted((ActionView::ScaleDown { parent_shard, old_shards })).waits_for(
            parent_shard,
            seq![parent_shard],
        ),
{
}

} // verus!
