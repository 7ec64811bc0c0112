//! When shards are divided, merged and taken over, and what is asked for when a client moves, in
//! terms of the clients and of the nodes of the tree.

use crate::geometry::Vec2;
use crate::quadtree::QuadTree;
use crate::shard_laws::{
    counted,
    law_merges_take_a_sparse_node,
    law_shards_to_divide_are_found,
    law_sparse_shards_are_merged,
};
use crate::sorted::{ascending, in_order, lemma_in_order_exists};
use crate::spatial::{
    clients_of,
    population,
    populations,
    subscribes,
    unsubscribes,
    ActionView,
    PositionUpdate,
    ServiceView,
};
use crate::spatial_laws::{
    law_clients_listen_to_their_surroundings,
    law_subscriptions_follow_the_shards,
    lemma_all_but,
    lemma_push_contains,
};
use crate::spatial_server::{lemma_noted_all_keeps_service, EventView, ServerView};
use crate::topics::shard_topic;
use vstd::prelude::*;

verus! {

/// Whether a client is with a shard.
pub open spec fn is_with(primary: Map<u32, u32>, client: u32, shard: u32) -> bool {
    primary.contains_key(client) && primary[client] == shard
}

/// Whether `shard` takes whoever is at a position: it has the position, or it stands in for the
/// shard that has it and is not ready.
pub open spec fn takes(server: ServerView, update: PositionUpdate, shard: u32) -> bool {
    match server.service.tree.shard_at(Vec2 { x: update.x, y: update.y }) {
        Some(there) => if server.pending.contains_key(there) {
            server.pending[there] == shard
        } else {
            there == shard
        },
        None => false,
    }
}

/// What a list made of two contains.
proof fn lemma_add_contains<T>(a: Seq<T>, b: Seq<T>, x: T)
    ensures
        (a + b).contains(x) <==> a.contains(x) || b.contains(x),
{
    let all = a + b;
    if a.contains(x) {
        let k = choose|k: int| 0 <= k < a.len() && a[k] == x;
        assert(all[k] == x);
    }
    if b.contains(x) {
        let k = choose|k: int| 0 <= k < b.len() && b[k] == x;
        assert(all[a.len() + k] == x);
    }
    if all.contains(x) {
        let k = choose|k: int| 0 <= k < all.len() && all[k] == x;
        if k < a.len() {
            assert(a[k] == x);
        } else {
            assert(b[k - a.len()] == x);
        }
    }
}

/// Three clients of one shard are more than two.
proof fn lemma_three_are_a_crowd(primary: Map<u32, u32>, shard: u32, a: u32, b: u32, c: u32)
    requires
        primary.dom().finite(),
        a != b && a != c && b != c,
        is_with(primary, a, shard) && is_with(primary, b, shard) && is_with(primary, c, shard),
    ensures
        population(primary, shard) > 2,
{
    let all = clients_of(primary, shard);
    assert(all.contains(a) && all.contains(b) && all.contains(c));
    let rest = all.remove(a).remove(b).remove(c);
    assert(all.remove(a).contains(b));
    assert(all.remove(a).remove(b).contains(c));
    assert(all.len() == rest.len() + 3);
}

/// More than two clients of a shard are two besides any one.
proof fn lemma_a_crowd_has_two_others(primary: Map<u32, u32>, shard: u32, c: u32) -> (r: (u32, u32))
    requires
        primary.dom().finite(),
        population(primary, shard) > 2,
    ensures
        r.0 != r.1 && r.0 != c && r.1 != c,
        is_with(primary, r.0, shard),
        is_with(primary, r.1, shard),
{
    let all = clients_of(primary, shard);
    let rest = all.remove(c);
    assert(rest.len() >= 2);
    let a = rest.choose();
    assert(rest.contains(a)) by {
        if rest =~= Set::empty() {
            assert(rest.len() == 0);
        }
    }
    let fewer = rest.remove(a);
    assert(fewer.len() >= 1);
    let b = fewer.choose();
    assert(fewer.contains(b)) by {
        if fewer =~= Set::empty() {
            assert(fewer.len() == 0);
        }
    }
    assert(all.contains(a) && all.contains(b));
    (a, b)
}

/// What the parts of an update ask for, together.
proof fn lemma_update_actions(service: ServiceView, update: PositionUpdate, pending: Map<u32, u32>, x: ActionView)
    ensures
        service.update_actions(update, pending).contains(x) <==> {
            let near = service.near(update.position(), pending);
            let current = service.subscriptions(update.client_id);
            service.authority_actions(update, pending).contains(x) || subscribes(
                update.client_id,
                near,
                current,
            ).contains(x) || unsubscribes(update.client_id, near, current).contains(x)
                || service.crossing_actions(update, pending).contains(x) || service.split_actions(
                update,
                pending,
            ).contains(x)
        },
{
    let near = service.near(update.position(), pending);
    let current = service.subscriptions(update.client_id);
    let a = service.authority_actions(update, pending);
    let b = subscribes(update.client_id, near, current);
    let c = unsubscribes(update.client_id, near, current);
    let d = service.crossing_actions(update, pending);
    let e = service.split_actions(update, pending);
    lemma_add_contains(a, b, x);
    lemma_add_contains(a + b, c, x);
    lemma_add_contains(a + b + c, d, x);
    lemma_add_contains(a + b + c + d, e, x);
}

proof fn lemma_subscribes_are_subscribes(client_id: u32, near: Seq<u32>, current: Seq<u32>, x: ActionView)
    ensures
        subscribes(client_id, near, current).contains(x) ==> x is Subscribe
            && x->Subscribe_client_id == client_id,
    decreases near.len(),
{
    if near.len() > 0 {
        let earlier = subscribes(client_id, near.drop_last(), current);
        lemma_subscribes_are_subscribes(client_id, near.drop_last(), current, x);
        lemma_push_contains(
            earlier,
            ActionView::Subscribe { client_id, topic: shard_topic(near.last()) },
            x,
        );
    }
}

proof fn lemma_unsubscribes_are_unsubscribes(
    client_id: u32,
    near: Seq<u32>,
    current: Seq<u32>,
    x: ActionView,
)
    ensures
        unsubscribes(client_id, near, current).contains(x) ==> x is Unsubscribe
            && x->Unsubscribe_client_id == client_id,
    decreases current.len(),
{
    if current.len() > 0 {
        let earlier = unsubscribes(client_id, near, current.drop_last());
        lemma_unsubscribes_are_unsubscribes(client_id, near, current.drop_last(), x);
        lemma_push_contains(
            earlier,
            ActionView::Unsubscribe { client_id, topic: shard_topic(current.last()) },
            x,
        );
    }
}

/// What a list of one contains.
proof fn lemma_one_contains<T>(one: T, x: T)
    ensures
        seq![one].contains(x) <==> x == one,
{
    assert(seq![one][0] == one);
}

/// Actions that ask for no shards leave nothing to wait for.
proof fn lemma_nothing_to_wait_for(server: ServerView, actions: Seq<ActionView>)
    requires
        forall|i: int|
            0 <= i < actions.len() ==> !((#[trigger] actions[i]) is ScaleUp) && !(
            actions[i] is ScaleDown),
    ensures
        server.noted_all(actions) == server,
    decreases actions.len(),
{
    if actions.len() > 0 {
        let fewer = actions.drop_last();
        assert(actions.last() == actions[actions.len() - 1]);
        assert forall|i: int| 0 <= i < fewer.len() implies !((#[trigger] fewer[i]) is ScaleUp) && !(
        fewer[i] is ScaleDown) by {
            assert(fewer[i] == actions[i]);
        }
        lemma_nothing_to_wait_for(server, fewer);
    }
}

/// What is waited for after a client was seen.
proof fn lemma_waits_after_update(server: ServerView, update: PositionUpdate)
    ensures
        ({
            let event = EventView::Position { update };
            let after = server.after(event);
            let seen = ServerView {
                service: server.service.after_update(update, server.pending),
                ..server
            };
            &&& server.service.divides(update, server.pending) ==> after == seen.noted(
                server.service.split_actions(update, server.pending)[0],
            )
            &&& !server.service.divides(update, server.pending) ==> after == seen
        }),
{
    let service = server.service;
    let event = EventView::Position { update };
    let near = service.near(update.position(), server.pending);
    let current = service.subscriptions(update.client_id);
    let front = service.authority_actions(update, server.pending) + subscribes(
        update.client_id,
        near,
        current,
    ) + unsubscribes(update.client_id, near, current) + service.crossing_actions(
        update,
        server.pending,
    );
    let split = service.split_actions(update, server.pending);
    let seen = ServerView { service: service.after_update(update, server.pending), ..server };
    assert forall|i: int| 0 <= i < front.len() implies !((#[trigger] front[i]) is ScaleUp) && !(
    front[i] is ScaleDown) by {
        let x = front[i];
        let a = service.authority_actions(update, server.pending);
        let b = subscribes(update.client_id, near, current);
        let c = unsubscribes(update.client_id, near, current);
        let d = service.crossing_actions(update, server.pending);
        assert(front.contains(x));
        lemma_add_contains(a, b, x);
        lemma_add_contains(a + b, c, x);
        lemma_add_contains(a + b + c, d, x);
        lemma_subscribes_are_subscribes(update.client_id, near, current, x);
        lemma_unsubscribes_are_unsubscribes(update.client_id, near, current, x);
    }
    lemma_nothing_to_wait_for(seen, front);
    let all = server.actions(event);
    assert(all == front + split);
    if service.divides(update, server.pending) {
        assert(all.drop_last() =~= front);
        assert(all.last() == split[0]);
    } else {
        assert(all =~= front);
    }
}

/// Whenever the shard that takes a client has two others besides, and is not being divided or
/// merged, it is being divided from then on. Where a leaf with its number is above the deepest
/// level, four new shards are asked for, and that leaf is divided into them. How many clients
/// are elsewhere does not matter.
pub proof fn law_crowded_shards_are_divided(
    server: ServerView,
    update: PositionUpdate,
    shard: u32,
    one: u32,
    other: u32,
    leaf: QuadTree,
)
    requires
        server.service.primary.dom().finite(),
        server.service.next + 4 <= u32::MAX,
        takes(server, update, shard),
        !server.service.splits.contains(shard),
        !server.service.merges.contains(shard),
        one != other && one != update.client_id && other != update.client_id,
        is_with(server.service.primary, one, shard),
        is_with(server.service.primary, other, shard),
        server.service.tree.leaves().contains(leaf),
        leaf.shard_id == Some(shard),
        leaf.depth < leaf.max_depth,
    ensures
        ({
            let event = EventView::Position { update };
            let next = server.service.next;
            let after = server.after(event).service;
            let four = seq![next, (next + 1) as u32, (next + 2) as u32, (next + 3) as u32];
            &&& server.actions(event).contains(
                ActionView::ScaleUp { parent_shard: shard, new_shards: four },
            )
            &&& server.service.crowded(update, server.pending) == Some(shard)
            &&& after.splits == server.service.splits.insert(shard)
            &&& after.next == next + 4
            &&& after.tree == server.service.tree.with_leaf_split(shard, next as int)
            &&& after.merges == server.service.merges
            &&& server.after(event).children == server.children.insert(shard, four)
            &&& forall|new: u32|
                next <= new < next + 4 ==> (#[trigger] server.after(event).pending.contains_key(new))
                    && server.after(event).pending[new] == shard
            &&& forall|old_one: u32|
                !(next <= old_one < next + 4) ==> (#[trigger] server.after(
                    event,
                ).pending.contains_key(old_one)) == server.pending.contains_key(old_one) && (
                server.pending.contains_key(old_one) ==> server.after(event).pending[old_one]
                    == server.pending[old_one])
        }),
{
    let service = server.service;
    lemma_waits_after_update(server, update);
    let event = EventView::Position { update };
    let after = service.primary_after(update, server.pending);
    let next = service.next;
    assert(after == service.primary.insert(update.client_id, shard));
    lemma_three_are_a_crowd(after, shard, one, other, update.client_id);
    law_shards_to_divide_are_found(service.tree, shard, leaf);
    let wanted = ActionView::ScaleUp {
        parent_shard: shard,
        new_shards: seq![next, (next + 1) as u32, (next + 2) as u32, (next + 3) as u32],
    };
    lemma_one_contains(wanted, wanted);
    lemma_update_actions(service, update, server.pending, wanted);
    let seen = ServerView { service: service.after_update(update, server.pending), ..server };
    lemma_noted_all_keeps_service(seen, server.actions(event));
    let four = seq![next, (next + 1) as u32, (next + 2) as u32, (next + 3) as u32];
    assert forall|new: u32| #[trigger] four.contains(new) <==> next <= new < next + 4 by {
        if next <= new < next + 4 {
            assert(four[new - next] == new);
        }
    }
    assert(service.split_actions(update, server.pending)[0] == wanted);
}

/// Where no such leaf is left, the shard counts as being divided all the same, and nothing is
/// asked for.
pub proof fn law_shards_at_the_deepest_level_only_count_as_divided(
    server: ServerView,
    update: PositionUpdate,
    shard: u32,
    one: u32,
    other: u32,
)
    requires
        server.service.primary.dom().finite(),
        takes(server, update, shard),
        !server.service.splits.contains(shard),
        !server.service.merges.contains(shard),
        one != other && one != update.client_id && other != update.client_id,
        is_with(server.service.primary, one, shard),
        is_with(server.service.primary, other, shard),
        forall|leaf: QuadTree| #[trigger]
            server.service.tree.leaves().contains(leaf) ==> leaf.shard_id != Some(shard)
                || leaf.depth >= leaf.max_depth,
    ensures
        ({
            let event = EventView::Position { update };
            let after = server.after(event).service;
            &&& forall|action: ActionView| #[trigger]
                server.actions(event).contains(action) ==> !(action is ScaleUp) && !(
                action is ScaleDown)
            &&& after.splits == server.service.splits.insert(shard)
            &&& after.next == server.service.next
            &&& after.tree == server.service.tree
            &&& after.merges == server.service.merges
            &&& server.after(event).pending == server.pending
            &&& server.after(event).children == server.children
        }),
{
    let service = server.service;
    lemma_waits_after_update(server, update);
    let event = EventView::Position { update };
    let after = service.primary_after(update, server.pending);
    assert(after == service.primary.insert(update.client_id, shard));
    lemma_three_are_a_crowd(after, shard, one, other, update.client_id);
    if service.tree.leaf_to_split(shard) is Some {
        let leaf = crate::shard_laws::law_divisions_take_one_leaf(service.tree, shard, 0);
        assert(false);
    }
    lemma_only_divisions_scale(server, update);
    let seen = ServerView { service: service.after_update(update, server.pending), ..server };
    lemma_noted_all_keeps_service(seen, server.actions(event));
}

/// Seeing a client asks for new shards only where a leaf is divided.
proof fn lemma_only_divisions_scale(server: ServerView, update: PositionUpdate)
    ensures
        ({
            let event = EventView::Position { update };
            &&& forall|action: ActionView| #[trigger]
                server.actions(event).contains(action) ==> !(action is ScaleDown)
            &&& !server.service.divides(update, server.pending) ==> forall|action: ActionView|
                #[trigger]
                server.actions(event).contains(action) ==> !(action is ScaleUp)
        }),
{
    let service = server.service;
    let event = EventView::Position { update };
    let near = service.near(update.position(), server.pending);
    let current = service.subscriptions(update.client_id);
    assert forall|action: ActionView| #[trigger] server.actions(event).contains(action) implies !(
    action is ScaleDown) && (!service.divides(update, server.pending) ==> !(
    action is ScaleUp)) by {
        lemma_update_actions(service, update, server.pending, action);
        lemma_subscribes_are_subscribes(update.client_id, near, current, action);
        lemma_unsubscribes_are_unsubscribes(update.client_id, near, current, action);
    }
}

/// A shard that does not have two other clients besides the one that was seen, that is being
/// divided or merged already, or that does not take the client, is not divided: no shard is
/// asked for, and the tree stays as it is.
pub proof fn law_quiet_shards_are_not_divided(server: ServerView, update: PositionUpdate)
    requires
        server.service.primary.dom().finite(),
        forall|shard: u32, one: u32, other: u32|
            #![trigger is_with(server.service.primary, one, shard), is_with(server.service.primary, other, shard)]
            takes(server, update, shard) && is_with(server.service.primary, one, shard) && is_with(
                server.service.primary,
                other,
                shard,
            ) && one != other && one != update.client_id && other != update.client_id
                ==> server.service.splits.contains(shard) || server.service.merges.contains(shard),
    ensures
        ({
            let event = EventView::Position { update };
            let after = server.after(event).service;
            &&& forall|action: ActionView| #[trigger]
                server.actions(event).contains(action) ==> !(action is ScaleUp) && !(
                action is ScaleDown)
            &&& server.service.crowded(update, server.pending) is None
            &&& after.splits == server.service.splits
            &&& after.next == server.service.next
            &&& after.tree == server.service.tree
            &&& after.merges == server.service.merges
            &&& server.after(event).pending == server.pending
            &&& server.after(event).children == server.children
        }),
{
    let service = server.service;
    lemma_waits_after_update(server, update);
    let event = EventView::Position { update };
    if service.crowded(update, server.pending) is Some {
        let shard = service.crowded(update, server.pending)->0;
        let after = service.primary_after(update, server.pending);
        assert(takes(server, update, shard));
        assert(after == service.primary.insert(update.client_id, shard));
        let (one, other) = lemma_a_crowd_has_two_others(after, shard, update.client_id);
        assert(is_with(service.primary, one, shard) && is_with(service.primary, other, shard));
        assert(false);
    }
    lemma_only_divisions_scale(server, update);
    let seen = ServerView { service: service.after_update(update, server.pending), ..server };
    lemma_noted_all_keeps_service(seen, server.actions(event));
}

/// A client who was seen is with the shard that takes it. Where none does, it stays where it
/// was. Nobody else is moved, and nothing else about the service changes but what the client
/// listens to and what a division changes.
pub proof fn law_seen_clients_are_with_the_shard_that_takes_them(
    server: ServerView,
    update: PositionUpdate,
    shard: u32,
    client: u32,
)
    ensures
        ({
            let after = server.after((EventView::Position { update })).service;
            let before = server.service;
            &&& takes(server, update, shard) ==> is_with(after.primary, update.client_id, shard)
            &&& client != update.client_id ==> (is_with(after.primary, client, shard) <==> is_with(
                before.primary,
                client,
                shard,
            ))
            &&& (forall|s: u32| !takes(server, update, s)) ==> after.primary == before.primary
            &&& after.subscribed.contains_key(update.client_id)
            &&& client != update.client_id ==> after.subscribed.contains_key(client)
                == before.subscribed.contains_key(client) && after.subscribed[client]
                == before.subscribed[client]
            &&& after.margin == before.margin
            &&& after.merges == before.merges
        }),
{
    let service = server.service;
    let event = EventView::Position { update };
    let seen = ServerView { service: service.after_update(update, server.pending), ..server };
    lemma_noted_all_keeps_service(seen, server.actions(event));
    if service.owner(update.position(), server.pending) is Some {
        assert(takes(server, update, service.owner(update.position(), server.pending)->0));
    }
}

/// What a client listens to after it was seen: the shard that takes it, and whatever stands in
/// for a shard within the margin, in ascending order.
pub proof fn law_seen_clients_listen_around(server: ServerView, update: PositionUpdate, shard: u32)
    ensures
        ({
            let after = server.after((EventView::Position { update })).service;
            let within = server.service.tree.shards_within(
                Vec2 { x: update.x, y: update.y },
                server.service.margin,
            );
            let waits = server.pending.contains_key(shard) && server.pending[shard] != shard;
            &&& ascending(after.subscribed[update.client_id])
            &&& after.subscribed[update.client_id].contains(shard) <==> takes(server, update, shard)
                || (within.contains(shard) && !waits) || exists|near: u32| #[trigger]
                within.contains(near) && server.pending.contains_key(near) && server.pending[near]
                    == shard
        }),
{
    let service = server.service;
    let event = EventView::Position { update };
    let seen = ServerView { service: service.after_update(update, server.pending), ..server };
    lemma_noted_all_keeps_service(seen, server.actions(event));
    law_clients_listen_to_their_surroundings(service, update, server.pending, shard);
    let within = service.tree.shards_within(update.position(), service.margin);
    let after = service.after_update(update, server.pending);
    assert(after.subscriptions(update.client_id) == after.subscribed[update.client_id]);
    if within.contains(shard) {
        assert(crate::spatial::routed(shard, server.pending) == shard || server.pending.contains_key(
            shard,
        ));
    }
    assert(takes(server, update, shard) <==> service.owner(update.position(), server.pending)
        == Some(shard));
}

/// When a client was seen, its subscriptions are changed exactly as what it listens to changed;
/// it is alerted exactly where it listens to more than one shard; and its authority changes
/// exactly where it had another shard. No other client is spoken of.
pub proof fn law_an_update_asks_for_what_changed(
    server: ServerView,
    update: PositionUpdate,
    shard: u32,
    action: ActionView,
)
    ensures
        ({
            let event = EventView::Position { update };
            let client_id = update.client_id;
            let actions = server.actions(event);
            let near = server.after(event).service.subscribed[client_id];
            let known = server.service.subscribed.contains_key(client_id);
            let heard = known && server.service.subscribed[client_id].contains(shard);
            &&& actions.contains(ActionView::Subscribe { client_id, topic: shard_topic(shard) })
                <==> near.contains(shard) && !heard
            &&& actions.contains(ActionView::Unsubscribe { client_id, topic: shard_topic(shard) })
                <==> heard && !near.contains(shard)
            &&& actions.contains(action) && action is Subscribe ==> action->Subscribe_client_id
                == client_id
            &&& actions.contains(action) && action is Unsubscribe
                ==> action->Unsubscribe_client_id == client_id
            &&& action is CrossingAlert ==> (actions.contains(action) <==> near.len() > 1 && action
                == ActionView::CrossingAlert { client_id, shards: near })
            &&& action matches ActionView::AuthorityChange { client_id: who, old_shard, new_shard }
                ==> (actions.contains(action) <==> who == client_id && old_shard != new_shard
                && is_with(server.service.primary, who, old_shard) && takes(
                server,
                update,
                new_shard,
            ))
        }),
{
    let service = server.service;
    let event = EventView::Position { update };
    let client_id = update.client_id;
    let seen = ServerView { service: service.after_update(update, server.pending), ..server };
    lemma_noted_all_keeps_service(seen, server.actions(event));
    let near = service.near(update.position(), server.pending);
    let current = service.subscriptions(client_id);
    let on = ActionView::Subscribe { client_id, topic: shard_topic(shard) };
    let off = ActionView::Unsubscribe { client_id, topic: shard_topic(shard) };
    law_subscriptions_follow_the_shards(client_id, near, current, shard);
    lemma_update_actions(service, update, server.pending, on);
    lemma_update_actions(service, update, server.pending, off);
    lemma_update_actions(service, update, server.pending, action);
    lemma_subscribes_are_subscribes(client_id, near, current, on);
    lemma_subscribes_are_subscribes(client_id, near, current, off);
    lemma_subscribes_are_subscribes(client_id, near, current, action);
    lemma_unsubscribes_are_unsubscribes(client_id, near, current, on);
    lemma_unsubscribes_are_unsubscribes(client_id, near, current, off);
    lemma_unsubscribes_are_unsubscribes(client_id, near, current, action);
    let alert = ActionView::CrossingAlert { client_id, shards: near };
    lemma_one_contains(alert, action);
    if let Some(own) = service.owner(update.position(), server.pending) {
        let change = ActionView::AuthorityChange {
            client_id,
            old_shard: service.primary[client_id],
            new_shard: own,
        };
        lemma_one_contains(change, action);
    }
    assert(!current.contains(shard) || service.subscribed.contains_key(client_id));
}

/// In which order things are asked for when a client was seen.
pub open spec fn rank(action: ActionView) -> int {
    match action {
        ActionView::AuthorityChange { .. } => 0,
        ActionView::Subscribe { .. } => 1,
        ActionView::Unsubscribe { .. } => 2,
        ActionView::CrossingAlert { .. } => 3,
        ActionView::ScaleUp { .. } => 4,
        ActionView::ScaleDown { .. } => 5,
    }
}

proof fn lemma_subscribes_differ(client_id: u32, near: Seq<u32>, current: Seq<u32>, i: int, j: int)
    requires
        near.no_duplicates(),
        0 <= i < j < subscribes(client_id, near, current).len(),
    ensures
        subscribes(client_id, near, current)[i] != subscribes(client_id, near, current)[j],
    decreases near.len(),
{
    let all = subscribes(client_id, near, current);
    let fewer = near.drop_last();
    let last = near.last();
    let earlier = subscribes(client_id, fewer, current);
    assert(!fewer.contains(last)) by {
        if fewer.contains(last) {
            let k = choose|k: int| 0 <= k < fewer.len() && fewer[k] == last;
            assert(near[k] == near[near.len() - 1]);
        }
    }
    assert(fewer.no_duplicates()) by {
        assert forall|a: int, b: int| 0 <= a < fewer.len() && 0 <= b < fewer.len() && a
            != b implies fewer[a] != fewer[b] by {
            assert(near[a] != near[b]);
        }
    }
    law_subscriptions_follow_the_shards(client_id, fewer, current, last);
    if j < earlier.len() {
        lemma_subscribes_differ(client_id, fewer, current, i, j);
    } else {
        assert(all[i] == earlier[i]);
        assert(earlier.contains(earlier[i]));
    }
}

proof fn lemma_unsubscribes_differ(client_id: u32, near: Seq<u32>, current: Seq<u32>, i: int, j: int)
    requires
        current.no_duplicates(),
        0 <= i < j < unsubscribes(client_id, near, current).len(),
    ensures
        unsubscribes(client_id, near, current)[i] != unsubscribes(client_id, near, current)[j],
    decreases current.len(),
{
    let all = unsubscribes(client_id, near, current);
    let fewer = current.drop_last();
    let last = current.last();
    let earlier = unsubscribes(client_id, near, fewer);
    assert(!fewer.contains(last)) by {
        if fewer.contains(last) {
            let k = choose|k: int| 0 <= k < fewer.len() && fewer[k] == last;
            assert(current[k] == current[current.len() - 1]);
        }
    }
    assert(fewer.no_duplicates()) by {
        assert forall|a: int, b: int| 0 <= a < fewer.len() && 0 <= b < fewer.len() && a
            != b implies fewer[a] != fewer[b] by {
            assert(current[a] != current[b]);
        }
    }
    law_subscriptions_follow_the_shards(client_id, near, fewer, last);
    if j < earlier.len() {
        lemma_unsubscribes_differ(client_id, near, fewer, i, j);
    } else {
        assert(all[i] == earlier[i]);
        assert(earlier.contains(earlier[i]));
    }
}

/// When a client was seen, the change of its authority comes first, then the subscriptions, then
/// the cancellations, then the alert, then the request for new shards; and nothing is asked for
/// twice.
pub proof fn law_an_update_asks_in_order(server: ServerView, update: PositionUpdate, i: int, j: int)
    requires
        0 <= i < j < server.actions((EventView::Position { update })).len(),
        server.service.subscribed.contains_key(update.client_id)
            ==> server.service.subscribed[update.client_id].no_duplicates(),
    ensures
        ({
            let actions = server.actions((EventView::Position { update }));
            &&& rank(actions[i]) <= rank(actions[j])
            &&& rank(actions[i]) == rank(actions[j]) ==> actions[i] is Subscribe
                || actions[i] is Unsubscribe
            &&& actions[i] != actions[j]
        }),
{
    let service = server.service;
    let client_id = update.client_id;
    let near = service.near(update.position(), server.pending);
    let current = service.subscriptions(client_id);
    let a = service.authority_actions(update, server.pending);
    let b = subscribes(client_id, near, current);
    let c = unsubscribes(client_id, near, current);
    let d = service.crossing_actions(update, server.pending);
    let e = service.split_actions(update, server.pending);
    let all = server.actions((EventView::Position { update }));
    assert(all == a + b + c + d + e);
    law_clients_listen_to_their_surroundings(service, update, server.pending, 0);
    assert(near == service.after_update(update, server.pending).subscriptions(client_id));
    assert(near.no_duplicates());
    assert forall|k: int| 0 <= k < b.len() implies (#[trigger] b[k]) is Subscribe by {
        lemma_subscribes_are_subscribes(client_id, near, current, b[k]);
        assert(b.contains(b[k]));
    }
    assert forall|k: int| 0 <= k < c.len() implies (#[trigger] c[k]) is Unsubscribe by {
        lemma_unsubscribes_are_unsubscribes(client_id, near, current, c[k]);
        assert(c.contains(c[k]));
    }
    let sb = a.len() as int;
    let sc = sb + b.len();
    let sd = sc + c.len();
    let se = sd + d.len();
    assert forall|k: int| 0 <= k < all.len() implies rank(#[trigger] all[k]) == (if k < sb {
        0int
    } else if k < sc {
        1int
    } else if k < sd {
        2int
    } else if k < se {
        3int
    } else {
        4int
    }) by {
        if k < sb {
            assert(all[k] == a[k]);
        } else if k < sc {
            assert(all[k] == b[k - sb]);
        } else if k < sd {
            assert(all[k] == c[k - sc]);
        } else if k < se {
            assert(all[k] == d[k - sd]);
        } else {
            assert(all[k] == e[k - se]);
        }
    }
    if sb <= i && j < sc {
        lemma_subscribes_differ(client_id, near, current, i - sb, j - sb);
        assert(all[i] == b[i - sb] && all[j] == b[j - sb]);
    }
    if sc <= i && j < sd {
        lemma_unsubscribes_differ(client_id, near, current, i - sc, j - sc);
        assert(all[i] == c[i - sc] && all[j] == c[j - sc]);
    }
}

/// There is room for an event exactly where it divides nothing or four numbers are left.
pub proof fn law_room_is_lacking_only_for_divisions(server: ServerView, event: EventView)
    ensures
        server.service.next + 4 <= u32::MAX ==> server.has_room(event),
        !(event is Position) ==> server.has_room(event),
        event matches EventView::Position { update } ==> server.service.next + 4 > u32::MAX ==> (
        server.has_room(event) <==> !server.service.divides(update, server.pending)),
        event matches EventView::Position { update } ==> (server.service.divides(
            update,
            server.pending,
        ) <==> server.service.crowded(update, server.pending) is Some && exists|leaf: QuadTree|
            #[trigger]
            server.service.tree.leaves().contains(leaf) && leaf.depth < leaf.max_depth
                && leaf.shard_id == server.service.crowded(update, server.pending)),
{
    if let EventView::Position { update } = event {
        if let Some(shard) = server.service.crowded(update, server.pending) {
            let tree = server.service.tree;
            if tree.leaf_to_split(shard) is Some {
                let leaf = crate::shard_laws::law_divisions_take_one_leaf(tree, shard, 0);
            }
            if exists|leaf: QuadTree| #[trigger]
                tree.leaves().contains(leaf) && leaf.depth < leaf.max_depth && leaf.shard_id
                    == Some(shard) {
                let leaf = choose|leaf: QuadTree| #[trigger]
                    tree.leaves().contains(leaf) && leaf.depth < leaf.max_depth && leaf.shard_id
                        == Some(shard);
                law_shards_to_divide_are_found(tree, shard, leaf);
            }
        }
    }
}

/// Whether at most one client is with the four quadrants of a node.
pub open spec fn nearly_empty(primary: Map<u32, u32>, node: QuadTree) -> bool {
    node.children matches Some(c) && forall|one: u32, other: u32|
        #![trigger primary.contains_key(one), primary.contains_key(other)]
        primary.contains_key(one) && primary.contains_key(other) && (Some(primary[one])
            == c.nw.shard_id || Some(primary[one]) == c.ne.shard_id || Some(primary[one])
            == c.sw.shard_id || Some(primary[one]) == c.se.shard_id) && (Some(primary[other])
            == c.nw.shard_id || Some(primary[other]) == c.ne.shard_id || Some(primary[other])
            == c.sw.shard_id || Some(primary[other]) == c.se.shard_id) ==> one == other
}

/// Whether the four quadrants of a node have four different numbers.
pub open spec fn quadrants_differ(node: QuadTree) -> bool {
    node.children matches Some(c) && {
        &&& c.nw.shard_id != c.ne.shard_id && c.nw.shard_id != c.sw.shard_id && c.nw.shard_id
            != c.se.shard_id
        &&& c.ne.shard_id != c.sw.shard_id && c.ne.shard_id != c.se.shard_id && c.sw.shard_id
            != c.se.shard_id
    }
}

/// A count holds what the population is.
proof fn lemma_counts(primary: Map<u32, u32>, node: QuadTree)
    requires
        primary.dom().finite(),
        primary.dom().len() <= usize::MAX,
        node.shard_id is Some,
    ensures
        counted(populations(primary), node) == clients_of(primary, node.shard_id->0).len(),
        clients_of(primary, node.shard_id->0).finite(),
{
    let shard = node.shard_id->0;
    let here = |client: u32| primary[client] == shard;
    primary.dom().lemma_len_filter(here);
    assert(clients_of(primary, shard) =~= primary.dom().filter(here));
    assert(population(primary, shard) <= usize::MAX);
}

/// Of at most one client, a set holds as many as it holds of that one.
proof fn lemma_at_most_one(set: Set<u32>, one: u32)
    requires
        set.finite(),
        forall|x: u32| #[trigger] set.contains(x) ==> x == one,
    ensures
        set.len() == if set.contains(one) {
            1nat
        } else {
            0nat
        },
{
    if set.contains(one) {
        assert(set =~= set![one]);
    } else {
        assert(set =~= Set::empty());
    }
}

/// Where at most one client is with the quadrants of a node, they are sparse.
proof fn lemma_nearly_empty_is_sparse(primary: Map<u32, u32>, node: QuadTree)
    requires
        primary.dom().finite(),
        primary.dom().len() <= usize::MAX,
        node.is_family(),
        quadrants_differ(node),
        nearly_empty(primary, node),
    ensures
        node.is_sparse(populations(primary), 1),
{
    let c = *node.children->0;
    lemma_counts(primary, c.nw);
    lemma_counts(primary, c.ne);
    lemma_counts(primary, c.sw);
    lemma_counts(primary, c.se);
    let nw = clients_of(primary, c.nw.shard_id->0);
    let ne = clients_of(primary, c.ne.shard_id->0);
    let sw = clients_of(primary, c.sw.shard_id->0);
    let se = clients_of(primary, c.se.shard_id->0);
    let all = nw + ne + sw + se;
    let one = all.choose();
    if exists|x: u32| all.contains(x) {
        assert(all.contains(one));
        assert(primary.contains_key(one));
    }
    assert forall|x: u32| #[trigger] all.contains(x) implies x == one by {
        assert(primary.contains_key(x));
        assert(all.contains(one));
    }
    assert forall|x: u32| #[trigger] nw.contains(x) implies x == one by {
        assert(all.contains(x));
    }
    assert forall|x: u32| #[trigger] ne.contains(x) implies x == one by {
        assert(all.contains(x));
    }
    assert forall|x: u32| #[trigger] sw.contains(x) implies x == one by {
        assert(all.contains(x));
    }
    assert forall|x: u32| #[trigger] se.contains(x) implies x == one by {
        assert(all.contains(x));
    }
    lemma_at_most_one(nw, one);
    lemma_at_most_one(ne, one);
    lemma_at_most_one(sw, one);
    lemma_at_most_one(se, one);
}

/// Two clients are in no set of at most one.
proof fn lemma_two_are_more_than_one(set: Set<u32>, a: u32, b: u32)
    requires
        set.finite(),
        set.contains(a),
        set.contains(b),
        a != b,
    ensures
        set.len() >= 2,
{
    assert(set.remove(a).contains(b));
    assert(set.remove(a).remove(b).len() + 2 == set.len());
}

/// Where quadrants are sparse, at most one client is with them.
proof fn lemma_sparse_is_nearly_empty(primary: Map<u32, u32>, node: QuadTree)
    requires
        primary.dom().finite(),
        primary.dom().len() <= usize::MAX,
        node.is_sparse(populations(primary), 1),
    ensures
        nearly_empty(primary, node),
{
    let c = *node.children->0;
    lemma_counts(primary, c.nw);
    lemma_counts(primary, c.ne);
    lemma_counts(primary, c.sw);
    lemma_counts(primary, c.se);
    let nw = clients_of(primary, c.nw.shard_id->0);
    let ne = clients_of(primary, c.ne.shard_id->0);
    let sw = clients_of(primary, c.sw.shard_id->0);
    let se = clients_of(primary, c.se.shard_id->0);
    assert forall|one: u32, other: u32|
        #![trigger primary.contains_key(one), primary.contains_key(other)]
        primary.contains_key(one) && primary.contains_key(other) && (Some(primary[one])
            == c.nw.shard_id || Some(primary[one]) == c.ne.shard_id || Some(primary[one])
            == c.sw.shard_id || Some(primary[one]) == c.se.shard_id) && (Some(primary[other])
            == c.nw.shard_id || Some(primary[other]) == c.ne.shard_id || Some(primary[other])
            == c.sw.shard_id || Some(primary[other]) == c.se.shard_id) implies one == other by {
        if one != other {
            let all = nw + ne + sw + se;
            assert(all.contains(one) && all.contains(other));
            lemma_two_are_more_than_one(all, one, other);
            vstd::set_lib::lemma_len_union(nw, ne);
            vstd::set_lib::lemma_len_union(nw + ne, sw);
            vstd::set_lib::lemma_len_union(nw + ne + sw, se);
        }
    }
}

/// If the tree has a numbered node whose four quadrants are leaves with at most one client
/// together, the departure of a client leads to a request to merge such a node, and to nothing
/// else. How many clients are elsewhere does not matter.
pub proof fn law_nearly_empty_shards_are_merged(server: ServerView, client_id: u32, node: QuadTree) -> (
merged: QuadTree)
    requires
        server.service.primary.dom().finite(),
        server.service.primary.dom().len() <= usize::MAX,
        server.service.tree.families_numbered(),
        server.service.tree.nodes().contains(node),
        node.is_family(),
        quadrants_differ(node),
        nearly_empty(server.service.primary.remove(client_id), node),
    ensures
        server.service.tree.nodes().contains(merged),
        merged.is_family(),
        nearly_empty(server.service.primary.remove(client_id), merged),
        ({
            let event = EventView::Disconnect { client_id };
            let c = *merged.children->0;
            let after = server.after(event).service;
            &&& server.actions(event) == seq![
                ActionView::ScaleDown {
                    parent_shard: merged.shard_id->0,
                    old_shards: seq![
                        c.nw.shard_id->0,
                        c.ne.shard_id->0,
                        c.sw.shard_id->0,
                        c.se.shard_id->0,
                    ],
                },
            ]
            &&& after.merges == server.service.merges.insert(merged.shard_id->0)
            &&& server.after(event).pending == server.pending.insert(
                merged.shard_id->0,
                merged.shard_id->0,
            )
            &&& server.after(event).children == server.children.insert(
                merged.shard_id->0,
                seq![merged.shard_id->0],
            )
            &&& after.tree.leaves().contains(merged.undivided())
            &&& forall|leaf: QuadTree| #[trigger]
                after.tree.leaves().contains(leaf) ==> leaf == merged.undivided()
                    || server.service.tree.leaves().contains(leaf)
            &&& forall|leaf: QuadTree| #[trigger]
                server.service.tree.leaves().contains(leaf) && !leaf.is_quadrant_of(merged)
                    ==> after.tree.leaves().contains(leaf)
        }),
{
    let left = server.service.without_client(client_id);
    let primary = server.service.primary.remove(client_id);
    assert(primary.dom() =~= server.service.primary.dom().remove(client_id));
    lemma_nearly_empty_is_sparse(primary, node);
    law_sparse_shards_are_merged(left.tree, populations(primary), 1, node);
    let merged = law_merges_take_a_sparse_node(left.tree, populations(primary), 1);
    lemma_sparse_is_nearly_empty(primary, merged);
    let event = EventView::Disconnect { client_id };
    lemma_noted_all_keeps_service(
        ServerView { service: left.after_merge(), ..server },
        server.actions(event),
    );
    reveal_with_fuel(ServerView::noted_all, 2);
    assert(server.actions(event).drop_last() =~= Seq::empty());
    merged
}

/// Where no node of the tree is like that, nothing is merged.
pub proof fn law_populated_shards_are_not_merged(server: ServerView, client_id: u32)
    requires
        server.service.primary.dom().finite(),
        server.service.primary.dom().len() <= usize::MAX,
        server.service.tree.families_numbered(),
        forall|node: QuadTree| #[trigger]
            server.service.tree.nodes().contains(node) ==> !node.is_family() || !nearly_empty(
                server.service.primary.remove(client_id),
                node,
            ),
    ensures
        server.actions((EventView::Disconnect { client_id })).len() == 0,
        server.after((EventView::Disconnect { client_id })).service.tree == server.service.tree,
        server.after((EventView::Disconnect { client_id })).service.merges
            == server.service.merges,
        server.after((EventView::Disconnect { client_id })).pending == server.pending,
        server.after((EventView::Disconnect { client_id })).children == server.children,
{
    let left = server.service.without_client(client_id);
    let primary = server.service.primary.remove(client_id);
    assert(primary.dom() =~= server.service.primary.dom().remove(client_id));
    if left.merge() is Some {
        let merged = law_merges_take_a_sparse_node(left.tree, populations(primary), 1);
        lemma_sparse_is_nearly_empty(primary, merged);
        assert(false);
    }
    assert(server.actions((EventView::Disconnect { client_id })) =~= Seq::empty());
}

/// A client who is gone has no shard and listens to none; the others keep theirs.
pub proof fn law_departed_clients_are_forgotten(server: ServerView, client_id: u32)
    ensures
        ({
            let after = server.after((EventView::Disconnect { client_id })).service;
            &&& after.primary == server.service.primary.remove(client_id)
            &&& after.subscribed == server.service.subscribed.remove(client_id)
            &&& after.margin == server.service.margin
            &&& after.next == server.service.next
            &&& after.splits == server.service.splits
        }),
{
    let left = server.service.without_client(client_id);
    lemma_noted_all_keeps_service(
        ServerView { service: left.after_merge(), ..server },
        server.actions((EventView::Disconnect { client_id })),
    );
}

/// When shards crash, every client of theirs that a shard above takes over is announced with
/// its old and its new shard, by ascending number, and nobody else is; the clients are with
/// these shards from then on.
pub proof fn law_rescues_are_announced(
    server: ServerView,
    crashed: Seq<u32>,
    client_id: u32,
    old_shard: u32,
    new_shard: u32,
)
    requires
        server.service.primary.dom().finite(),
    ensures
        ({
            let event = EventView::Crash { shards: crashed };
            let actions = server.actions(event);
            let after = server.after(event);
            let moves = is_with(server.service.primary, client_id, old_shard) && crashed.contains(
                old_shard,
            ) && server.service.tree.refuge(crashed, old_shard) == Some(new_shard);
            &&& actions.contains(ActionView::AuthorityChange { client_id, old_shard, new_shard })
                <==> moves
            &&& forall|i: int| 0 <= i < actions.len() ==> (#[trigger] actions[i]) is AuthorityChange
            &&& forall|i: int, j: int|
                0 <= i < j < actions.len() ==> (#[trigger] actions[i])->AuthorityChange_client_id < (
                #[trigger] actions[j])->AuthorityChange_client_id
            &&& moves ==> is_with(after.service.primary, client_id, new_shard)
            &&& is_with(server.service.primary, client_id, old_shard) && !(crashed.contains(
                old_shard,
            ) && server.service.tree.refuge(crashed, old_shard) is Some) ==> is_with(
                after.service.primary,
                client_id,
                old_shard,
            )
            &&& after.service.primary.contains_key(client_id)
                == server.service.primary.contains_key(client_id)
            &&& after.service.tree == server.service.tree.collapsed(crashed)
            &&& after.service.subscribed == server.service.subscribed
            &&& after.service.next == server.service.next
            &&& after.service.margin == server.service.margin
            &&& after.service.splits == server.service.splits
            &&& after.service.merges == server.service.merges
            &&& after.pending == server.pending
            &&& after.children == server.children
        }),
{
    let service = server.service;
    let event = EventView::Crash { shards: crashed };
    let actions = server.actions(event);
    let rescued = service.rescued(crashed);
    let order = in_order(rescued);
    lemma_in_order_exists(rescued);
    assert(actions.len() == order.len());
    assert forall|i: int| 0 <= i < actions.len() implies #[trigger] actions[i] == service.rescue(
        crashed,
        order[i],
    ) && rescued.contains(order[i]) by {
        assert(order.to_set().contains(order[i]));
    }
    let change = ActionView::AuthorityChange { client_id, old_shard, new_shard };
    if rescued.contains(client_id) {
        assert(order.to_set().contains(client_id));
        let k = choose|k: int| 0 <= k < order.len() && order[k] == client_id;
        assert(actions[k] == service.rescue(crashed, client_id));
        assert(actions.contains(service.rescue(crashed, client_id)));
    }
    if actions.contains(change) {
        let k = choose|k: int| 0 <= k < actions.len() && actions[k] == change;
        assert(actions[k] == service.rescue(crashed, order[k]));
        assert(rescued.contains(order[k]));
    }
}

/// A shard that became ready is waited for no longer, and nobody else is ready for it. What a
/// parent waits for becomes less by that shard, and a parent that waits for nobody is done.
pub proof fn law_a_ready_shard_is_waited_for_no_longer(
    server: ServerView,
    shard_id: u32,
    other: u32,
    parent: u32,
)
    ensures
        ({
            let after = server.after((EventView::Ready { shard_id }));
            &&& server.actions((EventView::Ready { shard_id })).len() == 0
            &&& !after.pending.contains_key(shard_id)
            &&& other != shard_id ==> after.pending.contains_key(other)
                == server.pending.contains_key(other) && after.pending[other]
                == server.pending[other]
            &&& !server.pending.contains_key(shard_id) ==> after == server
            &&& server.pending.contains_key(shard_id) && server.pending[shard_id] != parent
                ==> after.children.contains_key(parent) == server.children.contains_key(parent)
                && after.children[parent] == server.children[parent]
                && after.service.merges.contains(parent) == server.service.merges.contains(parent)
                && after.service.splits.contains(parent) == server.service.splits.contains(parent)
            &&& after.service.primary == server.service.primary
            &&& after.service.subscribed == server.service.subscribed
            &&& after.service.tree == server.service.tree
            &&& after.service.next == server.service.next
            &&& after.service.margin == server.service.margin
        }),
{
}

/// When a shard becomes ready, its parent goes on waiting for the others, if there are any. When
/// there are none, the parent is done: with its merge, if it merges, and else with its division.
/// A parent that waits for nobody is left alone.
pub proof fn law_a_parent_is_done_when_nobody_is_missing(
    server: ServerView,
    shard_id: u32,
    other: u32,
)
    requires
        server.pending.contains_key(shard_id),
    ensures
        ({
            let after = server.after((EventView::Ready { shard_id }));
            let parent = server.pending[shard_id];
            let waits = server.children.contains_key(parent);
            let others = waits && exists|x: u32| #[trigger]
                server.children[parent].contains(x) && x != shard_id;
            &&& !waits ==> after.children == server.children && after.service == server.service
            &&& others ==> after.children.contains_key(parent) && after.service == server.service
            &&& others ==> (after.children[parent].contains(other) <==> other != shard_id
                && server.children[parent].contains(other))
            &&& waits && !others ==> after.children == server.children.remove(parent)
            &&& waits && !others && server.service.merges.contains(parent) ==> after.service.merges
                == server.service.merges.remove(parent) && after.service.splits
                == server.service.splits
            &&& waits && !others && !server.service.merges.contains(parent)
                ==> after.service.splits == server.service.splits.remove(parent)
                && after.service.merges == server.service.merges
        }),
{
    let parent = server.pending[shard_id];
    if server.children.contains_key(parent) {
        let list = server.children[parent];
        let rest = server.still_waiting(parent, shard_id);
        lemma_all_but(list, shard_id, other);
        if exists|x: u32| #[trigger] list.contains(x) && x != shard_id {
            let x = choose|x: u32| #[trigger] list.contains(x) && x != shard_id;
            lemma_all_but(list, shard_id, x);
            assert(rest.contains(x));
            assert(rest.len() > 0);
        } else if rest.len() > 0 {
            lemma_all_but(list, shard_id, rest[0]);
            assert(rest.contains(rest[0]));
        }
    }
}

/// Whoever asks for new shards waits for exactly these; the other waits go on.
pub proof fn law_a_request_is_noted(server: ServerView, parent_shard: u32, shards: Seq<u32>, shard: u32)
    ensures
        ({
            let up = server.noted((ActionView::ScaleUp { parent_shard, new_shards: shards }));
            let down = server.noted((ActionView::ScaleDown { parent_shard, old_shards: shards }));
            &&& shards.contains(shard) ==> up.pending.contains_key(shard) && up.pending[shard]
                == parent_shard
            &&& !shards.contains(shard) ==> up.pending.contains_key(shard)
                == server.pending.contains_key(shard)
            &&& !shards.contains(shard) && server.pending.contains_key(shard)
                ==> up.pending[shard] == server.pending[shard]
            &&& up.children == server.children.insert(parent_shard, shards)
            &&& down.pending == server.pending.insert(parent_shard, parent_shard)
            &&& down.children == server.children.insert(parent_shard, seq![parent_shard])
            &&& up.service == server.service && down.service == server.service
        }),
{
}

/// Other packets do nothing.
pub proof fn law_ignored_packets_do_nothing(server: ServerView)
    ensures
        server.after(EventView::Ignored) == server,
        server.actions(EventView::Ignored).len() == 0,
{
}

} // verus!
