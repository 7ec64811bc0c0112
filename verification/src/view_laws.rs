//! What the views show: everything that the values hold, as it is.

use crate::broker::{BrokerState, RouteTable, TopicRoute};
use crate::client::ClientState;
use crate::game_server::{effect_views, Effect, EffectView, GameServer};
use crate::net::{deliver, sent, Datagram, DatagramView, PeerAddr};
use crate::orchestrator::{FleetStep, FleetStepView};
use crate::quic_server::PlayerRegistry;
use crate::spatial::{views, ActionView, SpatialAction, SpatialService};
use crate::spatial_server::{EventView, SpatialEvent, SpatialServer};
use crate::text::texts;
use crate::wire::contents;
use vstd::prelude::*;

verus! {

/// An action is shown with what it holds.
pub proof fn law_actions_are_shown(
    client_id: u32,
    topic: [u8; 32],
    shards: Vec<u32>,
    a: u32,
    b: u32,
    actions: Seq<SpatialAction>,
    i: int,
)
    requires
        0 <= i < actions.len(),
    ensures
        (SpatialAction::Subscribe { client_id, topic })@ == (ActionView::Subscribe {
            client_id,
            topic: topic@,
        }),
        (SpatialAction::Unsubscribe { client_id, topic })@ == (ActionView::Unsubscribe {
            client_id,
            topic: topic@,
        }),
        (SpatialAction::CrossingAlert { client_id, shards })@ == (ActionView::CrossingAlert {
            client_id,
            shards: shards@,
        }),
        (SpatialAction::AuthorityChange { client_id, old_shard: a, new_shard: b })@ == (
        ActionView::AuthorityChange { client_id, old_shard: a, new_shard: b }),
        (SpatialAction::ScaleUp { parent_shard: a, new_shards: shards })@ == (ActionView::ScaleUp {
            parent_shard: a,
            new_shards: shards@,
        }),
        (SpatialAction::ScaleDown { parent_shard: a, old_shards: shards })@ == (
        ActionView::ScaleDown { parent_shard: a, old_shards: shards@ }),
        views(actions).len() == actions.len(),
        views(actions)[i] == actions[i]@,
{
}

/// An effect is shown with what it holds.
pub proof fn law_effects_are_shown(effects: Seq<Effect>, i: int)
    requires
        0 <= i < effects.len(),
    ensures
        effect_views(effects).len() == effects.len(),
        effect_views(effects)[i] == effects[i]@,
        effects[i] is Exit <==> effects[i]@ is Exit,
        effects[i] matches Effect::Send { data } ==> effects[i]@ == (EffectView::Send {
            data: data@,
        }),
        effects[i] matches Effect::Spawn { state, authority } ==> effects[i]@ == (
        EffectView::Spawn { state, authority }),
        effects[i] matches Effect::Place { state } ==> effects[i]@ == (EffectView::Place { state }),
        effects[i] matches Effect::Steer { client_id, input } ==> effects[i]@ == (
        EffectView::Steer { client_id, input }),
        effects[i] matches Effect::SetAuthority { client_id, authority } ==> effects[i]@ == (
        EffectView::SetAuthority { client_id, authority }),
        effects[i] matches Effect::Despawn { client_id } ==> effects[i]@ == (
        EffectView::Despawn { client_id }),
{
}

/// An event is shown with what it holds.
pub proof fn law_events_are_shown(event: SpatialEvent)
    ensures
        event is Ignored <==> event@ is Ignored,
        event matches SpatialEvent::Position { update } ==> event@ == (EventView::Position {
            update,
        }),
        event matches SpatialEvent::Ready { shard_id } ==> event@ == (EventView::Ready {
            shard_id,
        }),
        event matches SpatialEvent::Crash { shards } ==> event@ == (EventView::Crash {
            shards: shards@,
        }),
        event matches SpatialEvent::Disconnect { client_id } ==> event@ == (EventView::Disconnect {
            client_id,
        }),
{
}

/// A step of the fleet is shown with what it holds.
pub proof fn law_steps_are_shown(step: FleetStep)
    ensures
        step matches FleetStep::Stop { key } ==> step@ == (FleetStepView::Stop { key }),
        step matches FleetStep::Start { key, shards } ==> step@ == (FleetStepView::Start {
            key,
            shards: shards@,
        }),
{
}

/// Lists of messages, datagrams and names are shown one by one.
pub proof fn law_lists_are_shown_one_by_one(
    messages: Seq<Vec<u8>>,
    datagrams: Seq<Datagram>,
    names: Seq<String>,
    i: int,
)
    ensures
        contents(messages).len() == messages.len(),
        0 <= i < messages.len() ==> contents(messages)[i] == messages[i]@,
        sent(datagrams).len() == datagrams.len(),
        0 <= i < datagrams.len() ==> sent(datagrams)[i] == (DatagramView {
            to: datagrams[i].to,
            data: datagrams[i].data@,
        }),
        texts(names).len() == names.len(),
        0 <= i < names.len() ==> texts(names)[i] == names[i]@,
{
}

/// A delivery is one datagram where there is a receiver, and none where there is not.
pub proof fn law_deliveries(to: PeerAddr, data: Seq<u8>)
    ensures
        deliver(Some(to), data) == seq![DatagramView { to, data }],
        deliver(None, data).len() == 0,
{
}

/// A service is shown with its tree, its clients and what is under way.
pub proof fn law_services_are_shown(service: SpatialService, client: u32)
    ensures
        service@.tree == service.quadtree,
        service@.margin == service.margin,
        service@.primary == service.client_primary_shard@,
        service@.next == service.next_shard_id,
        service@.splits == service.pending_splits@,
        service@.merges == service.pending_merges@,
        service@.subscribed.contains_key(client)
            == service.client_subscribed_shards@.contains_key(client),
        service.client_subscribed_shards@.contains_key(client) ==> service@.subscribed[client]
            == service.client_subscribed_shards@[client]@,
{
}

/// A server is shown with its service and what it waits for.
pub proof fn law_servers_are_shown(server: SpatialServer, parent: u32)
    ensures
        server@.service == server.service@,
        server@.pending == server.pending_ready@,
        server@.children.contains_key(parent) == server.parent_to_children@.contains_key(parent),
        server.parent_to_children@.contains_key(parent) ==> server@.children[parent]
            == server.parent_to_children@[parent]@,
{
}

/// A game is shown with its shards and its players, a client with all it knows.
pub proof fn law_games_and_clients_are_shown(game: GameServer, client: ClientState)
    ensures
        game@.shards == texts(game.config.shards@),
        game@.players == game.registry.players@,
        client@.shard_authority == client.shard_authority,
        client@.joined == client.joined,
        client@.spawned == client.spawned_on_server,
        client@.known == client.known_players@,
{
}

/// A broker is shown with its clients and routes.
pub proof fn law_brokers_are_shown(broker: BrokerState, route: TopicRoute, client: u32, i: int)
    ensures
        broker@.addresses == broker.client_addresses@,
        broker@.routes == broker.routes@,
        broker@.topics.contains_key(client) == broker.client_to_topics@.contains_key(client),
        broker.client_to_topics@.contains_key(client) && 0 <= i
            < broker.client_to_topics@[client]@.len() ==> broker@.topics[client].contains(
            broker.client_to_topics@[client]@[i]@,
        ),
        route@.authority == route.authority_shard,
        route@.clients == route.clients@,
{
    if broker.client_to_topics@.contains_key(client) {
        let listed = broker.client_to_topics@[client]@;
        let shown = crate::broker::topic_views(listed);
        if 0 <= i < listed.len() {
            assert(shown[i] == listed[i]@);
        }
    }
}

/// Whatever is shown as a topic of a client is listed for it.
pub proof fn law_shown_topics_are_listed(broker: BrokerState, client: u32, topic: Seq<u8>) -> (i: int)
    requires
        broker.client_to_topics@.contains_key(client),
        broker@.topics[client].contains(topic),
    ensures
        0 <= i < broker.client_to_topics@[client]@.len(),
        broker.client_to_topics@[client]@[i]@ == topic,
{
    let listed = broker.client_to_topics@[client]@;
    let shown = crate::broker::topic_views(listed);
    let i = choose|i: int| 0 <= i < shown.len() && shown[i] == topic;
    assert(shown[i] == listed[i]@);
    i
}

/// A table of routes shows exactly its entries.
pub proof fn law_routes_are_shown(table: RouteTable, topic: Seq<u8>, i: int)
    requires
        forall|j: int, k: int|
            0 <= j < k < table.entries@.len() ==> (#[trigger] table.entries@[j]).topic@ != (
            #[trigger] table.entries@[k]).topic@,
    ensures
        0 <= i < table.entries@.len() && table.entries@[i].topic@ == topic ==> table@.contains_key(
            topic,
        ) && table@[topic] == table.entries@[i].route@,
        table@.contains_key(topic) ==> exists|k: int|
            0 <= k < table.entries@.len() && (#[trigger] table.entries@[k]).topic@ == topic,
        table.wf(),
{
    if 0 <= i < table.entries@.len() && table.entries@[i].topic@ == topic {
        assert(table.at(topic, i));
        let k = choose|k: int| table.at(topic, k);
        if k < i {
            assert(table.entries@[k].topic@ != table.entries@[i].topic@);
        } else if i < k {
            assert(table.entries@[i].topic@ != table.entries@[k].topic@);
        }
    }
    if table@.contains_key(topic) {
        let k = choose|k: int| table.at(topic, k);
        assert(table.entries@[k].topic@ == topic);
    }
}

/// A registry of players shows exactly its entries.
pub proof fn law_registries_are_shown(registry: PlayerRegistry, addr: PeerAddr, i: int)
    requires
        forall|j: int, k: int|
            0 <= j < k < registry.players@.len() ==> (#[trigger] registry.players@[j]).addr != (
            #[trigger] registry.players@[k]).addr,
    ensures
        0 <= i < registry.players@.len() && registry.players@[i].addr == addr
            ==> registry@.contains_key(addr) && registry@[addr]
            == registry.players@[i].player_id@,
        registry@.contains_key(addr) ==> exists|k: int|
            0 <= k < registry.players@.len() && (#[trigger] registry.players@[k]).addr == addr,
        registry.wf(),
{
    if 0 <= i < registry.players@.len() && registry.players@[i].addr == addr {
        assert(registry.at(addr, i));
        let k = choose|k: int| registry.at(addr, k);
        if k < i {
            assert(registry.players@[k].addr != registry.players@[i].addr);
        } else if i < k {
            assert(registry.players@[i].addr != registry.players@[k].addr);
        }
    }
    if registry@.contains_key(addr) {
        let k = choose|k: int| registry.at(addr, k);
        assert(registry.players@[k].addr == addr);
    }
}

} // verus!
