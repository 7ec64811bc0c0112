//! What the services achieve together.

use crate::binary32::Binary32;
use crate::broker::{authority_of, listeners, tagged, BrokerView, MAX_BROADCAST};
use crate::broker_laws::{
    claims,
    law_claims_last,
    law_listeners_are_the_subscribers,
    law_published_data_reach_the_listeners,
    lemma_forwarded,
};
use crate::dedicated_server::{
    broadcast_players,
    game_data,
    name_topic,
    shard_registrations,
    PlayerState,
    ServerConfig,
    LISTENER_ID,
};
use crate::game_server::{law_broadcast_is_followed, sync_effects, Context, GameView};
use crate::net::{deliver, DatagramView, PeerAddr};
use crate::orchestrator::{command_of, Command};
use crate::spatial::{subscribes, unsubscribes, ActionView, PositionUpdate, ServiceView};
use crate::spatial_laws::lemma_push_contains;
use crate::spatial_server::{action_message, action_messages, event_of, EventView};
use crate::text::texts;
use crate::topics::{law_shard_topics_differ, shard_topic};
use crate::wire::{
    authority_message,
    broadcast_message,
    claim_message,
    client_message,
    law_numbers_are_read_back,
    law_u32_round_trip,
    le32,
    le32_all,
    orchestrator_topic,
    position_message,
    publish_message,
    ready_message,
    route_message,
    scale_payload,
    spatial_topic,
    subscription_message,
    u32_at,
    TAG_AUTHORITY_CHANGE,
    TAG_CLAIM_AUTHORITY,
    TAG_CLIENT_INPUT,
    TAG_DISCONNECT,
    TAG_POSITION,
    TAG_READY,
    TAG_SCALE_DOWN,
    TAG_SCALE_UP,
    TAG_SUBSCRIBE,
    TAG_UNSUBSCRIBE,
};
use vstd::prelude::*;

verus! {

/// What a position message means to the spatial server.
proof fn lemma_position_event(client_id: u32, x: u32, y: u32)
    ensures
        event_of(position_message(client_id, x, y)) == (EventView::Position {
            update: PositionUpdate {
                client_id,
                x: Binary32 { bits: x },
                y: Binary32 { bits: y },
            },
        }),
{
    let packet = position_message(client_id, x, y);
    let tag = seq![TAG_CLIENT_INPUT];
    let sub = seq![TAG_POSITION];
    law_u32_round_trip(client_id, tag, sub + le32(x) + le32(y));
    assert(packet =~= tag + le32(client_id) + (sub + le32(x) + le32(y)));
    law_u32_round_trip(x, tag + le32(client_id) + sub, le32(y));
    law_u32_round_trip(y, tag + le32(client_id) + sub + le32(x), Seq::empty());
    assert(packet =~= packet + Seq::empty());
}

/// A client's position reaches the spatial server, if the client listens to it, and means there
/// what the client meant.
pub proof fn law_positions_reach_the_spatial_server(
    broker: BrokerView,
    client_id: u32,
    x: u32,
    y: u32,
    src: PeerAddr,
    spatial: PeerAddr,
    out: Seq<DatagramView>,
)
    requires
        authority_of(broker.routes, spatial_topic()) == Some(spatial),
        broker.topics_of(client_id).contains(spatial_topic()),
        broker.answers(position_message(client_id, x, y), src, out),
    ensures
        out.contains((DatagramView { to: spatial, data: position_message(client_id, x, y) })),
        event_of(position_message(client_id, x, y)) == (EventView::Position {
            update: PositionUpdate {
                client_id,
                x: Binary32 { bits: x },
                y: Binary32 { bits: y },
            },
        }),
{
    let packet = position_message(client_id, x, y);
    let data = packet.skip(1);
    lemma_position_event(client_id, x, y);
    assert(tagged(TAG_CLIENT_INPUT, data) =~= packet);
    law_u32_round_trip(client_id, Seq::empty(), seq![TAG_POSITION] + le32(x) + le32(y));
    assert(data =~= Seq::empty() + le32(client_id) + (seq![TAG_POSITION] + le32(x) + le32(y)));
    lemma_forwarded(broker, client_id, packet, out);
}

/// When a client leaves, the spatial server learns of it, if the client listened to it.
pub proof fn law_departures_reach_the_spatial_server(
    broker: BrokerView,
    client_id: u32,
    src: PeerAddr,
    spatial: PeerAddr,
    out: Seq<DatagramView>,
)
    requires
        authority_of(broker.routes, spatial_topic()) == Some(spatial),
        broker.topics_of(client_id).contains(spatial_topic()),
        broker.answers(client_message(TAG_DISCONNECT, client_id), src, out),
    ensures
        out.contains(
            (DatagramView { to: spatial, data: client_message(TAG_DISCONNECT, client_id) }),
        ),
        event_of(client_message(TAG_DISCONNECT, client_id)) == (EventView::Disconnect {
            client_id,
        }),
{
    let packet = client_message(TAG_DISCONNECT, client_id);
    let data = packet.skip(1);
    law_u32_round_trip(client_id, Seq::empty(), Seq::empty());
    assert(data =~= Seq::empty() + le32(client_id) + Seq::empty());
    law_u32_round_trip(client_id, seq![TAG_DISCONNECT], Seq::empty());
    assert(packet =~= packet + Seq::empty());
    lemma_forwarded(broker, client_id, packet, out);
}

/// When a shard is ready, the spatial server learns which.
pub proof fn law_ready_signals_reach_the_spatial_server(
    broker: BrokerView,
    shard_id: u32,
    src: PeerAddr,
    spatial: PeerAddr,
    out: Seq<DatagramView>,
)
    requires
        authority_of(broker.routes, spatial_topic()) == Some(spatial),
        broker.answers(ready_message(shard_id), src, out),
    ensures
        out.len() == 1,
        out[0].to == spatial,
        event_of(out[0].data) == (EventView::Ready { shard_id }),
{
    let data = ready_message(shard_id).skip(1);
    assert(data =~= le32(shard_id));
    let message = client_message(TAG_CLIENT_INPUT, 0) + tagged(TAG_READY, data);
    law_u32_round_trip(shard_id, client_message(TAG_CLIENT_INPUT, 0).push(TAG_READY), Seq::empty());
    assert(message =~= client_message(TAG_CLIENT_INPUT, 0).push(TAG_READY) + le32(shard_id)
        + Seq::empty());
}

/// The payload of a request that is routed to the orchestrator.
proof fn lemma_routed_request(
    broker: BrokerView,
    payload: Seq<u8>,
    src: PeerAddr,
    orchestrator: PeerAddr,
    out: Seq<DatagramView>,
)
    requires
        authority_of(broker.routes, orchestrator_topic()) == Some(orchestrator),
        broker.answers(route_message(orchestrator_topic(), payload), src, out),
    ensures
        out == seq![DatagramView { to: orchestrator, data: payload }],
{
    let data = route_message(orchestrator_topic(), payload).skip(1);
    assert(data.subrange(0, 32) =~= orchestrator_topic());
    assert(data.skip(32) =~= payload);
}

/// The numbers of a request for four shards.
proof fn lemma_scale_payload(tag: u8, parent: u32, shards: Seq<u32>)
    requires
        shards.len() == 4,
    ensures
        ({
            let payload = scale_payload(tag, parent, shards);
            &&& payload.len() == 21
            &&& payload[0] == tag
            &&& u32_at(payload, 1) == parent
            &&& u32_at(payload, 5) == shards[0]
            &&& u32_at(payload, 9) == shards[1]
            &&& u32_at(payload, 13) == shards[2]
            &&& u32_at(payload, 17) == shards[3]
        }),
{
    let head = seq![tag] + le32(parent);
    law_u32_round_trip(parent, seq![tag], le32_all(shards));
    law_numbers_are_read_back(head, shards, 0);
    law_numbers_are_read_back(head, shards, 1);
    law_numbers_are_read_back(head, shards, 2);
    law_numbers_are_read_back(head, shards, 3);
}

/// Once the orchestrator has taken charge of its topic, and until someone else does, a request for
/// new shards reaches it, and means there what the spatial server meant.
pub proof fn law_division_requests_reach_the_orchestrator(
    broker: BrokerView,
    orchestrator: PeerAddr,
    packets: Seq<(Seq<u8>, PeerAddr)>,
    parent_shard: u32,
    new_shards: Seq<u32>,
    src: PeerAddr,
    out: Seq<DatagramView>,
)
    requires
        new_shards.len() == 4,
        forall|i: int|
            0 <= i < packets.len() ==> claims((#[trigger] packets[i]).0, orchestrator_topic())
                ==> packets[i].1 == orchestrator,
        broker.after(claim_message(orchestrator_topic()), orchestrator).after_each(packets).answers(
            action_message((ActionView::ScaleUp { parent_shard, new_shards })),
            src,
            out,
        ),
    ensures
        out.len() == 1,
        out[0].to == orchestrator,
        command_of(out[0].data) == (Command::ScaleUp {
            s1: new_shards[0],
            s2: new_shards[1],
            s3: new_shards[2],
            s4: new_shards[3],
        }),
{
    let payload = scale_payload(TAG_SCALE_UP, parent_shard, new_shards);
    let topic = orchestrator_topic();
    law_claims_last(broker, topic, orchestrator, packets);
    let running = broker.after(claim_message(topic), orchestrator).after_each(packets);
    lemma_routed_request(running, payload, src, orchestrator, out);
    lemma_scale_payload(TAG_SCALE_UP, parent_shard, new_shards);
}

/// Once the orchestrator has taken charge of its topic, and until someone else does, a request to
/// merge reaches it, and means there what the spatial server meant.
pub proof fn law_merge_requests_reach_the_orchestrator(
    broker: BrokerView,
    orchestrator: PeerAddr,
    packets: Seq<(Seq<u8>, PeerAddr)>,
    parent_shard: u32,
    old_shards: Seq<u32>,
    src: PeerAddr,
    out: Seq<DatagramView>,
)
    requires
        old_shards.len() == 4,
        forall|i: int|
            0 <= i < packets.len() ==> claims((#[trigger] packets[i]).0, orchestrator_topic())
                ==> packets[i].1 == orchestrator,
        broker.after(claim_message(orchestrator_topic()), orchestrator).after_each(packets).answers(
            action_message((ActionView::ScaleDown { parent_shard, old_shards })),
            src,
            out,
        ),
    ensures
        out.len() == 1,
        out[0].to == orchestrator,
        command_of(out[0].data) == (Command::ScaleDown {
            parent: parent_shard,
            s1: old_shards[0],
            s2: old_shards[1],
            s3: old_shards[2],
            s4: old_shards[3],
        }),
{
    let payload = scale_payload(TAG_SCALE_DOWN, parent_shard, old_shards);
    let topic = orchestrator_topic();
    law_claims_last(broker, topic, orchestrator, packets);
    let running = broker.after(claim_message(topic), orchestrator).after_each(packets);
    lemma_routed_request(running, payload, src, orchestrator, out);
    lemma_scale_payload(TAG_SCALE_DOWN, parent_shard, old_shards);
}

/// A change of authority reaches the client, the shard that it leaves and the shard that it
/// enters, as far as the broker knows where they are.
pub proof fn law_authority_changes_reach_everyone(
    broker: BrokerView,
    client_id: u32,
    old_shard: u32,
    new_shard: u32,
    src: PeerAddr,
    out: Seq<DatagramView>,
)
    requires
        broker.answers(authority_message(client_id, old_shard, new_shard), src, out),
    ensures
        ({
            let message = authority_message(client_id, old_shard, new_shard);
            out == deliver(broker.address_of(client_id), message) + deliver(
                authority_of(broker.routes, shard_topic(old_shard)),
                message,
            ) + deliver(authority_of(broker.routes, shard_topic(new_shard)), message)
        }),
{
    let packet = authority_message(client_id, old_shard, new_shard);
    let data = packet.skip(1);
    assert(tagged(TAG_AUTHORITY_CHANGE, data) =~= packet);
    law_u32_round_trip(client_id, Seq::empty(), le32(old_shard) + le32(new_shard));
    assert(data =~= Seq::empty() + le32(client_id) + (le32(old_shard) + le32(new_shard)));
    law_u32_round_trip(old_shard, le32(client_id), le32(new_shard));
    law_u32_round_trip(new_shard, le32(client_id) + le32(old_shard), Seq::empty());
    assert(data =~= data + Seq::empty());
}

impl BrokerView {
    /// The broker after several packets from one peer, in order.
    pub open spec fn after_all(self, packets: Seq<Seq<u8>>, src: PeerAddr) -> BrokerView
        decreases packets.len(),
    {
        if packets.len() == 0 {
            self
        } else {
            self.after_all(packets.drop_last(), src).after(packets.last(), src)
        }
    }

    /// Whether a client has subscribed to exactly these shards (and perhaps to topics that are
    /// no shards).
    pub open spec fn follows(self, client_id: u32, shards: Seq<u32>) -> bool {
        forall|shard: u32| #[trigger]
            self.topics_of(client_id).contains(shard_topic(shard)) <==> shards.contains(shard)
    }
}

proof fn lemma_after_all_concat(
    broker: BrokerView,
    first: Seq<Seq<u8>>,
    second: Seq<Seq<u8>>,
    src: PeerAddr,
)
    ensures
        broker.after_all(first + second, src) == broker.after_all(first, src).after_all(second, src),
    decreases second.len(),
{
    if second.len() == 0 {
        assert(first + second =~= first);
    } else {
        assert((first + second).drop_last() =~= first + second.drop_last());
        lemma_after_all_concat(broker, first, second.drop_last(), src);
    }
}

/// Whether an action leaves subscriptions as they are.
spec fn is_neutral(action: ActionView) -> bool {
    !(action is Subscribe) && !(action is Unsubscribe)
}

proof fn lemma_neutral_messages(
    broker: BrokerView,
    actions: Seq<ActionView>,
    src: PeerAddr,
)
    requires
        forall|i: int| 0 <= i < actions.len() ==> is_neutral(#[trigger] actions[i]),
    ensures
        broker.after_all(action_messages(actions), src) == broker,
    decreases actions.len(),
{
    let messages = action_messages(actions);
    if actions.len() > 0 {
        let fewer = actions.drop_last();
        assert forall|i: int| 0 <= i < fewer.len() implies is_neutral(#[trigger] fewer[i]) by {
            assert(fewer[i] == actions[i]);
        }
        lemma_neutral_messages(broker, fewer, src);
        assert(messages.drop_last() =~= action_messages(fewer));
        let last = actions.last();
        assert(is_neutral(actions[actions.len() - 1]));
        assert(messages.last() == action_message(last));
        assert(broker.after(action_message(last), src) == broker);
    }
}

proof fn lemma_subscription_packet(tag: u8, client_id: u32, shard: u32)
    ensures
        ({
            let packet = subscription_message(tag, client_id, shard_topic(shard));
            let data = packet.skip(1);
            &&& packet.len() == 37
            &&& packet[0] == tag
            &&& u32_at(data, 0) == client_id
            &&& data.subrange(4, 36) == shard_topic(shard)
        }),
{
    let topic = shard_topic(shard);
    let data = subscription_message(tag, client_id, topic).skip(1);
    assert(data =~= Seq::empty() + le32(client_id) + topic);
    law_u32_round_trip(client_id, Seq::empty(), topic);
    assert(data.subrange(4, 36) =~= topic);
}

proof fn lemma_broker_subscribes(
    broker: BrokerView,
    client_id: u32,
    near: Seq<u32>,
    current: Seq<u32>,
    src: PeerAddr,
)
    requires
        broker.follows(client_id, current),
    ensures
        ({
            let after = broker.after_all(
                action_messages(subscribes(client_id, near, current)),
                src,
            );
            forall|shard: u32| #[trigger]
                after.topics_of(client_id).contains(shard_topic(shard)) <==> current.contains(shard)
                    || near.contains(shard)
        }),
    decreases near.len(),
{
    let actions = subscribes(client_id, near, current);
    let after = broker.after_all(action_messages(actions), src);
    if near.len() == 0 {
        assert(action_messages(actions) =~= Seq::empty());
    } else {
        let fewer = near.drop_last();
        let last = near.last();
        lemma_broker_subscribes(broker, client_id, fewer, current, src);
        let earlier = subscribes(client_id, fewer, current);
        let mid = broker.after_all(action_messages(earlier), src);
        assert(near =~= fewer.push(last));
        if !current.contains(last) {
            assert(actions.drop_last() =~= earlier);
            assert(action_messages(actions).drop_last() =~= action_messages(earlier));
            lemma_subscription_packet(TAG_SUBSCRIBE, client_id, last);
            assert(after == mid.with_subscription(client_id, shard_topic(last)));
        }
        assert forall|shard: u32| #[trigger]
            after.topics_of(client_id).contains(shard_topic(shard)) <==> current.contains(shard)
                || near.contains(shard) by {
            lemma_push_contains(fewer, last, shard);
            assert(mid.topics_of(client_id).contains(shard_topic(shard)) <==> current.contains(
                shard,
            ) || fewer.contains(shard));
            if shard != last {
                law_shard_topics_differ(shard, last);
            }
        }
    }
}

proof fn lemma_broker_unsubscribes(
    broker: BrokerView,
    client_id: u32,
    near: Seq<u32>,
    current: Seq<u32>,
    src: PeerAddr,
    had: spec_fn(u32) -> bool,
)
    requires
        forall|shard: u32| #[trigger]
            broker.topics_of(client_id).contains(shard_topic(shard)) <==> had(shard),
    ensures
        ({
            let after = broker.after_all(
                action_messages(unsubscribes(client_id, near, current)),
                src,
            );
            forall|shard: u32| #[trigger]
                after.topics_of(client_id).contains(shard_topic(shard)) <==> had(shard) && !(
                current.contains(shard) && !near.contains(shard))
        }),
    decreases current.len(),
{
    let actions = unsubscribes(client_id, near, current);
    let after = broker.after_all(action_messages(actions), src);
    if current.len() == 0 {
        assert(action_messages(actions) =~= Seq::empty());
    } else {
        let fewer = current.drop_last();
        let last = current.last();
        lemma_broker_unsubscribes(broker, client_id, near, fewer, src, had);
        let earlier = unsubscribes(client_id, near, fewer);
        let mid = broker.after_all(action_messages(earlier), src);
        assert(current =~= fewer.push(last));
        if !near.contains(last) {
            assert(actions.drop_last() =~= earlier);
            assert(action_messages(actions).drop_last() =~= action_messages(earlier));
            lemma_subscription_packet(TAG_UNSUBSCRIBE, client_id, last);
            assert(after == mid.without_subscription(client_id, shard_topic(last)));
        }
        assert forall|shard: u32| #[trigger]
            after.topics_of(client_id).contains(shard_topic(shard)) <==> had(shard) && !(
            current.contains(shard) && !near.contains(shard)) by {
            lemma_push_contains(fewer, last, shard);
            assert(mid.topics_of(client_id).contains(shard_topic(shard)) <==> had(shard) && !(
            fewer.contains(shard) && !near.contains(shard)));
            if shard != last {
                law_shard_topics_differ(shard, last);
            }
        }
    }
}

/// Once the broker has done what the spatial server asks after it saw a client, the client is
/// subscribed to exactly the shards that it is near.
pub proof fn law_broker_follows_the_spatial_server(
    broker: BrokerView,
    service: ServiceView,
    update: PositionUpdate,
    pending: Map<u32, u32>,
    src: PeerAddr,
)
    requires
        broker.follows(update.client_id, service.subscriptions(update.client_id)),
    ensures
        broker.after_all(action_messages(service.update_actions(update, pending)), src).follows(
            update.client_id,
            service.after_update(update, pending).subscriptions(update.client_id),
        ),
{
    let client_id = update.client_id;
    let near = service.near(update.position(), pending);
    let current = service.subscriptions(client_id);
    let told = service.authority_actions(update, pending);
    let begun = subscribes(client_id, near, current);
    let ended = unsubscribes(client_id, near, current);
    let alerts = service.crossing_actions(update, pending);
    let requests = service.split_actions(update, pending);
    let all = service.update_actions(update, pending);
    assert(action_messages(all) =~= action_messages(told) + action_messages(begun)
        + action_messages(ended) + action_messages(alerts) + action_messages(requests));
    let m1 = action_messages(told);
    let m2 = action_messages(begun);
    let m3 = action_messages(ended);
    let m4 = action_messages(alerts);
    let m5 = action_messages(requests);
    lemma_after_all_concat(broker, m1, m2, src);
    lemma_after_all_concat(broker, m1 + m2, m3, src);
    lemma_after_all_concat(broker, m1 + m2 + m3, m4, src);
    lemma_after_all_concat(broker, m1 + m2 + m3 + m4, m5, src);
    lemma_neutral_messages(broker, told, src);
    lemma_broker_subscribes(broker, client_id, near, current, src);
    let b2 = broker.after_all(m2, src);
    let had = |shard: u32| current.contains(shard) || near.contains(shard);
    assert forall|shard: u32| #[trigger]
        b2.topics_of(client_id).contains(shard_topic(shard)) <==> had(shard) by {}
    lemma_broker_unsubscribes(b2, client_id, near, current, src, had);
    let b3 = b2.after_all(m3, src);
    lemma_neutral_messages(b3, alerts, src);
    lemma_neutral_messages(b3, requests, src);
    assert(service.after_update(update, pending).subscriptions(client_id) == near);
    assert forall|shard: u32| #[trigger]
        b3.topics_of(client_id).contains(shard_topic(shard)) <==> near.contains(shard) by {
        assert(b3.topics_of(client_id).contains(shard_topic(shard)) <==> had(shard) && !(
        current.contains(shard) && !near.contains(shard)));
    }
}

/// Whatever packets arrive from a peer, listeners stay the subscribers.
proof fn lemma_after_all_consistent(broker: BrokerView, packets: Seq<Seq<u8>>, src: PeerAddr)
    requires
        broker.consistent(),
    ensures
        broker.after_all(packets, src).consistent(),
    decreases packets.len(),
{
    if packets.len() > 0 {
        lemma_after_all_consistent(broker, packets.drop_last(), src);
        law_listeners_are_the_subscribers(
            broker.after_all(packets.drop_last(), src),
            packets.last(),
            src,
        );
    }
}

/// Whether a packet registers a server: it claims a topic, or says that a shard is ready.
spec fn is_registration(packet: Seq<u8>) -> bool {
    packet.len() > 0 && (packet[0] == TAG_CLAIM_AUTHORITY || packet[0] == TAG_READY)
}

proof fn lemma_registrations(names: Seq<Seq<char>>, warming_up: bool)
    ensures
        forall|i: int|
            0 <= i < shard_registrations(names, warming_up).len() ==> is_registration(
                #[trigger] shard_registrations(names, warming_up)[i],
            ),
    decreases names.len(),
{
    if names.len() > 0 {
        let all = shard_registrations(names, warming_up);
        let earlier = shard_registrations(names.drop_last(), warming_up);
        lemma_registrations(names.drop_last(), warming_up);
        assert forall|i: int| 0 <= i < all.len() implies is_registration(#[trigger] all[i]) by {
            if i < earlier.len() {
                assert(all[i] == earlier[i]);
            } else if i == earlier.len() {
                assert(all[i] == claim_message(name_topic(names.last())));
            }
        }
    }
}

proof fn lemma_registrations_keep_clients(
    broker: BrokerView,
    packets: Seq<Seq<u8>>,
    src: PeerAddr,
)
    requires
        forall|i: int| 0 <= i < packets.len() ==> is_registration(#[trigger] packets[i]),
    ensures
        broker.after_all(packets, src).addresses == broker.addresses,
        broker.after_all(packets, src).topics == broker.topics,
    decreases packets.len(),
{
    if packets.len() > 0 {
        let fewer = packets.drop_last();
        assert forall|i: int| 0 <= i < fewer.len() implies is_registration(#[trigger] fewer[i]) by {
            assert(fewer[i] == packets[i]);
        }
        lemma_registrations_keep_clients(broker, fewer, src);
        assert(is_registration(packets[packets.len() - 1]));
    }
}

/// Whether a packet is about where a client is, or ends one of its subscriptions.
pub open spec fn concerns(packet: Seq<u8>, client_id: u32) -> bool {
    &&& packet.len() >= 5
    &&& packet[0] == TAG_CLIENT_INPUT || packet[0] == TAG_UNSUBSCRIBE || packet[0] == TAG_DISCONNECT
    &&& u32_at(packet, 1) == client_id
}

/// A client keeps its address and its topics until a packet is about them.
proof fn lemma_others_keep_a_client(
    broker: BrokerView,
    packets: Seq<(Seq<u8>, PeerAddr)>,
    client_id: u32,
    topic: Seq<u8>,
)
    requires
        broker.consistent(),
        broker.topics_of(client_id).contains(topic),
        forall|i: int| 0 <= i < packets.len() ==> !concerns((#[trigger] packets[i]).0, client_id),
    ensures
        broker.after_each(packets).consistent(),
        broker.after_each(packets).topics_of(client_id).contains(topic),
        broker.after_each(packets).address_of(client_id) == broker.address_of(client_id),
    decreases packets.len(),
{
    if packets.len() > 0 {
        let fewer = packets.drop_last();
        let (packet, src) = packets.last();
        assert forall|i: int| 0 <= i < fewer.len() implies !concerns(
            (#[trigger] fewer[i]).0,
            client_id,
        ) by {
            assert(fewer[i] == packets[i]);
        }
        lemma_others_keep_a_client(broker, fewer, client_id, topic);
        assert(!concerns(packets[packets.len() - 1].0, client_id));
        law_listeners_are_the_subscribers(broker.after_each(fewer), packet, src);
        if packet.len() >= 5 {
            assert(u32_at(packet.skip(1), 0) == u32_at(packet, 1));
        }
    }
}

/// Once a server has entered the network, what is published to its parent shard reaches it, and
/// means there what it meant where it was published: the players who are known are put where they
/// are, the others enter as shadows. That lasts until another server listens in its place.
pub proof fn law_warming_servers_follow_their_parent(
    broker: BrokerView,
    config: ServerConfig,
    own: PeerAddr,
    packets: Seq<(Seq<u8>, PeerAddr)>,
    parent: PeerAddr,
    players: Seq<PlayerState>,
    out: Seq<DatagramView>,
    game: GameView,
    context: Context,
)
    requires
        broker.consistent(),
        config.parent_shard is Some,
        forall|i: int| 0 <= i < packets.len() ==> !concerns((#[trigger] packets[i]).0, LISTENER_ID),
        3 + game_data(players).len() <= MAX_BROADCAST,
        ({
            let topic = name_topic((config.parent_shard->0)@);
            let running = broker.after_all(config.boot_sequence(), own).after_each(packets);
            &&& authority_of(running.routes, topic) == Some(parent)
            &&& running.answers(publish_message(topic, game_data(players)), parent, out)
        }),
    ensures
        out.contains((DatagramView { to: own, data: broadcast_message(game_data(players)) })),
        game.effects(broadcast_message(game_data(players)), context) == sync_effects(
            game.players,
            broadcast_players(players),
        ),
{
    let topic = name_topic((config.parent_shard->0)@);
    let boot = config.boot_sequence();
    let begun = config.listening_sequence();
    let rest = boot.skip(2);
    assert(boot =~= begun + rest);
    let names = texts(config.shards@);
    assert forall|i: int| 0 <= i < rest.len() implies is_registration(#[trigger] rest[i]) by {
        lemma_registrations(names, true);
        let registrations = shard_registrations(names, true);
        if i < registrations.len() {
            assert(rest[i] == registrations[i]);
        } else {
            assert(rest[i] == claim_message(name_topic(config.id@)));
        }
    }
    lemma_after_all_concat(broker, begun, rest, own);
    lemma_after_all_consistent(broker, boot, own);
    let listening = broker.after_all(begun, own);
    lemma_registrations_keep_clients(listening, rest, own);
    let subscription = subscription_message(TAG_SUBSCRIBE, LISTENER_ID, topic);
    let input = client_message(TAG_CLIENT_INPUT, LISTENER_ID);
    assert(begun.drop_last() =~= seq![subscription]);
    assert(begun.drop_last().drop_last() =~= Seq::empty());
    reveal_with_fuel(BrokerView::after_all, 3);
    let subscribed = broker.after(subscription, own);
    assert(listening == subscribed.after(input, own));
    let data = subscription.skip(1);
    assert(data =~= Seq::empty() + le32(LISTENER_ID) + topic);
    law_u32_round_trip(LISTENER_ID, Seq::empty(), topic);
    assert(data.subrange(4, 36) =~= topic);
    assert(subscribed.topics_of(LISTENER_ID).contains(topic));
    assert(input.skip(1) =~= Seq::empty() + le32(LISTENER_ID) + Seq::empty());
    law_u32_round_trip(LISTENER_ID, Seq::empty(), Seq::empty());
    let entered = broker.after_all(boot, own);
    assert(entered.topics_of(LISTENER_ID).contains(topic));
    assert(entered.address_of(LISTENER_ID) == Some(own));
    lemma_others_keep_a_client(entered, packets, LISTENER_ID, topic);
    let running = entered.after_each(packets);
    assert(listeners(running.routes, topic).contains(LISTENER_ID));
    law_published_data_reach_the_listeners(running, topic, game_data(players), parent, out);
    law_broadcast_is_followed(game, players, context);
}

} // verus!
