//! What holds of the broker as a whole.

use crate::broker::{authority_of, listeners, tagged, BrokerView, MAX_BROADCAST, MAX_INPUT};
use crate::net::{deliver, enumerates, DatagramView, PeerAddr};
use crate::wire::{
    broadcast_message,
    claim_message,
    client_message,
    input_message,
    law_u16_round_trip,
    law_u32_round_trip,
    le16,
    le32,
    publish_message,
    route_message,
    subscription_message,
    u16_at,
    u32_at,
    TAG_CLAIM_AUTHORITY,
    TAG_CLIENT_INPUT,
    TAG_DISCONNECT,
    TAG_PUBLISH,
    TAG_SUBSCRIBE,
    TAG_UNSUBSCRIBE,
};
use vstd::prelude::*;

verus! {

impl BrokerView {
    /// Where someone is in charge of a topic, exactly the clients that have subscribed to it
    /// listen to it.
    pub open spec fn consistent(self) -> bool {
        forall|topic: Seq<u8>, client_id: u32|
            #![trigger listeners(self.routes, topic).contains(client_id)]
            #![trigger self.topics_of(client_id).contains(topic)]
            listeners(self.routes, topic).contains(client_id) <==> authority_of(
                self.routes,
                topic,
            ) is Some && self.topics_of(client_id).contains(topic)
    }
}

/// Whatever packet arrives, the listeners of a topic that someone is in charge of are exactly the
/// clients that have subscribed to it.
pub proof fn law_listeners_are_the_subscribers(
    broker: BrokerView,
    packet: Seq<u8>,
    src: PeerAddr,
)
    requires
        broker.consistent(),
    ensures
        broker.after(packet, src).consistent(),
{
    let after = broker.after(packet, src);
    assert forall|topic: Seq<u8>, client_id: u32|
        #![trigger listeners(after.routes, topic).contains(client_id)]
        #![trigger after.topics_of(client_id).contains(topic)]
        listeners(after.routes, topic).contains(client_id) <==> authority_of(
            after.routes,
            topic,
        ) is Some && after.topics_of(client_id).contains(topic) by {
        assert(listeners(broker.routes, topic).contains(client_id) <==> authority_of(
            broker.routes,
            topic,
        ) is Some && broker.topics_of(client_id).contains(topic));
    }
}

/// A broker that knows nobody has nobody listening.
pub proof fn law_empty_broker_is_consistent()
    ensures
        (BrokerView {
            addresses: Map::empty(),
            topics: Map::empty(),
            routes: Map::empty(),
        }).consistent(),
{
}

/// After a client left, nothing of it remains: no address, no topic, and no topic to which it
/// listens.
pub proof fn law_a_client_that_left_is_forgotten(broker: BrokerView, client_id: u32, src: PeerAddr)
    requires
        broker.consistent(),
    ensures
        ({
            let after = broker.after(client_message(TAG_DISCONNECT, client_id), src);
            &&& !after.addresses.contains_key(client_id)
            &&& !after.topics.contains_key(client_id)
            &&& forall|topic: Seq<u8>| !(#[trigger] listeners(after.routes, topic)).contains(
                client_id,
            )
        }),
{
    let packet = client_message(TAG_DISCONNECT, client_id);
    let data = packet.skip(1);
    assert(data =~= Seq::empty() + le32(client_id) + Seq::empty());
    law_u32_round_trip(client_id, Seq::empty(), Seq::empty());
    let after = broker.after(packet, src);
    assert(after == broker.without_client(client_id));
    assert forall|topic: Seq<u8>| !(#[trigger] listeners(after.routes, topic)).contains(client_id) by {
        assert(listeners(broker.routes, topic).contains(client_id) ==> broker.topics_of(
            client_id,
        ).contains(topic));
    }
}

/// A subscription message says who subscribes to what.
proof fn lemma_subscription(tag: u8, client_id: u32, topic: Seq<u8>)
    requires
        topic.len() == 32,
    ensures
        ({
            let packet = subscription_message(tag, client_id, topic);
            let data = packet.skip(1);
            &&& packet.len() == 37
            &&& packet[0] == tag
            &&& u32_at(data, 0) == client_id
            &&& data.subrange(4, 36) == topic
        }),
{
    let data = subscription_message(tag, client_id, topic).skip(1);
    assert(data =~= Seq::empty() + le32(client_id) + topic);
    law_u32_round_trip(client_id, Seq::empty(), topic);
    assert(data.subrange(4, 36) =~= topic);
}

/// A client that subscribes to a topic listens to it at once where someone is in charge of it.
pub proof fn law_subscribers_listen(
    broker: BrokerView,
    client_id: u32,
    topic: Seq<u8>,
    src: PeerAddr,
)
    requires
        topic.len() == 32,
    ensures
        ({
            let after = broker.after(subscription_message(TAG_SUBSCRIBE, client_id, topic), src);
            &&& after.topics_of(client_id).contains(topic)
            &&& listeners(after.routes, topic).contains(client_id) <==> authority_of(
                broker.routes,
                topic,
            ) is Some || listeners(broker.routes, topic).contains(client_id)
        }),
{
    lemma_subscription(TAG_SUBSCRIBE, client_id, topic);
}

/// A client that subscribed to a topic before anyone was in charge of it listens to it as soon as
/// someone is.
pub proof fn law_early_subscribers_listen(
    broker: BrokerView,
    client_id: u32,
    topic: Seq<u8>,
    src: PeerAddr,
    owner: PeerAddr,
)
    requires
        topic.len() == 32,
    ensures
        ({
            let after = broker.after(
                subscription_message(TAG_SUBSCRIBE, client_id, topic),
                src,
            ).after(claim_message(topic), owner);
            &&& authority_of(after.routes, topic) == Some(owner)
            &&& listeners(after.routes, topic).contains(client_id)
        }),
{
    lemma_subscription(TAG_SUBSCRIBE, client_id, topic);
    assert(claim_message(topic).skip(1).subrange(0, 32) =~= topic);
}

/// Subscribing and unsubscribing leaves the client without the topic, and everything else as
/// it was.
pub proof fn law_unsubscribe_undoes_subscribe(
    broker: BrokerView,
    client_id: u32,
    topic: Seq<u8>,
    src: PeerAddr,
)
    requires
        topic.len() == 32,
    ensures
        ({
            let after = broker.after(
                subscription_message(TAG_SUBSCRIBE, client_id, topic),
                src,
            ).after(subscription_message(TAG_UNSUBSCRIBE, client_id, topic), src);
            &&& after.addresses == broker.addresses
            &&& after.topics_of(client_id) == broker.topics_of(client_id).remove(topic)
            &&& listeners(after.routes, topic) == listeners(broker.routes, topic).remove(client_id)
            &&& forall|other: u32|
                other != client_id ==> #[trigger] after.topics_of(other) == broker.topics_of(other)
            &&& forall|other: Seq<u8>|
                other != topic ==> #[trigger] listeners(after.routes, other) == listeners(
                    broker.routes,
                    other,
                )
            &&& forall|any: Seq<u8>| #[trigger]
                authority_of(after.routes, any) == authority_of(broker.routes, any)
        }),
{
    lemma_subscription(TAG_SUBSCRIBE, client_id, topic);
    lemma_subscription(TAG_UNSUBSCRIBE, client_id, topic);
    let after = broker.with_subscription(client_id, topic).without_subscription(client_id, topic);
    assert(after.topics_of(client_id) =~= broker.topics_of(client_id).remove(topic));
    assert(listeners(after.routes, topic) =~= listeners(broker.routes, topic).remove(client_id));
}

/// Whoever claims a topic gets what is routed to it afterwards.
pub proof fn law_claimed_topics_are_routed(
    broker: BrokerView,
    topic: Seq<u8>,
    owner: PeerAddr,
    payload: Seq<u8>,
    src: PeerAddr,
    out: Seq<DatagramView>,
)
    requires
        topic.len() == 32,
        broker.after(claim_message(topic), owner).answers(route_message(topic, payload), src, out),
    ensures
        out == seq![DatagramView { to: owner, data: payload }],
{
    assert(claim_message(topic).skip(1).subrange(0, 32) =~= topic);
    let data = route_message(topic, payload).skip(1);
    assert(data.subrange(0, 32) =~= topic);
    assert(data.skip(32) =~= payload);
}

/// Whether a packet claims a topic.
pub open spec fn claims(packet: Seq<u8>, topic: Seq<u8>) -> bool {
    packet.len() >= 33 && packet[0] == TAG_CLAIM_AUTHORITY && packet.subrange(1, 33) == topic
}

impl BrokerView {
    /// The broker after packets from several peers, in order.
    pub open spec fn after_each(self, packets: Seq<(Seq<u8>, PeerAddr)>) -> BrokerView
        decreases packets.len(),
    {
        if packets.len() == 0 {
            self
        } else {
            self.after_each(packets.drop_last()).after(packets.last().0, packets.last().1)
        }
    }
}

/// Whoever claims a topic stays in charge of it until someone else claims it.
pub proof fn law_claims_last(
    broker: BrokerView,
    topic: Seq<u8>,
    owner: PeerAddr,
    packets: Seq<(Seq<u8>, PeerAddr)>,
)
    requires
        topic.len() == 32,
        forall|i: int|
            0 <= i < packets.len() ==> claims((#[trigger] packets[i]).0, topic) ==> packets[i].1
                == owner,
    ensures
        authority_of(
            broker.after(claim_message(topic), owner).after_each(packets).routes,
            topic,
        ) == Some(owner),
    decreases packets.len(),
{
    let claimed = broker.after(claim_message(topic), owner);
    if packets.len() == 0 {
        assert(claim_message(topic).skip(1).subrange(0, 32) =~= topic);
    } else {
        let fewer = packets.drop_last();
        let (packet, src) = packets.last();
        assert forall|i: int| 0 <= i < fewer.len() implies claims(
            (#[trigger] fewer[i]).0,
            topic,
        ) ==> fewer[i].1 == owner by {
            assert(fewer[i] == packets[i]);
        }
        law_claims_last(broker, topic, owner, fewer);
        assert(packets[packets.len() - 1] == packets.last());
        if packet.len() >= 33 {
            assert(packet.skip(1).subrange(0, 32) =~= packet.subrange(1, 33));
        }
    }
}

/// A publication says what is published where.
proof fn lemma_publication(topic: Seq<u8>, game_data: Seq<u8>)
    requires
        topic.len() == 32,
        game_data.len() <= u16::MAX,
    ensures
        ({
            let packet = publish_message(topic, game_data);
            let data = packet.skip(1);
            &&& packet[0] == TAG_PUBLISH
            &&& data.len() == 34 + game_data.len()
            &&& data.subrange(0, 32) == topic
            &&& u16_at(data, 32) == game_data.len()
            &&& data.subrange(34, 34 + u16_at(data, 32)) == game_data
        }),
{
    let data = publish_message(topic, game_data).skip(1);
    assert(data =~= topic + le16(game_data.len() as u16) + game_data);
    law_u16_round_trip(game_data.len() as u16, topic, game_data);
    assert(data.subrange(0, 32) =~= topic);
    assert(data.subrange(34, data.len() as int) =~= game_data);
}

/// Nobody but the server in charge of a topic can publish to it.
pub proof fn law_only_the_authority_publishes(
    broker: BrokerView,
    topic: Seq<u8>,
    game_data: Seq<u8>,
    src: PeerAddr,
    out: Seq<DatagramView>,
)
    requires
        topic.len() == 32,
        game_data.len() <= u16::MAX,
        authority_of(broker.routes, topic) != Some(src),
        broker.answers(publish_message(topic, game_data), src, out),
    ensures
        out.len() == 0,
        broker.after(publish_message(topic, game_data), src) == broker,
{
    lemma_publication(topic, game_data);
}

/// Whom the broadcasts to some clients reach.
pub(crate) proof fn lemma_broadcasts(broker: BrokerView, clients: Seq<u32>, game_data: Seq<u8>)
    ensures
        forall|d: DatagramView| #[trigger]
            broker.broadcasts(clients, game_data).contains(d) <==> d.data == broadcast_message(
                game_data,
            ) && exists|client_id: u32| #[trigger]
                clients.contains(client_id) && broker.address_of(client_id) == Some(d.to),
    decreases clients.len(),
{
    let all = broker.broadcasts(clients, game_data);
    if clients.len() > 0 {
        let fewer = clients.drop_last();
        let last = clients.last();
        let rest = broker.broadcasts(fewer, game_data);
        let tail = deliver(broker.address_of(last), broadcast_message(game_data));
        lemma_broadcasts(broker, fewer, game_data);
        assert forall|d: DatagramView| #[trigger] all.contains(d) <==> d.data == broadcast_message(
            game_data,
        ) && exists|client_id: u32| #[trigger]
            clients.contains(client_id) && broker.address_of(client_id) == Some(d.to) by {
            assert(rest.contains(d) <==> d.data == broadcast_message(game_data) && exists|
                client_id: u32,
            | #[trigger]
                fewer.contains(client_id) && broker.address_of(client_id) == Some(d.to));
            if all.contains(d) {
                let k = choose|k: int| 0 <= k < all.len() && all[k] == d;
                if k < rest.len() {
                    assert(rest[k] == d);
                    let client_id = choose|client_id: u32| #[trigger]
                        fewer.contains(client_id) && broker.address_of(client_id) == Some(d.to);
                    let i = choose|i: int| 0 <= i < fewer.len() && fewer[i] == client_id;
                    assert(clients[i] == client_id);
                    assert(clients.contains(client_id));
                } else {
                    assert(tail[k - rest.len()] == d);
                    assert(clients[clients.len() - 1] == last);
                    assert(clients.contains(last));
                }
            }
            if d.data == broadcast_message(game_data) && exists|client_id: u32| #[trigger]
                clients.contains(client_id) && broker.address_of(client_id) == Some(d.to) {
                let client_id = choose|client_id: u32| #[trigger]
                    clients.contains(client_id) && broker.address_of(client_id) == Some(d.to);
                let i = choose|i: int| 0 <= i < clients.len() && clients[i] == client_id;
                if i < fewer.len() {
                    assert(fewer[i] == client_id);
                    assert(fewer.contains(client_id));
                    let k = choose|k: int| 0 <= k < rest.len() && rest[k] == d;
                    assert(all[k] == d);
                } else {
                    assert(tail[0] == d);
                    assert(all[rest.len() as int] == d);
                }
            }
        }
    }
}

/// What the server in charge of a topic publishes goes to every listener whose address is
/// known, and to nobody else.
pub proof fn law_published_data_reach_the_listeners(
    broker: BrokerView,
    topic: Seq<u8>,
    game_data: Seq<u8>,
    src: PeerAddr,
    out: Seq<DatagramView>,
)
    requires
        topic.len() == 32,
        3 + game_data.len() <= MAX_BROADCAST,
        authority_of(broker.routes, topic) == Some(src),
        broker.answers(publish_message(topic, game_data), src, out),
    ensures
        forall|d: DatagramView| #[trigger]
            out.contains(d) <==> d.data == broadcast_message(game_data) && exists|client_id: u32|
                #[trigger]
                listeners(broker.routes, topic).contains(client_id) && broker.address_of(client_id)
                    == Some(d.to),
{
    lemma_publication(topic, game_data);
    let data = publish_message(topic, game_data).skip(1);
    let order = choose|order: Seq<u32>| #[trigger]
        enumerates(order, listeners(broker.routes, data.subrange(0, 32))) && out
            == broker.broadcasts(order, data.subrange(34, 34 + u16_at(data, 32)));
    lemma_broadcasts(broker, order, game_data);
    assert forall|client_id: u32| #[trigger] order.contains(client_id) <==> listeners(
        broker.routes,
        topic,
    ).contains(client_id) by {
        assert(order.to_set().contains(client_id) <==> order.contains(client_id));
    }
    assert forall|d: DatagramView| #[trigger] out.contains(d) <==> d.data == broadcast_message(
        game_data,
    ) && exists|client_id: u32| #[trigger]
        listeners(broker.routes, topic).contains(client_id) && broker.address_of(client_id) == Some(
            d.to,
        ) by {
        if exists|client_id: u32| #[trigger]
            order.contains(client_id) && broker.address_of(client_id) == Some(d.to) {
            let client_id = choose|client_id: u32| #[trigger]
                order.contains(client_id) && broker.address_of(client_id) == Some(d.to);
            assert(listeners(broker.routes, topic).contains(client_id));
        }
        if exists|client_id: u32| #[trigger]
            listeners(broker.routes, topic).contains(client_id) && broker.address_of(client_id)
                == Some(d.to) {
            let client_id = choose|client_id: u32| #[trigger]
                listeners(broker.routes, topic).contains(client_id) && broker.address_of(client_id)
                    == Some(d.to);
            assert(order.contains(client_id));
        }
    }
}

/// Whom a message to the servers in charge of some topics reaches.
pub(crate) proof fn lemma_forwards(broker: BrokerView, topics: Seq<Seq<u8>>, message: Seq<u8>)
    ensures
        forall|d: DatagramView| #[trigger]
            broker.forwards(topics, message).contains(d) <==> d.data == message && exists|
                topic: Seq<u8>,
            | #[trigger]
                topics.contains(topic) && authority_of(broker.routes, topic) == Some(d.to),
    decreases topics.len(),
{
    let all = broker.forwards(topics, message);
    if topics.len() > 0 {
        let fewer = topics.drop_last();
        let last = topics.last();
        let rest = broker.forwards(fewer, message);
        let tail = deliver(authority_of(broker.routes, last), message);
        lemma_forwards(broker, fewer, message);
        assert forall|d: DatagramView| #[trigger] all.contains(d) <==> d.data == message && exists|
            topic: Seq<u8>,
        | #[trigger]
            topics.contains(topic) && authority_of(broker.routes, topic) == Some(d.to) by {
            assert(rest.contains(d) <==> d.data == message && exists|topic: Seq<u8>| #[trigger]
                fewer.contains(topic) && authority_of(broker.routes, topic) == Some(d.to));
            if all.contains(d) {
                let k = choose|k: int| 0 <= k < all.len() && all[k] == d;
                if k < rest.len() {
                    assert(rest[k] == d);
                    let topic = choose|topic: Seq<u8>| #[trigger]
                        fewer.contains(topic) && authority_of(broker.routes, topic) == Some(d.to);
                    let i = choose|i: int| 0 <= i < fewer.len() && fewer[i] == topic;
                    assert(topics[i] == topic);
                    assert(topics.contains(topic));
                } else {
                    assert(tail[k - rest.len()] == d);
                    assert(topics[topics.len() - 1] == last);
                    assert(topics.contains(last));
                }
            }
            if d.data == message && exists|topic: Seq<u8>| #[trigger]
                topics.contains(topic) && authority_of(broker.routes, topic) == Some(d.to) {
                let topic = choose|topic: Seq<u8>| #[trigger]
                    topics.contains(topic) && authority_of(broker.routes, topic) == Some(d.to);
                let i = choose|i: int| 0 <= i < topics.len() && topics[i] == topic;
                if i < fewer.len() {
                    assert(fewer[i] == topic);
                    assert(fewer.contains(topic));
                    let k = choose|k: int| 0 <= k < rest.len() && rest[k] == d;
                    assert(all[k] == d);
                } else {
                    assert(tail[0] == d);
                    assert(all[rest.len() as int] == d);
                }
            }
        }
    }
}

/// Whom a message for a client reaches.
pub(crate) proof fn lemma_forwarded(
    broker: BrokerView,
    client_id: u32,
    message: Seq<u8>,
    out: Seq<DatagramView>,
)
    requires
        broker.forwarded(client_id, message, out),
    ensures
        forall|d: DatagramView| #[trigger]
            out.contains(d) <==> d.data == message && exists|topic: Seq<u8>| #[trigger]
                broker.topics_of(client_id).contains(topic) && authority_of(broker.routes, topic)
                    == Some(d.to),
{
    let order = choose|order: Seq<Seq<u8>>| #[trigger]
        enumerates(order, broker.topics_of(client_id)) && out == broker.forwards(order, message);
    lemma_forwards(broker, order, message);
    assert forall|topic: Seq<u8>| #[trigger] order.contains(topic) <==> broker.topics_of(
        client_id,
    ).contains(topic) by {
        assert(order.to_set().contains(topic) <==> order.contains(topic));
    }
    assert forall|d: DatagramView| #[trigger] out.contains(d) <==> d.data == message && exists|
        topic: Seq<u8>,
    | #[trigger]
        broker.topics_of(client_id).contains(topic) && authority_of(broker.routes, topic) == Some(
            d.to,
        ) by {
        if exists|topic: Seq<u8>| #[trigger]
            order.contains(topic) && authority_of(broker.routes, topic) == Some(d.to) {
            let topic = choose|topic: Seq<u8>| #[trigger]
                order.contains(topic) && authority_of(broker.routes, topic) == Some(d.to);
            assert(broker.topics_of(client_id).contains(topic));
        }
        if exists|topic: Seq<u8>| #[trigger]
            broker.topics_of(client_id).contains(topic) && authority_of(broker.routes, topic)
                == Some(d.to) {
            let topic = choose|topic: Seq<u8>| #[trigger]
                broker.topics_of(client_id).contains(topic) && authority_of(broker.routes, topic)
                    == Some(d.to);
            assert(order.contains(topic));
        }
    }
}

/// A client's input goes, as it came, to the servers in charge of the client's topics, and to
/// nobody else.
pub proof fn law_inputs_reach_the_authorities(
    broker: BrokerView,
    client_id: u32,
    payload: Seq<u8>,
    src: PeerAddr,
    out: Seq<DatagramView>,
)
    requires
        5 + payload.len() <= MAX_INPUT,
        broker.answers(input_message(client_id, payload), src, out),
    ensures
        forall|d: DatagramView| #[trigger]
            out.contains(d) <==> d.data == input_message(client_id, payload) && exists|
                topic: Seq<u8>,
            | #[trigger]
                broker.topics_of(client_id).contains(topic) && authority_of(broker.routes, topic)
                    == Some(d.to),
        broker.after(input_message(client_id, payload), src).address_of(client_id) == Some(src),
{
    let packet = input_message(client_id, payload);
    let data = packet.skip(1);
    assert(data =~= Seq::empty() + le32(client_id) + payload);
    law_u32_round_trip(client_id, Seq::empty(), payload);
    assert(tagged(TAG_CLIENT_INPUT, data) =~= packet);
    lemma_forwarded(broker, client_id, packet, out);
}

/// To subscribe twice is to subscribe once.
pub proof fn law_subscribing_twice_is_once(
    broker: BrokerView,
    client_id: u32,
    topic: Seq<u8>,
    src: PeerAddr,
)
    requires
        topic.len() == 32,
    ensures
        ({
            let packet = subscription_message(TAG_SUBSCRIBE, client_id, topic);
            let once = broker.after(packet, src);
            &&& once.after(packet, src).addresses == once.addresses
            &&& once.after(packet, src).topics == once.topics
            &&& once.after(packet, src).routes == once.routes
        }),
{
    lemma_subscription(TAG_SUBSCRIBE, client_id, topic);
    let once = broker.with_subscription(client_id, topic);
    assert(once.topics_of(client_id).insert(topic) =~= once.topics_of(client_id));
    if once.routes.contains_key(topic) {
        assert(once.routes[topic].clients.insert(client_id) =~= once.routes[topic].clients);
    }
}

} // verus!
