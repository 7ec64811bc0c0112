//! What every packet does to the broker and whom it sends what, byte for byte.

use crate::broker::{listeners, tagged, BrokerView, RouteView};
use crate::broker_laws::{lemma_broadcasts, lemma_forwarded};
use crate::net::{enumerates, DatagramView, PeerAddr};
use crate::topics::{shard_label, shard_topic};
use crate::wire::{
    authority_message,
    broadcast_message,
    claim_message,
    client_message,
    crossing_message,
    input_message,
    law_u16_round_trip,
    law_u32_round_trip,
    le16,
    le32,
    le32_all,
    orchestrator_topic,
    position_message,
    publish_message,
    ready_message,
    route_message,
    scale_payload,
    spatial_topic,
    subscription_message,
    u16_at,
    u32_at,
};
use vstd::prelude::*;
use vstd::utf8::is_ascii_chars_encode_utf8;

verus! {

/// Numbers are written with the least significant byte first.
pub proof fn law_numbers_are_little_endian(x: u32, y: u16)
    ensures
        le32(x).len() == 4,
        le32(x)[0] + 256 * le32(x)[1] + 65536 * le32(x)[2] + 16777216 * le32(x)[3] == x,
        le16(y).len() == 2,
        le16(y)[0] + 256 * le16(y)[1] == y,
{
}

/// Where the parts of a packet with a client and a topic are.
proof fn lemma_client_and_topic(tag: u8, client_id: u32, topic: Seq<u8>, rest: Seq<u8>)
    requires
        topic.len() == 32,
    ensures
        ({
            let packet = seq![tag] + le32(client_id) + topic + rest;
            let data = packet.skip(1);
            &&& packet[0] == tag
            &&& data.len() == 36 + rest.len()
            &&& u32_at(data, 0) == client_id
            &&& data.subrange(4, 36) == topic
        }),
{
    let packet = seq![tag] + le32(client_id) + topic + rest;
    let data = packet.skip(1);
    law_u32_round_trip(client_id, Seq::empty(), topic + rest);
    assert(data =~= Seq::empty() + le32(client_id) + (topic + rest));
    assert(data.subrange(4, 36) =~= topic);
}

/// A client who subscribes has the topic from then on, and listens to it where someone is in
/// charge of it. Nothing else changes, and nobody is told.
pub proof fn law_subscriptions(
    broker: BrokerView,
    client_id: u32,
    topic: Seq<u8>,
    rest: Seq<u8>,
    src: PeerAddr,
    out: Seq<DatagramView>,
)
    requires
        topic.len() == 32,
        broker.answers(seq![0x01u8] + le32(client_id) + topic + rest, src, out),
    ensures
        ({
            let after = broker.after(seq![0x01u8] + le32(client_id) + topic + rest, src);
            let had = if broker.topics.contains_key(client_id) {
                broker.topics[client_id]
            } else {
                Set::empty()
            };
            &&& out.len() == 0
            &&& after.addresses == broker.addresses
            &&& after.topics == broker.topics.insert(client_id, had.insert(topic))
            &&& !broker.routes.contains_key(topic) ==> after.routes == broker.routes
            &&& broker.routes.contains_key(topic) ==> after.routes == broker.routes.insert(
                topic,
                RouteView {
                    authority: broker.routes[topic].authority,
                    clients: broker.routes[topic].clients.insert(client_id),
                },
            )
        }),
{
    lemma_client_and_topic(0x01, client_id, topic, rest);
}

/// A client who unsubscribes does not have the topic, and does not listen to it. Nothing else
/// changes, and nobody is told.
pub proof fn law_cancellations(
    broker: BrokerView,
    client_id: u32,
    topic: Seq<u8>,
    rest: Seq<u8>,
    src: PeerAddr,
    out: Seq<DatagramView>,
)
    requires
        topic.len() == 32,
        broker.answers(seq![0x02u8] + le32(client_id) + topic + rest, src, out),
    ensures
        ({
            let after = broker.after(seq![0x02u8] + le32(client_id) + topic + rest, src);
            &&& out.len() == 0
            &&& after.addresses == broker.addresses
            &&& !broker.topics.contains_key(client_id) ==> after.topics == broker.topics
            &&& broker.topics.contains_key(client_id) ==> after.topics == broker.topics.insert(
                client_id,
                broker.topics[client_id].remove(topic),
            )
            &&& !broker.routes.contains_key(topic) ==> after.routes == broker.routes
            &&& broker.routes.contains_key(topic) ==> after.routes == broker.routes.insert(
                topic,
                RouteView {
                    authority: broker.routes[topic].authority,
                    clients: broker.routes[topic].clients.remove(client_id),
                },
            )
        }),
{
    lemma_client_and_topic(0x02, client_id, topic, rest);
}

/// Whoever claims a topic is in charge of it. Those who listen to it still do; where nobody was
/// in charge, those who have the topic begin to. Nothing else changes, and nobody is told.
pub proof fn law_claims(
    broker: BrokerView,
    topic: Seq<u8>,
    rest: Seq<u8>,
    src: PeerAddr,
    out: Seq<DatagramView>,
    client_id: u32,
)
    requires
        topic.len() == 32,
        broker.answers(seq![0x06u8] + topic + rest, src, out),
    ensures
        ({
            let after = broker.after(seq![0x06u8] + topic + rest, src);
            &&& out.len() == 0
            &&& after.addresses == broker.addresses
            &&& after.topics == broker.topics
            &&& after.routes.remove(topic) == broker.routes.remove(topic)
            &&& after.routes.contains_key(topic)
            &&& after.routes[topic].authority == src
            &&& broker.routes.contains_key(topic) ==> after.routes[topic].clients
                == broker.routes[topic].clients
            &&& !broker.routes.contains_key(topic) ==> (after.routes[topic].clients.contains(
                client_id,
            ) <==> broker.topics.contains_key(client_id) && broker.topics[client_id].contains(topic))
        }),
{
    let packet = seq![0x06u8] + topic + rest;
    assert(packet.skip(1).subrange(0, 32) =~= topic);
    let after = broker.after(packet, src);
    assert(after.routes.remove(topic) =~= broker.routes.remove(topic));
}

/// Where the client of a packet is.
proof fn lemma_client_first(tag: u8, client_id: u32, rest: Seq<u8>)
    ensures
        ({
            let packet = seq![tag] + le32(client_id) + rest;
            let data = packet.skip(1);
            &&& packet[0] == tag
            &&& packet.len() == 5 + rest.len()
            &&& data.len() == 4 + rest.len()
            &&& u32_at(data, 0) == client_id
            &&& data == le32(client_id) + rest
            &&& tagged(tag, data) == packet
        }),
{
    let packet = seq![tag] + le32(client_id) + rest;
    let data = packet.skip(1);
    law_u32_round_trip(client_id, Seq::empty(), rest);
    assert(data =~= Seq::empty() + le32(client_id) + rest);
    assert(data =~= le32(client_id) + rest);
    assert(tagged(tag, data) =~= packet);
}

/// The topics of a client that someone is in charge of.
pub open spec fn served_topics(broker: BrokerView, client_id: u32) -> Set<Seq<u8>> {
    if broker.topics.contains_key(client_id) {
        broker.topics[client_id].filter(|topic: Seq<u8>| broker.routes.contains_key(topic))
    } else {
        Set::empty()
    }
}

proof fn lemma_forwards_len(broker: BrokerView, topics: Seq<Seq<u8>>, message: Seq<u8>)
    requires
        topics.no_duplicates(),
    ensures
        broker.forwards(topics, message).len() == topics.to_set().filter(
            |topic: Seq<u8>| broker.routes.contains_key(topic),
        ).len(),
    decreases topics.len(),
{
    let there = |topic: Seq<u8>| broker.routes.contains_key(topic);
    if topics.len() > 0 {
        let fewer = topics.drop_last();
        let last = topics.last();
        lemma_forwards_len(broker, fewer, message);
        assert(topics =~= fewer.push(last));
        fewer.lemma_push_to_set_commute(last);
        vstd::seq_lib::seq_to_set_is_finite(fewer);
        assert(!fewer.contains(last)) by {
            if fewer.contains(last) {
                let k = choose|k: int| 0 <= k < fewer.len() && fewer[k] == last;
                assert(topics[k] == topics[topics.len() - 1]);
            }
        }
        if there(last) {
            assert(topics.to_set().filter(there) =~= fewer.to_set().filter(there).insert(last));
        } else {
            assert(topics.to_set().filter(there) =~= fewer.to_set().filter(there));
        }
    } else {
        assert(topics.to_set().filter(there) =~= Set::empty());
    }
}

/// Whom a message about a client reaches, and how often.
proof fn lemma_passed_on(
    broker: BrokerView,
    client_id: u32,
    message: Seq<u8>,
    out: Seq<DatagramView>,
    d: DatagramView,
)
    requires
        broker.forwarded(client_id, message, out),
    ensures
        out.contains(d) <==> d.data == message && exists|topic: Seq<u8>| #[trigger]
            served_topics(broker, client_id).contains(topic) && broker.routes[topic].authority
                == d.to,
        out.len() == served_topics(broker, client_id).len(),
{
    lemma_forwarded(broker, client_id, message, out);
    if out.contains(d) {
        let topic = choose|topic: Seq<u8>| #[trigger]
            broker.topics_of(client_id).contains(topic) && crate::broker::authority_of(
                broker.routes,
                topic,
            ) == Some(d.to);
        assert(served_topics(broker, client_id).contains(topic));
    }
    if exists|topic: Seq<u8>| #[trigger]
        served_topics(broker, client_id).contains(topic) && broker.routes[topic].authority == d.to {
        let topic = choose|topic: Seq<u8>| #[trigger]
            served_topics(broker, client_id).contains(topic) && broker.routes[topic].authority
                == d.to;
        assert(broker.topics_of(client_id).contains(topic));
    }
    let order = choose|order: Seq<Seq<u8>>| #[trigger]
        enumerates(order, broker.topics_of(client_id)) && out == broker.forwards(order, message);
    lemma_forwards_len(broker, order, message);
    assert(served_topics(broker, client_id) =~= order.to_set().filter(
        |topic: Seq<u8>| broker.routes.contains_key(topic),
    ));
}

/// An input makes known where its client is, and goes as it came, once for each topic of the
/// client, to whoever is in charge of the topic; one of more than 512 bytes goes nowhere.
pub proof fn law_inputs(
    broker: BrokerView,
    client_id: u32,
    payload: Seq<u8>,
    src: PeerAddr,
    out: Seq<DatagramView>,
    d: DatagramView,
)
    requires
        broker.answers(seq![0x05u8] + le32(client_id) + payload, src, out),
    ensures
        ({
            let packet = seq![0x05u8] + le32(client_id) + payload;
            let after = broker.after(packet, src);
            &&& after.addresses == broker.addresses.insert(client_id, src)
            &&& after.topics == broker.topics
            &&& after.routes == broker.routes
            &&& packet.len() > 512 ==> out.len() == 0
            &&& packet.len() <= 512 ==> out.len() == served_topics(broker, client_id).len()
            &&& packet.len() <= 512 ==> (out.contains(d) <==> d.data == packet && exists|
                topic: Seq<u8>,
            | #[trigger]
                served_topics(broker, client_id).contains(topic) && broker.routes[topic].authority
                    == d.to)
        }),
{
    let packet = seq![0x05u8] + le32(client_id) + payload;
    lemma_client_first(0x05, client_id, payload);
    if packet.len() <= 512 {
        lemma_passed_on(broker, client_id, packet, out, d);
    }
}

/// When a client leaves, whoever is in charge of one of its topics is told, and nothing of the
/// client remains: no address, no topic, and none of its topics to which it listens.
pub proof fn law_departures(
    broker: BrokerView,
    client_id: u32,
    rest: Seq<u8>,
    src: PeerAddr,
    out: Seq<DatagramView>,
    d: DatagramView,
    topic: Seq<u8>,
)
    requires
        broker.answers(seq![0x07u8] + le32(client_id) + rest, src, out),
    ensures
        ({
            let after = broker.after(seq![0x07u8] + le32(client_id) + rest, src);
            let had = broker.topics.contains_key(client_id) && broker.topics[client_id].contains(
                topic,
            );
            &&& after.addresses == broker.addresses.remove(client_id)
            &&& after.topics == broker.topics.remove(client_id)
            &&& after.routes.contains_key(topic) == broker.routes.contains_key(topic)
            &&& broker.routes.contains_key(topic) ==> after.routes[topic].authority
                == broker.routes[topic].authority
            &&& broker.routes.contains_key(topic) && had ==> after.routes[topic].clients
                == broker.routes[topic].clients.remove(client_id)
            &&& broker.routes.contains_key(topic) && !had ==> after.routes[topic].clients
                == broker.routes[topic].clients
            &&& out.len() == served_topics(broker, client_id).len()
            &&& out.contains(d) <==> d.data == seq![0x07u8] + le32(client_id) && exists|
                t: Seq<u8>,
            | #[trigger]
                served_topics(broker, client_id).contains(t) && broker.routes[t].authority == d.to
        }),
{
    lemma_client_first(0x07, client_id, rest);
    lemma_passed_on(broker, client_id, seq![0x07u8] + le32(client_id), out, d);
}

/// The listeners of a topic whose address is known.
pub open spec fn reachable(broker: BrokerView, topic: Seq<u8>) -> Set<u32> {
    broker.routes[topic].clients.filter(|client: u32| broker.addresses.contains_key(client))
}

proof fn lemma_broadcasts_len(broker: BrokerView, clients: Seq<u32>, data: Seq<u8>)
    requires
        clients.no_duplicates(),
    ensures
        broker.broadcasts(clients, data).len() == clients.to_set().filter(
            |client: u32| broker.addresses.contains_key(client),
        ).len(),
    decreases clients.len(),
{
    let there = |client: u32| broker.addresses.contains_key(client);
    if clients.len() > 0 {
        let fewer = clients.drop_last();
        let last = clients.last();
        lemma_broadcasts_len(broker, fewer, data);
        assert(clients =~= fewer.push(last));
        fewer.lemma_push_to_set_commute(last);
        vstd::seq_lib::seq_to_set_is_finite(fewer);
        assert(!fewer.contains(last)) by {
            if fewer.contains(last) {
                let k = choose|k: int| 0 <= k < fewer.len() && fewer[k] == last;
                assert(clients[k] == clients[clients.len() - 1]);
            }
        }
        if there(last) {
            assert(clients.to_set().filter(there) =~= fewer.to_set().filter(there).insert(last));
        } else {
            assert(clients.to_set().filter(there) =~= fewer.to_set().filter(there));
        }
    } else {
        assert(clients.to_set().filter(there) =~= Set::empty());
    }
}

/// Where the parts of a publication are.
proof fn lemma_publication_parts(topic: Seq<u8>, len: u16, rest: Seq<u8>)
    requires
        topic.len() == 32,
    ensures
        ({
            let packet = seq![0x03u8] + topic + le16(len) + rest;
            let data = packet.skip(1);
            &&& packet[0] == 0x03
            &&& data.len() == 34 + rest.len()
            &&& data.subrange(0, 32) == topic
            &&& u16_at(data, 32) == len
            &&& len <= rest.len() ==> data.subrange(34, 34 + len) == rest.take(len as int)
        }),
{
    let packet = seq![0x03u8] + topic + le16(len) + rest;
    let data = packet.skip(1);
    law_u16_round_trip(len, topic, rest);
    assert(data =~= topic + le16(len) + rest);
    assert(data.subrange(0, 32) =~= topic);
    if len <= rest.len() {
        assert(data.subrange(34, 34 + len) =~= rest.take(len as int));
    }
}

/// What the server in charge of a topic publishes goes, once, to every listener whose address is
/// known, as long as it is complete and the message has no more than 1500 bytes. Nothing that
/// anybody else publishes goes anywhere. The broker stays as it is.
pub proof fn law_publications(
    broker: BrokerView,
    topic: Seq<u8>,
    len: u16,
    rest: Seq<u8>,
    src: PeerAddr,
    out: Seq<DatagramView>,
    d: DatagramView,
)
    requires
        topic.len() == 32,
        broker.answers(seq![0x03u8] + topic + le16(len) + rest, src, out),
    ensures
        ({
            let passes = broker.routes.contains_key(topic) && broker.routes[topic].authority == src
                && len <= rest.len() && len <= 1497;
            &&& broker.after(seq![0x03u8] + topic + le16(len) + rest, src) == broker
            &&& !passes ==> out.len() == 0
            &&& passes ==> out.len() == reachable(broker, topic).len()
            &&& passes ==> (out.contains(d) <==> d.data == seq![0x04u8] + le16(len) + rest.take(
                len as int,
            ) && exists|client: u32| #[trigger]
                reachable(broker, topic).contains(client) && broker.addresses[client] == d.to)
        }),
{
    lemma_publication_parts(topic, len, rest);
    let data = (seq![0x03u8] + topic + le16(len) + rest).skip(1);
    if broker.publishes(data, src) {
        let game_data = rest.take(len as int);
        let order = choose|order: Seq<u32>| #[trigger]
            enumerates(order, listeners(broker.routes, data.subrange(0, 32))) && out
                == broker.broadcasts(order, data.subrange(34, 34 + u16_at(data, 32)));
        lemma_broadcasts(broker, order, game_data);
        lemma_broadcasts_len(broker, order, game_data);
        assert(reachable(broker, topic) =~= order.to_set().filter(
            |client: u32| broker.addresses.contains_key(client),
        ));
        assert(out.contains(d) <==> d.data == broadcast_message(game_data) && exists|
            client_id: u32,
        | #[trigger]
            order.contains(client_id) && broker.address_of(client_id) == Some(d.to));
        if exists|client_id: u32| #[trigger]
            order.contains(client_id) && broker.address_of(client_id) == Some(d.to) {
            let client_id = choose|client_id: u32| #[trigger]
                order.contains(client_id) && broker.address_of(client_id) == Some(d.to);
            assert(order.to_set().contains(client_id));
            assert(reachable(broker, topic).contains(client_id));
        }
        if exists|client: u32| #[trigger]
            reachable(broker, topic).contains(client) && broker.addresses[client] == d.to {
            let client = choose|client: u32| #[trigger]
                reachable(broker, topic).contains(client) && broker.addresses[client] == d.to;
            assert(order.to_set().contains(client));
            assert(order.contains(client));
        }
    }
}

/// A payload for a topic goes, without anything around it, to whoever is in charge of the topic.
pub proof fn law_routings(
    broker: BrokerView,
    topic: Seq<u8>,
    payload: Seq<u8>,
    src: PeerAddr,
    out: Seq<DatagramView>,
)
    requires
        topic.len() == 32,
        broker.answers(seq![0x08u8] + topic + payload, src, out),
    ensures
        broker.after(seq![0x08u8] + topic + payload, src) == broker,
        broker.routes.contains_key(topic) ==> out == seq![
            DatagramView { to: broker.routes[topic].authority, data: payload },
        ],
        !broker.routes.contains_key(topic) ==> out.len() == 0,
{
    let data = (seq![0x08u8] + topic + payload).skip(1);
    assert(data.subrange(0, 32) =~= topic);
    assert(data.skip(32) =~= payload);
}

/// An alert that a client is near several shards goes, as it came, to the client, if its address
/// is known.
pub proof fn law_alerts(
    broker: BrokerView,
    client_id: u32,
    rest: Seq<u8>,
    src: PeerAddr,
    out: Seq<DatagramView>,
)
    requires
        broker.answers(seq![0x11u8] + le32(client_id) + rest, src, out),
    ensures
        broker.after(seq![0x11u8] + le32(client_id) + rest, src) == broker,
        broker.addresses.contains_key(client_id) ==> out == seq![
            DatagramView {
                to: broker.addresses[client_id],
                data: seq![0x11u8] + le32(client_id) + rest,
            },
        ],
        !broker.addresses.contains_key(client_id) ==> out.len() == 0,
{
    lemma_client_first(0x11, client_id, rest);
}

/// A change of authority goes, as it came, to the client, to the old shard and to the new shard,
/// in this order, as far as the broker knows them.
pub proof fn law_changes(
    broker: BrokerView,
    client_id: u32,
    old_shard: u32,
    new_shard: u32,
    rest: Seq<u8>,
    src: PeerAddr,
    out: Seq<DatagramView>,
)
    requires
        broker.answers(
            seq![0x12u8] + le32(client_id) + (le32(old_shard) + le32(new_shard) + rest),
            src,
            out,
        ),
    ensures
        ({
            let packet = seq![0x12u8] + le32(client_id) + (le32(old_shard) + le32(new_shard)
                + rest);
            let from = shard_topic(old_shard);
            let to = shard_topic(new_shard);
            let told = if broker.addresses.contains_key(client_id) {
                seq![DatagramView { to: broker.addresses[client_id], data: packet }]
            } else {
                Seq::empty()
            };
            let left = if broker.routes.contains_key(from) {
                seq![DatagramView { to: broker.routes[from].authority, data: packet }]
            } else {
                Seq::empty()
            };
            let entered = if broker.routes.contains_key(to) {
                seq![DatagramView { to: broker.routes[to].authority, data: packet }]
            } else {
                Seq::empty()
            };
            &&& broker.after(packet, src) == broker
            &&& out == told + left + entered
        }),
{
    let behind = le32(old_shard) + le32(new_shard) + rest;
    lemma_client_first(0x12, client_id, behind);
    let data = le32(client_id) + behind;
    law_u32_round_trip(old_shard, le32(client_id), le32(new_shard) + rest);
    assert(data =~= le32(client_id) + le32(old_shard) + (le32(new_shard) + rest));
    law_u32_round_trip(new_shard, le32(client_id) + le32(old_shard), rest);
    assert(data =~= le32(client_id) + le32(old_shard) + le32(new_shard) + rest);
}

/// The signal that a shard is ready goes to whoever is in charge of the spatial server's topic,
/// as an input of client zero.
pub proof fn law_ready_signals(
    broker: BrokerView,
    shard_id: u32,
    rest: Seq<u8>,
    src: PeerAddr,
    out: Seq<DatagramView>,
)
    requires
        broker.answers(seq![0x14u8] + le32(shard_id) + rest, src, out),
    ensures
        broker.after(seq![0x14u8] + le32(shard_id) + rest, src) == broker,
        broker.routes.contains_key(spatial_topic()) ==> out == seq![
            DatagramView {
                to: broker.routes[spatial_topic()].authority,
                data: seq![0x05u8] + le32(0) + (seq![0x14u8] + le32(shard_id) + rest),
            },
        ],
        !broker.routes.contains_key(spatial_topic()) ==> out.len() == 0,
{
    lemma_client_first(0x14, shard_id, rest);
}

/// Whatever the broker does not know, or what is too short, does nothing.
pub proof fn law_other_packets_are_dropped(
    broker: BrokerView,
    packet: Seq<u8>,
    src: PeerAddr,
    out: Seq<DatagramView>,
)
    requires
        broker.answers(packet, src, out),
        packet.len() == 0 || ({
            let tag = packet[0];
            let len = packet.len();
            &&& tag == 0x01 || tag == 0x02 ==> len < 37
            &&& tag == 0x03 ==> len < 35
            &&& tag == 0x05 || tag == 0x07 || tag == 0x11 || tag == 0x14 ==> len < 5
            &&& tag == 0x06 || tag == 0x08 ==> len < 33
            &&& tag == 0x12 ==> len < 13
        }),
    ensures
        broker.after(packet, src) == broker,
        out.len() == 0,
{
}

/// The topics of the services spell their names, and zeros behind them.
pub proof fn law_service_topics_spell_their_names(i: int)
    requires
        0 <= i < 32,
    ensures
        ({
            let spatial = seq![
                's', 'p', 'a', 't', 'i', 'a', 'l', '_', 'u', 'p', 'd', 'a', 't', 'e', 's',
            ];
            let orchestrator = seq![
                'o', 'r', 'c', 'h', 'e', 's', 't', 'r', 'a', 't', 'o', 'r', '_', 'c', 'o', 'm', 'm',
                'a', 'n', 'd', 's',
            ];
            &&& spatial_topic().len() == 32
            &&& orchestrator_topic().len() == 32
            &&& i < 15 ==> spatial_topic()[i] as int == spatial[i] as int
            &&& i >= 15 ==> spatial_topic()[i] == 0
            &&& i < 21 ==> orchestrator_topic()[i] as int == orchestrator[i] as int
            &&& i >= 21 ==> orchestrator_topic()[i] == 0
        }),
{
    reveal_strlit("spatial_updates");
    reveal_strlit("orchestrator_commands");
    is_ascii_chars_encode_utf8("spatial_updates"@);
    is_ascii_chars_encode_utf8("orchestrator_commands"@);
}

/// The topic of a shard spells `shard:` and the number of the shard, and zeros behind them.
pub proof fn law_shard_topics_spell_their_names(shard_id: u32, i: int)
    requires
        0 <= i < 32,
    ensures
        ({
            let name = seq!['s', 'h', 'a', 'r', 'd', ':'] + crate::text::decimal(shard_id as nat);
            &&& shard_topic(shard_id).len() == 32
            &&& name.len() <= 16
            &&& i < name.len() ==> shard_topic(shard_id)[i] as int == name[i] as int
            &&& i >= name.len() ==> shard_topic(shard_id)[i] == 0
        }),
{
    crate::topics::lemma_shard_label(shard_id);
    assert(shard_label(shard_id) =~= seq!['s', 'h', 'a', 'r', 'd', ':'] + crate::text::decimal(
        shard_id as nat,
    ));
}

/// The numbers of a list follow each other, four bytes each.
pub proof fn law_lists_are_written_number_by_number(some: Seq<u32>, others: Seq<u32>, number: u32)
    ensures
        le32_all(some + others) == le32_all(some) + le32_all(others),
        le32_all(seq![number]) == le32(number),
        le32_all(Seq::empty()).len() == 0,
    decreases others.len(),
{
    reveal_with_fuel(le32_all, 2);
    assert(seq![number].drop_last() =~= Seq::empty());
    assert(le32_all(seq![number]) =~= le32(number));
    if others.len() > 0 {
        law_lists_are_written_number_by_number(some, others.drop_last(), number);
        assert((some + others).drop_last() =~= some + others.drop_last());
        assert((some + others).last() == others.last());
        assert(le32_all(some + others) =~= le32_all(some) + le32_all(others));
    } else {
        assert(some + others =~= some);
        assert(le32_all(some) + le32_all(others) =~= le32_all(some));
    }
}

/// All messages, byte for byte.
pub proof fn law_message_layouts(
    client_id: u32,
    a: u32,
    b: u32,
    numbers: Seq<u32>,
    topic: Seq<u8>,
    data: Seq<u8>,
)
    requires
        numbers.len() < 256,
    ensures
        position_message(client_id, a, b) == seq![0x05u8] + le32(client_id) + seq![0x10u8] + le32(a)
            + le32(b),
        authority_message(client_id, a, b) == seq![0x12u8] + le32(client_id) + le32(a) + le32(b),
        crossing_message(client_id, numbers) == seq![0x11u8] + le32(client_id) + seq![
            numbers.len() as u8,
        ] + le32_all(numbers),
        ready_message(a) == seq![0x14u8] + le32(a),
        claim_message(topic) == seq![0x06u8] + topic,
        subscription_message(0x01, client_id, topic) == seq![0x01u8] + le32(client_id) + topic,
        subscription_message(0x02, client_id, topic) == seq![0x02u8] + le32(client_id) + topic,
        client_message(0x07, client_id) == seq![0x07u8] + le32(client_id),
        input_message(client_id, data) == seq![0x05u8] + le32(client_id) + data,
        route_message(topic, data) == seq![0x08u8] + topic + data,
        publish_message(topic, data) == seq![0x03u8] + topic + le16(data.len() as u16) + data,
        broadcast_message(data) == seq![0x04u8] + le16(data.len() as u16) + data,
        scale_payload(0x13, a, numbers) == seq![0x13u8] + le32(a) + le32_all(numbers),
        scale_payload(0x15, a, numbers) == seq![0x15u8] + le32(a) + le32_all(numbers),
{
}

} // verus!
