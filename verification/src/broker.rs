//! The broker: it passes messages between clients and the servers in charge of topics.

use crate::net::{
    deliver,
    enumerates,
    nothing,
    push_delivery,
    sent,
    Datagram,
    DatagramView,
    PeerAddr,
};
use crate::topics::{shard_topic, string_to_topic, topic_for_shard};
use crate::wire::{
    broadcast_message,
    build_broadcast,
    build_client_message,
    client_message,
    push_bytes,
    read_topic,
    read_u16,
    read_u32,
    spatial_topic,
    u16_at,
    u32_at,
    TAG_AUTHORITY_CHANGE,
    TAG_CLAIM_AUTHORITY,
    TAG_CLIENT_INPUT,
    TAG_CROSSING_ALERT,
    TAG_DISCONNECT,
    TAG_PUBLISH,
    TAG_READY,
    TAG_ROUTE_TO_TOPIC,
    TAG_SUBSCRIBE,
    TAG_UNSUBSCRIBE,
};
use std::collections::{HashMap, HashSet};
use vstd::prelude::*;
use vstd::slice::slice_subrange;
use vstd::std_specs::hash::{spec_hash_keys_iter, spec_keys_iter};
use vstd::std_specs::iter::IteratorSpec;

verus! {

broadcast use vstd::std_specs::hash::group_hash_axioms;

/// The longest broadcast that is passed on.
pub const MAX_BROADCAST: usize = 1500;

/// The longest input that is passed on.
pub const MAX_INPUT: usize = 512;

/// Who is in charge of a topic, and the clients that listen to it.
pub struct TopicRoute {
    pub authority_shard: PeerAddr,
    pub clients: HashSet<u32>,
}

/// A `TopicRoute` with its clients as a set.
pub struct RouteView {
    pub authority: PeerAddr,
    pub clients: Set<u32>,
}

impl View for TopicRoute {
    type V = RouteView;

    open spec fn view(&self) -> RouteView {
        RouteView { authority: self.authority_shard, clients: self.clients@ }
    }
}

/// One topic and its route.
pub struct RouteEntry {
    pub topic: [u8; 32],
    pub route: TopicRoute,
}

/// The routes by topic. No topic occurs twice.
pub struct RouteTable {
    pub entries: Vec<RouteEntry>,
}

/// Whether two topics are the same.
fn same_topic(a: &[u8; 32], b: &[u8; 32]) -> (r: bool)
    ensures
        r == (a@ == b@),
{
    let mut i: usize = 0;
    while i < 32
        invariant
            i <= 32,
            forall|k: int| 0 <= k < i ==> a@[k] == b@[k],
        decreases 32 - i,
    {
        if a[i] != b[i] {
            return false;
        }
        i = i + 1;
    }
    proof {
        assert(a@ =~= b@);
    }
    true
}

impl RouteTable {
    pub open spec fn wf(self) -> bool {
        forall|i: int, j: int|
            0 <= i < j < self.entries@.len() ==> (#[trigger] self.entries@[i]).topic@ != (
            #[trigger] self.entries@[j]).topic@
    }

    pub open spec fn at(self, topic: Seq<u8>, i: int) -> bool {
        0 <= i < self.entries@.len() && self.entries@[i].topic@ == topic
    }
}

impl View for RouteTable {
    type V = Map<Seq<u8>, RouteView>;

    open spec fn view(&self) -> Map<Seq<u8>, RouteView> {
        Map::new(
            |topic: Seq<u8>| exists|i: int| self.at(topic, i),
            |topic: Seq<u8>| self.entries@[choose|i: int| self.at(topic, i)].route@,
        )
    }
}

impl RouteTable {
    /// What the table holds for the topic of an entry.
    proof fn lemma_entry(self, i: int)
        requires
            self.wf(),
            0 <= i < self.entries@.len(),
        ensures
            self@.contains_key(self.entries@[i].topic@),
            self@[self.entries@[i].topic@] == self.entries@[i].route@,
    {
        let topic = self.entries@[i].topic@;
        assert(self.at(topic, i));
        let k = choose|k: int| self.at(topic, k);
        assert(k == i) by {
            if k < i {
                assert(self.entries@[k].topic@ != self.entries@[i].topic@);
            } else if i < k {
                assert(self.entries@[i].topic@ != self.entries@[k].topic@);
            }
        }
    }

    /// The table after one route changed.
    proof fn lemma_updated(self, before: RouteTable, i: int)
        requires
            before.wf(),
            0 <= i < before.entries@.len(),
            self.entries@.len() == before.entries@.len(),
            self.entries@[i].topic@ == before.entries@[i].topic@,
            forall|k: int|
                0 <= k < before.entries@.len() && k != i ==> self.entries@[k] == before.entries@[k],
        ensures
            self.wf(),
            self@ == before@.insert(before.entries@[i].topic@, self.entries@[i].route@),
    {
        assert(self.wf()) by {
            assert forall|a: int, b: int| 0 <= a < b < self.entries@.len() implies (
            #[trigger] self.entries@[a]).topic@ != (#[trigger] self.entries@[b]).topic@ by {
                assert(before.entries@[a].topic@ != before.entries@[b].topic@);
            }
        }
        let expected = before@.insert(before.entries@[i].topic@, self.entries@[i].route@);
        assert forall|topic: Seq<u8>| #[trigger] self@.contains_key(topic) <==> expected.contains_key(
            topic,
        ) by {
            if self@.contains_key(topic) {
                let k = choose|k: int| self.at(topic, k);
                assert(before.at(topic, k));
            }
            if before@.contains_key(topic) {
                let k = choose|k: int| before.at(topic, k);
                assert(self.at(topic, k));
            }
            before.lemma_entry(i);
            assert(self.at(before.entries@[i].topic@, i));
        }
        assert forall|topic: Seq<u8>| #[trigger] self@.contains_key(topic) implies self@[topic]
            == expected[topic] by {
            let k = choose|k: int| self.at(topic, k);
            self.lemma_entry(k);
            before.lemma_entry(k);
        }
        assert(self@ =~= expected);
    }

    pub fn new() -> (r: RouteTable)
        ensures
            r.wf(),
            r@ == Map::<Seq<u8>, RouteView>::empty(),
    {
        let r: RouteTable = RouteTable { entries: Vec::new() };
        proof {
            assert(r@ =~= Map::empty());
        }
        r
    }

    /// Where a topic stands.
    fn find(&self, topic: &[u8; 32]) -> (r: Option<usize>)
        ensures
            r is Some <==> self@.contains_key(topic@),
            r matches Some(i) ==> i < self.entries@.len() && self.entries@[i as int].topic@ == topic@,
    {
        let mut i: usize = 0;
        while i < self.entries.len()
            invariant
                i <= self.entries@.len(),
                forall|k: int| 0 <= k < i ==> (#[trigger] self.entries@[k]).topic@ != topic@,
            decreases self.entries@.len() - i,
        {
            if same_topic(&self.entries[i].topic, topic) {
                proof {
                    assert(self.at(topic@, i as int));
                }
                return Some(i);
            }
            i = i + 1;
        }
        None
    }

    /// Who is in charge of a topic.
    pub fn authority(&self, topic: &[u8; 32]) -> (r: Option<PeerAddr>)
        requires
            self.wf(),
        ensures
            r == authority_of(self@, topic@),
    {
        match self.find(topic) {
            Some(i) => {
                proof {
                    self.lemma_entry(i as int);
                }
                Some(self.entries[i].route.authority_shard)
            },
            None => None,
        }
    }

    /// Puts another peer in charge of a topic that has a route. Whoever listens to it still does.
    fn reassign(&mut self, i: usize, src: PeerAddr)
        requires
            old(self).wf(),
            i < old(self).entries@.len(),
        ensures
            final(self).wf(),
            ({
                let topic = old(self).entries@[i as int].topic@;
                &&& old(self)@.contains_key(topic)
                &&& final(self)@ == old(self)@.insert(
                    topic,
                    RouteView { authority: src, ..old(self)@[topic] },
                )
            }),
    {
        let ghost before = *self;
        self.entries[i].route.authority_shard = src;
        proof {
            before.lemma_entry(i as int);
            self.lemma_updated(before, i as int);
        }
    }

    /// Puts a peer in charge of a topic that has no route, with its listeners.
    fn open_route(&mut self, topic: &[u8; 32], src: PeerAddr, clients: HashSet<u32>)
        requires
            old(self).wf(),
            !old(self)@.contains_key(topic@),
        ensures
            final(self).wf(),
            final(self)@ == old(self)@.insert(
                topic@,
                (RouteView { authority: src, clients: clients@ }),
            ),
    {
        let ghost before = *self;
        let ghost members = clients@;
        self.entries.push(
            RouteEntry { topic: *topic, route: TopicRoute { authority_shard: src, clients } },
        );
        proof {
            let n = before.entries@.len() as int;
            assert forall|k: int| 0 <= k < n implies (#[trigger] before.entries@[k]).topic@
                != topic@ by {
                before.lemma_entry(k);
            }
            assert(self.wf());
            let expected = before@.insert(
                topic@,
                RouteView { authority: src, clients: members },
            );
            assert forall|t: Seq<u8>| #[trigger] self@.contains_key(t)
                <==> expected.contains_key(t) by {
                if before@.contains_key(t) {
                    let k = choose|k: int| before.at(t, k);
                    assert(self.at(t, k));
                }
                if self@.contains_key(t) {
                    let k = choose|k: int| self.at(t, k);
                    if k < n {
                        assert(before.at(t, k));
                    }
                }
                assert(self.at(topic@, n));
            }
            assert forall|t: Seq<u8>| #[trigger] self@.contains_key(t) implies self@[t]
                == expected[t] by {
                let k = choose|k: int| self.at(t, k);
                self.lemma_entry(k);
                if k < n {
                    before.lemma_entry(k);
                }
            }
            assert(self@ =~= expected);
        }
    }

    /// Adds a listener to a topic that has a route.
    pub fn add_client(&mut self, topic: &[u8; 32], client_id: u32)
        requires
            old(self).wf(),
        ensures
            final(self).wf(),
            final(self)@ == listening(old(self)@, topic@, client_id),
    {
        let ghost before = *self;
        if let Some(i) = self.find(topic) {
            self.entries[i].route.clients.insert(client_id);
            proof {
                before.lemma_entry(i as int);
                self.lemma_updated(before, i as int);
            }
        }
    }

    /// Takes a listener from a topic.
    pub fn remove_client(&mut self, topic: &[u8; 32], client_id: u32)
        requires
            old(self).wf(),
        ensures
            final(self).wf(),
            final(self)@ == not_listening(old(self)@, topic@, client_id),
    {
        let ghost before = *self;
        if let Some(i) = self.find(topic) {
            self.entries[i].route.clients.remove(&client_id);
            proof {
                before.lemma_entry(i as int);
                self.lemma_updated(before, i as int);
            }
        }
    }
}

/// Who is in charge of a topic.
pub open spec fn authority_of(routes: Map<Seq<u8>, RouteView>, topic: Seq<u8>) -> Option<PeerAddr> {
    if routes.contains_key(topic) {
        Some(routes[topic].authority)
    } else {
        None
    }
}

/// Who listens to a topic.
pub open spec fn listeners(routes: Map<Seq<u8>, RouteView>, topic: Seq<u8>) -> Set<u32> {
    if routes.contains_key(topic) {
        routes[topic].clients
    } else {
        Set::empty()
    }
}

/// The routes with one more listener, where the topic has a route.
pub open spec fn listening(routes: Map<Seq<u8>, RouteView>, topic: Seq<u8>, client_id: u32) -> Map<
    Seq<u8>,
    RouteView,
> {
    if routes.contains_key(topic) {
        routes.insert(
            topic,
            RouteView { clients: routes[topic].clients.insert(client_id), ..routes[topic] },
        )
    } else {
        routes
    }
}

/// The routes without a listener of one topic.
pub open spec fn not_listening(
    routes: Map<Seq<u8>, RouteView>,
    topic: Seq<u8>,
    client_id: u32,
) -> Map<Seq<u8>, RouteView> {
    if routes.contains_key(topic) {
        routes.insert(
            topic,
            RouteView { clients: routes[topic].clients.remove(client_id), ..routes[topic] },
        )
    } else {
        routes
    }
}

/// A list of topics as a set.
pub open spec fn topic_set(topics: Seq<[u8; 32]>) -> Set<Seq<u8>> {
    topic_views(topics).to_set()
}

pub open spec fn topic_views(topics: Seq<[u8; 32]>) -> Seq<Seq<u8>> {
    topics.map_values(|topic: [u8; 32]| topic@)
}

/// A tag and what follows it.
pub open spec fn tagged(tag: u8, data: Seq<u8>) -> Seq<u8> {
    seq![tag] + data
}

fn build_tagged(tag: u8, data: &[u8]) -> (r: Vec<u8>)
    ensures
        r@ == tagged(tag, data@),
{
    let mut r: Vec<u8> = vec![tag];
    push_bytes(&mut r, data);
    proof {
        assert(r@ =~= tagged(tag, data@));
    }
    r
}

/// Everything the broker knows.
pub struct BrokerState {
    /// Where the clients are.
    pub client_addresses: HashMap<u32, PeerAddr>,
    /// The topics of each client. No topic occurs twice.
    pub client_to_topics: HashMap<u32, Vec<[u8; 32]>>,
    pub routes: RouteTable,
}

/// A `BrokerState` with its collections as maps and sets.
pub struct BrokerView {
    pub addresses: Map<u32, PeerAddr>,
    pub topics: Map<u32, Set<Seq<u8>>>,
    pub routes: Map<Seq<u8>, RouteView>,
}

impl View for BrokerState {
    type V = BrokerView;

    open spec fn view(&self) -> BrokerView {
        BrokerView {
            addresses: self.client_addresses@,
            topics: self.client_to_topics@.map_values(|topics: Vec<[u8; 32]>| topic_set(topics@)),
            routes: self.routes@,
        }
    }
}

impl BrokerView {
    /// The topics a client has subscribed to.
    pub open spec fn topics_of(self, client_id: u32) -> Set<Seq<u8>> {
        if self.topics.contains_key(client_id) {
            self.topics[client_id]
        } else {
            Set::empty()
        }
    }

    /// The clients that have subscribed to a topic.
    pub open spec fn subscribers(self, topic: Seq<u8>) -> Set<u32> {
        Set::new(|client_id: u32| self.topics_of(client_id).contains(topic))
    }

    /// Where a client is.
    pub open spec fn address_of(self, client_id: u32) -> Option<PeerAddr> {
        if self.addresses.contains_key(client_id) {
            Some(self.addresses[client_id])
        } else {
            None
        }
    }

    /// The broker after a client subscribed to a topic. It listens at once where someone is in
    /// charge of the topic.
    pub open spec fn with_subscription(self, client_id: u32, topic: Seq<u8>) -> BrokerView {
        BrokerView {
            topics: self.topics.insert(client_id, self.topics_of(client_id).insert(topic)),
            routes: listening(self.routes, topic, client_id),
            ..self
        }
    }

    /// The broker after a client unsubscribed from a topic.
    pub open spec fn without_subscription(self, client_id: u32, topic: Seq<u8>) -> BrokerView {
        BrokerView {
            topics: if self.topics.contains_key(client_id) {
                self.topics.insert(client_id, self.topics[client_id].remove(topic))
            } else {
                self.topics
            },
            routes: not_listening(self.routes, topic, client_id),
            ..self
        }
    }

    /// The broker after a peer took charge of a topic. Whoever listened to the topic still does;
    /// where nobody was in charge of it, everyone who has subscribed to it begins to listen.
    pub open spec fn with_authority(self, topic: Seq<u8>, src: PeerAddr) -> BrokerView {
        let clients = if self.routes.contains_key(topic) {
            self.routes[topic].clients
        } else {
            self.subscribers(topic)
        };
        BrokerView {
            routes: self.routes.insert(topic, RouteView { authority: src, clients }),
            ..self
        }
    }

    /// The broker after a client left: it listens to none of its topics.
    pub open spec fn without_client(self, client_id: u32) -> BrokerView {
        BrokerView {
            addresses: self.addresses.remove(client_id),
            topics: self.topics.remove(client_id),
            routes: Map::new(
                |topic: Seq<u8>| self.routes.contains_key(topic),
                |topic: Seq<u8>|
                    if self.topics_of(client_id).contains(topic) {
                        RouteView {
                            clients: self.routes[topic].clients.remove(client_id),
                            ..self.routes[topic]
                        }
                    } else {
                        self.routes[topic]
                    },
            ),
        }
    }

    /// The broker after a packet from `src`.
    pub open spec fn after(self, packet: Seq<u8>, src: PeerAddr) -> BrokerView {
        if packet.len() < 1 {
            self
        } else {
            let data = packet.skip(1);
            if packet[0] == TAG_SUBSCRIBE && data.len() >= 36 {
                self.with_subscription(u32_at(data, 0), data.subrange(4, 36))
            } else if packet[0] == TAG_UNSUBSCRIBE && data.len() >= 36 {
                self.without_subscription(u32_at(data, 0), data.subrange(4, 36))
            } else if packet[0] == TAG_CLIENT_INPUT && data.len() >= 4 {
                BrokerView { addresses: self.addresses.insert(u32_at(data, 0), src), ..self }
            } else if packet[0] == TAG_CLAIM_AUTHORITY && data.len() >= 32 {
                self.with_authority(data.subrange(0, 32), src)
            } else if packet[0] == TAG_DISCONNECT && data.len() >= 4 {
                self.without_client(u32_at(data, 0))
            } else {
                self
            }
        }
    }

    /// The broadcast to each of the clients whose address is known.
    pub open spec fn broadcasts(self, clients: Seq<u32>, game_data: Seq<u8>) -> Seq<DatagramView>
        decreases clients.len(),
    {
        if clients.len() == 0 {
            Seq::empty()
        } else {
            self.broadcasts(clients.drop_last(), game_data) + deliver(
                self.address_of(clients.last()),
                broadcast_message(game_data),
            )
        }
    }

    /// A message to whoever is in charge of each of the topics.
    pub open spec fn forwards(self, topics: Seq<Seq<u8>>, message: Seq<u8>) -> Seq<DatagramView>
        decreases topics.len(),
    {
        if topics.len() == 0 {
            Seq::empty()
        } else {
            self.forwards(topics.drop_last(), message) + deliver(
                authority_of(self.routes, topics.last()),
                message,
            )
        }
    }

    /// What is sent for `0x08`: the payload, to whoever is in charge of the topic.
    pub open spec fn routed(self, data: Seq<u8>) -> Seq<DatagramView> {
        if data.len() < 32 {
            Seq::empty()
        } else {
            deliver(authority_of(self.routes, data.subrange(0, 32)), data.skip(32))
        }
    }

    /// What is sent for `0x14`: the signal, as an input of client zero, to the spatial server.
    pub open spec fn ready_passed_on(self, data: Seq<u8>) -> Seq<DatagramView> {
        if data.len() < 4 {
            Seq::empty()
        } else {
            deliver(
                authority_of(self.routes, spatial_topic()),
                client_message(TAG_CLIENT_INPUT, 0) + tagged(TAG_READY, data),
            )
        }
    }

    /// What is sent for `0x11`: the alert, to the client.
    pub open spec fn alert_passed_on(self, data: Seq<u8>) -> Seq<DatagramView> {
        if data.len() < 4 {
            Seq::empty()
        } else {
            deliver(self.address_of(u32_at(data, 0)), tagged(TAG_CROSSING_ALERT, data))
        }
    }

    /// What is sent for `0x12`: the change, to the client, the old shard and the new shard.
    pub open spec fn change_passed_on(self, data: Seq<u8>) -> Seq<DatagramView> {
        if data.len() < 12 {
            Seq::empty()
        } else {
            let message = tagged(TAG_AUTHORITY_CHANGE, data);
            deliver(self.address_of(u32_at(data, 0)), message) + deliver(
                authority_of(self.routes, shard_topic(u32_at(data, 4))),
                message,
            ) + deliver(authority_of(self.routes, shard_topic(u32_at(data, 8))), message)
        }
    }

    /// Whether `0x03` is passed on: the data are complete and short enough, and come from
    /// whoever is in charge of the topic.
    pub open spec fn publishes(self, data: Seq<u8>, src: PeerAddr) -> bool {
        &&& data.len() >= 34
        &&& data.len() >= 34 + u16_at(data, 32)
        &&& authority_of(self.routes, data.subrange(0, 32)) == Some(src)
        &&& 3 + u16_at(data, 32) <= MAX_BROADCAST
    }

    /// Whether these datagrams are what is sent for `0x03`: the game data to every listener of
    /// the topic, in some order.
    pub open spec fn published(
        self,
        data: Seq<u8>,
        src: PeerAddr,
        out: Seq<DatagramView>,
    ) -> bool {
        if self.publishes(data, src) {
            exists|order: Seq<u32>| #[trigger]
                enumerates(order, listeners(self.routes, data.subrange(0, 32))) && out
                    == self.broadcasts(order, data.subrange(34, 34 + u16_at(data, 32)))
        } else {
            out == Seq::<DatagramView>::empty()
        }
    }

    /// Whether these datagrams are a message to whoever is in charge of a topic of the client,
    /// in some order.
    pub open spec fn forwarded(
        self,
        client_id: u32,
        message: Seq<u8>,
        out: Seq<DatagramView>,
    ) -> bool {
        exists|order: Seq<Seq<u8>>| #[trigger]
            enumerates(order, self.topics_of(client_id)) && out == self.forwards(order, message)
    }

    /// Whether these datagrams are what is sent for `0x05`: the input, unless it is too long,
    /// to whoever is in charge of a topic of the client.
    pub open spec fn input_passed_on(self, data: Seq<u8>, out: Seq<DatagramView>) -> bool {
        if data.len() >= 4 && 1 + data.len() <= MAX_INPUT {
            self.forwarded(u32_at(data, 0), tagged(TAG_CLIENT_INPUT, data), out)
        } else {
            out == Seq::<DatagramView>::empty()
        }
    }

    /// Whether these datagrams are what is sent for `0x07`: a notice to whoever is in charge
    /// of a topic of the client.
    pub open spec fn leave_passed_on(self, data: Seq<u8>, out: Seq<DatagramView>) -> bool {
        if data.len() >= 4 {
            self.forwarded(
                u32_at(data, 0),
                client_message(TAG_DISCONNECT, u32_at(data, 0)),
                out,
            )
        } else {
            out == Seq::<DatagramView>::empty()
        }
    }

    /// Whether these datagrams are what the broker sends for a packet from `src`.
    pub open spec fn answers(
        self,
        packet: Seq<u8>,
        src: PeerAddr,
        out: Seq<DatagramView>,
    ) -> bool {
        if packet.len() < 1 {
            out == Seq::<DatagramView>::empty()
        } else {
            let data = packet.skip(1);
            if packet[0] == TAG_PUBLISH {
                self.published(data, src, out)
            } else if packet[0] == TAG_CLIENT_INPUT {
                self.input_passed_on(data, out)
            } else if packet[0] == TAG_DISCONNECT {
                self.leave_passed_on(data, out)
            } else if packet[0] == TAG_ROUTE_TO_TOPIC {
                out == self.routed(data)
            } else if packet[0] == TAG_CROSSING_ALERT {
                out == self.alert_passed_on(data)
            } else if packet[0] == TAG_AUTHORITY_CHANGE {
                out == self.change_passed_on(data)
            } else if packet[0] == TAG_READY {
                out == self.ready_passed_on(data)
            } else {
                out == Seq::<DatagramView>::empty()
            }
        }
    }
}

impl BrokerState {
    pub open spec fn wf(self) -> bool {
        &&& self.routes.wf()
        &&& forall|client_id: u32| #[trigger]
            self.client_to_topics@.contains_key(client_id) ==> topic_views(
                self.client_to_topics@[client_id]@,
            ).no_duplicates()
    }

    pub fn new() -> (r: BrokerState)
        ensures
            r.wf(),
            r@ == (BrokerView {
                addresses: Map::empty(),
                topics: Map::empty(),
                routes: Map::empty(),
            }),
    {
        let r: BrokerState = BrokerState {
            client_addresses: HashMap::new(),
            client_to_topics: HashMap::new(),
            routes: RouteTable::new(),
        };
        proof {
            assert(r@.topics =~= Map::empty());
        }
        r
    }

    fn address(&self, client_id: u32) -> (r: Option<PeerAddr>)
        ensures
            r == self@.address_of(client_id),
    {
        match self.client_addresses.get(&client_id) {
            Some(address) => Some(*address),
            None => None,
        }
    }
}

/// Whether a list holds a topic.
fn holds_topic(topics: &Vec<[u8; 32]>, topic: &[u8; 32]) -> (r: bool)
    ensures
        r == topic_views(topics@).contains(topic@),
{
    let mut i: usize = 0;
    while i < topics.len()
        invariant
            i <= topics@.len(),
            forall|k: int| 0 <= k < i ==> topic_views(topics@)[k] != topic@,
        decreases topics@.len() - i,
    {
        if same_topic(&topics[i], topic) {
            proof {
                assert(topic_views(topics@)[i as int] == topic@);
            }
            return true;
        }
        i = i + 1;
    }
    false
}

/// The list without a topic.
fn drop_topic(topics: &Vec<[u8; 32]>, topic: &[u8; 32]) -> (r: Vec<[u8; 32]>)
    requires
        topic_views(topics@).no_duplicates(),
    ensures
        topic_views(r@).no_duplicates(),
        topic_set(r@) == topic_set(topics@).remove(topic@),
{
    let mut r: Vec<[u8; 32]> = Vec::new();
    let mut i: usize = 0;
    let ghost all = topic_views(topics@);
    proof {
        assert(topic_set(r@) =~= all.take(0).to_set().remove(topic@));
    }
    while i < topics.len()
        invariant
            i <= topics@.len(),
            all == topic_views(topics@),
            all.no_duplicates(),
            topic_views(r@).no_duplicates(),
            topic_set(r@) == all.take(i as int).to_set().remove(topic@),
        decreases topics@.len() - i,
    {
        let ghost before = topic_views(r@);
        proof {
            assert(all.take(i + 1) =~= all.take(i as int).push(all[i as int]));
            all.take(i as int).lemma_push_to_set_commute(all[i as int]);
        }
        if !same_topic(&topics[i], topic) {
            r.push(topics[i]);
            proof {
                assert(topic_views(r@) =~= before.push(all[i as int]));
                before.lemma_push_to_set_commute(all[i as int]);
                assert(!before.contains(all[i as int])) by {
                    if before.contains(all[i as int]) {
                        assert(before.to_set().contains(all[i as int]));
                        assert(all.take(i as int).contains(all[i as int]));
                    }
                }
            }
        }
        proof {
            assert(topic_set(r@) =~= all.take(i + 1).to_set().remove(topic@));
        }
        i = i + 1;
    }
    proof {
        assert(all.take(i as int) =~= all);
    }
    r
}

/// `0x08`: passes a payload on to whoever is in charge of a topic.
pub fn handle_route_to_topic(state: &BrokerState, data: &[u8]) -> (out: Vec<Datagram>)
    requires
        state.wf(),
    ensures
        sent(out@) == state@.routed(data@),
{
    let mut out: Vec<Datagram> = nothing();
    if data.len() >= 32 {
        let topic: [u8; 32] = read_topic(data, 0);
        let mut payload: Vec<u8> = Vec::new();
        push_bytes(&mut payload, slice_subrange(data, 32, data.len()));
        proof {
            assert(payload@ =~= data@.skip(32));
        }
        push_delivery(&mut out, state.routes.authority(&topic), payload);
        proof {
            assert(sent(out@) =~= state@.routed(data@));
        }
    }
    out
}

/// `0x14`: tells the spatial server that a shard is ready.
pub fn handle_server_ready(state: &BrokerState, data: &[u8]) -> (out: Vec<Datagram>)
    requires
        state.wf(),
    ensures
        sent(out@) == state@.ready_passed_on(data@),
{
    let mut out: Vec<Datagram> = nothing();
    if data.len() >= 4 {
        let topic: [u8; 32] = string_to_topic("spatial_updates");
        let mut message: Vec<u8> = build_client_message(TAG_CLIENT_INPUT, 0);
        message.push(TAG_READY);
        push_bytes(&mut message, data);
        proof {
            assert(message@ =~= client_message(TAG_CLIENT_INPUT, 0) + tagged(TAG_READY, data@));
        }
        push_delivery(&mut out, state.routes.authority(&topic), message);
        proof {
            assert(sent(out@) =~= state@.ready_passed_on(data@));
        }
    }
    out
}

/// `0x11`: tells a client that it is near a border.
pub fn handle_crossing_alert(state: &BrokerState, data: &[u8]) -> (out: Vec<Datagram>)
    ensures
        sent(out@) == state@.alert_passed_on(data@),
{
    let mut out: Vec<Datagram> = nothing();
    if data.len() >= 4 {
        let client_id: u32 = read_u32(data, 0);
        push_delivery(&mut out, state.address(client_id), build_tagged(TAG_CROSSING_ALERT, data));
        proof {
            assert(sent(out@) =~= state@.alert_passed_on(data@));
        }
    }
    out
}

/// `0x12`: tells a client, its old shard and its new shard that it passes to the new one.
pub fn handle_authority_change(state: &BrokerState, data: &[u8]) -> (out: Vec<Datagram>)
    requires
        state.wf(),
    ensures
        sent(out@) == state@.change_passed_on(data@),
{
    let mut out: Vec<Datagram> = nothing();
    if data.len() >= 12 {
        let client_id: u32 = read_u32(data, 0);
        let old_topic: [u8; 32] = topic_for_shard(read_u32(data, 4));
        let new_topic: [u8; 32] = topic_for_shard(read_u32(data, 8));
        push_delivery(&mut out, state.address(client_id), build_tagged(TAG_AUTHORITY_CHANGE, data));
        push_delivery(
            &mut out,
            state.routes.authority(&old_topic),
            build_tagged(TAG_AUTHORITY_CHANGE, data),
        );
        push_delivery(
            &mut out,
            state.routes.authority(&new_topic),
            build_tagged(TAG_AUTHORITY_CHANGE, data),
        );
        proof {
            assert(sent(out@) =~= state@.change_passed_on(data@));
        }
    }
    out
}

/// `0x01`: a client begins to listen to a topic.
pub fn handle_subscribe(state: &mut BrokerState, data: &[u8])
    requires
        old(state).wf(),
    ensures
        final(state).wf(),
        final(state)@ == (if data@.len() < 36 {
            old(state)@
        } else {
            old(state)@.with_subscription(u32_at(data@, 0), data@.subrange(4, 36))
        }),
{
    let ghost before = state@;
    if data.len() >= 36 {
        let client_id: u32 = read_u32(data, 0);
        let topic: [u8; 32] = read_topic(data, 4);
        let mut topics: Vec<[u8; 32]> = match state.client_to_topics.remove(&client_id) {
            Some(topics) => topics,
            None => Vec::new(),
        };
        let ghost listed = topic_views(topics@);
        proof {
            assert(topic_set(topics@) =~= before.topics_of(client_id));
        }
        if !holds_topic(&topics, &topic) {
            topics.push(topic);
            proof {
                assert(topic_views(topics@) =~= listed.push(topic@));
                listed.lemma_push_to_set_commute(topic@);
            }
        } else {
            proof {
                assert(listed.to_set().insert(topic@) =~= listed.to_set());
            }
        }
        state.client_to_topics.insert(client_id, topics);
        state.routes.add_client(&topic, client_id);
        proof {
            assert(state@.topics =~= before.topics.insert(
                client_id,
                before.topics_of(client_id).insert(topic@),
            ));
        }
    }
}

/// `0x02`: a client ceases to listen to a topic.
pub fn handle_unsubscribe(state: &mut BrokerState, data: &[u8])
    requires
        old(state).wf(),
    ensures
        final(state).wf(),
        final(state)@ == (if data@.len() < 36 {
            old(state)@
        } else {
            old(state)@.without_subscription(u32_at(data@, 0), data@.subrange(4, 36))
        }),
{
    let ghost before = state@;
    if data.len() >= 36 {
        let client_id: u32 = read_u32(data, 0);
        let topic: [u8; 32] = read_topic(data, 4);
        if let Some(topics) = state.client_to_topics.remove(&client_id) {
            let fewer: Vec<[u8; 32]> = drop_topic(&topics, &topic);
            let ghost fewer_set = topic_set(fewer@);
            state.client_to_topics.insert(client_id, fewer);
            proof {
                assert(state@.topics =~= before.topics.insert(client_id, fewer_set));
            }
        } else {
            proof {
                assert(state@.topics =~= before.topics);
            }
        }
        state.routes.remove_client(&topic, client_id);
    }
}

/// The clients that have subscribed to a topic.
fn subscribers_of(state: &BrokerState, topic: &[u8; 32]) -> (found: HashSet<u32>)
    ensures
        found@ == state@.subscribers(topic@),
{
    let mut found: HashSet<u32> = HashSet::new();
    let ghost here = |client_id: u32| state@.topics_of(client_id).contains(topic@);
    proof {
        let clients = spec_keys_iter(&state.client_to_topics).remaining().unref();
        assert(found@ =~= clients.take(0).to_set().filter(here));
    }
    for client_id in it: state.client_to_topics.keys()
        invariant
            it.seq().unref().to_set() == state.client_to_topics@.dom(),
            here == (|client_id: u32| state@.topics_of(client_id).contains(topic@)),
            found@ == it.seq().unref().take(it.index()).to_set().filter(here),
    {
        proof {
            let clients = it.seq().unref();
            assert(clients.take(it.index() + 1) =~= clients.take(it.index()).push(
                clients[it.index()],
            ));
            clients.take(it.index()).lemma_push_to_set_commute(clients[it.index()]);
            assert(clients.to_set().contains(clients[it.index()]));
        }
        if let Some(topics) = state.client_to_topics.get(client_id) {
            proof {
                assert(state@.topics_of(*client_id) == topic_set(topics@));
                assert(topic_set(topics@).contains(topic@) <==> topic_views(topics@).contains(
                    topic@,
                ));
            }
            if holds_topic(topics, topic) {
                found.insert(*client_id);
            }
        }
        proof {
            assert(found@ =~= it.seq().unref().take(it.index() + 1).to_set().filter(here));
        }
    }
    proof {
        let clients = spec_keys_iter(&state.client_to_topics).remaining().unref();
        assert(clients.take(clients.len() as int) =~= clients);
        assert(found@ =~= state@.subscribers(topic@));
    }
    found
}

/// `0x06`: a server takes charge of a topic.
pub fn handle_register_shard(state: &mut BrokerState, data: &[u8], src: PeerAddr)
    requires
        old(state).wf(),
    ensures
        final(state).wf(),
        final(state)@ == (if data@.len() < 32 {
            old(state)@
        } else {
            old(state)@.with_authority(data@.subrange(0, 32), src)
        }),
{
    if data.len() >= 32 {
        let topic: [u8; 32] = read_topic(data, 0);
        match state.routes.find(&topic) {
            Some(i) => state.routes.reassign(i, src),
            None => {
                let clients: HashSet<u32> = subscribers_of(state, &topic);
                state.routes.open_route(&topic, src, clients);
            },
        }
    }
}

/// The broadcasts to the listeners of a route.
fn broadcast_to(state: &BrokerState, clients: &HashSet<u32>, game_data: &[u8]) -> (out: Vec<
    Datagram,
>)
    requires
        game_data@.len() <= u16::MAX,
    ensures
        exists|order: Seq<u32>| #[trigger]
            enumerates(order, clients@) && sent(out@) == state@.broadcasts(order, game_data@),
{
    let mut out: Vec<Datagram> = nothing();
    let ghost order = spec_hash_keys_iter(clients).remaining().unref();
    proof {
        assert(order.take(0) =~= Seq::empty());
    }
    for client_id in it: clients.iter()
        invariant
            game_data@.len() <= u16::MAX,
            sent(out@) == state@.broadcasts(it.seq().unref().take(it.index()), game_data@),
    {
        proof {
            let all = it.seq().unref();
            assert(all.take(it.index() + 1).drop_last() =~= all.take(it.index()));
            assert(all.take(it.index() + 1).last() == *client_id);
        }
        push_delivery(&mut out, state.address(*client_id), build_broadcast(game_data));
    }
    proof {
        assert(order.take(order.len() as int) =~= order);
        assert(enumerates(order, clients@));
    }
    out
}

/// `0x03`: passes game data on to everyone who listens to a topic.
pub fn handle_publish(state: &BrokerState, data: &[u8], src: PeerAddr) -> (out: Vec<Datagram>)
    requires
        state.wf(),
    ensures
        state@.published(data@, src, sent(out@)),
{
    if data.len() < 34 {
        return nothing();
    }
    let topic: [u8; 32] = read_topic(data, 0);
    let payload_len: usize = read_u16(data, 32) as usize;
    if data.len() < 34 + payload_len {
        return nothing();
    }
    let game_data: &[u8] = slice_subrange(data, 34, 34 + payload_len);
    match state.routes.find(&topic) {
        Some(i) => {
            let route: &TopicRoute = &state.routes.entries[i].route;
            proof {
                state.routes.lemma_entry(i as int);
            }
            // Only the server in charge of a topic may publish to it.
            if src != route.authority_shard {
                return nothing();
            }
            if 3 + payload_len > MAX_BROADCAST {
                return nothing();
            }
            let out: Vec<Datagram> = broadcast_to(state, &route.clients, game_data);
            proof {
                assert(state@.publishes(data@, src));
                assert(listeners(state@.routes, data@.subrange(0, 32)) == route.clients@);
                assert(game_data@ == data@.subrange(34, 34 + u16_at(data@, 32)));
            }
            out
        },
        None => {
            proof {
                assert(!state@.publishes(data@, src));
            }
            nothing()
        },
    }
}

/// A message to whoever is in charge of each of the topics.
fn forward_to(state: &BrokerState, topics: &Vec<[u8; 32]>, message: &Vec<u8>) -> (out: Vec<Datagram>)
    requires
        state.wf(),
    ensures
        sent(out@) == state@.forwards(topic_views(topics@), message@),
{
    let mut out: Vec<Datagram> = nothing();
    let ghost all = topic_views(topics@);
    let mut i: usize = 0;
    proof {
        assert(all.take(0) =~= Seq::empty());
    }
    while i < topics.len()
        invariant
            i <= topics@.len(),
            state.wf(),
            all == topic_views(topics@),
            sent(out@) == state@.forwards(all.take(i as int), message@),
        decreases topics@.len() - i,
    {
        proof {
            assert(all.take(i + 1).drop_last() =~= all.take(i as int));
            assert(all.take(i + 1).last() == topics@[i as int]@);
        }
        let copy: Vec<u8> = message.clone();
        proof {
            assert(copy@ =~= message@);
        }
        push_delivery(&mut out, state.routes.authority(&topics[i]), copy);
        i = i + 1;
    }
    proof {
        assert(all.take(i as int) =~= all);
    }
    out
}

/// A message to whoever is in charge of a topic of the client.
fn forward_for(state: &BrokerState, client_id: u32, message: &Vec<u8>) -> (out: Vec<Datagram>)
    requires
        state.wf(),
    ensures
        state@.forwarded(client_id, message@, sent(out@)),
{
    match state.client_to_topics.get(&client_id) {
        Some(topics) => {
            let out: Vec<Datagram> = forward_to(state, topics, message);
            proof {
                assert(enumerates(topic_views(topics@), state@.topics_of(client_id)));
            }
            out
        },
        None => {
            let out: Vec<Datagram> = nothing();
            proof {
                let order = Seq::<Seq<u8>>::empty();
                assert(order.to_set() =~= Set::empty());
                assert(enumerates(order, state@.topics_of(client_id)));
                assert(sent(out@) =~= state@.forwards(order, message@));
            }
            out
        },
    }
}

/// `0x05`: takes note of where a client is, and passes its input on.
pub fn handle_client_input(state: &mut BrokerState, data: &[u8], src: PeerAddr) -> (out: Vec<
    Datagram,
>)
    requires
        old(state).wf(),
    ensures
        final(state).wf(),
        final(state)@ == (if data@.len() < 4 {
            old(state)@
        } else {
            BrokerView {
                addresses: old(state)@.addresses.insert(u32_at(data@, 0), src),
                ..old(state)@
            }
        }),
        old(state)@.input_passed_on(data@, sent(out@)),
{
    let ghost before = state@;
    if data.len() < 4 {
        return nothing();
    }
    let client_id: u32 = read_u32(data, 0);
    state.client_addresses.insert(client_id, src);
    if data.len() > MAX_INPUT - 1 {
        return nothing();
    }
    let message: Vec<u8> = build_tagged(TAG_CLIENT_INPUT, data);
    let out: Vec<Datagram> = forward_for(state, client_id, &message);
    proof {
        let order = choose|order: Seq<Seq<u8>>| #[trigger]
            enumerates(order, state@.topics_of(client_id)) && sent(out@) == state@.forwards(
                order,
                message@,
            );
        lemma_forwards_by_routes(state@, before, order, message@);
        assert(enumerates(order, before.topics_of(client_id)));
    }
    out
}

/// What is forwarded depends on the routes alone.
proof fn lemma_forwards_by_routes(
    a: BrokerView,
    b: BrokerView,
    topics: Seq<Seq<u8>>,
    message: Seq<u8>,
)
    requires
        a.routes == b.routes,
    ensures
        a.forwards(topics, message) == b.forwards(topics, message),
    decreases topics.len(),
{
    if topics.len() > 0 {
        lemma_forwards_by_routes(a, b, topics.drop_last(), message);
    }
}

/// The routes after a client ceased to listen to several topics.
spec fn not_listening_to(
    routes: Map<Seq<u8>, RouteView>,
    topics: Seq<Seq<u8>>,
    client_id: u32,
) -> Map<Seq<u8>, RouteView>
    decreases topics.len(),
{
    if topics.len() == 0 {
        routes
    } else {
        not_listening(
            not_listening_to(routes, topics.drop_last(), client_id),
            topics.last(),
            client_id,
        )
    }
}

proof fn lemma_not_listening_to(
    routes: Map<Seq<u8>, RouteView>,
    topics: Seq<Seq<u8>>,
    client_id: u32,
)
    ensures
        ({
            let after = not_listening_to(routes, topics, client_id);
            &&& after.dom() == routes.dom()
            &&& forall|topic: Seq<u8>| #[trigger]
                routes.contains_key(topic) ==> after[topic] == (if topics.contains(topic) {
                    RouteView {
                        clients: routes[topic].clients.remove(client_id),
                        ..routes[topic]
                    }
                } else {
                    routes[topic]
                })
        }),
    decreases topics.len(),
{
    if topics.len() > 0 {
        let fewer = topics.drop_last();
        lemma_not_listening_to(routes, fewer, client_id);
        let mid = not_listening_to(routes, fewer, client_id);
        let after = not_listening_to(routes, topics, client_id);
        assert(after.dom() =~= routes.dom());
        assert(topics =~= fewer.push(topics.last()));
        assert forall|topic: Seq<u8>| #[trigger] routes.contains_key(topic) implies after[topic]
            == (if topics.contains(topic) {
            RouteView { clients: routes[topic].clients.remove(client_id), ..routes[topic] }
        } else {
            routes[topic]
        }) by {
            assert(topics.contains(topic) <==> fewer.contains(topic) || topic == topics.last()) by {
                if fewer.contains(topic) {
                    let k = choose|k: int| 0 <= k < fewer.len() && fewer[k] == topic;
                    assert(topics[k] == topic);
                }
                assert(topics[topics.len() - 1] == topics.last());
            }
            assert(routes[topic].clients.remove(client_id).remove(client_id)
                =~= routes[topic].clients.remove(client_id));
        }
    }
}

/// `0x07`: tells the servers that a client left, and forgets it.
pub fn handle_client_disconnect(state: &mut BrokerState, data: &[u8]) -> (out: Vec<Datagram>)
    requires
        old(state).wf(),
    ensures
        final(state).wf(),
        final(state)@ == (if data@.len() < 4 {
            old(state)@
        } else {
            old(state)@.without_client(u32_at(data@, 0))
        }),
        old(state)@.leave_passed_on(data@, sent(out@)),
{
    let ghost before = state@;
    if data.len() < 4 {
        return nothing();
    }
    let client_id: u32 = read_u32(data, 0);
    let message: Vec<u8> = build_client_message(TAG_DISCONNECT, client_id);
    let out: Vec<Datagram> = forward_for(state, client_id, &message);
    if let Some(topics) = state.client_to_topics.remove(&client_id) {
        let ghost all = topic_views(topics@);
        let mut i: usize = 0;
        proof {
            assert(all.take(0) =~= Seq::empty());
        }
        while i < topics.len()
            invariant
                i <= topics@.len(),
                state.wf(),
                all == topic_views(topics@),
                state@.topics == before.topics.remove(client_id),
                state@.addresses == before.addresses,
                state@.routes == not_listening_to(before.routes, all.take(i as int), client_id),
            decreases topics@.len() - i,
        {
            proof {
                assert(all.take(i + 1).drop_last() =~= all.take(i as int));
                assert(all.take(i + 1).last() == topics@[i as int]@);
            }
            state.routes.remove_client(&topics[i], client_id);
            i = i + 1;
        }
        proof {
            assert(all.take(i as int) =~= all);
            lemma_not_listening_to(before.routes, all, client_id);
            assert(all.to_set() == before.topics_of(client_id));
            assert forall|topic: Seq<u8>| #[trigger] all.contains(topic) <==> before.topics_of(
                client_id,
            ).contains(topic) by {}
            assert(state@.routes =~= before.without_client(client_id).routes);
        }
    } else {
        proof {
            assert(state@.topics =~= before.topics.remove(client_id));
            assert(state@.routes =~= before.without_client(client_id).routes);
        }
    }
    state.client_addresses.remove(&client_id);
    out
}

/// Acts on a packet from `src` and returns what is to be sent.
pub fn handle_packet(state: &mut BrokerState, packet: &[u8], src: PeerAddr) -> (out: Vec<Datagram>)
    requires
        old(state).wf(),
    ensures
        final(state).wf(),
        final(state)@ == old(state)@.after(packet@, src),
        old(state)@.answers(packet@, src, sent(out@)),
{
    if packet.len() < 1 {
        return nothing();
    }
    let tag: u8 = packet[0];
    let data: &[u8] = slice_subrange(packet, 1, packet.len());
    proof {
        assert(data@ =~= packet@.skip(1));
    }
    if tag == TAG_SUBSCRIBE {
        handle_subscribe(state, data);
        nothing()
    } else if tag == TAG_UNSUBSCRIBE {
        handle_unsubscribe(state, data);
        nothing()
    } else if tag == TAG_PUBLISH {
        handle_publish(state, data, src)
    } else if tag == TAG_CLIENT_INPUT {
        handle_client_input(state, data, src)
    } else if tag == TAG_CLAIM_AUTHORITY {
        handle_register_shard(state, data, src);
        nothing()
    } else if tag == TAG_DISCONNECT {
        handle_client_disconnect(state, data)
    } else if tag == TAG_ROUTE_TO_TOPIC {
        handle_route_to_topic(state, data)
    } else if tag == TAG_CROSSING_ALERT {
        handle_crossing_alert(state, data)
    } else if tag == TAG_AUTHORITY_CHANGE {
        handle_authority_change(state, data)
    } else if tag == TAG_READY {
        handle_server_ready(state, data)
    } else {
        nothing()
    }
}

} // verus!
