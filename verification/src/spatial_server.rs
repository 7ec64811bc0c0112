//! The spatial server: it follows the clients' positions and tells the broker what follows
//! from them.

use crate::binary32::{lemma_value_of_parts, magnitude_value, Binary32};
use crate::geometry::{Rect, Vec2, ZERO};
use crate::grid::{law_grid_rectangles_tile, lemma_around_on_grid, on_grid, Grid};
use crate::quadtree::QuadTree;
use crate::spatial::{
    populations,
    views,
    ActionView,
    PositionUpdate,
    ServiceView,
    SpatialAction,
    SpatialService,
};
use crate::topics::string_to_topic;
use crate::wire::{
    authority_message,
    build_authority,
    build_claim,
    build_crossing,
    build_scale,
    build_subscription,
    claim_message,
    contents,
    crossing_message,
    number_list,
    orchestrator_topic,
    push_message,
    read_number_list,
    read_u32,
    route_message,
    scale_payload,
    spatial_topic,
    subscription_message,
    u32_at,
    TAG_CLIENT_INPUT,
    TAG_DISCONNECT,
    TAG_POSITION,
    TAG_READY,
    TAG_SCALE_DOWN,
    TAG_SCALE_UP,
    TAG_SERVER_CRASH,
    TAG_SUBSCRIBE,
    TAG_UNSUBSCRIBE,
};
use std::collections::HashMap;
use vstd::arithmetic::power2::{lemma_pow2_adds, pow2};
use vstd::prelude::*;

verus! {

broadcast use vstd::std_specs::hash::group_hash_axioms;

/// Bit pattern of `2000.0`, the side of the world.
pub const WORLD_SIDE: u32 = 0x44fa_0000;

/// Bit pattern of `50.0`, how near a shard a client must be to listen to it.
pub const MARGIN: u32 = 0x4248_0000;

/// How often the world can be divided.
pub const MAX_DEPTH: u8 = 4;

/// The number of the shard that is the whole world.
pub const ROOT_SHARD: u32 = 0;

/// The world: a square around the origin.
pub open spec fn world() -> Rect {
    Rect::around(
        Vec2 { x: Binary32 { bits: ZERO }, y: Binary32 { bits: ZERO } },
        Vec2 { x: Binary32 { bits: WORLD_SIDE }, y: Binary32 { bits: WORLD_SIDE } },
    )
}

/// What a packet tells the server.
#[derive(Clone, Debug)]
pub enum SpatialEvent {
    /// Nothing the server acts on.
    Ignored,
    /// A client is at a position.
    Position { update: PositionUpdate },
    /// The server of a shard is ready.
    Ready { shard_id: u32 },
    /// The server of these shards is gone.
    Crash { shards: Vec<u32> },
    /// A client is gone.
    Disconnect { client_id: u32 },
}

/// A `SpatialEvent` with its contents as a sequence.
pub enum EventView {
    Ignored,
    Position { update: PositionUpdate },
    Ready { shard_id: u32 },
    Crash { shards: Seq<u32> },
    Disconnect { client_id: u32 },
}

impl View for SpatialEvent {
    type V = EventView;

    open spec fn view(&self) -> EventView {
        match *self {
            SpatialEvent::Ignored => EventView::Ignored,
            SpatialEvent::Position { update } => EventView::Position { update },
            SpatialEvent::Ready { shard_id } => EventView::Ready { shard_id },
            SpatialEvent::Crash { shards } => EventView::Crash { shards: shards@ },
            SpatialEvent::Disconnect { client_id } => EventView::Disconnect { client_id },
        }
    }
}

/// What a packet means. A packet that is too short for its tag means nothing.
pub open spec fn event_of(packet: Seq<u8>) -> EventView {
    if packet.len() >= 6 && packet[0] == TAG_CLIENT_INPUT {
        if packet[5] == TAG_POSITION && packet.len() >= 14 {
            EventView::Position {
                update: PositionUpdate {
                    client_id: u32_at(packet, 1),
                    x: Binary32 { bits: u32_at(packet, 6) },
                    y: Binary32 { bits: u32_at(packet, 10) },
                },
            }
        } else if packet[5] == TAG_READY && packet.len() >= 10 {
            EventView::Ready { shard_id: u32_at(packet, 6) }
        } else if packet[5] == TAG_SERVER_CRASH && packet.len() >= 10 {
            EventView::Crash { shards: number_list(packet, 6) }
        } else {
            EventView::Ignored
        }
    } else if packet.len() >= 5 && packet[0] == TAG_DISCONNECT {
        EventView::Disconnect { client_id: u32_at(packet, 1) }
    } else {
        EventView::Ignored
    }
}

/// Reads a packet.
pub fn read_event(packet: &[u8]) -> (r: SpatialEvent)
    ensures
        r@ == event_of(packet@),
{
    let len: usize = packet.len();
    if len < 1 {
        return SpatialEvent::Ignored;
    }
    let tag: u8 = packet[0];
    if tag == TAG_CLIENT_INPUT {
        if len < 6 {
            return SpatialEvent::Ignored;
        }
        let client_id: u32 = read_u32(packet, 1);
        let sub_tag: u8 = packet[5];
        if sub_tag == TAG_POSITION {
            if len < 14 {
                return SpatialEvent::Ignored;
            }
            let x: Binary32 = Binary32::from_bits(read_u32(packet, 6));
            let y: Binary32 = Binary32::from_bits(read_u32(packet, 10));
            return SpatialEvent::Position { update: PositionUpdate { client_id, x, y } };
        } else if sub_tag == TAG_READY {
            if len >= 10 {
                return SpatialEvent::Ready { shard_id: read_u32(packet, 6) };
            }
        } else if sub_tag == TAG_SERVER_CRASH {
            if len >= 10 {
                return SpatialEvent::Crash { shards: read_number_list(packet, 6) };
            }
        }
    } else if tag == TAG_DISCONNECT {
        if len >= 5 {
            return SpatialEvent::Disconnect { client_id: read_u32(packet, 1) };
        }
    }
    SpatialEvent::Ignored
}

pub struct SpatialServer {
    pub service: SpatialService,
    /// The shards that are not ready, each with the shard that stands in for it.
    pub pending_ready: HashMap<u32, u32>,
    /// The shards that each parent still waits for.
    pub parent_to_children: HashMap<u32, Vec<u32>>,
}

/// A `SpatialServer` with its collections as maps.
pub struct ServerView {
    pub service: ServiceView,
    pub pending: Map<u32, u32>,
    pub children: Map<u32, Seq<u32>>,
}

impl View for SpatialServer {
    type V = ServerView;

    open spec fn view(&self) -> ServerView {
        ServerView {
            service: self.service@,
            pending: self.pending_ready@,
            children: self.parent_to_children@.map_values(|shards: Vec<u32>| shards@),
        }
    }
}

/// The message that carries an action to the broker.
pub open spec fn action_message(action: ActionView) -> Seq<u8> {
    match action {
        ActionView::Subscribe { client_id, topic } => subscription_message(
            TAG_SUBSCRIBE,
            client_id,
            topic,
        ),
        ActionView::Unsubscribe { client_id, topic } => subscription_message(
            TAG_UNSUBSCRIBE,
            client_id,
            topic,
        ),
        ActionView::CrossingAlert { client_id, shards } => crossing_message(client_id, shards),
        ActionView::AuthorityChange { client_id, old_shard, new_shard } => authority_message(
            client_id,
            old_shard,
            new_shard,
        ),
        ActionView::ScaleUp { parent_shard, new_shards } => route_message(
            orchestrator_topic(),
            scale_payload(TAG_SCALE_UP, parent_shard, new_shards),
        ),
        ActionView::ScaleDown { parent_shard, old_shards } => route_message(
            orchestrator_topic(),
            scale_payload(TAG_SCALE_DOWN, parent_shard, old_shards),
        ),
    }
}

/// The messages of a list of actions.
pub open spec fn action_messages(actions: Seq<ActionView>) -> Seq<Seq<u8>> {
    actions.map_values(|action: ActionView| action_message(action))
}

/// The waiting shards when more of them wait, each behind `parent`.
pub open spec fn awaiting(pending: Map<u32, u32>, shards: Seq<u32>, parent: u32) -> Map<u32, u32> {
    pending.union_prefer_right(Map::new(|shard: u32| shards.contains(shard), |shard: u32| parent))
}

/// The list without every occurrence of `gone`.
pub open spec fn all_but(list: Seq<u32>, gone: u32) -> Seq<u32> {
    list.filter(other_than(gone))
}

/// Whatever is not `gone`.
pub open spec fn other_than(gone: u32) -> spec_fn(u32) -> bool {
    |x: u32| x != gone
}

impl ServerView {
    /// The server after it took note of one action: whoever is asked for new shards waits for
    /// them, whoever is asked to merge waits for the merged shard.
    pub open spec fn noted(self, action: ActionView) -> ServerView {
        match action {
            ActionView::ScaleUp { parent_shard, new_shards } => ServerView {
                pending: awaiting(self.pending, new_shards, parent_shard),
                children: self.children.insert(parent_shard, new_shards),
                ..self
            },
            ActionView::ScaleDown { parent_shard, old_shards } => ServerView {
                pending: self.pending.insert(parent_shard, parent_shard),
                children: self.children.insert(parent_shard, seq![parent_shard]),
                ..self
            },
            _ => self,
        }
    }

    /// The server after it took note of the actions in order.
    pub open spec fn noted_all(self, actions: Seq<ActionView>) -> ServerView
        decreases actions.len(),
    {
        if actions.len() == 0 {
            self
        } else {
            self.noted_all(actions.drop_last()).noted(actions.last())
        }
    }

    /// The children that a parent still waits for once `shard_id` is ready.
    pub open spec fn still_waiting(self, parent: u32, shard_id: u32) -> Seq<u32> {
        all_but(self.children[parent], shard_id)
    }

    /// The server after a shard became ready. A parent that waits for nobody else is done with
    /// its merge, or else with its split.
    pub open spec fn after_ready(self, shard_id: u32) -> ServerView {
        if !self.pending.contains_key(shard_id) {
            self
        } else {
            let parent = self.pending[shard_id];
            let pending = self.pending.remove(shard_id);
            if !self.children.contains_key(parent) {
                ServerView { pending, ..self }
            } else if self.still_waiting(parent, shard_id).len() > 0 {
                ServerView {
                    pending,
                    children: self.children.insert(parent, self.still_waiting(parent, shard_id)),
                    ..self
                }
            } else {
                ServerView {
                    pending,
                    children: self.children.remove(parent),
                    service: if self.service.merges.contains(parent) {
                        ServiceView { merges: self.service.merges.remove(parent), ..self.service }
                    } else {
                        ServiceView { splits: self.service.splits.remove(parent), ..self.service }
                    },
                }
            }
        }
    }

    /// What is to be done about an event, in order.
    pub open spec fn actions(self, event: EventView) -> Seq<ActionView> {
        match event {
            EventView::Position { update } => self.service.update_actions(update, self.pending),
            EventView::Crash { shards } => self.service.rescue_actions(shards),
            EventView::Disconnect { client_id } => self.service.without_client(
                client_id,
            ).merge_actions(),
            _ => Seq::empty(),
        }
    }

    /// The server after an event.
    pub open spec fn after(self, event: EventView) -> ServerView {
        match event {
            EventView::Ignored => self,
            EventView::Position { update } => ServerView {
                service: self.service.after_update(update, self.pending),
                ..self
            }.noted_all(self.actions(event)),
            EventView::Ready { shard_id } => self.after_ready(shard_id),
            EventView::Crash { shards } => ServerView {
                service: self.service.after_crash(shards),
                ..self
            },
            EventView::Disconnect { client_id } => ServerView {
                service: self.service.without_client(client_id).after_merge(),
                ..self
            }.noted_all(self.actions(event)),
        }
    }

    /// Whether there are shard numbers left for what an event divides.
    pub open spec fn has_room(self, event: EventView) -> bool {
        event matches EventView::Position { update } ==> self.service.divides(update, self.pending)
            ==> self.service.next + 4 <= u32::MAX
    }
}

/// The world can be divided as often as the depth allows, and its parts always cover it.
pub proof fn law_world_tiles()
    ensures
        world().divisible_to(MAX_DEPTH as nat),
        world().covered_to(MAX_DEPTH as nat),
{
    let zero = Binary32 { bits: ZERO };
    let side = Binary32 { bits: WORLD_SIDE };
    // 2000.0 is worth 8000 steps of 2^147 units.
    lemma_value_of_parts(137, 0xfa_0000);
    assert(side.magnitude() == 136 * 0x80_0000 + 0xfa_0000);
    vstd::arithmetic::power2::lemma2_to64();
    lemma_pow2_adds(11, 136);
    assert(0xfa_0000 * pow2(136) == 8000 * pow2(147)) by (nonlinear_arith)
        requires
            pow2(147) == 2048 * pow2(136),
    ;
    assert(on_grid(side, 8000, 147));
    assert(magnitude_value(0) == 0);
    assert(on_grid(zero, 0, 147));
    lemma_around_on_grid(
        Vec2 { x: zero, y: zero },
        0,
        0,
        Vec2 { x: side, y: side },
        4000,
        4000,
        147,
    );
    law_grid_rectangles_tile(
        world(),
        Grid { x0: -4000, x1: 4000, y0: -4000, y1: 4000 },
        147,
        250,
        250,
        4,
    );
}

impl SpatialServer {
    /// The world before anyone is in it: one shard, numbered zero.
    pub fn new() -> (r: SpatialServer)
        ensures
            r@.service == (ServiceView {
                tree: QuadTree::leaf(world(), 0, MAX_DEPTH, Some(ROOT_SHARD)),
                margin: Binary32 { bits: MARGIN },
                primary: Map::empty(),
                subscribed: Map::empty(),
                next: 1,
                splits: Set::empty(),
                merges: Set::empty(),
            }),
            r@.pending == Map::<u32, u32>::empty(),
            r@.children == Map::<u32, Seq<u32>>::empty(),
            r@.service.wf(),
    {
        let zero: Binary32 = Binary32 { bits: ZERO };
        let side: Binary32 = Binary32 { bits: WORLD_SIDE };
        let bounds: Rect = Rect::from_center_size(Vec2::new(zero, zero), Vec2::new(side, side));
        let mut quadtree: QuadTree = QuadTree::new(bounds, 0, MAX_DEPTH);
        let mut next_id: u32 = ROOT_SHARD;
        quadtree.assign_shards(&mut next_id);
        proof {
            law_world_tiles();
            assert(magnitude_value(0) == 0);
        }
        let r: SpatialServer = SpatialServer {
            service: SpatialService::new(quadtree, Binary32 { bits: MARGIN }, next_id),
            pending_ready: HashMap::new(),
            parent_to_children: HashMap::new(),
        };
        proof {
            assert(r@.children =~= Map::empty());
        }
        r
    }

    /// The message by which the server takes charge of its topic.
    pub fn registration() -> (r: Vec<u8>)
        ensures
            r@ == claim_message(spatial_topic()),
    {
        let topic: [u8; 32] = string_to_topic("spatial_updates");
        build_claim(&topic)
    }

    /// Waits for new shards behind a parent.
    fn await_shards(&mut self, parent: u32, shards: &Vec<u32>)
        ensures
            final(self)@ == (ServerView {
                pending: awaiting(old(self)@.pending, shards@, parent),
                ..old(self)@
            }),
    {
        let ghost before = self@;
        let mut i: usize = 0;
        proof {
            assert(self@.pending =~= awaiting(before.pending, shards@.take(0), parent));
        }
        while i < shards.len()
            invariant
                i <= shards@.len(),
                self@ == (ServerView {
                    pending: awaiting(before.pending, shards@.take(i as int), parent),
                    ..before
                }),
            decreases shards@.len() - i,
        {
            self.pending_ready.insert(shards[i], parent);
            proof {
                let part = shards@.take(i as int);
                let more = shards@.take(i + 1);
                assert(more =~= part.push(shards@[i as int]));
                assert forall|shard: u32| #[trigger] more.contains(shard) <==> part.contains(shard)
                    || shard == shards@[i as int] by {
                    if part.contains(shard) {
                        let k = choose|k: int| 0 <= k < part.len() && part[k] == shard;
                        assert(more[k] == shard);
                    }
                    assert(more[i as int] == shards@[i as int]);
                }
                assert(self@.pending =~= awaiting(before.pending, more, parent));
            }
            i = i + 1;
        }
        proof {
            assert(shards@.take(i as int) =~= shards@);
        }
    }

    /// Takes note of one action and returns the message for it.
    fn perform(&mut self, action: &SpatialAction) -> (message: Vec<u8>)
        ensures
            final(self)@ == old(self)@.noted(action@),
            message@ == action_message(action@),
    {
        let ghost before = self@;
        match action {
            SpatialAction::Subscribe { client_id, topic } => build_subscription(
                TAG_SUBSCRIBE,
                *client_id,
                topic,
            ),
            SpatialAction::Unsubscribe { client_id, topic } => build_subscription(
                TAG_UNSUBSCRIBE,
                *client_id,
                topic,
            ),
            SpatialAction::CrossingAlert { client_id, shards } => build_crossing(
                *client_id,
                shards,
            ),
            SpatialAction::AuthorityChange { client_id, old_shard, new_shard } => build_authority(
                *client_id,
                *old_shard,
                *new_shard,
            ),
            SpatialAction::ScaleUp { parent_shard, new_shards } => {
                self.await_shards(*parent_shard, new_shards);
                let children: Vec<u32> = new_shards.clone();
                proof {
                    assert(children@ =~= new_shards@);
                }
                self.parent_to_children.insert(*parent_shard, children);
                proof {
                    assert(self@.children =~= before.children.insert(*parent_shard, new_shards@));
                }
                build_scale(TAG_SCALE_UP, *parent_shard, new_shards)
            },
            SpatialAction::ScaleDown { parent_shard, old_shards } => {
                self.pending_ready.insert(*parent_shard, *parent_shard);
                let children: Vec<u32> = vec![*parent_shard];
                proof {
                    assert(children@ =~= seq![*parent_shard]);
                }
                self.parent_to_children.insert(*parent_shard, children);
                proof {
                    assert(self@.children =~= before.children.insert(
                        *parent_shard,
                        seq![*parent_shard],
                    ));
                }
                build_scale(TAG_SCALE_DOWN, *parent_shard, old_shards)
            },
        }
    }

    /// Takes note of the actions in order and returns the messages for them.
    fn perform_all(&mut self, actions: &Vec<SpatialAction>) -> (messages: Vec<Vec<u8>>)
        ensures
            final(self)@ == old(self)@.noted_all(views(actions@)),
            contents(messages@) == action_messages(views(actions@)),
    {
        let ghost before = self@;
        let ghost all = views(actions@);
        let mut messages: Vec<Vec<u8>> = Vec::new();
        let mut i: usize = 0;
        proof {
            assert(all.take(0) =~= Seq::empty());
            assert(contents(messages@) =~= action_messages(all.take(0)));
        }
        while i < actions.len()
            invariant
                i <= actions@.len(),
                all == views(actions@),
                self@ == before.noted_all(all.take(i as int)),
                contents(messages@) == action_messages(all.take(i as int)),
            decreases actions@.len() - i,
        {
            proof {
                let more = all.take(i + 1);
                assert(more.drop_last() =~= all.take(i as int));
                assert(more.last() == actions@[i as int]@);
                assert(action_messages(more) =~= action_messages(all.take(i as int)).push(
                    action_message(more.last()),
                ));
            }
            let message: Vec<u8> = self.perform(&actions[i]);
            push_message(&mut messages, message);
            i = i + 1;
        }
        proof {
            assert(all.take(i as int) =~= all);
        }
        messages
    }

    /// Takes note that the server of a shard is ready.
    fn mark_ready(&mut self, shard_id: u32)
        ensures
            final(self)@ == old(self)@.after_ready(shard_id),
    {
        let ghost before = self@;
        let parent: u32 = match self.pending_ready.get(&shard_id) {
            Some(parent) => *parent,
            None => {
                return ;
            },
        };
        self.pending_ready.remove(&shard_id);
        if let Some(children) = self.parent_to_children.remove(&parent) {
            let waiting: Vec<u32> = without(&children, shard_id);
            if waiting.len() > 0 {
                let ghost still = waiting@;
                self.parent_to_children.insert(parent, waiting);
                proof {
                    assert(self@.children =~= before.children.insert(parent, still));
                }
            } else {
                if self.service.pending_merges.contains(&parent) {
                    self.service.pending_merges.remove(&parent);
                } else {
                    self.service.pending_splits.remove(&parent);
                }
                proof {
                    assert(self@.children =~= before.children.remove(parent));
                }
            }
        } else {
            proof {
                assert(self@.children =~= before.children);
                assert(self@ == before.after_ready(shard_id));
            }
        }
    }

    /// Acts on an event and returns the messages for the broker.
    pub fn handle_event(&mut self, event: SpatialEvent) -> (messages: Vec<Vec<u8>>)
        requires
            old(self)@.service.wf(),
            old(self)@.has_room(event@),
        ensures
            final(self)@ == old(self)@.after(event@),
            contents(messages@) == action_messages(old(self)@.actions(event@)),
            final(self)@.service.wf(),
    {
        let ghost before = self@;
        match event {
            SpatialEvent::Position { update } => {
                proof {
                    if let Some(shard) = before.service.crowded(update, before.pending) {
                        before.service.tree.lemma_leaf_divisible(shard);
                    }
                }
                let actions: Vec<SpatialAction> = self.service.handle_position_update(
                    &update,
                    &self.pending_ready,
                );
                proof {
                    lemma_noted_all_keeps_service(self@, views(actions@));
                }
                self.perform_all(&actions)
            },
            SpatialEvent::Ready { shard_id } => {
                self.mark_ready(shard_id);
                let messages: Vec<Vec<u8>> = Vec::new();
                proof {
                    assert(contents(messages@) =~= action_messages(before.actions(event@)));
                }
                messages
            },
            SpatialEvent::Crash { shards } => {
                let actions: Vec<SpatialAction> = self.service.handle_server_crash(&shards);
                proof {
                    lemma_rescues_need_no_note(self@, before.service, shards@);
                }
                self.perform_all(&actions)
            },
            SpatialEvent::Disconnect { client_id } => {
                self.service.remove_client(client_id);
                proof {
                    let left = before.service.without_client(client_id);
                    left.tree.lemma_merge_defined(populations(left.primary), 1);
                }
                let actions: Vec<SpatialAction> = self.service.check_merges();
                proof {
                    lemma_noted_all_keeps_service(self@, views(actions@));
                }
                self.perform_all(&actions)
            },
            SpatialEvent::Ignored => {
                let messages: Vec<Vec<u8>> = Vec::new();
                proof {
                    assert(contents(messages@) =~= action_messages(before.actions(event@)));
                }
                messages
            },
        }
    }

    /// Acts on a packet and returns the messages for the broker.
    pub fn handle_packet(&mut self, packet: &[u8]) -> (messages: Vec<Vec<u8>>)
        requires
            old(self)@.service.wf(),
            old(self)@.has_room(event_of(packet@)),
        ensures
            final(self)@ == old(self)@.after(event_of(packet@)),
            contents(messages@) == action_messages(old(self)@.actions(event_of(packet@))),
            final(self)@.service.wf(),
    {
        self.handle_event(read_event(packet))
    }

    /// Whether there are shard numbers left for what an event divides.
    pub fn can_number(&self, event: &SpatialEvent) -> (r: bool)
        ensures
            r == self@.has_room(event@),
    {
        match event {
            SpatialEvent::Position { update } => self.service.next_shard_id <= u32::MAX - 4
                || !self.service.will_divide(update, &self.pending_ready),
            _ => true,
        }
    }
}

/// Taking note of actions does not touch the service.
pub(crate) proof fn lemma_noted_all_keeps_service(server: ServerView, actions: Seq<ActionView>)
    ensures
        server.noted_all(actions).service == server.service,
    decreases actions.len(),
{
    if actions.len() > 0 {
        lemma_noted_all_keeps_service(server, actions.drop_last());
    }
}

/// Changes of authority leave nothing to take note of.
proof fn lemma_authority_needs_no_note(server: ServerView, actions: Seq<ActionView>)
    requires
        forall|i: int| 0 <= i < actions.len() ==> (#[trigger] actions[i]) is AuthorityChange,
    ensures
        server.noted_all(actions) == server,
    decreases actions.len(),
{
    if actions.len() > 0 {
        assert(actions.last() == actions[actions.len() - 1]);
        assert forall|i: int| 0 <= i < actions.drop_last().len() implies (
        #[trigger] actions.drop_last()[i]) is AuthorityChange by {
            assert(actions.drop_last()[i] == actions[i]);
        }
        lemma_authority_needs_no_note(server, actions.drop_last());
    }
}

proof fn lemma_rescues_need_no_note(server: ServerView, service: ServiceView, crashed: Seq<u32>)
    ensures
        server.noted_all(service.rescue_actions(crashed)) == server,
{
    lemma_authority_needs_no_note(server, service.rescue_actions(crashed));
}

/// The list without every occurrence of `gone`.
fn without(list: &Vec<u32>, gone: u32) -> (r: Vec<u32>)
    ensures
        r@ == all_but(list@, gone),
{
    let mut r: Vec<u32> = Vec::new();
    let mut i: usize = 0;
    proof {
        reveal(Seq::filter);
        assert(r@ =~= all_but(list@.take(0), gone));
    }
    while i < list.len()
        invariant
            i <= list@.len(),
            r@ == all_but(list@.take(i as int), gone),
        decreases list@.len() - i,
    {
        proof {
            reveal(Seq::filter);
            assert(list@.take(i + 1).drop_last() =~= list@.take(i as int));
            assert(list@.take(i + 1).last() == list@[i as int]);
        }
        if list[i] != gone {
            r.push(list[i]);
        }
        i = i + 1;
    }
    proof {
        assert(list@.take(i as int) =~= list@);
    }
    r
}

} // verus!
