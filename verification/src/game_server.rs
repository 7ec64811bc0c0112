//! What a dedicated server does about the packets it receives.

use crate::binary32::Binary32;
use crate::client::{law_broadcast_is_read_back, read_snapshot, snapshot};
use crate::dedicated_server::{
    broadcast_players,
    game_data,
    Authority,
    PlayerInput,
    PlayerState,
    ServerConfig,
};
use crate::geometry::ZERO;
use crate::text::texts;
use crate::topics::{lemma_shard_label, shard_label, shard_name, shard_topic, string_to_topic};
use crate::wire::{
    authority_message,
    broadcast_message,
    build_claim,
    build_ready,
    claim_message,
    law_u32_round_trip,
    le32,
    number_list,
    read_number_list,
    read_u32,
    ready_message,
    u32_at,
    TAG_ASSIGN_SHARDS,
    TAG_AUTHORITY_CHANGE,
    TAG_BROADCAST,
    TAG_CLIENT_INPUT,
    TAG_DISCONNECT,
    TAG_POSITION,
    TAG_SHUTDOWN,
};
use std::collections::HashSet;
use vstd::prelude::*;

verus! {

broadcast use vstd::std_specs::hash::group_hash_axioms;

/// The clients whose players are in the game.
pub struct PlayerRegistry {
    pub players: HashSet<u32>,
}

pub struct GameServer {
    pub config: ServerConfig,
    pub registry: PlayerRegistry,
}

/// The part of a `GameServer` that packets change.
pub struct GameView {
    pub shards: Seq<Seq<char>>,
    pub players: Set<u32>,
}

impl View for GameServer {
    type V = GameView;

    open spec fn view(&self) -> GameView {
        GameView { shards: texts(self.config.shards@), players: self.registry.players@ }
    }
}

/// What is known of a packet besides its bytes.
#[derive(Clone, Copy, Debug)]
pub struct Context {
    /// Who decides where the player of the packet's client is, where the game shows it.
    pub seen: Option<Authority>,
    /// The input that the payload holds, where it is one.
    pub input: Option<PlayerInput>,
    /// Whether the payload is a request to join.
    pub join: bool,
}

/// What is to be done about a packet.
#[derive(Clone, Debug)]
pub enum Effect {
    /// The server ends.
    Exit,
    /// A message goes to the broker.
    Send { data: Vec<u8> },
    /// A player enters the game.
    Spawn { state: PlayerState, authority: Authority },
    /// A player is put somewhere.
    Place { state: PlayerState },
    /// A player wants to go somewhere.
    Steer { client_id: u32, input: PlayerInput },
    /// It changes who decides where a player is.
    SetAuthority { client_id: u32, authority: Authority },
    /// A player leaves the game.
    Despawn { client_id: u32 },
}

/// An `Effect` with its bytes as a sequence.
pub enum EffectView {
    Exit,
    Send { data: Seq<u8> },
    Spawn { state: PlayerState, authority: Authority },
    Place { state: PlayerState },
    Steer { client_id: u32, input: PlayerInput },
    SetAuthority { client_id: u32, authority: Authority },
    Despawn { client_id: u32 },
}

impl View for Effect {
    type V = EffectView;

    open spec fn view(&self) -> EffectView {
        match *self {
            Effect::Exit => EffectView::Exit,
            Effect::Send { data } => EffectView::Send { data: data@ },
            Effect::Spawn { state, authority } => EffectView::Spawn { state, authority },
            Effect::Place { state } => EffectView::Place { state },
            Effect::Steer { client_id, input } => EffectView::Steer { client_id, input },
            Effect::SetAuthority { client_id, authority } => EffectView::SetAuthority {
                client_id,
                authority,
            },
            Effect::Despawn { client_id } => EffectView::Despawn { client_id },
        }
    }
}

/// Effects with their bytes as sequences.
pub open spec fn effect_views(effects: Seq<Effect>) -> Seq<EffectView> {
    effects.map_values(|e: Effect| e@)
}

/// A player and two coordinates at an offset.
pub open spec fn player_at(packet: Seq<u8>, at: int) -> PlayerState {
    PlayerState {
        client_id: u32_at(packet, at),
        x: Binary32 { bits: u32_at(packet, at + 4) },
        y: Binary32 { bits: u32_at(packet, at + 8) },
    }
}

/// The players of a broadcast from another server.
pub open spec fn synced_players(packet: Seq<u8>) -> Seq<PlayerState> {
    snapshot(packet)
}

/// The clients of some players.
pub open spec fn clients(players: Seq<PlayerState>) -> Set<u32> {
    players.map_values(|p: PlayerState| p.client_id).to_set()
}

/// What another server's players lead to: those who are known are put where they are, the
/// others enter the game as shadows.
pub open spec fn sync_effects(known: Set<u32>, players: Seq<PlayerState>) -> Seq<EffectView>
    decreases players.len(),
{
    if players.len() == 0 {
        Seq::empty()
    } else {
        let earlier = players.drop_last();
        let state = players.last();
        sync_effects(known, earlier).push(
            if known.union(clients(earlier)).contains(state.client_id) {
                EffectView::Place { state }
            } else {
                EffectView::Spawn { state, authority: Authority::Shadow }
            },
        )
    }
}

/// The messages by which a server takes charge of shards that it is given.
pub open spec fn takeover_effects(shards: Seq<u32>) -> Seq<EffectView>
    decreases shards.len(),
{
    if shards.len() == 0 {
        Seq::empty()
    } else {
        takeover_effects(shards.drop_last()).push(
            EffectView::Send { data: claim_message(shard_topic(shards.last())) },
        ).push(EffectView::Send { data: ready_message(shards.last()) })
    }
}

/// The names of some shards.
pub open spec fn shard_labels(shards: Seq<u32>) -> Seq<Seq<char>> {
    shards.map_values(|id: u32| shard_label(id))
}

/// Whether a client's input is a position.
pub open spec fn is_position(packet: Seq<u8>) -> bool {
    packet.len() >= 6 && packet[5] == TAG_POSITION
}

/// Where the client of an input says that it is.
pub open spec fn position_of(packet: Seq<u8>) -> PlayerState {
    PlayerState {
        client_id: u32_at(packet, 1),
        x: Binary32 { bits: u32_at(packet, 6) },
        y: Binary32 { bits: u32_at(packet, 10) },
    }
}

/// A player at the origin.
pub open spec fn at_origin(client_id: u32) -> PlayerState {
    PlayerState { client_id, x: Binary32 { bits: ZERO }, y: Binary32 { bits: ZERO } }
}

impl GameView {
    /// Whether the server runs a shard.
    pub open spec fn runs(self, shard_id: u32) -> bool {
        self.shards.contains(shard_label(shard_id))
    }

    /// The client who enters the game with an input: one who is not known, and who says where
    /// it is or asks to join.
    pub open spec fn entering(self, packet: Seq<u8>, context: Context) -> Option<u32> {
        let client_id = u32_at(packet, 1);
        if self.players.contains(client_id) {
            None
        } else if is_position(packet) {
            if packet.len() >= 14 {
                Some(client_id)
            } else {
                None
            }
        } else if context.join {
            Some(client_id)
        } else {
            None
        }
    }

    /// What a client's input leads to.
    pub open spec fn input_effects(self, packet: Seq<u8>, context: Context) -> Seq<EffectView> {
        let client_id = u32_at(packet, 1);
        let known = self.players.contains(client_id);
        if is_position(packet) {
            if packet.len() < 14 {
                Seq::empty()
            } else if !known {
                seq![
                    EffectView::Spawn { state: position_of(packet), authority: Authority::Shadow },
                ]
            } else if context.seen == Some(Authority::Shadow) {
                seq![EffectView::Place { state: position_of(packet) }]
            } else {
                Seq::empty()
            }
        } else if known {
            match context.input {
                Some(input) => seq![EffectView::Steer { client_id, input }],
                None => if context.join {
                    seq![EffectView::SetAuthority { client_id, authority: Authority::Owned }]
                } else {
                    Seq::empty()
                },
            }
        } else if context.join {
            seq![EffectView::Spawn { state: at_origin(client_id), authority: Authority::Owned }]
        } else {
            Seq::empty()
        }
    }

    /// What a change of authority leads to: whoever leaves the server's shards becomes a
    /// shadow, whoever enters them is its own.
    pub open spec fn authority_effects(self, packet: Seq<u8>) -> Seq<EffectView> {
        let client_id = u32_at(packet, 1);
        let hosts_old = self.runs(u32_at(packet, 5));
        let hosts_new = self.runs(u32_at(packet, 9));
        if !self.players.contains(client_id) {
            Seq::empty()
        } else if hosts_new {
            seq![EffectView::SetAuthority { client_id, authority: Authority::Owned }]
        } else if hosts_old {
            seq![EffectView::SetAuthority { client_id, authority: Authority::Shadow }]
        } else {
            Seq::empty()
        }
    }

    /// What a packet leads to.
    pub open spec fn effects(self, packet: Seq<u8>, context: Context) -> Seq<EffectView> {
        if packet.len() < 1 {
            Seq::empty()
        } else if packet[0] == TAG_SHUTDOWN {
            seq![EffectView::Exit]
        } else if packet[0] == TAG_ASSIGN_SHARDS && packet.len() >= 5 {
            takeover_effects(number_list(packet, 1))
        } else if packet[0] == TAG_BROADCAST {
            sync_effects(self.players, synced_players(packet))
        } else if packet[0] == TAG_CLIENT_INPUT && packet.len() >= 5 {
            self.input_effects(packet, context)
        } else if packet[0] == TAG_DISCONNECT && packet.len() >= 5 {
            if self.players.contains(u32_at(packet, 1)) {
                seq![EffectView::Despawn { client_id: u32_at(packet, 1) }]
            } else {
                Seq::empty()
            }
        } else if packet[0] == TAG_AUTHORITY_CHANGE && packet.len() >= 13 {
            self.authority_effects(packet)
        } else {
            Seq::empty()
        }
    }

    /// The server after a packet.
    pub open spec fn after(self, packet: Seq<u8>, context: Context) -> GameView {
        if packet.len() < 1 {
            self
        } else if packet[0] == TAG_BROADCAST {
            GameView { players: self.players.union(clients(synced_players(packet))), ..self }
        } else if packet.len() < 5 {
            self
        } else if packet[0] == TAG_ASSIGN_SHARDS {
            GameView { shards: self.shards + shard_labels(number_list(packet, 1)), ..self }
        } else if packet[0] == TAG_CLIENT_INPUT {
            match self.entering(packet, context) {
                Some(client_id) => GameView { players: self.players.insert(client_id), ..self },
                None => self,
            }
        } else if packet[0] == TAG_DISCONNECT {
            GameView { players: self.players.remove(u32_at(packet, 1)), ..self }
        } else {
            self
        }
    }
}

/// Adds one effect at the end.
fn push_effect(effects: &mut Vec<Effect>, effect: Effect)
    ensures
        effect_views(final(effects)@) == effect_views(old(effects)@).push(effect@),
{
    let ghost before = effects@;
    effects.push(effect);
    proof {
        assert(effect_views(effects@) =~= effect_views(before).push(effect@));
    }
}

/// A list of no effects.
fn no_effects() -> (r: Vec<Effect>)
    ensures
        effect_views(r@) == Seq::<EffectView>::empty(),
{
    let r: Vec<Effect> = Vec::new();
    proof {
        assert(effect_views(r@) =~= Seq::empty());
    }
    r
}

/// One effect.
fn just(effect: Effect) -> (r: Vec<Effect>)
    ensures
        effect_views(r@) == seq![effect@],
{
    let mut r: Vec<Effect> = no_effects();
    push_effect(&mut r, effect);
    proof {
        assert(effect_views(r@) =~= seq![effect@]);
    }
    r
}

impl GameServer {
    /// A server without players.
    pub fn new(config: ServerConfig) -> (r: GameServer)
        ensures
            r@ == (GameView { shards: texts(config.shards@), players: Set::empty() }),
            r@.players.finite(),
            r.config == config,
    {
        GameServer { config, registry: PlayerRegistry { players: HashSet::new() } }
    }

    /// How many players are in the game.
    pub fn player_count(&self) -> (r: usize)
        ensures
            r == self@.players.len(),
    {
        self.registry.players.len()
    }

    /// Whether a client's player is in the game.
    pub fn knows(&self, client_id: u32) -> (r: bool)
        ensures
            r == self@.players.contains(client_id),
    {
        self.registry.players.contains(&client_id)
    }

    /// Takes charge of the shards that a packet assigns.
    fn take_over(&mut self, packet: &[u8]) -> (effects: Vec<Effect>)
        requires
            packet@.len() >= 5,
        ensures
            effect_views(effects@) == takeover_effects(number_list(packet@, 1)),
            final(self)@ == (GameView {
                shards: old(self)@.shards + shard_labels(number_list(packet@, 1)),
                ..old(self)@
            }),
            final(self).config == (ServerConfig {
                shards: final(self).config.shards,
                ..old(self).config
            }),
            old(self).config.shards_fit() ==> final(self).config.shards_fit(),
    {
        let ghost before = self@;
        let ghost config = self.config;
        let shards: Vec<u32> = read_number_list(packet, 1);
        let mut effects: Vec<Effect> = no_effects();
        let mut i: usize = 0;
        proof {
            assert(shards@.take(0) =~= Seq::empty());
            assert(self@.shards =~= before.shards + shard_labels(shards@.take(0)));
        }
        while i < shards.len()
            invariant
                i <= shards@.len(),
                effect_views(effects@) == takeover_effects(shards@.take(i as int)),
                self@.shards == before.shards + shard_labels(shards@.take(i as int)),
                self@.players == before.players,
                self.config == (ServerConfig { shards: self.config.shards, ..config }),
                config.shards_fit() ==> self.config.shards_fit(),
            decreases shards@.len() - i,
        {
            let id: u32 = shards[i];
            let name: String = shard_name(id);
            let topic: [u8; 32] = string_to_topic(name.as_str());
            let ghost names = self@.shards;
            proof {
                lemma_shard_label(id);
            }
            self.config.shards.push(name);
            push_effect(&mut effects, Effect::Send { data: build_claim(&topic) });
            push_effect(&mut effects, Effect::Send { data: build_ready(id) });
            proof {
                let more = shards@.take(i + 1);
                assert(more.drop_last() =~= shards@.take(i as int));
                assert(more.last() == id);
                assert(self@.shards =~= names.push(shard_label(id)));
                assert(self@.shards =~= before.shards + shard_labels(more));
            }
            i = i + 1;
        }
        proof {
            assert(shards@.take(i as int) =~= shards@);
        }
        effects
    }

    /// Follows the players of another server.
    fn sync(&mut self, packet: &[u8]) -> (effects: Vec<Effect>)
        ensures
            effect_views(effects@) == sync_effects(old(self)@.players, synced_players(packet@)),
            final(self)@ == (GameView {
                players: old(self)@.players.union(clients(synced_players(packet@))),
                ..old(self)@
            }),
            final(self).config == old(self).config,
    {
        let ghost before = self@;
        let ghost config = self.config;
        let players: Vec<PlayerState> = read_snapshot(packet);
        let mut effects: Vec<Effect> = no_effects();
        let mut i: usize = 0;
        proof {
            assert(players@.take(0) =~= Seq::empty());
            assert(self@.players =~= before.players.union(clients(players@.take(0))));
        }
        while i < players.len()
            invariant
                i <= players@.len(),
                effect_views(effects@) == sync_effects(before.players, players@.take(i as int)),
                self@.players == before.players.union(clients(players@.take(i as int))),
                self@.shards == before.shards,
                self.config == config,
            decreases players@.len() - i,
        {
            let state: PlayerState = players[i];
            proof {
                let more = players@.take(i + 1);
                assert(more.drop_last() =~= players@.take(i as int));
                assert(more.last() == state);
                lemma_clients_push(players@.take(i as int), state);
                assert(more =~= players@.take(i as int).push(state));
            }
            let ghost known = self@.players;
            if self.registry.players.contains(&state.client_id) {
                push_effect(&mut effects, Effect::Place { state });
            } else {
                push_effect(&mut effects, Effect::Spawn { state, authority: Authority::Shadow });
                self.registry.players.insert(state.client_id);
            }
            proof {
                assert(self@.players =~= known.insert(state.client_id));
                assert(self@.players =~= before.players.union(clients(players@.take(i + 1))));
            }
            i = i + 1;
        }
        proof {
            assert(players@.take(i as int) =~= players@);
        }
        effects
    }

    /// Acts on a client's input.
    fn take_input(&mut self, packet: &[u8], context: Context) -> (effects: Vec<Effect>)
        requires
            packet@.len() >= 5,
        ensures
            effect_views(effects@) == old(self)@.input_effects(packet@, context),
            final(self)@ == (match old(self)@.entering(packet@, context) {
                Some(client_id) => GameView {
                    players: old(self)@.players.insert(client_id),
                    ..old(self)@
                },
                None => old(self)@,
            }),
            final(self).config == old(self).config,
    {
        let client_id: u32 = read_u32(packet, 1);
        let known: bool = self.registry.players.contains(&client_id);
        if packet.len() > 5 && packet[5] == TAG_POSITION {
            if packet.len() < 14 {
                return no_effects();
            }
            let state: PlayerState = PlayerState {
                client_id,
                x: Binary32::from_bits(read_u32(packet, 6)),
                y: Binary32::from_bits(read_u32(packet, 10)),
            };
            if known {
                if context.seen == Some(Authority::Shadow) {
                    return just(Effect::Place { state });
                }
                return no_effects();
            }
            self.registry.players.insert(client_id);
            return just(Effect::Spawn { state, authority: Authority::Shadow });
        }
        if known {
            if let Some(input) = context.input {
                return just(Effect::Steer { client_id, input });
            }
            if context.join {
                return just(Effect::SetAuthority { client_id, authority: Authority::Owned });
            }
            return no_effects();
        }
        if context.join {
            self.registry.players.insert(client_id);
            let state: PlayerState = PlayerState {
                client_id,
                x: Binary32 { bits: ZERO },
                y: Binary32 { bits: ZERO },
            };
            return just(Effect::Spawn { state, authority: Authority::Owned });
        }
        no_effects()
    }

    /// Acts on a change of authority.
    fn change_authority(&self, packet: &[u8]) -> (effects: Vec<Effect>)
        requires
            packet@.len() >= 13,
        ensures
            effect_views(effects@) == self@.authority_effects(packet@),
    {
        let client_id: u32 = read_u32(packet, 1);
        let hosts_old: bool = self.config.hosts(read_u32(packet, 5));
        let hosts_new: bool = self.config.hosts(read_u32(packet, 9));
        if self.registry.players.contains(&client_id) {
            if hosts_old && !hosts_new {
                return just(Effect::SetAuthority { client_id, authority: Authority::Shadow });
            } else if hosts_new {
                return just(Effect::SetAuthority { client_id, authority: Authority::Owned });
            }
        }
        no_effects()
    }

    /// The client whose player a packet is about, where `Context` speaks of it.
    pub fn subject(packet: &[u8]) -> (r: Option<u32>)
        ensures
            r == (if packet@.len() >= 5 && packet@[0] == TAG_CLIENT_INPUT {
                Some(u32_at(packet@, 1))
            } else {
                None
            }),
    {
        if packet.len() >= 5 && packet[0] == TAG_CLIENT_INPUT {
            Some(read_u32(packet, 1))
        } else {
            None
        }
    }

    /// Acts on a packet.
    pub fn handle_packet(&mut self, packet: &[u8], context: Context) -> (effects: Vec<Effect>)
        ensures
            final(self)@ == old(self)@.after(packet@, context),
            effect_views(effects@) == old(self)@.effects(packet@, context),
            old(self)@.players.finite() ==> final(self)@.players.finite(),
            final(self).config == (ServerConfig {
                shards: final(self).config.shards,
                ..old(self).config
            }),
            old(self).config.shards_fit() ==> final(self).config.shards_fit(),
    {
        let ghost before = self@;
        proof {
            if before.players.finite() {
                law_players_are_counted(before, packet@, context);
            }
        }
        let len: usize = packet.len();
        if len < 1 {
            return no_effects();
        }
        let tag: u8 = packet[0];
        if tag == TAG_SHUTDOWN {
            return just(Effect::Exit);
        }
        if tag == TAG_BROADCAST {
            return self.sync(packet);
        }
        if len < 5 {
            return no_effects();
        }
        if tag == TAG_ASSIGN_SHARDS {
            self.take_over(packet)
        } else if tag == TAG_CLIENT_INPUT {
            self.take_input(packet, context)
        } else if tag == TAG_DISCONNECT {
            let client_id: u32 = read_u32(packet, 1);
            if self.registry.players.remove(&client_id) {
                just(Effect::Despawn { client_id })
            } else {
                proof {
                    assert(self@.players =~= before.players.remove(client_id));
                }
                no_effects()
            }
        } else if tag == TAG_AUTHORITY_CHANGE && len >= 13 {
            self.change_authority(packet)
        } else {
            no_effects()
        }
    }
}

/// One more player, one more client.
proof fn lemma_clients_push(players: Seq<PlayerState>, state: PlayerState)
    ensures
        clients(players.push(state)) == clients(players).insert(state.client_id),
{
    let ids = players.map_values(|p: PlayerState| p.client_id);
    assert(players.push(state).map_values(|p: PlayerState| p.client_id) =~= ids.push(
        state.client_id,
    ));
    ids.lemma_push_to_set_commute(state.client_id);
}

/// How many players enter the game.
pub open spec fn spawned(effects: Seq<EffectView>) -> nat
    decreases effects.len(),
{
    if effects.len() == 0 {
        0
    } else {
        spawned(effects.drop_last()) + (if effects.last() is Spawn {
            1nat
        } else {
            0nat
        })
    }
}

/// How many players leave the game.
pub open spec fn despawned(effects: Seq<EffectView>) -> nat
    decreases effects.len(),
{
    if effects.len() == 0 {
        0
    } else {
        despawned(effects.drop_last()) + (if effects.last() is Despawn {
            1nat
        } else {
            0nat
        })
    }
}

proof fn lemma_takeover_counts(shards: Seq<u32>)
    ensures
        spawned(takeover_effects(shards)) == 0,
        despawned(takeover_effects(shards)) == 0,
    decreases shards.len(),
{
    reveal_with_fuel(spawned, 3);
    reveal_with_fuel(despawned, 3);
    if shards.len() > 0 {
        let earlier = takeover_effects(shards.drop_last());
        let claim = EffectView::Send { data: claim_message(shard_topic(shards.last())) };
        let ready = EffectView::Send { data: ready_message(shards.last()) };
        lemma_takeover_counts(shards.drop_last());
        assert(earlier.push(claim).drop_last() =~= earlier);
        assert(earlier.push(claim).push(ready).drop_last() =~= earlier.push(claim));
    }
}

proof fn lemma_sync_counts(known: Set<u32>, players: Seq<PlayerState>)
    requires
        known.finite(),
    ensures
        clients(players).finite(),
        despawned(sync_effects(known, players)) == 0,
        known.union(clients(players)).len() == known.len() + spawned(sync_effects(known, players)),
    decreases players.len(),
{
    if players.len() == 0 {
        assert(clients(players) =~= Set::empty());
        assert(known.union(clients(players)) =~= known);
    } else {
        let fewer = players.drop_last();
        let state = players.last();
        lemma_sync_counts(known, fewer);
        lemma_clients_push(fewer, state);
        assert(players =~= fewer.push(state));
        let all = sync_effects(known, players);
        assert(all.drop_last() =~= sync_effects(known, fewer));
        assert(known.union(clients(players)) =~= known.union(clients(fewer)).insert(
            state.client_id,
        ));
    }
}

/// The number of players in the game changes with every player who enters or leaves it, and
/// with nothing else.
pub proof fn law_players_are_counted(game: GameView, packet: Seq<u8>, context: Context)
    requires
        game.players.finite(),
    ensures
        game.after(packet, context).players.finite(),
        game.after(packet, context).players.len() == game.players.len() + spawned(
            game.effects(packet, context),
        ) - despawned(game.effects(packet, context)),
{
    reveal_with_fuel(spawned, 2);
    reveal_with_fuel(despawned, 2);
    if packet.len() >= 5 && packet[0] == TAG_ASSIGN_SHARDS {
        lemma_takeover_counts(number_list(packet, 1));
    } else if packet.len() >= 1 && packet[0] == TAG_BROADCAST {
        lemma_sync_counts(game.players, synced_players(packet));
    }
}

/// A server that receives what another server publishes sees the very players whom the other put
/// in: those it knows are put where they are, the others enter as shadows.
pub proof fn law_broadcast_is_followed(
    game: GameView,
    players: Seq<PlayerState>,
    context: Context,
)
    ensures
        ({
            let packet = broadcast_message(game_data(players));
            &&& game.effects(packet, context) == sync_effects(
                game.players,
                broadcast_players(players),
            )
            &&& game.after(packet, context).players == game.players.union(
                clients(broadcast_players(players)),
            )
            &&& game.after(packet, context).shards == game.shards
        }),
{
    law_broadcast_is_read_back(players);
}

/// A player of whom a server has not heard enters its game as a shadow when another server
/// publishes where the player is.
pub proof fn law_unknown_players_enter_as_shadows(
    game: GameView,
    player: PlayerState,
    context: Context,
)
    requires
        !game.players.contains(player.client_id),
    ensures
        ({
            let packet = broadcast_message(game_data(seq![player]));
            &&& game.effects(packet, context) == seq![
                EffectView::Spawn { state: player, authority: Authority::Shadow },
            ]
            &&& game.after(packet, context).players == game.players.insert(player.client_id)
        }),
{
    let one = seq![player];
    law_broadcast_is_followed(game, one, context);
    let none = one.drop_last();
    assert(none =~= Seq::empty());
    assert(clients(none) =~= Set::empty());
    lemma_clients_push(none, player);
    assert(one =~= none.push(player));
    reveal_with_fuel(sync_effects, 2);
    assert(sync_effects(game.players, one) =~= seq![
        EffectView::Spawn { state: player, authority: Authority::Shadow },
    ]);
    assert(game.players.union(clients(one)) =~= game.players.insert(player.client_id));
}

/// A server that runs the shard that a known client enters makes the client its own; one that
/// runs only the shard that it leaves keeps it as a shadow; any other lets it be.
pub proof fn law_authority_follows_the_shard(
    game: GameView,
    client_id: u32,
    old_shard: u32,
    new_shard: u32,
    context: Context,
)
    requires
        game.players.contains(client_id),
    ensures
        ({
            let effects = game.effects(
                authority_message(client_id, old_shard, new_shard),
                context,
            );
            if game.runs(new_shard) {
                effects == seq![
                    EffectView::SetAuthority { client_id, authority: Authority::Owned },
                ]
            } else if game.runs(old_shard) {
                effects == seq![
                    EffectView::SetAuthority { client_id, authority: Authority::Shadow },
                ]
            } else {
                effects == Seq::<EffectView>::empty()
            }
        }),
{
    let tag = seq![TAG_AUTHORITY_CHANGE];
    let packet = authority_message(client_id, old_shard, new_shard);
    law_u32_round_trip(client_id, tag, le32(old_shard) + le32(new_shard));
    assert(packet =~= tag + le32(client_id) + (le32(old_shard) + le32(new_shard)));
    law_u32_round_trip(old_shard, tag + le32(client_id), le32(new_shard));
    law_u32_round_trip(new_shard, tag + le32(client_id) + le32(old_shard), Seq::empty());
    assert(packet =~= packet + Seq::empty());
}

} // verus!
