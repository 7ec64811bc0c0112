//! A dedicated server: it runs the players of its shards.

use crate::binary32::Binary32;
use crate::geometry::ZERO;
use crate::ids::{is_simple_uuid, is_uuid, random_uuid, random_simple_uuid};
use crate::messages::{status_of, status_text, Heartbeat};
use crate::net::PeerAddr;
use crate::settings::{local_port, number_or, or_text, parse_or, text_of, text_or};
use crate::text::{
    behind,
    decimal,
    joined,
    law_split_undoes_join,
    lemma_decimal,
    parse_unsigned,
    pow10,
    split,
    split_on,
    texts,
    unsigned,
};
use crate::topics::{shard_label, shard_name, string_to_topic, topic_of};
use crate::wire::{
    build_claim,
    build_client_message,
    build_publish,
    build_ready,
    build_subscription,
    claim_message,
    client_message,
    contents,
    le32,
    publish_message,
    push_message,
    push_u32,
    ready_message,
    subscription_message,
    TAG_CLIENT_INPUT,
    TAG_SUBSCRIBE,
};
use vstd::prelude::*;
use vstd::utf8::encode_utf8;

verus! {

/// The client number under which a server listens to a parent shard.
pub const LISTENER_ID: u32 = 0xffff_ffff;

/// How many players one broadcast holds.
pub const MAX_BROADCAST_PLAYERS: usize = 255;

/// How long a server with a parent shard warms up, in milliseconds.
pub const WARMUP_MILLIS: u64 = 2000;

/// Bit pattern of `5.0`, how fast players move.
pub const SPEED: u32 = 0x40a0_0000;

/// The number behind the first colon of a shard's name, up to the next colon.
pub open spec fn shard_number_of(name: Seq<char>) -> Option<u32> {
    let parts = split_on(name, ':');
    if parts.len() > 1 {
        match unsigned(parts[1], u32::MAX as nat) {
            Some(n) => Some(n as u32),
            None => None,
        }
    } else {
        None
    }
}

/// The number in a shard's name.
pub fn shard_number(name: &str) -> (r: Option<u32>)
    ensures
        r == shard_number_of(name@),
{
    let parts: Vec<String> = split(name, ':');
    proof {
        assert(texts(parts@) == split_on(name@, ':'));
    }
    if parts.len() > 1 {
        proof {
            assert(texts(parts@)[1] == parts@[1]@);
        }
        match parse_unsigned(parts[1].as_str(), u32::MAX as u64) {
            Some(n) => Some(n as u32),
            None => None,
        }
    } else {
        None
    }
}

/// The name of a shard gives its number back.
pub proof fn law_shard_label_gives_number(id: u32)
    ensures
        shard_number_of(shard_label(id)) == Some(id),
{
    let word = seq!['s', 'h', 'a', 'r', 'd'];
    let digits = decimal(id as nat);
    let parts = seq![word, digits];
    reveal_with_fuel(pow10, 12);
    lemma_decimal(id as nat, pow10(10), 10);
    assert(!digits.contains(':'));
    assert(!word.contains(':'));
    law_split_undoes_join(parts, ':');
    assert(parts.drop_last() =~= seq![word]);
    reveal_with_fuel(joined, 2);
    assert(joined(parts, ':') =~= shard_label(id));
    assert(behind('+', digits) == digits) by {
        assert(48 <= digits[0] as int <= 57);
    }
}

/// The numbers in the names of shards, where there are any.
pub open spec fn shard_numbers_of(names: Seq<Seq<char>>) -> Seq<u32>
    decreases names.len(),
{
    if names.len() == 0 {
        Seq::empty()
    } else {
        let earlier = shard_numbers_of(names.drop_last());
        match shard_number_of(names.last()) {
            Some(id) => earlier.push(id),
            None => earlier,
        }
    }
}

/// Whether a name fits into a topic.
pub open spec fn fits_topic(name: Seq<char>) -> bool {
    encode_utf8(name).len() <= 32
}

/// Whether a name fits into a topic.
fn fits(name: &str) -> (r: bool)
    ensures
        r == fits_topic(name@),
{
    name.as_bytes().len() <= 32
}

/// The topic of a name.
pub open spec fn name_topic(name: Seq<char>) -> Seq<u8> {
    topic_of(encode_utf8(name))
}

/// The values of the environment variables that configure a server.
#[derive(Clone, Debug)]
pub struct ServerVars {
    pub ds_port: Option<String>,
    pub max_players: Option<String>,
    pub zone: Option<String>,
    pub shards: Option<String>,
    pub parent_shard: Option<String>,
}

/// How a server is set up.
#[derive(Clone, Debug)]
pub struct ServerConfig {
    pub id: String,
    pub ip: String,
    pub port: u16,
    pub zone: String,
    pub max_players: usize,
    pub orchestrator_addr: PeerAddr,
    pub broker_addr: PeerAddr,
    pub shards: Vec<String>,
    pub parent_shard: Option<String>,
}

impl ServerConfig {
    /// Whether the configuration is what the variables say, with the given identifier.
    pub open spec fn configured(
        self,
        id: Seq<char>,
        vars: ServerVars,
        orchestrator_port: u16,
        broker_addr: PeerAddr,
    ) -> bool {
        &&& self.id@ == id
        &&& self.ip@ == "127.0.0.1"@
        &&& self.port == number_or(text_of(vars.ds_port), u16::MAX as nat, 7001)
        &&& self.zone@ == text_or(text_of(vars.zone), "zone_A"@)
        &&& self.max_players == number_or(text_of(vars.max_players), usize::MAX as nat, 100)
        &&& self.orchestrator_addr == local_port(orchestrator_port)
        &&& self.broker_addr == broker_addr
        &&& texts(self.shards@) == split_on(text_or(text_of(vars.shards), "shard:0"@), ',')
        &&& text_of(self.parent_shard) == text_of(vars.parent_shard)
    }

    /// The configuration that the variables say, with the given identifier.
    pub fn with_id(
        id: String,
        vars: ServerVars,
        orchestrator_port: u16,
        broker_addr: PeerAddr,
    ) -> (r: ServerConfig)
        ensures
            r.configured(id@, vars, orchestrator_port, broker_addr),
    {
        let shards: String = or_text(vars.shards, "shard:0");
        ServerConfig {
            id,
            ip: "127.0.0.1".to_owned(),
            port: parse_or(&vars.ds_port, u16::MAX as u64, 7001) as u16,
            zone: or_text(vars.zone, "zone_A"),
            max_players: parse_or(&vars.max_players, usize::MAX as u64, 100) as usize,
            orchestrator_addr: PeerAddr::V4 { ip: 0x7f00_0001, port: orchestrator_port },
            broker_addr,
            shards: split(shards.as_str(), ','),
            parent_shard: vars.parent_shard,
        }
    }

    /// The configuration that the variables say, with a new identifier.
    pub fn from_env(vars: ServerVars, orchestrator_port: u16, broker_addr: PeerAddr) -> (r:
        ServerConfig)
        ensures
            is_simple_uuid(r.id@),
            r.configured(r.id@, vars, orchestrator_port, broker_addr),
    {
        ServerConfig::with_id(random_simple_uuid(), vars, orchestrator_port, broker_addr)
    }

    /// Whether the server first follows a parent shard.
    pub fn warming_up(&self) -> (r: bool)
        ensures
            r == (self.parent_shard is Some),
    {
        self.parent_shard.is_some()
    }

    /// How long the server warms up.
    pub fn warmup_millis(&self) -> (r: u64)
        ensures
            r == (if self.parent_shard is Some {
                WARMUP_MILLIS
            } else {
                0
            }),
    {
        if self.warming_up() {
            WARMUP_MILLIS
        } else {
            0
        }
    }

    /// Whether every name the server registers fits into a topic.
    pub open spec fn names_fit(self) -> bool {
        &&& fits_topic(self.id@)
        &&& self.parent_shard matches Some(parent) ==> fits_topic(parent@)
        &&& self.shards_fit()
    }

    /// Whether the name of every shard fits into a topic.
    pub open spec fn shards_fit(self) -> bool {
        forall|i: int| 0 <= i < self.shards@.len() ==> fits_topic((#[trigger] self.shards@[i])@)
    }

    /// Whether every name the server registers fits into a topic.
    pub fn check_names(&self) -> (r: bool)
        ensures
            r == self.names_fit(),
    {
        if !fits(self.id.as_str()) {
            return false;
        }
        if let Some(parent) = &self.parent_shard {
            if !fits(parent.as_str()) {
                return false;
            }
        }
        self.check_shards()
    }

    /// Whether the name of every shard fits into a topic.
    pub fn check_shards(&self) -> (r: bool)
        ensures
            r == self.shards_fit(),
    {
        let mut i: usize = 0;
        while i < self.shards.len()
            invariant
                i <= self.shards@.len(),
                forall|k: int| 0 <= k < i ==> fits_topic((#[trigger] self.shards@[k])@),
            decreases self.shards@.len() - i,
        {
            if !fits(self.shards[i].as_str()) {
                return false;
            }
            i = i + 1;
        }
        true
    }

    /// The numbers of the server's shards.
    pub fn shard_numbers(&self) -> (r: Vec<u32>)
        ensures
            r@ == shard_numbers_of(texts(self.shards@)),
    {
        let ghost names = texts(self.shards@);
        let mut numbers: Vec<u32> = Vec::new();
        let mut i: usize = 0;
        proof {
            assert(names.take(0) =~= Seq::empty());
        }
        while i < self.shards.len()
            invariant
                i <= self.shards@.len(),
                names == texts(self.shards@),
                numbers@ == shard_numbers_of(names.take(i as int)),
            decreases self.shards@.len() - i,
        {
            proof {
                assert(names.take(i + 1).drop_last() =~= names.take(i as int));
                assert(names.take(i + 1).last() == self.shards@[i as int]@);
            }
            if let Some(id) = shard_number(self.shards[i].as_str()) {
                numbers.push(id);
            }
            i = i + 1;
        }
        proof {
            assert(names.take(i as int) =~= names);
        }
        numbers
    }

    /// Whether the server runs a shard.
    pub open spec fn runs(self, shard_id: u32) -> bool {
        texts(self.shards@).contains(shard_label(shard_id))
    }

    /// Whether the server runs a shard.
    pub fn hosts(&self, shard_id: u32) -> (r: bool)
        ensures
            r == self.runs(shard_id),
    {
        let name: String = shard_name(shard_id);
        let mut i: usize = 0;
        while i < self.shards.len()
            invariant
                i <= self.shards@.len(),
                name@ == shard_label(shard_id),
                forall|k: int| 0 <= k < i ==> texts(self.shards@)[k] != shard_label(shard_id),
            decreases self.shards@.len() - i,
        {
            if self.shards[i] == name {
                proof {
                    assert(texts(self.shards@)[i as int] == shard_label(shard_id));
                }
                return true;
            }
            i = i + 1;
        }
        false
    }
}

/// The signals that shards are ready, for those that have a number.
pub open spec fn ready_signals(shards: Seq<u32>) -> Seq<Seq<u8>> {
    shards.map_values(|id: u32| ready_message(id))
}

/// The messages by which a server takes charge of shards. Unless it warms up, it says that
/// each is ready.
pub open spec fn shard_registrations(names: Seq<Seq<char>>, warming_up: bool) -> Seq<Seq<u8>>
    decreases names.len(),
{
    if names.len() == 0 {
        Seq::empty()
    } else {
        let claimed = shard_registrations(names.drop_last(), warming_up).push(
            claim_message(name_topic(names.last())),
        );
        match shard_number_of(names.last()) {
            Some(id) => if warming_up {
                claimed
            } else {
                claimed.push(ready_message(id))
            },
            None => claimed,
        }
    }
}

impl ServerConfig {
    /// How the server begins to listen to its parent shard: it subscribes, and an input without
    /// a payload tells the broker where to send what is published.
    pub open spec fn listening_sequence(self) -> Seq<Seq<u8>> {
        match self.parent_shard {
            Some(parent) => seq![
                subscription_message(TAG_SUBSCRIBE, LISTENER_ID, name_topic(parent@)),
                client_message(TAG_CLIENT_INPUT, LISTENER_ID),
            ],
            None => Seq::empty(),
        }
    }

    /// The messages with which the server enters the network: it listens to its parent shard,
    /// takes charge of its shards, and of the topic that is its own identifier.
    pub open spec fn boot_sequence(self) -> Seq<Seq<u8>> {
        (self.listening_sequence() + shard_registrations(
            texts(self.shards@),
            self.parent_shard is Some,
        )).push(claim_message(name_topic(self.id@)))
    }

    /// The messages with which the server enters the network.
    pub fn boot_messages(&self) -> (messages: Vec<Vec<u8>>)
        requires
            self.names_fit(),
        ensures
            contents(messages@) == self.boot_sequence(),
    {
        let mut messages: Vec<Vec<u8>> = Vec::new();
        let warming_up: bool = self.warming_up();
        if let Some(parent) = &self.parent_shard {
            let topic: [u8; 32] = string_to_topic(parent.as_str());
            push_message(&mut messages, build_subscription(TAG_SUBSCRIBE, LISTENER_ID, &topic));
            push_message(&mut messages, build_client_message(TAG_CLIENT_INPUT, LISTENER_ID));
        }
        let ghost greeting = contents(messages@);
        let ghost names = texts(self.shards@);
        let mut i: usize = 0;
        proof {
            assert(names.take(0) =~= Seq::empty());
            assert(contents(messages@) =~= greeting + shard_registrations(
                names.take(0),
                warming_up,
            ));
        }
        while i < self.shards.len()
            invariant
                i <= self.shards@.len(),
                names == texts(self.shards@),
                contents(messages@) == greeting + shard_registrations(
                    names.take(i as int),
                    warming_up,
                ),
            decreases self.shards@.len() - i,
        {
            proof {
                assert(names.take(i + 1).drop_last() =~= names.take(i as int));
                assert(names.take(i + 1).last() == self.shards@[i as int]@);
            }
            let topic: [u8; 32] = string_to_topic(self.shards[i].as_str());
            push_message(&mut messages, build_claim(&topic));
            if !warming_up {
                if let Some(id) = shard_number(self.shards[i].as_str()) {
                    push_message(&mut messages, build_ready(id));
                }
            }
            i = i + 1;
            proof {
                assert(contents(messages@) =~= greeting + shard_registrations(
                    names.take(i as int),
                    warming_up,
                ));
            }
        }
        let topic: [u8; 32] = string_to_topic(self.id.as_str());
        push_message(&mut messages, build_claim(&topic));
        proof {
            assert(names.take(i as int) =~= names);
            assert(greeting =~= self.listening_sequence());
        }
        messages
    }

    /// What the server says once it has warmed up: each of its shards is ready.
    pub fn ready_messages(&self) -> (messages: Vec<Vec<u8>>)
        ensures
            contents(messages@) == ready_signals(shard_numbers_of(texts(self.shards@))),
    {
        let numbers: Vec<u32> = self.shard_numbers();
        let mut messages: Vec<Vec<u8>> = Vec::new();
        let mut i: usize = 0;
        proof {
            assert(contents(messages@) =~= ready_signals(numbers@.take(0)));
        }
        while i < numbers.len()
            invariant
                i <= numbers@.len(),
                contents(messages@) == ready_signals(numbers@.take(i as int)),
            decreases numbers@.len() - i,
        {
            push_message(&mut messages, build_ready(numbers[i]));
            i = i + 1;
            proof {
                assert(contents(messages@) =~= ready_signals(numbers@.take(i as int)));
            }
        }
        proof {
            assert(numbers@.take(i as int) =~= numbers@);
        }
        messages
    }

    /// What the server reports of itself: it is full where it has as many players as it may.
    pub fn heartbeat(&self, players: usize) -> (r: Heartbeat)
        ensures
            r.id@ == self.id@,
            r.ip@ == self.ip@,
            r.port == self.port,
            r.zone@ == self.zone@,
            r.player_count == players,
            r.max_players == self.max_players,
            r.status@ == status_text(players, self.max_players),
            r.status@ == "available"@ <==> players < self.max_players,
            r.status@ == "full"@ <==> players >= self.max_players,
    {
        Heartbeat {
            id: self.id.clone(),
            ip: self.ip.clone(),
            port: self.port,
            zone: self.zone.clone(),
            player_count: players,
            max_players: self.max_players,
            status: status_of(players, self.max_players),
        }
    }
}

/// How long a server has warmed up, and how long it has to. Times are in nanoseconds.
#[derive(Clone, Copy, Debug, PartialEq, Eq, Structural)]
pub struct WarmupTimer {
    pub elapsed: u128,
    pub duration: u128,
    pub finished: bool,
}

impl WarmupTimer {
    /// Whether the time is up with `delta` more nanoseconds, and was not before.
    pub open spec fn finishes(self, delta: nat) -> bool {
        !self.finished && self.elapsed + delta >= self.duration
    }

    /// The timer after `delta` more nanoseconds. It stops when the time is up.
    pub open spec fn after(self, delta: nat) -> WarmupTimer {
        if self.finished {
            self
        } else if self.finishes(delta) {
            WarmupTimer { elapsed: self.duration, finished: true, ..self }
        } else {
            WarmupTimer { elapsed: (self.elapsed + delta) as u128, ..self }
        }
    }

    /// A timer that begins.
    pub fn new(millis: u64) -> (r: WarmupTimer)
        ensures
            r == (WarmupTimer {
                elapsed: 0,
                duration: (millis * 1_000_000) as u128,
                finished: false,
            }),
    {
        WarmupTimer { elapsed: 0, duration: millis as u128 * 1_000_000, finished: false }
    }

    /// Lets `delta` nanoseconds pass, and says whether the time is up now and was not before.
    pub fn tick(&mut self, delta: u128) -> (just_finished: bool)
        ensures
            *final(self) == old(self).after(delta as nat),
            just_finished == old(self).finishes(delta as nat),
    {
        if self.finished {
            return false;
        }
        if self.elapsed >= self.duration || delta >= self.duration - self.elapsed {
            self.elapsed = self.duration;
            self.finished = true;
            true
        } else {
            self.elapsed = self.elapsed + delta;
            false
        }
    }
}

/// What a server says in a step of its warm-up: that each of its shards is ready, where the time
/// is up with this step, and nothing else.
pub open spec fn warmup_messages(timer: WarmupTimer, delta: nat, names: Seq<Seq<char>>) -> Seq<
    Seq<u8>,
> {
    if timer.finishes(delta) {
        ready_signals(shard_numbers_of(names))
    } else {
        Seq::empty()
    }
}

/// Lets a server warm up for `delta` more nanoseconds, and returns what it says.
pub fn warmup_system(timer: &mut WarmupTimer, delta: u128, config: &ServerConfig) -> (messages: Vec<
    Vec<u8>,
>)
    ensures
        *final(timer) == old(timer).after(delta as nat),
        contents(messages@) == warmup_messages(*old(timer), delta as nat, texts(config.shards@)),
{
    if timer.tick(delta) {
        config.ready_messages()
    } else {
        let messages: Vec<Vec<u8>> = Vec::new();
        proof {
            assert(contents(messages@) =~= Seq::empty());
        }
        messages
    }
}

/// The time that several steps take.
pub open spec fn total(deltas: Seq<nat>) -> nat
    decreases deltas.len(),
{
    if deltas.len() == 0 {
        0
    } else {
        total(deltas.drop_last()) + deltas.last()
    }
}

impl WarmupTimer {
    /// The timer after several steps.
    pub open spec fn after_all(self, deltas: Seq<nat>) -> WarmupTimer
        decreases deltas.len(),
    {
        if deltas.len() == 0 {
            self
        } else {
            self.after_all(deltas.drop_last()).after(deltas.last())
        }
    }
}

/// Whether step `k` is the one with which the time is up.
pub open spec fn time_is_up_in(duration: nat, deltas: Seq<nat>, k: int) -> bool {
    &&& total(deltas.take(k + 1)) >= duration
    &&& k == 0 || total(deltas.take(k)) < duration
}

proof fn lemma_timer(timer: WarmupTimer, deltas: Seq<nat>)
    requires
        timer.elapsed == 0,
        !timer.finished,
    ensures
        ({
            let after = timer.after_all(deltas);
            &&& after.duration == timer.duration
            &&& after.finished <==> deltas.len() > 0 && total(deltas) >= timer.duration
            &&& !after.finished ==> after.elapsed == total(deltas)
        }),
    decreases deltas.len(),
{
    if deltas.len() > 0 {
        lemma_timer(timer, deltas.drop_last());
    }
}

/// Over any sequence of steps, whatever shards the server has in each, it says that its shards are
/// ready in the one step in which the warm-up ends, and says nothing in any other.
pub proof fn law_ready_signals_go_out_once(
    millis: u64,
    deltas: Seq<nat>,
    names: Seq<Seq<Seq<char>>>,
    k: int,
)
    requires
        0 <= k < deltas.len(),
        names.len() == deltas.len(),
    ensures
        ({
            let duration = (millis * 1_000_000) as nat;
            let begun = WarmupTimer { elapsed: 0, duration: duration as u128, finished: false };
            let said = warmup_messages(begun.after_all(deltas.take(k)), deltas[k], names[k]);
            &&& said == (if time_is_up_in(duration, deltas, k) {
                ready_signals(shard_numbers_of(names[k]))
            } else {
                Seq::empty()
            })
            &&& time_is_up_in(duration, deltas, k) ==> forall|j: int|
                0 <= j < deltas.len() && j != k ==> !time_is_up_in(duration, deltas, j)
        }),
{
    let duration = (millis * 1_000_000) as nat;
    let begun = WarmupTimer { elapsed: 0, duration: duration as u128, finished: false };
    lemma_timer(begun, deltas.take(k));
    assert(deltas.take(k + 1).drop_last() =~= deltas.take(k));
    assert(deltas.take(k + 1).last() == deltas[k]);
    if time_is_up_in(duration, deltas, k) {
        assert forall|j: int| 0 <= j < deltas.len() && j != k implies !time_is_up_in(
            duration,
            deltas,
            j,
        ) by {
            if j < k {
                lemma_total_grows(deltas, j + 1, k);
            } else {
                lemma_total_grows(deltas, k + 1, j);
            }
        }
    }
}

proof fn lemma_total_grows(deltas: Seq<nat>, i: int, j: int)
    requires
        0 <= i <= j <= deltas.len(),
    ensures
        total(deltas.take(i)) <= total(deltas.take(j)),
    decreases j - i,
{
    if i < j {
        lemma_total_grows(deltas, i, j - 1);
        assert(deltas.take(j).drop_last() =~= deltas.take(j - 1));
    }
}

/// A player, for the records.
#[derive(Clone, Debug)]
pub struct Player {
    pub id: String,
}

/// Where a player wants to go.
#[derive(Clone, Copy, Debug)]
pub struct PlayerInput {
    pub movement_x: Binary32,
    pub movement_y: Binary32,
}

/// The client number of a player.
#[derive(Clone, Copy, Debug, PartialEq, Eq, Hash, Structural)]
pub struct NetworkId(pub u32);

/// Who decides where a player is: this server, or another one that this server follows.
#[derive(Clone, Copy, Debug, PartialEq, Eq, Structural)]
pub enum Authority {
    Owned,
    Shadow,
}

/// Where a player is.
#[derive(Clone, Copy, Debug, PartialEq, Eq, Structural)]
pub struct PlayerState {
    pub client_id: u32,
    pub x: Binary32,
    pub y: Binary32,
}

/// A player who enters the game.
#[derive(Clone, Debug)]
pub struct NewPlayer {
    pub player: Player,
    pub x: Binary32,
    pub y: Binary32,
    pub input: PlayerInput,
    pub network_id: NetworkId,
    pub authority: Authority,
}

impl NewPlayer {
    /// Whether this is a player who stands still at a position, with the given identifier.
    pub open spec fn stands(self, id: Seq<char>, state: PlayerState, authority: Authority) -> bool {
        &&& self.player.id@ == id
        &&& self.x == state.x
        &&& self.y == state.y
        &&& self.input.movement_x.bits == ZERO
        &&& self.input.movement_y.bits == ZERO
        &&& self.network_id == NetworkId(state.client_id)
        &&& self.authority == authority
    }

    /// A player who stands still at a position, with the given identifier.
    pub fn with_id(id: String, state: PlayerState, authority: Authority) -> (r: NewPlayer)
        ensures
            r.stands(id@, state, authority),
    {
        NewPlayer {
            player: Player { id },
            x: state.x,
            y: state.y,
            input: PlayerInput {
                movement_x: Binary32 { bits: ZERO },
                movement_y: Binary32 { bits: ZERO },
            },
            network_id: NetworkId(state.client_id),
            authority,
        }
    }

    /// A player who stands still at a position, with a new identifier.
    pub fn new(state: PlayerState, authority: Authority) -> (r: NewPlayer)
        ensures
            is_uuid(r.player.id@),
            r.stands(r.player.id@, state, authority),
    {
        NewPlayer::with_id(random_uuid(), state, authority)
    }
}

/// Where a coordinate is after a step: players whom another server runs stay where they are.
pub open spec fn moved(
    at: Binary32,
    movement: Binary32,
    authority: Authority,
    delta: Binary32,
) -> Binary32 {
    match authority {
        Authority::Owned => at.sum(movement.product(Binary32 { bits: SPEED }).product(delta)),
        Authority::Shadow => at,
    }
}

/// Where a player is after `delta` seconds.
pub fn move_player(
    state: PlayerState,
    input: PlayerInput,
    authority: Authority,
    delta: Binary32,
) -> (r: PlayerState)
    ensures
        r == (PlayerState {
            client_id: state.client_id,
            x: moved(state.x, input.movement_x, authority, delta),
            y: moved(state.y, input.movement_y, authority, delta),
        }),
{
    match authority {
        Authority::Shadow => state,
        Authority::Owned => {
            let speed: Binary32 = Binary32 { bits: SPEED };
            PlayerState {
                client_id: state.client_id,
                x: state.x.plus(input.movement_x.times(speed).times(delta)),
                y: state.y.plus(input.movement_y.times(speed).times(delta)),
            }
        },
    }
}

/// A player in game data: the client number and the two coordinates.
pub open spec fn player_bytes(player: PlayerState) -> Seq<u8> {
    le32(player.client_id) + le32(player.x.bits) + le32(player.y.bits)
}

/// Players in game data, one after the other.
pub open spec fn players_bytes(players: Seq<PlayerState>) -> Seq<u8>
    decreases players.len(),
{
    if players.len() == 0 {
        Seq::empty()
    } else {
        players_bytes(players.drop_last()) + player_bytes(players.last())
    }
}

/// The players that a broadcast holds: the first 255.
pub open spec fn broadcast_players(players: Seq<PlayerState>) -> Seq<PlayerState> {
    if players.len() <= MAX_BROADCAST_PLAYERS {
        players
    } else {
        players.take(MAX_BROADCAST_PLAYERS as int)
    }
}

/// Game data: how many players, and the players.
pub open spec fn game_data(players: Seq<PlayerState>) -> Seq<u8> {
    seq![broadcast_players(players).len() as u8] + players_bytes(broadcast_players(players))
}

/// Game data.
pub fn build_game_data(players: &Vec<PlayerState>) -> (r: Vec<u8>)
    ensures
        r@ == game_data(players@),
        r@.len() <= 1 + 12 * MAX_BROADCAST_PLAYERS,
{
    let count: usize = if players.len() <= MAX_BROADCAST_PLAYERS {
        players.len()
    } else {
        MAX_BROADCAST_PLAYERS
    };
    let ghost held = broadcast_players(players@);
    let mut r: Vec<u8> = vec![count as u8];
    let mut i: usize = 0;
    proof {
        assert(held.take(0) =~= Seq::empty());
        assert(r@ =~= seq![count as u8] + players_bytes(held.take(0)));
    }
    while i < count
        invariant
            i <= count <= players@.len(),
            count <= MAX_BROADCAST_PLAYERS,
            held == players@.take(count as int),
            r@ == seq![count as u8] + players_bytes(held.take(i as int)),
            r@.len() == 1 + 12 * i,
        decreases count - i,
    {
        let player: PlayerState = players[i];
        push_u32(&mut r, player.client_id);
        push_u32(&mut r, player.x.to_bits());
        push_u32(&mut r, player.y.to_bits());
        proof {
            let more = held.take(i + 1);
            assert(more.drop_last() =~= held.take(i as int));
            assert(more.last() == player);
            assert(r@ =~= seq![count as u8] + players_bytes(more));
        }
        i = i + 1;
    }
    proof {
        assert(held.take(i as int) =~= held);
    }
    r
}

/// The publications of game data, one for each shard.
pub open spec fn publications(names: Seq<Seq<char>>, data: Seq<u8>) -> Seq<Seq<u8>> {
    names.map_values(|name: Seq<char>| publish_message(name_topic(name), data))
}

impl ServerConfig {
    /// What the server publishes of its players: nothing where it has none, else the game data
    /// to each of its shards.
    pub fn state_messages(&self, players: &Vec<PlayerState>) -> (messages: Vec<Vec<u8>>)
        requires
            players@.len() > 0 ==> self.shards_fit(),
        ensures
            contents(messages@) == (if players@.len() == 0 {
                Seq::empty()
            } else {
                publications(texts(self.shards@), game_data(players@))
            }),
    {
        let mut messages: Vec<Vec<u8>> = Vec::new();
        if players.len() == 0 {
            proof {
                assert(contents(messages@) =~= Seq::empty());
            }
            return messages;
        }
        let data: Vec<u8> = build_game_data(players);
        let ghost names = texts(self.shards@);
        let mut i: usize = 0;
        proof {
            assert(contents(messages@) =~= publications(names.take(0), data@));
        }
        while i < self.shards.len()
            invariant
                i <= self.shards@.len(),
                names == texts(self.shards@),
                data@.len() <= 1 + 12 * MAX_BROADCAST_PLAYERS,
                contents(messages@) == publications(names.take(i as int), data@),
            decreases self.shards@.len() - i,
        {
            let topic: [u8; 32] = string_to_topic(self.shards[i].as_str());
            push_message(&mut messages, build_publish(&topic, data.as_slice()));
            i = i + 1;
            proof {
                assert(names.take(i as int).last() == self.shards@[i - 1]@);
                assert(contents(messages@) =~= publications(names.take(i as int), data@));
            }
        }
        proof {
            assert(names.take(i as int) =~= names);
        }
        messages
    }
}

} // verus!
