//! The client: it shows the game and tells the servers what its player does.

use crate::binary32::Binary32;
use crate::dedicated_server::{
    broadcast_players,
    game_data,
    player_bytes,
    players_bytes,
    PlayerState,
};
use crate::game_server::player_at;
use crate::geometry::{Vec2, ZERO};
use crate::ids::random_between;
use crate::text::{decimal, decimal_text};
use crate::topics::string_to_topic;
use crate::wire::{
    broadcast_message,
    build_client_message,
    build_position,
    build_subscription,
    client_message,
    law_u32_round_trip,
    le32,
    position_message,
    read_u32,
    spatial_topic,
    subscription_message,
    u32_at,
    TAG_AUTHORITY_CHANGE,
    TAG_BROADCAST,
    TAG_DISCONNECT,
    TAG_SUBSCRIBE,
};
use std::collections::HashSet;
use vstd::prelude::*;
use vstd::string::StringExecFns;

verus! {

broadcast use vstd::std_specs::hash::group_hash_axioms;

/// The smallest client number.
pub const FIRST_CLIENT_ID: u32 = 1000;

/// The number behind the largest client number.
pub const END_CLIENT_ID: u32 = 9999;

/// Bit pattern of `1.0`.
pub const ONE: u32 = 0x3f80_0000;

/// Bit pattern of `0.70710677`, each coordinate of a diagonal step.
pub const DIAGONAL: u32 = 0x3f35_04f3;

/// Bit pattern of `300.0`, how far a player goes in a second.
pub const CLIENT_SPEED: u32 = 0x4396_0000;

/// Bit pattern of `10000.0`, the square of the distance at which a player is put back.
pub const SNAP_SQUARED: u32 = 0x461c_4000;

/// Bit pattern of `15.0`, how fast other players are drawn to where they are.
pub const LERP_RATE: u32 = 0x4170_0000;

/// Bit pattern of `2.0`, the seconds after which a player who was not seen is gone.
pub const STALE_AFTER: u32 = 0x4000_0000;

/// Bit pattern of `0.1`, how much of its way the camera goes in a frame.
pub const CAMERA_RATE: u32 = 0x3dcc_cccd;

/// What the client knows of itself.
pub struct ClientState {
    pub shard_authority: Option<u32>,
    pub joined: bool,
    pub spawned_on_server: bool,
    pub known_players: HashSet<u32>,
}

/// A `ClientState` with its players as a set.
pub struct ClientView {
    pub shard_authority: Option<u32>,
    pub joined: bool,
    pub spawned: bool,
    pub known: Set<u32>,
}

impl View for ClientState {
    type V = ClientView;

    open spec fn view(&self) -> ClientView {
        ClientView {
            shard_authority: self.shard_authority,
            joined: self.joined,
            spawned: self.spawned_on_server,
            known: self.known_players@,
        }
    }
}

/// A number for a new client.
pub fn new_client_id() -> (r: u32)
    ensures
        FIRST_CLIENT_ID <= r < END_CLIENT_ID,
{
    random_between(FIRST_CLIENT_ID, END_CLIENT_ID)
}

/// The message by which a client listens to the spatial server.
pub fn greeting(client_id: u32) -> (r: Vec<u8>)
    ensures
        r@ == subscription_message(TAG_SUBSCRIBE, client_id, spatial_topic()),
{
    let topic: [u8; 32] = string_to_topic("spatial_updates");
    build_subscription(TAG_SUBSCRIBE, client_id, &topic)
}

/// The message that a client without a place in the world is at the origin.
pub fn origin_ping(client_id: u32) -> (r: Vec<u8>)
    ensures
        r@ == position_message(client_id, ZERO, ZERO),
{
    build_position(client_id, ZERO, ZERO)
}

/// The message by which a client leaves.
pub fn farewell(client_id: u32) -> (r: Vec<u8>)
    ensures
        r@ == client_message(TAG_DISCONNECT, client_id),
{
    build_client_message(TAG_DISCONNECT, client_id)
}

/// How many players a broadcast holds: as many as it says, but no more than there is room for.
pub open spec fn snapshot_len(packet: Seq<u8>) -> nat {
    let room = ((packet.len() - 4) / 12) as nat;
    if packet[3] as nat <= room {
        packet[3] as nat
    } else {
        room
    }
}

/// The players of a broadcast. A packet that is too short, or no broadcast, has none.
pub open spec fn snapshot(packet: Seq<u8>) -> Seq<PlayerState> {
    if packet.len() >= 4 && packet[0] == TAG_BROADCAST {
        Seq::new(snapshot_len(packet), |i: int| player_at(packet, 4 + 12 * i))
    } else {
        Seq::empty()
    }
}

/// The players of a broadcast.
pub fn read_snapshot(packet: &[u8]) -> (r: Vec<PlayerState>)
    ensures
        r@ == snapshot(packet@),
{
    let len: usize = packet.len();
    let mut players: Vec<PlayerState> = Vec::new();
    if len < 4 || packet[0] != TAG_BROADCAST {
        return players;
    }
    let count: u8 = packet[3];
    let mut offset: usize = 4;
    let mut i: u8 = 0;
    while i < count
        invariant_except_break
            i <= count,
            4 <= offset <= len,
        invariant
            len == packet@.len(),
            4 <= len,
            count == packet@[3],
            packet@[0] == TAG_BROADCAST,
            offset == 4 + 12 * i,
            players@.len() == i,
            i <= snapshot_len(packet@),
            forall|k: int| 0 <= k < i ==> players@[k] == player_at(packet@, 4 + 12 * k),
        ensures
            i == snapshot_len(packet@),
        decreases count - i,
    {
        if len - offset < 12 {
            break;
        }
        players.push(
            PlayerState {
                client_id: read_u32(packet, offset),
                x: Binary32::from_bits(read_u32(packet, offset + 4)),
                y: Binary32::from_bits(read_u32(packet, offset + 8)),
            },
        );
        offset = offset + 12;
        i = i + 1;
    }
    proof {
        assert(players@ =~= snapshot(packet@));
    }
    players
}

/// What is to be done about one player of a broadcast.
#[derive(Clone, Debug)]
pub struct Sighting {
    /// The player is on show, and was seen.
    pub refresh: bool,
    /// Another player is drawn to where it is.
    pub retarget: bool,
    /// The client's own player is held against where the server has it.
    pub correct: bool,
    /// The player is put on show.
    pub spawn: bool,
    /// The message that tells the spatial server where the client's own player is.
    pub echo: Option<Vec<u8>>,
}

impl ClientView {
    /// Whether a player is new to the client.
    pub open spec fn is_new(self, p_id: u32, on_show: bool) -> bool {
        !on_show && !self.known.contains(p_id)
    }

    /// The client after it saw a player.
    pub open spec fn after_sighting(self, own_id: u32, p_id: u32, on_show: bool) -> ClientView {
        if self.is_new(p_id, on_show) {
            ClientView {
                known: self.known.insert(p_id),
                spawned: self.spawned || p_id == own_id,
                ..self
            }
        } else {
            self
        }
    }

    /// The client after a packet that changes who is in charge of it.
    pub open spec fn after_authority(self, own_id: u32, packet: Seq<u8>) -> ClientView {
        if packet.len() >= 13 && packet[0] == TAG_AUTHORITY_CHANGE && u32_at(packet, 1) == own_id {
            ClientView { shard_authority: Some(u32_at(packet, 9)), joined: true, ..self }
        } else {
            self
        }
    }
}

/// What the client does about its player in a frame.
#[derive(Clone, Copy, Debug, PartialEq, Eq, Structural)]
pub enum Stage {
    /// No shard has taken the client: it says that it is at the origin.
    Ping,
    /// A shard has taken the client, but does not show its player: it asks to join.
    Join,
    /// The client's player is in the game.
    Play,
}

impl ClientState {
    pub fn new() -> (r: ClientState)
        ensures
            r@ == (ClientView {
                shard_authority: None,
                joined: false,
                spawned: false,
                known: Set::empty(),
            }),
    {
        ClientState {
            shard_authority: None,
            joined: false,
            spawned_on_server: false,
            known_players: HashSet::new(),
        }
    }

    /// Takes note of one player of a broadcast. `on_show` says whether the player is shown.
    pub fn see(&mut self, own_id: u32, player: PlayerState, on_show: bool) -> (r: Sighting)
        ensures
            final(self)@ == old(self)@.after_sighting(own_id, player.client_id, on_show),
            r.refresh == on_show,
            r.retarget == (on_show && player.client_id != own_id),
            r.correct == (on_show && player.client_id == own_id),
            r.spawn == old(self)@.is_new(player.client_id, on_show),
            r.echo is Some <==> player.client_id == own_id && final(self)@.spawned,
            r.echo matches Some(message) ==> message@ == position_message(
                own_id,
                player.x.bits,
                player.y.bits,
            ),
    {
        let own: bool = player.client_id == own_id;
        let spawn: bool = !on_show && !self.known_players.contains(&player.client_id);
        if spawn {
            self.known_players.insert(player.client_id);
            if own {
                self.spawned_on_server = true;
            }
        }
        let echo: Option<Vec<u8>> = if own && self.spawned_on_server {
            Some(build_position(own_id, player.x.to_bits(), player.y.to_bits()))
        } else {
            None
        };
        Sighting {
            refresh: on_show,
            retarget: on_show && !own,
            correct: on_show && own,
            spawn,
            echo,
        }
    }

    /// Takes note of a packet that changes who is in charge of the client.
    pub fn follow_authority(&mut self, own_id: u32, packet: &[u8]) -> (changed: bool)
        ensures
            final(self)@ == old(self)@.after_authority(own_id, packet@),
            changed == (packet@.len() >= 13 && packet@[0] == TAG_AUTHORITY_CHANGE && u32_at(
                packet@,
                1,
            ) == own_id),
    {
        if packet.len() < 13 || packet[0] != TAG_AUTHORITY_CHANGE {
            return false;
        }
        if read_u32(packet, 1) != own_id {
            return false;
        }
        self.shard_authority = Some(read_u32(packet, 9));
        self.joined = true;
        true
    }

    /// What the client does about its player in this frame.
    pub fn stage(&self) -> (r: Stage)
        ensures
            r == (if !self@.joined {
                Stage::Ping
            } else if !self@.spawned {
                Stage::Join
            } else {
                Stage::Play
            }),
    {
        if !self.joined {
            Stage::Ping
        } else if !self.spawned_on_server {
            Stage::Join
        } else {
            Stage::Play
        }
    }
}

/// The name under which a client plays.
pub open spec fn player_label(client_id: u32) -> Seq<char> {
    seq!['P', 'l', 'a', 'y', 'e', 'r', '_'] + decimal(client_id as nat)
}

/// The name under which a client plays.
pub fn player_name(client_id: u32) -> (name: String)
    ensures
        name@ == player_label(client_id),
{
    let mut name: String = "Player_".to_owned();
    name.append(decimal_text(client_id).as_str());
    proof {
        reveal_strlit("Player_");
        assert(name@ =~= player_label(client_id));
    }
    name
}

/// The keys that are pressed.
#[derive(Clone, Copy, Debug)]
pub struct Keys {
    pub up: bool,
    pub down: bool,
    pub left: bool,
    pub right: bool,
}

/// The direction of two opposite keys: forward, backward, or neither where both or none are
/// pressed.
pub open spec fn axis(forward: bool, backward: bool) -> int {
    (if forward {
        1int
    } else {
        0int
    }) - (if backward {
        1int
    } else {
        0int
    })
}

/// One coordinate of a direction of length one (or zero).
pub open spec fn direction(along: int, across: int) -> Binary32 {
    let size: u32 = if along == 0 {
        ZERO
    } else if across == 0 {
        ONE
    } else {
        DIAGONAL
    };
    if along < 0 {
        Binary32 { bits: size }.negated()
    } else {
        Binary32 { bits: size }
    }
}

fn direction_of(forward: bool, backward: bool, across: bool) -> (r: Binary32)
    ensures
        r == direction(
            axis(forward, backward),
            if across {
                1int
            } else {
                0int
            },
        ),
{
    if forward == backward {
        return Binary32 { bits: ZERO };
    }
    let size: Binary32 = if across {
        Binary32 { bits: DIAGONAL }
    } else {
        Binary32 { bits: ONE }
    };
    if forward {
        size
    } else {
        size.neg()
    }
}

/// The direction of the pressed keys.
pub fn heading(keys: Keys) -> (r: Vec2)
    ensures
        r.x == direction(axis(keys.right, keys.left), axis(keys.up, keys.down)),
        r.y == direction(axis(keys.up, keys.down), axis(keys.right, keys.left)),
{
    Vec2 {
        x: direction_of(keys.right, keys.left, keys.up != keys.down),
        y: direction_of(keys.up, keys.down, keys.right != keys.left),
    }
}

/// A coordinate after `delta` seconds in a direction.
pub open spec fn strode(at: Binary32, dir: Binary32, delta: Binary32) -> Binary32 {
    at.sum(dir.product(Binary32 { bits: CLIENT_SPEED }).product(delta))
}

/// Where the client's own player is after `delta` seconds.
pub fn stride(at: Vec2, dir: Vec2, delta: Binary32) -> (r: Vec2)
    ensures
        r.x == strode(at.x, dir.x, delta),
        r.y == strode(at.y, dir.y, delta),
{
    let speed: Binary32 = Binary32 { bits: CLIENT_SPEED };
    Vec2 {
        x: at.x.plus(dir.x.times(speed).times(delta)),
        y: at.y.plus(dir.y.times(speed).times(delta)),
    }
}

/// Whether the keys lead nowhere.
pub open spec fn leads_nowhere(keys: Keys) -> bool {
    axis(keys.right, keys.left) == 0 && axis(keys.up, keys.down) == 0
}

/// Where the client says that its player is.
#[derive(Clone, Copy, Debug)]
pub struct PlayerInput {
    pub x: Binary32,
    pub y: Binary32,
}

/// What one frame does to the client's own player.
#[derive(Clone, Copy, Debug)]
pub struct Frame {
    /// Where the player is now.
    pub at: Vec2,
    /// What the servers are told, if anything.
    pub input: Option<PlayerInput>,
    /// Whether the keys lead nowhere.
    pub idle: bool,
}

/// Moves the client's own player by the pressed keys for `delta` seconds, and tells the servers
/// where it is unless it stands still and they know.
pub fn play_frame(keys: Keys, at: Vec2, last_was_idle: bool, delta: Binary32) -> (r: Frame)
    ensures
        r.at.x == strode(
            at.x,
            direction(axis(keys.right, keys.left), axis(keys.up, keys.down)),
            delta,
        ),
        r.at.y == strode(
            at.y,
            direction(axis(keys.up, keys.down), axis(keys.right, keys.left)),
            delta,
        ),
        r.idle == leads_nowhere(keys),
        r.input is Some <==> !(leads_nowhere(keys) && last_was_idle),
        r.input matches Some(input) ==> input.x == r.at.x && input.y == r.at.y,
{
    let now: Vec2 = stride(at, heading(keys), delta);
    let idle: bool = keys.right == keys.left && keys.up == keys.down;
    let input: Option<PlayerInput> = if idle && last_was_idle {
        None
    } else {
        Some(PlayerInput { x: now.x, y: now.y })
    };
    Frame { at: now, input, idle }
}

/// Whether `a` is a number greater than `b`.
pub open spec fn exceeds(a: Binary32, b: Binary32) -> bool {
    b.spec_le(a) && !a.spec_le(b)
}

fn is_above(a: Binary32, b: Binary32) -> (r: bool)
    ensures
        r == exceeds(a, b),
{
    b.le(a) && !a.le(b)
}

/// The square of the distance of two points.
pub open spec fn distance_squared(a: Vec2, b: Vec2) -> Binary32 {
    let dx = a.x.difference(b.x);
    let dy = a.y.difference(b.y);
    dx.product(dx).sum(dy.product(dy))
}

/// Whether the client's own player is put back to where the server has it: where the two are
/// more than 100 apart.
pub fn must_snap(server: Vec2, local: Vec2) -> (r: bool)
    ensures
        r == exceeds(distance_squared(server, local), Binary32 { bits: SNAP_SQUARED }),
{
    let dx: Binary32 = server.x.minus(local.x);
    let dy: Binary32 = server.y.minus(local.y);
    is_above(dx.times(dx).plus(dy.times(dy)), Binary32 { bits: SNAP_SQUARED })
}

/// How much of its way another player is drawn in `delta` seconds, at most all of it.
pub open spec fn lerp_share(delta: Binary32) -> Binary32 {
    let share = delta.product(Binary32 { bits: LERP_RATE });
    if share.spec_le(Binary32 { bits: ONE }) {
        share
    } else {
        Binary32 { bits: ONE }
    }
}

/// A coordinate on the way to its target.
pub open spec fn lerp(from: Binary32, to: Binary32, share: Binary32) -> Binary32 {
    from.product(Binary32 { bits: ONE }.difference(share)).sum(to.product(share))
}

/// Where another player is drawn after `delta` seconds.
pub fn glide(from: Vec2, to: Vec2, delta: Binary32) -> (r: Vec2)
    ensures
        r.x == lerp(from.x, to.x, lerp_share(delta)),
        r.y == lerp(from.y, to.y, lerp_share(delta)),
{
    let one: Binary32 = Binary32 { bits: ONE };
    let product: Binary32 = delta.times(Binary32 { bits: LERP_RATE });
    let share: Binary32 = if product.le(one) {
        product
    } else {
        one
    };
    let rest: Binary32 = one.minus(share);
    Vec2 {
        x: from.x.times(rest).plus(to.x.times(share)),
        y: from.y.times(rest).plus(to.y.times(share)),
    }
}

/// Whether a player who was last seen then is gone now.
pub fn is_stale(now: Binary32, last_seen: Binary32) -> (r: bool)
    ensures
        r == exceeds(now.difference(last_seen), Binary32 { bits: STALE_AFTER }),
{
    is_above(now.minus(last_seen), Binary32 { bits: STALE_AFTER })
}

/// A coordinate of the camera after a frame.
pub open spec fn followed(camera: Binary32, target: Binary32) -> Binary32 {
    camera.sum(target.difference(camera).product(Binary32 { bits: CAMERA_RATE }))
}

/// Where the camera is after a frame.
pub fn follow(camera: Vec2, target: Vec2) -> (r: Vec2)
    ensures
        r.x == followed(camera.x, target.x),
        r.y == followed(camera.y, target.y),
{
    let rate: Binary32 = Binary32 { bits: CAMERA_RATE };
    Vec2 {
        x: camera.x.plus(target.x.minus(camera.x).times(rate)),
        y: camera.y.plus(target.y.minus(camera.y).times(rate)),
    }
}

/// Where the bytes of the players stand.
proof fn lemma_players_bytes(players: Seq<PlayerState>, i: int)
    requires
        0 <= i < players.len(),
    ensures
        players_bytes(players).len() == 12 * players.len(),
        players_bytes(players).subrange(12 * i, 12 * i + 12) == player_bytes(players[i]),
    decreases players.len(),
{
    let fewer = players.drop_last();
    let all = players_bytes(players);
    if fewer.len() > 0 {
        lemma_players_bytes(fewer, if i < fewer.len() { i } else { 0 });
    } else {
        assert(players_bytes(fewer) =~= Seq::empty());
    }
    if i < fewer.len() {
        assert(all.subrange(12 * i, 12 * i + 12) =~= players_bytes(fewer).subrange(
            12 * i,
            12 * i + 12,
        ));
    } else {
        assert(all.subrange(12 * i, 12 * i + 12) =~= player_bytes(players.last()));
    }
}

/// A player whose bytes stand in a packet.
proof fn lemma_player_at(packet: Seq<u8>, at: int, player: PlayerState)
    requires
        0 <= at,
        at + 12 <= packet.len(),
        packet.subrange(at, at + 12) == player_bytes(player),
    ensures
        player_at(packet, at) == player,
{
    let bytes = player_bytes(player);
    assert forall|k: int| 0 <= k < 12 implies packet[at + k] == bytes[k] by {
        assert(packet.subrange(at, at + 12)[k] == packet[at + k]);
    }
    law_u32_round_trip(player.client_id, Seq::empty(), le32(player.x.bits) + le32(player.y.bits));
    assert(bytes =~= Seq::empty() + le32(player.client_id) + (le32(player.x.bits) + le32(
        player.y.bits,
    )));
    law_u32_round_trip(player.x.bits, le32(player.client_id), le32(player.y.bits));
    law_u32_round_trip(
        player.y.bits,
        le32(player.client_id) + le32(player.x.bits),
        Seq::empty(),
    );
    assert(bytes =~= bytes + Seq::empty());
    assert(u32_at(packet, at) == u32_at(bytes, 0));
    assert(u32_at(packet, at + 4) == u32_at(bytes, 4));
    assert(u32_at(packet, at + 8) == u32_at(bytes, 8));
}

/// A client sees in a broadcast the very players whom the server put in.
pub proof fn law_broadcast_is_read_back(players: Seq<PlayerState>)
    ensures
        snapshot(broadcast_message(game_data(players))) == broadcast_players(players),
{
    let held = broadcast_players(players);
    let data = game_data(players);
    let packet = broadcast_message(data);
    let n = held.len();
    if n > 0 {
        lemma_players_bytes(held, 0);
    } else {
        assert(players_bytes(held) =~= Seq::empty());
    }
    assert(packet.len() == 4 + 12 * n);
    assert(packet[0] == TAG_BROADCAST);
    assert(packet[3] == n);
    assert(snapshot_len(packet) == n);
    assert forall|i: int| 0 <= i < n implies snapshot(packet)[i] == held[i] by {
        lemma_players_bytes(held, i);
        assert(packet.subrange(4 + 12 * i, 4 + 12 * i + 12) =~= players_bytes(held).subrange(
            12 * i,
            12 * i + 12,
        ));
        lemma_player_at(packet, 4 + 12 * i, held[i]);
    }
    assert(snapshot(packet) =~= held);
}

} // verus!
