//! What every packet does to a dedicated server and its players, byte for byte.

use crate::binary32::Binary32;
use crate::client::snapshot;
use crate::dedicated_server::{Authority, PlayerInput, PlayerState};
use crate::game_server::{
    clients,
    sync_effects,
    takeover_effects,
    Context,
    EffectView,
    GameView,
};
use crate::topics::{shard_label, shard_topic};
use crate::wire::{
    claim_message,
    law_number_list_is_read_back,
    law_u32_round_trip,
    le32,
    le32_all,
    number_list,
    ready_message,
    u32_at,
};
use vstd::prelude::*;

verus! {

/// The number behind the first byte of a packet.
proof fn lemma_first_number(tag: u8, number: u32, rest: Seq<u8>)
    ensures
        ({
            let packet = seq![tag] + le32(number) + rest;
            &&& packet.len() == 5 + rest.len()
            &&& packet[0] == tag
            &&& u32_at(packet, 1) == number
            &&& forall|i: int| 0 <= i < rest.len() ==> packet[5 + i] == #[trigger] rest[i]
        }),
{
    law_u32_round_trip(number, seq![tag], rest);
    let packet = seq![tag] + le32(number) + rest;
    assert forall|i: int| 0 <= i < rest.len() implies packet[5 + i] == #[trigger] rest[i] by {}
}

/// Every input that a known client sends, and that is no position, steers its player, once,
/// whoever decides where the player is and whether it is shown or not. Nothing else changes.
pub proof fn law_known_clients_steer_their_players(
    game: GameView,
    client_id: u32,
    payload: Seq<u8>,
    context: Context,
    input: PlayerInput,
)
    requires
        game.players.contains(client_id),
        payload.len() == 0 || payload[0] != 0x10,
        context.input == Some(input),
    ensures
        ({
            let packet = seq![0x05u8] + le32(client_id) + payload;
            &&& game.effects(packet, context) == seq![EffectView::Steer { client_id, input }]
            &&& game.after(packet, context) == game
        }),
{
    lemma_first_number(0x05, client_id, payload);
}

/// Whether and how a player is shown makes no difference to an input.
pub proof fn law_inputs_do_not_depend_on_what_is_shown(
    game: GameView,
    client_id: u32,
    payload: Seq<u8>,
    one: Context,
    other: Context,
)
    requires
        payload.len() == 0 || payload[0] != 0x10,
        one.input == other.input,
        one.join == other.join,
    ensures
        ({
            let packet = seq![0x05u8] + le32(client_id) + payload;
            &&& game.effects(packet, one) == game.effects(packet, other)
            &&& game.after(packet, one) == game.after(packet, other)
        }),
{
    lemma_first_number(0x05, client_id, payload);
}

/// A known client who asks to join becomes the server's own. A payload that is neither an input
/// nor a request to join does nothing.
pub proof fn law_known_clients_who_join_become_owned(
    game: GameView,
    client_id: u32,
    payload: Seq<u8>,
    context: Context,
)
    requires
        game.players.contains(client_id),
        payload.len() == 0 || payload[0] != 0x10,
        context.input is None,
    ensures
        ({
            let packet = seq![0x05u8] + le32(client_id) + payload;
            &&& context.join ==> game.effects(packet, context) == seq![
                EffectView::SetAuthority { client_id, authority: Authority::Owned },
            ]
            &&& !context.join ==> game.effects(packet, context).len() == 0
            &&& game.after(packet, context) == game
        }),
{
    lemma_first_number(0x05, client_id, payload);
}

/// A client who is not known enters the game where it asks to join: at the origin, as the
/// server's own. Whatever else it sends, but for a position, does nothing.
pub proof fn law_unknown_clients_join_at_the_origin(
    game: GameView,
    client_id: u32,
    payload: Seq<u8>,
    context: Context,
)
    requires
        !game.players.contains(client_id),
        payload.len() == 0 || payload[0] != 0x10,
    ensures
        ({
            let packet = seq![0x05u8] + le32(client_id) + payload;
            let origin = PlayerState {
                client_id,
                x: Binary32 { bits: 0 },
                y: Binary32 { bits: 0 },
            };
            let after = game.after(packet, context);
            &&& context.join ==> game.effects(packet, context) == seq![
                EffectView::Spawn { state: origin, authority: Authority::Owned },
            ]
            &&& context.join ==> after.players == game.players.insert(client_id)
            &&& !context.join ==> game.effects(packet, context).len() == 0
            &&& !context.join ==> after.players == game.players
            &&& after.shards == game.shards
        }),
{
    lemma_first_number(0x05, client_id, payload);
}

/// A position of a client who is not known brings it into the game as a shadow; a position of a
/// shadow puts it there; and one of any other player does nothing.
pub proof fn law_positions_place_shadows(
    game: GameView,
    client_id: u32,
    x: u32,
    y: u32,
    rest: Seq<u8>,
    context: Context,
)
    ensures
        ({
            let payload = seq![0x10u8] + le32(x) + le32(y) + rest;
            let packet = seq![0x05u8] + le32(client_id) + payload;
            let there = PlayerState {
                client_id,
                x: Binary32 { bits: x },
                y: Binary32 { bits: y },
            };
            let effects = game.effects(packet, context);
            let after = game.after(packet, context);
            let known = game.players.contains(client_id);
            &&& !known ==> effects == seq![
                EffectView::Spawn { state: there, authority: Authority::Shadow },
            ]
            &&& known && context.seen == Some(Authority::Shadow) ==> effects == seq![
                EffectView::Place { state: there },
            ]
            &&& known && context.seen != Some(Authority::Shadow) ==> effects.len() == 0
            &&& after.players == game.players.insert(client_id)
            &&& after.shards == game.shards
        }),
{
    let payload = seq![0x10u8] + le32(x) + le32(y) + rest;
    let packet = seq![0x05u8] + le32(client_id) + payload;
    lemma_first_number(0x05, client_id, payload);
    assert(packet[5] == payload[0]);
    law_u32_round_trip(x, seq![0x05u8] + le32(client_id) + seq![0x10u8], le32(y) + rest);
    assert(packet =~= seq![0x05u8] + le32(client_id) + seq![0x10u8] + le32(x) + (le32(y) + rest));
    law_u32_round_trip(y, seq![0x05u8] + le32(client_id) + seq![0x10u8] + le32(x), rest);
    assert(packet =~= seq![0x05u8] + le32(client_id) + seq![0x10u8] + le32(x) + le32(y) + rest);
    if game.players.contains(client_id) {
        assert(game.players.insert(client_id) =~= game.players);
    }
}

/// A position that is cut off does nothing.
pub proof fn law_short_positions_do_nothing(
    game: GameView,
    client_id: u32,
    payload: Seq<u8>,
    context: Context,
)
    requires
        0 < payload.len() < 9,
        payload[0] == 0x10,
    ensures
        game.effects(seq![0x05u8] + le32(client_id) + payload, context).len() == 0,
        game.after(seq![0x05u8] + le32(client_id) + payload, context) == game,
{
    lemma_first_number(0x05, client_id, payload);
    assert((seq![0x05u8] + le32(client_id) + payload)[5] == payload[0]);
}

/// A client who is gone leaves the game, where it was in it.
pub proof fn law_departed_players_leave_the_game(
    game: GameView,
    client_id: u32,
    rest: Seq<u8>,
    context: Context,
)
    ensures
        ({
            let packet = seq![0x07u8] + le32(client_id) + rest;
            let after = game.after(packet, context);
            &&& game.players.contains(client_id) ==> game.effects(packet, context) == seq![
                EffectView::Despawn { client_id },
            ]
            &&& !game.players.contains(client_id) ==> game.effects(packet, context).len() == 0
            &&& after.players == game.players.remove(client_id)
            &&& after.shards == game.shards
        }),
{
    lemma_first_number(0x07, client_id, rest);
}

/// A change of authority makes a known player the server's own where the server runs the new
/// shard, a shadow where it runs only the old one, and does nothing otherwise.
pub proof fn law_authority_goes_by_the_shards(
    game: GameView,
    client_id: u32,
    old_shard: u32,
    new_shard: u32,
    rest: Seq<u8>,
    context: Context,
)
    ensures
        ({
            let packet = seq![0x12u8] + le32(client_id) + (le32(old_shard) + le32(new_shard) + rest);
            let effects = game.effects(packet, context);
            let known = game.players.contains(client_id);
            let to = game.shards.contains(shard_label(new_shard));
            let from = game.shards.contains(shard_label(old_shard));
            &&& known && to ==> effects == seq![
                EffectView::SetAuthority { client_id, authority: Authority::Owned },
            ]
            &&& known && !to && from ==> effects == seq![
                EffectView::SetAuthority { client_id, authority: Authority::Shadow },
            ]
            &&& known && !to && !from ==> effects.len() == 0
            &&& !known ==> effects.len() == 0
            &&& game.after(packet, context) == game
        }),
{
    let behind = le32(old_shard) + le32(new_shard) + rest;
    let packet = seq![0x12u8] + le32(client_id) + behind;
    lemma_first_number(0x12, client_id, behind);
    law_u32_round_trip(old_shard, seq![0x12u8] + le32(client_id), le32(new_shard) + rest);
    assert(packet =~= seq![0x12u8] + le32(client_id) + le32(old_shard) + (le32(new_shard) + rest));
    law_u32_round_trip(new_shard, seq![0x12u8] + le32(client_id) + le32(old_shard), rest);
    assert(packet =~= seq![0x12u8] + le32(client_id) + le32(old_shard) + le32(new_shard) + rest);
}

/// The end of a server is ordered by the first byte of a packet.
pub proof fn law_shutdowns_end_the_server(game: GameView, packet: Seq<u8>, context: Context)
    requires
        packet.len() > 0,
    ensures
        packet[0] == 0x17 ==> game.effects(packet, context) == seq![EffectView::Exit],
        packet[0] == 0x17 ==> game.after(packet, context) == game,
        packet[0] != 0x17 ==> !game.effects(packet, context).contains(EffectView::Exit),
{
    if packet[0] != 0x17 {
        if packet[0] == 0x18 && packet.len() >= 5 {
            lemma_takeover(number_list(packet, 1));
        }
        if packet[0] == 0x04 {
            lemma_sync(game.players, snapshot(packet));
        }
    }
}

/// What a takeover asks for, shard by shard.
proof fn lemma_takeover(shards: Seq<u32>)
    ensures
        takeover_effects(shards).len() == 2 * shards.len(),
        forall|i: int|
            0 <= i < shards.len() ==> takeover_effects(shards)[2 * i] == (EffectView::Send {
                data: claim_message(shard_topic(#[trigger] shards[i])),
            }) && takeover_effects(shards)[2 * i + 1] == (EffectView::Send {
                data: ready_message(shards[i]),
            }),
        forall|k: int|
            0 <= k < takeover_effects(shards).len() ==> (#[trigger] takeover_effects(
                shards,
            )[k]) is Send,
    decreases shards.len(),
{
    if shards.len() > 0 {
        let fewer = shards.drop_last();
        lemma_takeover(fewer);
        let before = takeover_effects(fewer);
        let all = takeover_effects(shards);
        assert forall|i: int| 0 <= i < shards.len() implies all[2 * i] == (EffectView::Send {
            data: claim_message(shard_topic(#[trigger] shards[i])),
        }) && all[2 * i + 1] == (EffectView::Send { data: ready_message(shards[i]) }) by {
            if i < fewer.len() {
                assert(fewer[i] == shards[i]);
                assert(all[2 * i] == before[2 * i]);
                assert(all[2 * i + 1] == before[2 * i + 1]);
            }
        }
        assert forall|k: int| 0 <= k < all.len() implies (#[trigger] all[k]) is Send by {
            if k < before.len() {
                assert(all[k] == before[k]);
            }
        }
    }
}

/// A server that is given shards takes charge of each, says of each that it is ready, and runs
/// them from then on, after those it ran before.
pub proof fn law_assigned_shards_are_taken_over(
    game: GameView,
    packet: Seq<u8>,
    context: Context,
    i: int,
)
    requires
        packet.len() >= 5,
        packet[0] == 0x18,
        0 <= i < number_list(packet, 1).len(),
    ensures
        ({
            let shards = number_list(packet, 1);
            let effects = game.effects(packet, context);
            let after = game.after(packet, context);
            &&& effects.len() == 2 * shards.len()
            &&& effects[2 * i] == (EffectView::Send {
                data: seq![0x06u8] + shard_topic(shards[i]),
            })
            &&& effects[2 * i + 1] == (EffectView::Send { data: seq![0x14u8] + le32(shards[i]) })
            &&& after.shards.len() == game.shards.len() + shards.len()
            &&& after.shards.take(game.shards.len() as int) == game.shards
            &&& after.shards[game.shards.len() + i] == shard_label(shards[i])
            &&& after.players == game.players
        }),
{
    lemma_takeover(number_list(packet, 1));
    let after = game.after(packet, context);
    assert(after.shards.take(game.shards.len() as int) =~= game.shards);
}

/// To be given no shards does nothing.
pub proof fn law_no_shards_are_no_takeover(game: GameView, packet: Seq<u8>, context: Context)
    requires
        packet.len() >= 5,
        packet[0] == 0x18,
        number_list(packet, 1).len() == 0,
    ensures
        game.effects(packet, context).len() == 0,
        game.after(packet, context).shards == game.shards,
        game.after(packet, context).players == game.players,
{
    assert(game.after(packet, context).shards =~= game.shards);
}

/// The shards that a packet assigns are those it lists.
pub proof fn law_assignments_are_understood(shards: Seq<u32>)
    requires
        shards.len() <= u32::MAX,
    ensures
        number_list(seq![0x18u8] + le32(shards.len() as u32) + le32_all(shards), 1) == shards,
{
    law_number_list_is_read_back(seq![0x18u8], shards);
}

/// Whether a client is among the first `n` players of a list.
pub open spec fn is_among(players: Seq<PlayerState>, n: int, client_id: u32) -> bool {
    exists|j: int| 0 <= j < n && (#[trigger] players[j]).client_id == client_id
}

proof fn lemma_clients(players: Seq<PlayerState>, client_id: u32)
    ensures
        clients(players).contains(client_id) <==> is_among(
            players,
            players.len() as int,
            client_id,
        ),
{
    let ids = players.map_values(|p: PlayerState| p.client_id);
    if clients(players).contains(client_id) {
        let j = choose|j: int| 0 <= j < ids.len() && ids[j] == client_id;
        assert(players[j].client_id == client_id);
    }
    if is_among(players, players.len() as int, client_id) {
        let j = choose|j: int|
            0 <= j < players.len() && (#[trigger] players[j]).client_id == client_id;
        assert(ids[j] == client_id);
    }
}

/// What following another server leads to, player by player.
proof fn lemma_sync(known: Set<u32>, players: Seq<PlayerState>)
    ensures
        sync_effects(known, players).len() == players.len(),
        forall|i: int|
            0 <= i < players.len() ==> (#[trigger] sync_effects(known, players)[i]) == (
            if known.contains(players[i].client_id) || is_among(players, i, players[i].client_id) {
                EffectView::Place { state: players[i] }
            } else {
                EffectView::Spawn { state: players[i], authority: Authority::Shadow }
            }),
    decreases players.len(),
{
    if players.len() > 0 {
        let fewer = players.drop_last();
        lemma_sync(known, fewer);
        let all = sync_effects(known, players);
        let before = sync_effects(known, fewer);
        assert forall|i: int| 0 <= i < players.len() implies (#[trigger] all[i]) == (
        if known.contains(players[i].client_id) || is_among(players, i, players[i].client_id) {
            EffectView::Place { state: players[i] }
        } else {
            EffectView::Spawn { state: players[i], authority: Authority::Shadow }
        }) by {
            let id = players[i].client_id;
            if is_among(fewer, i, id) {
                let j = choose|j: int| 0 <= j < i && (#[trigger] fewer[j]).client_id == id;
                assert(players[j].client_id == id);
            }
            if is_among(players, i, id) {
                let j = choose|j: int| 0 <= j < i && (#[trigger] players[j]).client_id == id;
                assert(fewer[j].client_id == id);
            }
            if i < fewer.len() {
                assert(all[i] == before[i]);
                assert(fewer[i] == players[i]);
            } else {
                lemma_clients(fewer, id);
            }
        }
    }
}

/// Every player of another server's broadcast, in its order, is put where it is said to be, if
/// it is known by then, and else enters the game there as a shadow. All of them are known
/// afterwards, and nobody else.
pub proof fn law_every_player_of_a_broadcast_is_followed(
    game: GameView,
    packet: Seq<u8>,
    context: Context,
    i: int,
    client_id: u32,
)
    requires
        packet.len() > 0,
        packet[0] == 0x04,
        0 <= i < snapshot(packet).len(),
    ensures
        ({
            let players = snapshot(packet);
            let effects = game.effects(packet, context);
            let after = game.after(packet, context);
            let known = game.players.contains(players[i].client_id) || is_among(
                players,
                i,
                players[i].client_id,
            );
            &&& effects.len() == players.len()
            &&& known ==> effects[i] == (EffectView::Place { state: players[i] })
            &&& !known ==> effects[i] == (EffectView::Spawn {
                state: players[i],
                authority: Authority::Shadow,
            })
            &&& after.players.contains(client_id) <==> game.players.contains(client_id) || is_among(
                players,
                players.len() as int,
                client_id,
            )
            &&& after.shards == game.shards
        }),
{
    lemma_sync(game.players, snapshot(packet));
    lemma_clients(snapshot(packet), client_id);
}

/// A broadcast without players changes nothing.
pub proof fn law_empty_broadcasts_do_nothing(game: GameView, packet: Seq<u8>, context: Context)
    requires
        packet.len() > 0,
        packet[0] == 0x04,
        snapshot(packet).len() == 0,
    ensures
        game.effects(packet, context).len() == 0,
        game.after(packet, context) == game,
{
    lemma_sync(game.players, snapshot(packet));
    assert(clients(snapshot(packet)) =~= Set::empty());
    assert(game.players.union(clients(snapshot(packet))) =~= game.players);
}

/// Whatever a server does not know, or what is too short, does nothing.
pub proof fn law_other_packets_do_nothing(game: GameView, packet: Seq<u8>, context: Context)
    requires
        packet.len() == 0 || (packet[0] != 0x04 && packet[0] != 0x17 && (packet.len() < 5 || (
        packet[0] != 0x05 && packet[0] != 0x07 && packet[0] != 0x18 && (packet[0] != 0x12
            || packet.len() < 13)))),
    ensures
        game.effects(packet, context).len() == 0,
        game.after(packet, context) == game,
{
}

} // verus!
