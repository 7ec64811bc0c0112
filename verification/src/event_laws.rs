//! What packets mean to the spatial server, what it answers, and what its world is.

use crate::binary32::Binary32;
use crate::geometry::{Vec2, ZERO};
use crate::grid::lemma_around_on_grid;
use crate::spatial::{ActionView, PositionUpdate};
use crate::spatial_server::{
    action_message,
    action_messages,
    event_of,
    world,
    EventView,
    MARGIN,
    MAX_DEPTH,
    ROOT_SHARD,
    WORLD_SIDE,
};
use crate::wire::{
    law_numbers_are_read_back,
    law_u32_round_trip,
    le32,
    le32_all,
    number_list,
    orchestrator_topic,
    u32_at,
};
use vstd::arithmetic::power2::{lemma_pow2_adds, pow2};
use vstd::prelude::*;

verus! {

/// Where the parts of a client's input are.
proof fn lemma_input_parts(client_id: u32, tag: u8, rest: Seq<u8>)
    ensures
        ({
            let packet = seq![0x05u8] + le32(client_id) + seq![tag] + rest;
            &&& packet.len() == 6 + rest.len()
            &&& packet[0] == 0x05
            &&& packet[5] == tag
            &&& u32_at(packet, 1) == client_id
        }),
{
    let packet = seq![0x05u8] + le32(client_id) + seq![tag] + rest;
    law_u32_round_trip(client_id, seq![0x05u8], seq![tag] + rest);
    assert(packet =~= seq![0x05u8] + le32(client_id) + (seq![tag] + rest));
}

/// What a position means.
pub proof fn law_positions_are_understood(client_id: u32, x: u32, y: u32, rest: Seq<u8>)
    ensures
        event_of(
            seq![0x05u8] + le32(client_id) + seq![0x10u8] + (le32(x) + le32(y) + rest),
        ) == (EventView::Position {
            update: PositionUpdate {
                client_id,
                x: Binary32 { bits: x },
                y: Binary32 { bits: y },
            },
        }),
{
    let behind = le32(x) + le32(y) + rest;
    let packet = seq![0x05u8] + le32(client_id) + seq![0x10u8] + behind;
    lemma_input_parts(client_id, 0x10, behind);
    let head = seq![0x05u8] + le32(client_id) + seq![0x10u8];
    law_u32_round_trip(x, head, le32(y) + rest);
    assert(packet =~= head + le32(x) + (le32(y) + rest));
    law_u32_round_trip(y, head + le32(x), rest);
    assert(packet =~= head + le32(x) + le32(y) + rest);
}

/// What the signal that a shard is ready means, whoever passes it on.
pub proof fn law_ready_signals_are_understood(client_id: u32, shard_id: u32, rest: Seq<u8>)
    ensures
        event_of(seq![0x05u8] + le32(client_id) + seq![0x14u8] + (le32(shard_id) + rest)) == (
        EventView::Ready { shard_id }),
{
    let behind = le32(shard_id) + rest;
    let packet = seq![0x05u8] + le32(client_id) + seq![0x14u8] + behind;
    lemma_input_parts(client_id, 0x14, behind);
    let head = seq![0x05u8] + le32(client_id) + seq![0x14u8];
    law_u32_round_trip(shard_id, head, rest);
    assert(packet =~= head + le32(shard_id) + rest);
}

/// What the departure of a client means.
pub proof fn law_departures_are_understood(client_id: u32, rest: Seq<u8>)
    ensures
        event_of(seq![0x07u8] + le32(client_id) + rest) == (EventView::Disconnect { client_id }),
{
    law_u32_round_trip(client_id, seq![0x07u8], rest);
}

/// Whatever else is sent, or is cut off, means nothing.
pub proof fn law_other_packets_mean_nothing(packet: Seq<u8>)
    requires
        packet.len() < 5 || (packet[0] != 0x05 && packet[0] != 0x07) || (packet[0] == 0x05 && (
        packet.len() < 6 || (packet[5] != 0x10 && packet[5] != 0x14 && packet[5] != 0x19) || (
        packet[5] == 0x10 && packet.len() < 14) || (packet[5] != 0x10 && packet.len() < 10))),
    ensures
        event_of(packet) == EventView::Ignored,
{
}

/// A list of numbers is read as far as it goes: as many as are announced, or as many as are
/// complete.
pub proof fn law_lists_are_read_as_far_as_they_go(
    head: Seq<u8>,
    announced: u32,
    numbers: Seq<u32>,
    rest: Seq<u8>,
)
    requires
        announced <= numbers.len() || rest.len() < 4,
    ensures
        number_list(head + le32(announced) + le32_all(numbers) + rest, head.len() as int)
            == numbers.take(
            if announced <= numbers.len() {
                announced as int
            } else {
                numbers.len() as int
            },
        ),
{
    let front = head + le32(announced);
    let full = front + le32_all(numbers);
    let packet = full + rest;
    let at = head.len() as int;
    law_u32_round_trip(announced, head, le32_all(numbers) + rest);
    assert(packet =~= head + le32(announced) + (le32_all(numbers) + rest));
    let n = if announced <= numbers.len() {
        announced as int
    } else {
        numbers.len() as int
    };
    if numbers.len() > 0 {
        law_numbers_are_read_back(front, numbers, 0);
    } else {
        assert(le32_all(numbers) =~= Seq::empty());
    }
    assert(full.len() == at + 4 + 4 * numbers.len());
    let found = number_list(packet, at);
    assert(found.len() == n);
    assert forall|i: int| 0 <= i < n implies found[i] == numbers[i] by {
        law_numbers_are_read_back(front, numbers, i);
        let k = front.len() + 4 * i;
        assert(packet[k] == full[k] && packet[k + 1] == full[k + 1] && packet[k + 2] == full[k + 2]
            && packet[k + 3] == full[k + 3]);
        assert(u32_at(packet, k) == u32_at(full, k));
    }
    assert(found =~= numbers.take(n));
}

/// What the report means that the server of some shards is gone, whoever passes it on: the shards
/// are read as far as the list goes.
pub proof fn law_crashes_are_understood(
    client_id: u32,
    announced: u32,
    shards: Seq<u32>,
    rest: Seq<u8>,
)
    requires
        announced <= shards.len() || rest.len() < 4,
    ensures
        event_of(
            seq![0x05u8] + le32(client_id) + seq![0x19u8] + (le32(announced) + le32_all(shards)
                + rest),
        ) == (EventView::Crash {
            shards: shards.take(
                if announced <= shards.len() {
                    announced as int
                } else {
                    shards.len() as int
                },
            ),
        }),
{
    let behind = le32(announced) + le32_all(shards) + rest;
    let packet = seq![0x05u8] + le32(client_id) + seq![0x19u8] + behind;
    lemma_input_parts(client_id, 0x19, behind);
    let head = seq![0x05u8] + le32(client_id) + seq![0x19u8];
    law_lists_are_read_as_far_as_they_go(head, announced, shards, rest);
    assert(packet =~= head + le32(announced) + le32_all(shards) + rest);
}

/// What the spatial server sends for each thing it asks for, byte for byte.
pub proof fn law_actions_are_sent(client_id: u32, topic: Seq<u8>, a: u32, b: u32, shards: Seq<u32>)
    requires
        shards.len() < 256,
    ensures
        action_message((ActionView::Subscribe { client_id, topic })) == seq![0x01u8] + le32(
            client_id,
        ) + topic,
        action_message((ActionView::Unsubscribe { client_id, topic })) == seq![0x02u8] + le32(
            client_id,
        ) + topic,
        action_message((ActionView::CrossingAlert { client_id, shards })) == seq![0x11u8] + le32(
            client_id,
        ) + seq![shards.len() as u8] + le32_all(shards),
        action_message(
            (ActionView::AuthorityChange { client_id, old_shard: a, new_shard: b }),
        ) == seq![0x12u8] + le32(client_id) + le32(a) + le32(b),
        action_message((ActionView::ScaleUp { parent_shard: a, new_shards: shards })) == seq![0x08u8]
            + orchestrator_topic() + (seq![0x13u8] + le32(a) + le32_all(shards)),
        action_message((ActionView::ScaleDown { parent_shard: a, old_shards: shards })) == seq![
            0x08u8,
        ] + orchestrator_topic() + (seq![0x15u8] + le32(a) + le32_all(shards)),
{
}

/// There is one message for each thing that is asked for, in order.
pub proof fn law_every_action_is_sent(actions: Seq<ActionView>, i: int)
    requires
        0 <= i < actions.len(),
    ensures
        action_messages(actions).len() == actions.len(),
        action_messages(actions)[i] == action_message(actions[i]),
{
}

/// The world reaches a thousand units in each direction from the origin, is one shard, numbered
/// zero, to begin with, can be divided four times over, and clients listen fifty units around.
pub proof fn law_the_world_is_two_thousand_wide()
    ensures
        world().min.x.value() == -1000 * pow2(149),
        world().min.y.value() == -1000 * pow2(149),
        world().max.x.value() == 1000 * pow2(149),
        world().max.y.value() == 1000 * pow2(149),
        MAX_DEPTH == 4,
        ROOT_SHARD == 0,
        MARGIN == 0x4248_0000,
{
    let zero = Binary32 { bits: ZERO };
    let side = Binary32 { bits: WORLD_SIDE };
    crate::binary32::lemma_value_of_parts(137, 0xfa_0000);
    assert(side.magnitude() == 136 * 0x80_0000 + 0xfa_0000);
    vstd::arithmetic::power2::lemma2_to64();
    lemma_pow2_adds(11, 136);
    lemma_pow2_adds(2, 147);
    assert(0xfa_0000 * pow2(136) == 8000 * pow2(147)) by (nonlinear_arith)
        requires
            pow2(147) == 2048 * pow2(136),
    ;
    assert(crate::binary32::magnitude_value(0) == 0);
    lemma_around_on_grid(
        Vec2 { x: zero, y: zero },
        0,
        0,
        Vec2 { x: side, y: side },
        4000,
        4000,
        147,
    );
}

} // verus!
