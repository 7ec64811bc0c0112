//! What a client makes of what it is told, and how its player moves.

use crate::binary32::Binary32;
use crate::client::{
    axis,
    direction,
    distance_squared,
    exceeds,
    followed,
    leads_nowhere,
    lerp,
    lerp_share,
    player_label,
    snapshot,
    strode,
    ClientView,
    Keys,
};
use crate::dedicated_server::PlayerState;
use crate::geometry::Vec2;
use crate::number_laws::{
    law_differences_turn_round,
    law_one_and_zero,
    law_products_go_by_the_signs,
    law_squares_forget_the_sign,
    law_sums_overflow,
};
use crate::text::{decimal, decimal_value, lemma_decimal, pow10};
use crate::wire::{law_u32_round_trip, le32, u32_at};
use vstd::prelude::*;

verus! {

/// A player who is neither shown nor known is put on show and known from then on; if it is the
/// client's own, the client is in the game. Any other sighting changes nothing.
pub proof fn law_new_players_become_known(client: ClientView, own_id: u32, p_id: u32, on_show: bool)
    ensures
        ({
            let after = client.after_sighting(own_id, p_id, on_show);
            let new = !on_show && !client.known.contains(p_id);
            &&& client.is_new(p_id, on_show) <==> new
            &&& new ==> after.known == client.known.insert(p_id)
            &&& new && p_id == own_id ==> after.spawned
            &&& new && p_id != own_id ==> after.spawned == client.spawned
            &&& !new ==> after == client
            &&& after.joined == client.joined
            &&& after.shard_authority == client.shard_authority
        }),
{
}

/// A player is put on show once: after it was seen, it is new no longer.
pub proof fn law_players_are_new_once(client: ClientView, own_id: u32, p_id: u32, on_show: bool, later: bool)
    ensures
        !client.after_sighting(own_id, p_id, on_show).is_new(p_id, later) || (on_show
            && !client.known.contains(p_id) && !later),
{
}

/// A change of authority over the client puts the new shard in charge of it, whatever shard it
/// had; one over another client changes nothing, nor does any other packet.
pub proof fn law_clients_follow_their_authority(
    client: ClientView,
    own_id: u32,
    client_id: u32,
    old_shard: u32,
    new_shard: u32,
    rest: Seq<u8>,
    other: Seq<u8>,
)
    requires
        other.len() < 13 || other[0] != 0x12,
    ensures
        ({
            let packet = seq![0x12u8] + le32(client_id) + (le32(old_shard) + le32(new_shard) + rest);
            let after = client.after_authority(own_id, packet);
            &&& client_id == own_id ==> after.shard_authority == Some(new_shard) && after.joined
            &&& client_id == own_id ==> after.spawned == client.spawned && after.known
                == client.known
            &&& client_id != own_id ==> after == client
            &&& client.after_authority(own_id, other) == client
        }),
{
    let behind = le32(old_shard) + le32(new_shard) + rest;
    let packet = seq![0x12u8] + le32(client_id) + behind;
    law_u32_round_trip(client_id, seq![0x12u8], behind);
    law_u32_round_trip(new_shard, seq![0x12u8] + le32(client_id) + le32(old_shard), rest);
    assert(packet =~= seq![0x12u8] + le32(client_id) + le32(old_shard) + le32(new_shard) + rest);
    assert(packet.len() == 13 + rest.len());
}

/// A broadcast holds as many players as it says, or as many as are complete where it is cut off.
/// Each takes twelve bytes: its number and its coordinates.
pub proof fn law_broadcasts_are_read_as_far_as_they_go(packet: Seq<u8>, i: int, player: PlayerState)
    requires
        packet.len() >= 4,
        packet[0] == 0x04,
        0 <= i,
        16 + 12 * i <= packet.len(),
        i < packet[3],
        packet.subrange(4 + 12 * i, 16 + 12 * i) == le32(player.client_id) + le32(player.x.bits)
            + le32(player.y.bits),
    ensures
        snapshot(packet).len() <= packet[3],
        4 + 12 * snapshot(packet).len() <= packet.len(),
        snapshot(packet).len() == packet[3] || 4 + 12 * (snapshot(packet).len() + 1) > packet.len(),
        i < snapshot(packet).len(),
        snapshot(packet)[i] == player,
{
    let at = 4 + 12 * i;
    let bytes = le32(player.client_id) + le32(player.x.bits) + le32(player.y.bits);
    assert forall|k: int| 0 <= k < 12 implies packet[at + k] == bytes[k] by {
        assert(packet.subrange(at, at + 12)[k] == packet[at + k]);
    }
    law_u32_round_trip(player.client_id, Seq::empty(), le32(player.x.bits) + le32(player.y.bits));
    assert(bytes =~= Seq::empty() + le32(player.client_id) + (le32(player.x.bits) + le32(
        player.y.bits,
    )));
    law_u32_round_trip(player.x.bits, le32(player.client_id), le32(player.y.bits));
    law_u32_round_trip(
        player.y.bits,
        le32(player.client_id) + le32(player.x.bits),
        Seq::empty(),
    );
    assert(bytes =~= bytes + Seq::empty());
    assert(u32_at(packet, at) == u32_at(bytes, 0));
    assert(u32_at(packet, at + 4) == u32_at(bytes, 4));
    assert(u32_at(packet, at + 8) == u32_at(bytes, 8));
}

/// What is no broadcast, or has no room for a count, holds no players.
pub proof fn law_other_packets_hold_no_players(packet: Seq<u8>)
    requires
        packet.len() < 4 || packet[0] != 0x04,
    ensures
        snapshot(packet).len() == 0,
{
}

/// Keys that are pressed against each other cancel out. Along one axis a player goes with length
/// one, along both with the same length, shared equally.
pub proof fn law_keys_lead_where_they_point(keys: Keys)
    ensures
        ({
            let x = direction(axis(keys.right, keys.left), axis(keys.up, keys.down));
            let y = direction(axis(keys.up, keys.down), axis(keys.right, keys.left));
            let both = keys.right != keys.left && keys.up != keys.down;
            &&& keys.right == keys.left ==> x.bits == 0
            &&& keys.up == keys.down ==> y.bits == 0
            &&& keys.right && !keys.left && !both ==> x.bits == 0x3f80_0000
            &&& keys.left && !keys.right && !both ==> x.bits == 0xbf80_0000
            &&& keys.up && !keys.down && !both ==> y.bits == 0x3f80_0000
            &&& keys.down && !keys.up && !both ==> y.bits == 0xbf80_0000
            &&& keys.right && !keys.left && both ==> x.bits == 0x3f35_04f3
            &&& keys.left && !keys.right && both ==> x.bits == 0xbf35_04f3
            &&& keys.up && !keys.down && both ==> y.bits == 0x3f35_04f3
            &&& keys.down && !keys.up && both ==> y.bits == 0xbf35_04f3
            &&& leads_nowhere(keys) <==> keys.right == keys.left && keys.up == keys.down
        }),
{
}

/// The opposite keys lead the opposite way.
pub proof fn law_opposite_keys_lead_back(keys: Keys)
    ensures
        ({
            let turned = Keys {
                up: keys.down,
                down: keys.up,
                left: keys.right,
                right: keys.left,
            };
            let x = direction(axis(keys.right, keys.left), axis(keys.up, keys.down));
            let back = direction(axis(turned.right, turned.left), axis(turned.up, turned.down));
            &&& x.value() == -back.value()
            &&& leads_nowhere(turned) == leads_nowhere(keys)
        }),
{
    assert(crate::binary32::magnitude_value(0) == 0);
}

/// Three hundred units a second in a direction.
pub proof fn law_players_stride(at: Binary32, dir: Binary32, delta: Binary32)
    ensures
        strode(at, dir, delta) == at.sum(dir.product(Binary32 { bits: 0x4396_0000 }).product(delta)),
{
}

/// One number exceeds another exactly where both are numbers and it is worth more.
pub proof fn law_exceeding_goes_by_worth(a: Binary32, b: Binary32)
    ensures
        exceeds(a, b) <==> !a.is_nan() && !b.is_nan() && a.value() > b.value(),
        exceeds(a, b) ==> !exceeds(b, a),
{
}

/// The square of a distance is the sum of the squares of the two differences.
pub proof fn law_squared_distances(a: Vec2, b: Vec2)
    ensures
        ({
            let dx = a.x.difference(b.x);
            let dy = a.y.difference(b.y);
            distance_squared(a, b) == dx.product(dx).sum(dy.product(dy))
        }),
{
}

/// Another player is drawn along its way by fifteen times the time, and at most to its end.
pub proof fn law_players_glide_to_their_target(
    from: Binary32,
    to: Binary32,
    share: Binary32,
    delta: Binary32,
)
    ensures
        ({
            let one = Binary32 { bits: 0x3f80_0000 };
            let wanted = delta.product(Binary32 { bits: 0x4170_0000 });
            &&& !wanted.is_nan() && wanted.value() <= one.value() ==> lerp_share(delta) == wanted
            &&& wanted.is_nan() || wanted.value() > one.value() ==> lerp_share(delta) == one
            &&& lerp_share(delta).spec_le(one)
            &&& lerp(from, to, share) == from.product(one.difference(share)).sum(to.product(share))
        }),
{
}

/// A player who is drawn none of its way stays where it is, and one who is drawn all of it is
/// where it is going.
pub proof fn law_the_way_begins_and_ends(from: Binary32, to: Binary32, one: Binary32, zero: Binary32)
    requires
        from.is_finite(),
        to.is_finite(),
        one.bits == 0x3f80_0000,
        zero.bits == 0,
    ensures
        lerp(from, to, zero).value() == from.value(),
        lerp(from, to, one).value() == to.value(),
{
    law_one_and_zero(from, one, zero);
    law_one_and_zero(to, one, zero);
    law_one_and_zero(one, one, zero);
    law_differences_turn_round(one, one);
    law_one_and_zero(one, one, zero.negated());
    let none = one.difference(one);
    law_one_and_zero(from, one, none);
    let gone = from.product(none);
    law_one_and_zero(to, one, gone);
    let all = one.difference(zero);
    assert(all == one.sum(zero.negated()));
    assert(all == one) by {
        crate::number_laws::lemma_same_worth(all, one);
    }
    law_one_and_zero(from, one, to.product(zero));
}

/// A player who wants to go nowhere stays where it is, however much time passes; so does a camera
/// that is where its player is.
pub proof fn law_nothing_moves_by_itself(at: Binary32, delta: Binary32, zero: Binary32)
    requires
        at.is_finite(),
        delta.is_finite(),
        zero.magnitude() == 0,
    ensures
        strode(at, zero, delta).value() == at.value(),
        crate::dedicated_server::moved(
            at,
            zero,
            crate::dedicated_server::Authority::Owned,
            delta,
        ).value() == at.value(),
        followed(at, at).value() == at.value(),
{
    let one = Binary32 { bits: 0x3f80_0000 };
    let fast = Binary32 { bits: 0x4396_0000 };
    let slow = Binary32 { bits: 0x40a0_0000 };
    let rate = Binary32 { bits: 0x3dcc_cccd };
    law_one_and_zero(fast, one, zero);
    law_one_and_zero(slow, one, zero);
    law_products_go_by_the_signs(zero, fast);
    law_products_go_by_the_signs(zero, slow);
    let a = zero.product(fast);
    let b = zero.product(slow);
    law_one_and_zero(delta, one, a);
    law_one_and_zero(delta, one, b);
    law_products_go_by_the_signs(a, delta);
    law_products_go_by_the_signs(b, delta);
    law_one_and_zero(at, one, a.product(delta));
    law_one_and_zero(at, one, b.product(delta));
    law_differences_turn_round(at, at);
    let d = at.difference(at);
    law_one_and_zero(rate, one, d);
    law_products_go_by_the_signs(d, rate);
    law_one_and_zero(at, one, d.product(rate));
}

proof fn lemma_squared_difference(a: Binary32, b: Binary32)
    requires
        a.is_finite(),
        b.is_finite(),
    ensures
        a.difference(b).product(a.difference(b)) == b.difference(a).product(b.difference(a)),
{
    let there = a.difference(b);
    let back = b.difference(a);
    law_differences_turn_round(a, b);
    law_sums_overflow(b, a.negated());
    law_sums_overflow(a, b.negated());
    law_squares_forget_the_sign(there);
    law_squares_forget_the_sign(back);
    if a.value() == b.value() {
        let one = Binary32 { bits: 0x3f80_0000 };
        law_one_and_zero(there, one, there);
        law_one_and_zero(back, one, back);
        assert(there.product(there).bits == 0);
        assert(back.product(back).bits == 0);
    }
}

/// Two points are as far from each other as the other way round, and a point is not away from
/// itself.
pub proof fn law_distances_go_both_ways(a: Vec2, b: Vec2)
    requires
        a.x.is_finite() && a.y.is_finite() && b.x.is_finite() && b.y.is_finite(),
    ensures
        distance_squared(a, b) == distance_squared(b, a),
        distance_squared(a, a).value() == 0,
{
    lemma_squared_difference(a.x, b.x);
    lemma_squared_difference(a.y, b.y);
    law_differences_turn_round(a.x, a.x);
    law_differences_turn_round(a.y, a.y);
    let one = Binary32 { bits: 0x3f80_0000 };
    let dx = a.x.difference(a.x);
    let dy = a.y.difference(a.y);
    law_one_and_zero(dx, one, dx);
    law_one_and_zero(dy, one, dy);
    law_one_and_zero(dx.product(dx), one, dy.product(dy));
}

/// The camera goes a tenth of its way to the player in each frame.
pub proof fn law_the_camera_follows(camera: Binary32, target: Binary32)
    ensures
        followed(camera, target) == camera.sum(
            target.difference(camera).product(Binary32 { bits: 0x3dcc_cccd }),
        ),
{
}

/// The numbers by which clients play: they are numbered from 1000 to 9998, put back where they are
/// more than a hundred units off, and others are gone after two seconds.
pub proof fn law_clients_play_by_these_numbers()
    ensures
        crate::client::FIRST_CLIENT_ID == 1000,
        crate::client::END_CLIENT_ID == 9999,
        crate::client::SNAP_SQUARED == 0x461c_4000,
        crate::client::STALE_AFTER == 0x4000_0000,
{
}

/// Every client plays under a name of its own.
pub proof fn law_clients_have_their_own_names(a: u32, b: u32)
    ensures
        player_label(a) == seq!['P', 'l', 'a', 'y', 'e', 'r', '_'] + decimal(a as nat),
        player_label(a) == player_label(b) ==> a == b,
{
    reveal_with_fuel(pow10, 12);
    lemma_decimal(a as nat, pow10(10), 10);
    lemma_decimal(b as nat, pow10(10), 10);
    assert(player_label(a).skip(7) =~= decimal(a as nat));
    assert(player_label(b).skip(7) =~= decimal(b as nat));
    assert(decimal_value(decimal(a as nat)) == a);
}

} // verus!
