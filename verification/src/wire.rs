//! The wire format: little-endian numbers behind a one-byte tag.

use crate::topics::{lemma_shard_label, shard_label, shard_topic, string_to_topic, topic_of};
use vstd::prelude::*;
use vstd::utf8::{encode_utf8, is_ascii_chars, is_ascii_chars_encode_utf8};

verus! {

pub const TAG_SUBSCRIBE: u8 = 0x01;

pub const TAG_UNSUBSCRIBE: u8 = 0x02;

pub const TAG_PUBLISH: u8 = 0x03;

pub const TAG_BROADCAST: u8 = 0x04;

pub const TAG_CLIENT_INPUT: u8 = 0x05;

pub const TAG_CLAIM_AUTHORITY: u8 = 0x06;

pub const TAG_DISCONNECT: u8 = 0x07;

pub const TAG_ROUTE_TO_TOPIC: u8 = 0x08;

pub const TAG_POSITION: u8 = 0x10;

pub const TAG_CROSSING_ALERT: u8 = 0x11;

pub const TAG_AUTHORITY_CHANGE: u8 = 0x12;

pub const TAG_SCALE_UP: u8 = 0x13;

pub const TAG_READY: u8 = 0x14;

pub const TAG_SCALE_DOWN: u8 = 0x15;

pub const TAG_SHUTDOWN: u8 = 0x17;

pub const TAG_ASSIGN_SHARDS: u8 = 0x18;

pub const TAG_SERVER_CRASH: u8 = 0x19;

/// A 16-bit number, least significant byte first.
pub open spec fn le16(x: u16) -> Seq<u8> {
    seq![(x % 256) as u8, (x / 256) as u8]
}

/// A 32-bit number, least significant byte first.
pub open spec fn le32(x: u32) -> Seq<u8> {
    seq![
        (x % 256) as u8,
        (x / 256 % 256) as u8,
        (x / 65536 % 256) as u8,
        (x / 16777216) as u8,
    ]
}

/// The 16-bit number at an offset.
pub open spec fn u16_at(s: Seq<u8>, at: int) -> u16 {
    (s[at] + 256 * s[at + 1]) as u16
}

/// The 32-bit number at an offset.
pub open spec fn u32_at(s: Seq<u8>, at: int) -> u32 {
    (s[at] + 256 * s[at + 1] + 65536 * s[at + 2] + 16777216 * s[at + 3]) as u32
}

/// 32-bit numbers one after the other.
pub open spec fn le32_all(numbers: Seq<u32>) -> Seq<u8>
    decreases numbers.len(),
{
    if numbers.len() == 0 {
        Seq::empty()
    } else {
        le32_all(numbers.drop_last()) + le32(numbers.last())
    }
}

/// Messages as sequences of bytes.
pub open spec fn contents(messages: Seq<Vec<u8>>) -> Seq<Seq<u8>> {
    messages.map_values(|message: Vec<u8>| message@)
}

/// How many entries of `width` bytes a packet holds behind the count at `at`: as many as the
/// count says, but no more than there is room for.
pub open spec fn entries_held(packet: Seq<u8>, at: int, width: int) -> nat {
    let announced = u32_at(packet, at) as nat;
    let room = ((packet.len() - at - 4) / width) as nat;
    if announced <= room {
        announced
    } else {
        room
    }
}

/// The 32-bit numbers of a packet behind the count at `at`.
pub open spec fn number_list(packet: Seq<u8>, at: int) -> Seq<u32> {
    Seq::new(entries_held(packet, at, 4), |i: int| u32_at(packet, at + 4 + 4 * i))
}

/// What was written as a 32-bit number is read back as it was.
pub proof fn law_u32_round_trip(x: u32, before: Seq<u8>, after: Seq<u8>)
    ensures
        u32_at(before + le32(x) + after, before.len() as int) == x,
{
    let s = before + le32(x) + after;
    let at = before.len() as int;
    assert(s[at] == le32(x)[0]);
    assert(s[at + 1] == le32(x)[1]);
    assert(s[at + 2] == le32(x)[2]);
    assert(s[at + 3] == le32(x)[3]);
}

/// What was written as a 16-bit number is read back as it was.
pub proof fn law_u16_round_trip(x: u16, before: Seq<u8>, after: Seq<u8>)
    ensures
        u16_at(before + le16(x) + after, before.len() as int) == x,
{
    let s = before + le16(x) + after;
    let at = before.len() as int;
    assert(s[at] == le16(x)[0]);
    assert(s[at + 1] == le16(x)[1]);
}

/// Where the numbers of a list stand.
proof fn lemma_le32_all(numbers: Seq<u32>, i: int)
    requires
        0 <= i < numbers.len(),
    ensures
        le32_all(numbers).len() == 4 * numbers.len(),
        le32_all(numbers).subrange(4 * i, 4 * i + 4) == le32(numbers[i]),
    decreases numbers.len(),
{
    let fewer = numbers.drop_last();
    let all = le32_all(numbers);
    if fewer.len() > 0 {
        lemma_le32_all(
            fewer,
            if i < fewer.len() {
                i
            } else {
                0
            },
        );
    } else {
        assert(le32_all(fewer) =~= Seq::empty());
    }
    if i < fewer.len() {
        assert(all.subrange(4 * i, 4 * i + 4) =~= le32_all(fewer).subrange(4 * i, 4 * i + 4));
    } else {
        assert(all.subrange(4 * i, 4 * i + 4) =~= le32(numbers.last()));
    }
}

/// Numbers that were written one after the other are read back as they were.
pub proof fn law_numbers_are_read_back(before: Seq<u8>, numbers: Seq<u32>, i: int)
    requires
        0 <= i < numbers.len(),
    ensures
        (before + le32_all(numbers)).len() == before.len() + 4 * numbers.len(),
        u32_at(before + le32_all(numbers), before.len() + 4 * i) == numbers[i],
{
    lemma_le32_all(numbers, i);
    let all = le32_all(numbers);
    let s = before + all;
    let at = before.len() + 4 * i;
    law_u32_round_trip(numbers[i], s.take(at), s.skip(at + 4));
    assert(s =~= s.take(at) + le32(numbers[i]) + s.skip(at + 4)) by {
        assert forall|k: int| 0 <= k < 4 implies s[at + k] == le32(numbers[i])[k] by {
            assert(all.subrange(4 * i, 4 * i + 4)[k] == all[4 * i + k]);
        }
    }
}

/// A list that was written behind its length is read back as it was.
pub proof fn law_number_list_is_read_back(before: Seq<u8>, numbers: Seq<u32>)
    requires
        numbers.len() <= u32::MAX,
    ensures
        number_list(
            before + le32(numbers.len() as u32) + le32_all(numbers),
            before.len() as int,
        ) == numbers,
{
    let head = before + le32(numbers.len() as u32);
    let packet = head + le32_all(numbers);
    let at = before.len() as int;
    law_u32_round_trip(numbers.len() as u32, before, le32_all(numbers));
    if numbers.len() > 0 {
        law_numbers_are_read_back(head, numbers, 0);
    } else {
        assert(le32_all(numbers) =~= Seq::empty());
    }
    assert(entries_held(packet, at, 4) == numbers.len());
    assert forall|i: int| 0 <= i < numbers.len() implies number_list(packet, at)[i]
        == numbers[i] by {
        law_numbers_are_read_back(head, numbers, i);
    }
    assert(number_list(packet, at) =~= numbers);
}

/// The 16-bit number at an offset.
pub fn read_u16(buf: &[u8], at: usize) -> (r: u16)
    requires
        at + 2 <= buf@.len(),
    ensures
        r == u16_at(buf@, at as int),
{
    buf[at] as u16 + 256 * buf[at + 1] as u16
}

/// The 32-bit number at an offset.
pub fn read_u32(buf: &[u8], at: usize) -> (r: u32)
    requires
        at + 4 <= buf@.len(),
    ensures
        r == u32_at(buf@, at as int),
{
    buf[at] as u32 + 256 * buf[at + 1] as u32 + 65536 * buf[at + 2] as u32 + 16777216 * buf[at
        + 3] as u32
}

/// The topic at an offset.
pub fn read_topic(buf: &[u8], at: usize) -> (r: [u8; 32])
    requires
        at + 32 <= buf@.len(),
    ensures
        r@ == buf@.subrange(at as int, at + 32),
{
    let len: usize = buf.len();
    let mut topic: [u8; 32] = [0u8;32];
    let mut i: usize = 0;
    while i < 32
        invariant
            i <= 32,
            len == buf@.len(),
            at + 32 <= len,
            forall|k: int| 0 <= k < i ==> topic@[k] == buf@[at + k],
        decreases 32 - i,
    {
        topic[i] = buf[at + i];
        i = i + 1;
    }
    proof {
        assert(topic@ =~= buf@.subrange(at as int, at + 32));
    }
    topic
}

/// The 32-bit numbers of a packet behind the count at `at`.
pub fn read_number_list(packet: &[u8], at: usize) -> (r: Vec<u32>)
    requires
        at + 4 <= packet@.len(),
    ensures
        r@ == number_list(packet@, at as int),
{
    let len: usize = packet.len();
    let count: u32 = read_u32(packet, at);
    let mut numbers: Vec<u32> = Vec::new();
    let mut offset: usize = at + 4;
    let mut i: u32 = 0;
    while i < count
        invariant_except_break
            i <= count,
            at + 4 <= offset <= len,
        invariant
            len == packet@.len(),
            at + 4 <= len,
            count == u32_at(packet@, at as int),
            offset == at + 4 + 4 * i,
            numbers@.len() == i,
            i <= entries_held(packet@, at as int, 4),
            forall|k: int| 0 <= k < i ==> numbers@[k] == u32_at(packet@, at + 4 + 4 * k),
        ensures
            i == entries_held(packet@, at as int, 4),
        decreases count - i,
    {
        if len - offset < 4 {
            break;
        }
        numbers.push(read_u32(packet, offset));
        offset = offset + 4;
        i = i + 1;
    }
    proof {
        assert(numbers@ =~= number_list(packet@, at as int));
    }
    numbers
}

/// Appends bytes.
pub fn push_bytes(v: &mut Vec<u8>, bytes: &[u8])
    ensures
        final(v)@ == old(v)@ + bytes@,
{
    let ghost before = v@;
    let mut i: usize = 0;
    while i < bytes.len()
        invariant
            i <= bytes@.len(),
            v@ == before + bytes@.take(i as int),
        decreases bytes@.len() - i,
    {
        v.push(bytes[i]);
        i = i + 1;
        proof {
            assert(before + bytes@.take(i as int) =~= (before + bytes@.take(i - 1)).push(
                bytes@[i - 1],
            ));
        }
    }
    proof {
        assert(bytes@.take(i as int) =~= bytes@);
    }
}

/// Appends a 16-bit number.
pub fn push_u16(v: &mut Vec<u8>, x: u16)
    ensures
        final(v)@ == old(v)@ + le16(x),
{
    let ghost before = v@;
    v.push((x % 256) as u8);
    v.push((x / 256) as u8);
    proof {
        assert(v@ =~= before + le16(x));
    }
}

/// Appends a 32-bit number.
pub fn push_u32(v: &mut Vec<u8>, x: u32)
    ensures
        final(v)@ == old(v)@ + le32(x),
{
    let ghost before = v@;
    v.push((x % 256) as u8);
    v.push((x / 256 % 256) as u8);
    v.push((x / 65536 % 256) as u8);
    v.push((x / 16777216) as u8);
    proof {
        assert(v@ =~= before + le32(x));
    }
}

/// Appends 32-bit numbers.
pub fn push_u32_all(v: &mut Vec<u8>, numbers: &Vec<u32>)
    ensures
        final(v)@ == old(v)@ + le32_all(numbers@),
{
    let ghost before = v@;
    let mut i: usize = 0;
    proof {
        assert(numbers@.take(0) =~= Seq::empty());
        assert(v@ =~= before + le32_all(numbers@.take(0)));
    }
    while i < numbers.len()
        invariant
            i <= numbers@.len(),
            v@ == before + le32_all(numbers@.take(i as int)),
        decreases numbers@.len() - i,
    {
        push_u32(v, numbers[i]);
        proof {
            let part = numbers@.take(i + 1);
            assert(part.drop_last() =~= numbers@.take(i as int));
            assert(v@ =~= before + le32_all(part));
        }
        i = i + 1;
    }
    proof {
        assert(numbers@.take(i as int) =~= numbers@);
    }
}

/// Adds one message at the end.
pub fn push_message(messages: &mut Vec<Vec<u8>>, message: Vec<u8>)
    ensures
        contents(final(messages)@) == contents(old(messages)@).push(message@),
{
    let ghost before = messages@;
    messages.push(message);
    proof {
        assert(contents(messages@) =~= contents(before).push(message@));
    }
}

/// A tag and a client.
pub open spec fn client_message(tag: u8, client_id: u32) -> Seq<u8> {
    seq![tag] + le32(client_id)
}

/// `0x01` or `0x02`: a client begins or ceases to listen to a topic.
pub open spec fn subscription_message(tag: u8, client_id: u32, topic: Seq<u8>) -> Seq<u8> {
    seq![tag] + le32(client_id) + topic
}

/// `0x03`: a server sends game data to everyone who listens to a topic.
pub open spec fn publish_message(topic: Seq<u8>, data: Seq<u8>) -> Seq<u8> {
    seq![TAG_PUBLISH] + topic + le16(data.len() as u16) + data
}

/// `0x04`: game data on its way to a client.
pub open spec fn broadcast_message(data: Seq<u8>) -> Seq<u8> {
    seq![TAG_BROADCAST] + le16(data.len() as u16) + data
}

/// `0x05`: a client's input.
pub open spec fn input_message(client_id: u32, payload: Seq<u8>) -> Seq<u8> {
    seq![TAG_CLIENT_INPUT] + le32(client_id) + payload
}

/// `0x06`: a server takes charge of a topic.
pub open spec fn claim_message(topic: Seq<u8>) -> Seq<u8> {
    seq![TAG_CLAIM_AUTHORITY] + topic
}

/// `0x08`: a payload for whoever is in charge of a topic.
pub open spec fn route_message(topic: Seq<u8>, payload: Seq<u8>) -> Seq<u8> {
    seq![TAG_ROUTE_TO_TOPIC] + topic + payload
}

/// `0x05` around `0x10`: where a client is.
pub open spec fn position_message(client_id: u32, x: u32, y: u32) -> Seq<u8> {
    seq![TAG_CLIENT_INPUT] + le32(client_id) + seq![TAG_POSITION] + le32(x) + le32(y)
}

/// `0x11`: the shards that a client is near. The count is one byte, the number modulo 256.
pub open spec fn crossing_message(client_id: u32, shards: Seq<u32>) -> Seq<u8> {
    seq![TAG_CROSSING_ALERT] + le32(client_id) + seq![(shards.len() % 256) as u8] + le32_all(shards)
}

/// `0x12`: a client passes from one shard to another.
pub open spec fn authority_message(client_id: u32, old_shard: u32, new_shard: u32) -> Seq<u8> {
    seq![TAG_AUTHORITY_CHANGE] + le32(client_id) + le32(old_shard) + le32(new_shard)
}

/// `0x13` or `0x15`: shards are to be started or stopped for a parent.
pub open spec fn scale_payload(tag: u8, parent_shard: u32, shards: Seq<u32>) -> Seq<u8> {
    seq![tag] + le32(parent_shard) + le32_all(shards)
}

/// `0x14`: a shard is ready.
pub open spec fn ready_message(shard_id: u32) -> Seq<u8> {
    seq![TAG_READY] + le32(shard_id)
}

/// The topic of the spatial server.
pub open spec fn spatial_topic() -> Seq<u8> {
    topic_of(encode_utf8("spatial_updates"@))
}

/// The topic of the orchestrator.
pub open spec fn orchestrator_topic() -> Seq<u8> {
    topic_of(encode_utf8("orchestrator_commands"@))
}

pub fn build_client_message(tag: u8, client_id: u32) -> (r: Vec<u8>)
    ensures
        r@ == client_message(tag, client_id),
{
    let mut r: Vec<u8> = vec![tag];
    push_u32(&mut r, client_id);
    proof {
        assert(r@ =~= client_message(tag, client_id));
    }
    r
}

pub fn build_subscription(tag: u8, client_id: u32, topic: &[u8; 32]) -> (r: Vec<u8>)
    ensures
        r@ == subscription_message(tag, client_id, topic@),
{
    let mut r: Vec<u8> = build_client_message(tag, client_id);
    push_bytes(&mut r, topic.as_slice());
    proof {
        assert(r@ =~= subscription_message(tag, client_id, topic@));
    }
    r
}

pub fn build_publish(topic: &[u8; 32], data: &[u8]) -> (r: Vec<u8>)
    requires
        data@.len() <= u16::MAX,
    ensures
        r@ == publish_message(topic@, data@),
{
    let mut r: Vec<u8> = vec![TAG_PUBLISH];
    push_bytes(&mut r, topic.as_slice());
    push_u16(&mut r, data.len() as u16);
    push_bytes(&mut r, data);
    proof {
        assert(r@ =~= publish_message(topic@, data@));
    }
    r
}

pub fn build_broadcast(data: &[u8]) -> (r: Vec<u8>)
    requires
        data@.len() <= u16::MAX,
    ensures
        r@ == broadcast_message(data@),
{
    let mut r: Vec<u8> = vec![TAG_BROADCAST];
    push_u16(&mut r, data.len() as u16);
    push_bytes(&mut r, data);
    proof {
        assert(r@ =~= broadcast_message(data@));
    }
    r
}

pub fn build_input(client_id: u32, payload: &[u8]) -> (r: Vec<u8>)
    ensures
        r@ == input_message(client_id, payload@),
{
    let mut r: Vec<u8> = build_client_message(TAG_CLIENT_INPUT, client_id);
    push_bytes(&mut r, payload);
    proof {
        assert(r@ =~= input_message(client_id, payload@));
    }
    r
}

pub fn build_claim(topic: &[u8; 32]) -> (r: Vec<u8>)
    ensures
        r@ == claim_message(topic@),
{
    let mut r: Vec<u8> = vec![TAG_CLAIM_AUTHORITY];
    push_bytes(&mut r, topic.as_slice());
    proof {
        assert(r@ =~= claim_message(topic@));
    }
    r
}

pub fn build_route(topic: &[u8; 32], payload: &[u8]) -> (r: Vec<u8>)
    ensures
        r@ == route_message(topic@, payload@),
{
    let mut r: Vec<u8> = vec![TAG_ROUTE_TO_TOPIC];
    push_bytes(&mut r, topic.as_slice());
    push_bytes(&mut r, payload);
    proof {
        assert(r@ =~= route_message(topic@, payload@));
    }
    r
}

pub fn build_position(client_id: u32, x: u32, y: u32) -> (r: Vec<u8>)
    ensures
        r@ == position_message(client_id, x, y),
{
    let mut r: Vec<u8> = build_client_message(TAG_CLIENT_INPUT, client_id);
    r.push(TAG_POSITION);
    push_u32(&mut r, x);
    push_u32(&mut r, y);
    proof {
        assert(r@ =~= position_message(client_id, x, y));
    }
    r
}

pub fn build_crossing(client_id: u32, shards: &Vec<u32>) -> (r: Vec<u8>)
    ensures
        r@ == crossing_message(client_id, shards@),
{
    let mut r: Vec<u8> = build_client_message(TAG_CROSSING_ALERT, client_id);
    r.push((shards.len() % 256) as u8);
    push_u32_all(&mut r, shards);
    proof {
        assert(r@ =~= crossing_message(client_id, shards@));
    }
    r
}

pub fn build_authority(client_id: u32, old_shard: u32, new_shard: u32) -> (r: Vec<u8>)
    ensures
        r@ == authority_message(client_id, old_shard, new_shard),
{
    let mut r: Vec<u8> = build_client_message(TAG_AUTHORITY_CHANGE, client_id);
    push_u32(&mut r, old_shard);
    push_u32(&mut r, new_shard);
    proof {
        assert(r@ =~= authority_message(client_id, old_shard, new_shard));
    }
    r
}

/// A request to the orchestrator, on its way through the broker.
pub fn build_scale(tag: u8, parent_shard: u32, shards: &Vec<u32>) -> (r: Vec<u8>)
    ensures
        r@ == route_message(orchestrator_topic(), scale_payload(tag, parent_shard, shards@)),
{
    let mut payload: Vec<u8> = build_client_message(tag, parent_shard);
    push_u32_all(&mut payload, shards);
    let topic: [u8; 32] = string_to_topic("orchestrator_commands");
    proof {
        assert(payload@ =~= scale_payload(tag, parent_shard, shards@));
    }
    build_route(&topic, payload.as_slice())
}

pub fn build_ready(shard_id: u32) -> (r: Vec<u8>)
    ensures
        r@ == ready_message(shard_id),
{
    build_client_message(TAG_READY, shard_id)
}

/// The bytes of an ASCII name.
proof fn lemma_ascii_name(name: &str)
    requires
        is_ascii_chars(name@),
    ensures
        encode_utf8(name@).len() == name@.len(),
        forall|i: int|
            0 <= i < name@.len() ==> (#[trigger] encode_utf8(name@)[i]) as int == name@[i] as int,
{
    is_ascii_chars_encode_utf8(name@);
}

/// No shard shares its topic with the spatial server or the orchestrator, and these two do not
/// share theirs.
pub proof fn law_service_topics_are_their_own(shard_id: u32)
    ensures
        shard_topic(shard_id) != spatial_topic(),
        shard_topic(shard_id) != orchestrator_topic(),
        spatial_topic() != orchestrator_topic(),
{
    reveal_strlit("spatial_updates");
    reveal_strlit("orchestrator_commands");
    lemma_shard_label(shard_id);
    lemma_ascii_name("spatial_updates");
    lemma_ascii_name("orchestrator_commands");
    let label = shard_label(shard_id);
    assert(shard_topic(shard_id)[0] as int == label[0] as int);
    assert(shard_topic(shard_id)[1] as int == label[1] as int);
    assert(spatial_topic()[0] as int == "spatial_updates"@[0] as int);
    assert(spatial_topic()[1] as int == "spatial_updates"@[1] as int);
    assert(orchestrator_topic()[0] as int == "orchestrator_commands"@[0] as int);
}

} // verus!
