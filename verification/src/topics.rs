//! Topics: the fixed-width names under which messages are routed.

use crate::text::{decimal, decimal_text, decimal_value, lemma_decimal, pow10};
use vstd::prelude::*;
use vstd::string::StringExecFns;
use vstd::utf8::{encode_utf8, is_ascii_chars, is_ascii_chars_encode_utf8};

verus! {

/// Width of a topic in bytes.
pub const TOPIC_LEN: usize = 32;

/// A name as a topic: cut off after 32 bytes, or filled up with zeros.
pub open spec fn topic_of(name: Seq<u8>) -> Seq<u8> {
    Seq::new(32, |i: int| if i < name.len() { name[i] } else { 0 })
}

/// The name of a shard: `shard:` and its number.
pub open spec fn shard_label(id: u32) -> Seq<char> {
    seq!['s', 'h', 'a', 'r', 'd', ':'] + decimal(id as nat)
}

/// The topic of a shard.
pub open spec fn shard_topic(id: u32) -> Seq<u8> {
    topic_of(encode_utf8(shard_label(id)))
}

/// The first 32 bytes of `s`, filled up with zeros where there are fewer.
pub fn string_to_topic(s: &str) -> (topic: [u8; 32])
    ensures
        topic@ == topic_of(encode_utf8(s@)),
{
    bytes_to_topic(s.as_bytes())
}

/// The first 32 of `bytes`, filled up with zeros where there are fewer.
pub fn bytes_to_topic(bytes: &[u8]) -> (topic: [u8; 32])
    ensures
        topic@ == topic_of(bytes@),
{
    let mut topic: [u8; 32] = [0u8;32];
    let mut i: usize = 0;
    while i < 32 && i < bytes.len()
        invariant
            i <= 32,
            i <= bytes@.len(),
            forall|k: int| 0 <= k < i ==> topic@[k] == bytes@[k],
            forall|k: int| i <= k < 32 ==> topic@[k] == 0,
        decreases 32 - i,
    {
        topic[i] = bytes[i];
        i = i + 1;
    }
    proof {
        assert(topic@ =~= topic_of(bytes@));
    }
    topic
}

/// The name of a shard.
pub fn shard_name(id: u32) -> (name: String)
    ensures
        name@ == shard_label(id),
{
    let mut name: String = "shard:".to_owned();
    name.append(decimal_text(id).as_str());
    proof {
        reveal_strlit("shard:");
        assert(name@ =~= shard_label(id));
    }
    name
}

/// The topic of a shard.
pub fn topic_for_shard(id: u32) -> (topic: [u8; 32])
    ensures
        topic@ == shard_topic(id),
{
    let name: String = shard_name(id);
    string_to_topic(name.as_str())
}

/// The label of a shard has at most 16 characters, all of them ASCII and none of them zero.
pub(crate) proof fn lemma_shard_label(id: u32)
    ensures
        7 <= shard_label(id).len() <= 16,
        is_ascii_chars(shard_label(id)),
        encode_utf8(shard_label(id)).len() == shard_label(id).len(),
        forall|i: int|
            0 <= i < shard_label(id).len() ==> (#[trigger] encode_utf8(shard_label(id))[i]) as int
                == shard_label(id)[i] as int && encode_utf8(shard_label(id))[i] != 0,
        decimal_value(shard_label(id).subrange(6, shard_label(id).len() as int)) == id,
{
    reveal_with_fuel(pow10, 12);
    lemma_decimal(id as nat, pow10(10), 10);
    let label = shard_label(id);
    let digits = decimal(id as nat);
    assert(label.subrange(6, label.len() as int) =~= digits);
    assert forall|i: int| 0 <= i < label.len() implies 0 < (#[trigger] label[i]) as int <= 127 by {
        if i >= 6 {
            assert(label[i] == digits[i - 6]);
        }
    }
    is_ascii_chars_encode_utf8(label);
    assert(encode_utf8(label) =~= Seq::new(label.len(), |i: int| label[i] as u8));
    assert forall|i: int| 0 <= i < label.len() implies (#[trigger] encode_utf8(label)[i]) as int
        == label[i] as int && encode_utf8(label)[i] != 0 by {
        assert(0 < label[i] as int <= 127);
    }
}

/// Two shards never share a topic.
pub proof fn law_shard_topics_differ(a: u32, b: u32)
    requires
        a != b,
    ensures
        shard_topic(a) != shard_topic(b),
{
    if shard_topic(a) == shard_topic(b) {
        lemma_shard_label(a);
        lemma_shard_label(b);
        let la = shard_label(a);
        let lb = shard_label(b);
        let ba = encode_utf8(la);
        let bb = encode_utf8(lb);
        if la.len() < lb.len() {
            assert(shard_topic(a)[la.len() as int] == 0);
            assert(shard_topic(b)[la.len() as int] == bb[la.len() as int]);
        } else if lb.len() < la.len() {
            assert(shard_topic(b)[lb.len() as int] == 0);
            assert(shard_topic(a)[lb.len() as int] == ba[lb.len() as int]);
        }
        assert forall|i: int| 0 <= i < la.len() implies la[i] == lb[i] by {
            assert(shard_topic(a)[i] == ba[i]);
            assert(shard_topic(b)[i] == bb[i]);
            assert(la[i] as int == lb[i] as int);
        }
        assert(la =~= lb);
    }
}

} // verus!
