use shardworld::topics::{bytes_to_topic, shard_name, string_to_topic, topic_for_shard};

#[test]
fn short_names_are_filled_up() {
    let topic = string_to_topic("shard:5");
    assert_eq!(&topic[..7], b"shard:5");
    assert!(topic[7..].iter().all(|byte| *byte == 0));
}

#[test]
fn long_names_are_cut_off() {
    let name = "abcdefghijklmnopqrstuvwxyz0123456789";
    assert_eq!(&string_to_topic(name)[..], &name.as_bytes()[..32]);
    assert_eq!(bytes_to_topic(&[9u8; 40]), [9u8; 32]);
    assert_eq!(string_to_topic(""), [0u8; 32]);
}

#[test]
fn names_are_counted_in_bytes() {
    let topic = string_to_topic("é");
    assert_eq!(&topic[..3], &[0xc3, 0xa9, 0]);
}

#[test]
fn shards_have_names() {
    for id in [0u32, 9, 10, 123, 4_294_967_295] {
        assert_eq!(shard_name(id), format!("shard:{}", id));
        assert_eq!(topic_for_shard(id), string_to_topic(&format!("shard:{}", id)));
    }
}

#[test]
fn shards_do_not_share_topics() {
    assert_ne!(topic_for_shard(1), topic_for_shard(10));
    assert_ne!(topic_for_shard(12), topic_for_shard(21));
}

#[test]
fn services_have_topics_of_their_own() {
    for id in [0u32, 1, 99, u32::MAX] {
        assert_ne!(topic_for_shard(id), string_to_topic("spatial_updates"));
        assert_ne!(topic_for_shard(id), string_to_topic("orchestrator_commands"));
    }
}
