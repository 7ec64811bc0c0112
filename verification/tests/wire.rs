use shardworld::topics::string_to_topic;
use shardworld::wire::{
    build_authority, build_broadcast, build_claim, build_client_message, build_crossing,
    build_input, build_position, build_publish, build_ready, build_route, build_scale,
    build_subscription, push_u32_all, read_number_list, read_topic, read_u16, read_u32,
};

#[test]
fn numbers_are_little_endian() {
    let bytes = [0x78u8, 0x56, 0x34, 0x12, 0xff];
    assert_eq!(read_u16(&bytes, 0), 0x5678);
    assert_eq!(read_u16(&bytes, 3), 0xff12);
    assert_eq!(read_u32(&bytes, 0), 0x1234_5678);
    assert_eq!(read_u32(&bytes, 1), 0xff12_3456);
}

#[test]
fn numbers_are_read_back() {
    for n in [0u32, 1, 255, 256, 65_535, 65_536, 0xdead_beef, u32::MAX] {
        let message = build_client_message(0x07, n);
        assert_eq!(&message[1..5], &n.to_le_bytes());
        assert_eq!(read_u32(&message, 1), n);
    }
}

#[test]
fn lists_are_read_as_far_as_they_go() {
    let mut packet = vec![0x18];
    packet.extend_from_slice(&3u32.to_le_bytes());
    push_u32_all(&mut packet, &vec![7, 8, 9]);
    assert_eq!(read_number_list(&packet, 1), vec![7, 8, 9]);
    // The last number is not complete.
    packet.pop();
    assert_eq!(read_number_list(&packet, 1), vec![7, 8]);
    // The count says less than there is.
    packet[1] = 1;
    assert_eq!(read_number_list(&packet, 1), vec![7]);
    packet[1..5].copy_from_slice(&u32::MAX.to_le_bytes());
    assert_eq!(read_number_list(&packet, 1), vec![7, 8]);
}

#[test]
fn messages_have_the_right_bytes() {
    let topic = string_to_topic("spatial_updates");
    let subscription = build_subscription(0x01, 101, &topic);
    assert_eq!(subscription.len(), 37);
    assert_eq!(&subscription[..5], &[0x01, 101, 0, 0, 0]);
    assert_eq!(&subscription[5..20], b"spatial_updates");
    assert_eq!(read_topic(&subscription, 5), topic);

    let publication = build_publish(&topic, &[1, 2, 3]);
    assert_eq!(publication[0], 0x03);
    assert_eq!(&publication[1..33], &topic);
    assert_eq!(&publication[33..], &[3, 0, 1, 2, 3]);

    assert_eq!(build_broadcast(&[9; 300])[..4], [0x04, 0x2c, 0x01, 9]);
    assert_eq!(build_input(258, b"hi"), vec![0x05, 2, 1, 0, 0, b'h', b'i']);
    assert_eq!(build_claim(&topic)[0], 0x06);
    assert_eq!(&build_claim(&topic)[1..], &topic);

    let mut position = vec![0x05, 101, 0, 0, 0, 0x10];
    position.extend_from_slice(&(-250.0f32).to_le_bytes());
    position.extend_from_slice(&250.0f32.to_le_bytes());
    assert_eq!(build_position(101, (-250.0f32).to_bits(), 250.0f32.to_bits()), position);

    assert_eq!(
        build_crossing(1, &vec![2, 3]),
        vec![0x11, 1, 0, 0, 0, 2, 2, 0, 0, 0, 3, 0, 0, 0]
    );
    assert_eq!(build_authority(1, 2, 3), vec![0x12, 1, 0, 0, 0, 2, 0, 0, 0, 3, 0, 0, 0]);
    assert_eq!(build_ready(5), vec![0x14, 5, 0, 0, 0]);
    let route = build_route(&topic, &[42]);
    assert_eq!((route[0], route[33], route.len()), (0x08, 42, 34));
    let scale = build_scale(0x13, 0, &vec![1, 2, 3, 4]);
    assert_eq!(scale.len(), 54);
    assert_eq!(&scale[1..22], b"orchestrator_commands");
    assert_eq!(scale[33], 0x13);
    assert_eq!(read_u32(&scale, 38), 1);
    assert_eq!(read_u32(&scale, 50), 4);
}
