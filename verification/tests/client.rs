use shardworld::binary32::Binary32;
use shardworld::client::{
    farewell, follow, glide, greeting, heading, is_stale, must_snap, origin_ping, play_frame,
    player_name, read_snapshot, stride, ClientState, Keys, Stage,
};
use shardworld::dedicated_server::PlayerState;
use shardworld::geometry::Vec2;
use shardworld::topics::string_to_topic;
use shardworld::wire::{build_authority, build_client_message, build_position, build_subscription};

fn b(x: f32) -> Binary32 {
    Binary32::from_bits(x.to_bits())
}

fn f(x: Binary32) -> f32 {
    f32::from_bits(x.to_bits())
}

fn at(x: f32, y: f32) -> Vec2 {
    Vec2::new(b(x), b(y))
}

fn player(client_id: u32, x: f32, y: f32) -> PlayerState {
    PlayerState { client_id, x: b(x), y: b(y) }
}

fn keys(pressed: &str) -> Keys {
    Keys {
        up: pressed.contains('w'),
        down: pressed.contains('s'),
        left: pressed.contains('a'),
        right: pressed.contains('d'),
    }
}

#[test]
fn a_client_says_who_it_is() {
    assert_eq!(greeting(7), build_subscription(0x01, 7, &string_to_topic("spatial_updates")));
    assert_eq!(origin_ping(7), build_position(7, 0, 0));
    assert_eq!(farewell(7), build_client_message(0x07, 7));
    assert_eq!(player_name(1234), "Player_1234");
}

#[test]
fn short_and_foreign_packets_show_nobody() {
    assert!(read_snapshot(&[]).is_empty());
    assert!(read_snapshot(&[0x04, 0, 0]).is_empty());
    assert!(read_snapshot(&[0x04, 13, 0, 1]).is_empty());
    let mut packet = vec![0x04, 25, 0, 2];
    for id in [5u32, 6] {
        packet.extend_from_slice(&id.to_le_bytes());
        packet.extend_from_slice(&1.5f32.to_le_bytes());
        packet.extend_from_slice(&(-2.5f32).to_le_bytes());
    }
    assert_eq!(read_snapshot(&packet), vec![player(5, 1.5, -2.5), player(6, 1.5, -2.5)]);
    packet.pop();
    assert_eq!(read_snapshot(&packet), vec![player(5, 1.5, -2.5)]);
    packet[0] = 0x05;
    assert!(read_snapshot(&packet).is_empty());
}

#[test]
fn other_players_are_shown_once() {
    let mut state = ClientState::new();
    let first = state.see(1, player(2, 3.0, 4.0), false);
    assert!(first.spawn && !first.refresh && !first.retarget && !first.correct);
    assert!(first.echo.is_none());
    assert!(!state.spawned_on_server);
    // Known, but not on show yet.
    let second = state.see(1, player(2, 3.0, 4.0), false);
    assert!(!second.spawn && !second.refresh);
    let third = state.see(1, player(2, 5.0, 6.0), true);
    assert!(third.refresh && third.retarget && !third.correct && !third.spawn);
}

#[test]
fn the_own_player_is_echoed_and_corrected() {
    let mut state = ClientState::new();
    let first = state.see(1, player(1, 3.0, 4.0), false);
    assert!(first.spawn && state.spawned_on_server);
    assert_eq!(first.echo, Some(build_position(1, 3.0f32.to_bits(), 4.0f32.to_bits())));
    let second = state.see(1, player(1, 5.0, 6.0), true);
    assert!(second.correct && !second.retarget && second.refresh);
    assert_eq!(second.echo, Some(build_position(1, 5.0f32.to_bits(), 6.0f32.to_bits())));
}

#[test]
fn the_stages_of_a_client() {
    let mut state = ClientState::new();
    assert_eq!(state.stage(), Stage::Ping);
    assert!(!state.follow_authority(1, &build_authority(2, 0, 5)));
    assert!(!state.follow_authority(1, &build_authority(1, 0, 5)[..12]));
    assert!(!state.follow_authority(1, &[0x11; 20]));
    assert_eq!(state.stage(), Stage::Ping);
    assert!(state.follow_authority(1, &build_authority(1, 0, 5)));
    assert_eq!(state.shard_authority, Some(5));
    assert_eq!(state.stage(), Stage::Join);
    state.see(1, player(1, 0.0, 0.0), false);
    assert_eq!(state.stage(), Stage::Play);
}

#[test]
fn keys_give_a_direction_of_length_one() {
    for pressed in ["", "w", "s", "a", "d", "wa", "wd", "sa", "sd", "ws", "ad", "wsa", "wasd"] {
        let (mut x, mut y) = (0.0f32, 0.0f32);
        if pressed.contains('w') {
            y += 1.0;
        }
        if pressed.contains('s') {
            y -= 1.0;
        }
        if pressed.contains('a') {
            x -= 1.0;
        }
        if pressed.contains('d') {
            x += 1.0;
        }
        if x != 0.0 || y != 0.0 {
            let len = (x * x + y * y).sqrt();
            x /= len;
            y /= len;
        }
        let dir = heading(keys(pressed));
        assert_eq!((dir.x, dir.y), (b(x), b(y)));
        let is_zero = x == 0.0 && y == 0.0;
        let after_idle = play_frame(keys(pressed), at(1.0, 2.0), true, b(0.02));
        assert_eq!(after_idle.idle, is_zero);
        assert_eq!(after_idle.input.is_some(), !is_zero);
        let after_move = play_frame(keys(pressed), at(1.0, 2.0), false, b(0.02));
        let told = after_move.input.unwrap();
        assert_eq!((f(told.x), f(told.y)), (1.0 + x * 300.0 * 0.02, 2.0 + y * 300.0 * 0.02));
        assert_eq!((told.x, told.y), (after_move.at.x, after_move.at.y));
    }
}

#[test]
fn players_stride_as_native_numbers_do() {
    let dir = heading(keys("wd"));
    let moved = stride(at(10.0, -3.3), dir, b(0.0167));
    let d = 0.70710677f32;
    assert_eq!(f(moved.x), 10.0 + d * 300.0 * 0.0167);
    assert_eq!(f(moved.y), -3.3 + d * 300.0 * 0.0167);
}

#[test]
fn the_server_wins_over_a_distance_of_100() {
    assert!(!must_snap(at(100.0, 0.0), at(0.0, 0.0)));
    assert!(must_snap(at(100.00001, 0.0), at(0.0, 0.0)));
    assert!(!must_snap(at(f32::NAN, 0.0), at(0.0, 0.0)));
    assert!(must_snap(at(f32::INFINITY, 0.0), at(0.0, 0.0)));
    let mut seed = 12345u32;
    for _ in 0..50_000 {
        let mut next = || {
            seed = seed.wrapping_mul(1_664_525).wrapping_add(1_013_904_223);
            (seed >> 8) as f32 / 16_777_216.0 * 160.0 - 80.0
        };
        let (ax, ay, bx, by) = (next(), next(), next(), next());
        let native =
            bevy::math::Vec2::new(ax, ay).distance(bevy::math::Vec2::new(bx, by)) > 100.0;
        assert_eq!(must_snap(at(ax, ay), at(bx, by)), native);
    }
    // Around the border itself.
    for step in -2000i32..2000 {
        let x = f32::from_bits((100.0f32.to_bits() as i32 + step) as u32);
        let native = bevy::math::Vec2::new(x, 0.0).distance(bevy::math::Vec2::ZERO) > 100.0;
        assert_eq!(must_snap(at(x, 0.0), at(0.0, 0.0)), native);
    }
}

#[test]
fn others_glide_to_where_they_are() {
    for (delta, from, to) in
        [(0.016f32, 0.0f32, 10.0f32), (0.1, -5.0, 3.3), (0.0, 7.0, 8.0), (5.0, 1.0, 2.0)]
    {
        let share = (delta * 15.0).min(1.0);
        let native =
            bevy::math::Vec2::new(from, to).lerp(bevy::math::Vec2::new(to, from), share);
        let ours = glide(at(from, to), at(to, from), b(delta));
        assert_eq!((f(ours.x), f(ours.y)), (native.x, native.y));
    }
}

#[test]
fn players_who_were_not_seen_are_gone() {
    assert!(!is_stale(b(5.0), b(3.0)));
    assert!(is_stale(b(5.1), b(3.0)));
    assert!(!is_stale(b(f32::NAN), b(3.0)));
}

#[test]
fn the_camera_follows() {
    let camera = follow(at(1.0, -2.0), at(11.0, 3.5));
    assert_eq!(f(camera.x), 1.0f32 + (11.0 - 1.0) * 0.1);
    assert_eq!(f(camera.y), -2.0f32 + (3.5 - -2.0) * 0.1);
}
