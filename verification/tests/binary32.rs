use shardworld::binary32::Binary32;

fn soft(x: f32) -> Binary32 {
    Binary32::from_bits(x.to_bits())
}

fn same(soft: Binary32, hard: f32) {
    if hard.is_nan() {
        assert!(f32::from_bits(soft.to_bits()).is_nan());
    } else {
        assert_eq!(soft.to_bits(), hard.to_bits());
    }
}

fn check(x: f32, y: f32) {
    same(soft(x).plus(soft(y)), x + y);
    same(soft(x).minus(soft(y)), x - y);
    same(soft(x).times(soft(y)), x * y);
    same(soft(x).half(), x / 2.0);
    same(soft(x).neg(), -x);
    assert_eq!(soft(x).le(soft(y)), x <= y);
}

#[test]
fn arithmetic_agrees_with_the_machine_on_chosen_numbers() {
    let numbers: Vec<f32> = vec![
        0.0,
        -0.0,
        1.0,
        -1.0,
        0.5,
        1.5,
        2.0,
        3.0,
        0.1,
        100.0,
        1000.0,
        -250.0,
        62.5,
        f32::MAX,
        f32::MIN,
        f32::MIN_POSITIVE,
        f32::EPSILON,
        f32::INFINITY,
        f32::NEG_INFINITY,
        f32::NAN,
        f32::from_bits(1),
        f32::from_bits(2),
        f32::from_bits(3),
        f32::from_bits(0x007f_ffff),
        f32::from_bits(0x0080_0001),
        f32::from_bits(0x3fff_ffff),
        f32::from_bits(0x7f7f_fffe),
        1.0e-30,
        -3.0e30,
        16777216.0,
        16777217.0,
    ];
    for x in &numbers {
        for y in &numbers {
            check(*x, *y);
        }
    }
}

#[test]
fn arithmetic_agrees_with_the_machine_on_scattered_patterns() {
    let mut state: u64 = 0x9e37_79b9_7f4a_7c15;
    for _ in 0..200_000 {
        state = state.wrapping_mul(6364136223846793005).wrapping_add(1442695040888963407);
        let x = f32::from_bits((state >> 32) as u32);
        state = state.wrapping_mul(6364136223846793005).wrapping_add(1442695040888963407);
        let y = f32::from_bits((state >> 32) as u32);
        check(x, y);
        // Numbers of similar size, where sums cancel and round.
        let near = f32::from_bits((x.to_bits() & 0x7fff_ffff) ^ ((state as u32) & 0x80ff_ffff));
        check(x, near);
    }
}
