use shardworld::wide::{apart, at_most, minus, plus, times, widened, zero};

fn digits(mut x: u128) -> Vec<u32> {
    let mut r = Vec::new();
    for _ in 0..4 {
        r.push((x % (1 << 32)) as u32);
        x >>= 32;
    }
    r
}

fn number(digits: &[u32]) -> u128 {
    digits.iter().rev().fold(0, |n, d| n * (1 << 32) + *d as u128)
}

const SAMPLES: [u128; 7] = [
    0,
    1,
    0xffff_ffff,
    0x1_0000_0000,
    0xffff_ffff_ffff_ffff,
    0x1234_5678_9abc_def0,
    0xffff_0000_ffff,
];

#[test]
fn long_numbers_are_computed_as_short_ones() {
    assert_eq!(zero(3), vec![0, 0, 0]);
    for a in SAMPLES {
        for b in SAMPLES {
            let (x, y) = (digits(a), digits(b));
            assert_eq!(number(&plus(&x, &y)), a + b);
            assert_eq!(number(&apart(&x, &y)), a.abs_diff(b));
            assert_eq!(number(&times(&x, &y)[..4]), a * b);
            assert_eq!(times(&x, &y)[4..], [0, 0, 0, 0]);
            assert_eq!(at_most(&x, &y), a <= b);
            let (difference, below) = minus(&x, &y);
            assert_eq!(number(&difference), a.wrapping_sub(b));
            assert_eq!(below, a < b);
        }
        assert_eq!(widened(digits(a)).len(), 5);
        assert_eq!(number(&widened(digits(a))[..4]), a);
    }
}

#[test]
fn products_and_sums_carry_to_the_top() {
    let full = vec![u32::MAX; 3];
    assert_eq!(times(&full, &full), vec![1, 0, 0, u32::MAX - 1, u32::MAX, u32::MAX]);
    assert_eq!(plus(&full, &full), vec![u32::MAX - 1, u32::MAX, u32::MAX, 1]);
}
