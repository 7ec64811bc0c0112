use shardworld::text::{decimal_text, parse_signed, parse_unsigned, same_text, split, starts_with};

#[test]
fn numbers_are_written_in_decimal() {
    for n in [0u32, 7, 10, 99, 100, 1_000_000, u32::MAX] {
        assert_eq!(decimal_text(n), n.to_string());
    }
}

#[test]
fn numbers_are_read_as_the_standard_library_reads_them() {
    let samples = [
        "", "+", "-", "0", "-0", "+0", "7001", "+7001", "-7001", "65535", "65536", "007", "1 ",
        " 1", "1a", "++1", "+-1", "4294967295", "4294967296", "18446744073709551615",
        "18446744073709551616", "2147483647", "2147483648", "-2147483648", "-2147483649",
        "99999999999999999999999999999999999999999", "-", "-+1", "１",
    ];
    for s in samples {
        assert_eq!(parse_unsigned(s, u16::MAX as u64), s.parse::<u16>().ok().map(u64::from));
        assert_eq!(parse_unsigned(s, u32::MAX as u64), s.parse::<u32>().ok().map(u64::from));
        assert_eq!(parse_unsigned(s, u64::MAX), s.parse::<u64>().ok());
        assert_eq!(parse_signed(s), s.parse::<i32>().ok().map(i64::from));
    }
}

#[test]
fn texts_are_split_as_the_standard_library_splits_them() {
    for s in ["", ",", "a", "a,b", ",a,,b,", "shard:1,shard:2", "é,ü,"] {
        let parts: Vec<String> = s.split(',').map(|part| part.to_string()).collect();
        assert_eq!(split(s, ','), parts);
    }
}

#[test]
fn joined_texts_are_split_again() {
    let parts = vec!["shard:1".to_string(), "".to_string(), "shard:30".to_string()];
    assert_eq!(split(&parts.join(","), ','), parts);
}

#[test]
fn prefixes() {
    assert!(starts_with("192.168.0.1", "192."));
    assert!(starts_with("abc", ""));
    assert!(!starts_with("19", "192."));
    assert!(!starts_with("291.", "192."));
    assert!(same_text("available", "available"));
    assert!(!same_text("available", "availabl"));
    assert!(!same_text("availabl", "available"));
    assert!(!same_text("full", "FULL"));
}
