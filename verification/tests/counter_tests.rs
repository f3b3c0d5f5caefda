use vtid::counter::{advance_counter, format_counter, next_counter_update, parse_counter};

#[test]
fn parse_plain_decimal() {
    assert_eq!(parse_counter(b"41"), Some(41));
    assert_eq!(parse_counter(b"0"), Some(0));
    assert_eq!(parse_counter(b"007"), Some(7));
}

#[test]
fn parse_trims_surrounding_whitespace() {
    assert_eq!(parse_counter(b"  41 \n"), Some(41));
    assert_eq!(parse_counter(b"\t9\r\n"), Some(9));
}

#[test]
fn parse_accepts_one_leading_plus() {
    assert_eq!(parse_counter(b"+7"), Some(7));
    assert_eq!(parse_counter(b"++7"), None);
    assert_eq!(parse_counter(b"+"), None);
}

#[test]
fn parse_rejects_garbage() {
    assert_eq!(parse_counter(b""), None);
    assert_eq!(parse_counter(b"   "), None);
    assert_eq!(parse_counter(b"not-a-number"), None);
    assert_eq!(parse_counter(b"-1"), None);
    assert_eq!(parse_counter(b"4 1"), None);
    assert_eq!(parse_counter(b"41x"), None);
}

#[test]
fn parse_value_must_fit_in_64_bits() {
    assert_eq!(parse_counter(b"18446744073709551615"), Some(u64::MAX));
    assert_eq!(parse_counter(b"18446744073709551616"), None);
    assert_eq!(parse_counter(b"99999999999999999999999"), None);
}

#[test]
fn format_renders_decimal_text() {
    assert_eq!(format_counter(0), b"0".to_vec());
    assert_eq!(format_counter(42), b"42".to_vec());
    assert_eq!(format_counter(1000), b"1000".to_vec());
    assert_eq!(format_counter(u64::MAX), b"18446744073709551615".to_vec());
}

#[test]
fn format_then_parse_round_trips() {
    for v in [0u64, 1, 9, 10, 41, 99, 100, 123_456_789, u64::MAX - 1, u64::MAX] {
        assert_eq!(parse_counter(&format_counter(v)), Some(v));
    }
}

#[test]
fn advance_from_forty_one_yields_forty_two() {
    let (value, text) = advance_counter(b"41", 0);
    assert_eq!(value, 42);
    assert_eq!(text, b"42".to_vec());
}

#[test]
fn advance_from_empty_contents_uses_seed() {
    let (value, text) = advance_counter(b"", 1_700_000_000);
    assert_eq!(value, 1_700_000_001);
    assert_eq!(text, b"1700000001".to_vec());
}

#[test]
fn advance_from_garbage_uses_seed() {
    let (value, text) = advance_counter(b"not-a-number", 1_700_000_000);
    assert_eq!(value, 1_700_000_001);
    assert_eq!(parse_counter(&text), Some(value));
}

#[test]
fn successive_advances_yield_distinct_values() {
    let (v1, t1) = advance_counter(b"41", 0);
    let (v2, t2) = advance_counter(&t1, 0);
    let (v3, _) = advance_counter(&t2, 0);
    assert_eq!(v2, v1 + 1);
    assert_eq!(v3, v2 + 1);
    assert!(v1 != v2 && v2 != v3 && v1 != v3);
}

#[test]
fn update_from_parsable_contents_ignores_the_clock() {
    let update = next_counter_update(b"41").expect("counter fits");
    assert_eq!(update.0, 42);
    assert_eq!(update.1, b"42".to_vec());
}

#[test]
fn update_from_garbage_recovers_with_plausible_seed() {
    let update = next_counter_update(b"not-a-number").expect("clock fits");
    // The seed is the wall clock in whole seconds, so the recovered value is
    // far above any counter a test could have written, and the file text is
    // the valid decimal form of exactly that value.
    assert!(update.0 > 1_600_000_000);
    assert_eq!(parse_counter(&update.1), Some(update.0));
}

#[test]
fn update_refuses_a_counter_at_the_limit() {
    assert!(next_counter_update(b"18446744073709551615").is_none());
}
