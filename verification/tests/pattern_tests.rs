use aobscan::parse::PatternError;
use aobscan::scan::{PatternBuilder, ScanError};

#[test]
fn ida_and_hex_syntax_agree_on_matches() {
    // The same pattern in both syntaxes matches the same offsets.
    let buffer = [0x55u8, 0x8B, 0xEC, 0x90, 0x91, 0x8B, 0x45, 0x08];
    let ida = PatternBuilder::from_ida_style("55 8B EC ? ? 8B 45 08")
        .unwrap()
        .build();
    let hex = PatternBuilder::from_hex_string("558bec????8b4508")
        .unwrap()
        .build();
    let (found_i, offs_i) = ida.scan(&buffer, false);
    let (found_h, offs_h) = hex.scan(&buffer, false);
    assert!(found_i && found_h);
    assert_eq!(offs_i, offs_h);
    assert_eq!(offs_i, vec![0]);
}

#[test]
fn wildcard_single_and_double_are_equal() {
    let buffer = [1u8, 2, 3, 4];
    let single = PatternBuilder::from_ida_style("? 03").unwrap().build();
    let double = PatternBuilder::from_ida_style("?? 03").unwrap().build();
    assert_eq!(single.scan(&buffer, false).1, double.scan(&buffer, false).1);
    assert_eq!(single.scan(&buffer, false).1, vec![1]);
}

#[test]
fn mixed_case_hex_digits_are_accepted() {
    let buffer = [0xABu8, 0xcd, 0xAB];
    let upper = PatternBuilder::from_hex_string("ABCD").unwrap().build();
    let lower = PatternBuilder::from_hex_string("abcd").unwrap().build();
    assert_eq!(upper.scan(&buffer, false).1, vec![0]);
    assert_eq!(lower.scan(&buffer, false).1, vec![0]);
}

#[test]
fn invalid_ida_token_is_reported_with_its_position() {
    let err = PatternBuilder::from_ida_style("55 GG 08").unwrap_err();
    assert_eq!(err, PatternError::InvalidToken { start: 3, len: 2 });
    let err = PatternBuilder::from_ida_style("5 55").unwrap_err();
    assert_eq!(err, PatternError::InvalidToken { start: 0, len: 1 });
    let err = PatternBuilder::from_ida_style("55  66").unwrap_err();
    assert_eq!(err, PatternError::InvalidToken { start: 3, len: 0 });
}

#[test]
fn odd_length_hex_is_rejected() {
    let err = PatternBuilder::from_hex_string("558").unwrap_err();
    assert_eq!(err, PatternError::OddLength);
}

#[test]
fn invalid_hex_group_is_reported_with_its_position() {
    let err = PatternBuilder::from_hex_string("55g8").unwrap_err();
    assert_eq!(err, PatternError::InvalidToken { start: 2, len: 2 });
    let err = PatternBuilder::from_hex_string("5?").unwrap_err();
    assert_eq!(err, PatternError::InvalidToken { start: 0, len: 2 });
}

#[test]
fn empty_pattern_is_rejected() {
    assert_eq!(
        PatternBuilder::from_hex_string("").unwrap_err(),
        PatternError::EmptyPattern
    );
    assert_eq!(
        PatternBuilder::from_ida_style("").unwrap_err(),
        PatternError::EmptyPattern
    );
}

#[test]
fn thread_count_is_validated_against_available_units() {
    let b = PatternBuilder::from_hex_string("ff").unwrap();
    let err = b.with_threads(9, 8).unwrap_err();
    assert!(matches!(err, ScanError::ThreadCount));
    let b = PatternBuilder::from_hex_string("ff").unwrap();
    let err = b.with_threads(0, 8).unwrap_err();
    assert!(matches!(err, ScanError::ThreadCount));
    let b = PatternBuilder::from_hex_string("ff").unwrap();
    let p = b.with_threads(4, 8).unwrap().build();
    assert_eq!(p.get_threads(), 4);
}

#[test]
fn all_threads_uses_every_available_unit() {
    let p = PatternBuilder::from_hex_string("ff")
        .unwrap()
        .with_all_threads(6)
        .build();
    assert_eq!(p.get_threads(), 6);
    let p = PatternBuilder::from_hex_string("ff")
        .unwrap()
        .with_all_threads(0)
        .build();
    assert_eq!(p.get_threads(), 1);
}

#[test]
fn pattern_length_counts_matchers() {
    let p = PatternBuilder::from_ida_style("55 ? 08").unwrap().build();
    assert_eq!(p.get_length(), 3);
}
