use aobscan::scan::PatternBuilder;

#[test]
fn all_wildcards_match_every_window() {
    // A pattern of L wildcards matches at every offset 0..=len-L.
    let buffer = [9u8, 8, 7, 6, 5];
    let p = PatternBuilder::from_ida_style("? ? ?").unwrap().build();
    let (found, offs) = p.scan(&buffer, false);
    assert!(found);
    assert_eq!(offs, vec![0, 1, 2]);
}

#[test]
fn all_matches_are_reported_in_order() {
    let buffer = [0xFFu8, 0x00, 0xFF, 0x00, 0xFF];
    let p = PatternBuilder::from_ida_style("FF").unwrap().build();
    let (found, offs) = p.scan(&buffer, false);
    assert!(found);
    assert_eq!(offs, vec![0, 2, 4]);
}

#[test]
fn empty_buffer_yields_no_matches_without_error() {
    let buffer: [u8; 0] = [];
    let p = PatternBuilder::from_hex_string("??").unwrap().build();
    let (found, offs) = p.scan(&buffer, false);
    assert!(!found);
    assert!(offs.is_empty());
}

#[test]
fn pattern_longer_than_buffer_yields_no_matches() {
    let buffer = [0x55u8, 0x8B];
    let p = PatternBuilder::from_hex_string("558bec").unwrap().build();
    let (found, offs) = p.scan(&buffer, false);
    assert!(!found);
    assert!(offs.is_empty());
}

#[test]
fn scanning_twice_gives_the_same_offsets() {
    let buffer = [3u8, 1, 4, 1, 5, 9, 2, 6, 5, 3, 5, 1, 4];
    let p = PatternBuilder::from_hex_string("01")
        .unwrap()
        .with_threads(3, 8)
        .unwrap()
        .build();
    let first = p.scan(&buffer, false).1;
    let second = p.scan(&buffer, false).1;
    assert_eq!(first, second);
    assert_eq!(first, vec![1, 3, 11]);
}

#[test]
fn thread_count_does_not_change_the_sorted_offsets() {
    let mut buffer = vec![0u8; 64];
    buffer[0] = 0xAA;
    buffer[31] = 0xAA;
    buffer[32] = 0xAA;
    buffer[63] = 0xAA;
    let reference = PatternBuilder::from_hex_string("aa")
        .unwrap()
        .with_threads(1, 8)
        .unwrap()
        .build()
        .scan(&buffer, false)
        .1;
    assert_eq!(reference, vec![0, 31, 32, 63]);
    for n in 1..=8usize {
        let p = PatternBuilder::from_hex_string("aa")
            .unwrap()
            .with_threads(n, 8)
            .unwrap()
            .build();
        assert_eq!(p.scan(&buffer, false).1, reference);
    }
}

#[test]
fn match_straddling_a_partition_boundary_is_found_exactly_once() {
    // Two workers over eight bytes split at offset 4; the match starts at 3
    // and ends at 4, crossing the boundary.
    let buffer = [0u8, 0, 0, 9, 9, 0, 0, 0];
    let p = PatternBuilder::from_hex_string("0909")
        .unwrap()
        .with_threads(2, 8)
        .unwrap()
        .build();
    let (found, offs) = p.scan(&buffer, false);
    assert!(found);
    assert_eq!(offs, vec![3]);
    // The same with more workers than the match can span.
    let p = PatternBuilder::from_hex_string("0909")
        .unwrap()
        .with_threads(8, 8)
        .unwrap()
        .build();
    assert_eq!(p.scan(&buffer, false).1, vec![3]);
}

#[test]
fn stop_after_first_reports_one_match() {
    let buffer = [0xFFu8, 0x00, 0xFF, 0x00, 0xFF];
    let p = PatternBuilder::from_ida_style("FF").unwrap().build();
    let (found, offs) = p.scan(&buffer, true);
    assert!(found);
    assert_eq!(offs, vec![0]);
}

#[test]
fn stop_after_first_on_empty_result_reports_none() {
    let buffer = [1u8, 2, 3];
    let p = PatternBuilder::from_hex_string("ee").unwrap().build();
    let (found, offs) = p.scan(&buffer, true);
    assert!(!found);
    assert!(offs.is_empty());
}
