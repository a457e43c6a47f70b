use disk_carver::simd_search::{find_all_bytes, verify_pattern, BatchSimdSearcher, SimdSearcher};

#[test]
fn searcher_finds_overlapping_occurrences() {
    let s = SimdSearcher::new(b"aa");
    assert_eq!(s.find_all(b"aaaa"), vec![0, 1, 2]);
}

#[test]
fn searcher_finds_all_positions_in_order() {
    let s = SimdSearcher::new(&[0xFF, 0xD8, 0xFF]);
    let hay = [0u8, 0xFF, 0xD8, 0xFF, 0x00, 0xFF, 0xD8, 0xFF, 0xE0];
    assert_eq!(s.find_all(&hay), vec![1, 5]);
    assert_eq!(s.find_first(&hay), Some(1));
}

#[test]
fn searcher_reports_nothing_when_absent() {
    let s = SimdSearcher::new(b"xyz");
    assert_eq!(s.find_all(b"abcabc"), Vec::<usize>::new());
    assert_eq!(s.find_first(b"abcabc"), None);
    assert_eq!(s.find_all(b"xy"), Vec::<usize>::new());
}

#[test]
fn searcher_finds_adjacent_occurrences() {
    let s = SimdSearcher::new(b"ab");
    assert_eq!(s.find_all(b"abxabab"), vec![0, 3, 5]);
}

#[test]
fn find_all_bytes_lists_every_position() {
    assert_eq!(find_all_bytes(b"abcab", b'a'), vec![0, 3]);
    assert_eq!(find_all_bytes(b"", b'a'), Vec::<usize>::new());
}

#[test]
fn verify_pattern_compares_prefix() {
    assert!(verify_pattern(b"abcdef", b"abc"));
    assert!(!verify_pattern(b"abcdef", b"abd"));
    assert!(!verify_pattern(b"ab", b"abc"));
}

#[test]
fn batch_searcher_reports_position_then_pattern() {
    let p0: &[u8] = b"ab";
    let p1: &[u8] = b"b";
    let s = BatchSimdSearcher::new(&[p0, p1]);
    assert_eq!(s.find_all(b"abab"), vec![(0, 0), (1, 1), (0, 2), (1, 3)]);
}
