use chunkscan::driver::{scan, scan_source};
use chunkscan::matcher::{FileRead, Source};

fn run_one(source: &[u8], target: &[u8]) -> Vec<(usize, usize)> {
    let mut src = Source::new(source.to_vec());
    let target: Vec<u8> = target.to_vec();
    scan_source(&mut src, &target);
    src.chunks().clone()
}

#[test]
fn occurrence_at_start_is_reported() {
    assert_eq!(run_one(b"ab", b"ab"), vec![(0, 1)]);
}

#[test]
fn scenario_two_separated_occurrences() {
    assert_eq!(run_one(b"ab", b"xxabxxab"), vec![(2, 3), (6, 7)]);
}

#[test]
fn overlap_is_missed_by_restart_policy() {
    assert_eq!(run_one(b"aa", b"aaa"), vec![(0, 1)]);
}

#[test]
fn absent_source_yields_no_chunks() {
    assert_eq!(run_one(b"zz", b"xxabxxab"), vec![]);
}

#[test]
fn empty_target_yields_no_chunks() {
    assert_eq!(run_one(b"ab", b""), vec![]);
}

#[test]
fn empty_source_yields_no_chunks() {
    assert_eq!(run_one(b"", b"abc"), vec![]);
}

#[test]
fn adjacent_occurrences_both_reported() {
    assert_eq!(run_one(b"ab", b"abab"), vec![(0, 1), (2, 3)]);
}

#[test]
fn single_byte_source_reported_at_each_offset() {
    assert_eq!(run_one(b"a", b"aaa"), vec![(0, 0), (1, 1), (2, 2)]);
}

#[test]
fn attempt_after_match_gets_fresh_start() {
    // Every chunk spans exactly the source length: the attempt that begins
    // right after a completed match starts at its own offset.
    assert_eq!(run_one(b"aa", b"aaaa"), vec![(0, 1), (2, 3)]);
}

#[test]
fn mismatch_consumes_the_byte_without_retry() {
    assert_eq!(run_one(b"ab", b"aab"), vec![]);
}

#[test]
fn full_span_only_never_partial() {
    assert_eq!(run_one(b"abc", b"abxabc"), vec![(3, 5)]);
}

#[test]
fn identical_sources_get_identical_chunks() {
    let target: Vec<u8> = b"xxabxxab".to_vec();
    let sources = vec![Source::new(b"ab".to_vec()), Source::new(b"ab".to_vec())];
    let done = scan(sources, &target);
    assert_eq!(done.len(), 2);
    assert_eq!(done[0].chunks(), done[1].chunks());
    assert_eq!(*done[0].chunks(), vec![(2, 3), (6, 7)]);
}

#[test]
fn source_order_does_not_change_a_result() {
    let target: Vec<u8> = b"xxabxxab".to_vec();
    let first = scan(
        vec![Source::new(b"ab".to_vec()), Source::new(b"xx".to_vec())],
        &target,
    );
    let second = scan(
        vec![Source::new(b"xx".to_vec()), Source::new(b"ab".to_vec())],
        &target,
    );
    assert_eq!(first[0].chunks(), second[1].chunks());
    assert_eq!(first[1].chunks(), second[0].chunks());
    assert_eq!(*first[1].chunks(), vec![(0, 1), (4, 5)]);
}

#[test]
fn two_sources_may_report_overlapping_chunks() {
    let target: Vec<u8> = b"abc".to_vec();
    let done = scan(
        vec![Source::new(b"abc".to_vec()), Source::new(b"bc".to_vec())],
        &target,
    );
    assert_eq!(*done[0].chunks(), vec![(0, 2)]);
    assert_eq!(*done[1].chunks(), vec![(1, 2)]);
}

#[test]
fn chunks_accumulate_per_byte_in_discovery_order() {
    let mut src = Source::new(b"ab".to_vec());
    let target = b"xxabxxab";
    for (offset, byte) in target.iter().enumerate() {
        src.check(*byte, offset);
        if offset < 3 {
            assert!(src.chunks().is_empty());
        }
    }
    assert_eq!(*src.chunks(), vec![(2, 3), (6, 7)]);
}

#[test]
fn end_of_source_outcome_is_end() {
    assert!(FileRead::End.is_end());
    assert!(!FileRead::Next.is_end());
}
