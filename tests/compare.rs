use bin_diff::anchor::{copy_range, extract_anchors, AnchorWindow};
use bin_diff::bin_compare::{compare, correlate_window, CompareError};
use bin_diff::search::search;

fn counting(n: usize) -> Vec<u8> {
    (0..n).map(|i| i as u8).collect()
}

#[test]
fn search_reports_missing_needle() {
    let hay = vec![1u8, 2, 3, 4, 5];
    assert_eq!(search(&hay, &vec![9u8, 9]), None);
    assert_eq!(search(&hay, &vec![4u8, 6]), None);
}

#[test]
fn search_finds_planted_needle() {
    let mut hay = vec![0u8; 32];
    hay[20] = 0xAB;
    hay[21] = 0xCD;
    hay[22] = 0xEF;
    assert_eq!(search(&hay, &vec![0xABu8, 0xCD, 0xEF]), Some(20));
}

#[test]
fn search_finds_needle_at_zero() {
    let hay = vec![7u8, 8, 9, 7, 8, 9];
    assert_eq!(search(&hay, &vec![7u8, 8, 9]), Some(0));
}

#[test]
fn search_needs_the_whole_needle() {
    // A first byte that matches with a tail that does not is no occurrence.
    let hay = vec![5u8, 1, 5, 2, 5, 3];
    assert_eq!(search(&hay, &vec![5u8, 2]), Some(2));
    assert_eq!(search(&hay, &vec![5u8, 4]), None);
}

#[test]
fn search_returns_first_occurrence() {
    let hay = vec![0u8, 3, 4, 3, 4, 3, 4];
    assert_eq!(search(&hay, &vec![3u8, 4]), Some(1));
}

#[test]
fn search_needle_at_end_and_past_end() {
    let hay = vec![1u8, 2, 3];
    assert_eq!(search(&hay, &vec![2u8, 3]), Some(1));
    assert_eq!(search(&hay, &vec![3u8, 4]), None);
    assert_eq!(search(&hay, &vec![1u8, 2, 3, 4]), None);
}

#[test]
fn search_empty_needle_is_at_zero() {
    assert_eq!(search(&vec![1u8, 2], &Vec::new()), Some(0));
    assert_eq!(search(&Vec::new(), &Vec::new()), Some(0));
}

#[test]
fn copy_range_copies_slice() {
    let v = counting(10);
    assert_eq!(copy_range(&v, 3, 7), vec![3u8, 4, 5, 6]);
    assert_eq!(copy_range(&v, 4, 4), Vec::<u8>::new());
}

#[test]
fn anchors_skip_padding_and_truncate() {
    let mut r = counting(20);
    r[8] = 0xFF;
    r[9] = 0xFF;
    let ws = extract_anchors(&r);
    assert_eq!(ws.len(), 2);
    assert_eq!(ws[0].origin, 0);
    assert_eq!(ws[0].bytes, vec![0u8, 1, 2, 3, 4, 5, 6, 7, 0xFF, 0xFF, 10, 11, 12, 13, 14]);
    assert_eq!(ws[1].origin, 16);
    assert_eq!(ws[1].bytes, vec![16u8, 17, 18, 19]);
}

#[test]
fn anchors_only_check_the_first_byte() {
    let mut r = vec![0xFFu8; 16];
    r[8] = 0x00;
    let ws = extract_anchors(&r);
    assert_eq!(ws.len(), 1);
    assert_eq!(ws[0].origin, 8);
    assert_eq!(ws[0].bytes, vec![0u8, 0xFF, 0xFF, 0xFF, 0xFF, 0xFF, 0xFF, 0xFF]);
}

#[test]
fn anchors_stay_inside_buffer() {
    for n in 0..70usize {
        let r = counting(n);
        let ws = extract_anchors(&r);
        assert_eq!(ws.len(), (n + 7) / 8);
        for w in &ws {
            assert_eq!(w.origin % 8, 0);
            assert!(w.origin + w.bytes.len() <= n);
            assert_ne!(r[w.origin], 0xFF);
            assert_eq!(w.bytes.len(), std::cmp::min(15, n - w.origin));
        }
    }
}

#[test]
fn anchors_of_all_padding_are_empty() {
    assert!(extract_anchors(&vec![0xFFu8; 64]).is_empty());
    assert!(extract_anchors(&Vec::new()).is_empty());
}

#[test]
fn compare_refuses_length_mismatch() {
    assert_eq!(compare(4, &vec![0u8; 16], &vec![0u8; 15]), Err(CompareError::LengthMismatch));
    assert_eq!(compare(3, &vec![0u8; 16], &vec![0u8; 17]), Err(CompareError::LengthMismatch));
}

#[test]
fn compare_refuses_odd_or_zero_chunk() {
    assert_eq!(compare(3, &vec![0u8; 16], &vec![0u8; 16]), Err(CompareError::InvalidChunkSize));
    assert_eq!(compare(0, &vec![0u8; 16], &vec![0u8; 16]), Err(CompareError::InvalidChunkSize));
    assert_eq!(compare(1, &Vec::new(), &Vec::new()), Err(CompareError::InvalidChunkSize));
}

#[test]
fn compare_empty_buffers() {
    assert_eq!(compare(4, &Vec::new(), &Vec::new()), Ok(Vec::new()));
}

#[test]
fn compare_detects_inserted_block() {
    let mut reference = vec![0u8; 64];
    reference[0] = 0x41;
    let mut target = vec![0u8; 8];
    target.extend_from_slice(&reference[..56]);
    let records = compare(4, &reference, &target).unwrap();
    assert!(records.iter().any(|r| r.1 == 8));
    assert_eq!(records, vec![(0usize, 8u128)]);
}

#[test]
fn compare_all_padding_is_empty() {
    let reference = vec![0xFFu8; 64];
    let target = vec![0xFFu8; 64];
    assert_eq!(compare(4, &reference, &target), Ok(Vec::new()));
}

#[test]
fn compare_is_repeatable() {
    let reference = counting(40);
    let mut target = vec![0u8; 40];
    target[16..40].copy_from_slice(&reference[0..24]);
    let first = compare(4, &reference, &target);
    let second = compare(4, &reference, &target);
    assert_eq!(first, second);
    // Each accepted pattern of a window is attributed to the next stride.
    let expected = vec![
        (0usize, 16u128), (8, 12), (16, 8), (24, 4),
        (8, 16), (16, 12), (24, 8), (32, 4),
        (16, 16), (24, 12),
    ];
    assert_eq!(first, Ok(expected));
}

#[test]
fn compare_self_with_distinct_bytes_has_zero_shift() {
    let b = counting(32);
    let expected = vec![(0usize, 0u128), (8, 0), (8, 0), (16, 0), (16, 0), (24, 0), (24, 0)];
    assert_eq!(compare(4, &b, &b), Ok(expected));
    for c in [2usize, 4, 8, 16] {
        for r in compare(c, &b, &b).unwrap() {
            assert_eq!(r.1, 0);
        }
    }
}

#[test]
fn compare_self_with_wide_chunk_can_shift() {
    // Stride attribution: the third pattern starts at 12 but is attributed to 8.
    let b = counting(16);
    assert_eq!(compare(6, &b, &b), Ok(vec![(0usize, 0u128), (8, 4), (8, 0)]));
}

#[test]
fn compare_skips_matches_before_expected_offset() {
    // The only window starts at 8; its content sits at offsets 0 and 4 of the target.
    let mut reference = vec![0u8; 16];
    reference[0] = 0xFF;
    reference[8..12].copy_from_slice(&[1, 2, 3, 4]);
    let mut target = vec![0u8; 16];
    target[0..4].copy_from_slice(&[1, 2, 3, 4]);
    assert_eq!(compare(4, &reference, &target), Ok(vec![]));
}

#[test]
fn correlate_window_appends_records() {
    let target = vec![0u8, 0, 0, 0, 0, 0, 0, 0, 0, 0, 7, 7, 8, 8, 0, 0];
    let window = AnchorWindow { origin: 2, bytes: vec![7u8, 7, 8, 8] };
    let mut out = vec![(99usize, 1u128)];
    correlate_window(&target, &window, 2, &mut out);
    assert_eq!(out, vec![(99usize, 1u128), (2, 8), (10, 2)]);
}
