use io_utils::plan::{chunk_range, chunk_ranges, chunk_size, MIN_CHUNK_SIZE};

#[test]
fn min_chunk_size_is_8192() {
    assert_eq!(MIN_CHUNK_SIZE, 8192);
}

#[test]
fn small_messages_get_the_minimum_chunk() {
    assert_eq!(chunk_size(1, 0), 8192);
    assert_eq!(chunk_size(1, 1), 8192);
    assert_eq!(chunk_size(2, 8191), 8192);
    assert_eq!(chunk_size(16, 8192), 8192);
    assert_eq!(chunk_size(16, 16 * 8192), 8192);
}

#[test]
fn large_messages_get_the_share_rounded_up() {
    assert_eq!(chunk_size(16, 16 * 8192 + 1), 8193);
    assert_eq!(chunk_size(3, 100_000), 33_334);
    assert_eq!(chunk_size(2, 1_000_000), 500_000);
    assert_eq!(chunk_size(1, 1_000_000), 1_000_000);
    assert_eq!(chunk_size(7, 1_000_000), 142_858);
}

#[test]
fn sixteen_channels_two_to_the_25() {
    let len: usize = 1 << 25;
    let size = chunk_size(16, len);
    assert_eq!(size, 2_097_152);
    assert!(size > MIN_CHUNK_SIZE);
    for i in 0..16usize {
        assert_eq!(chunk_range(16, len, i), (i * 2_097_152, (i + 1) * 2_097_152));
    }
}

#[test]
fn chunk_size_does_not_overflow_at_the_top() {
    assert_eq!(chunk_size(1, usize::MAX), usize::MAX);
    assert_eq!(chunk_size(2, usize::MAX), usize::MAX / 2 + 1);
    assert_eq!(chunk_size(usize::MAX, usize::MAX), 8192);
    assert_eq!(chunk_range(usize::MAX, 10, usize::MAX - 1), (10, 10));
}

#[test]
fn ranges_of_a_short_message() {
    assert_eq!(chunk_ranges(4, 10_000), vec![(0, 8192), (8192, 10_000), (10_000, 10_000), (10_000, 10_000)]);
    assert_eq!(chunk_ranges(3, 0), vec![(0, 0), (0, 0), (0, 0)]);
    assert_eq!(chunk_ranges(2, 8192), vec![(0, 8192), (8192, 8192)]);
    assert_eq!(chunk_ranges(1, 5), vec![(0, 5)]);
}

#[test]
fn ranges_of_a_long_message() {
    assert_eq!(
        chunk_ranges(3, 100_000),
        vec![(0, 33_334), (33_334, 66_668), (66_668, 100_000)]
    );
}

#[test]
fn ranges_cover_the_message_without_gap_or_overlap() {
    for &n in &[1usize, 2, 3, 5, 16, 33] {
        for &len in &[0usize, 1, 8191, 8192, 8193, 16_384, 99_999, 1_000_000] {
            let ranges = chunk_ranges(n, len);
            assert_eq!(ranges.len(), n);
            let mut at = 0usize;
            for (i, &(start, end)) in ranges.iter().enumerate() {
                assert_eq!(start, at);
                assert!(start <= end);
                assert!(end - start <= chunk_size(n, len));
                assert_eq!((start, end), chunk_range(n, len, i));
                at = end;
            }
            assert_eq!(at, len);
        }
    }
}
