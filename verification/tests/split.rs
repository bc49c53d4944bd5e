use perlin_noise::split::{bands, div_ceil, item_chunk, table_split, tile, PARALLEL_THRESHOLD};

#[test]
fn division_rounds_up() {
    assert_eq!(div_ceil(10, 3), 4);
    assert_eq!(div_ceil(9, 3), 3);
    assert_eq!(div_ceil(0, 5), 0);
    assert_eq!(div_ceil(usize::MAX, 2), usize::MAX / 2 + 1);
}

#[test]
fn tiles_cover_every_item_once() {
    assert_eq!(tile(10, 4), vec![(0, 4), (4, 4), (8, 2)]);
    assert_eq!(tile(8, 4), vec![(0, 4), (4, 4)]);
    assert_eq!(tile(3, 4), vec![(0, 3)]);
    assert!(tile(0, 4).is_empty());
    for total in 0..50 {
        for piece in 1..12 {
            let mut next = 0;
            for (start, len) in tile(total, piece) {
                assert_eq!(start, next);
                assert!(len >= 1 && len <= piece);
                next = start + len;
            }
            assert_eq!(next, total);
        }
    }
}

#[test]
fn bands_are_never_thinner_than_needed() {
    assert_eq!(bands(80, 8), vec![(0, 40), (40, 40)]);
    assert_eq!(bands(100, 1), vec![(0, 100)]);
    assert_eq!(bands(1, 16), vec![(0, 1)]);
    assert_eq!(bands(1000, 4), vec![(0, 250), (250, 250), (500, 250), (750, 250)]);
}

#[test]
fn large_tables_share_points_across_threads() {
    let count = 49 * 49 * 49;
    assert_eq!(table_split(count, 8), (8, 14707));
    assert_eq!(table_split(count, 64), (8, 14707));
    assert_eq!(table_split(count, 2), (2, 58825));
    assert_eq!(table_split(PARALLEL_THRESHOLD, 16), (1, PARALLEL_THRESHOLD));
}

#[test]
fn items_are_chunked_for_the_threads_there_are() {
    assert_eq!(item_chunk(10, 4), 3);
    assert_eq!(item_chunk(0, 4), 1);
    assert_eq!(item_chunk(7, 1), 7);
}
