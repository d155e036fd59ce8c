use mini_renderer::pipeline::parallel::{
    band_layout, build_row_bins, direct_path_for, local_fragment_index, parallel_row_height,
    primitive_row_range, row_bin, row_height_for_threads, row_tile, use_direct_path,
    BandLayout, BIN_ROW_HEIGHT, MIN_BINNED_PRIMITIVES,
};
use mini_renderer::pipeline::{
    cache_indices, checked_target_len, find_out_of_bounds_index, fragment_index,
    indices_are_sequential,
};

/// Pixel bounds of a point given in clip space, on a `width x height` screen:
/// the pixel that contains it.
fn point_bounds(x: f32, y: f32, width: usize, height: usize) -> Option<[usize; 4]> {
    let sx = ((x + 1.0) * 0.5 * width as f32).floor() as usize;
    let sy = ((1.0 - y) * 0.5 * height as f32).floor() as usize;
    Some([sx, sy, sx + 1, sy + 1])
}

fn run(
    bounds: &[Option<[usize; 4]>],
    height: usize,
    row_height: usize,
    direct_row_height: usize,
) -> (bool, Vec<usize>, Vec<usize>, Vec<usize>, Vec<Option<[usize; 2]>>) {
    let mut row_counts = Vec::new();
    let mut row_offsets = Vec::new();
    let mut row_indices = Vec::new();
    let mut primitive_row_ranges = Vec::new();
    let used = build_row_bins(
        bounds,
        height,
        row_height,
        direct_row_height,
        &mut row_counts,
        &mut row_offsets,
        &mut row_indices,
        &mut primitive_row_ranges,
    );
    (used, row_counts, row_offsets, row_indices, primitive_row_ranges)
}

#[test]
fn row_bins_assign_points_to_matching_rows() {
    let primitives = [point_bounds(-0.75, 0.5, 128, 128), point_bounds(0.75, -0.5, 128, 128)];
    let (used_binning, _, row_offsets, row_indices, _) = run(&primitives, 128, 32, 32);

    assert!(used_binning);
    assert_eq!(row_offsets, [0, 0, 1, 1, 2]);
    assert_eq!(row_indices, [0, 1]);
}

#[test]
fn row_bins_preserve_primitive_order() {
    let primitives = [
        point_bounds(-0.9, 0.9, 128, 128),
        point_bounds(-0.8, 0.8, 128, 128),
        point_bounds(-0.7, 0.7, 128, 128),
    ];
    let (used_binning, _, row_offsets, row_indices, _) = run(&primitives, 128, 32, 32);

    assert!(used_binning);
    assert_eq!(&row_indices[row_offsets[0]..row_offsets[1]], [0, 1, 2]);
}

#[test]
fn row_bins_reject_full_screen_primitives_without_savings() {
    let triangle = Some([0, 0, 128, 128]);
    let primitives = [triangle, triangle];
    let (used_binning, _, row_offsets, row_indices, _) = run(&primitives, 128, 32, 64);

    assert!(!used_binning);
    assert!(row_offsets.is_empty());
    assert!(row_indices.is_empty());
}

#[test]
fn row_bins_list_every_primitive_touching_each_band() {
    let bounds = [
        Some([0, 10, 5, 70]),
        None,
        Some([0, 100, 5, 101]),
        Some([0, 40, 5, 41]),
        Some([0, 200, 5, 300]),
    ];
    let (used, counts, offsets, indices, ranges) = run(&bounds, 128, 32, 16);
    assert_eq!(ranges, vec![Some([0, 3]), None, Some([3, 4]), Some([1, 2]), None]);
    assert_eq!(counts, vec![1, 2, 1, 1]);
    assert!(used);
    assert_eq!(offsets, vec![0, 1, 3, 4, 5]);
    assert_eq!(indices, vec![0, 0, 3, 0, 2]);
    assert_eq!(row_bin(&offsets, &indices, 1), &[0, 3]);
}

#[test]
fn single_band_never_bins() {
    let (used, counts, offsets, indices, _) = run(&[Some([0, 0, 1, 1])], 20, 32, 32);
    assert!(!used);
    assert_eq!(counts, vec![1]);
    assert!(offsets.is_empty() && indices.is_empty());
}

#[test]
fn row_range_of_bounds() {
    assert_eq!(primitive_row_range(Some([0, 31, 1, 33]), 32, 4), Some([0, 2]));
    assert_eq!(primitive_row_range(Some([0, 200, 1, 300]), 32, 4), None);
    assert_eq!(primitive_row_range(Some([0, 96, 1, 500]), 32, 4), Some([3, 4]));
    assert_eq!(primitive_row_range(None, 32, 4), None);
}

#[test]
fn row_heights_split_rows_between_threads() {
    assert_eq!(row_height_for_threads(100, 8), 13);
    assert_eq!(row_height_for_threads(100, 0), 100);
    assert_eq!(row_height_for_threads(0, 4), 0);
    let h = parallel_row_height(100);
    assert!(h >= 1 && h <= 100);
    assert_eq!(parallel_row_height(0), 0);
}

#[test]
fn small_draws_take_the_direct_path() {
    assert!(use_direct_path(MIN_BINNED_PRIMITIVES - 1));
    assert!(direct_path_for(1, 10_000));
    assert!(!direct_path_for(4, MIN_BINNED_PRIMITIVES));
}

#[test]
fn bands_tile_the_screen() {
    assert_eq!(row_tile(64, 100, 32, 0), [0, 0, 64, 32]);
    assert_eq!(row_tile(64, 100, 32, 3), [0, 96, 64, 4]);
    assert_eq!(local_fragment_index(5, 98, 96, 64), 5 + 2 * 64);
    assert_eq!(fragment_index(5, 98, 64), 5 + 98 * 64);
}

#[test]
fn index_helpers() {
    assert_eq!(checked_target_len(800, 600), 480_000);
    assert_eq!(find_out_of_bounds_index(&[0, 2, 7, 9], 5), Some(7));
    assert_eq!(find_out_of_bounds_index(&[0, 2, 4], 5), None);
    let mut cache = vec![42];
    cache_indices(&mut cache, &[1, 0, 2], 3);
    assert_eq!(cache, vec![1, 0, 2]);
    assert!(indices_are_sequential(&[0, 1, 2], 3));
    assert!(!indices_are_sequential(&[0, 2, 1], 3));
    assert!(!indices_are_sequential(&[0, 1], 3));
}

#[test]
fn bands_cover_every_row_once() {
    for height in [1usize, 31, 32, 33, 100, 128] {
        let row_height = 32;
        let mut next_row = 0;
        let bands = height.div_ceil(row_height);
        for row in 0..bands {
            let [x, y, w, h] = row_tile(7, height, row_height, row);
            assert_eq!((x, w), (0, 7));
            assert_eq!(y, next_row);
            assert!(h >= 1 && h <= row_height);
            next_row = y + h;
        }
        assert_eq!(next_row, height);
    }
}

#[test]
fn primitives_are_binned_exactly_into_overlapping_bands() {
    let row_height = 32;
    let row_count = 4;
    for min_y in [0usize, 5, 31, 32, 63, 64, 100] {
        for max_y in [0usize, 1, 32, 33, 64, 65, 127, 128, 500] {
            let range = primitive_row_range(Some([0, min_y, 1, max_y]), row_height, row_count);
            for row in 0..row_count {
                let covered = matches!(range, Some([lo, hi]) if lo <= row && row < hi);
                let overlaps = min_y < (row + 1) * row_height && row * row_height < max_y;
                assert_eq!(covered, overlaps, "min_y {min_y} max_y {max_y} row {row}");
            }
        }
    }
}

#[test]
fn band_layout_follows_the_binning_outcome() {
    assert_eq!(band_layout(0, false, 0, 8), BandLayout::Skip);
    assert_eq!(band_layout(3, false, 0, 8), BandLayout::Direct { row_height: 8 });
    assert_eq!(band_layout(3, true, 0, 8), BandLayout::Skip);
    assert_eq!(band_layout(3, true, 5, 8), BandLayout::Binned { row_height: BIN_ROW_HEIGHT });
}
