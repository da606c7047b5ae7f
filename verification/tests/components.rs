use image_alg::gradient::{decompose_channels, gradient_magnitude};
use image_alg::seam::next_col;
use image_alg::{DPTable, ImageInfo, PixelBuffer};

fn table_from_rows(rows: &[&[u64]]) -> DPTable {
    let height = rows.len();
    let width = rows[0].len();
    let mut cells = Vec::new();
    for row in rows {
        assert_eq!(row.len(), width);
        cells.extend_from_slice(row);
    }
    DPTable { width, height, table: cells }
}

/// The interior tie-break order is left, then right, then stay.
#[test]
fn next_col_tie_break_order() {
    // A left tie wins over the middle.
    let table = table_from_rows(&[&[9, 9, 9], &[5, 5, 9]]);
    assert_eq!(next_col(&table, 1, 1), 0);

    // A middle/right tie moves right: the left comparison fails first.
    let table = table_from_rows(&[&[9, 9, 9], &[9, 5, 5]]);
    assert_eq!(next_col(&table, 1, 1), 2);

    // A strict middle minimum stays.
    let table = table_from_rows(&[&[9, 9, 9], &[9, 5, 9]]);
    assert_eq!(next_col(&table, 1, 1), 1);

    // A strict left minimum moves left.
    let table = table_from_rows(&[&[9, 9, 9], &[4, 5, 9]]);
    assert_eq!(next_col(&table, 1, 1), 0);

    // A strict right minimum moves right.
    let table = table_from_rows(&[&[9, 9, 9], &[9, 5, 4]]);
    assert_eq!(next_col(&table, 1, 1), 2);
}

/// A boundary column only moves on a strict improvement, and never off the
/// grid.
#[test]
fn next_col_boundary_rules() {
    // Left boundary: stay on a tie.
    let table = table_from_rows(&[&[9, 9, 9], &[5, 5, 1]]);
    assert_eq!(next_col(&table, 1, 0), 0);
    // Left boundary: move right only when strictly smaller.
    let table = table_from_rows(&[&[9, 9, 9], &[5, 4, 1]]);
    assert_eq!(next_col(&table, 1, 0), 1);
    // Right boundary: stay on a tie.
    let table = table_from_rows(&[&[9, 9, 9], &[1, 5, 5]]);
    assert_eq!(next_col(&table, 1, 2), 2);
    // Right boundary: move left only when strictly smaller.
    let table = table_from_rows(&[&[9, 9, 9], &[1, 4, 5]]);
    assert_eq!(next_col(&table, 1, 2), 1);
}

/// The starting column is the first occurrence of the row-0 minimum.
#[test]
fn path_start_index_first_minimum_wins() {
    let table = table_from_rows(&[&[3, 1, 1, 2], &[0, 0, 0, 0]]);
    assert_eq!(table.path_start_index(), 1);
    let table = table_from_rows(&[&[7, 7, 7, 7], &[0, 0, 0, 0]]);
    assert_eq!(table.path_start_index(), 0);
}

/// An interleaved RGB buffer splits into its three planes in pixel order.
#[test]
fn decompose_channels_splits_planes() {
    let data: Vec<u8> = vec![
        10, 20, 30, 11, 21, 31, //
        12, 22, 32, 13, 23, 33,
    ];
    let buffer = PixelBuffer::new(2, 2, data).expect("2 x 2 buffer");
    let (red, green, blue) = decompose_channels(&buffer);
    assert_eq!(red, vec![10, 11, 12, 13]);
    assert_eq!(green, vec![20, 21, 22, 23]);
    assert_eq!(blue, vec![30, 31, 32, 33]);
}

/// Exact Sobel magnitudes of a 3 by 3 image: a shallow horizontal ramp in
/// red, constant green, a steeper vertical ramp in blue. The per-channel
/// responses sum per pixel.
#[test]
fn gradient_magnitude_exact_values() {
    let mut data = Vec::new();
    for y in 0..3u8 {
        for x in 0..3u8 {
            data.push(x); // red ramps left to right
            data.push(5); // green is constant
            data.push(2 * y); // blue ramps top to bottom
        }
    }
    let buffer = PixelBuffer::new(3, 3, data).expect("3 x 3 buffer");
    let gradient = gradient_magnitude(&buffer);
    assert_eq!(gradient.width, 3);
    assert_eq!(gradient.height, 3);
    let expected: Vec<u32> = vec![
        4 + 0 + 8, 8 + 0 + 8, 4 + 0 + 8, //
        4 + 0 + 16, 8 + 0 + 16, 4 + 0 + 16, //
        4 + 0 + 8, 8 + 0 + 8, 4 + 0 + 8,
    ];
    assert_eq!(gradient.data, expected);
}

/// The artifact path is `<dir>/<name>_<postfix>.<ext>`.
#[test]
fn save_path_concat_formats_the_artifact_path() {
    let info = ImageInfo::new(String::from("image_process_results/cat"), String::from("cat"));
    assert_eq!(
        info.save_path_concat("gradient", "png"),
        String::from("image_process_results/cat/cat_gradient.png"),
    );
}
