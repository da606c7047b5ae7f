use image_alg::carve::{remove_path, resize_image};
use image_alg::gradient::gradient_magnitude;
use image_alg::{CarveError, DPTable, GradientField, Path, PixelBuffer};

fn buffer_from_bytes(width: usize, height: usize, data: Vec<u8>) -> PixelBuffer {
    PixelBuffer::new(width, height, data).expect("dimensions match the sample count")
}

/// Hand-computed worked scenario on a 4-column by 3-row gradient:
/// the cost table, the starting column, the seam and the post-removal buffer.
#[test]
fn worked_scenario_four_by_three() {
    let magnitudes: Vec<u32> = vec![
        1, 9, 9, 1, //
        1, 1, 9, 1, //
        1, 9, 1, 1,
    ];
    let gradient = GradientField::from_raw(4, 3, magnitudes).expect("4 x 3 grid");
    let table = DPTable::from_gradient_buffer(&gradient);

    let expected_rows: [[u64; 4]; 3] = [[3, 11, 11, 3], [2, 2, 10, 2], [1, 9, 1, 1]];
    for row in 0..3 {
        for col in 0..4 {
            assert_eq!(table.get(col, row), expected_rows[row][col]);
        }
    }

    assert_eq!(table.path_start_index(), 0);

    let path = Path::from_dp_table(&table);
    assert_eq!(path.indices, vec![0, 0, 0]);

    let samples: Vec<u8> = (0..36).collect();
    let mut buffer = buffer_from_bytes(4, 3, samples);
    remove_path(&mut buffer, path);
    assert_eq!(buffer.width, 3);
    assert_eq!(buffer.height, 3);
    let expected: Vec<u8> = vec![
        3, 4, 5, 6, 7, 8, 9, 10, 11, //
        15, 16, 17, 18, 19, 20, 21, 22, 23, //
        27, 28, 29, 30, 31, 32, 33, 34, 35,
    ];
    assert_eq!(buffer.data, expected);
}

/// The row-0 minimum of the cost table is at most the cumulative magnitude of
/// every valid top-to-bottom path, checked by brute force on the worked
/// scenario's grid.
#[test]
fn row_zero_minimum_is_optimal() {
    let width = 4usize;
    let height = 3usize;
    let magnitudes: Vec<u32> = vec![
        1, 9, 9, 1, //
        1, 1, 9, 1, //
        1, 9, 1, 1,
    ];
    let gradient =
        GradientField::from_raw(width, height, magnitudes.clone()).expect("4 x 3 grid");
    let table = DPTable::from_gradient_buffer(&gradient);
    let row0_min = (0..width).map(|c| table.get(c, 0)).min().unwrap();
    assert_eq!(row0_min, 3);

    // Every path: a start column and one step in {-1, 0, 1} per later row.
    for start in 0..width as i64 {
        for step_a in -1..=1i64 {
            for step_b in -1..=1i64 {
                let cols = [start, start + step_a, start + step_a + step_b];
                if cols.iter().any(|&c| c < 0 || c >= width as i64) {
                    continue;
                }
                let total: u64 = cols
                    .iter()
                    .enumerate()
                    .map(|(row, &c)| magnitudes[row * width + c as usize] as u64)
                    .sum();
                assert!(row0_min <= total);
            }
        }
    }
}

/// Removing n seams shrinks the width by exactly n and keeps the height.
#[test]
fn resize_shrinks_width_keeps_height() {
    let data: Vec<u8> = (0..90).map(|i| (i * 7 % 251) as u8).collect();
    let mut buffer = buffer_from_bytes(6, 5, data);
    resize_image(&mut buffer, 2).expect("geometry is fine");
    assert_eq!(buffer.width, 4);
    assert_eq!(buffer.height, 5);
    assert_eq!(buffer.data.len(), 3 * 4 * 5);
}

/// A zero reduction returns the buffer unchanged.
#[test]
fn resize_zero_is_identity() {
    let data: Vec<u8> = (0..90).map(|i| (i * 13 % 251) as u8).collect();
    let mut buffer = buffer_from_bytes(6, 5, data.clone());
    resize_image(&mut buffer, 0).expect("geometry is fine");
    assert_eq!(buffer.width, 6);
    assert_eq!(buffer.height, 5);
    assert_eq!(buffer.data, data);
}

/// A reduction of at least the width is clamped to width - 1: the width never
/// reaches zero.
#[test]
fn resize_clamps_reduction() {
    let data: Vec<u8> = (0..90).map(|i| (i * 31 % 251) as u8).collect();
    let mut buffer = buffer_from_bytes(6, 5, data);
    resize_image(&mut buffer, 100).expect("geometry is fine");
    assert_eq!(buffer.width, 1);
    assert_eq!(buffer.height, 5);
    assert_eq!(buffer.data.len(), 3 * 1 * 5);
}

/// Two runs over byte-identical input produce byte-identical output.
#[test]
fn resize_is_deterministic() {
    let data: Vec<u8> = (0..144).map(|i| (i * 37 % 256) as u8).collect();
    let mut first = buffer_from_bytes(8, 6, data.clone());
    let mut second = buffer_from_bytes(8, 6, data);
    resize_image(&mut first, 3).expect("geometry is fine");
    resize_image(&mut second, 3).expect("geometry is fine");
    assert_eq!(first.width, second.width);
    assert_eq!(first.height, second.height);
    assert_eq!(first.data, second.data);
}

/// On a constant-color image all costs tie and the seam is the straight
/// vertical line at column 0 of every iteration: each row loses its first
/// pixel.
#[test]
fn flat_image_removes_leftmost_column() {
    let data: Vec<u8> = vec![130; 3 * 5 * 4];
    let mut buffer = buffer_from_bytes(5, 4, data);

    // The magnitude field of a constant image is flat.
    let gradient = gradient_magnitude(&buffer);
    assert!(gradient.data.iter().all(|&m| m == gradient.data[0]));

    // So the extracted seam is a straight line at column 0.
    let table = DPTable::from_gradient_buffer(&gradient);
    let path = Path::from_dp_table(&table);
    assert_eq!(path.indices, vec![0, 0, 0, 0]);

    resize_image(&mut buffer, 1).expect("geometry is fine");
    assert_eq!(buffer.width, 4);
    assert_eq!(buffer.height, 4);
    assert_eq!(buffer.data, vec![130; 3 * 4 * 4]);
}

/// With one positive vertical line in the gradient and zeros elsewhere, the
/// seam never touches the line's column.
#[test]
fn seam_avoids_high_magnitude_line() {
    let width = 5;
    let height = 4;
    let line = 2;
    let mut magnitudes: Vec<u32> = vec![0; width * height];
    for row in 0..height {
        magnitudes[row * width + line] = 7;
    }
    let gradient = GradientField::from_raw(width, height, magnitudes).expect("5 x 4 grid");
    let table = DPTable::from_gradient_buffer(&gradient);
    let path = Path::from_dp_table(&table);
    assert_eq!(path.indices.len(), height);
    for &col in &path.indices {
        assert_ne!(col, line);
    }
}

/// A buffer narrower or shorter than three pixels is rejected unchanged.
#[test]
fn degenerate_geometry_is_rejected() {
    let data: Vec<u8> = (0..30).collect();
    let mut buffer = buffer_from_bytes(2, 5, data.clone());
    let result = resize_image(&mut buffer, 1);
    assert_eq!(result, Err(CarveError::DegenerateGeometry));
    assert_eq!(buffer.width, 2);
    assert_eq!(buffer.height, 5);
    assert_eq!(buffer.data, data);

    let data: Vec<u8> = (0..30).collect();
    let mut buffer = buffer_from_bytes(5, 2, data.clone());
    let result = resize_image(&mut buffer, 1);
    assert_eq!(result, Err(CarveError::DegenerateGeometry));
    assert_eq!(buffer.data, data);
}

/// A sample vector whose length does not match the dimensions is rejected.
#[test]
fn mismatched_sample_count_is_rejected() {
    assert!(PixelBuffer::new(4, 3, vec![0; 35]).is_none());
    assert!(PixelBuffer::new(4, 3, vec![0; 36]).is_some());
    assert!(GradientField::from_raw(4, 3, vec![0; 11]).is_none());
    assert!(GradientField::from_raw(4, 3, vec![0; 12]).is_some());
}
