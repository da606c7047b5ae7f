use vstd::prelude::*;

verus! {

/// Index of one 8-bit sample inside a flattened row-major RGB buffer:
/// row `row`, column `col`, channel `ch` (0 = red, 1 = green, 2 = blue).
pub open spec fn sample_index(width: int, row: int, col: int, ch: int) -> int {
    3 * (row * width + col) + ch
}

/// A row-major RGB pixel grid: three 8-bit samples per pixel, stored
/// contiguously with a `width` stride.
pub struct PixelBuffer {
    pub width: usize,
    pub height: usize,
    pub data: Vec<u8>,
}

impl PixelBuffer {
    /// The stored samples form exactly `width * height` pixel triples.
    pub open spec fn wf(&self) -> bool {
        self.data@.len() == 3 * self.width * self.height
    }

    /// Wraps a flat sample vector as a `width` by `height` buffer; rejects a
    /// vector whose length does not match the dimensions.
    pub fn new(width: usize, height: usize, data: Vec<u8>) -> (r: Option<PixelBuffer>)
        ensures
            match r {
                Some(b) => b.wf() && b.width == width && b.height == height && b.data@ == data@,
                None => data@.len() != 3 * width * height,
            },
    {
        proof {
            assert((width * height) * 3 == 3 * width * height) by (nonlinear_arith);
        }
        let n = data.len();
        let prod_ok = match width.checked_mul(height) {
            Some(p) => match p.checked_mul(3) {
                Some(t) => t == n,
                None => false,
            },
            None => false,
        };
        if prod_ok {
            Some(PixelBuffer { width, height, data })
        } else {
            None
        }
    }

}

/// A sample index inside the grid stays below the sample count of the buffer.
pub proof fn lemma_sample_index_in_range(width: int, height: int, row: int, col: int, ch: int)
    requires
        0 <= col < width,
        0 <= row < height,
        0 <= ch < 3,
    ensures
        0 <= row * width + col < width * height,
        0 <= sample_index(width, row, col, ch) < 3 * width * height,
{
    assert(0 <= row * width + col < width * height) by (nonlinear_arith)
        requires 0 <= col < width && 0 <= row < height;
    assert(0 <= 3 * (row * width + col) + ch < 3 * width * height) by (nonlinear_arith)
        requires 0 <= row * width + col < width * height && 0 <= ch < 3;
}

} // verus!
