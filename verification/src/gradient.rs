use vstd::prelude::*;
use crate::pixels::PixelBuffer;

verus! {

/// The Sobel edge-magnitude response of one grayscale plane of `width` by
/// `height` 8-bit samples, one 16-bit magnitude per pixel. The exact values
/// are whatever `imageproc::gradients::sobel_gradients` computes; they depend
/// on the plane and its dimensions alone.
pub uninterp spec fn sobel_of(plane: Seq<u8>, width: int, height: int) -> Seq<u16>;

/// One channel of a flattened RGB buffer as a grayscale plane of `count`
/// pixels: sample `ch` of every triple, in pixel order.
pub open spec fn channel_plane(pixels: Seq<u8>, count: int, ch: int) -> Seq<u8> {
    Seq::new(count as nat, |i: int| pixels[3 * i + ch])
}

/// Per-pixel importance: the three per-channel Sobel magnitudes of the buffer,
/// combined by summation into one scalar per pixel.
pub open spec fn combined_magnitudes(pixels: Seq<u8>, width: int, height: int) -> Seq<u32> {
    let count = width * height;
    let r = sobel_of(channel_plane(pixels, count, 0), width, height);
    let g = sobel_of(channel_plane(pixels, count, 1), width, height);
    let b = sobel_of(channel_plane(pixels, count, 2), width, height);
    Seq::new(count as nat, |i: int| (r[i] + g[i] + b[i]) as u32)
}

/// Relies on `imageproc::gradients::sobel_gradients`: the Sobel edge magnitude
/// of a grayscale plane. Its documentation and source give an output image of
/// the same dimensions as the input, each pixel computed from the input plane
/// alone (3x3 Sobel kernels, borders padded by continuity); the values are
/// named `sobel_of` here rather than spelled out.
#[verifier::external_body]
fn sobel_plane(plane: &Vec<u8>, width: usize, height: usize) -> (r: Vec<u16>)
    requires
        plane@.len() == width * height,
        width <= u32::MAX,
        height <= u32::MAX,
    ensures
        r@ == sobel_of(plane@, width as int, height as int),
        r@.len() == plane@.len(),
{
    let img = image::GrayImage::from_raw(width as u32, height as u32, plane.clone()).unwrap();
    imageproc::gradients::sobel_gradients(&img).into_raw()
}

/// A `width` by `height` grid of non-negative per-pixel magnitudes, row-major.
pub struct GradientField {
    pub width: usize,
    pub height: usize,
    pub data: Vec<u32>,
}

impl GradientField {
    /// The grid holds exactly one magnitude per pixel.
    pub open spec fn wf(&self) -> bool {
        self.data@.len() == self.width * self.height
    }

    /// Wraps a flat magnitude vector as a `width` by `height` field; rejects a
    /// vector whose length does not match the dimensions.
    pub fn from_raw(width: usize, height: usize, data: Vec<u32>) -> (r: Option<GradientField>)
        ensures
            match r {
                Some(g) => g.wf() && g.width == width && g.height == height && g.data@ == data@,
                None => data@.len() != width * height,
            },
    {
        let n = data.len();
        let prod_ok = match width.checked_mul(height) {
            Some(p) => p == n,
            None => false,
        };
        if prod_ok {
            Some(GradientField { width, height, data })
        } else {
            None
        }
    }

    /// Reads the magnitude at column `col`, row `row`.
    pub fn get(&self, col: usize, row: usize) -> (m: u32)
        requires
            self.wf(),
            col < self.width,
            row < self.height,
        ensures
            m == self.data@[row * self.width + col],
    {
        let n = self.data.len();
        proof {
            crate::pixels::lemma_sample_index_in_range(
                self.width as int, self.height as int, row as int, col as int, 0,
            );
        }
        self.data[row * self.width + col]
    }
}

/// Splits an RGB buffer into its red, green and blue planes, one 8-bit sample
/// per pixel each.
pub fn decompose_channels(image: &PixelBuffer) -> (r: (Vec<u8>, Vec<u8>, Vec<u8>))
    requires
        image.wf(),
    ensures
        r.0@ == channel_plane(image.data@, image.width * image.height, 0),
        r.1@ == channel_plane(image.data@, image.width * image.height, 1),
        r.2@ == channel_plane(image.data@, image.width * image.height, 2),
{
    let n = image.data.len();
    proof {
        assert(3 * (image.width * image.height) == 3 * image.width * image.height)
            by (nonlinear_arith);
    }
    let count = image.width * image.height;
    let mut red: Vec<u8> = Vec::new();
    let mut green: Vec<u8> = Vec::new();
    let mut blue: Vec<u8> = Vec::new();
    let mut i: usize = 0;
    while i < count
        invariant
            count == image.width * image.height,
            3 * count == image.data@.len(),
            3 * count <= usize::MAX,
            i <= count,
            red@.len() == i,
            green@.len() == i,
            blue@.len() == i,
            forall|j: int| 0 <= j < i ==> red@[j] == image.data@[3 * j],
            forall|j: int| 0 <= j < i ==> green@[j] == image.data@[3 * j + 1],
            forall|j: int| 0 <= j < i ==> blue@[j] == image.data@[3 * j + 2],
        decreases count - i,
    {
        red.push(image.data[3 * i]);
        green.push(image.data[3 * i + 1]);
        blue.push(image.data[3 * i + 2]);
        i = i + 1;
    }
    proof {
        assert(red@ =~= channel_plane(image.data@, count as int, 0));
        assert(green@ =~= channel_plane(image.data@, count as int, 1));
        assert(blue@ =~= channel_plane(image.data@, count as int, 2));
    }
    (red, green, blue)
}

/// Builds the per-pixel importance field of an RGB buffer: per-channel Sobel
/// magnitudes, summed across the three channels.
pub fn gradient_magnitude(image: &PixelBuffer) -> (g: GradientField)
    requires
        image.wf(),
        image.width <= u32::MAX,
        image.height <= u32::MAX,
    ensures
        g.wf(),
        g.width == image.width,
        g.height == image.height,
        g.data@ == combined_magnitudes(image.data@, image.width as int, image.height as int),
{
    let (red, green, blue) = decompose_channels(image);
    let count = red.len();
    let r_grad = sobel_plane(&red, image.width, image.height);
    let g_grad = sobel_plane(&green, image.width, image.height);
    let b_grad = sobel_plane(&blue, image.width, image.height);
    let mut data: Vec<u32> = Vec::new();
    let mut i: usize = 0;
    while i < count
        invariant
            count == image.width * image.height,
            r_grad@.len() == count,
            g_grad@.len() == count,
            b_grad@.len() == count,
            i <= count,
            data@.len() == i,
            forall|j: int| 0 <= j < i ==>
                data@[j] == (r_grad@[j] + g_grad@[j] + b_grad@[j]) as u32,
        decreases count - i,
    {
        data.push(r_grad[i] as u32 + g_grad[i] as u32 + b_grad[i] as u32);
        i = i + 1;
    }
    proof {
        assert(data@ =~= combined_magnitudes(image.data@, image.width as int, image.height as int));
    }
    GradientField { width: image.width, height: image.height, data }
}

} // verus!
