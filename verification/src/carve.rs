use vstd::prelude::*;
use crate::gradient::{combined_magnitudes, gradient_magnitude};
use crate::pixels::PixelBuffer;
use crate::seam::{seam_col, Path};
use crate::table::{table_of, DPTable};

verus! {

/// Row `row` of the flattened buffer with the pixel at column `col` deleted:
/// the row's samples before the column, then those after it.
pub open spec fn row_without(pixels: Seq<u8>, w: int, row: int, col: int) -> Seq<u8> {
    pixels.subrange(3 * (row * w), 3 * (row * w) + 3 * col) + pixels.subrange(
        3 * (row * w) + 3 * col + 3,
        3 * (row * w) + 3 * w,
    )
}

/// The first `rows` rows of the buffer after deleting one pixel per row at
/// the seam's columns.
pub open spec fn removed_upto(pixels: Seq<u8>, w: int, s: Seq<usize>, rows: int) -> Seq<u8>
    decreases rows,
{
    if rows <= 0 {
        Seq::empty()
    } else {
        removed_upto(pixels, w, s, rows - 1) + row_without(pixels, w, rows - 1, s[rows - 1] as int)
    }
}

/// The whole buffer after deleting the seam's sample triples: every row loses
/// the triple at its seam column.
pub open spec fn removed_samples(pixels: Seq<u8>, w: int, h: int, s: Seq<usize>) -> Seq<u8> {
    removed_upto(pixels, w, s, h)
}

/// Arithmetic facts about the sample span of one row.
proof fn lemma_row_span(w: int, h: int, row: int)
    requires
        0 <= row < h,
        0 <= w,
    ensures
        0 <= 3 * (row * w),
        3 * (row * w) + 3 * w <= 3 * (w * h),
{
    assert(3 * (row * w) >= 0 && 3 * (row * w) + 3 * w <= 3 * (w * h)) by (nonlinear_arith)
        requires
            0 <= row < h,
            0 <= w,
    ;
}

/// Deletes the seam's sample triple from every row, shifting the rest of each
/// row left by one pixel: the width shrinks by one, the height is kept, and
/// exactly `3 * height` samples disappear.
pub fn remove_path(image: &mut PixelBuffer, path: Path)
    requires
        old(image).wf(),
        old(image).width >= 1,
        path.indices@.len() == old(image).height,
        forall|r: int|
            0 <= r < old(image).height ==> (#[trigger] path.indices@[r]) < old(image).width,
    ensures
        final(image).wf(),
        final(image).width == old(image).width - 1,
        final(image).height == old(image).height,
        final(image).data@ == removed_samples(
            old(image).data@,
            old(image).width as int,
            old(image).height as int,
            path.indices@,
        ),
{
    let w = image.width;
    let h = image.height;
    let n = image.data.len();
    proof {
        assert(3 * (w * h) == 3 * w * h) by (nonlinear_arith);
    }
    let mut out: Vec<u8> = Vec::new();
    let mut row: usize = 0;
    while row < h
        invariant
            image.wf(),
            image.width == w,
            image.height == h,
            w >= 1,
            n == image.data@.len(),
            n == 3 * (w * h),
            path.indices@.len() == h,
            forall|r: int| 0 <= r < h ==> (#[trigger] path.indices@[r]) < w,
            row <= h,
            out@ == removed_upto(image.data@, w as int, path.indices@, row as int),
        decreases h - row,
    {
        proof {
            lemma_row_span(w as int, h as int, row as int);
        }
        let base = 3 * (row * w);
        let c = path.indices[row];
        let ghost entry = out@;
        proof {
            assert(out@ =~= entry + image.data@.subrange(base as int, base as int));
        }
        let mut k: usize = base;
        while k < base + 3 * c
            invariant
                image.wf(),
                image.width == w,
                image.height == h,
                n == image.data@.len(),
                n == 3 * (w * h),
                base == 3 * ((row as int) * w),
                base + 3 * w <= n,
                c < w,
                base <= k <= base + 3 * c,
                out@ == entry + image.data@.subrange(base as int, k as int),
            decreases base + 3 * c - k,
        {
            let s = image.data[k];
            out.push(s);
            proof {
                assert(out@ =~= entry + image.data@.subrange(base as int, k + 1));
            }
            k = k + 1;
        }
        let ghost first = image.data@.subrange(base as int, base + 3 * (c as int));
        proof {
            assert(out@ =~= entry + first + image.data@.subrange(
                base + 3 * (c as int) + 3,
                base + 3 * (c as int) + 3,
            ));
        }
        let mut k: usize = base + 3 * c + 3;
        while k < base + 3 * w
            invariant
                image.wf(),
                image.width == w,
                image.height == h,
                n == image.data@.len(),
                n == 3 * (w * h),
                base == 3 * ((row as int) * w),
                base + 3 * w <= n,
                c < w,
                base + 3 * c + 3 <= k <= base + 3 * w,
                out@ == entry + first + image.data@.subrange(base + 3 * (c as int) + 3, k as int),
            decreases base + 3 * w - k,
        {
            let s = image.data[k];
            out.push(s);
            proof {
                assert(out@ =~= entry + first + image.data@.subrange(
                    base + 3 * (c as int) + 3,
                    k + 1,
                ));
            }
            k = k + 1;
        }
        proof {
            assert(out@ =~= removed_upto(image.data@, w as int, path.indices@, row + 1));
        }
        row = row + 1;
    }
    image.width = w - 1;
    image.data = out;
    proof {
        lemma_removed_upto_len(old(image).data@, w as int, path.indices@, h as int);
        assert(3 * ((w - 1) as int * (h as int)) == 3 * (w - 1) * (h as int)) by (nonlinear_arith);
    }
}

/// The clamped number of columns to remove: at most `w - 1`, so that the
/// width never reaches zero.
pub open spec fn clamped_reduction(w: int, n: int) -> int {
    if n > w - 1 {
        w - 1
    } else {
        n
    }
}

/// The seam that one carving iteration extracts from a `w` by `h` buffer: the
/// column visited on each row of the cost table of the buffer's combined
/// Sobel magnitudes.
pub open spec fn seam_of(pixels: Seq<u8>, w: int, h: int) -> Seq<usize> {
    Seq::new(
        h as nat,
        |r: int| seam_col(table_of(combined_magnitudes(pixels, w, h), w, h), w, r) as usize,
    )
}

/// One carving iteration: delete the extracted seam's samples.
pub open spec fn carve_once(pixels: Seq<u8>, w: int, h: int) -> Seq<u8> {
    removed_samples(pixels, w, h, seam_of(pixels, w, h))
}

/// The buffer after `n` carving iterations, each recomputing magnitudes, cost
/// table and seam from the buffer the previous iteration left behind.
pub open spec fn carved(pixels: Seq<u8>, w: int, h: int, n: int) -> Seq<u8>
    decreases n,
{
    if n <= 0 {
        pixels
    } else {
        carved(carve_once(pixels, w, h), w - 1, h, n - 1)
    }
}

/// Carving is deterministic: the result is a pure function of the buffer's
/// bytes and the reduction target, so two runs over byte-identical inputs
/// yield byte-identical outputs.
pub proof fn lemma_carve_deterministic(p1: Seq<u8>, p2: Seq<u8>, w: int, h: int, n: int)
    requires
        p1 == p2,
    ensures
        carved(p1, w, h, n) == carved(p2, w, h, n),
{
}

/// A carving run rejects a buffer with fewer than three rows or columns.
#[derive(Clone, Copy, Debug, PartialEq, Eq, Structural)]
pub enum CarveError {
    DegenerateGeometry,
}

/// Content-aware width reduction: clamps the requested reduction to
/// `width - 1`, then repeatedly rebuilds the magnitude field, the cost table
/// and one seam from the current buffer and deletes that seam, shrinking the
/// buffer by one column per iteration. A buffer narrower or shorter than
/// three pixels is rejected unchanged.
pub fn resize_image(image: &mut PixelBuffer, width_downsize: usize) -> (r: Result<
    (),
    CarveError,
>)
    requires
        old(image).wf(),
        old(image).width <= u32::MAX,
        old(image).height <= u32::MAX,
    ensures
        match r {
            Ok(()) => {
                &&& old(image).width >= 3
                &&& old(image).height >= 3
                &&& final(image).wf()
                &&& final(image).height == old(image).height
                &&& final(image).width == old(image).width - clamped_reduction(
                    old(image).width as int,
                    width_downsize as int,
                )
                &&& final(image).data@ == carved(
                    old(image).data@,
                    old(image).width as int,
                    old(image).height as int,
                    clamped_reduction(old(image).width as int, width_downsize as int),
                )
                &&& width_downsize == 0 ==> final(image).data@ == old(image).data@
            },
            Err(e) => {
                &&& e == CarveError::DegenerateGeometry
                &&& (old(image).width < 3 || old(image).height < 3)
                &&& *final(image) == *old(image)
            },
        },
{
    if image.width < 3 || image.height < 3 {
        return Err(CarveError::DegenerateGeometry);
    }
    let mut downsize = width_downsize;
    if downsize > image.width - 1 {
        downsize = image.width - 1;
    }
    let ghost w0 = image.width as int;
    let ghost h0 = image.height as int;
    let ghost p0 = image.data@;
    let ghost nn = downsize as int;
    let mut i: usize = 0;
    while i < downsize
        invariant
            image.wf(),
            image.height == h0,
            h0 >= 3,
            image.height <= u32::MAX,
            image.width == w0 - i,
            image.width <= u32::MAX,
            i <= nn,
            nn == downsize,
            nn <= w0 - 1,
            carved(p0, w0, h0, nn) == carved(image.data@, image.width as int, h0, nn - i),
        decreases downsize - i,
    {
        let ghost p_cur = image.data@;
        let ghost w_cur = image.width as int;
        let grad = gradient_magnitude(image);
        let table = DPTable::from_gradient_buffer(&grad);
        let path = Path::from_dp_table(&table);
        proof {
            assert forall|r: int| 0 <= r < h0 implies #[trigger] path.indices@[r] == seam_of(
                p_cur, w_cur, h0,
            )[r] by {
                crate::seam::lemma_seam_col_in_range(table.table@, w_cur, r);
            }
            assert(path.indices@ =~= seam_of(p_cur, w_cur, h0));
        }
        remove_path(image, path);
        i = i + 1;
    }
    Ok(())
}

/// The buffer after `rows` row deletions holds `3 * (w - 1)` samples per row.
proof fn lemma_removed_upto_len(pixels: Seq<u8>, w: int, s: Seq<usize>, rows: int)
    requires
        w >= 1,
        0 <= rows <= s.len(),
        pixels.len() >= 3 * (w * rows),
        forall|r: int| 0 <= r < rows ==> (#[trigger] s[r]) < w,
    ensures
        removed_upto(pixels, w, s, rows).len() == 3 * (w - 1) * rows,
    decreases rows,
{
    if rows > 0 {
        assert(3 * (w * (rows - 1)) <= 3 * (w * rows) && 3 * ((rows - 1) * w) + 3 * w == 3 * (w
            * rows)) by (nonlinear_arith)
            requires
                w >= 1,
                rows >= 1,
        ;
        lemma_removed_upto_len(pixels, w, s, rows - 1);
        lemma_row_span(w, rows, rows - 1);
        assert(3 * (w - 1) * (rows - 1) + (3 * (w - 1)) == 3 * (w - 1) * rows) by (nonlinear_arith);
        let col = s[rows - 1] as int;
        assert(row_without(pixels, w, rows - 1, col).len() == 3 * (w - 1));
        assert(3 * (w - 1) * (rows - 1) + 3 * (w - 1) == 3 * (w - 1) * rows) by (nonlinear_arith);
    } else {
        assert(3 * (w - 1) * rows == 0) by (nonlinear_arith)
            requires rows == 0;
    }
}

} // verus!
