use vstd::prelude::*;
use crate::gradient::GradientField;

verus! {

/// Addition on cumulative costs, saturating at `u64::MAX`. For any image that
/// fits in memory the cap is unreachable, since each per-pixel magnitude is
/// below `2^32`; it only pins down the arithmetic on absurdly tall grids.
pub open spec fn sat_add(a: int, b: int) -> int {
    if a + b > u64::MAX as int {
        u64::MAX as int
    } else {
        a + b
    }
}

/// The smaller of two costs; on a tie the first listed operand wins.
pub open spec fn min2(a: int, b: int) -> int {
    if a <= b {
        a
    } else {
        b
    }
}

/// The smallest of three costs, folded left so that an earlier operand wins a
/// tie.
pub open spec fn min3(a: int, b: int, c: int) -> int {
    min2(min2(a, b), c)
}

/// Minimal cumulative magnitude of a path that starts at `(row, col)` of the
/// `width` by `height` magnitude grid `g` and descends to the last row, moving
/// to column `col - 1`, `col` or `col + 1` at each step, clamped to two
/// choices at either boundary.
pub open spec fn cost(g: Seq<u32>, width: int, height: int, row: int, col: int) -> int
    decreases height - row,
{
    if row >= height - 1 {
        g[row * width + col] as int
    } else if col == 0 {
        sat_add(
            g[row * width + col] as int,
            min2(cost(g, width, height, row + 1, 0), cost(g, width, height, row + 1, 1)),
        )
    } else if col == width - 1 {
        sat_add(
            g[row * width + col] as int,
            min2(
                cost(g, width, height, row + 1, width - 1),
                cost(g, width, height, row + 1, width - 2),
            ),
        )
    } else {
        sat_add(
            g[row * width + col] as int,
            min3(
                cost(g, width, height, row + 1, col - 1),
                cost(g, width, height, row + 1, col),
                cost(g, width, height, row + 1, col + 1),
            ),
        )
    }
}

/// Every cumulative cost is a `u64` value.
pub proof fn lemma_cost_bounds(g: Seq<u32>, width: int, height: int, row: int, col: int)
    ensures
        0 <= cost(g, width, height, row, col) <= u64::MAX,
    decreases height - row,
{
    if row < height - 1 {
        lemma_cost_bounds(g, width, height, row + 1, col - 1);
        lemma_cost_bounds(g, width, height, row + 1, col);
        lemma_cost_bounds(g, width, height, row + 1, col + 1);
        lemma_cost_bounds(g, width, height, row + 1, 0);
        lemma_cost_bounds(g, width, height, row + 1, 1);
        lemma_cost_bounds(g, width, height, row + 1, width - 1);
        lemma_cost_bounds(g, width, height, row + 1, width - 2);
    }
}

/// The whole cost grid of `g`, flattened row-major into `u64` cells.
pub open spec fn table_of(g: Seq<u32>, width: int, height: int) -> Seq<u64> {
    Seq::new((width * height) as nat, |i: int| cost(g, width, height, i / width, i % width) as u64)
}

/// Index of the first occurrence of the minimum among the first `n` cells of
/// `t`.
pub open spec fn min_index_upto(t: Seq<u64>, n: int) -> int
    decreases n,
{
    if n <= 1 {
        0
    } else {
        let p = min_index_upto(t, n - 1);
        if t[n - 1] < t[p] {
            n - 1
        } else {
            p
        }
    }
}

/// `min_index_upto` points at the minimum, and earlier cells are strictly
/// larger.
pub proof fn lemma_min_index_upto(t: Seq<u64>, n: int)
    requires
        1 <= n,
    ensures
        0 <= min_index_upto(t, n) < n,
        forall|j: int| 0 <= j < n ==> t[min_index_upto(t, n)] <= #[trigger] t[j],
        forall|j: int| 0 <= j < min_index_upto(t, n) ==> t[min_index_upto(t, n)] < #[trigger] t[j],
    decreases n,
{
    if n > 1 {
        lemma_min_index_upto(t, n - 1);
    }
}

/// Splits a flat row-major index into its row `i / width` and column
/// `i % width`.
pub proof fn lemma_flat_decompose(width: int, height: int, i: int)
    requires
        width >= 1,
        0 <= i < width * height,
    ensures
        0 <= i / width < height,
        0 <= i % width < width,
        i == (i / width) * width + (i % width),
{
    vstd::arithmetic::div_mod::lemma_fundamental_div_mod(i, width);
    vstd::arithmetic::div_mod::lemma_mod_pos_bound(i, width);
    assert(width * (i / width) == (i / width) * width) by (nonlinear_arith);
    assert(0 <= i / width < height) by (nonlinear_arith)
        requires
            width >= 1,
            0 <= i < width * height,
            i == (i / width) * width + (i % width),
            0 <= i % width < width,
    ;
}

/// Distinct grid positions have distinct flat indices.
pub proof fn lemma_grid_index_injective(width: int, r1: int, c1: int, r2: int, c2: int)
    requires
        0 <= c1 < width,
        0 <= c2 < width,
        0 <= r1,
        0 <= r2,
        r1 != r2 || c1 != c2,
    ensures
        r1 * width + c1 != r2 * width + c2,
{
    assert(r1 * width + c1 != r2 * width + c2) by (nonlinear_arith)
        requires
            0 <= c1 < width,
            0 <= c2 < width,
            0 <= r1,
            0 <= r2,
            r1 != r2 || c1 != c2,
    ;
}

/// The dynamic-programming table: `table[row * width + col]` holds the minimal
/// cumulative magnitude of a top-to-bottom-bound path that starts at
/// `(row, col)`.
#[derive(Clone)]
pub struct DPTable {
    pub width: usize,
    pub height: usize,
    pub table: Vec<u64>,
}

impl DPTable {
    /// The table holds exactly one cell per grid position.
    pub open spec fn wf(&self) -> bool {
        self.table@.len() == self.width * self.height
    }

    /// Every cell equals the cost recurrence over the magnitude grid `g`.
    pub open spec fn matches_gradient(&self, g: Seq<u32>) -> bool {
        forall|r: int, c: int|
            0 <= r < self.height && 0 <= c < self.width ==> self.table@[r * self.width + c] as int
                == #[trigger] cost(g, self.width as int, self.height as int, r, c)
    }

    /// Reads the cell at column `w`, row `h`.
    pub fn get(&self, w: usize, h: usize) -> (v: u64)
        requires
            self.wf(),
            w < self.width,
            h < self.height,
        ensures
            v == self.table@[h * self.width + w],
    {
        let n = self.table.len();
        proof {
            crate::pixels::lemma_sample_index_in_range(
                self.width as int, self.height as int, h as int, w as int, 0,
            );
        }
        self.table[h * self.width + w]
    }

    /// Writes the cell at column `w`, row `h`.
    pub fn set(&mut self, w: usize, h: usize, v: u64)
        requires
            old(self).wf(),
            w < old(self).width,
            h < old(self).height,
        ensures
            final(self).wf(),
            final(self).width == old(self).width,
            final(self).height == old(self).height,
            final(self).table@ == old(self).table@.update(h * old(self).width + w, v),
    {
        let n = self.table.len();
        proof {
            crate::pixels::lemma_sample_index_in_range(
                self.width as int, self.height as int, h as int, w as int, 0,
            );
        }
        self.table.set(h * self.width + w, v);
    }

    /// Column of the first occurrence of the minimum value in row 0.
    pub fn path_start_index(&self) -> (i: usize)
        requires
            self.wf(),
            self.width >= 1,
            self.height >= 1,
        ensures
            i == min_index_upto(self.table@, self.width as int),
            i < self.width,
    {
        proof {
            assert(self.width <= self.width * self.height) by (nonlinear_arith)
                requires self.width >= 0 && self.height >= 1;
        }
        let mut best: usize = 0;
        let mut j: usize = 1;
        while j < self.width
            invariant
                self.wf(),
                self.width <= self.table@.len(),
                1 <= j <= self.width,
                best == min_index_upto(self.table@, j as int),
                best < j,
            decreases self.width - j,
        {
            if self.table[j] < self.table[best] {
                best = j;
            }
            j = j + 1;
        }
        proof {
            lemma_min_index_upto(self.table@, self.width as int);
        }
        best
    }
}

/// Cells of every row at or below `from_row` equal the cost recurrence.
spec fn rows_done(t: Seq<u64>, g: Seq<u32>, w: int, h: int, from_row: int) -> bool {
    forall|r: int, c: int|
        from_row <= r < h && 0 <= c < w ==> t[r * w + c] as int == #[trigger] cost(g, w, h, r, c)
}

impl DPTable {
    /// Builds the cost table of a magnitude grid bottom-up: the last row is
    /// the grid itself; every other cell adds the smallest of the reachable
    /// cells one row below, with boundary columns clamped to two choices.
    pub fn from_gradient_buffer(gradient: &GradientField) -> (t: DPTable)
        requires
            gradient.wf(),
            gradient.width >= 2,
            gradient.height >= 1,
        ensures
            t.wf(),
            t.width == gradient.width,
            t.height == gradient.height,
            t.matches_gradient(gradient.data@),
            t.table@ == table_of(gradient.data@, gradient.width as int, gradient.height as int),
    {
        let w = gradient.width;
        let h = gradient.height;
        let ghost g = gradient.data@;
        let n = gradient.data.len();
        let mut cells: Vec<u64> = Vec::new();
        while cells.len() < n
            invariant
                cells.len() <= n,
            decreases n - cells.len(),
        {
            cells.push(0);
        }
        let mut table = DPTable { width: w, height: h, table: cells };

        // Bottom row: the cost of a path that starts on the last row is the
        // magnitude there.
        let mut col: usize = 0;
        while col < w
            invariant
                table.wf(),
                table.width == w,
                table.height == h,
                gradient.wf(),
                gradient.width == w,
                gradient.height == h,
                g == gradient.data@,
                w >= 2,
                h >= 1,
                col <= w,
                forall|c: int|
                    0 <= c < col ==> table.table@[(h - 1) * w + c] as int == #[trigger] cost(
                        g, w as int, h as int, h - 1, c,
                    ),
            decreases w - col,
        {
            let px = gradient.get(col, h - 1);
            let ghost before = table.table@;
            table.set(col, h - 1, px as u64);
            proof {
                assert forall|c: int| 0 <= c < col + 1 implies table.table@[(h - 1) * w + c] as int
                    == #[trigger] cost(g, w as int, h as int, h - 1, c) by {
                    crate::pixels::lemma_sample_index_in_range(w as int, h as int, h - 1, c, 0);
                    crate::pixels::lemma_sample_index_in_range(w as int, h as int, h - 1, col as int, 0);
                    if c < col {
                        lemma_grid_index_injective(w as int, h - 1, c, h - 1, col as int);
                    }
                }
            }
            col = col + 1;
        }

        // Upper rows, bottom-up: each cell adds the smallest reachable cell of
        // the row below.
        let mut row: usize = h - 1;
        while row > 0
            invariant
                table.wf(),
                table.width == w,
                table.height == h,
                gradient.wf(),
                gradient.width == w,
                gradient.height == h,
                g == gradient.data@,
                w >= 2,
                h >= 1,
                row <= h - 1,
                rows_done(table.table@, g, w as int, h as int, row as int),
            decreases row,
        {
            row = row - 1;

            // Interior columns.
            let mut c: usize = 1;
            while c + 1 < w
                invariant
                    table.wf(),
                    table.width == w,
                    table.height == h,
                    gradient.wf(),
                    gradient.width == w,
                    gradient.height == h,
                    g == gradient.data@,
                    w >= 2,
                    h >= 1,
                    row + 1 <= h - 1,
                    1 <= c <= w - 1,
                    rows_done(table.table@, g, w as int, h as int, row + 1),
                    forall|cc: int|
                        1 <= cc < c ==> table.table@[row * w + cc] as int == #[trigger] cost(
                            g, w as int, h as int, row as int, cc,
                        ),
                decreases w - c,
            {
                let l = table.get(c - 1, row + 1);
                let m = table.get(c, row + 1);
                let r = table.get(c + 1, row + 1);
                let v = (gradient.get(c, row) as u64).saturating_add(min_u64(min_u64(l, m), r));
                proof {
                    assert(cost(g, w as int, h as int, row + 1, c - 1) == l as int);
                    assert(cost(g, w as int, h as int, row + 1, c as int) == m as int);
                    assert(cost(g, w as int, h as int, row + 1, c + 1) == r as int);
                }
                table.set(c, row, v);
                proof {
                    assert forall|r2: int, c2: int|
                        row + 1 <= r2 < h && 0 <= c2 < w implies table.table@[r2 * w + c2] as int
                        == #[trigger] cost(g, w as int, h as int, r2, c2) by {
                        crate::pixels::lemma_sample_index_in_range(w as int, h as int, r2, c2, 0);
                        crate::pixels::lemma_sample_index_in_range(w as int, h as int, row as int, c as int, 0);
                        lemma_grid_index_injective(w as int, r2, c2, row as int, c as int);
                    }
                    assert forall|cc: int| 1 <= cc < c + 1 implies table.table@[row * w + cc] as int
                        == #[trigger] cost(g, w as int, h as int, row as int, cc) by {
                        crate::pixels::lemma_sample_index_in_range(w as int, h as int, row as int, cc, 0);
                        crate::pixels::lemma_sample_index_in_range(w as int, h as int, row as int, c as int, 0);
                        if cc < c {
                            lemma_grid_index_injective(w as int, row as int, cc, row as int, c as int);
                        }
                    }
                }
                c = c + 1;
            }

            // Boundary columns: only two reachable cells below each.
            let bl0 = table.get(0, row + 1);
            let bl1 = table.get(1, row + 1);
            proof {
                assert(cost(g, w as int, h as int, row + 1, 0) == bl0 as int);
                assert(cost(g, w as int, h as int, row + 1, 1) == bl1 as int);
            }
            let left = (gradient.get(0, row) as u64).saturating_add(min_u64(bl0, bl1));
            table.set(0, row, left);
            proof {
                assert forall|r2: int, c2: int|
                    row + 1 <= r2 < h && 0 <= c2 < w implies table.table@[r2 * w + c2] as int
                    == #[trigger] cost(g, w as int, h as int, r2, c2) by {
                    crate::pixels::lemma_sample_index_in_range(w as int, h as int, r2, c2, 0);
                    crate::pixels::lemma_sample_index_in_range(w as int, h as int, row as int, 0, 0);
                    lemma_grid_index_injective(w as int, r2, c2, row as int, 0);
                }
                assert forall|cc: int| 1 <= cc < w - 1 implies table.table@[row * w + cc] as int
                    == #[trigger] cost(g, w as int, h as int, row as int, cc) by {
                    crate::pixels::lemma_sample_index_in_range(w as int, h as int, row as int, cc, 0);
                    crate::pixels::lemma_sample_index_in_range(w as int, h as int, row as int, 0, 0);
                    lemma_grid_index_injective(w as int, row as int, cc, row as int, 0);
                }
                crate::pixels::lemma_sample_index_in_range(w as int, h as int, row as int, 0, 0);
                assert(table.table@[row * w + 0] as int == cost(g, w as int, h as int, row as int, 0));
            }
            let br0 = table.get(w - 1, row + 1);
            let br1 = table.get(w - 2, row + 1);
            proof {
                assert(cost(g, w as int, h as int, row + 1, w - 1) == br0 as int);
                assert(cost(g, w as int, h as int, row + 1, w - 2) == br1 as int);
            }
            let right = (gradient.get(w - 1, row) as u64).saturating_add(min_u64(br0, br1));
            table.set(w - 1, row, right);
            proof {
                assert forall|r2: int, c2: int|
                    row + 1 <= r2 < h && 0 <= c2 < w implies table.table@[r2 * w + c2] as int
                    == #[trigger] cost(g, w as int, h as int, r2, c2) by {
                    crate::pixels::lemma_sample_index_in_range(w as int, h as int, r2, c2, 0);
                    crate::pixels::lemma_sample_index_in_range(w as int, h as int, row as int, w - 1, 0);
                    lemma_grid_index_injective(w as int, r2, c2, row as int, w - 1);
                }
                assert forall|cc: int| 0 <= cc < w - 1 implies table.table@[row * w + cc] as int
                    == #[trigger] cost(g, w as int, h as int, row as int, cc) by {
                    crate::pixels::lemma_sample_index_in_range(w as int, h as int, row as int, cc, 0);
                    crate::pixels::lemma_sample_index_in_range(w as int, h as int, row as int, w - 1, 0);
                    lemma_grid_index_injective(w as int, row as int, cc, row as int, w - 1);
                }
                crate::pixels::lemma_sample_index_in_range(w as int, h as int, row as int, w - 1, 0);
                assert(table.table@[row * w + (w - 1)] as int == cost(
                    g, w as int, h as int, row as int, w - 1,
                ));
            }
        }

        proof {
            assert forall|i: int| 0 <= i < w * h implies table.table@[i] == #[trigger] table_of(
                g, w as int, h as int,
            )[i] by {
                lemma_flat_decompose(w as int, h as int, i);
                let r = i / (w as int);
                let c = i % (w as int);
                assert(table.table@[r * w + c] as int == cost(g, w as int, h as int, r, c));
            }
            assert(table.table@ =~= table_of(g, w as int, h as int));
        }
        table
    }
}

/// A flattened table cell holds exactly the cost of its grid position.
pub proof fn lemma_table_cell(g: Seq<u32>, w: int, h: int, r: int, c: int)
    requires
        w >= 1,
        0 <= r < h,
        0 <= c < w,
    ensures
        0 <= cost(g, w, h, r, c) <= u64::MAX,
        table_of(g, w, h)[r * w + c] == cost(g, w, h, r, c) as u64,
        table_of(g, w, h)[r * w + c] as int == cost(g, w, h, r, c),
{
    crate::pixels::lemma_sample_index_in_range(w, h, r, c, 0);
    vstd::arithmetic::div_mod::lemma_fundamental_div_mod_converse(r * w + c, w, r, c);
    lemma_cost_bounds(g, w, h, r, c);
}

/// A valid top-to-bottom path: one column per row, inside the grid, moving by
/// at most one column between consecutive rows.
pub open spec fn path_ok(s: Seq<int>, w: int, h: int) -> bool {
    &&& s.len() == h
    &&& forall|r: int| 0 <= r < h ==> 0 <= #[trigger] s[r] < w
    &&& forall|r: int| 1 <= r < h ==> s[r - 1] - 1 <= #[trigger] s[r] <= s[r - 1] + 1
}

/// Cumulative magnitude of the path `s` from row `row` down to the last row,
/// accumulated with the same saturating addition as the cost table.
pub open spec fn path_cost_from(g: Seq<u32>, w: int, h: int, s: Seq<int>, row: int) -> int
    decreases h - row,
{
    if row >= h - 1 {
        g[row * w + s[row]] as int
    } else {
        sat_add(g[row * w + s[row]] as int, path_cost_from(g, w, h, s, row + 1))
    }
}

/// Saturating addition is monotone in both operands.
proof fn lemma_sat_add_mono(a1: int, b1: int, a2: int, b2: int)
    requires
        a1 <= a2,
        b1 <= b2,
    ensures
        sat_add(a1, b1) <= sat_add(a2, b2),
{
}

/// The table cell where a path starts is at most the path's cumulative cost:
/// the recurrence minimises over every step the path could take.
proof fn lemma_cost_le_path(g: Seq<u32>, w: int, h: int, s: Seq<int>, row: int)
    requires
        w >= 2,
        0 <= row < h,
        path_ok(s, w, h),
    ensures
        cost(g, w, h, row, s[row]) <= path_cost_from(g, w, h, s, row),
    decreases h - row,
{
    if row < h - 1 {
        lemma_cost_le_path(g, w, h, s, row + 1);
        let c = s[row];
        let cn = s[row + 1];
        let gv = g[row * w + c] as int;
        let rest = path_cost_from(g, w, h, s, row + 1);
        if c == 0 {
            lemma_sat_add_mono(gv, min2(cost(g, w, h, row + 1, 0), cost(g, w, h, row + 1, 1)), gv, rest);
        } else if c == w - 1 {
            lemma_sat_add_mono(
                gv,
                min2(cost(g, w, h, row + 1, w - 1), cost(g, w, h, row + 1, w - 2)),
                gv,
                rest,
            );
        } else {
            lemma_sat_add_mono(
                gv,
                min3(
                    cost(g, w, h, row + 1, c - 1),
                    cost(g, w, h, row + 1, c),
                    cost(g, w, h, row + 1, c + 1),
                ),
                gv,
                rest,
            );
        }
    }
}

/// Optimality of the dynamic program: the minimum entry of the cost table's
/// top row is at most the cumulative magnitude of every valid top-to-bottom
/// path through the magnitude grid.
pub proof fn lemma_row0_min_optimal(g: Seq<u32>, w: int, h: int, s: Seq<int>)
    requires
        w >= 2,
        h >= 1,
        path_ok(s, w, h),
    ensures
        table_of(g, w, h)[min_index_upto(table_of(g, w, h), w)] as int <= path_cost_from(
            g, w, h, s, 0,
        ),
{
    let t = table_of(g, w, h);
    lemma_min_index_upto(t, w);
    lemma_cost_le_path(g, w, h, s, 0);
    lemma_cost_bounds(g, w, h, 0, s[0]);
    assert(w <= w * h) by (nonlinear_arith)
        requires w >= 0 && h >= 1;
    vstd::arithmetic::div_mod::lemma_fundamental_div_mod_converse(s[0], w, 0, s[0]);
    assert(t[s[0]] as int == cost(g, w, h, 0, s[0]));
}

/// The smaller of two `u64` values.
pub(crate) fn min_u64(a: u64, b: u64) -> (m: u64)
    ensures
        m as int == min2(a as int, b as int),
{
    if a <= b {
        a
    } else {
        b
    }
}

} // verus!
