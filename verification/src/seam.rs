use vstd::prelude::*;
use crate::table::{cost, min2, min3, min_index_upto, min_u64, sat_add, table_of, DPTable};

verus! {

/// The column that the seam visits on row `row`, given that it visited `col`
/// on the row above. The minimum of the reachable cells of row `row` wins;
/// ties are broken left first, then right, then the current column, and a
/// boundary column never steps outside the grid.
pub open spec fn next_col_spec(t: Seq<u64>, w: int, row: int, col: int) -> int {
    if col == 0 {
        if t[row * w + 1] < t[row * w] {
            1
        } else {
            0
        }
    } else if col == w - 1 {
        if t[row * w + w - 2] < t[row * w + w - 1] {
            col - 1
        } else {
            col
        }
    } else {
        let l = t[row * w + col - 1] as int;
        let m = t[row * w + col] as int;
        let r = t[row * w + col + 1] as int;
        if min3(l, m, r) == l {
            col - 1
        } else if min3(l, m, r) == r {
            col + 1
        } else {
            col
        }
    }
}

/// The column that the extracted seam visits on `row`: row 0 starts at the
/// first occurrence of the row-0 minimum, every later row follows
/// `next_col_spec` from the column above.
pub open spec fn seam_col(t: Seq<u64>, w: int, row: int) -> int
    decreases row,
{
    if row <= 0 {
        min_index_upto(t, w)
    } else {
        next_col_spec(t, w, row, seam_col(t, w, row - 1))
    }
}

/// Every seam column lies inside the grid.
pub proof fn lemma_seam_col_in_range(t: Seq<u64>, w: int, row: int)
    requires
        w >= 2,
    ensures
        0 <= seam_col(t, w, row) < w,
    decreases row,
{
    if row <= 0 {
        crate::table::lemma_min_index_upto(t, w);
    } else {
        lemma_seam_col_in_range(t, w, row - 1);
    }
}

/// Consecutive seam columns differ by at most one.
pub proof fn lemma_seam_col_step(t: Seq<u64>, w: int, row: int)
    requires
        w >= 2,
        row >= 1,
    ensures
        seam_col(t, w, row - 1) - 1 <= seam_col(t, w, row) <= seam_col(t, w, row - 1) + 1,
{
}

/// Moving one row down along the tie-break rule: the cell the seam steps to
/// holds the minimum of the cells reachable from `col`.
pub fn next_col(table: &DPTable, row: usize, col: usize) -> (c: usize)
    requires
        table.wf(),
        table.width >= 2,
        row < table.height,
        col < table.width,
    ensures
        c as int == next_col_spec(table.table@, table.width as int, row as int, col as int),
        c < table.width,
        col as int - 1 <= c as int <= col as int + 1,
{
    if col == 0 {
        let m = table.get(col, row);
        let r = table.get(col + 1, row);
        if m > r {
            col + 1
        } else {
            col
        }
    } else if col == table.width - 1 {
        let l = table.get(col - 1, row);
        let m = table.get(col, row);
        if l < m {
            col - 1
        } else {
            col
        }
    } else {
        let l = table.get(col - 1, row);
        let m = table.get(col, row);
        let r = table.get(col + 1, row);
        let minimum = min_u64(min_u64(l, m), r);
        if minimum == l {
            col - 1
        } else if minimum == r {
            col + 1
        } else {
            col
        }
    }
}

/// One seam: the column it visits on each row, top to bottom. Every entry
/// lies in `[0, width)` and consecutive entries differ by at most one.
pub struct Path {
    pub indices: Vec<usize>,
}

impl Path {
    /// Extracts the seam of a cost table: start at the first occurrence of
    /// the row-0 minimum, then follow the tie-break rule downward.
    pub fn from_dp_table(table: &DPTable) -> (p: Path)
        requires
            table.wf(),
            table.width >= 2,
            table.height >= 1,
        ensures
            p.indices@.len() == table.height,
            forall|r: int|
                0 <= r < table.height ==> #[trigger] p.indices@[r] as int == seam_col(
                    table.table@, table.width as int, r,
                ),
            forall|r: int| 0 <= r < table.height ==> #[trigger] p.indices@[r] < table.width,
            forall|r: int|
                1 <= r < table.height ==> p.indices@[r - 1] as int - 1 <= #[trigger] p.indices@[r] as int
                    <= p.indices@[r - 1] as int + 1,
    {
        let mut v: Vec<usize> = Vec::new();
        let mut col: usize = table.path_start_index();
        v.push(col);
        let mut row: usize = 1;
        while row < table.height
            invariant
                table.wf(),
                table.width >= 2,
                table.height >= 1,
                1 <= row <= table.height,
                v@.len() == row,
                col < table.width,
                col as int == seam_col(table.table@, table.width as int, row - 1),
                forall|r: int|
                    0 <= r < row ==> #[trigger] v@[r] as int == seam_col(
                        table.table@, table.width as int, r,
                    ),
                forall|r: int| 0 <= r < row ==> #[trigger] v@[r] < table.width,
            decreases table.height - row,
        {
            col = next_col(table, row, col);
            v.push(col);
            row = row + 1;
        }
        proof {
            assert forall|r: int|
                1 <= r < table.height implies v@[r - 1] as int - 1 <= #[trigger] v@[r] as int <= v@[
                r - 1] as int + 1 by {
                lemma_seam_col_step(table.table@, table.width as int, r);
            }
        }
        Path { indices: v }
    }
}

/// On a flat magnitude grid every cost of a row ties with the row's leftmost
/// cost.
proof fn lemma_cost_flat(g: Seq<u32>, w: int, h: int, m: u32, row: int, col: int)
    requires
        w >= 2,
        h >= 1,
        g.len() == w * h,
        forall|i: int| 0 <= i < w * h ==> g[i] == m,
        0 <= row < h,
        0 <= col < w,
    ensures
        cost(g, w, h, row, col) == cost(g, w, h, row, 0),
    decreases h - row,
{
    crate::pixels::lemma_sample_index_in_range(w, h, row, col, 0);
    crate::pixels::lemma_sample_index_in_range(w, h, row, 0, 0);
    crate::pixels::lemma_sample_index_in_range(w, h, row, 1, 0);
    if row < h - 1 {
        assert forall|c2: int| 0 <= c2 < w implies #[trigger] cost(g, w, h, row + 1, c2) == cost(
            g, w, h, row + 1, 0,
        ) by {
            lemma_cost_flat(g, w, h, m, row + 1, c2);
        }
        let v = cost(g, w, h, row + 1, 0);
        assert(cost(g, w, h, row, 0) == sat_add(
            g[row * w + 0] as int,
            min2(cost(g, w, h, row + 1, 0), cost(g, w, h, row + 1, 1)),
        ));
        assert(g[row * w + 0] == m);
        assert(cost(g, w, h, row + 1, 1) == v);
        assert(cost(g, w, h, row, 0) == sat_add(m as int, min2(v, v)));
        if col == w - 1 {
            assert(cost(g, w, h, row, col) == sat_add(
                g[row * w + col] as int,
                min2(cost(g, w, h, row + 1, w - 1), cost(g, w, h, row + 1, w - 2)),
            ));
            assert(g[row * w + col] == m);
            assert(cost(g, w, h, row + 1, w - 1) == v && cost(g, w, h, row + 1, w - 2) == v);
            assert(cost(g, w, h, row, col) == sat_add(m as int, min2(v, v)));
        } else if col > 0 {
            assert(cost(g, w, h, row, col) == sat_add(
                g[row * w + col] as int,
                min3(
                    cost(g, w, h, row + 1, col - 1),
                    cost(g, w, h, row + 1, col),
                    cost(g, w, h, row + 1, col + 1),
                ),
            ));
            assert(g[row * w + col] == m);
            assert(cost(g, w, h, row + 1, col - 1) == v && cost(g, w, h, row + 1, col) == v && cost(
                g, w, h, row + 1, col + 1,
            ) == v);
            assert(cost(g, w, h, row, col) == sat_add(m as int, min3(v, v, v)));
        }
    }
}

/// `min_index_upto` of a constant prefix is the leftmost column.
proof fn lemma_min_index_constant(t: Seq<u64>, w: int, n: int)
    requires
        1 <= n <= w,
        forall|c: int| 0 <= c < w ==> #[trigger] t[c] == t[0],
    ensures
        min_index_upto(t, n) == 0,
    decreases n,
{
    if n > 1 {
        lemma_min_index_constant(t, w, n - 1);
    }
}

/// On a flat (constant) magnitude grid all costs tie, so the extracted seam
/// is the straight vertical line at the leftmost column of row 0.
pub proof fn lemma_flat_seam_leftmost(g: Seq<u32>, w: int, h: int, m: u32, row: int)
    requires
        w >= 2,
        h >= 1,
        g.len() == w * h,
        forall|i: int| 0 <= i < w * h ==> g[i] == m,
        0 <= row < h,
    ensures
        seam_col(table_of(g, w, h), w, row) == 0,
    decreases row,
{
    let t = table_of(g, w, h);
    if row == 0 {
        assert forall|c: int| 0 <= c < w implies #[trigger] t[c] == t[0] by {
            lemma_cost_flat(g, w, h, m, 0, c);
            crate::table::lemma_table_cell(g, w, h, 0, c);
            crate::table::lemma_table_cell(g, w, h, 0, 0);
        }
        lemma_min_index_constant(t, w, w);
    } else {
        lemma_flat_seam_leftmost(g, w, h, m, row - 1);
        lemma_cost_flat(g, w, h, m, row, 1);
        crate::table::lemma_table_cell(g, w, h, row, 1);
        crate::table::lemma_table_cell(g, w, h, row, 0);
        assert(t[row * w + 1] == t[row * w + 0]);
        assert(seam_col(t, w, row) == next_col_spec(t, w, row, 0));
    }
}

/// A grid that is zero everywhere except one vertical line of positive
/// magnitudes at column `line`.
pub open spec fn line_grid(g: Seq<u32>, w: int, h: int, line: int) -> bool {
    forall|r: int, c: int|
        0 <= r < h && 0 <= c < w ==> ((#[trigger] g[r * w + c]) == 0 <==> c != line)
}

/// Away from the line every cost is zero: a free path continues straight
/// down.
proof fn lemma_cost_line_zero(g: Seq<u32>, w: int, h: int, line: int, row: int, col: int)
    requires
        w >= 2,
        h >= 1,
        g.len() == w * h,
        0 <= line < w,
        line_grid(g, w, h, line),
        0 <= row < h,
        0 <= col < w,
        col != line,
    ensures
        cost(g, w, h, row, col) == 0,
    decreases h - row,
{
    assert(g[row * w + col] == 0);
    if row < h - 1 {
        lemma_cost_line_zero(g, w, h, line, row + 1, col);
        if col == 0 {
            crate::table::lemma_cost_bounds(g, w, h, row + 1, 1);
            assert(cost(g, w, h, row, col) == sat_add(
                g[row * w + col] as int,
                min2(cost(g, w, h, row + 1, 0), cost(g, w, h, row + 1, 1)),
            ));
        } else if col == w - 1 {
            crate::table::lemma_cost_bounds(g, w, h, row + 1, w - 2);
            assert(cost(g, w, h, row, col) == sat_add(
                g[row * w + col] as int,
                min2(cost(g, w, h, row + 1, w - 1), cost(g, w, h, row + 1, w - 2)),
            ));
        } else {
            crate::table::lemma_cost_bounds(g, w, h, row + 1, col - 1);
            crate::table::lemma_cost_bounds(g, w, h, row + 1, col + 1);
            assert(cost(g, w, h, row, col) == sat_add(
                g[row * w + col] as int,
                min3(
                    cost(g, w, h, row + 1, col - 1),
                    cost(g, w, h, row + 1, col),
                    cost(g, w, h, row + 1, col + 1),
                ),
            ));
        }
    }
}

/// On the line every cost is positive: the path must pay the line's magnitude
/// on its own row at least.
proof fn lemma_cost_line_positive(g: Seq<u32>, w: int, h: int, line: int, row: int)
    requires
        w >= 2,
        h >= 1,
        g.len() == w * h,
        0 <= line < w,
        line_grid(g, w, h, line),
        0 <= row < h,
    ensures
        cost(g, w, h, row, line) > 0,
{
    assert(g[row * w + line] != 0);
    if row < h - 1 {
        if line == 0 {
            crate::table::lemma_cost_bounds(g, w, h, row + 1, 0);
            crate::table::lemma_cost_bounds(g, w, h, row + 1, 1);
            assert(cost(g, w, h, row, line) == sat_add(
                g[row * w + line] as int,
                min2(cost(g, w, h, row + 1, 0), cost(g, w, h, row + 1, 1)),
            ));
        } else if line == w - 1 {
            crate::table::lemma_cost_bounds(g, w, h, row + 1, w - 1);
            crate::table::lemma_cost_bounds(g, w, h, row + 1, w - 2);
            assert(cost(g, w, h, row, line) == sat_add(
                g[row * w + line] as int,
                min2(cost(g, w, h, row + 1, w - 1), cost(g, w, h, row + 1, w - 2)),
            ));
        } else {
            crate::table::lemma_cost_bounds(g, w, h, row + 1, line - 1);
            crate::table::lemma_cost_bounds(g, w, h, row + 1, line);
            crate::table::lemma_cost_bounds(g, w, h, row + 1, line + 1);
            assert(cost(g, w, h, row, line) == sat_add(
                g[row * w + line] as int,
                min3(
                    cost(g, w, h, row + 1, line - 1),
                    cost(g, w, h, row + 1, line),
                    cost(g, w, h, row + 1, line + 1),
                ),
            ));
        }
    }
}

/// With one vertical line of positive magnitudes at column `line` and zero
/// magnitudes elsewhere, the extracted seam never passes through `line`: at
/// every row it sits on a cell of zero cumulative cost, and the line's cells
/// all cost more.
pub proof fn lemma_line_seam_avoids(g: Seq<u32>, w: int, h: int, line: int, row: int)
    requires
        w >= 2,
        h >= 1,
        g.len() == w * h,
        0 <= line < w,
        line_grid(g, w, h, line),
        0 <= row < h,
    ensures
        seam_col(table_of(g, w, h), w, row) != line,
        table_of(g, w, h)[row * w + seam_col(table_of(g, w, h), w, row)] == 0,
    decreases row,
{
    let t = table_of(g, w, h);
    lemma_cost_line_positive(g, w, h, line, row);
    crate::table::lemma_table_cell(g, w, h, row, line);
    if row == 0 {
        let mi = min_index_upto(t, w);
        crate::table::lemma_min_index_upto(t, w);
        let z: int = if line == 0 { 1 } else { 0 };
        lemma_cost_line_zero(g, w, h, line, 0, z);
        crate::table::lemma_table_cell(g, w, h, 0, z);
        assert(cost(g, w, h, 0, z) == 0);
        assert(t[0 * w + z] == cost(g, w, h, 0, z) as u64);
        assert(t[z] == t[0 * w + z]);
        assert(t[z] == 0);
        assert(t[mi] <= t[z]);
        crate::table::lemma_table_cell(g, w, h, 0, mi);
    } else {
        lemma_line_seam_avoids(g, w, h, line, row - 1);
        let prev = seam_col(t, w, row - 1);
        lemma_seam_col_in_range(t, w, row - 1);
        crate::table::lemma_table_cell(g, w, h, row - 1, prev);
        assert(cost(g, w, h, row - 1, prev) == 0);
        let next = seam_col(t, w, row);
        assert(next == next_col_spec(t, w, row, prev));
        if prev == 0 {
            crate::table::lemma_table_cell(g, w, h, row, 0);
            crate::table::lemma_table_cell(g, w, h, row, 1);
            crate::table::lemma_cost_bounds(g, w, h, row, 0);
            crate::table::lemma_cost_bounds(g, w, h, row, 1);
            assert(cost(g, w, h, row - 1, prev) == sat_add(
                g[(row - 1) * w + prev] as int,
                min2(cost(g, w, h, row, 0), cost(g, w, h, row, 1)),
            ));
            assert(min2(cost(g, w, h, row, 0), cost(g, w, h, row, 1)) == 0);
        } else if prev == w - 1 {
            crate::table::lemma_table_cell(g, w, h, row, w - 1);
            crate::table::lemma_table_cell(g, w, h, row, w - 2);
            crate::table::lemma_cost_bounds(g, w, h, row, w - 1);
            crate::table::lemma_cost_bounds(g, w, h, row, w - 2);
            assert(cost(g, w, h, row - 1, prev) == sat_add(
                g[(row - 1) * w + prev] as int,
                min2(cost(g, w, h, row, w - 1), cost(g, w, h, row, w - 2)),
            ));
            assert(min2(cost(g, w, h, row, w - 1), cost(g, w, h, row, w - 2)) == 0);
        } else {
            crate::table::lemma_table_cell(g, w, h, row, prev - 1);
            crate::table::lemma_table_cell(g, w, h, row, prev);
            crate::table::lemma_table_cell(g, w, h, row, prev + 1);
            crate::table::lemma_cost_bounds(g, w, h, row, prev - 1);
            crate::table::lemma_cost_bounds(g, w, h, row, prev);
            crate::table::lemma_cost_bounds(g, w, h, row, prev + 1);
            assert(cost(g, w, h, row - 1, prev) == sat_add(
                g[(row - 1) * w + prev] as int,
                min3(
                    cost(g, w, h, row, prev - 1),
                    cost(g, w, h, row, prev),
                    cost(g, w, h, row, prev + 1),
                ),
            ));
            assert(min3(
                cost(g, w, h, row, prev - 1),
                cost(g, w, h, row, prev),
                cost(g, w, h, row, prev + 1),
            ) == 0);
        }
        assert(t[row * w + next] == 0);
        if next == line {
            assert(t[row * w + line] > 0);
            assert(false);
        }
    }
}

} // verus!
