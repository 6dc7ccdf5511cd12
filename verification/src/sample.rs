//! Finding the cells that hold the default value, by their rank in row-major
//! order, and drawing one of them at random.
use rand::rngs::StdRng;
use rand::Rng;
use vstd::prelude::*;
use crate::axis::{
    has_index, lemma_axis_lookup, lemma_axis_spread, position_of, Element, SparseVector,
};
use crate::count::{
    comes_before, holds, lemma_dom_is_prefix, lemma_prefix_len, prefix_cells, size_upto,
    sorted_rows,
};
use crate::mat::{cells_of, rows_wf, SparseMatrix};

verus! {

/// The standard generator of the `rand` crate. Nothing is known of its state.
#[verifier::external_type_specification]
#[verifier::external_body]
pub struct ExStdRng(rand::rngs::StdRng);

/// Draws a number with `rand::Rng::gen_range` from the range `0..bound`.
/// Which number comes back depends on the generator's state; all that is
/// claimed is that it lies in the range. `gen_range` panics on an empty
/// range, hence the demand that `bound` is not zero.
#[verifier::external_body]
fn draw_below(rng: &mut StdRng, bound: usize) -> (k: usize)
    requires
        bound > 0,
    ensures
        k < bound,
{
    rng.gen_range(0..bound)
}

/// Cell `a` comes before cell `b` when the grid is read row by row. A cell is
/// written (column, row).
pub open spec fn precedes(a: (int, int), b: (int, int)) -> bool {
    a.1 < b.1 || (a.1 == b.1 && a.0 < b.0)
}

/// Those of `cells` that come before (`col`, `row`) in row-major order.
pub open spec fn cells_before(cells: Set<(int, int)>, col: int, row: int) -> Set<(int, int)> {
    cells.filter(|p: (int, int)| precedes(p, (col, row)))
}

/// Where the storage splits at entry `j` of row `i` exactly as row-major
/// order splits at (`col`, `row`), the stored cells before (`col`, `row`) are
/// those of the first `i` rows and `j` more.
proof fn lemma_before_is_prefix<T>(
    data: Seq<Element<SparseVector<T>>>,
    i: int,
    j: int,
    col: int,
    row: int,
)
    requires
        sorted_rows(data),
        0 <= i <= data.len(),
        0 <= j,
        i < data.len() ==> j <= data[i].data@.len(),
        i == data.len() ==> j == 0,
        forall|a: int, b: int|
            0 <= a < data.len() && 0 <= b < data[a].data@.len() ==> (precedes(
                ((#[trigger] data[a].data@[b]).idx as int, data[a].idx as int),
                (col, row),
            ) <==> comes_before(a, b, i, j)),
    ensures
        cells_before(cells_of(data).dom(), col, row).finite(),
        cells_before(cells_of(data).dom(), col, row).len() == size_upto(data, i) + j,
{
    let dom = cells_of(data).dom();
    let part = cells_before(dom, col, row);
    let first = prefix_cells(data, i, j);
    lemma_dom_is_prefix(data);
    lemma_prefix_len(data, i, j);
    assert forall|p: (int, int)| part.contains(p) <==> first.contains(p) by {
        if part.contains(p) {
            let (a, b) = choose|a: int, b: int| #[trigger]
                holds(data, a, b, p) && comes_before(a, b, data.len() as int, 0);
            assert(data[a].data@[b].idx == p.0);
            assert(holds(data, a, b, p) && comes_before(a, b, i, j));
        }
        if first.contains(p) {
            let (a, b) = choose|a: int, b: int| #[trigger]
                holds(data, a, b, p) && comes_before(a, b, i, j);
            assert(data[a].data@[b].idx == p.0);
            assert(holds(data, a, b, p) && comes_before(a, b, data.len() as int, 0));
        }
    }
    assert(part =~= first);
}

/// A cell in a row that is not stored, between stored rows `i - 1` and `i`:
/// it holds the default value, and before it lie the cells of the first `i`
/// rows.
proof fn lemma_hit_between_rows<T: PartialEq>(
    data: Seq<Element<SparseVector<T>>>,
    cols: int,
    rows: int,
    def: T,
    i: int,
    col: int,
    row: int,
)
    requires
        rows_wf(data, cols, rows, def),
        0 <= i <= data.len(),
        i > 0 ==> data[i - 1].idx < row,
        i < data.len() ==> row < data[i].idx,
    ensures
        !cells_of(data).dom().contains((col, row)),
        cells_before(cells_of(data).dom(), col, row).len() == size_upto(data, i),
{
    assert forall|a: int| 0 <= a < data.len() implies ((#[trigger] data[a]).idx < row <==> a < i)
        && data[a].idx != row by {
        if a < i - 1 {
            assert(data[a].idx < data[i - 1].idx);
        }
        if a > i {
            assert(data[i].idx < data[a].idx);
        }
    }
    if has_index(data, row) {
        let a = position_of(data, row);
        assert(data[a].idx == row);
    }
    lemma_before_is_prefix(data, i, 0, col, row);
}

/// A cell in stored row `i` that is not stored, between entries `j - 1` and
/// `j` of that row: it holds the default value, and before it lie the cells
/// of the first `i` rows and `j` more.
proof fn lemma_hit_in_row<T: PartialEq>(
    data: Seq<Element<SparseVector<T>>>,
    cols: int,
    rows: int,
    def: T,
    i: int,
    j: int,
    col: int,
)
    requires
        rows_wf(data, cols, rows, def),
        0 <= i < data.len(),
        0 <= j <= data[i].data@.len(),
        j > 0 ==> data[i].data@[j - 1].idx < col,
        j < data[i].data@.len() ==> col < data[i].data@[j].idx,
    ensures
        !cells_of(data).dom().contains((col, data[i].idx as int)),
        cells_before(cells_of(data).dom(), col, data[i].idx as int).len() == size_upto(data, i)
            + j,
{
    let row = data[i].idx as int;
    let line = data[i].data@;
    assert forall|b: int| 0 <= b < line.len() implies ((#[trigger] line[b]).idx < col <==> b < j)
        && line[b].idx != col by {
        if b < j - 1 {
            assert(line[b].idx < line[j - 1].idx);
        }
        if b > j {
            assert(line[j].idx < line[b].idx);
        }
    }
    lemma_axis_lookup(data, i);
    if has_index(line, col) {
        let b = position_of(line, col);
        assert(line[b].idx == col);
    }
    assert forall|a: int, b: int|
        0 <= a < data.len() && 0 <= b < data[a].data@.len() implies (precedes(
        ((#[trigger] data[a].data@[b]).idx as int, data[a].idx as int),
        (col, row),
    ) <==> comes_before(a, b, i, j)) by {
        if a < i {
            assert(data[a].idx < data[i].idx);
        } else if a > i {
            assert(data[i].idx < data[a].idx);
        } else {
            assert(line[b].idx < col <==> b < j);
        }
    }
    lemma_before_is_prefix(data, i, j, col, row);
}

/// The rows from stored row `i` on hold no more cells than the grid has from
/// that row's index on.
proof fn lemma_tail_capacity<T: PartialEq>(
    data: Seq<Element<SparseVector<T>>>,
    cols: int,
    rows: int,
    def: T,
    i: int,
)
    requires
        rows_wf(data, cols, rows, def),
        0 <= i <= data.len(),
    ensures
        size_upto(data, data.len() as int) - size_upto(data, i) <= (rows - (if i < data.len() {
            data[i].idx as int
        } else {
            rows
        })) * cols,
    decreases data.len() - i,
{
    if i < data.len() {
        lemma_tail_capacity(data, cols, rows, def, i + 1);
        let line = data[i].data@;
        let n = line.len() as int;
        lemma_axis_spread(line, 0, n - 1);
        assert(line[n - 1].idx < cols);
        assert(n <= cols);
        let here = data[i].idx as int;
        let next = if i + 1 < data.len() {
            data[i + 1].idx as int
        } else {
            rows
        };
        assert(here + 1 <= next);
        assert(size_upto(data, i + 1) == size_upto(data, i) + n);
        assert((rows - next) * cols + cols <= (rows - here) * cols) by (nonlinear_arith)
            requires
                here + 1 <= next,
                0 <= cols,
        ;
    } else {
        assert((rows - rows) * cols == 0) by (nonlinear_arith);
    }
}

/// From entry `j` of a stored row on, the row holds no more cells than the
/// grid has columns from that entry's index on.
proof fn lemma_row_capacity<T: PartialEq>(
    data: Seq<Element<SparseVector<T>>>,
    cols: int,
    rows: int,
    def: T,
    i: int,
    j: int,
)
    requires
        rows_wf(data, cols, rows, def),
        0 <= i < data.len(),
        0 <= j < data[i].data@.len(),
    ensures
        data[i].data@.len() - j <= cols - data[i].data@[j].idx,
{
    let line = data[i].data@;
    let n = line.len() as int;
    lemma_axis_spread(line, j, n - 1);
    assert(line[n - 1].idx < cols);
}

/// The default cells that come before stored row `i` are fewer than or as
/// many as the default cells of the grid.
proof fn lemma_rank_bound_rows<T: PartialEq>(
    data: Seq<Element<SparseVector<T>>>,
    cols: int,
    rows: int,
    def: T,
    i: int,
)
    requires
        rows_wf(data, cols, rows, def),
        0 <= i <= data.len(),
    ensures
        (if i < data.len() {
            data[i].idx as int
        } else {
            rows
        }) * cols - size_upto(data, i) <= rows * cols - size_upto(data, data.len() as int),
{
    let first = if i < data.len() {
        data[i].idx as int
    } else {
        rows
    };
    lemma_tail_capacity(data, cols, rows, def, i);
    assert(first * cols + (rows - first) * cols == rows * cols) by (nonlinear_arith);
}

/// The default cells that come before entry `j` of stored row `i`, or before
/// the end of that row where `j` is its length, are fewer than or as many as
/// the default cells of the grid.
proof fn lemma_rank_bound_cols<T: PartialEq>(
    data: Seq<Element<SparseVector<T>>>,
    cols: int,
    rows: int,
    def: T,
    i: int,
    j: int,
)
    requires
        rows_wf(data, cols, rows, def),
        0 <= i < data.len(),
        0 <= j <= data[i].data@.len(),
    ensures
        data[i].idx * cols + (if j < data[i].data@.len() {
            data[i].data@[j].idx as int
        } else {
            cols
        }) - size_upto(data, i) - j <= rows * cols - size_upto(data, data.len() as int),
{
    let here = data[i].idx as int;
    let next = if i + 1 < data.len() {
        data[i + 1].idx as int
    } else {
        rows
    };
    lemma_tail_capacity(data, cols, rows, def, i + 1);
    assert(size_upto(data, i + 1) == size_upto(data, i) + data[i].data@.len());
    if j < data[i].data@.len() {
        lemma_row_capacity(data, cols, rows, def, i, j);
    }
    assert(here + 1 <= next);
    lemma_axis_spread(data[i].data@, 0, data[i].data@.len() - 1);
    assert(0 <= cols);
    assert(here * cols + cols + (rows - next) * cols <= rows * cols) by (nonlinear_arith)
        requires
            here + 1 <= next,
            0 <= cols,
    ;
}

/// A flat offset inside the band of rows from `lo` up to `hi` splits into a
/// row of that band and a column.
proof fn lemma_split_offset(offset: int, cols: int, lo: int, hi: int)
    requires
        0 < cols,
        lo * cols <= offset < hi * cols,
    ensures
        lo <= offset / cols < hi,
        0 <= offset % cols < cols,
        (offset / cols) * cols + offset % cols == offset,
{
    let q = offset / cols;
    let r = offset % cols;
    vstd::arithmetic::div_mod::lemma_fundamental_div_mod(offset, cols);
    vstd::arithmetic::div_mod::lemma_mod_bound(offset, cols);
    assert(q * cols == cols * q) by (nonlinear_arith);
    assert(lo <= q) by (nonlinear_arith)
        requires
            lo * cols <= q * cols + r,
            r < cols,
            0 < cols,
    ;
    assert(q < hi) by (nonlinear_arith)
        requires
            q * cols + r < hi * cols,
            0 <= r,
            0 < cols,
    ;
}

impl<T: PartialEq> SparseMatrix<T> {
    /// The number of cells that hold the default value.
    pub open spec fn free_cells(&self) -> int {
        self.rows() * self.cols() - self@.dom().len()
    }

    /// The number of cells that hold the default value and come before
    /// (`col`, `row`) in row-major order.
    pub open spec fn defaults_before(&self, col: int, row: int) -> int {
        row * self.cols() + col - cells_before(self@.dom(), col, row).len()
    }

    /// The cell of rank `k` among the cells that hold the default value, read
    /// row by row; `None` if fewer than `k + 1` cells hold it. The cell is
    /// returned as (column, row). Only the stored cells are walked, never the
    /// whole grid. The number of cells of the grid has to fit in `usize`.
    pub fn nth_default(&self, k: usize) -> (res: Option<(usize, usize)>)
        requires
            self.rows() * self.cols() <= usize::MAX,
        ensures
            res is None <==> k >= self.free_cells(),
            res matches Some(cell) ==> {
                &&& cell.0 < self.cols()
                &&& cell.1 < self.rows()
                &&& !self@.dom().contains((cell.0 as int, cell.1 as int))
                &&& self.defaults_before(cell.0 as int, cell.1 as int) == k
            },
    {
        let ghost data = self.data@;
        let ghost cols = self.cols as int;
        let ghost rows = self.rows as int;
        proof {
            use_type_invariant(self);
            lemma_dom_is_prefix(data);
            lemma_prefix_len(data, data.len() as int, 0);
        }
        let mut cridx: usize = 0;
        let mut num_empty: usize = 0;
        let mut i: usize = 0;
        while i < self.data.len()
            invariant
                data == self.data@,
                cols == self.cols,
                rows == self.rows,
                rows_wf(data, cols, rows, self.def),
                rows * cols <= usize::MAX,
                self@.dom().len() == size_upto(data, data.len() as int),
                0 <= i <= data.len(),
                cridx <= rows,
                i < data.len() ==> cridx <= data[i as int].idx,
                i > 0 ==> cridx == data[i - 1].idx + 1,
                i == 0 ==> cridx == 0,
                num_empty == cridx * cols - size_upto(data, i as int),
                num_empty <= k,
            decreases data.len() - i,
        {
            let row_elem = &self.data[i];
            let next = row_elem.idx;
            proof {
                lemma_rank_bound_rows(data, cols, rows, self.def, i as int);
                assert(0 <= (next - cridx) * cols <= rows * cols) by (nonlinear_arith)
                    requires
                        0 <= next - cridx <= rows,
                        0 <= cols,
                ;
                assert(cridx * cols + (next - cridx) * cols == next * cols) by (nonlinear_arith);
            }
            let gap = (next - cridx) * self.cols;
            if num_empty + gap > k {
                proof {
                    assert(0 <= cridx * cols <= next * cols <= rows * cols) by (nonlinear_arith)
                        requires
                            0 <= cridx <= next <= rows,
                            0 <= cols,
                    ;
                    assert(cols != 0) by (nonlinear_arith)
                        requires
                            (next - cridx) * cols > 0,
                    ;
                }
                let offset = (k - num_empty) + cridx * self.cols;
                let row = offset / self.cols;
                let col = offset % self.cols;
                proof {
                    lemma_split_offset(offset as int, cols, cridx as int, next as int);
                    lemma_hit_between_rows(data, cols, rows, self.def, i as int, col as int, row as int);
                }
                return Some((col, row));
            }
            num_empty = num_empty + gap;
            cridx = next;
            let mut ccidx: usize = 0;
            let mut j: usize = 0;
            let ghost line = data[i as int].data@;
            while j < row_elem.data.len()
                invariant
                    data == self.data@,
                    cols == self.cols,
                    rows == self.rows,
                    rows_wf(data, cols, rows, self.def),
                    rows * cols <= usize::MAX,
                    self@.dom().len() == size_upto(data, data.len() as int),
                    0 <= i < data.len(),
                    *row_elem == data[i as int],
                    line == data[i as int].data@,
                    cridx == data[i as int].idx,
                    0 <= j <= line.len(),
                    ccidx <= cols,
                    j < line.len() ==> ccidx <= line[j as int].idx,
                    j > 0 ==> ccidx == line[j - 1].idx + 1,
                    j == 0 ==> ccidx == 0,
                    num_empty == cridx * cols + ccidx - size_upto(data, i as int) - j,
                    num_empty <= k,
                decreases line.len() - j,
            {
                let at = row_elem.data[j].idx;
                proof {
                    lemma_rank_bound_cols(data, cols, rows, self.def, i as int, j as int);
                }
                let step = at - ccidx;
                if num_empty + step > k {
                    let col = k - num_empty + ccidx;
                    proof {
                        lemma_hit_in_row(data, cols, rows, self.def, i as int, j as int, col as int);
                    }
                    return Some((col, cridx));
                }
                num_empty = num_empty + step;
                ccidx = at + 1;
                proof {
                    if j + 1 < line.len() {
                        assert(line[j as int].idx < line[j + 1].idx);
                    }
                }
                j = j + 1;
            }
            proof {
                lemma_rank_bound_cols(data, cols, rows, self.def, i as int, j as int);
            }
            let step = self.cols - ccidx;
            if num_empty + step > k {
                let col = k - num_empty + ccidx;
                proof {
                    lemma_hit_in_row(data, cols, rows, self.def, i as int, j as int, col as int);
                }
                return Some((col, cridx));
            }
            num_empty = num_empty + step;
            cridx = next + 1;
            proof {
                assert((next + 1) * cols == next * cols + cols) by (nonlinear_arith);
                assert(size_upto(data, i + 1) == size_upto(data, i as int) + line.len());
                if i + 1 < data.len() {
                    assert(data[i as int].idx < data[i + 1].idx);
                }
            }
            i = i + 1;
        }
        proof {
            lemma_rank_bound_rows(data, cols, rows, self.def, i as int);
            assert(0 <= (rows - cridx) * cols <= rows * cols) by (nonlinear_arith)
                requires
                    0 <= rows - cridx <= rows,
                    0 <= cols,
            ;
            assert(cridx * cols + (rows - cridx) * cols == rows * cols) by (nonlinear_arith);
        }
        let gap = (self.rows - cridx) * self.cols;
        if num_empty + gap > k {
            proof {
                assert(0 <= cridx * cols <= rows * cols) by (nonlinear_arith)
                    requires
                        0 <= cridx <= rows,
                        0 <= cols,
                ;
                assert(cols != 0) by (nonlinear_arith)
                    requires
                        (rows - cridx) * cols > 0,
                ;
            }
            let offset = (k - num_empty) + cridx * self.cols;
            let row = offset / self.cols;
            let col = offset % self.cols;
            proof {
                lemma_split_offset(offset as int, cols, cridx as int, rows);
                lemma_hit_between_rows(data, cols, rows, self.def, i as int, col as int, row as int);
            }
            return Some((col, row));
        }
        None
    }

    /// A cell that holds the default value, as (column, row), drawn from all
    /// such cells with one draw from `rng`; `None` if no cell holds the default
    /// value. The draw picks the rank of the cell, so each such cell is hit by
    /// exactly one outcome of the draw. The number of cells of the grid has to
    /// fit in `usize`.
    pub fn random_default(&self, rng: &mut StdRng) -> (res: Option<(usize, usize)>)
        requires
            self.rows() * self.cols() <= usize::MAX,
        ensures
            res is None <==> self.free_cells() == 0,
            res matches Some(cell) ==> {
                &&& cell.0 < self.cols()
                &&& cell.1 < self.rows()
                &&& !self@.dom().contains((cell.0 as int, cell.1 as int))
                &&& self.cell(cell.0 as int, cell.1 as int) == self.default_value()
                &&& 0 <= self.defaults_before(cell.0 as int, cell.1 as int) < self.free_cells()
            },
    {
        proof {
            use_type_invariant(self);
            lemma_dom_is_prefix(self.data@);
            lemma_prefix_len(self.data@, self.data@.len() as int, 0);
            lemma_rank_bound_rows(self.data@, self.cols as int, self.rows as int, self.def, 0);
            assert(0 <= (if 0 < self.data@.len() {
                self.data@[0].idx as int
            } else {
                self.rows as int
            }) * self.cols) by (nonlinear_arith);
        }
        let total = self.rows * self.cols - self.actual_size();
        if total == 0 {
            return None;
        }
        let k = draw_below(rng, total);
        self.nth_default(k)
    }
}

} // verus!
