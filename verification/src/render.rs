//! The matrix written out, for inspection and testing: the whole grid cell by
//! cell, or the occupied cells alone.
use vstd::prelude::*;
use crate::axis::{has_index, lemma_axis_lookup, position_of, Element, SparseVector};
use crate::count::{
    comes_before, holds, lemma_dom_is_prefix, lemma_prefix_len, prefix_cells, size_upto,
    sorted_rows,
};
use crate::mat::SparseMatrix;
use crate::sample::precedes;

verus! {

/// The cell that a listed entry (column, row, value) speaks of.
pub open spec fn entry_cell<T>(e: (usize, usize, T)) -> (int, int) {
    (e.0 as int, e.1 as int)
}

/// Entry `b` of stored row `a`, as it is listed.
pub(crate) open spec fn entry_at<T>(data: Seq<Element<SparseVector<T>>>, a: int, b: int) -> (
    usize,
    usize,
    T,
) {
    (data[a].data@[b].idx, data[a].idx, data[a].data@[b].data)
}

/// Row `a` is stored and has an entry `b`.
pub(crate) open spec fn is_entry<T>(data: Seq<Element<SparseVector<T>>>, a: int, b: int) -> bool {
    0 <= a < data.len() && 0 <= b < data[a].data@.len()
}

/// `out` lists the entries stored before entry `j` of row `i`, each at the
/// place of its rank, in row-major order, and nothing else.
pub(crate) open spec fn listed_upto<T>(
    data: Seq<Element<SparseVector<T>>>,
    out: Seq<(usize, usize, T)>,
    i: int,
    j: int,
) -> bool {
    &&& forall|a: int, b: int| #[trigger]
        is_entry(data, a, b) && comes_before(a, b, i, j) ==> 0 <= size_upto(data, a) + b
            < out.len() && out[size_upto(data, a) + b] == entry_at(data, a, b)
    &&& forall|k: int|
        0 <= k < out.len() ==> prefix_cells(data, i, j).contains(entry_cell(#[trigger] out[k]))
    &&& forall|k: int, l: int|
        0 <= k < l < out.len() ==> precedes(
            entry_cell(#[trigger] out[k]),
            entry_cell(#[trigger] out[l]),
        )
}

/// Listing entry `j` of row `i` after the entries before it keeps the list
/// as it should be.
proof fn lemma_listed_push<T>(
    data: Seq<Element<SparseVector<T>>>,
    out: Seq<(usize, usize, T)>,
    i: int,
    j: int,
)
    requires
        sorted_rows(data),
        0 <= i < data.len(),
        0 <= j < data[i].data@.len(),
        out.len() == size_upto(data, i) + j,
        listed_upto(data, out, i, j),
    ensures
        listed_upto(data, out.push(entry_at(data, i, j)), i, j + 1),
{
    let e = entry_at(data, i, j);
    let more = out.push(e);
    assert(holds(data, i, j, entry_cell(e)) && comes_before(i, j, i, j + 1));
    assert forall|a: int, b: int| #[trigger]
        is_entry(data, a, b) && comes_before(a, b, i, j + 1) implies 0 <= size_upto(data, a) + b
        < more.len() && more[size_upto(data, a) + b] == entry_at(data, a, b) by {
        if comes_before(a, b, i, j) {
            assert(out[size_upto(data, a) + b] == entry_at(data, a, b));
        }
    }
    assert forall|k: int| 0 <= k < more.len() implies prefix_cells(data, i, j + 1).contains(
        entry_cell(#[trigger] more[k]),
    ) by {
        if k < out.len() {
            assert(prefix_cells(data, i, j).contains(entry_cell(out[k])));
            let (a, b) = choose|a: int, b: int| #[trigger]
                holds(data, a, b, entry_cell(out[k])) && comes_before(a, b, i, j);
            assert(holds(data, a, b, entry_cell(more[k])) && comes_before(a, b, i, j + 1));
        }
    }
    assert forall|k: int, l: int| 0 <= k < l < more.len() implies precedes(
        entry_cell(#[trigger] more[k]),
        entry_cell(#[trigger] more[l]),
    ) by {
        if l == out.len() {
            assert(prefix_cells(data, i, j).contains(entry_cell(out[k])));
            let (a, b) = choose|a: int, b: int| #[trigger]
                holds(data, a, b, entry_cell(out[k])) && comes_before(a, b, i, j);
            if a < i {
                assert(data[a].idx < data[i].idx);
            } else {
                assert(data[a].data@[b].idx < data[a].data@[j].idx);
            }
        } else {
            assert(precedes(entry_cell(out[k]), entry_cell(out[l])));
        }
    }
}

/// When row `i` is listed in full, all is listed that lies before row
/// `i + 1`.
proof fn lemma_listed_next_row<T>(
    data: Seq<Element<SparseVector<T>>>,
    out: Seq<(usize, usize, T)>,
    i: int,
)
    requires
        0 <= i < data.len(),
        listed_upto(data, out, i, data[i].data@.len() as int),
    ensures
        listed_upto(data, out, i + 1, 0),
{
    let n = data[i].data@.len() as int;
    assert forall|a: int, b: int| #[trigger]
        is_entry(data, a, b) && comes_before(a, b, i + 1, 0) implies 0 <= size_upto(data, a) + b
        < out.len() && out[size_upto(data, a) + b] == entry_at(data, a, b) by {
        assert(comes_before(a, b, i, n));
    }
    assert forall|k: int| 0 <= k < out.len() implies prefix_cells(data, i + 1, 0).contains(
        entry_cell(#[trigger] out[k]),
    ) by {
        assert(prefix_cells(data, i, n).contains(entry_cell(out[k])));
        let (a, b) = choose|a: int, b: int| #[trigger]
            holds(data, a, b, entry_cell(out[k])) && comes_before(a, b, i, n);
        assert(holds(data, a, b, entry_cell(out[k])) && comes_before(a, b, i + 1, 0));
    }
}

impl<T: PartialEq + Copy> SparseMatrix<T> {
    /// The occupied cells, each as (column, row, value), in row-major order:
    /// every occupied cell once, and nothing else.
    pub fn entries(&self) -> (out: Vec<(usize, usize, T)>)
        ensures
            out@.len() == self@.dom().len(),
            forall|k: int|
                0 <= k < out@.len() ==> self@.dom().contains(entry_cell(#[trigger] out@[k]))
                    && self@[entry_cell(out@[k])] == out@[k].2,
            forall|k: int, l: int|
                0 <= k < l < out@.len() ==> precedes(
                    entry_cell(#[trigger] out@[k]),
                    entry_cell(#[trigger] out@[l]),
                ),
            forall|p: (int, int)|
                self@.dom().contains(p) ==> exists|k: int|
                    0 <= k < out@.len() && entry_cell(#[trigger] out@[k]) == p,
    {
        let ghost data = self.data@;
        proof {
            use_type_invariant(self);
            lemma_dom_is_prefix(data);
            lemma_prefix_len(data, data.len() as int, 0);
        }
        let mut out: Vec<(usize, usize, T)> = Vec::new();
        let mut i: usize = 0;
        while i < self.data.len()
            invariant
                self.wf(),
                data == self.data@,
                0 <= i <= data.len(),
                out@.len() == size_upto(data, i as int),
                listed_upto(data, out@, i as int, 0),
            decreases data.len() - i,
        {
            let row = &self.data[i];
            let mut j: usize = 0;
            while j < row.data.len()
                invariant
                    self.wf(),
                    data == self.data@,
                    0 <= i < data.len(),
                    *row == data[i as int],
                    0 <= j <= row.data@.len(),
                    out@.len() == size_upto(data, i as int) + j,
                    listed_upto(data, out@, i as int, j as int),
                decreases row.data@.len() - j,
            {
                let ghost listed = out@;
                let e = (row.data[j].idx, row.idx, row.data[j].data);
                out.push(e);
                proof {
                    lemma_listed_push(data, listed, i as int, j as int);
                }
                j = j + 1;
            }
            proof {
                lemma_listed_next_row(data, out@, i as int);
            }
            i = i + 1;
        }
        proof {
            assert forall|k: int| 0 <= k < out@.len() implies self@.dom().contains(
                entry_cell(#[trigger] out@[k]),
            ) && self@[entry_cell(out@[k])] == out@[k].2 by {
                let (a, b) = choose|a: int, b: int| #[trigger]
                    holds(data, a, b, entry_cell(out@[k])) && comes_before(a, b, i as int, 0);
                lemma_axis_lookup(data, a);
                lemma_axis_lookup(data[a].data@, b);
                let at = size_upto(data, a) + b;
                assert(is_entry(data, a, b) && comes_before(a, b, i as int, 0));
                assert(out@[at] == entry_at(data, a, b));
                if at < k {
                    assert(precedes(entry_cell(out@[at]), entry_cell(out@[k])));
                } else if k < at {
                    assert(precedes(entry_cell(out@[k]), entry_cell(out@[at])));
                }
            }
            assert forall|p: (int, int)| self@.dom().contains(p) implies exists|k: int|
                0 <= k < out@.len() && entry_cell(#[trigger] out@[k]) == p by {
                let a = position_of(data, p.1);
                let b = position_of(data[a].data@, p.0);
                assert(data[a].data@[b].idx == p.0);
                let k = size_upto(data, a) + b;
                assert(is_entry(data, a, b) && comes_before(a, b, i as int, 0));
                assert(out@[k] == entry_at(data, a, b));
                assert(0 <= k < out@.len() && entry_cell(out@[k]) == p);
            }
        }
        out
    }

    /// The grid written out in full: one vector for each row, from row 0 on,
    /// each holding the value of every cell of that row, from column 0 on.
    /// It takes time and space for every cell of the grid, occupied or not.
    pub fn render(&self) -> (grid: Vec<Vec<T>>)
        ensures
            grid@.len() == self.rows(),
            forall|row: int| 0 <= row < self.rows() ==> (#[trigger] grid@[row])@.len() == self.cols(),
            forall|row: int, col: int|
                0 <= row < self.rows() && 0 <= col < self.cols() ==> #[trigger] grid@[row]@[col]
                    == self.cell(col, row),
    {
        proof {
            use_type_invariant(self);
        }
        let ghost data = self.data@;
        let mut grid: Vec<Vec<T>> = Vec::new();
        let mut i: usize = 0;
        let mut row: usize = 0;
        while row < self.rows
            invariant
                self.wf(),
                data == self.data@,
                0 <= i <= data.len(),
                row <= self.rows,
                forall|a: int| 0 <= a < i ==> (#[trigger] data[a]).idx < row,
                i < data.len() ==> data[i as int].idx >= row,
                grid@.len() == row,
                forall|r: int| 0 <= r < row ==> (#[trigger] grid@[r])@.len() == self.cols,
                forall|r: int, c: int|
                    0 <= r < row && 0 <= c < self.cols ==> #[trigger] grid@[r]@[c] == self.cell(c, r),
            decreases self.rows - row,
        {
            let mut line: Vec<T> = Vec::new();
            let mut col: usize = 0;
            if i < self.data.len() && self.data[i].idx == row {
                let stored = &self.data[i].data;
                let mut j: usize = 0;
                proof {
                    lemma_axis_lookup(data, i as int);
                }
                while col < self.cols
                    invariant
                        self.wf(),
                        data == self.data@,
                        0 <= i < data.len(),
                        data[i as int].idx == row,
                        *stored == data[i as int].data,
                        0 <= j <= stored@.len(),
                        col <= self.cols,
                        forall|b: int| 0 <= b < j ==> (#[trigger] stored@[b]).idx < col,
                        j < stored@.len() ==> stored@[j as int].idx >= col,
                        line@.len() == col,
                        forall|c: int| 0 <= c < col ==> #[trigger] line@[c] == self.cell(c, row as int),
                    decreases self.cols - col,
                {
                    if j < stored.len() && stored[j].idx == col {
                        proof {
                            lemma_axis_lookup(stored@, j as int);
                            if j + 1 < stored@.len() {
                                assert(stored@[j as int].idx < stored@[j + 1].idx);
                            }
                        }
                        line.push(stored[j].data);
                        j = j + 1;
                    } else {
                        proof {
                            if has_index(stored@, col as int) {
                                let b = position_of(stored@, col as int);
                                if j < b {
                                    assert(stored@[j as int].idx < stored@[b].idx);
                                }
                            }
                        }
                        line.push(self.def);
                    }
                    col = col + 1;
                }
                proof {
                    if i + 1 < data.len() {
                        assert(data[i as int].idx < data[i + 1].idx);
                    }
                }
                i = i + 1;
            } else {
                proof {
                    if has_index(data, row as int) {
                        let a = position_of(data, row as int);
                        if i < a {
                            assert(data[i as int].idx < data[a].idx);
                        }
                    }
                }
                while col < self.cols
                    invariant
                        col <= self.cols,
                        !has_index(self.data@, row as int),
                        line@.len() == col,
                        forall|c: int| 0 <= c < col ==> #[trigger] line@[c] == self.cell(c, row as int),
                    decreases self.cols - col,
                {
                    line.push(self.def);
                    col = col + 1;
                }
            }
            grid.push(line);
            row = row + 1;
        }
        grid
    }
}

} // verus!
