//! The sparse matrix: construction, lookup and update of single cells.
use vstd::prelude::*;
use vstd::laws_eq::obeys_concrete_eq;
use crate::axis::{
    axis_map, lemma_axis_insert, lemma_axis_lookup, lemma_axis_remove, lemma_axis_update,
    strictly_increasing, svec_find_idx, Element, SparseVector,
};
use crate::error::MatrixError;

verus! {

/// A `cols` by `rows` grid of cells. A cell that was never set, or was set back
/// to the default value, holds the default value and takes no storage.
pub struct SparseMatrix<T: PartialEq> {
    pub(crate) cols: usize,
    pub(crate) rows: usize,
    pub(crate) def: T,
    pub(crate) data: SparseVector<SparseVector<T>>,
}

/// The stored rows are sorted and inside the grid, none of them is empty, and
/// no stored cell holds the default value.
pub(crate) open spec fn rows_wf<T>(
    data: Seq<Element<SparseVector<T>>>,
    cols: int,
    rows: int,
    def: T,
) -> bool {
    &&& strictly_increasing(data)
    &&& forall|i: int| 0 <= i < data.len() ==> (#[trigger] data[i]).idx < rows
    &&& forall|i: int| 0 <= i < data.len() ==> (#[trigger] data[i]).data@.len() > 0
    &&& forall|i: int| 0 <= i < data.len() ==> strictly_increasing((#[trigger] data[i]).data@)
    &&& forall|i: int, j: int|
        0 <= i < data.len() && 0 <= j < data[i].data@.len() ==> (#[trigger] data[i].data@[j]).idx
            < cols
    &&& forall|i: int, j: int|
        0 <= i < data.len() && 0 <= j < data[i].data@.len() ==> (#[trigger] data[i].data@[j]).data
            != def
}

/// The value that a grid with the occupied cells `cells` holds at (`col`,
/// `row`): the cell itself where it is occupied, `default` elsewhere.
pub open spec fn value_at<T>(cells: Map<(int, int), T>, default: T, col: int, row: int) -> T {
    if cells.dom().contains((col, row)) {
        cells[(col, row)]
    } else {
        default
    }
}

/// The occupied cells of a grid after the cell at (`col`, `row`) is set to
/// `val`: the default value clears the cell, any other value occupies it.
pub open spec fn with_cell<T>(
    cells: Map<(int, int), T>,
    default: T,
    col: int,
    row: int,
    val: T,
) -> Map<(int, int), T> {
    if val == default {
        cells.remove((col, row))
    } else {
        cells.insert((col, row), val)
    }
}

/// The cells held by a two-level map from row to stored row, keyed by
/// (column, row).
pub(crate) open spec fn cells_in<T>(m: Map<int, SparseVector<T>>) -> Map<(int, int), T> {
    Map::new(
        |p: (int, int)| m.dom().contains(p.1) && axis_map(m[p.1]@).dom().contains(p.0),
        |p: (int, int)| axis_map(m[p.1]@)[p.0],
    )
}

/// The cells that are stored, keyed by (column, row).
pub(crate) open spec fn cells_of<T>(data: Seq<Element<SparseVector<T>>>) -> Map<(int, int), T> {
    cells_in(axis_map(data))
}

/// Putting a row in place whose map is the old row's map with one more
/// column, or with one column overwritten, sets that one cell.
pub(crate) proof fn lemma_cells_set<T>(
    m: Map<int, SparseVector<T>>,
    row: int,
    line: SparseVector<T>,
    col: int,
    val: T,
)
    requires
        axis_map(line@) == (if m.dom().contains(row) {
            axis_map(m[row]@)
        } else {
            Map::<int, T>::empty()
        }).insert(col, val),
    ensures
        cells_in(m.insert(row, line)) == cells_in(m).insert((col, row), val),
{
    assert(cells_in(m.insert(row, line)) =~= cells_in(m).insert((col, row), val));
}

/// Putting a row in place whose map is the old row's map without one column
/// clears that one cell.
pub(crate) proof fn lemma_cells_clear<T>(
    m: Map<int, SparseVector<T>>,
    row: int,
    line: SparseVector<T>,
    col: int,
)
    requires
        m.dom().contains(row),
        axis_map(line@) == axis_map(m[row]@).remove(col),
    ensures
        cells_in(m.insert(row, line)) == cells_in(m).remove((col, row)),
{
    assert(cells_in(m.insert(row, line)) =~= cells_in(m).remove((col, row)));
}

/// Dropping a row that holds no column but `col` clears that one cell.
pub(crate) proof fn lemma_cells_drop_row<T>(m: Map<int, SparseVector<T>>, row: int, col: int)
    requires
        m.dom().contains(row),
        axis_map(m[row]@).remove(col) == Map::<int, T>::empty(),
    ensures
        cells_in(m.remove(row)) == cells_in(m).remove((col, row)),
{
    assert forall|p: (int, int)| #[trigger]
        cells_in(m.remove(row)).dom().contains(p) <==> cells_in(m).remove((col, row)).dom().contains(
            p,
        ) by {
        if p.1 == row && p.0 != col && axis_map(m[row]@).dom().contains(p.0) {
            assert(axis_map(m[row]@).remove(col).dom().contains(p.0));
        }
    }
    assert(cells_in(m.remove(row)) =~= cells_in(m).remove((col, row)));
}

/// A cell that is not stored can be cleared without any change.
pub(crate) proof fn lemma_cells_absent<T>(m: Map<int, SparseVector<T>>, row: int, col: int)
    requires
        !m.dom().contains(row) || !axis_map(m[row]@).dom().contains(col),
    ensures
        cells_in(m) == cells_in(m).remove((col, row)),
{
    assert(cells_in(m) =~= cells_in(m).remove((col, row)));
}

impl<T: PartialEq> View for SparseMatrix<T> {
    type V = Map<(int, int), T>;

    /// The cells that differ from the default value, keyed by (column, row).
    open(crate) spec fn view(&self) -> Map<(int, int), T> {
        cells_of(self.data@)
    }
}

impl<T: PartialEq> SparseMatrix<T> {
    /// The representation invariant. It holds of every matrix that exists.
    #[verifier::type_invariant]
    pub open(crate) spec fn wf(&self) -> bool {
        &&& obeys_concrete_eq::<T>()
        &&& rows_wf(self.data@, self.cols as int, self.rows as int, self.def)
    }

    /// The number of columns.
    pub open(crate) spec fn spec_cols(&self) -> usize {
        self.cols
    }

    /// The number of rows.
    pub open(crate) spec fn spec_rows(&self) -> usize {
        self.rows
    }

    /// The value of every cell that is not occupied.
    pub open(crate) spec fn default_value(&self) -> T {
        self.def
    }

    /// The value of the cell at (`col`, `row`).
    pub open spec fn cell(&self, col: int, row: int) -> T {
        value_at(self@, self.default_value(), col, row)
    }

    /// An empty matrix of `cols` columns and `rows` rows: every cell holds `def`.
    /// A matrix without columns or without rows can be made; it has no cell to
    /// set. The matrix tells the default value from other values by `==`, which
    /// has to be the plain equality of values on `T`.
    pub fn new(cols: usize, rows: usize, def: T) -> (m: SparseMatrix<T>)
        requires
            obeys_concrete_eq::<T>(),
        ensures
            m.wf(),
            m.cols() == cols,
            m.rows() == rows,
            m.default_value() == def,
            m@ == Map::<(int, int), T>::empty(),
    {
        let m = SparseMatrix { cols, rows, def, data: Vec::new() };
        assert(m@ =~= Map::<(int, int), T>::empty());
        m
    }

    /// The number of rows.
    #[verifier::when_used_as_spec(spec_rows)]
    pub fn rows(&self) -> (n: usize)
        ensures
            n == self.spec_rows(),
    {
        self.rows
    }

    /// The number of columns.
    #[verifier::when_used_as_spec(spec_cols)]
    pub fn cols(&self) -> (n: usize)
        ensures
            n == self.spec_cols(),
    {
        self.cols
    }

    /// Sets the cell at (`cidx`, `ridx`) to `val`. Setting a cell to the default
    /// value clears it and gives its storage back. Coordinates outside the grid
    /// are refused and leave the matrix as it was.
    pub fn insert(&mut self, cidx: usize, ridx: usize, val: T) -> (res: Result<(), MatrixError>)
        ensures
            final(self).wf(),
            final(self).cols() == old(self).cols(),
            final(self).rows() == old(self).rows(),
            final(self).default_value() == old(self).default_value(),
            match res {
                Ok(_) => {
                    &&& cidx < old(self).cols()
                    &&& ridx < old(self).rows()
                    &&& final(self)@ == with_cell(
                        old(self)@,
                        old(self).default_value(),
                        cidx as int,
                        ridx as int,
                        val,
                    )
                    &&& final(self).cell(cidx as int, ridx as int) == val
                },
                Err(e) => {
                    &&& e == MatrixError::OutOfBounds
                    &&& (cidx >= old(self).cols() || ridx >= old(self).rows())
                    &&& final(self)@ == old(self)@
                },
            },
    {
        proof {
            use_type_invariant(&*self);
            reveal(obeys_concrete_eq);
        }
        if ridx >= self.rows || cidx >= self.cols {
            return Err(MatrixError::OutOfBounds);
        }
        let clear = val == self.def;
        let mut data: SparseVector<SparseVector<T>> = Vec::new();
        std::mem::swap(&mut data, &mut self.data);
        let ghost before = data@;
        let ghost rows_before = axis_map(before);
        let (re, ri) = svec_find_idx(&data, ridx);
        if !re {
            if !clear {
                let mut row: SparseVector<T> = Vec::new();
                row.push(Element { idx: cidx, data: val });
                proof {
                    lemma_axis_insert(Seq::empty(), 0, Element { idx: cidx, data: val });
                    assert(row@ =~= Seq::empty().insert(0, Element { idx: cidx, data: val }));
                    assert(axis_map(Seq::<Element<T>>::empty()) =~= Map::<int, T>::empty());
                    lemma_axis_insert(before, ri as int, Element { idx: ridx, data: row });
                    lemma_cells_set(rows_before, ridx as int, row, cidx as int, val);
                }
                data.insert(ri, Element { idx: ridx, data: row });
            } else {
                proof {
                    lemma_cells_absent(rows_before, ridx as int, cidx as int);
                }
            }
            self.data = data;
            return Ok(());
        }
        let ghost line_before = before[ri as int].data@;
        proof {
            lemma_axis_lookup(before, ri as int);
        }
        let (ce, ci) = svec_find_idx(&data[ri].data, cidx);
        if ce {
            if clear {
                data[ri].data.remove(ci);
                proof {
                    lemma_axis_remove(line_before, ci as int);
                }
                let ghost emptied = data@;
                if data[ri].data.len() == 0 {
                    data.remove(ri);
                    proof {
                        assert(emptied[ri as int].data@ == line_before.remove(ci as int));
                        assert(emptied.remove(ri as int) =~= before.remove(ri as int));
                        lemma_axis_remove(before, ri as int);
                        assert(axis_map(Seq::<Element<T>>::empty()) =~= Map::<int, T>::empty());
                        assert(line_before.remove(ci as int) =~= Seq::empty());
                        lemma_cells_drop_row(rows_before, ridx as int, cidx as int);
                    }
                } else {
                    proof {
                        lemma_axis_update(before, ri as int, data@[ri as int]);
                        lemma_cells_clear(
                            rows_before,
                            ridx as int,
                            data@[ri as int].data,
                            cidx as int,
                        );
                    }
                }
            } else {
                data[ri].data[ci].data = val;
                proof {
                    lemma_axis_update(line_before, ci as int, Element { idx: cidx, data: val });
                    lemma_axis_update(before, ri as int, data@[ri as int]);
                    lemma_cells_set(
                        rows_before,
                        ridx as int,
                        data@[ri as int].data,
                        cidx as int,
                        val,
                    );
                }
            }
        } else if !clear {
            data[ri].data.insert(ci, Element { idx: cidx, data: val });
            proof {
                lemma_axis_insert(line_before, ci as int, Element { idx: cidx, data: val });
                lemma_axis_update(before, ri as int, data@[ri as int]);
                lemma_cells_set(rows_before, ridx as int, data@[ri as int].data, cidx as int, val);
            }
        } else {
            proof {
                lemma_cells_absent(rows_before, ridx as int, cidx as int);
            }
        }
        self.data = data;
        Ok(())
    }

    /// The value of the cell at (`cidx`, `ridx`): what was last set there, or
    /// the default value. Coordinates outside the grid read as the default value.
    pub fn get(&self, cidx: usize, ridx: usize) -> (v: &T)
        ensures
            *v == self.cell(cidx as int, ridx as int),
    {
        proof {
            use_type_invariant(self);
        }
        let (re, ri) = svec_find_idx(&self.data, ridx);
        if !re {
            return &self.def;
        }
        proof {
            lemma_axis_lookup(self.data@, ri as int);
        }
        let (ce, ci) = svec_find_idx(&self.data[ri].data, cidx);
        if !ce {
            return &self.def;
        }
        proof {
            lemma_axis_lookup(self.data@[ri as int].data@, ci as int);
        }
        &self.data[ri].data[ci].data
    }

    /// The value of the cell at (`cidx`, `ridx`), as `get` gives it, but
    /// coordinates outside the grid are refused.
    pub fn get_checked(&self, cidx: usize, ridx: usize) -> (res: Result<&T, MatrixError>)
        ensures
            match res {
                Ok(v) => {
                    &&& cidx < self.cols()
                    &&& ridx < self.rows()
                    &&& *v == self.cell(cidx as int, ridx as int)
                },
                Err(e) => {
                    &&& e == MatrixError::OutOfBounds
                    &&& (cidx >= self.cols() || ridx >= self.rows())
                },
            },
    {
        if ridx >= self.rows || cidx >= self.cols {
            return Err(MatrixError::OutOfBounds);
        }
        Ok(self.get(cidx, ridx))
    }
}

} // verus!
