//! Laws that relate the operations of the matrix to each other.
use vstd::prelude::*;
use vstd::set_lib::{lemma_len_subset, lemma_set_disjoint_lens, lemma_subset_equality};
use crate::axis::{lemma_axis_lookup, position_of};
use crate::count::{lemma_dom_is_prefix, lemma_prefix_len};
use crate::mat::{value_at, with_cell, SparseMatrix};
use crate::sample::{cells_before, precedes};

verus! {

/// The cells of a grid of `cols` columns and `rows` rows, each written
/// (column, row).
pub open spec fn grid_cells(cols: int, rows: int) -> Set<(int, int)> {
    Set::new(|p: (int, int)| 0 <= p.0 < cols && 0 <= p.1 < rows)
}

/// The cells of a grid of `cols` columns that lie in the rows before `row`,
/// or in row `row` before column `col`.
pub open spec fn grid_cells_before(cols: int, col: int, row: int) -> Set<(int, int)> {
    Set::new(|p: (int, int)| 0 <= p.0 < cols && 0 <= p.1 && precedes(p, (col, row)))
}

/// Before the cell at (`col`, `row`) a grid of `cols` columns has `row` full
/// rows and `col` more cells.
pub proof fn lemma_grid_cells_before_len(cols: int, col: int, row: int)
    requires
        0 <= col <= cols,
        0 <= row,
    ensures
        grid_cells_before(cols, col, row).finite(),
        grid_cells_before(cols, col, row).len() == row * cols + col,
    decreases row, col,
{
    let here = grid_cells_before(cols, col, row);
    if col > 0 {
        lemma_grid_cells_before_len(cols, col - 1, row);
        assert(here =~= grid_cells_before(cols, col - 1, row).insert((col - 1, row)));
    } else if row > 0 {
        lemma_grid_cells_before_len(cols, cols, row - 1);
        assert(here =~= grid_cells_before(cols, cols, row - 1));
        assert((row - 1) * cols + cols == row * cols) by (nonlinear_arith);
    } else {
        assert(here =~= Set::empty());
        assert(0 * cols == 0) by (nonlinear_arith);
    }
}

/// A grid of `cols` columns and `rows` rows has `rows * cols` cells.
pub proof fn lemma_grid_cells_len(cols: int, rows: int)
    requires
        0 <= cols,
        0 <= rows,
    ensures
        grid_cells(cols, rows).finite(),
        grid_cells(cols, rows).len() == rows * cols,
{
    lemma_grid_cells_before_len(cols, 0, rows);
    assert(grid_cells(cols, rows) =~= grid_cells_before(cols, 0, rows));
}

/// Reading a cell after it was set gives the value that it was set to.
pub proof fn lemma_insert_then_get<T: PartialEq>(m: SparseMatrix<T>, col: int, row: int, val: T)
    ensures
        value_at(with_cell(m@, m.default_value(), col, row, val), m.default_value(), col, row)
            == val,
{
}

/// Setting one cell leaves the value of every other cell as it was.
pub proof fn lemma_insert_keeps_others<T: PartialEq>(
    m: SparseMatrix<T>,
    col: int,
    row: int,
    val: T,
    other_col: int,
    other_row: int,
)
    requires
        (other_col, other_row) != (col, row),
    ensures
        value_at(
            with_cell(m@, m.default_value(), col, row, val),
            m.default_value(),
            other_col,
            other_row,
        ) == m.cell(other_col, other_row),
{
}

/// Setting a cell to the default value makes it read as the default value,
/// and takes one off the number of occupied cells if the cell was occupied,
/// else leaves that number as it was.
pub proof fn lemma_clear_count<T: PartialEq>(m: SparseMatrix<T>, col: int, row: int)
    requires
        m.wf(),
    ensures
        value_at(with_cell(m@, m.default_value(), col, row, m.default_value()), m.default_value(), col, row)
            == m.default_value(),
        with_cell(m@, m.default_value(), col, row, m.default_value()).dom().len() == m@.dom().len()
            - (if m@.dom().contains((col, row)) {
            1int
        } else {
            0int
        }),
{
    lemma_occupied_cells(m);
}

/// Setting a cell to a value other than the default value adds one to the
/// number of occupied cells if the cell held the default value, else leaves
/// that number as it was.
pub proof fn lemma_set_count<T: PartialEq>(m: SparseMatrix<T>, col: int, row: int, val: T)
    requires
        m.wf(),
        val != m.default_value(),
    ensures
        with_cell(m@, m.default_value(), col, row, val).dom().len() == m@.dom().len() + (if m@.dom().contains(
            (col, row),
        ) {
            0int
        } else {
            1int
        }),
{
    lemma_occupied_cells(m);
}

/// The occupied cells are finitely many, and they are exactly the cells of
/// the grid whose value differs from the default value. So the number of
/// occupied cells is the number of cells that differ from the default value.
pub proof fn lemma_occupied_cells<T: PartialEq>(m: SparseMatrix<T>)
    requires
        m.wf(),
    ensures
        m@.dom().finite(),
        m@.dom() == grid_cells(m.cols() as int, m.rows() as int).filter(
            |p: (int, int)| m.cell(p.0, p.1) != m.default_value(),
        ),
        forall|col: int, row: int|
            !(0 <= col < m.cols() && 0 <= row < m.rows()) ==> #[trigger] m.cell(col, row)
                == m.default_value(),
{
    let data = m.data@;
    lemma_dom_is_prefix(data);
    lemma_prefix_len(data, data.len() as int, 0);
    let different = grid_cells(m.cols() as int, m.rows() as int).filter(
        |p: (int, int)| m.cell(p.0, p.1) != m.default_value(),
    );
    assert forall|p: (int, int)| m@.dom().contains(p) implies 0 <= p.0 < m.cols() && 0 <= p.1
        < m.rows() && m@[p] != m.default_value() by {
        let a = position_of(data, p.1);
        let b = position_of(data[a].data@, p.0);
        lemma_axis_lookup(data, a);
        lemma_axis_lookup(data[a].data@, b);
        assert(data[a].data@[b].data != m.def);
    }
    assert(m@.dom() =~= different);
}

/// The number of cells that hold the default value lies between zero and the
/// number of cells of the grid, and it is zero exactly when every cell of the
/// grid differs from the default value.
pub proof fn lemma_full_grid<T: PartialEq>(m: SparseMatrix<T>)
    requires
        m.wf(),
    ensures
        0 <= m.free_cells() <= m.rows() * m.cols(),
        m.free_cells() == 0 <==> forall|col: int, row: int|
            0 <= col < m.cols() && 0 <= row < m.rows() ==> #[trigger] m.cell(col, row)
                != m.default_value(),
{
    let grid = grid_cells(m.cols() as int, m.rows() as int);
    lemma_occupied_cells(m);
    lemma_grid_cells_len(m.cols() as int, m.rows() as int);
    lemma_len_subset(m@.dom(), grid);
    if m.free_cells() == 0 {
        lemma_subset_equality(m@.dom(), grid);
        assert forall|col: int, row: int| 0 <= col < m.cols() && 0 <= row < m.rows() implies #[trigger] m.cell(
            col,
            row,
        ) != m.default_value() by {
            assert(grid.contains((col, row)));
        }
    }
    if forall|col: int, row: int|
        0 <= col < m.cols() && 0 <= row < m.rows() ==> #[trigger] m.cell(col, row)
            != m.default_value() {
        assert forall|p: (int, int)| grid.contains(p) implies m@.dom().contains(p) by {
            assert(m.cell(p.0, p.1) != m.default_value());
        }
        assert(m@.dom() =~= grid);
    }
}

/// The cells of the grid that hold the default value and come before
/// (`col`, `row`) in row-major order.
pub open spec fn default_cells_before<T: PartialEq>(m: SparseMatrix<T>, col: int, row: int) -> Set<
    (int, int),
> {
    grid_cells_before(m.cols() as int, col, row).filter(
        |p: (int, int)| m.cell(p.0, p.1) == m.default_value(),
    )
}

/// `defaults_before` counts the cells that hold the default value and come
/// before the given cell in row-major order.
pub proof fn lemma_defaults_before_counts<T: PartialEq>(m: SparseMatrix<T>, col: int, row: int)
    requires
        m.wf(),
        0 <= col <= m.cols(),
        0 <= row,
    ensures
        default_cells_before(m, col, row).finite(),
        m.defaults_before(col, row) == default_cells_before(m, col, row).len(),
{
    let before = grid_cells_before(m.cols() as int, col, row);
    let occupied = cells_before(m@.dom(), col, row);
    let free = default_cells_before(m, col, row);
    lemma_occupied_cells(m);
    lemma_grid_cells_before_len(m.cols() as int, col, row);
    lemma_len_subset(occupied, before);
    lemma_len_subset(free, before);
    assert(occupied.disjoint(free));
    lemma_set_disjoint_lens(occupied, free);
    assert(occupied + free =~= before);
}

/// Of two cells of the grid, the earlier of which holds the default value,
/// the later has more default cells before it. So no two cells that hold the
/// default value have the same number of default cells before them.
pub proof fn lemma_defaults_before_increases<T: PartialEq>(
    m: SparseMatrix<T>,
    col: int,
    row: int,
    later_col: int,
    later_row: int,
)
    requires
        m.wf(),
        0 <= col < m.cols(),
        0 <= row,
        0 <= later_col <= m.cols(),
        precedes((col, row), (later_col, later_row)),
        m.cell(col, row) == m.default_value(),
    ensures
        m.defaults_before(col, row) < m.defaults_before(later_col, later_row),
{
    let first = default_cells_before(m, col, row);
    let second = default_cells_before(m, later_col, later_row);
    lemma_defaults_before_counts(m, col, row);
    lemma_defaults_before_counts(m, later_col, later_row);
    assert(first.insert((col, row)).subset_of(second));
    lemma_len_subset(first.insert((col, row)), second);
}

/// The cells of the grid that hold the default value.
pub open spec fn default_cells<T: PartialEq>(m: SparseMatrix<T>) -> Set<(int, int)> {
    grid_cells(m.cols() as int, m.rows() as int).filter(
        |p: (int, int)| m.cell(p.0, p.1) == m.default_value(),
    )
}

/// `free_cells` counts the cells of the grid that hold the default value.
pub proof fn lemma_free_cells_counts<T: PartialEq>(m: SparseMatrix<T>)
    requires
        m.wf(),
    ensures
        default_cells(m).finite(),
        m.free_cells() == default_cells(m).len(),
{
    let grid = grid_cells(m.cols() as int, m.rows() as int);
    let free = default_cells(m);
    lemma_occupied_cells(m);
    lemma_grid_cells_len(m.cols() as int, m.rows() as int);
    lemma_len_subset(free, grid);
    assert(m@.dom().disjoint(free));
    lemma_set_disjoint_lens(m@.dom(), free);
    assert(m@.dom() + free =~= grid);
}

/// A cell of the grid that holds the default value has fewer default cells
/// before it than the grid has in all. So every such cell is the one that
/// `nth_default` finds for some rank below `free_cells`.
pub proof fn lemma_rank_in_range<T: PartialEq>(m: SparseMatrix<T>, col: int, row: int)
    requires
        m.wf(),
        0 <= col < m.cols(),
        0 <= row < m.rows(),
        m.cell(col, row) == m.default_value(),
    ensures
        0 <= m.defaults_before(col, row) < m.free_cells(),
{
    let before = default_cells_before(m, col, row);
    lemma_defaults_before_counts(m, col, row);
    lemma_free_cells_counts(m);
    assert(before.insert((col, row)).subset_of(default_cells(m)));
    lemma_len_subset(before.insert((col, row)), default_cells(m));
}

/// Two cells of the grid that hold the default value and have the same
/// number of default cells before them are one cell. So the rank that
/// `nth_default` is given settles the cell that it returns.
pub proof fn lemma_rank_unique<T: PartialEq>(
    m: SparseMatrix<T>,
    col: int,
    row: int,
    other_col: int,
    other_row: int,
)
    requires
        m.wf(),
        0 <= col < m.cols(),
        0 <= row < m.rows(),
        0 <= other_col < m.cols(),
        0 <= other_row < m.rows(),
        m.cell(col, row) == m.default_value(),
        m.cell(other_col, other_row) == m.default_value(),
        m.defaults_before(col, row) == m.defaults_before(other_col, other_row),
    ensures
        (col, row) == (other_col, other_row),
{
    if precedes((col, row), (other_col, other_row)) {
        lemma_defaults_before_increases(m, col, row, other_col, other_row);
    } else if precedes((other_col, other_row), (col, row)) {
        lemma_defaults_before_increases(m, other_col, other_row, col, row);
    }
}

} // verus!
