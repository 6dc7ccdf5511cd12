//! Counting the stored rows and cells.
use vstd::prelude::*;
use crate::axis::{
    axis_map, lemma_axis_len, lemma_axis_lookup, lemma_position_unique, position_of,
    strictly_increasing, Element, SparseVector,
};
use crate::mat::{cells_of, SparseMatrix};

verus! {

/// The rows are sorted among themselves, and each row is sorted.
pub(crate) open spec fn sorted_rows<T>(data: Seq<Element<SparseVector<T>>>) -> bool {
    &&& strictly_increasing(data)
    &&& forall|i: int| 0 <= i < data.len() ==> strictly_increasing((#[trigger] data[i]).data@)
}

/// The number of cells stored in the first `i` rows.
pub(crate) open spec fn size_upto<T>(data: Seq<Element<SparseVector<T>>>, i: int) -> int
    decreases i,
{
    if i <= 0 {
        0
    } else {
        size_upto(data, i - 1) + data[i - 1].data@.len()
    }
}

/// Entry `b` of stored row `a` is the cell `p`.
pub(crate) open spec fn holds<T>(
    data: Seq<Element<SparseVector<T>>>,
    a: int,
    b: int,
    p: (int, int),
) -> bool {
    &&& 0 <= a < data.len()
    &&& 0 <= b < data[a].data@.len()
    &&& data[a].idx == p.1
    &&& data[a].data@[b].idx == p.0
}

/// Entry `b` of row `a` is stored before entry `j` of row `i`.
pub(crate) open spec fn comes_before(a: int, b: int, i: int, j: int) -> bool {
    a < i || (a == i && b < j)
}

/// The cells stored before entry `j` of row `i`.
pub(crate) open spec fn prefix_cells<T>(
    data: Seq<Element<SparseVector<T>>>,
    i: int,
    j: int,
) -> Set<(int, int)> {
    Set::new(
        |p: (int, int)|
            exists|a: int, b: int| #[trigger] holds(data, a, b, p) && comes_before(a, b, i, j),
    )
}

/// A cell is stored in one place only.
pub(crate) proof fn lemma_holds_unique<T>(
    data: Seq<Element<SparseVector<T>>>,
    a: int,
    b: int,
    c: int,
    d: int,
    p: (int, int),
)
    requires
        sorted_rows(data),
        holds(data, a, b, p),
        holds(data, c, d, p),
    ensures
        a == c,
        b == d,
{
    lemma_position_unique(data, p.1, a);
    lemma_position_unique(data, p.1, c);
    lemma_position_unique(data[a].data@, p.0, b);
    lemma_position_unique(data[a].data@, p.0, d);
}

/// Before entry `j` of row `i` lie the cells of the first `i` rows and `j`
/// more.
pub(crate) proof fn lemma_prefix_len<T>(data: Seq<Element<SparseVector<T>>>, i: int, j: int)
    requires
        sorted_rows(data),
        0 <= i <= data.len(),
        0 <= j,
        i < data.len() ==> j <= data[i].data@.len(),
        i == data.len() ==> j == 0,
    ensures
        prefix_cells(data, i, j).finite(),
        prefix_cells(data, i, j).len() == size_upto(data, i) + j,
    decreases i, j,
{
    let here = prefix_cells(data, i, j);
    if j > 0 {
        let key = (data[i].data@[j - 1].idx as int, data[i].idx as int);
        let less = prefix_cells(data, i, j - 1);
        lemma_prefix_len(data, i, j - 1);
        assert(!less.contains(key)) by {
            if less.contains(key) {
                let (a, b) = choose|a: int, b: int| #[trigger]
                    holds(data, a, b, key) && comes_before(a, b, i, j - 1);
                assert(holds(data, i, j - 1, key));
                lemma_holds_unique(data, a, b, i, j - 1, key);
            }
        }
        assert forall|p: (int, int)| here.contains(p) <==> less.insert(key).contains(p) by {
            if here.contains(p) {
                let (a, b) = choose|a: int, b: int| #[trigger]
                    holds(data, a, b, p) && comes_before(a, b, i, j);
                if !(a == i && b == j - 1) {
                    assert(holds(data, a, b, p) && comes_before(a, b, i, j - 1));
                }
            }
            if less.contains(p) {
                let (a, b) = choose|a: int, b: int| #[trigger]
                    holds(data, a, b, p) && comes_before(a, b, i, j - 1);
                assert(holds(data, a, b, p) && comes_before(a, b, i, j));
            }
            if p == key {
                assert(holds(data, i, j - 1, p) && comes_before(i, j - 1, i, j));
            }
        }
        assert(here =~= less.insert(key));
    } else if i > 0 {
        let n = data[i - 1].data@.len() as int;
        let less = prefix_cells(data, i - 1, n);
        lemma_prefix_len(data, i - 1, n);
        assert forall|p: (int, int)| here.contains(p) <==> less.contains(p) by {
            if here.contains(p) {
                let (a, b) = choose|a: int, b: int| #[trigger]
                    holds(data, a, b, p) && comes_before(a, b, i, 0);
                assert(holds(data, a, b, p) && comes_before(a, b, i - 1, n));
            }
            if less.contains(p) {
                let (a, b) = choose|a: int, b: int| #[trigger]
                    holds(data, a, b, p) && comes_before(a, b, i - 1, n);
                assert(holds(data, a, b, p) && comes_before(a, b, i, 0));
            }
        }
        assert(here =~= less);
    } else {
        assert(here =~= Set::empty());
    }
}

/// The stored cells are those that lie before the end of the storage.
pub(crate) proof fn lemma_dom_is_prefix<T>(data: Seq<Element<SparseVector<T>>>)
    requires
        sorted_rows(data),
    ensures
        cells_of(data).dom() == prefix_cells(data, data.len() as int, 0),
{
    let all = prefix_cells(data, data.len() as int, 0);
    assert forall|p: (int, int)| cells_of(data).dom().contains(p) <==> all.contains(p) by {
        if cells_of(data).dom().contains(p) {
            let a = position_of(data, p.1);
            let b = position_of(data[a].data@, p.0);
            assert(holds(data, a, b, p) && comes_before(a, b, data.len() as int, 0));
        }
        if all.contains(p) {
            let (a, b) = choose|a: int, b: int| #[trigger]
                holds(data, a, b, p) && comes_before(a, b, data.len() as int, 0);
            lemma_axis_lookup(data, a);
            lemma_axis_lookup(data[a].data@, b);
        }
    }
    assert(cells_of(data).dom() =~= all);
}

/// The count of the first rows never exceeds that of more rows.
pub(crate) proof fn lemma_size_monotone<T>(data: Seq<Element<SparseVector<T>>>, i: int, n: int)
    requires
        0 <= i <= n,
    ensures
        size_upto(data, i) <= size_upto(data, n),
    decreases n - i,
{
    if i < n {
        lemma_size_monotone(data, i, n - 1);
    }
}

impl<T: PartialEq> SparseMatrix<T> {
    /// The rows that hold at least one cell that differs from the default value.
    pub open spec fn occupied_rows(&self) -> Set<int> {
        Set::new(|row: int| exists|col: int| self@.dom().contains((col, row)))
    }

    /// The number of rows that hold at least one cell that differs from the
    /// default value.
    pub fn len(&self) -> (n: usize)
        ensures
            self.occupied_rows().finite(),
            n == self.occupied_rows().len(),
    {
        proof {
            use_type_invariant(self);
            let data = self.data@;
            lemma_axis_len(data);
            assert forall|row: int|
                self.occupied_rows().contains(row) <==> axis_map(data).dom().contains(row) by {
                if axis_map(data).dom().contains(row) {
                    let a = position_of(data, row);
                    lemma_axis_lookup(data, a);
                    lemma_axis_lookup(data[a].data@, 0);
                    assert(self@.dom().contains((data[a].data@[0].idx as int, row)));
                }
            }
            assert(self.occupied_rows() =~= axis_map(data).dom());
        }
        self.data.len()
    }

    /// The number of cells that differ from the default value. The number
    /// has to fit in `usize`, as it does wherever `rows * cols` fits.
    pub fn actual_size(&self) -> (n: usize)
        requires
            self@.dom().len() <= usize::MAX,
        ensures
            n == self@.dom().len(),
    {
        proof {
            use_type_invariant(self);
            lemma_dom_is_prefix(self.data@);
            lemma_prefix_len(self.data@, self.data@.len() as int, 0);
        }
        let mut n: usize = 0;
        let mut i: usize = 0;
        while i < self.data.len()
            invariant
                0 <= i <= self.data@.len(),
                n == size_upto(self.data@, i as int),
                size_upto(self.data@, self.data@.len() as int) <= usize::MAX,
            decreases self.data@.len() - i,
        {
            proof {
                lemma_size_monotone(self.data@, i + 1, self.data@.len() as int);
            }
            n = n + self.data[i].data.len();
            i = i + 1;
        }
        n
    }
}

} // verus!
