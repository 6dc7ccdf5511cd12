//! Sparse vectors: elements sorted by strictly increasing index.
use vstd::prelude::*;

verus! {

/// One stored element of a sparse vector: the payload `data` at position `idx`.
pub struct Element<T> {
    pub(crate) idx: usize,
    pub(crate) data: T,
}

/// A sparse vector. Positions that have no element are absent, not stored.
pub type SparseVector<T> = Vec<Element<T>>;

/// The indices of `s` increase strictly from front to back.
pub(crate) open spec fn strictly_increasing<T>(s: Seq<Element<T>>) -> bool {
    forall|i: int, j: int| 0 <= i < j < s.len() ==> s[i].idx < s[j].idx
}

/// Some element of `s` sits at index `idx`.
pub(crate) open spec fn has_index<T>(s: Seq<Element<T>>, idx: int) -> bool {
    exists|j: int| 0 <= j < s.len() && s[j].idx == idx
}

/// A position in `s` whose element sits at index `idx`, if there is one.
pub(crate) open spec fn position_of<T>(s: Seq<Element<T>>, idx: int) -> int {
    choose|j: int| 0 <= j < s.len() && s[j].idx == idx
}

/// `pos` splits `s` into the elements below `idx` and those at or above it.
pub(crate) open spec fn is_lower_bound<T>(s: Seq<Element<T>>, idx: int, pos: int) -> bool {
    &&& 0 <= pos <= s.len()
    &&& forall|j: int| 0 <= j < pos ==> s[j].idx < idx
    &&& forall|j: int| pos <= j < s.len() ==> s[j].idx >= idx
}

/// In a strictly increasing vector an index is held by at most one position.
pub(crate) proof fn lemma_position_unique<T>(s: Seq<Element<T>>, idx: int, j: int)
    requires
        strictly_increasing(s),
        0 <= j < s.len(),
        s[j].idx == idx,
    ensures
        has_index(s, idx),
        position_of(s, idx) == j,
{
    let k = position_of(s, idx);
    if k < j {
        assert(s[k].idx < s[j].idx);
    } else if j < k {
        assert(s[j].idx < s[k].idx);
    }
}

/// The sparse vector as a map from index to payload.
pub(crate) open spec fn axis_map<T>(s: Seq<Element<T>>) -> Map<int, T> {
    Map::new(|idx: int| has_index(s, idx), |idx: int| s[position_of(s, idx)].data)
}

/// The element at position `j` is what the map holds at that element's index.
pub(crate) proof fn lemma_axis_lookup<T>(s: Seq<Element<T>>, j: int)
    requires
        strictly_increasing(s),
        0 <= j < s.len(),
    ensures
        axis_map(s).dom().contains(s[j].idx as int),
        axis_map(s)[s[j].idx as int] == s[j].data,
{
    lemma_position_unique(s, s[j].idx as int, j);
}

/// Inserting an element with a new index at its lower bound keeps the order
/// and adds one entry to the map.
pub(crate) proof fn lemma_axis_insert<T>(s: Seq<Element<T>>, pos: int, e: Element<T>)
    requires
        strictly_increasing(s),
        is_lower_bound(s, e.idx as int, pos),
        !has_index(s, e.idx as int),
    ensures
        strictly_increasing(s.insert(pos, e)),
        axis_map(s.insert(pos, e)) == axis_map(s).insert(e.idx as int, e.data),
{
    let t = s.insert(pos, e);
    assert forall|i: int, j: int| 0 <= i < j < t.len() implies t[i].idx < t[j].idx by {
        let a = if i < pos { i } else { i - 1 };
        let b = if j < pos { j } else { j - 1 };
        if i != pos && j != pos {
            assert(s[a].idx < s[b].idx);
        } else if i == pos {
            assert(s[b].idx >= e.idx);
            assert(s[b].idx != e.idx);
        } else {
            assert(s[a].idx < e.idx);
        }
    }
    assert forall|idx: int| #[trigger]
        axis_map(t).dom().contains(idx) <==> axis_map(s).insert(e.idx as int, e.data).dom().contains(
            idx,
        ) by {
        if has_index(t, idx) {
            let j = position_of(t, idx);
            if j < pos {
                assert(s[j].idx == idx);
            } else if j > pos {
                assert(s[j - 1].idx == idx);
            }
        }
        if has_index(s, idx) {
            let j = position_of(s, idx);
            if j < pos {
                assert(t[j].idx == idx);
            } else {
                assert(t[j + 1].idx == idx);
            }
        }
        if idx == e.idx {
            assert(t[pos].idx == idx);
        }
    }
    assert forall|idx: int| #[trigger] axis_map(t).dom().contains(idx) implies axis_map(t)[idx]
        == axis_map(s).insert(e.idx as int, e.data)[idx] by {
        let j = position_of(t, idx);
        if j < pos {
            lemma_position_unique(s, idx, j);
        } else if j > pos {
            lemma_position_unique(s, idx, j - 1);
        }
    }
    assert(axis_map(t) =~= axis_map(s).insert(e.idx as int, e.data));
}

/// Removing the element at `pos` keeps the order and takes its index out of
/// the map.
pub(crate) proof fn lemma_axis_remove<T>(s: Seq<Element<T>>, pos: int)
    requires
        strictly_increasing(s),
        0 <= pos < s.len(),
    ensures
        strictly_increasing(s.remove(pos)),
        axis_map(s.remove(pos)) == axis_map(s).remove(s[pos].idx as int),
{
    let t = s.remove(pos);
    let gone = s[pos].idx as int;
    assert forall|i: int, j: int| 0 <= i < j < t.len() implies t[i].idx < t[j].idx by {
        let a = if i < pos { i } else { i + 1 };
        let b = if j < pos { j } else { j + 1 };
        assert(s[a].idx < s[b].idx);
    }
    assert forall|idx: int| #[trigger]
        axis_map(t).dom().contains(idx) <==> axis_map(s).remove(gone).dom().contains(idx) by {
        if has_index(t, idx) {
            let j = position_of(t, idx);
            let a = if j < pos { j } else { j + 1 };
            assert(s[a].idx == idx);
            if a < pos {
                assert(s[a].idx < s[pos].idx);
            } else {
                assert(s[pos].idx < s[a].idx);
            }
        }
        if has_index(s, idx) && idx != gone {
            let j = position_of(s, idx);
            if j < pos {
                assert(t[j].idx == idx);
            } else {
                assert(t[j - 1].idx == idx);
            }
        }
    }
    assert forall|idx: int| #[trigger] axis_map(t).dom().contains(idx) implies axis_map(t)[idx]
        == axis_map(s).remove(gone)[idx] by {
        let j = position_of(t, idx);
        let a = if j < pos { j } else { j + 1 };
        lemma_position_unique(s, idx, a);
    }
    assert(axis_map(t) =~= axis_map(s).remove(gone));
}

/// Replacing the element at `pos` by one with the same index keeps the order
/// and overwrites that index in the map.
pub(crate) proof fn lemma_axis_update<T>(s: Seq<Element<T>>, pos: int, e: Element<T>)
    requires
        strictly_increasing(s),
        0 <= pos < s.len(),
        e.idx == s[pos].idx,
    ensures
        strictly_increasing(s.update(pos, e)),
        axis_map(s.update(pos, e)) == axis_map(s).insert(e.idx as int, e.data),
{
    let t = s.update(pos, e);
    assert forall|i: int, j: int| 0 <= i < j < t.len() implies t[i].idx < t[j].idx by {
        assert(s[i].idx < s[j].idx);
    }
    assert forall|idx: int| #[trigger]
        axis_map(t).dom().contains(idx) <==> axis_map(s).insert(e.idx as int, e.data).dom().contains(
            idx,
        ) by {
        if has_index(t, idx) {
            let j = position_of(t, idx);
            assert(s[j].idx == idx);
        }
        if has_index(s, idx) {
            let j = position_of(s, idx);
            assert(t[j].idx == idx);
        }
        if idx == e.idx {
            assert(t[pos].idx == idx);
        }
    }
    assert forall|idx: int| #[trigger] axis_map(t).dom().contains(idx) implies axis_map(t)[idx]
        == axis_map(s).insert(e.idx as int, e.data)[idx] by {
        let j = position_of(t, idx);
        if j != pos {
            lemma_position_unique(s, idx, j);
        }
    }
    assert(axis_map(t) =~= axis_map(s).insert(e.idx as int, e.data));
}

/// A strictly increasing vector holds as many indices as it has elements.
pub(crate) proof fn lemma_axis_len<T>(s: Seq<Element<T>>)
    requires
        strictly_increasing(s),
    ensures
        axis_map(s).dom().finite(),
        axis_map(s).dom().len() == s.len(),
    decreases s.len(),
{
    if s.len() == 0 {
        assert(axis_map(s).dom() =~= Set::empty());
    } else {
        let last = s.len() - 1;
        let t = s.remove(last);
        lemma_axis_remove(s, last);
        lemma_axis_len(t);
        lemma_axis_lookup(s, last);
        assert(axis_map(s).dom() =~= axis_map(t).dom().insert(s[last].idx as int));
    }
}

/// Indices that increase strictly grow at least as fast as the positions.
pub(crate) proof fn lemma_axis_spread<T>(s: Seq<Element<T>>, a: int, b: int)
    requires
        strictly_increasing(s),
        0 <= a <= b < s.len(),
    ensures
        s[b].idx - s[a].idx >= b - a,
    decreases b - a,
{
    if a < b {
        lemma_axis_spread(s, a, b - 1);
        assert(s[b - 1].idx < s[b].idx);
    }
}

/// Binary search for `cidx`. Returns whether an element sits at `cidx`, and
/// the position where it is, or where it would have to be inserted.
pub(crate) fn svec_find_idx<T>(svec: &SparseVector<T>, cidx: usize) -> (res: (bool, usize))
    requires
        strictly_increasing(svec@),
    ensures
        is_lower_bound(svec@, cidx as int, res.1 as int),
        res.0 <==> has_index(svec@, cidx as int),
        res.0 ==> res.1 < svec.len() && svec[res.1 as int].idx == cidx,
{
    let mut lo: usize = 0;
    let mut hi: usize = svec.len();
    while lo < hi
        invariant
            0 <= lo <= hi <= svec.len(),
            strictly_increasing(svec@),
            forall|j: int| 0 <= j < lo ==> svec[j].idx < cidx,
            forall|j: int| hi <= j < svec.len() ==> svec[j].idx >= cidx,
        decreases hi - lo,
    {
        let mid: usize = lo + (hi - lo) / 2;
        if svec[mid].idx < cidx {
            assert forall|j: int| 0 <= j < mid + 1 implies svec[j].idx < cidx by {
                if j < mid {
                    assert(svec[j].idx < svec[mid as int].idx);
                }
            }
            lo = mid + 1;
        } else {
            assert forall|j: int| mid <= j < svec.len() implies svec[j].idx >= cidx by {
                if mid < j {
                    assert(svec[mid as int].idx < svec[j].idx);
                }
            }
            hi = mid;
        }
    }
    let found = lo < svec.len() && svec[lo].idx == cidx;
    proof {
        if !found && has_index(svec@, cidx as int) {
            let j = position_of(svec@, cidx as int);
            assert(svec[j].idx == cidx);
            assert(false);
        }
    }
    (found, lo)
}

} // verus!
