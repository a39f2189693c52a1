//! What holds of expansion, merge and compaction taken together.

use crate::cells::lemma_same_row_same_cells;
use crate::cells::lemma_strictly_ascending_distinct;
use crate::cells::lemma_strictly_ascending_unique;
use crate::order::lawful_index;
use crate::sparse::expanded_rows;
use crate::sparse::merged_rows;
use crate::sparse::pointers_fit;
use crate::sparse::CsrMatrix;
use std::hash::Hash;
use vstd::prelude::*;

verus! {

/// `sorted` is `matrix` with the cells of each row put in ascending order of
/// column: it has the same rows, each with the same cells.
pub open spec fn is_sorted_form<T: Ord, U>(
    sorted: &CsrMatrix<T, U>,
    matrix: &CsrMatrix<T, U>,
) -> bool {
    &&& sorted.wf()
    &&& sorted.sorted()
    &&& sorted.row_count() == matrix.row_count()
    &&& forall|i: int|
        0 <= i < matrix.row_count() ==> (#[trigger] sorted.row_cells(i)).to_multiset()
            == matrix.row_cells(i).to_multiset()
}

/// The row that holds the stored entry at position `p`, found from row `k`
/// upwards.
proof fn lemma_row_of_entry(indptr: Seq<usize>, len: nat, p: int, k: int) -> (i: int)
    requires
        pointers_fit(indptr, len),
        0 <= k < indptr.len() - 1,
        indptr[k] <= p < len,
    ensures
        0 <= i < indptr.len() - 1,
        indptr[i] <= p < indptr[i + 1],
    decreases indptr.len() - k,
{
    if p < indptr[k + 1] {
        k
    } else {
        lemma_row_of_entry(indptr, len, p, k + 1)
    }
}

/// Matrices whose first `k` rows have the same cells have the same first
/// `k + 1` row pointers.
proof fn lemma_same_pointers<T, U>(a: &CsrMatrix<T, U>, b: &CsrMatrix<T, U>, k: int)
    requires
        a.wf(),
        b.wf(),
        0 <= k <= a.row_count(),
        a.row_count() == b.row_count(),
        forall|i: int| 0 <= i < a.row_count() ==> #[trigger] a.row_cells(i) == b.row_cells(i),
    ensures
        a.indptr@[k] == b.indptr@[k],
    decreases k,
{
    if k > 0 {
        lemma_same_pointers(a, b, k - 1);
        assert(a.row_cells(k - 1).len() == a.indptr@[k] - a.indptr@[k - 1]);
        assert(b.row_cells(k - 1).len() == b.indptr@[k] - b.indptr@[k - 1]);
    }
}

/// A matrix's rows, with the columns going up in each, are stored in one way
/// only: two such matrices with the same rows hold the same three sequences.
pub proof fn lemma_sorted_storage_unique<T: Ord + Hash, U>(a: &CsrMatrix<T, U>, b: &CsrMatrix<T, U>)
    requires
        lawful_index::<T>(),
        a.wf(),
        b.wf(),
        a.sorted(),
        b.sorted(),
        a@ == b@,
    ensures
        a.same_storage(b),
{
    let n = a.row_count();
    assert(a@.len() == n);
    assert(b@.len() == b.row_count());
    assert forall|i: int| 0 <= i < n implies #[trigger] a.row_cells(i) == b.row_cells(i) by {
        assert(a@[i] == b@[i]);
        lemma_strictly_ascending_unique(a.row_cells(i), b.row_cells(i));
    }
    assert forall|k: int| 0 <= k < a.indptr@.len() implies a.indptr@[k] == b.indptr@[k] by {
        lemma_same_pointers(a, b, k);
    }
    assert(a.indptr@ =~= b.indptr@);
    assert(a.indices@.len() == b.indices@.len());
    assert forall|p: int| 0 <= p < a.indices@.len() implies a.indices@[p] == b.indices@[p]
        && a.data@[p] == b.data@[p] by {
        let i = lemma_row_of_entry(a.indptr@, a.indices@.len(), p, 0);
        let start = a.indptr@[i] as int;
        assert(a.row_cells(i) == b.row_cells(i));
        assert(a.row_cells(i)[p - start] == (a.indices@[p], a.data@[p]));
        assert(b.row_cells(i)[p - start] == (b.indices@[p], b.data@[p]));
    }
    assert(a.indices@ =~= b.indices@);
    assert(a.data@ =~= b.data@);
}

/// Expanding a matrix in which no row holds a column twice to its own number
/// of rows, and compacting what comes of it, gives the matrix back with each
/// row sorted by column; a matrix whose rows are sorted comes back as it is.
///
/// `rows` stands for the expanded matrix and `back` for the compacted one,
/// each described as the function that produces it describes its result.
pub proof fn lemma_round_trip<T: Ord + Hash, U>(
    matrix: &CsrMatrix<T, U>,
    rows: Seq<Map<T, U>>,
    back: &CsrMatrix<T, U>,
)
    requires
        lawful_index::<T>(),
        matrix.wf(),
        matrix.no_repeated_columns(),
        rows == expanded_rows(matrix@, matrix.row_count()),
        back.wf(),
        back.sorted(),
        back@ == rows,
    ensures
        is_sorted_form(back, matrix),
        matrix.sorted() ==> back.same_storage(matrix),
{
    assert(rows =~= matrix@);
    assert(back@.len() == back.row_count());
    assert(matrix@.len() == matrix.row_count());
    assert forall|i: int| 0 <= i < matrix.row_count() implies (#[trigger] back.row_cells(
        i,
    )).to_multiset() == matrix.row_cells(i).to_multiset() by {
        assert(back@[i] == matrix@[i]);
        lemma_strictly_ascending_distinct(back.row_cells(i));
        lemma_same_row_same_cells(back.row_cells(i), matrix.row_cells(i));
    }
    if matrix.sorted() {
        lemma_sorted_storage_unique(back, matrix);
    }
}

/// A cell that the incoming matrix holds has, after the merge, the value it
/// has there, whatever the base held at that row and column.
pub proof fn lemma_incoming_cell_wins<T, U>(
    base: Seq<Map<T, U>>,
    incoming: Seq<Map<T, U>>,
    n: nat,
    row: int,
    column: T,
)
    requires
        0 <= row < incoming.len() <= n,
        incoming[row].contains_key(column),
    ensures
        merged_rows(base, incoming, n)[row].contains_key(column),
        merged_rows(base, incoming, n)[row][column] == incoming[row][column],
{
}

/// A cell that only the base holds keeps its value in the merge, and the
/// merge holds no cell that neither matrix holds.
pub proof fn lemma_other_cells_kept<T, U>(
    base: Seq<Map<T, U>>,
    incoming: Seq<Map<T, U>>,
    n: nat,
    row: int,
    column: T,
)
    requires
        0 <= row < n,
        !(row < incoming.len() && incoming[row].contains_key(column)),
    ensures
        merged_rows(base, incoming, n)[row].contains_key(column) <==> row < base.len()
            && base[row].contains_key(column),
        row < base.len() && base[row].contains_key(column) ==> merged_rows(
            base,
            incoming,
            n,
        )[row][column] == base[row][column],
{
}

/// A merge to more rows than the base has gives that many rows, and those
/// beyond the base hold what the incoming matrix holds there and nothing else.
pub proof fn lemma_rows_beyond_base<T, U>(base: Seq<Map<T, U>>, incoming: Seq<Map<T, U>>, n: nat)
    requires
        n > base.len(),
    ensures
        merged_rows(base, incoming, n).len() == n,
        forall|i: int|
            base.len() <= i < n ==> #[trigger] merged_rows(base, incoming, n)[i] == if i
                < incoming.len() {
                incoming[i]
            } else {
                Map::empty()
            },
{
    assert forall|i: int| base.len() <= i < n implies #[trigger] merged_rows(base, incoming, n)[i]
        == if i < incoming.len() {
        incoming[i]
    } else {
        Map::empty()
    } by {
        if i < incoming.len() {
            assert(Map::<T, U>::empty().union_prefer_right(incoming[i]) =~= incoming[i]);
        }
    }
}

/// An empty first row of the incoming matrix hides none of the rows after
/// it: each of them is found whole in the same row of the merge.
pub proof fn lemma_rows_after_empty_row<T, U>(
    base: Seq<Map<T, U>>,
    incoming: Seq<Map<T, U>>,
    n: nat,
    row: int,
)
    requires
        incoming.len() <= n,
        0 < row < incoming.len(),
        incoming[0] == Map::<T, U>::empty(),
    ensures
        incoming[row].submap_of(merged_rows(base, incoming, n)[row]),
{
}

} // verus!
