//! The two representations of a sparse matrix, and the merge.

use crate::cells::cells_to_map;
use crate::cells::distinct_columns;
use crate::cells::lemma_listed_row;
use crate::cells::lemma_overlay_overrides;
use crate::cells::lemma_overlay_push;
use crate::cells::lemma_sorted_listing;
use crate::cells::lists;
use crate::cells::overlay;
use crate::cells::sort_cells;
use crate::cells::strictly_ascending;
use crate::error::MatrixError;
use crate::order::lawful_index;
use crate::rowmap::cells_of;
use crate::rowmap::row_insert;
use fxhash::FxHashMap;
use std::hash::Hash;
use vstd::prelude::*;

verus! {

/// The cells that `indices` and `data` hold at the positions `start..end`,
/// none if `end` is not beyond `start`.
pub open spec fn span<T, U>(indices: Seq<T>, data: Seq<U>, start: int, end: int) -> Seq<(T, U)> {
    Seq::new(
        if start < end {
            (end - start) as nat
        } else {
            0
        },
        |k: int| (indices[start + k], data[start + k]),
    )
}

/// Row pointers that cut `len` stored entries into rows: there is one, the
/// first is zero, they never go down, and the last is `len`.
pub open spec fn pointers_fit(indptr: Seq<usize>, len: nat) -> bool {
    &&& indptr.len() >= 1
    &&& indptr[0] == 0
    &&& forall|i: int, j: int| 0 <= i <= j < indptr.len() ==> indptr[i] <= indptr[j]
    &&& indptr.last() == len
}

/// The first `n` rows of `rows`, with empty rows where `rows` has none.
pub open spec fn expanded_rows<T, U>(rows: Seq<Map<T, U>>, n: nat) -> Seq<Map<T, U>> {
    Seq::new(
        n,
        |i: int|
            if i < rows.len() {
                rows[i]
            } else {
                Map::empty()
            },
    )
}

/// `base` brought to `n` rows and overridden row by row by `incoming`: a cell
/// that `incoming` holds has the value it has there, every other cell the
/// value it has in `base`.
pub open spec fn merged_rows<T, U>(
    base: Seq<Map<T, U>>,
    incoming: Seq<Map<T, U>>,
    n: nat,
) -> Seq<Map<T, U>> {
    Seq::new(
        n,
        |i: int|
            if i < incoming.len() {
                expanded_rows(base, n)[i].union_prefer_right(incoming[i])
            } else {
                expanded_rows(base, n)[i]
            },
    )
}

/// A sparse matrix in compressed-row form. Row `i` holds the entries at the
/// positions `indptr[i]..indptr[i + 1]` of `indices` (their columns) and of
/// `data` (their values).
#[derive(Debug)]
pub struct CsrMatrix<T, U> {
    pub indices: Vec<T>,
    pub indptr: Vec<usize>,
    pub data: Vec<U>,
}

impl<T, U> View for CsrMatrix<T, U> {
    type V = Seq<Map<T, U>>;

    /// The matrix as a sequence of rows, each a map from column to value.
    open spec fn view(&self) -> Seq<Map<T, U>> {
        Seq::new(self.row_count(), |i: int| self.row(i))
    }
}

impl<T, U> CsrMatrix<T, U> {
    /// What is wrong with the three sequences, if anything.
    pub open spec fn defect(&self) -> Option<MatrixError> {
        if self.indices@.len() != self.data@.len() {
            Some(MatrixError::LengthMismatch)
        } else if !pointers_fit(self.indptr@, self.indices@.len()) {
            Some(MatrixError::MalformedRowPointers)
        } else {
            None
        }
    }

    /// The three sequences describe a matrix.
    pub open spec fn wf(&self) -> bool {
        &&& self.indices@.len() == self.data@.len()
        &&& pointers_fit(self.indptr@, self.indices@.len())
    }

    /// The number of rows.
    pub open spec fn row_count(&self) -> nat {
        if self.indptr@.len() >= 1 {
            (self.indptr@.len() - 1) as nat
        } else {
            0
        }
    }

    /// The cells of row `i` in the order in which they are stored.
    pub open spec fn row_cells(&self, i: int) -> Seq<(T, U)> {
        span(self.indices@, self.data@, self.indptr@[i] as int, self.indptr@[i + 1] as int)
    }

    /// Row `i` as a map. Of two stored cells with one column the later counts.
    pub open spec fn row(&self, i: int) -> Map<T, U> {
        cells_to_map(self.row_cells(i))
    }

    /// No row holds a column twice.
    pub open spec fn no_repeated_columns(&self) -> bool {
        forall|i: int| 0 <= i < self.row_count() ==> distinct_columns(#[trigger] self.row_cells(i))
    }

    /// The two matrices hold the same three sequences.
    pub open spec fn same_storage(&self, other: &CsrMatrix<T, U>) -> bool {
        &&& self.indices@ == other.indices@
        &&& self.indptr@ == other.indptr@
        &&& self.data@ == other.data@
    }
}

impl<T: Ord, U> CsrMatrix<T, U> {
    /// Within every row the columns go up.
    pub open spec fn sorted(&self) -> bool {
        forall|i: int| 0 <= i < self.row_count() ==> strictly_ascending(#[trigger] self.row_cells(i))
    }

    /// The number of rows that a merge into this matrix gives: `n_rows`, or
    /// the matrix's own number of rows if `n_rows` is `None`.
    pub open spec fn target_rows(&self, n_rows: Option<usize>) -> nat {
        match n_rows {
            Some(n) => n as nat,
            None => self.row_count(),
        }
    }

    /// Why `other` cannot be merged into `this` at `n_rows` rows, if it
    /// cannot: one of the two is no matrix, or `other` has more rows than the
    /// result is to have.
    pub open spec fn add_error(
        this: &CsrMatrix<T, U>,
        other: &CsrMatrix<T, U>,
        n_rows: Option<usize>,
    ) -> Option<MatrixError> {
        if this.defect() is Some {
            this.defect()
        } else if other.defect() is Some {
            other.defect()
        } else if other.row_count() > this.target_rows(n_rows) {
            Some(
                MatrixError::RowOutOfBounds {
                    index: this.target_rows(n_rows) as usize,
                    len: this.target_rows(n_rows) as usize,
                },
            )
        } else {
            None
        }
    }
}

/// Row pointers of which each is no greater than the next never go down.
proof fn lemma_steps_never_go_down(indptr: Seq<usize>, n: int)
    requires
        0 <= n <= indptr.len(),
        forall|k: int| 0 < k < n ==> indptr[k - 1] <= #[trigger] indptr[k],
    ensures
        forall|i: int, j: int| 0 <= i <= j < n ==> indptr[i] <= indptr[j],
    decreases n,
{
    if n > 0 {
        lemma_steps_never_go_down(indptr, n - 1);
        assert forall|i: int, j: int| 0 <= i <= j < n implies indptr[i] <= indptr[j] by {
            if j == n - 1 && i < j {
                assert(indptr[i] <= indptr[j - 1]);
            }
        }
    }
}

impl<T: Copy + Eq + Hash + Ord, U: Copy> CsrMatrix<T, U> {
    /// The matrix of the three sequences, if they describe one, else what is
    /// wrong with them.
    pub fn new(indices: Vec<T>, indptr: Vec<usize>, data: Vec<U>) -> (r: Result<
        CsrMatrix<T, U>,
        MatrixError,
    >)
        ensures
            match r {
                Ok(matrix) => {
                    &&& matrix.wf()
                    &&& matrix.indices == indices
                    &&& matrix.indptr == indptr
                    &&& matrix.data == data
                },
                Err(e) => (CsrMatrix { indices, indptr, data }).defect() == Some(e),
            },
    {
        let matrix = CsrMatrix { indices, indptr, data };
        match matrix.validate() {
            Ok(_) => Ok(matrix),
            Err(e) => Err(e),
        }
    }

    /// Tests the three sequences: `Ok` if they describe a matrix, else what is
    /// wrong with them.
    pub fn validate(&self) -> (r: Result<(), MatrixError>)
        ensures
            r is Ok <==> self.wf(),
            r matches Err(e) ==> self.defect() == Some(e),
    {
        if self.indices.len() != self.data.len() {
            return Err(MatrixError::LengthMismatch);
        }
        let n = self.indptr.len();
        if n == 0 || self.indptr[0] != 0 || self.indptr[n - 1] != self.indices.len() {
            return Err(MatrixError::MalformedRowPointers);
        }
        let mut k: usize = 1;
        while k < n
            invariant
                1 <= k <= n,
                n == self.indptr@.len(),
                self.indices@.len() == self.data@.len(),
                self.indptr@[0] == 0,
                self.indptr@[n - 1] == self.indices@.len(),
                forall|m: int| 0 < m < k ==> self.indptr@[m - 1] <= #[trigger] self.indptr@[m],
            decreases n - k,
        {
            if self.indptr[k - 1] > self.indptr[k] {
                proof {
                    assert(self.indptr@[k - 1] > self.indptr@[k as int]);
                }
                return Err(MatrixError::MalformedRowPointers);
            }
            k = k + 1;
        }
        proof {
            lemma_steps_never_go_down(self.indptr@, n as int);
        }
        Ok(())
    }

    /// The column indices, the row pointers and the values, as they are
    /// stored.
    pub fn values(&self) -> (r: (&[T], &[usize], &[U]))
        ensures
            r.0@ == self.indices@,
            r.1@ == self.indptr@,
            r.2@ == self.data@,
    {
        (self.indices.as_slice(), self.indptr.as_slice(), self.data.as_slice())
    }

    /// The number of rows: one less than the number of row pointers.
    #[inline]
    pub fn n_rows(&self) -> (n: usize)
        requires
            self.indptr@.len() >= 1,
        ensures
            n == self.row_count(),
    {
        self.indptr.len() - 1
    }

    /// The matrix as row maps, brought to `n_rows` rows, or left at its own
    /// number of rows if `n_rows` is `None`. Rows that the matrix does not have
    /// are empty; rows beyond `n_rows` are left out.
    pub fn to_dok(&self, n_rows: Option<usize>) -> (dok: DokMatrix<T, U>)
        requires
            self.wf(),
            lawful_index::<T>(),
        ensures
            dok@ == expanded_rows(
                self@,
                match n_rows {
                    Some(n) => n as nat,
                    None => self.row_count(),
                },
            ),
    {
        let mut data: Vec<FxHashMap<T, U>> = Vec::new();
        let n_rows = match n_rows {
            Some(n) => n,
            None => self.n_rows(),
        };
        let mut i: usize = 0;
        while i < n_rows
            invariant
                self.wf(),
                lawful_index::<T>(),
                i <= n_rows,
                data@.len() == i,
                forall|k: int|
                    0 <= k < i ==> (#[trigger] data@[k])@ == expanded_rows(self@, n_rows as nat)[k],
            decreases n_rows - i,
        {
            let mut row: FxHashMap<T, U> = FxHashMap::default();
            match get_row(self, i) {
                Some(cells) => {
                    write_cells(&mut row, &cells);
                },
                None => {},
            }
            data.push(row);
            i = i + 1;
        }
        let dok = DokMatrix { data };
        proof {
            assert(dok@ =~= expanded_rows(self@, n_rows as nat));
        }
        dok
    }

    /// Merges `other` into `this`: the result has `n_rows` rows, or as many
    /// as `this` if `n_rows` is `None`, and holds every cell of either matrix,
    /// with the value from `other` where both have the cell. Within each row
    /// of the result the cells stand by ascending column.
    ///
    /// Fails if one of the two is no matrix, and with
    /// [`MatrixError::RowOutOfBounds`] if `other` has more rows than the result
    /// is to have.
    pub fn add(this: &CsrMatrix<T, U>, other: &CsrMatrix<T, U>, n_rows: Option<usize>) -> (r:
        Result<CsrMatrix<T, U>, MatrixError>)
        requires
            lawful_index::<T>(),
        ensures
            match r {
                Ok(merged) => {
                    &&& Self::add_error(this, other, n_rows) is None
                    &&& merged.wf()
                    &&& merged.sorted()
                    &&& merged.row_count() == this.target_rows(n_rows)
                    &&& merged@ == merged_rows(this@, other@, this.target_rows(n_rows))
                },
                Err(e) => Self::add_error(this, other, n_rows) == Some(e),
            },
    {
        match this.validate() {
            Err(e) => {
                return Err(e);
            },
            Ok(_) => {},
        }
        match other.validate() {
            Err(e) => {
                return Err(e);
            },
            Ok(_) => {},
        }
        let mut dok_matrix = this.to_dok(n_rows);
        match dok_matrix.add(other) {
            Err(e) => Err(e),
            Ok(_) => {
                let merged = dok_matrix.to_csr();
                proof {
                    let n = this.target_rows(n_rows);
                    assert(merged_rows(expanded_rows(this@, n), other@, n) =~= merged_rows(
                        this@,
                        other@,
                        n,
                    ));
                }
                Ok(merged)
            },
        }
    }

    /// Starts a walk over the rows, at row 0.
    pub fn iter(&self) -> (it: CsrMatrixIterator<'_, T, U>)
        ensures
            it.matrix() == self,
            it.position() == 0,
    {
        CsrMatrixIterator { matrix: self, row_idx: 0 }
    }
}

/// A walk over the rows of a matrix, from row 0 upwards.
pub struct CsrMatrixIterator<'a, T, U> {
    matrix: &'a CsrMatrix<T, U>,
    row_idx: usize,
}

impl<'a, T, U> CsrMatrixIterator<'a, T, U> {
    /// The matrix that is walked.
    pub closed spec fn matrix(&self) -> &'a CsrMatrix<T, U> {
        self.matrix
    }

    /// The index of the row that comes next.
    pub closed spec fn position(&self) -> nat {
        self.row_idx as nat
    }
}

impl<'a, T: Copy + Eq + Hash + Ord, U: Copy> CsrMatrixIterator<'a, T, U> {
    /// The cells of the next row, which may be none, or `None` once every row
    /// has been handed out.
    pub fn next(&mut self) -> (r: Option<Vec<(T, U)>>)
        requires
            old(self).matrix().wf(),
        ensures
            final(self).matrix() == old(self).matrix(),
            match r {
                Some(cells) => {
                    &&& old(self).position() < old(self).matrix().row_count()
                    &&& cells@ == old(self).matrix().row_cells(old(self).position() as int)
                    &&& final(self).position() == old(self).position() + 1
                },
                None => {
                    &&& old(self).position() >= old(self).matrix().row_count()
                    &&& final(self).position() == old(self).position()
                },
            },
    {
        let sparse_row = get_row(self.matrix, self.row_idx);
        let n = self.matrix.indptr.len();
        if sparse_row.is_some() {
            assert(self.row_idx < n);
            self.row_idx = self.row_idx + 1;
        }
        sparse_row
    }
}

/// The cells of row `i` of the matrix, which may be none, or `None` if the
/// matrix has no row `i`.
pub fn get_row<T, U>(matrix: &CsrMatrix<T, U>, i: usize) -> (r: Option<Vec<(T, U)>>) where
    T: Copy + Eq + Hash + Ord,
    U: Copy,

    requires
        matrix.wf(),
    ensures
        match r {
            Some(cells) => i < matrix.row_count() && cells@ == matrix.row_cells(i as int),
            None => i >= matrix.row_count(),
        },
{
    if i >= matrix.n_rows() {
        return None;
    }
    let start = matrix.indptr[i];
    let end = matrix.indptr[i + 1];
    Some(index_iter(start, end, matrix.indices.as_slice(), matrix.data.as_slice()))
}

/// The cells at the positions `start..end` of `indices` and `data`, none if
/// `end` is not beyond `start`.
pub fn index_iter<T, U>(start: usize, end: usize, indices: &[T], data: &[U]) -> (cells: Vec<
    (T, U),
>) where T: Copy + Eq + Hash + Ord, U: Copy
    requires
        start < end ==> end <= indices@.len() && end <= data@.len(),
    ensures
        cells@ == span(indices@, data@, start as int, end as int),
{
    let mut cells: Vec<(T, U)> = Vec::new();
    let mut i = start;
    while i < end
        invariant
            start < end ==> start <= i <= end && end <= indices@.len() && end <= data@.len(),
            start >= end ==> i == start,
            cells@ == span(indices@, data@, start as int, i as int),
        decreases end - i,
    {
        cells.push((indices[i], data[i]));
        i = i + 1;
        proof {
            assert(cells@ =~= span(indices@, data@, start as int, i as int));
        }
    }
    proof {
        assert(cells@ =~= span(indices@, data@, start as int, end as int));
    }
    cells
}

/// Writes the cells into the row map from left to right.
fn write_cells<T: Copy + Eq + Hash + Ord, U: Copy>(row: &mut FxHashMap<T, U>, cells: &Vec<(T, U)>)
    requires
        lawful_index::<T>(),
    ensures
        final(row)@ == overlay(old(row)@, cells@),
{
    let mut j: usize = 0;
    while j < cells.len()
        invariant
            lawful_index::<T>(),
            j <= cells@.len(),
            row@ == overlay(old(row)@, cells@.take(j as int)),
        decreases cells@.len() - j,
    {
        let (idx, dat) = cells[j];
        row_insert(row, idx, dat);
        proof {
            lemma_overlay_push(old(row)@, cells@.take(j as int), cells@[j as int]);
            assert(cells@.take(j + 1) =~= cells@.take(j as int).push(cells@[j as int]));
        }
        j = j + 1;
    }
    proof {
        assert(cells@.take(j as int) =~= cells@);
    }
}

/// Storing one more row after those that are stored leaves them as they are,
/// and the three sequences describe a matrix as before.
proof fn lemma_row_appended<T, U>(
    indices: Seq<T>,
    data: Seq<U>,
    indptr: Seq<usize>,
    cells: Seq<(T, U)>,
)
    requires
        indices.len() == data.len(),
        pointers_fit(indptr, indices.len()),
        indices.len() + cells.len() <= usize::MAX,
    ensures
        ({
            let indices2 = indices + cells.map_values(|c: (T, U)| c.0);
            let data2 = data + cells.map_values(|c: (T, U)| c.1);
            let indptr2 = indptr.push((indices.len() + cells.len()) as usize);
            let r = indptr.len() - 1;
            &&& pointers_fit(indptr2, indices2.len())
            &&& span(indices2, data2, indptr2[r] as int, indptr2[r + 1] as int) == cells
            &&& forall|i: int|
                #![trigger indptr2[i]]
                0 <= i < r ==> span(indices2, data2, indptr2[i] as int, indptr2[i + 1] as int)
                    == span(indices, data, indptr[i] as int, indptr[i + 1] as int)
        }),
{
    let indices2 = indices + cells.map_values(|c: (T, U)| c.0);
    let data2 = data + cells.map_values(|c: (T, U)| c.1);
    let indptr2 = indptr.push((indices.len() + cells.len()) as usize);
    let r = indptr.len() - 1;
    assert forall|i: int, j: int| 0 <= i <= j < indptr2.len() implies indptr2[i] <= indptr2[j] by {
        if j == r + 1 {
            if i <= r {
                assert(indptr[i] <= indptr[r]);
            }
        } else {
            assert(indptr[i] <= indptr[j]);
        }
    }
    assert(span(indices2, data2, indptr2[r] as int, indptr2[r + 1] as int) =~= cells);
    assert forall|i: int| #![trigger indptr2[i]] 0 <= i < r implies span(
        indices2,
        data2,
        indptr2[i] as int,
        indptr2[i + 1] as int,
    ) == span(indices, data, indptr[i] as int, indptr[i + 1] as int) by {
        assert(indptr[i] <= indptr[i + 1] <= indptr[r]);
        assert(span(indices2, data2, indptr2[i] as int, indptr2[i + 1] as int) =~= span(
            indices,
            data,
            indptr[i] as int,
            indptr[i + 1] as int,
        ));
    }
}

/// Appends the cells' columns to `indices` and their values to `data`.
fn append_cells<T: Copy, U: Copy>(indices: &mut Vec<T>, data: &mut Vec<U>, cells: &Vec<(T, U)>)
    ensures
        final(indices)@ == old(indices)@ + cells@.map_values(|c: (T, U)| c.0),
        final(data)@ == old(data)@ + cells@.map_values(|c: (T, U)| c.1),
{
    let mut j: usize = 0;
    while j < cells.len()
        invariant
            j <= cells@.len(),
            indices@ == old(indices)@ + cells@.take(j as int).map_values(|c: (T, U)| c.0),
            data@ == old(data)@ + cells@.take(j as int).map_values(|c: (T, U)| c.1),
        decreases cells@.len() - j,
    {
        let (idx, dat) = cells[j];
        indices.push(idx);
        data.push(dat);
        j = j + 1;
        proof {
            assert(indices@ =~= old(indices)@ + cells@.take(j as int).map_values(
                |c: (T, U)| c.0,
            ));
            assert(data@ =~= old(data)@ + cells@.take(j as int).map_values(|c: (T, U)| c.1));
        }
    }
    proof {
        assert(cells@.take(j as int) =~= cells@);
    }
}

/// A sparse matrix as one map per row, from column to value: the form in
/// which cells are written.
pub struct DokMatrix<T, U> {
    data: Vec<FxHashMap<T, U>>,
}

impl<T, U> View for DokMatrix<T, U> {
    type V = Seq<Map<T, U>>;

    /// The matrix as a sequence of rows, each a map from column to value.
    closed spec fn view(&self) -> Seq<Map<T, U>> {
        Seq::new(self.data@.len(), |i: int| self.data@[i]@)
    }
}

impl<T, U> DokMatrix<T, U> where T: Copy + Eq + Hash + Ord, U: Copy {
    /// The number of rows.
    pub fn n_rows(&self) -> (n: usize)
        ensures
            n == self@.len(),
    {
        self.data.len()
    }

    /// Writes every cell of `other` into the same row of this matrix, where it
    /// replaces what the row held at that column. Nothing is written, and the
    /// merge refused, if `other` has more rows than this matrix.
    pub fn add(&mut self, other: &CsrMatrix<T, U>) -> (r: Result<(), MatrixError>)
        requires
            other.wf(),
            lawful_index::<T>(),
        ensures
            match r {
                Ok(_) => {
                    &&& other.row_count() <= old(self)@.len()
                    &&& final(self)@ == merged_rows(old(self)@, other@, old(self)@.len())
                },
                Err(e) => {
                    &&& other.row_count() > old(self)@.len()
                    &&& e == (MatrixError::RowOutOfBounds {
                        index: old(self)@.len() as usize,
                        len: old(self)@.len() as usize,
                    })
                    &&& final(self)@ == old(self)@
                },
            },
    {
        let len = self.data.len();
        if other.n_rows() > len {
            return Err(MatrixError::RowOutOfBounds { index: len, len });
        }
        let mut rows = other.iter();
        let mut i: usize = 0;
        loop
            invariant
                other.wf(),
                lawful_index::<T>(),
                rows.matrix() == other,
                rows.position() == i,
                i <= other.row_count() <= len,
                self.data@.len() == len,
                forall|k: int|
                    0 <= k < i ==> (#[trigger] self.data@[k])@ == old(self).data@[k]@.union_prefer_right(
                        other.row(k),
                    ),
                forall|k: int| i <= k < len ==> #[trigger] self.data@[k] == old(self).data@[k],
            ensures
                i == other.row_count(),
            decreases other.row_count() - i,
        {
            let cells = match rows.next() {
                Some(cells) => cells,
                None => {
                    break ;
                },
            };
            let ghost before = self.data@;
            write_cells(&mut self.data[i], &cells);
            proof {
                lemma_overlay_overrides(before[i as int]@, cells@);
            }
            i = i + 1;
        }
        proof {
            assert(self@ =~= merged_rows(old(self)@, other@, len as nat));
        }
        Ok(())
    }

    /// The matrix in compressed-row form. Every row has its pair of row
    /// pointers, an empty row two equal ones, and within each row the cells
    /// stand by ascending column.
    pub fn to_csr(&self) -> (csr: CsrMatrix<T, U>)
        requires
            lawful_index::<T>(),
        ensures
            csr.wf(),
            csr.sorted(),
            csr@ == self@,
    {
        let mut indices: Vec<T> = Vec::new();
        let mut indptr: Vec<usize> = vec![0];
        let mut data: Vec<U> = Vec::new();
        let mut r: usize = 0;
        while r < self.data.len()
            invariant
                lawful_index::<T>(),
                r <= self.data@.len(),
                indptr@.len() == r + 1,
                indices@.len() == data@.len(),
                pointers_fit(indptr@, indices@.len()),
                forall|i: int|
                    #![trigger indptr@[i]]
                    0 <= i < r ==> {
                        let cells = span(
                            indices@,
                            data@,
                            indptr@[i] as int,
                            indptr@[i + 1] as int,
                        );
                        strictly_ascending(cells) && cells_to_map(cells) == self.data@[i]@
                    },
            decreases self.data@.len() - r,
        {
            let cells = cells_of(&self.data[r]);
            let sorted = sort_cells(&cells);
            let ghost old_indices = indices@;
            let ghost old_data = data@;
            let ghost old_indptr = indptr@;
            append_cells(&mut indices, &mut data, &sorted);
            indptr.push(indices.len());
            proof {
                let row = self.data@[r as int]@;
                assert(lists(cells@, row));
                lemma_sorted_listing(cells@, sorted@, row);
                lemma_listed_row(sorted@, row);
                lemma_row_appended(old_indices, old_data, old_indptr, sorted@);
            }
            r = r + 1;
        }
        let csr = CsrMatrix { indices, indptr, data };
        proof {
            assert forall|i: int| 0 <= i < csr.row_count() implies strictly_ascending(
                #[trigger] csr.row_cells(i),
            ) by {
                let _ = csr.indptr@[i];
            }
            assert forall|i: int| 0 <= i < csr.row_count() implies #[trigger] csr@[i]
                == self@[i] by {
                let _ = csr.indptr@[i];
            }
            assert(csr@ =~= self@);
        }
        csr
    }
}

} // verus!
