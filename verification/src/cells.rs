//! Rows as sequences of cells, a cell being a column index with its value.

use crate::order::is_before;
use crate::order::lawful_index;
use crate::order::lemma_not_before_chain;
use crate::order::lemma_precedes_strict_total;
use crate::order::precedes;
use std::hash::Hash;
use vstd::prelude::*;
use vstd::seq_lib::lemma_multiset_commutative;
use vstd::seq_lib::to_multiset_build;

verus! {

/// From left to right the columns of `cells` never go down.
pub open spec fn ascending<T: Ord, U>(cells: Seq<(T, U)>) -> bool {
    forall|i: int, j: int| 0 <= i < j < cells.len() ==> !precedes(cells[j].0, cells[i].0)
}

/// From left to right the columns of `cells` go up.
pub open spec fn strictly_ascending<T: Ord, U>(cells: Seq<(T, U)>) -> bool {
    forall|i: int, j: int| 0 <= i < j < cells.len() ==> precedes(cells[i].0, cells[j].0)
}

/// No column occurs twice in `cells`.
pub open spec fn distinct_columns<T, U>(cells: Seq<(T, U)>) -> bool {
    forall|i: int, j: int| 0 <= i < j < cells.len() ==> cells[i].0 != cells[j].0
}

/// `base` after the cells have been written into it from left to right, so
/// that of two cells with one column the later one stays.
pub open spec fn overlay<T, U>(base: Map<T, U>, cells: Seq<(T, U)>) -> Map<T, U>
    decreases cells.len(),
{
    if cells.len() == 0 {
        base
    } else {
        overlay(base, cells.drop_last()).insert(cells.last().0, cells.last().1)
    }
}

/// The row that `cells` describe: a map from column to value.
pub open spec fn cells_to_map<T, U>(cells: Seq<(T, U)>) -> Map<T, U> {
    overlay(Map::empty(), cells)
}

/// Writing one more cell after `cells` writes it into what `cells` gave.
pub proof fn lemma_overlay_push<T, U>(base: Map<T, U>, cells: Seq<(T, U)>, cell: (T, U))
    ensures
        overlay(base, cells.push(cell)) == overlay(base, cells).insert(cell.0, cell.1),
{
    assert(cells.push(cell).drop_last() =~= cells);
}

/// Writing cells into a map gives the map overridden by the row that the
/// cells describe.
pub proof fn lemma_overlay_overrides<T, U>(base: Map<T, U>, cells: Seq<(T, U)>)
    ensures
        overlay(base, cells) == base.union_prefer_right(cells_to_map(cells)),
    decreases cells.len(),
{
    if cells.len() == 0 {
        assert(base =~= base.union_prefer_right(Map::empty()));
    } else {
        lemma_overlay_overrides(base, cells.drop_last());
        let rest = cells_to_map(cells.drop_last());
        let last = cells.last();
        assert(base.union_prefer_right(rest).insert(last.0, last.1) =~= base.union_prefer_right(
            rest.insert(last.0, last.1),
        ));
    }
}

/// `cells` list `row`: every cell is a cell of the row, every column of the
/// row has its cell, and no column has two.
pub open spec fn lists<T, U>(cells: Seq<(T, U)>, row: Map<T, U>) -> bool {
    &&& forall|j: int|
        0 <= j < cells.len() ==> row.contains_key(#[trigger] cells[j].0) && row[cells[j].0]
            == cells[j].1
    &&& forall|k: T| #[trigger]
        row.contains_key(k) ==> exists|j: int| 0 <= j < cells.len() && #[trigger] cells[j].0 == k
    &&& distinct_columns(cells)
}

/// The row that cells describe has exactly their columns.
pub proof fn lemma_row_columns<T, U>(cells: Seq<(T, U)>)
    ensures
        forall|k: T| #[trigger]
            cells_to_map(cells).contains_key(k) <==> exists|j: int|
                0 <= j < cells.len() && #[trigger] cells[j].0 == k,
    decreases cells.len(),
{
    if cells.len() > 0 {
        let rest = cells.drop_last();
        lemma_row_columns(rest);
        assert forall|k: T| #[trigger] cells_to_map(cells).contains_key(k) implies exists|j: int|
            0 <= j < cells.len() && #[trigger] cells[j].0 == k by {
            if k == cells.last().0 {
                assert(cells[cells.len() - 1].0 == k);
            } else {
                assert(cells_to_map(rest).contains_key(k));
                let j = choose|j: int| 0 <= j < rest.len() && #[trigger] rest[j].0 == k;
                assert(cells[j].0 == k);
            }
        }
        assert forall|k: T|
            (exists|j: int|
                0 <= j < cells.len() && #[trigger] cells[j].0 == k) implies #[trigger] cells_to_map(
            cells,
        ).contains_key(k) by {
            let j = choose|j: int| 0 <= j < cells.len() && #[trigger] cells[j].0 == k;
            if j < cells.len() - 1 {
                assert(rest[j].0 == k);
                assert(cells_to_map(rest).contains_key(k));
            }
        }
    }
}

/// Where no column occurs twice, the row that cells describe holds each
/// cell's value at its column.
pub proof fn lemma_row_values<T, U>(cells: Seq<(T, U)>)
    requires
        distinct_columns(cells),
    ensures
        forall|j: int|
            0 <= j < cells.len() ==> cells_to_map(cells).contains_key(#[trigger] cells[j].0)
                && cells_to_map(cells)[cells[j].0] == cells[j].1,
    decreases cells.len(),
{
    if cells.len() > 0 {
        let rest = cells.drop_last();
        assert(distinct_columns(rest)) by {
            assert forall|i: int, j: int| 0 <= i < j < rest.len() implies rest[i].0
                != rest[j].0 by {
                assert(rest[i] == cells[i] && rest[j] == cells[j]);
            }
        }
        lemma_row_values(rest);
        assert forall|j: int| 0 <= j < cells.len() implies cells_to_map(cells).contains_key(
            #[trigger] cells[j].0,
        ) && cells_to_map(cells)[cells[j].0] == cells[j].1 by {
            if j < cells.len() - 1 {
                assert(rest[j] == cells[j]);
                assert(cells[j].0 != cells[cells.len() - 1].0);
            }
        }
    }
}

/// Cells that list a row describe it.
pub proof fn lemma_listed_row<T, U>(cells: Seq<(T, U)>, row: Map<T, U>)
    requires
        lists(cells, row),
    ensures
        cells_to_map(cells) == row,
{
    lemma_row_columns(cells);
    lemma_row_values(cells);
    let described = cells_to_map(cells);
    assert forall|k: T| described.contains_key(k) <==> row.contains_key(k) by {
        if described.contains_key(k) {
            let j = choose|j: int| 0 <= j < cells.len() && #[trigger] cells[j].0 == k;
            assert(row.contains_key(cells[j].0));
        }
        if row.contains_key(k) {
            let j = choose|j: int| 0 <= j < cells.len() && #[trigger] cells[j].0 == k;
            assert(described.contains_key(cells[j].0));
        }
    }
    assert forall|k: T| described.contains_key(k) implies described[k] == row[k] by {
        let j = choose|j: int| 0 <= j < cells.len() && #[trigger] cells[j].0 == k;
        assert(described[cells[j].0] == cells[j].1);
        assert(row[cells[j].0] == cells[j].1);
    }
    assert(described =~= row);
}

/// Cells in ascending order that are a rearrangement of cells that list a
/// row list it too, and their columns go up.
pub proof fn lemma_sorted_listing<T: Ord + Hash, U>(
    cells: Seq<(T, U)>,
    sorted: Seq<(T, U)>,
    row: Map<T, U>,
)
    requires
        lawful_index::<T>(),
        lists(cells, row),
        ascending(sorted),
        sorted.to_multiset() == cells.to_multiset(),
    ensures
        lists(sorted, row),
        strictly_ascending(sorted),
{
    broadcast use vstd::seq_lib::to_multiset_contains;

    lemma_precedes_strict_total::<T>();
    assert forall|x: (T, U)| sorted.contains(x) <==> cells.contains(x) by {
        assert(sorted.contains(x) <==> sorted.to_multiset().count(x) > 0);
        assert(cells.contains(x) <==> cells.to_multiset().count(x) > 0);
    }
    assert forall|j: int| 0 <= j < sorted.len() implies row.contains_key(#[trigger] sorted[j].0)
        && row[sorted[j].0] == sorted[j].1 by {
        assert(sorted.contains(sorted[j]));
        assert(cells.contains(sorted[j]));
        let i = choose|i: int| 0 <= i < cells.len() && cells[i] == sorted[j];
        assert(row.contains_key(cells[i].0));
    }
    assert forall|k: T| #[trigger] row.contains_key(k) implies exists|j: int|
        0 <= j < sorted.len() && #[trigger] sorted[j].0 == k by {
        let i = choose|i: int| 0 <= i < cells.len() && #[trigger] cells[i].0 == k;
        assert(cells.contains(cells[i]));
        assert(sorted.contains(cells[i]));
        let j = choose|j: int| 0 <= j < sorted.len() && sorted[j] == cells[i];
        assert(sorted[j].0 == k);
    }
    assert(cells.no_duplicates()) by {
        assert forall|i: int, j: int| 0 <= i < cells.len() && 0 <= j < cells.len() && i
            != j implies cells[i] != cells[j] by {
            if i < j {
                assert(cells[i].0 != cells[j].0);
            } else {
                assert(cells[j].0 != cells[i].0);
            }
        }
    }
    cells.lemma_multiset_has_no_duplicates();
    sorted.lemma_multiset_has_no_duplicates_conv();
    assert forall|i: int, j: int| 0 <= i < j < sorted.len() implies precedes(
        sorted[i].0,
        sorted[j].0,
    ) by {
        assert(!precedes(sorted[j].0, sorted[i].0));
        if sorted[i].0 == sorted[j].0 {
            assert(row[sorted[i].0] == sorted[i].1);
            assert(row[sorted[j].0] == sorted[j].1);
            assert(sorted[i] == sorted[j]);
        }
    }
    assert forall|i: int, j: int| 0 <= i < j < sorted.len() implies sorted[i].0 != sorted[j].0 by {
        assert(precedes(sorted[i].0, sorted[j].0));
    }
}

/// Columns that go up do not repeat.
pub proof fn lemma_strictly_ascending_distinct<T: Ord + Hash, U>(cells: Seq<(T, U)>)
    requires
        lawful_index::<T>(),
        strictly_ascending(cells),
    ensures
        distinct_columns(cells),
{
    lemma_precedes_strict_total::<T>();
    assert forall|i: int, j: int| 0 <= i < j < cells.len() implies cells[i].0 != cells[j].0 by {
        assert(precedes(cells[i].0, cells[j].0));
    }
}

/// A row is described by one sequence of cells with columns that go up, and
/// no other.
pub proof fn lemma_strictly_ascending_unique<T: Ord + Hash, U>(a: Seq<(T, U)>, b: Seq<(T, U)>)
    requires
        lawful_index::<T>(),
        strictly_ascending(a),
        strictly_ascending(b),
        cells_to_map(a) == cells_to_map(b),
    ensures
        a == b,
    decreases a.len(),
{
    lemma_precedes_strict_total::<T>();
    lemma_strictly_ascending_distinct(a);
    lemma_strictly_ascending_distinct(b);
    lemma_row_columns(a);
    lemma_row_columns(b);
    lemma_row_values(a);
    lemma_row_values(b);
    let row = cells_to_map(a);
    if a.len() == 0 {
        if b.len() > 0 {
            assert(row.contains_key(b[0].0));
        }
        assert(a =~= b);
    } else if b.len() == 0 {
        assert(row.contains_key(a[0].0));
    } else {
        let la = a.len() - 1;
        let lb = b.len() - 1;
        assert(row.contains_key(a[la].0));
        assert(row.contains_key(b[lb].0));
        let j = choose|j: int| 0 <= j < b.len() && #[trigger] b[j].0 == a[la].0;
        let i = choose|i: int| 0 <= i < a.len() && #[trigger] a[i].0 == b[lb].0;
        if a[la].0 != b[lb].0 {
            assert(precedes(b[j].0, b[lb].0));
            assert(precedes(a[i].0, a[la].0));
        }
        assert(row[a[la].0] == a[la].1);
        assert(row[b[lb].0] == b[lb].1);
        assert(a[la] == b[lb]);
        let ra = a.drop_last();
        let rb = b.drop_last();
        assert(strictly_ascending(ra)) by {
            assert forall|i: int, j: int| 0 <= i < j < ra.len() implies precedes(
                ra[i].0,
                ra[j].0,
            ) by {
                assert(ra[i] == a[i] && ra[j] == a[j]);
            }
        }
        assert(strictly_ascending(rb)) by {
            assert forall|i: int, j: int| 0 <= i < j < rb.len() implies precedes(
                rb[i].0,
                rb[j].0,
            ) by {
                assert(rb[i] == b[i] && rb[j] == b[j]);
            }
        }
        lemma_row_columns(ra);
        lemma_row_columns(rb);
        assert(!cells_to_map(ra).contains_key(a[la].0)) by {
            if cells_to_map(ra).contains_key(a[la].0) {
                let k = choose|k: int| 0 <= k < ra.len() && #[trigger] ra[k].0 == a[la].0;
                assert(a[k].0 == ra[k].0);
            }
        }
        assert(!cells_to_map(rb).contains_key(b[lb].0)) by {
            if cells_to_map(rb).contains_key(b[lb].0) {
                let k = choose|k: int| 0 <= k < rb.len() && #[trigger] rb[k].0 == b[lb].0;
                assert(b[k].0 == rb[k].0);
            }
        }
        assert(cells_to_map(ra) =~= row.remove(a[la].0));
        assert(cells_to_map(rb) =~= row.remove(b[lb].0));
        lemma_strictly_ascending_unique(ra, rb);
        assert(a =~= ra.push(a[la]));
        assert(b =~= rb.push(b[lb]));
    }
}

/// Two sequences of cells that describe one row, neither with a column
/// twice, hold the same cells.
pub proof fn lemma_same_row_same_cells<T, U>(a: Seq<(T, U)>, b: Seq<(T, U)>)
    requires
        distinct_columns(a),
        distinct_columns(b),
        cells_to_map(a) == cells_to_map(b),
    ensures
        a.to_multiset() == b.to_multiset(),
{
    broadcast use vstd::seq_lib::to_multiset_contains;

    lemma_row_columns(a);
    lemma_row_columns(b);
    lemma_row_values(a);
    lemma_row_values(b);
    let row = cells_to_map(a);
    assert(a.no_duplicates()) by {
        assert forall|i: int, j: int| 0 <= i < a.len() && 0 <= j < a.len() && i != j implies a[i]
            != a[j] by {
            if i < j {
                assert(a[i].0 != a[j].0);
            } else {
                assert(a[j].0 != a[i].0);
            }
        }
    }
    assert(b.no_duplicates()) by {
        assert forall|i: int, j: int| 0 <= i < b.len() && 0 <= j < b.len() && i != j implies b[i]
            != b[j] by {
            if i < j {
                assert(b[i].0 != b[j].0);
            } else {
                assert(b[j].0 != b[i].0);
            }
        }
    }
    a.lemma_multiset_has_no_duplicates();
    b.lemma_multiset_has_no_duplicates();
    assert forall|x: (T, U)| a.to_multiset().count(x) == b.to_multiset().count(x) by {
        assert(a.contains(x) <==> a.to_multiset().count(x) > 0);
        assert(b.contains(x) <==> b.to_multiset().count(x) > 0);
        if a.contains(x) {
            let i = choose|i: int| 0 <= i < a.len() && a[i] == x;
            assert(row.contains_key(a[i].0) && row[a[i].0] == a[i].1);
            let j = choose|j: int| 0 <= j < b.len() && #[trigger] b[j].0 == x.0;
            assert(row[b[j].0] == b[j].1);
            assert(b[j] == x);
            assert(b.contains(x));
        }
        if b.contains(x) {
            let j = choose|j: int| 0 <= j < b.len() && b[j] == x;
            assert(row.contains_key(b[j].0) && row[b[j].0] == b[j].1);
            let i = choose|i: int| 0 <= i < a.len() && #[trigger] a[i].0 == x.0;
            assert(row[a[i].0] == a[i].1);
            assert(a[i] == x);
            assert(a.contains(x));
        }
        assert(a.to_multiset().contains(x) <==> a.to_multiset().count(x) > 0);
        assert(b.to_multiset().contains(x) <==> b.to_multiset().count(x) > 0);
    }
    assert(a.to_multiset() =~= b.to_multiset());
}

/// Merges two ascending runs of cells into one.
fn merge_runs<T: Copy + Ord + Hash, U: Copy>(a: &Vec<(T, U)>, b: &Vec<(T, U)>) -> (out: Vec<
    (T, U),
>)
    requires
        lawful_index::<T>(),
        ascending(a@),
        ascending(b@),
    ensures
        ascending(out@),
        out@.to_multiset() == a@.to_multiset().add(b@.to_multiset()),
{
    broadcast use vstd::multiset::group_multiset_axioms;

    let mut out: Vec<(T, U)> = Vec::new();
    let mut i: usize = 0;
    let mut j: usize = 0;
    proof {
        a@.take(0).to_multiset_ensures();
        b@.take(0).to_multiset_ensures();
        out@.to_multiset_ensures();
        assert(out@.to_multiset() =~= a@.take(0).to_multiset().add(b@.take(0).to_multiset()));
    }
    while i < a.len() || j < b.len()
        invariant
            lawful_index::<T>(),
            ascending(a@),
            ascending(b@),
            ascending(out@),
            i <= a.len(),
            j <= b.len(),
            out@.to_multiset() == a@.take(i as int).to_multiset().add(
                b@.take(j as int).to_multiset(),
            ),
            forall|p: int, q: int|
                0 <= p < out@.len() && i <= q < a@.len() ==> !precedes(a@[q].0, out@[p].0),
            forall|p: int, q: int|
                0 <= p < out@.len() && j <= q < b@.len() ==> !precedes(b@[q].0, out@[p].0),
        decreases a.len() - i + b.len() - j,
    {
        let from_a = if i >= a.len() {
            false
        } else if j >= b.len() {
            true
        } else {
            !is_before(&b[j].0, &a[i].0)
        };
        let ghost before = out@;
        if from_a {
            let cell = a[i];
            out.push(cell);
            proof {
                assert(a@.take(i + 1) =~= a@.take(i as int).push(cell));
                assert(out@ =~= before.push(cell));
                to_multiset_build(before, cell);
                to_multiset_build(a@.take(i as int), cell);
                assert(out@.to_multiset() =~= a@.take(i + 1).to_multiset().add(
                    b@.take(j as int).to_multiset(),
                ));
                assert forall|p: int, q: int|
                    0 <= p < out@.len() && j <= q < b@.len() implies !precedes(
                    b@[q].0,
                    out@[p].0,
                ) by {
                    if p == before.len() {
                        if q > j {
                            lemma_not_before_chain(cell.0, b@[j as int].0, b@[q].0);
                        }
                    } else {
                        assert(out@[p] == before[p]);
                    }
                }
                assert forall|p: int, q: int|
                    0 <= p < out@.len() && i + 1 <= q < a@.len() implies !precedes(
                    a@[q].0,
                    out@[p].0,
                ) by {
                    if p < before.len() {
                        assert(out@[p] == before[p]);
                    }
                }
                assert forall|p: int, q: int| 0 <= p < q < out@.len() implies !precedes(
                    out@[q].0,
                    out@[p].0,
                ) by {
                    if q < before.len() {
                        assert(out@[p] == before[p] && out@[q] == before[q]);
                    } else {
                        assert(out@[p] == before[p]);
                    }
                }
            }
            i = i + 1;
        } else {
            let cell = b[j];
            out.push(cell);
            proof {
                lemma_precedes_strict_total::<T>();
                assert(b@.take(j + 1) =~= b@.take(j as int).push(cell));
                assert(out@ =~= before.push(cell));
                to_multiset_build(before, cell);
                to_multiset_build(b@.take(j as int), cell);
                assert(out@.to_multiset() =~= a@.take(i as int).to_multiset().add(
                    b@.take(j + 1).to_multiset(),
                ));
                assert forall|p: int, q: int|
                    0 <= p < out@.len() && i <= q < a@.len() implies !precedes(
                    a@[q].0,
                    out@[p].0,
                ) by {
                    if p == before.len() {
                        assert(precedes(cell.0, a@[i as int].0));
                        if q > i {
                            lemma_not_before_chain(cell.0, a@[i as int].0, a@[q].0);
                        }
                    } else {
                        assert(out@[p] == before[p]);
                    }
                }
                assert forall|p: int, q: int|
                    0 <= p < out@.len() && j + 1 <= q < b@.len() implies !precedes(
                    b@[q].0,
                    out@[p].0,
                ) by {
                    if p < before.len() {
                        assert(out@[p] == before[p]);
                    }
                }
                assert forall|p: int, q: int| 0 <= p < q < out@.len() implies !precedes(
                    out@[q].0,
                    out@[p].0,
                ) by {
                    if q < before.len() {
                        assert(out@[p] == before[p] && out@[q] == before[q]);
                    } else {
                        assert(out@[p] == before[p]);
                    }
                }
            }
            j = j + 1;
        }
    }
    proof {
        assert(a@.take(i as int) =~= a@);
        assert(b@.take(j as int) =~= b@);
    }
    out
}

/// Sorts the cells at positions `lo..hi` of `cells` by column.
fn sort_range<T: Copy + Ord + Hash, U: Copy>(cells: &Vec<(T, U)>, lo: usize, hi: usize) -> (out:
    Vec<(T, U)>)
    requires
        lawful_index::<T>(),
        lo <= hi <= cells@.len(),
    ensures
        ascending(out@),
        out@.to_multiset() == cells@.subrange(lo as int, hi as int).to_multiset(),
    decreases hi - lo,
{
    if hi - lo <= 1 {
        let mut out: Vec<(T, U)> = Vec::new();
        if lo < hi {
            out.push(cells[lo]);
        }
        proof {
            assert(out@ =~= cells@.subrange(lo as int, hi as int));
        }
        out
    } else {
        let mid: usize = lo + (hi - lo) / 2;
        let left = sort_range(cells, lo, mid);
        let right = sort_range(cells, mid, hi);
        proof {
            let l = cells@.subrange(lo as int, mid as int);
            let r = cells@.subrange(mid as int, hi as int);
            assert(cells@.subrange(lo as int, hi as int) =~= l + r);
            lemma_multiset_commutative(l, r);
        }
        merge_runs(&left, &right)
    }
}

/// Sorts cells by column, ascending. The result holds the same cells, each as
/// often as `cells` does.
pub fn sort_cells<T: Copy + Ord + Hash, U: Copy>(cells: &Vec<(T, U)>) -> (out: Vec<(T, U)>)
    requires
        lawful_index::<T>(),
    ensures
        ascending(out@),
        out@.to_multiset() == cells@.to_multiset(),
{
    proof {
        assert(cells@.subrange(0, cells@.len() as int) =~= cells@);
    }
    sort_range(cells, 0, cells.len())
}

} // verus!
