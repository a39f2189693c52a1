use sparse_merge::cells::sort_cells;
use sparse_merge::order::is_before;
use sparse_merge::sparse::get_row;
use sparse_merge::sparse::index_iter;
use sparse_merge::CsrMatrix;
use sparse_merge::MatrixError;

fn sample() -> CsrMatrix<i32, i32> {
    // [[0, 0, 0], [1, 0, 2], [3, 3, 0]]
    CsrMatrix {
        indices: vec![0, 2, 0, 1],
        indptr: vec![0, 0, 2, 4],
        data: vec![1, 2, 3, 3],
    }
}

#[test]
fn values_hands_out_the_three_sequences() {
    let m = sample();
    let (indices, indptr, data) = m.values();
    assert_eq!(indices, &[0, 2, 0, 1][..]);
    assert_eq!(indptr, &[0usize, 0, 2, 4][..]);
    assert_eq!(data, &[1, 2, 3, 3][..]);
}

#[test]
fn n_rows_is_one_less_than_the_pointers() {
    assert_eq!(sample().n_rows(), 3);
    let none: CsrMatrix<i32, i32> = CsrMatrix {
        indices: vec![],
        indptr: vec![0],
        data: vec![],
    };
    assert_eq!(none.n_rows(), 0);
}

#[test]
fn get_row_tells_an_empty_row_from_no_row() {
    let m = sample();
    assert_eq!(get_row(&m, 0), Some(vec![]));
    assert_eq!(get_row(&m, 1), Some(vec![(0, 1), (2, 2)]));
    assert_eq!(get_row(&m, 2), Some(vec![(0, 3), (1, 3)]));
    assert_eq!(get_row(&m, 3), None);
    assert_eq!(get_row(&m, usize::MAX), None);
}

#[test]
fn index_iter_pairs_columns_with_values() {
    let indices = [10, 20, 30, 40];
    let data = ['a', 'b', 'c', 'd'];
    assert_eq!(
        index_iter(1, 3, &indices, &data),
        vec![(20, 'b'), (30, 'c')]
    );
    assert_eq!(index_iter(0, 4, &indices, &data).len(), 4);
    assert_eq!(index_iter(2, 2, &indices, &data), vec![]);
    assert_eq!(index_iter(3, 1, &indices, &data), vec![]);
    assert_eq!(index_iter(9, 9, &indices, &data), vec![]);
}

#[test]
fn iter_walks_every_row_and_then_stops() {
    let m = sample();
    let mut it = m.iter();
    assert_eq!(it.next(), Some(vec![]));
    assert_eq!(it.next(), Some(vec![(0, 1), (2, 2)]));
    assert_eq!(it.next(), Some(vec![(0, 3), (1, 3)]));
    assert_eq!(it.next(), None);
    assert_eq!(it.next(), None);
}

#[test]
fn iter_over_no_rows_stops_at_once() {
    let none: CsrMatrix<i32, i32> = CsrMatrix {
        indices: vec![],
        indptr: vec![0],
        data: vec![],
    };
    assert_eq!(none.iter().next(), None);
}

#[test]
fn validate_accepts_a_matrix() {
    assert_eq!(sample().validate(), Ok(()));
    let none: CsrMatrix<i32, i32> = CsrMatrix {
        indices: vec![],
        indptr: vec![0],
        data: vec![],
    };
    assert_eq!(none.validate(), Ok(()));
}

#[test]
fn validate_rejects_unequal_lengths() {
    let m: CsrMatrix<i32, i32> = CsrMatrix {
        indices: vec![0, 1],
        indptr: vec![0, 2],
        data: vec![1, 2, 3],
    };
    assert_eq!(m.validate(), Err(MatrixError::LengthMismatch));
}

#[test]
fn validate_rejects_missing_pointers() {
    let m: CsrMatrix<i32, i32> = CsrMatrix {
        indices: vec![],
        indptr: vec![],
        data: vec![],
    };
    assert_eq!(m.validate(), Err(MatrixError::MalformedRowPointers));
}

#[test]
fn validate_rejects_a_first_pointer_that_is_not_zero() {
    let m: CsrMatrix<i32, i32> = CsrMatrix {
        indices: vec![0, 1],
        indptr: vec![1, 2],
        data: vec![1, 2],
    };
    assert_eq!(m.validate(), Err(MatrixError::MalformedRowPointers));
}

#[test]
fn validate_rejects_pointers_that_go_down() {
    let m: CsrMatrix<i32, i32> = CsrMatrix {
        indices: vec![0, 1, 2],
        indptr: vec![0, 2, 1, 3],
        data: vec![1, 2, 3],
    };
    assert_eq!(m.validate(), Err(MatrixError::MalformedRowPointers));
}

#[test]
fn validate_rejects_a_last_pointer_off_the_end() {
    let beyond: CsrMatrix<i32, i32> = CsrMatrix {
        indices: vec![0, 1],
        indptr: vec![0, 1, 3],
        data: vec![1, 2],
    };
    assert_eq!(beyond.validate(), Err(MatrixError::MalformedRowPointers));
    let short: CsrMatrix<i32, i32> = CsrMatrix {
        indices: vec![0, 1],
        indptr: vec![0, 1],
        data: vec![1, 2],
    };
    assert_eq!(short.validate(), Err(MatrixError::MalformedRowPointers));
}

#[test]
fn sort_cells_orders_by_column_and_keeps_every_cell() {
    let cells = vec![(5, 'e'), (1, 'a'), (4, 'd'), (2, 'b'), (3, 'c'), (0, 'z')];
    assert_eq!(
        sort_cells(&cells),
        vec![(0, 'z'), (1, 'a'), (2, 'b'), (3, 'c'), (4, 'd'), (5, 'e')]
    );
    let none: Vec<(u8, u8)> = vec![];
    assert_eq!(sort_cells(&none), vec![]);
    assert_eq!(sort_cells(&vec![(7u64, 1u8)]), vec![(7, 1)]);
}

#[test]
fn sort_cells_keeps_cells_with_equal_columns() {
    let mut sorted = sort_cells(&vec![(2, 'x'), (1, 'y'), (2, 'z'), (1, 'w')]);
    let columns: Vec<i32> = sorted.iter().map(|c| c.0).collect();
    assert_eq!(columns, vec![1, 1, 2, 2]);
    sorted.sort();
    assert_eq!(sorted, vec![(1, 'w'), (1, 'y'), (2, 'x'), (2, 'z')]);
}

#[test]
fn is_before_is_the_strict_order() {
    assert!(is_before(&1, &2));
    assert!(!is_before(&2, &1));
    assert!(!is_before(&2, &2));
    assert!(is_before(&-5i64, &0i64));
}

#[test]
fn new_keeps_the_sequences_of_a_matrix() {
    let m: CsrMatrix<i32, i32> =
        CsrMatrix::new(vec![0, 2, 0, 1], vec![0, 0, 2, 4], vec![1, 2, 3, 3]).unwrap();
    assert_eq!(m.indices, vec![0, 2, 0, 1]);
    assert_eq!(m.indptr, vec![0, 0, 2, 4]);
    assert_eq!(m.data, vec![1, 2, 3, 3]);
}

#[test]
fn new_rejects_what_is_no_matrix() {
    let lengths: Result<CsrMatrix<i32, i32>, MatrixError> =
        CsrMatrix::new(vec![0, 2], vec![0, 1, 2], vec![1]);
    assert_eq!(lengths.unwrap_err(), MatrixError::LengthMismatch);
    let pointers: Result<CsrMatrix<i32, i32>, MatrixError> =
        CsrMatrix::new(vec![0, 2], vec![0, 3], vec![1, 1]);
    assert_eq!(pointers.unwrap_err(), MatrixError::MalformedRowPointers);
}
