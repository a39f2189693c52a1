use sparse_merge::CsrMatrix;
use sparse_merge::MatrixError;

fn base() -> CsrMatrix<i32, i32> {
    // [[1, 0, 0], [0, 0, 1]]
    CsrMatrix {
        indices: vec![0, 2],
        indptr: vec![0, 1, 2],
        data: vec![1, 1],
    }
}

fn large() -> CsrMatrix<i32, i32> {
    // [[0, 0, 0], [1, 0, 2], [3, 3, 0]]
    CsrMatrix {
        indices: vec![0, 2, 0, 1],
        indptr: vec![0, 0, 2, 4],
        data: vec![1, 2, 3, 3],
    }
}

#[test]
fn test_add_sparse_matrix() {
    // [[1, 0, 0], [0, 0, 1]]
    let mut matrix = CsrMatrix {
        indices: vec![0, 2],
        indptr: vec![0, 1, 2],
        data: vec![1, 1],
    };
    // [[0, 0, 0], [1, 0, 2], [3, 3, 0]]
    let matrix_large = CsrMatrix {
        indices: vec![0, 2, 0, 1],
        indptr: vec![0, 0, 2, 4],
        data: vec![1, 2, 3, 3],
    };
    // [[2, 0, 4]]
    let matrix_small = CsrMatrix {
        indices: vec![0, 2],
        indptr: vec![0, 2],
        data: vec![2, 4],
    };

    // [[1, 0, 0], [1, 0, 2], [3, 3, 0]]
    matrix = CsrMatrix::add(&matrix, &matrix_large, Some(3)).unwrap();
    assert_eq!(matrix.indices, vec![0, 0, 2, 0, 1]);
    assert_eq!(matrix.indptr, vec![0, 1, 3, 5]);
    assert_eq!(matrix.data, vec![1, 1, 2, 3, 3]);

    // [[2, 0, 4], [1, 0, 2], [3, 3, 0]]
    matrix = CsrMatrix::add(&matrix, &matrix_small, Some(3)).unwrap();
    assert_eq!(matrix.indices, vec![0, 2, 0, 2, 0, 1]);
    assert_eq!(matrix.indptr, vec![0, 2, 4, 6]);
    assert_eq!(matrix.data, vec![2, 4, 1, 2, 3, 3]);
}

#[test]
fn add_rejects_incoming_rows_beyond_the_target() {
    let r = CsrMatrix::add(&base(), &large(), Some(2));
    assert_eq!(
        r.unwrap_err(),
        MatrixError::RowOutOfBounds { index: 2, len: 2 }
    );
}

#[test]
fn add_rejects_incoming_rows_beyond_the_base_without_target() {
    let r = CsrMatrix::add(&base(), &large(), None);
    assert_eq!(
        r.unwrap_err(),
        MatrixError::RowOutOfBounds { index: 2, len: 2 }
    );
}

#[test]
fn add_rejects_an_empty_trailing_row_beyond_the_target() {
    // Two rows, the second one empty: it is a row all the same.
    let incoming: CsrMatrix<i32, i32> = CsrMatrix {
        indices: vec![1],
        indptr: vec![0, 1, 1],
        data: vec![9],
    };
    let one_row: CsrMatrix<i32, i32> = CsrMatrix {
        indices: vec![0],
        indptr: vec![0, 1],
        data: vec![5],
    };
    let r = CsrMatrix::add(&one_row, &incoming, None);
    assert_eq!(
        r.unwrap_err(),
        MatrixError::RowOutOfBounds { index: 1, len: 1 }
    );
}

#[test]
fn add_overrides_shared_cells_and_does_not_sum() {
    let a: CsrMatrix<u32, i64> = CsrMatrix {
        indices: vec![1, 3],
        indptr: vec![0, 2],
        data: vec![10, 30],
    };
    let b: CsrMatrix<u32, i64> = CsrMatrix {
        indices: vec![3, 4],
        indptr: vec![0, 2],
        data: vec![7, 8],
    };
    let m = CsrMatrix::add(&a, &b, None).unwrap();
    assert_eq!(m.indices, vec![1, 3, 4]);
    assert_eq!(m.indptr, vec![0, 3]);
    assert_eq!(m.data, vec![10, 7, 8]);
}

#[test]
fn add_grows_to_the_target_and_fills_new_rows_from_incoming() {
    let a: CsrMatrix<i32, i32> = CsrMatrix {
        indices: vec![0],
        indptr: vec![0, 1],
        data: vec![1],
    };
    let b: CsrMatrix<i32, i32> = CsrMatrix {
        indices: vec![4, 2],
        indptr: vec![0, 0, 0, 2],
        data: vec![40, 20],
    };
    let m = CsrMatrix::add(&a, &b, Some(5)).unwrap();
    assert_eq!(m.n_rows(), 5);
    assert_eq!(m.indptr, vec![0, 1, 1, 3, 3, 3]);
    assert_eq!(m.indices, vec![0, 2, 4]);
    assert_eq!(m.data, vec![1, 20, 40]);
}

#[test]
fn add_keeps_rows_that_follow_an_empty_incoming_row() {
    let a: CsrMatrix<i32, i32> = CsrMatrix {
        indices: vec![],
        indptr: vec![0, 0, 0, 0, 0],
        data: vec![],
    };
    let b: CsrMatrix<i32, i32> = CsrMatrix {
        indices: vec![1, 2, 3],
        indptr: vec![0, 0, 1, 2, 3],
        data: vec![11, 22, 33],
    };
    let m = CsrMatrix::add(&a, &b, None).unwrap();
    assert_eq!(m.indptr, vec![0, 0, 1, 2, 3]);
    assert_eq!(m.indices, vec![1, 2, 3]);
    assert_eq!(m.data, vec![11, 22, 33]);
}

#[test]
fn add_keeps_the_pointers_of_empty_rows_in_the_middle() {
    let a: CsrMatrix<i32, i32> = CsrMatrix {
        indices: vec![5, 6],
        indptr: vec![0, 1, 1, 2],
        data: vec![50, 60],
    };
    let b: CsrMatrix<i32, i32> = CsrMatrix {
        indices: vec![],
        indptr: vec![0],
        data: vec![],
    };
    let m = CsrMatrix::add(&a, &b, None).unwrap();
    assert_eq!(m.indptr, vec![0, 1, 1, 2]);
    assert_eq!(m.indices, vec![5, 6]);
    assert_eq!(m.data, vec![50, 60]);
}

#[test]
fn add_to_fewer_rows_than_the_base_leaves_the_rest_out() {
    let b: CsrMatrix<i32, i32> = CsrMatrix {
        indices: vec![1],
        indptr: vec![0, 1],
        data: vec![7],
    };
    let m = CsrMatrix::add(&base(), &b, Some(1)).unwrap();
    assert_eq!(m.indptr, vec![0, 2]);
    assert_eq!(m.indices, vec![0, 1]);
    assert_eq!(m.data, vec![1, 7]);
}

#[test]
fn add_to_zero_rows_gives_the_empty_matrix() {
    let b: CsrMatrix<i32, i32> = CsrMatrix {
        indices: vec![],
        indptr: vec![0],
        data: vec![],
    };
    let m = CsrMatrix::add(&base(), &b, Some(0)).unwrap();
    assert_eq!(m.indptr, vec![0]);
    assert!(m.indices.is_empty());
    assert!(m.data.is_empty());
}

#[test]
fn add_sorts_each_row_by_column() {
    let a: CsrMatrix<i32, i32> = CsrMatrix {
        indices: vec![9, -3, 4, 0],
        indptr: vec![0, 4],
        data: vec![90, -30, 40, 0],
    };
    let b: CsrMatrix<i32, i32> = CsrMatrix {
        indices: vec![7, -8],
        indptr: vec![0, 2],
        data: vec![70, -80],
    };
    let m = CsrMatrix::add(&a, &b, None).unwrap();
    assert_eq!(m.indices, vec![-8, -3, 0, 4, 7, 9]);
    assert_eq!(m.data, vec![-80, -30, 0, 40, 70, 90]);
    assert_eq!(m.indptr, vec![0, 6]);
}

#[test]
fn add_takes_the_later_of_two_incoming_cells_with_one_column() {
    let a: CsrMatrix<i32, i32> = CsrMatrix {
        indices: vec![2],
        indptr: vec![0, 1],
        data: vec![1],
    };
    let b: CsrMatrix<i32, i32> = CsrMatrix {
        indices: vec![2, 2],
        indptr: vec![0, 2],
        data: vec![5, 6],
    };
    let m = CsrMatrix::add(&a, &b, None).unwrap();
    assert_eq!(m.indices, vec![2]);
    assert_eq!(m.data, vec![6]);
    assert_eq!(m.indptr, vec![0, 1]);
}

#[test]
fn add_rejects_a_malformed_base() {
    let bad: CsrMatrix<i32, i32> = CsrMatrix {
        indices: vec![0, 2],
        indptr: vec![0, 2, 1, 2],
        data: vec![1, 1],
    };
    assert_eq!(
        CsrMatrix::add(&bad, &base(), None).unwrap_err(),
        MatrixError::MalformedRowPointers
    );
}

#[test]
fn add_rejects_a_malformed_incoming_matrix() {
    let bad: CsrMatrix<i32, i32> = CsrMatrix {
        indices: vec![0, 2],
        indptr: vec![0, 1, 2],
        data: vec![1],
    };
    assert_eq!(
        CsrMatrix::add(&base(), &bad, None).unwrap_err(),
        MatrixError::LengthMismatch
    );
}

#[test]
fn add_reports_the_base_before_the_incoming_matrix_and_the_rows() {
    let bad_lengths: CsrMatrix<i32, i32> = CsrMatrix {
        indices: vec![0],
        indptr: vec![0, 1],
        data: vec![],
    };
    let bad_pointers: CsrMatrix<i32, i32> = CsrMatrix {
        indices: vec![0],
        indptr: vec![1, 1, 1, 1],
        data: vec![3],
    };
    assert_eq!(
        CsrMatrix::add(&bad_lengths, &bad_pointers, Some(1)).unwrap_err(),
        MatrixError::LengthMismatch
    );
    assert_eq!(
        CsrMatrix::add(&bad_pointers, &bad_lengths, Some(1)).unwrap_err(),
        MatrixError::MalformedRowPointers
    );
}

#[test]
fn add_works_on_other_index_and_value_types() {
    let a: CsrMatrix<usize, char> = CsrMatrix {
        indices: vec![3, 1],
        indptr: vec![0, 2],
        data: vec!['c', 'a'],
    };
    let b: CsrMatrix<usize, char> = CsrMatrix {
        indices: vec![2, 3],
        indptr: vec![0, 1, 2],
        data: vec!['b', 'z'],
    };
    let m = CsrMatrix::add(&a, &b, Some(2)).unwrap();
    assert_eq!(m.indices, vec![1, 2, 3, 3]);
    assert_eq!(m.data, vec!['a', 'b', 'c', 'z']);
    assert_eq!(m.indptr, vec![0, 3, 4]);
}
