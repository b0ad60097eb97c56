use sparse_graph::ConversionError;
use sparse_graph::CooGraphStorage;
use sparse_graph::CscGraph;
use sparse_graph::CscGraphStorage;
use sparse_graph::CsrGraph;
use sparse_graph::CsrGraphStorage;
use sparse_graph::SparseGraphStorage;
use sparse_graph::ind2ptr;

#[test]
fn test_ind2ptr() {
    let m: i64 = 10;
    let input: Vec<i64> = vec![3, 3, 3, 4, 4, 7, 7, 8, 8];
    let output: Vec<i64> = vec![0, 0, 0, 0, 3, 5, 5, 5, 7, 9, 9];

    let result = ind2ptr(&input, m);

    assert_eq!(output, result);
}

#[test]
fn test_to_csc() {
    let m: i64 = 10;
    let row_col: Vec<i64> = vec![1, 2, 3, 4, 9, 5, 6, 7, 0, 0, 0, 1, 4, 1, 2, 2];
    let coo_graph_data = CooGraphStorage::new(row_col, (m, m));

    let result = CscGraphStorage::try_from(&coo_graph_data).unwrap();
    let graph = CscGraph::try_from(&result).unwrap();

    assert_eq!(graph.in_degree(0), 3);
    assert_eq!(graph.in_degree(1), 2);
    assert_eq!(graph.in_degree(4), 1);
    assert_eq!(graph.in_degree(2), 2);
    assert_eq!(graph.neighbors_slice(0), [1, 2, 3]);
    assert_eq!(graph.neighbors_slice(1), [4, 5]);
}

#[test]
fn test_ind2ptr_single_entry() {
    let input: Vec<i64> = vec![0];
    assert_eq!(ind2ptr(&input, 1), vec![0, 1]);
    let input2: Vec<i64> = vec![2];
    assert_eq!(ind2ptr(&input2, 4), vec![0, 0, 0, 1, 1]);
}

#[test]
fn test_ind2ptr_empty() {
    let input: Vec<i64> = vec![];
    assert_eq!(ind2ptr(&input, 3), vec![0, 0, 0, 0]);
}

#[test]
fn test_coo_accessors() {
    let row_col: Vec<i64> = vec![1, 2, 3, 7, 8, 9];
    let coo = CooGraphStorage::new(row_col, (4, 10));
    assert_eq!(coo.row(), [1, 2, 3]);
    assert_eq!(coo.col(), [7, 8, 9]);
    assert_eq!(coo.size, (4, 10));
}

#[test]
fn test_to_csr() {
    let m: i64 = 10;
    let row_col: Vec<i64> = vec![1, 2, 3, 4, 9, 5, 6, 7, 0, 0, 0, 1, 4, 1, 2, 2];
    let coo = CooGraphStorage::new(row_col, (m, m));

    let result = CsrGraphStorage::try_from(&coo).unwrap();
    let graph = CsrGraph::try_from(&result).unwrap();

    assert_eq!(graph.out_degree(0), 0);
    assert_eq!(graph.out_degree(1), 1);
    assert_eq!(graph.out_degree(9), 1);
    assert_eq!(graph.neighbors_slice(1), [0]);
    assert_eq!(graph.neighbors_slice(9), [4]);
}

#[test]
fn test_empty_input_yields_zero_pointers() {
    let row_col: Vec<i64> = vec![];
    let coo = CooGraphStorage::new(row_col, (5, 4));

    let csc = CscGraphStorage::try_from(&coo).unwrap();
    assert_eq!(csc.ptrs, vec![0, 0, 0, 0, 0]);
    assert_eq!(csc.indices, Vec::<i64>::new());

    let csr = CsrGraphStorage::try_from(&coo).unwrap();
    assert_eq!(csr.ptrs, vec![0, 0, 0, 0, 0, 0]);
}

#[test]
fn test_pointer_monotonicity() {
    let m: i64 = 10;
    let row_col: Vec<i64> = vec![1, 2, 3, 4, 9, 5, 6, 7, 0, 0, 0, 1, 4, 1, 2, 2];
    let coo = CooGraphStorage::new(row_col, (m, m));

    let csc = CscGraphStorage::try_from(&coo).unwrap();
    assert_eq!(csc.ptrs.first(), Some(&0));
    assert_eq!(csc.ptrs.last(), Some(&8));
    assert_eq!(csc.ptrs.len(), 11);
    for w in csc.ptrs.windows(2) {
        assert!(w[0] <= w[1]);
    }
}

#[test]
fn test_degree_sum_equals_edge_count() {
    let m: i64 = 10;
    let row_col: Vec<i64> = vec![1, 2, 3, 4, 9, 5, 6, 7, 0, 0, 0, 1, 4, 1, 2, 2];
    let coo = CooGraphStorage::new(row_col, (m, m));

    let csc = CscGraphStorage::try_from(&coo).unwrap();
    let graph = CscGraph::try_from(&csc).unwrap();
    let mut sum: i64 = 0;
    let mut g: i64 = 0;
    while g < m {
        sum += graph.degree(g);
        g += 1;
    }
    assert_eq!(sum, 8);
}

#[test]
fn test_coverage_multiset() {
    let m: i64 = 10;
    let row_col: Vec<i64> = vec![1, 2, 3, 4, 9, 5, 6, 7, 0, 0, 0, 1, 4, 1, 2, 2];
    let rows: Vec<i64> = vec![1, 2, 3, 4, 9, 5, 6, 7];
    let coo = CooGraphStorage::new(row_col, (m, m));

    let csc = CscGraphStorage::try_from(&coo).unwrap();
    let mut stored = csc.indices.clone();
    let mut paired = rows;
    stored.sort();
    paired.sort();
    assert_eq!(stored, paired);
}

#[test]
fn test_round_trip_via_permutation() {
    let m: i64 = 10;
    let row_col: Vec<i64> = vec![1, 2, 3, 4, 9, 5, 6, 7, 0, 0, 0, 1, 4, 1, 2, 2];
    let rows: Vec<i64> = vec![1, 2, 3, 4, 9, 5, 6, 7];
    let coo = CooGraphStorage::new(row_col, (m, m));

    let csc = CscGraphStorage::try_from(&coo).unwrap();
    let perm = csc.perm.as_ref().unwrap();
    assert_eq!(perm.len(), csc.indices.len());
    let mut i: usize = 0;
    while i < perm.len() {
        assert_eq!(csc.indices[i], rows[perm[i] as usize]);
        i += 1;
    }
}

#[test]
fn test_neighbors_ascending_within_group() {
    let row_col: Vec<i64> = vec![5, 1, 2, 4, 0, 0, 0, 2];
    let coo = CooGraphStorage::new(row_col, (6, 3));

    let csc = CscGraphStorage::try_from(&coo).unwrap();
    let graph = CscGraph::try_from(&csc).unwrap();
    assert_eq!(graph.neighbors_slice(0), [1, 2, 5]);
    assert_eq!(graph.neighbors_slice(1), Vec::<i64>::new().as_slice());
    assert_eq!(graph.neighbors_slice(2), [4]);
}

#[test]
fn test_coordinate_out_of_range() {
    let row_col: Vec<i64> = vec![1, 2, 0, 5];
    let coo = CooGraphStorage::new(row_col, (3, 5));
    assert!(matches!(
        CscGraphStorage::try_from(&coo),
        Err(ConversionError::CoordinateOutOfRange)
    ));

    let row_col2: Vec<i64> = vec![1, 7, 0, 2];
    let coo2 = CooGraphStorage::new(row_col2, (3, 5));
    assert!(matches!(
        CsrGraphStorage::try_from(&coo2),
        Err(ConversionError::CoordinateOutOfRange)
    ));

    let row_col3: Vec<i64> = vec![-1, 0];
    let coo3 = CooGraphStorage::new(row_col3, (3, 5));
    assert!(matches!(
        CsrGraphStorage::try_from(&coo3),
        Err(ConversionError::CoordinateOutOfRange)
    ));
}

#[test]
fn test_invalid_layout() {
    let bad_order: CscGraphStorage = SparseGraphStorage::from_data(vec![0, 2, 1, 2], vec![3, 4]);
    assert!(matches!(
        CscGraph::try_from(&bad_order),
        Err(ConversionError::InvalidLayout)
    ));

    let bad_start: CscGraphStorage = SparseGraphStorage::from_data(vec![1, 2], vec![3, 4]);
    assert!(matches!(
        CscGraph::try_from(&bad_start),
        Err(ConversionError::InvalidLayout)
    ));

    let bad_end: CscGraphStorage = SparseGraphStorage::from_data(vec![0, 1], vec![3, 4]);
    assert!(matches!(
        CscGraph::try_from(&bad_end),
        Err(ConversionError::InvalidLayout)
    ));

    let empty_ptrs: CscGraphStorage = SparseGraphStorage::from_data(vec![], vec![]);
    assert!(matches!(
        CscGraph::try_from(&empty_ptrs),
        Err(ConversionError::InvalidLayout)
    ));
}

#[test]
fn test_storage_constructors() {
    let made: CsrGraphStorage =
        SparseGraphStorage::new(vec![0, 1, 2], vec![4, 5], Some(vec![1, 0]));
    assert_eq!(made.ptrs, vec![0, 1, 2]);
    assert_eq!(made.indices, vec![4, 5]);
    assert_eq!(made.perm, Some(vec![1, 0]));

    let plain: CsrGraphStorage = SparseGraphStorage::from_data(vec![0, 2], vec![4, 5]);
    assert_eq!(plain.perm, None);
    let graph = CsrGraph::try_from(&plain).unwrap();
    assert_eq!(graph.out_degree(0), 2);
    assert_eq!(graph.neighbors_slice(0), [4, 5]);
}
