use matmul::calculation::{calculate_matrix, identity_matrix, MatrixError};

#[test]
fn test_small_matrix_multiplied_by_big_matrix_with_valid_worker_number() {
    let matrix_a = vec![vec![1; 1000]; 1000]; // Small matrix
    let matrix_b = vec![vec![1; 10000]; 10000]; // Big matrix
    let num_workers = 4; // Valid worker number

    let result = calculate_matrix(&matrix_a, &matrix_b, num_workers);
    assert!(result.is_err());
}

#[test]
fn test_valid_small_matrix_with_valid_worker_number() {
    let matrix_a = vec![vec![1; 1000]; 1000]; // Small matrix
    let matrix_b = vec![vec![1; 1000]; 1000]; // Small matrix
    let num_workers = 20; // Valid worker number

    let result = calculate_matrix(&matrix_a, &matrix_b, num_workers);
    assert!(result.is_ok());
}

#[test]
fn test_valid_matrices_with_invalid_worker_numbers() {
    let matrix_a = vec![vec![1; 100]; 100]; // Small matrix
    let matrix_b = vec![vec![1; 100]; 100]; // Small matrix

    let num_workers = 0; // Invalid worker number
    let result = calculate_matrix(&matrix_a, &matrix_b, num_workers);
    assert!(result.is_err());
}

#[test]
fn test_dimension_mismatch() {
    let matrix_a = vec![vec![1; 1000]; 1000]; // Small matrix
    let matrix_b = vec![vec![1; 500]; 500]; // Incompatible matrix

    let num_workers = 4; // Valid worker number
    let result = calculate_matrix(&matrix_a, &matrix_b, num_workers);
    assert!(result.is_err());
}

#[test]
fn two_by_two_product_with_two_workers() {
    let a = vec![vec![1, 2], vec![3, 4]];
    let b = vec![vec![5, 6], vec![7, 8]];
    let result = calculate_matrix(&a, &b, 2).unwrap();
    assert_eq!(result, vec![vec![19, 22], vec![43, 50]]);
}

#[test]
fn zero_workers_reports_invalid_worker_count() {
    let a = vec![vec![1, 2], vec![3, 4]];
    let b = vec![vec![5, 6], vec![7, 8]];
    assert_eq!(calculate_matrix(&a, &b, 0), Err(MatrixError::InvalidWorkerCount));
    let empty: Vec<Vec<i32>> = Vec::new();
    assert_eq!(calculate_matrix(&empty, &b, 0), Err(MatrixError::InvalidWorkerCount));
}

#[test]
fn empty_operand_reports_empty_matrix() {
    let a = vec![vec![1, 2], vec![3, 4]];
    let empty: Vec<Vec<i32>> = Vec::new();
    assert_eq!(calculate_matrix(&empty, &a, 3), Err(MatrixError::EmptyMatrix));
    assert_eq!(calculate_matrix(&a, &empty, 3), Err(MatrixError::EmptyMatrix));
    assert_eq!(calculate_matrix(&empty, &empty, 3), Err(MatrixError::EmptyMatrix));
}

#[test]
fn incompatible_dimensions_report_dimension_mismatch() {
    let a = vec![vec![1, 2, 3], vec![4, 5, 6]]; // 2 x 3
    let b = vec![vec![1, 2], vec![3, 4]]; // 2 x 2
    for workers in [1usize, 2, 7] {
        assert_eq!(calculate_matrix(&a, &b, workers), Err(MatrixError::DimensionMismatch));
    }
}

fn sample_matrix(rows: usize, cols: usize) -> Vec<Vec<i32>> {
    (0..rows)
        .map(|i| (0..cols).map(|j| ((i * 31 + j * 7) % 100) as i32).collect())
        .collect()
}

#[test]
fn result_invariant_under_worker_count() {
    let a = sample_matrix(17, 13);
    let b = sample_matrix(13, 9);
    let reference = calculate_matrix(&a, &b, 1).unwrap();
    for workers in [2usize, 3, 5, 16, 17, 64] {
        assert_eq!(calculate_matrix(&a, &b, workers).unwrap(), reference);
    }
}

#[test]
fn more_workers_than_rows_succeeds_with_same_result() {
    let a = sample_matrix(4, 3);
    let b = sample_matrix(3, 5);
    let with_row_count = calculate_matrix(&a, &b, 4).unwrap();
    let with_more = calculate_matrix(&a, &b, 9).unwrap();
    assert_eq!(with_more, with_row_count);
}

#[test]
fn single_cell_product() {
    let a = vec![vec![7]];
    let b = vec![vec![-6]];
    assert_eq!(calculate_matrix(&a, &b, 1).unwrap(), vec![vec![-42]]);
}

#[test]
fn identity_multiplication_preserves_matrix() {
    for n in 1..=50usize {
        let a = sample_matrix(n, n);
        let id = identity_matrix(n);
        for workers in [1usize, 3, n, n + 5] {
            let result = calculate_matrix(&a, &id, workers).unwrap();
            assert_eq!(result, a);
        }
    }
}

#[test]
fn error_messages_name_the_rejection() {
    assert_eq!(
        MatrixError::InvalidWorkerCount.message(),
        "Number of workers must be greater than zero"
    );
    assert_eq!(MatrixError::EmptyMatrix.message(), "Matrix is empty");
    assert_eq!(
        MatrixError::DimensionMismatch.message(),
        "Matrix multiplication is not possible due to dimension mismatch"
    );
}

#[test]
fn identity_matrix_shape() {
    let id = identity_matrix(3);
    assert_eq!(id, vec![vec![1, 0, 0], vec![0, 1, 0], vec![0, 0, 1]]);
    let none: Vec<Vec<i32>> = identity_matrix(0);
    assert!(none.is_empty());
}
