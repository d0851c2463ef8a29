use matmul::generation::{generate_matrix, MatrixSize};
use matmul::text_format::{parse_matrix, render_matrix};

#[test]
fn renders_rows_space_separated_newline_terminated() {
    let m = vec![vec![1, 2], vec![3, 4]];
    assert_eq!(render_matrix(&m), b"1 2\n3 4\n".to_vec());
}

#[test]
fn renders_multi_digit_and_zero_cells() {
    let m = vec![vec![0, 105, 2147483647]];
    assert_eq!(render_matrix(&m), b"0 105 2147483647\n".to_vec());
}

#[test]
fn renders_empty_matrix_as_empty_text() {
    let m: Vec<Vec<i32>> = Vec::new();
    assert_eq!(render_matrix(&m), Vec::<u8>::new());
}

#[test]
fn parses_rendered_text_back() {
    let m = vec![vec![1, 2], vec![3, 4]];
    let text = render_matrix(&m);
    assert_eq!(parse_matrix(&text), Some(m));
}

#[test]
fn parses_without_trailing_newline() {
    let text = b"1 2\n3 4".to_vec();
    assert_eq!(parse_matrix(&text), Some(vec![vec![1, 2], vec![3, 4]]));
}

#[test]
fn parses_extra_blanks_between_cells() {
    let text = b"  7\t 8  \r\n9 10\n".to_vec();
    assert_eq!(parse_matrix(&text), Some(vec![vec![7, 8], vec![9, 10]]));
}

#[test]
fn parses_empty_text_and_empty_lines() {
    assert_eq!(parse_matrix(&Vec::new()), Some(Vec::new()));
    let text = b"1\n\n2\n".to_vec();
    assert_eq!(parse_matrix(&text), Some(vec![vec![1], Vec::new(), vec![2]]));
}

#[test]
fn rejects_non_digit_bytes() {
    assert_eq!(parse_matrix(&b"12a".to_vec()), None);
    assert_eq!(parse_matrix(&b"-1".to_vec()), None);
    assert_eq!(parse_matrix(&b"1 2\nx\n".to_vec()), None);
}

#[test]
fn rejects_cells_beyond_i32_range() {
    assert_eq!(parse_matrix(&b"2147483648\n".to_vec()), None);
    assert_eq!(parse_matrix(&b"99999999999999999999\n".to_vec()), None);
    assert_eq!(parse_matrix(&b"2147483647\n".to_vec()), Some(vec![vec![2147483647]]));
}

#[test]
fn generated_matrix_is_square_with_small_cells() {
    let m = generate_matrix(8);
    assert_eq!(m.len(), 8);
    for row in &m {
        assert_eq!(row.len(), 8);
        for &cell in row {
            assert!((0..100).contains(&cell));
        }
    }
}

#[test]
fn generated_matrix_survives_the_text_form() {
    let m = generate_matrix(5);
    let text = render_matrix(&m);
    assert_eq!(parse_matrix(&text), Some(m));
}

#[test]
fn size_labels_map_to_dimensions() {
    assert_eq!(MatrixSize::Small.dimension(), 1000);
    assert_eq!(MatrixSize::Middle.dimension(), 5000);
    assert_eq!(MatrixSize::Big.dimension(), 10000);
}
