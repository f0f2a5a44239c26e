use ipadic_neologd_builder::{compile_matrix, matrix_bytes, IpadicNeologdBuilder, MatrixError};

const MAX: i16 = i16::MAX;

#[test]
fn three_by_three_scenario() {
    let m = compile_matrix(b"3 3\n0 0 100\n1 2 -50\n").unwrap();
    assert_eq!(m, vec![3, 3, 100, MAX, MAX, MAX, MAX, -50, MAX, MAX, MAX]);
}

#[test]
fn later_lines_overwrite_earlier_ones() {
    let m = compile_matrix(b"2 2\n1 1 5\n1 1 7\n").unwrap();
    assert_eq!(m, vec![2, 2, MAX, MAX, MAX, 7]);
}

#[test]
fn costs_are_stored_little_endian() {
    let b = IpadicNeologdBuilder::new();
    let bytes = b.build_cost_matrix(b"1 2\n0 1 -2\n").unwrap();
    assert_eq!(bytes, vec![1, 0, 2, 0, 0xFF, 0x7F, 0xFE, 0xFF]);
    assert_eq!(matrix_bytes(&vec![258]), vec![2, 1]);
}

#[test]
fn matrix_errors() {
    assert_eq!(compile_matrix(b""), Err(MatrixError::MissingHeader));
    assert_eq!(compile_matrix(b"2 x\n"), Err(MatrixError::Parse { line: 0 }));
    assert_eq!(compile_matrix(b"2 2\n0 0 1\n0 0 q\n"), Err(MatrixError::Parse { line: 2 }));
    assert_eq!(compile_matrix(b"2\n"), Err(MatrixError::FieldCount { line: 0 }));
    assert_eq!(compile_matrix(b"2 2\n0 0\n"), Err(MatrixError::FieldCount { line: 1 }));
    assert_eq!(compile_matrix(b"-1 2\n"), Err(MatrixError::SizeOutOfRange));
    assert_eq!(compile_matrix(b"2 40000\n"), Err(MatrixError::SizeOutOfRange));
    assert_eq!(compile_matrix(b"2 2\n0 2 1\n"), Err(MatrixError::IdOutOfRange { line: 1 }));
    assert_eq!(compile_matrix(b"2 2\n0 1 32768\n"), Err(MatrixError::CostOutOfRange { line: 1 }));
    assert_eq!(compile_matrix(b"2 2\n0 1 -32769\n"), Err(MatrixError::CostOutOfRange { line: 1 }));
    assert_eq!(compile_matrix(b"1 1\n0 0 -32768\n"), Ok(vec![1, 1, i16::MIN]));
}

#[test]
fn whitespace_runs_separate_fields() {
    let m = compile_matrix(b"  1\t1 \r\n0   0 9\n").unwrap();
    assert_eq!(m, vec![1, 1, 9]);
}

#[test]
fn empty_matrix_has_only_its_header() {
    assert_eq!(compile_matrix(b"0 0\n").unwrap(), vec![0, 0]);
}
