use filtration_domination::chain_complex::{ChainComplex, Column, ColumnMatrix, GradedMatrix};
use filtration_domination::io_utils::{parse_next, ParseError};
use filtration_domination::distance_matrix::DistanceMatrix;
use filtration_domination::OneCriticalGrade;

#[test]
fn distance_matrix_get_set() {
    let mut m = DistanceMatrix::new(4);
    assert_eq!(m.len(), 4);
    assert!(!m.is_empty());
    m.set(0, 1, 4);
    m.set(2, 0, 5);
    assert_eq!(m.get(0, 1), 4);
    assert_eq!(m.get(1, 0), 4);
    assert_eq!(m.get(0, 2), 5);
    assert_eq!(m.get(2, 2), 0);
    assert_eq!(m.get(3, 1), 0);
}

#[test]
fn distance_matrix_eccentricities() {
    let mut m = DistanceMatrix::new(3);
    m.set(0, 1, 4);
    m.set(0, 2, 2);
    m.set(1, 2, 7);
    let ecc = m.eccentricity_vector();
    assert_eq!(ecc, vec![4, 7, 7]);
}

#[test]
fn chain_complex_scc2020_output() {
    let mut m0 = GradedMatrix::new_empty(0);
    m0.add_column(OneCriticalGrade(0, 0), Column::new_empty());
    m0.add_column(OneCriticalGrade(1, 0), Column::new(vec![0]));
    m0.add_column(OneCriticalGrade(0, 1), Column::new(vec![0, 1]));
    let m1 = GradedMatrix::new(ColumnMatrix::new_empty(2), vec![
        OneCriticalGrade(0, 0),
        OneCriticalGrade(0, 0),
    ]);
    let complex = ChainComplex::new(vec![m0, m1]);
    let bytes = complex.write_scc2020();
    let text = String::from_utf8(bytes).unwrap();
    assert_eq!(text, "scc2020\n2\n3 2\n0 0 ;\n1 0 ; 0\n0 1 ; 0 1\n");
}

#[test]
fn chain_complex_scc2020_several_blocks() {
    let mut m0 = GradedMatrix::new_empty(0);
    m0.add_column(OneCriticalGrade(2, 3), Column::new_empty());
    let mut m1 = GradedMatrix::new_empty(0);
    m1.add_column(OneCriticalGrade(10, 0), Column::new(vec![0]));
    let m2 = GradedMatrix::new_empty(1);
    let complex = ChainComplex::new(vec![m0, m1, m2]);
    let text = String::from_utf8(complex.write_scc2020()).unwrap();
    assert_eq!(text, "scc2020\n2\n1 1 1\n2 3 ;\n\n10 0 ; 0\n");
}

#[test]
fn parse_next_happy_case() {
    let line: Vec<u8> = b"  12 345\t6".to_vec();
    let (v, pos) = parse_next(&line, 0).unwrap();
    assert_eq!(v, 12);
    assert_eq!(pos, 4);
    let (v, pos) = parse_next(&line, pos).unwrap();
    assert_eq!(v, 345);
    assert_eq!(pos, 8);
    let (v, pos) = parse_next(&line, pos).unwrap();
    assert_eq!(v, 6);
    assert_eq!(pos, 10);
    assert_eq!(parse_next(&line, pos), Err(ParseError::MissingValue));
}

#[test]
fn parse_next_faults() {
    assert_eq!(parse_next(&b"  ".to_vec(), 0), Err(ParseError::MissingValue));
    assert_eq!(parse_next(&b" 12x".to_vec(), 0), Err(ParseError::InvalidDigit));
    assert_eq!(parse_next(&b"-3".to_vec(), 0), Err(ParseError::InvalidDigit));
    assert_eq!(
        parse_next(&b"99999999999999999999".to_vec(), 0),
        Err(ParseError::Overflow)
    );
    assert_eq!(
        parse_next(&b"18446744073709551615".to_vec(), 0),
        Ok((u64::MAX, 20))
    );
}
