use std::collections::HashSet;

use orthogonal_gf2::{
    group_order, householder, indexed_element, indexed_odd_bit_iter, map_vector, sample_element,
    BinMatrix, OrthoError, GF2,
};
use rand::rngs::StdRng;
use rand::SeedableRng;

fn bits(v: &[u8]) -> Vec<GF2> {
    v.iter().map(|&b| if b == 1 { GF2::One } else { GF2::Zero }).collect()
}

fn matrix(rows: &[&[u8]]) -> BinMatrix {
    BinMatrix { rows: rows.iter().map(|r| bits(r)).collect() }
}

fn is_orthogonal(m: &BinMatrix) -> bool {
    let n = m.nrows();
    m.transpose().mul_matrix(m) == BinMatrix::identity(n)
}

fn odd(n: usize, i: usize) -> Vec<GF2> {
    indexed_odd_bit_iter(n, i).unwrap()
}

#[test]
fn test_group_order() {
    assert_eq!(group_order(2).unwrap(), 2);
}

#[test]
fn group_order_closed_form_values() {
    assert_eq!(group_order(4), Ok(48));
    assert_eq!(group_order(6), Ok(23040));
    assert_eq!(group_order(8), Ok((1usize << 16) * 3 * 15 * 63));
    assert_eq!(group_order(10), Ok((1usize << 25) * 3 * 15 * 63 * 255));
}

#[test]
fn group_order_rejects_bad_dimensions() {
    assert_eq!(group_order(0), Err(OrthoError::InvalidDimension));
    assert_eq!(group_order(3), Err(OrthoError::InvalidDimension));
    assert_eq!(group_order(7), Err(OrthoError::InvalidDimension));
}

#[test]
fn orthogonal_test_householder() {
    for n in [2usize, 4, 6] {
        let count = 1usize << (n - 1);
        for i in 0..count {
            for j in 0..count {
                let v1 = odd(n, i);
                let v2 = odd(n, j);
                let h = map_vector(&v1, &v2).unwrap();
                assert_eq!(h.mul_vector(&v1), v2);
                assert_eq!(h.transpose().mul_matrix(&h), BinMatrix::identity(n));
            }
        }
    }
}

#[test]
fn indexed_element_dimension_two() {
    assert_eq!(indexed_element(2, 0).unwrap(), BinMatrix::identity(2));
    assert_eq!(indexed_element(2, 1).unwrap(), matrix(&[&[0, 1], &[1, 0]]));
}

#[test]
fn indexed_element_index_out_of_range() {
    assert_eq!(indexed_element(2, 2), Err(OrthoError::IndexOutOfRange));
    assert_eq!(indexed_element(4, 48), Err(OrthoError::IndexOutOfRange));
    assert_eq!(indexed_element(6, 23040), Err(OrthoError::IndexOutOfRange));
    assert_eq!(indexed_element(4, usize::MAX), Err(OrthoError::IndexOutOfRange));
}

#[test]
fn indexed_element_invalid_dimension() {
    assert_eq!(indexed_element(0, 0), Err(OrthoError::InvalidDimension));
    assert_eq!(indexed_element(5, 0), Err(OrthoError::InvalidDimension));
}

#[test]
fn indexed_element_dimension_four_is_the_whole_group() {
    let mut seen = HashSet::new();
    for i in 0..48 {
        let m = indexed_element(4, i).unwrap();
        assert_eq!(m.nrows(), 4);
        assert!(is_orthogonal(&m));
        assert!(seen.insert(m));
    }
    assert_eq!(seen.len(), 48);
}

#[test]
fn indexed_element_dimension_six_is_the_whole_group() {
    let mut seen = HashSet::new();
    for i in 0..23040 {
        let m = indexed_element(6, i).unwrap();
        assert!(is_orthogonal(&m));
        assert!(seen.insert(m));
    }
    assert_eq!(seen.len(), 23040);
}

#[test]
fn indexed_element_dimension_eight_samples() {
    let ord = group_order(8).unwrap();
    let mut seen = HashSet::new();
    let mut i = 0usize;
    while i < ord {
        let m = indexed_element(8, i).unwrap();
        assert!(is_orthogonal(&m));
        assert!(seen.insert(m));
        i += 9_973;
    }
}

#[test]
fn householder_is_an_involution() {
    let h = bits(&[1, 1, 0, 1, 1, 0]);
    let m = householder(&h).unwrap();
    assert_eq!(m.mul_matrix(&m), BinMatrix::identity(6));
    assert_eq!(m.get(0, 1), GF2::One);
    assert_eq!(m.get(2, 2), GF2::One);
    assert_eq!(m.get(0, 0), GF2::Zero);
}

#[test]
fn householder_rejects_odd_parity() {
    assert_eq!(householder(&bits(&[1, 0, 0])), Err(OrthoError::ParityMismatch));
}

#[test]
fn map_vector_takes_first_to_second() {
    let v1 = bits(&[1, 0, 0, 0]);
    let v2 = bits(&[1, 1, 1, 0]);
    let m = map_vector(&v1, &v2).unwrap();
    assert_eq!(m.mul_vector(&v1), v2);
    assert!(is_orthogonal(&m));
    let m = map_vector(&v1, &v1).unwrap();
    assert_eq!(m.mul_vector(&v1), v1);
}

#[test]
fn map_vector_errors() {
    assert_eq!(map_vector(&bits(&[1, 0]), &bits(&[1, 0, 0])), Err(OrthoError::LengthMismatch));
    assert_eq!(map_vector(&bits(&[1, 1]), &bits(&[1, 0])), Err(OrthoError::ParityMismatch));
    assert_eq!(map_vector(&bits(&[1, 0]), &bits(&[0, 0])), Err(OrthoError::ParityMismatch));
    assert_eq!(map_vector(&bits(&[1, 0, 0]), &bits(&[1, 0, 0])), Err(OrthoError::ParityMismatch));
}

#[test]
fn sample_element_is_orthogonal() {
    let mut rng = StdRng::seed_from_u64(7);
    for _ in 0..20 {
        let m = sample_element(6, &mut rng).unwrap();
        assert!(is_orthogonal(&m));
    }
    assert!(matches!(sample_element(3, &mut rng), Err(OrthoError::InvalidDimension)));
}
