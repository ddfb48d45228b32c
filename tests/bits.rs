use std::collections::HashSet;

use orthogonal_gf2::{bit_iter, indexed_odd_bit_iter, Binary, BinMatrix, OrthoError, GF2};

fn bits(v: &[u8]) -> Vec<GF2> {
    v.iter().map(|&b| if b == 1 { GF2::One } else { GF2::Zero }).collect()
}

#[test]
fn bit_iter_low_bits_first() {
    assert_eq!(bit_iter(4, 5), bits(&[1, 0, 1, 0]));
    assert_eq!(bit_iter(3, 14), bits(&[0, 1, 1]));
    assert_eq!(bit_iter(0, 7), bits(&[]));
    assert_eq!(bit_iter(66, 1).len(), 66);
}

#[test]
fn odd_index_values() {
    assert_eq!(indexed_odd_bit_iter(3, 0), Ok(bits(&[1, 0, 0])));
    assert_eq!(indexed_odd_bit_iter(3, 1), Ok(bits(&[0, 1, 0])));
    assert_eq!(indexed_odd_bit_iter(3, 3), Ok(bits(&[1, 1, 1])));
}

#[test]
fn odd_index_is_a_bijection_onto_odd_vectors() {
    for n in 1..=6usize {
        let mut seen = HashSet::new();
        for i in 0..(1usize << (n - 1)) {
            let v = indexed_odd_bit_iter(n, i).unwrap();
            assert_eq!(v.len(), n);
            assert_eq!(v.parity(), GF2::One);
            assert!(seen.insert(v));
        }
        assert_eq!(seen.len(), 1 << (n - 1));
    }
}

#[test]
fn odd_index_out_of_range() {
    assert_eq!(indexed_odd_bit_iter(3, 4), Err(OrthoError::IndexOutOfRange));
    assert_eq!(indexed_odd_bit_iter(1, 1), Err(OrthoError::IndexOutOfRange));
    assert!(indexed_odd_bit_iter(70, usize::MAX).is_ok());
}

#[test]
fn complement_changes_parity_by_length() {
    let v = bits(&[1, 0, 1, 1, 0]);
    assert_eq!(v.parity(), GF2::One);
    assert_eq!(v.complement(), bits(&[0, 1, 0, 0, 1]));
    assert_eq!(v.complement().parity(), GF2::Zero);
    let w = bits(&[1, 0, 1, 1]);
    assert_eq!(w.complement().parity(), w.parity());
}

#[test]
fn matrix_parity_and_complement() {
    let m = BinMatrix { rows: vec![bits(&[1, 0, 1]), bits(&[1, 1, 1])] };
    assert_eq!(m.parity(), GF2::One);
    let c = m.complement();
    assert_eq!(c, BinMatrix { rows: vec![bits(&[0, 1, 0]), bits(&[0, 0, 0])] });
    assert_eq!(c.parity(), GF2::One);
    assert_eq!(BinMatrix::identity(2).complement().parity(), GF2::Zero);
}
