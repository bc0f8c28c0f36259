use lattice_codec::matrix::{zeros, SparseMatrix};
use lattice_codec::wide::{mul_add_mod, U256};

fn vals(xs: &[u64]) -> Vec<U256> {
    xs.iter().map(|x| U256::from_u64(*x)).collect()
}

// [[2, 0, 5], [0, 0, 0], [7, 3, 0]] mod 11, with row 2 stored out of order.
fn sample() -> SparseMatrix {
    let mut m = SparseMatrix::new(3, U256::from_u64(11));
    m.row_ptr = vec![0, 2, 2, 4];
    m.col_idx = vec![0, 2, 1, 0];
    m.values = vals(&[2, 5, 3, 7]);
    m
}

fn dot(a: &[U256], b: &[U256], q: u64) -> u64 {
    let mut s = 0u64;
    for i in 0..a.len() {
        s = (s + a[i].as_u64() * b[i].as_u64()) % q;
    }
    s
}

#[test]
fn empty_matrix_maps_to_zero() {
    let m = SparseMatrix::new(4, U256::from_u64(13));
    assert_eq!(m.row_ptr, vec![0; 5]);
    assert_eq!(m.mul_vec(&vals(&[1, 2, 3, 4])), vals(&[0, 0, 0, 0]));
    assert_eq!(m.transpose_mul_vec(&vals(&[1, 2, 3, 4])), vals(&[0, 0, 0, 0]));
}

#[test]
fn identity_is_identity_mod_q() {
    let m = SparseMatrix::new_identity(4, U256::from_u64(13));
    let v = vals(&[1, 20, 13, 4]);
    assert_eq!(m.mul_vec(&v), vals(&[1, 7, 0, 4]));
    assert_eq!(m.transpose_mul_vec(&v), vals(&[1, 7, 0, 4]));
}

#[test]
fn forward_product() {
    let m = sample();
    // [2*1 + 5*3, 0, 7*1 + 3*2] = [17, 0, 13] mod 11
    assert_eq!(m.mul_vec(&vals(&[1, 2, 3])), vals(&[6, 0, 2]));
}

#[test]
fn transpose_product() {
    let m = sample();
    // [2*1 + 7*3, 3*3, 5*1] = [23, 9, 5] mod 11
    assert_eq!(m.transpose_mul_vec(&vals(&[1, 2, 3])), vals(&[1, 9, 5]));
}

#[test]
fn assign_overwrites() {
    let m = sample();
    let mut out = vals(&[4, 4, 4]);
    m.mul_vec_assign(&vals(&[1, 2, 3]), &mut out);
    assert_eq!(out, vals(&[6, 0, 2]));
    let mut out = vals(&[4, 4, 4]);
    m.transpose_mul_vec_assign(&vals(&[1, 2, 3]), &mut out);
    assert_eq!(out, vals(&[1, 9, 5]));
}

#[test]
fn add_and_sub_assign() {
    let m = sample();
    let v = vals(&[1, 2, 3]);
    let mut out = vals(&[10, 4, 0]);
    m.mul_vec_add_assign(&v, &mut out);
    assert_eq!(out, vals(&[5, 4, 2]));
    m.mul_vec_sub_assign(&v, &mut out);
    assert_eq!(out, vals(&[10, 4, 0]));
    let mut out = vals(&[0, 3, 10]);
    m.mul_vec_sub_assign(&v, &mut out);
    // 0 - 6, 3 - 0, 10 - 2
    assert_eq!(out, vals(&[5, 3, 8]));
}

#[test]
fn transpose_add_and_sub_assign() {
    let m = sample();
    let v = vals(&[1, 2, 3]);
    let mut out = vals(&[10, 4, 0]);
    m.transpose_mul_vec_add_assign(&v, &mut out);
    assert_eq!(out, vals(&[0, 2, 5]));
    m.transpose_mul_vec_sub_assign(&v, &mut out);
    assert_eq!(out, vals(&[10, 4, 0]));
}

#[test]
fn linearity() {
    let m = sample();
    let v1 = vals(&[4, 9, 10]);
    let v2 = vals(&[8, 5, 7]);
    let w = vals(&[12, 14, 17]);
    let (a, b, c) = (m.mul_vec(&v1), m.mul_vec(&v2), m.mul_vec(&w));
    for i in 0..3 {
        assert_eq!((a[i].as_u64() + b[i].as_u64()) % 11, c[i].as_u64());
    }
}

#[test]
fn transpose_duality() {
    let m = sample();
    let v = vals(&[3, 1, 4]);
    let u = vals(&[1, 5, 9]);
    assert_eq!(dot(&m.mul_vec(&v), &u, 11), dot(&v, &m.transpose_mul_vec(&u), 11));
}

#[test]
fn dense_form() {
    let mut m = sample();
    assert_eq!(m.to_dense(), vec![vals(&[2, 0, 5]), vals(&[0, 0, 0]), vals(&[7, 3, 0])]);
    // A later entry in the same row and column overwrites an earlier one.
    m.row_ptr = vec![0, 2, 2, 2];
    m.col_idx = vec![1, 1];
    m.values = vals(&[4, 6]);
    assert_eq!(m.to_dense(), vec![vals(&[0, 6, 0]), vals(&[0, 0, 0]), vals(&[0, 0, 0])]);
}

#[test]
fn wide_products_use_double_width() {
    // q = 2^255 + 95; (q - 1)^2 mod q = 1, which a truncating multiply would miss.
    let q = U256 { w0: 95, w1: 0, w2: 0, w3: 1 << 63 };
    let qm1 = U256 { w0: 94, w1: 0, w2: 0, w3: 1 << 63 };
    let one = U256::from_u64(1);
    let zero = U256::from_u64(0);
    assert_eq!(mul_add_mod(qm1, qm1, zero, q), one);
    let mut m = SparseMatrix::new_identity(2, q);
    m.values = vec![qm1, qm1];
    assert_eq!(m.mul_vec(&[qm1, one]), vec![one, qm1]);
    let mut out = vec![qm1, zero];
    m.transpose_mul_vec_add_assign(&[qm1, zero], &mut out);
    // (q - 1) + 1 wraps to 0
    assert_eq!(out, vec![zero, zero]);
    assert_eq!(zeros(2), vec![zero, zero]);
}

#[test]
fn well_formedness() {
    assert!(sample().is_well_formed());
    assert!(SparseMatrix::new_identity(5, U256::from_u64(7)).is_well_formed());
    let mut m = sample();
    m.col_idx[1] = 3;
    assert!(!m.is_well_formed());
    let mut m = sample();
    m.row_ptr = vec![0, 3, 2, 4];
    assert!(!m.is_well_formed());
    let mut m = sample();
    m.row_ptr = vec![0, 2, 2, 3];
    assert!(!m.is_well_formed());
    let mut m = sample();
    m.values.pop();
    assert!(!m.is_well_formed());
    let mut m = sample();
    m.q = U256::from_u64(0);
    assert!(!m.is_well_formed());
    let mut m = sample();
    m.row_ptr = vec![1, 2, 2, 4];
    assert!(!m.is_well_formed());
}
