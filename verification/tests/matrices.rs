use rs_erasure::encode_shards::shard_encoding;
use rs_erasure::error::CodecError;
use rs_erasure::gf256::Gf256;
use rs_erasure::matrix::{build_vandermonde, invert_matrix, mul_vec_matrix};

fn identity(n: usize) -> Vec<Vec<u8>> {
    (0..n)
        .map(|r| (0..n).map(|c| if r == c { 1 } else { 0 }).collect())
        .collect()
}

fn product(gf: &Gf256, a: &Vec<Vec<u8>>, b: &Vec<Vec<u8>>) -> Vec<Vec<u8>> {
    a.iter()
        .map(|row| mul_vec_matrix(gf, row, b).unwrap())
        .collect()
}

#[test]
fn vandermonde_entries_are_powers_of_the_generator() {
    let gf = Gf256::new();
    let v = build_vandermonde(&gf, 4, 3);
    assert_eq!(v.len(), 3);
    for r in 0..3 {
        assert_eq!(v[r].len(), 4);
        for c in 0..4 {
            assert_eq!(v[r][c], gf.exp_at(((r + 4) * c) % 255));
        }
    }
    assert_eq!(v[0], vec![1, 0x10, 0x1d, 0xcd]);
}

#[test]
fn vandermonde_exponents_wrap_modulo_255() {
    let gf = Gf256::new();
    let v = build_vandermonde(&gf, 200, 55);
    assert_eq!(v[54][199], gf.exp_at((254 * 199) % 255));
    assert_eq!(v[54][0], 1);
}

#[test]
fn vector_times_identity_is_the_vector() {
    let gf = Gf256::new();
    let v = vec![9u8, 0, 0xfe, 7];
    assert_eq!(mul_vec_matrix(&gf, &v, &identity(4)), Ok(v));
}

#[test]
fn vector_times_matrix_is_the_sum_of_products() {
    let gf = Gf256::new();
    let m = vec![vec![1u8, 2, 3], vec![4, 5, 6]];
    let v = vec![7u8, 9];
    let out = mul_vec_matrix(&gf, &v, &m).unwrap();
    let want: Vec<u8> = (0..3)
        .map(|j| gf.mul(7, m[0][j]) ^ gf.mul(9, m[1][j]))
        .collect();
    assert_eq!(out, want);
    assert_eq!(out, vec![0x23, 0x23, 0x3f]);
}

#[test]
fn mismatched_shapes_are_refused() {
    let gf = Gf256::new();
    let m = vec![vec![1u8, 2, 3], vec![4, 5, 6]];
    assert_eq!(
        mul_vec_matrix(&gf, &[1u8, 2, 3], &m),
        Err(CodecError::ShapeError)
    );
    assert_eq!(mul_vec_matrix(&gf, &[], &vec![]), Err(CodecError::ShapeError));
    let ragged = vec![vec![1u8, 2, 3], vec![4, 5]];
    assert_eq!(
        mul_vec_matrix(&gf, &[1u8, 2], &ragged),
        Err(CodecError::ShapeError)
    );
}

#[test]
fn matrix_that_is_not_square_is_refused() {
    let gf = Gf256::new();
    assert_eq!(invert_matrix(&gf, &[]), Err(CodecError::ShapeError));
    assert_eq!(
        invert_matrix(&gf, &[vec![1u8, 2, 3], vec![4, 5, 6]]),
        Err(CodecError::ShapeError)
    );
    assert_eq!(
        invert_matrix(&gf, &[vec![1u8, 2], vec![4]]),
        Err(CodecError::ShapeError)
    );
}

#[test]
fn inverse_times_matrix_is_the_identity() {
    let gf = Gf256::new();
    let k = 6;
    let v = build_vandermonde(&gf, k, k);
    let inv = invert_matrix(&gf, &v).unwrap();
    assert_eq!(product(&gf, &inv, &v), identity(k));
    assert_eq!(product(&gf, &v, &inv), identity(k));
    assert_eq!(invert_matrix(&gf, &inv), Ok(v));
}

#[test]
fn inverse_needs_a_row_exchange() {
    let gf = Gf256::new();
    let m = vec![vec![0u8, 1], vec![1, 0]];
    assert_eq!(invert_matrix(&gf, &m), Ok(m.clone()));
    let m = vec![vec![0u8, 2, 0], vec![0, 0, 3], vec![5, 0, 0]];
    let inv = invert_matrix(&gf, &m).unwrap();
    assert_eq!(product(&gf, &inv, &m), identity(3));
}

#[test]
fn inverse_of_a_small_matrix() {
    let gf = Gf256::new();
    let m = vec![vec![1u8, 1], vec![1, 2]];
    let inv = invert_matrix(&gf, &m).unwrap();
    let third = gf.inv(3).unwrap();
    assert_eq!(
        inv,
        vec![
            vec![gf.mul(2, third), third],
            vec![third, third]
        ]
    );
}

#[test]
fn vector_survives_matrix_and_inverse() {
    let gf = Gf256::new();
    let k = 5;
    let m = build_vandermonde(&gf, k, k);
    let inv = invert_matrix(&gf, &m).unwrap();
    let v = vec![0u8, 17, 255, 3, 128];
    let there = mul_vec_matrix(&gf, &v, &m).unwrap();
    assert_eq!(mul_vec_matrix(&gf, &there, &inv), Ok(v));
}

#[test]
fn zero_matrix_is_singular() {
    let gf = Gf256::new();
    assert_eq!(
        invert_matrix(&gf, &[vec![0u8]]),
        Err(CodecError::SingularMatrix)
    );
}

#[test]
fn parity_is_the_column_wise_product() {
    let gf = Gf256::new();
    let data = vec![vec![1u8, 2, 3, 0], vec![0xff, 0, 7, 9]];
    let matrix = vec![vec![1u8, 1], vec![0, 2], vec![3, 1]];
    let parity = shard_encoding(&gf, &matrix, &data).unwrap();
    assert_eq!(parity.len(), 3);
    for r in 0..3 {
        for t in 0..4 {
            let want = gf.mul(matrix[r][0], data[0][t]) ^ gf.mul(matrix[r][1], data[1][t]);
            assert_eq!(parity[r][t], want);
        }
    }
    assert_eq!(parity[0], vec![0xfe, 2, 4, 9]);
    assert_eq!(parity[1], vec![0xe3, 0, 14, 18]);
}

#[test]
fn encoder_refuses_bad_shapes() {
    let gf = Gf256::new();
    let data = vec![vec![1u8, 2], vec![3, 4]];
    assert_eq!(
        shard_encoding(&gf, &[], &data),
        Err(CodecError::ShapeError)
    );
    assert_eq!(
        shard_encoding(&gf, &[vec![]], &[]),
        Err(CodecError::ShapeError)
    );
    assert_eq!(
        shard_encoding(&gf, &[vec![1u8, 2, 3]], &data),
        Err(CodecError::ShapeError)
    );
    let uneven = vec![vec![1u8, 2], vec![3]];
    assert_eq!(
        shard_encoding(&gf, &[vec![1u8, 2]], &uneven),
        Err(CodecError::ShapeError)
    );
}

#[test]
fn encoder_keeps_the_order_of_the_rows() {
    let gf = Gf256::new();
    let k = 3;
    let data: Vec<Vec<u8>> = (0..k).map(|i| vec![(i + 1) as u8; 50]).collect();
    let matrix: Vec<Vec<u8>> = (0..40u8).map(|r| vec![r, 0, 0]).collect();
    let parity = shard_encoding(&gf, &matrix, &data).unwrap();
    for r in 0..40u8 {
        assert_eq!(parity[r as usize], vec![r; 50]);
    }
}
