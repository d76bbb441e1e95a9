use rs_erasure::encode_shards::shard_encoding;
use rs_erasure::error::CodecError;
use rs_erasure::gf256::Gf256;
use rs_erasure::matrix::{build_vandermonde, invert_matrix};
use rs_erasure::reconstruct_shards::{shard_reconstruction, Codec};

fn pattern_shards(k: usize, shard_len: usize) -> Vec<Vec<u8>> {
    (0..k)
        .map(|i| {
            (0..shard_len)
                .map(|j| ((i + 1) as u8).wrapping_mul(j as u8))
                .collect()
        })
        .collect()
}

fn full_vector(data: &[Vec<u8>], parities: &[Vec<u8>]) -> Vec<Option<Vec<u8>>> {
    data.iter()
        .chain(parities.iter())
        .map(|s| Some(s.clone()))
        .collect()
}

#[test]
fn test_encode_decode_roundtrip() {
    let gf = Gf256::new();
    let k = 10;
    let m = 4;
    let shard_len = 8192;

    let data_shards = pattern_shards(k, shard_len);

    let parities = shard_encoding(&gf, &build_vandermonde(&gf, k, m), &data_shards).unwrap();
    assert_eq!(parities.len(), m);

    let n = k + m;
    let mut shards_opt: Vec<Option<Vec<u8>>> = (0..n).map(|_| None).collect();
    for i in 0..k {
        shards_opt[i] = Some(data_shards[i].clone());
    }
    for r in 0..m {
        shards_opt[k + r] = Some(parities[r].clone());
    }

    shards_opt[1] = None;
    shards_opt[3] = None;
    shards_opt[k] = None;
    shards_opt[k + 2] = None;

    let mut codec = Codec::new(k, m);
    codec.reconstruct(&mut shards_opt).unwrap();

    for i in 0..k {
        let original = &data_shards[i];
        let reconstructed = shards_opt[i].as_ref().unwrap();
        assert_eq!(
            original, reconstructed,
            "Shard {} was not reconstructed correctly",
            i
        );
    }
}

#[test]
fn test_singular_matrix_inversion() {
    let gf = Gf256::new();
    let singular_matrix = vec![vec![1, 1], vec![2, 2]];
    let result = invert_matrix(&gf, &singular_matrix);
    assert!(result.is_err());
}

#[test]
fn singular_matrix_is_reported_as_singular() {
    let gf = Gf256::new();
    let singular_matrix = vec![vec![1, 1], vec![2, 2]];
    assert_eq!(
        invert_matrix(&gf, &singular_matrix),
        Err(CodecError::SingularMatrix)
    );
}

#[test]
fn all_parity_erased_is_recomputed() {
    let gf = Gf256::new();
    let (k, m, shard_len) = (10, 4, 8192);
    let data = pattern_shards(k, shard_len);
    let parities = shard_encoding(&gf, &build_vandermonde(&gf, k, m), &data).unwrap();
    let mut shards = full_vector(&data, &parities);
    for r in 0..m {
        shards[k + r] = None;
    }
    let mut codec = Codec::new(k, m);
    assert_eq!(codec.reconstruct(&mut shards), Ok(()));
    for r in 0..m {
        assert_eq!(shards[k + r].as_ref().unwrap(), &parities[r]);
    }
    for i in 0..k {
        assert_eq!(shards[i].as_ref().unwrap(), &data[i]);
    }
}

fn scrambled_shards(k: usize, shard_len: usize) -> Vec<Vec<u8>> {
    let mut state: u32 = 0x2545_f491;
    (0..k)
        .map(|_| {
            (0..shard_len)
                .map(|_| {
                    state = state.wrapping_mul(1_664_525).wrapping_add(1_013_904_223);
                    (state >> 24) as u8
                })
                .collect()
        })
        .collect()
}

#[test]
fn all_data_erased_is_recovered() {
    let gf = Gf256::new();
    let (k, m, shard_len) = (4, 4, 256);
    let data = scrambled_shards(k, shard_len);
    let parities = shard_encoding(&gf, &build_vandermonde(&gf, k, m), &data).unwrap();
    let mut shards = full_vector(&data, &parities);
    for i in 0..4 {
        shards[i] = None;
    }
    let mut codec = Codec::new(k, m);
    assert_eq!(codec.reconstruct(&mut shards), Ok(()));
    for i in 0..k {
        assert_eq!(shards[i].as_ref().unwrap(), &data[i]);
    }
}

#[test]
fn one_erasure_too_many_is_insufficient() {
    let gf = Gf256::new();
    let (k, m, shard_len) = (4, 4, 256);
    let data = scrambled_shards(k, shard_len);
    let parities = shard_encoding(&gf, &build_vandermonde(&gf, k, m), &data).unwrap();
    let mut shards = full_vector(&data, &parities);
    for i in 0..5 {
        shards[i] = None;
    }
    let before = shards.clone();
    let mut codec = Codec::new(k, m);
    assert_eq!(codec.reconstruct(&mut shards), Err(CodecError::Insufficient));
    assert_eq!(shards, before);
}

#[test]
fn full_vector_is_left_alone() {
    let gf = Gf256::new();
    let (k, m, shard_len) = (5, 3, 64);
    let data = scrambled_shards(k, shard_len);
    let parities = shard_encoding(&gf, &build_vandermonde(&gf, k, m), &data).unwrap();
    let mut shards = full_vector(&data, &parities);
    let before = shards.clone();
    let mut codec = Codec::new(k, m);
    assert_eq!(codec.reconstruct(&mut shards), Ok(()));
    assert_eq!(shards, before);
    assert_eq!(codec.reconstruct(&mut shards), Ok(()));
    assert_eq!(shards, before);
}

#[test]
fn shards_of_differing_length_are_refused() {
    let mut shards: Vec<Option<Vec<u8>>> =
        vec![Some(vec![1, 2, 3]), Some(vec![4, 5]), None, Some(vec![7, 8, 9])];
    let before = shards.clone();
    let mut codec = Codec::new(2, 2);
    assert_eq!(codec.reconstruct(&mut shards), Err(CodecError::ShapeError));
    assert_eq!(shards, before);
}

#[test]
fn no_shard_at_all_is_insufficient() {
    let mut shards: Vec<Option<Vec<u8>>> = vec![None, None, None];
    let mut codec = Codec::new(2, 1);
    assert_eq!(codec.reconstruct(&mut shards), Err(CodecError::Insufficient));
}

#[test]
fn cached_inverse_gives_the_same_shards() {
    let gf = Gf256::new();
    let (k, m, shard_len) = (6, 3, 100);
    let data = scrambled_shards(k, shard_len);
    let parities = shard_encoding(&gf, &build_vandermonde(&gf, k, m), &data).unwrap();
    let full = full_vector(&data, &parities);
    let mut codec = Codec::new(k, m);
    for _ in 0..3 {
        let mut shards = full.clone();
        shards[0] = None;
        shards[4] = None;
        shards[7] = None;
        assert_eq!(codec.reconstruct(&mut shards), Ok(()));
        assert_eq!(shards, full);
    }
}

#[test]
fn reconstruction_without_cache_agrees() {
    let gf = Gf256::new();
    let (k, m, shard_len) = (6, 3, 100);
    let data = scrambled_shards(k, shard_len);
    let parities = shard_encoding(&gf, &build_vandermonde(&gf, k, m), &data).unwrap();
    let full = full_vector(&data, &parities);
    let mut shards = full.clone();
    shards[2] = None;
    shards[6] = None;
    shards[8] = None;
    assert_eq!(shard_reconstruction(&gf, k, m, &mut shards), Ok(()));
    assert_eq!(shards, full);
}

#[test]
fn every_erasure_pattern_of_a_small_code_is_recovered() {
    let gf = Gf256::new();
    let (k, m, shard_len) = (3, 3, 17);
    let n = k + m;
    let data = scrambled_shards(k, shard_len);
    let parities = shard_encoding(&gf, &build_vandermonde(&gf, k, m), &data).unwrap();
    let full = full_vector(&data, &parities);
    let mut codec = Codec::new(k, m);
    for mask in 0u32..(1 << n) {
        if mask.count_ones() as usize > m {
            continue;
        }
        let mut shards = full.clone();
        for i in 0..n {
            if mask & (1 << i) != 0 {
                shards[i] = None;
            }
        }
        assert_eq!(codec.reconstruct(&mut shards), Ok(()), "mask {:#b}", mask);
        assert_eq!(shards, full, "mask {:#b}", mask);
    }
}
