use rs_erasure::encode_shards::{borrow_all, shards_have_length};
use rs_erasure::gf256::Gf256;
use rs_erasure::metadata::push_decimal;
use rs_erasure::shards::{accumulate, combine_row};

fn peasant(mut a: u8, b: u8) -> u8 {
    let mut shifted = b;
    let mut sum = 0u8;
    while a != 0 {
        if a & 1 == 1 {
            sum ^= shifted;
        }
        let carry = shifted & 0x80 != 0;
        shifted <<= 1;
        if carry {
            shifted ^= 0x1d;
        }
        a >>= 1;
    }
    sum
}

#[test]
fn product_is_the_product_of_polynomials() {
    let gf = Gf256::new();
    for a in 0..=255u8 {
        for b in 0..=255u8 {
            assert_eq!(gf.mul(a, b), peasant(a, b));
        }
    }
}

#[test]
fn coefficient_zero_adds_nothing() {
    let gf = Gf256::new();
    let mut out = vec![1u8, 2, 3, 4];
    accumulate(&gf, &mut out, 0, &[9, 9, 9, 9]);
    assert_eq!(out, vec![1, 2, 3, 4]);
}

#[test]
fn coefficient_one_adds_the_bytes() {
    let gf = Gf256::new();
    let mut out = vec![1u8, 2, 3, 0xff];
    accumulate(&gf, &mut out, 1, &[1, 1, 0x80, 0xff]);
    assert_eq!(out, vec![0, 3, 0x83, 0]);
}

#[test]
fn other_coefficients_add_the_products() {
    let gf = Gf256::new();
    let src = [0u8, 1, 2, 0x80, 0xff];
    for coef in [2u8, 3, 0x1d, 0xfe] {
        let mut out = vec![7u8, 7, 7, 7, 7];
        accumulate(&gf, &mut out, coef, &src);
        for t in 0..5 {
            assert_eq!(out[t], 7 ^ gf.mul(coef, src[t]));
        }
    }
    let mut out = vec![0u8, 0];
    accumulate(&gf, &mut out, 2, &[0x80, 0x40]);
    assert_eq!(out, vec![0x1d, 0x80]);
}

#[test]
fn accumulate_on_empty_shards() {
    let gf = Gf256::new();
    let mut out: Vec<u8> = vec![];
    accumulate(&gf, &mut out, 5, &[]);
    assert_eq!(out, Vec::<u8>::new());
}

#[test]
fn row_combines_the_shards() {
    let gf = Gf256::new();
    let a = vec![1u8, 2, 3];
    let b = vec![4u8, 5, 6];
    let c = vec![7u8, 8, 9];
    let sources = vec![&a, &b, &c];
    let out = combine_row(&gf, &[0, 1, 2], &sources, 3);
    assert_eq!(out, vec![4 ^ 14, 5 ^ 16, 6 ^ 18]);
    let out = combine_row(&gf, &[1, 1, 1], &sources, 3);
    assert_eq!(out, vec![1 ^ 4 ^ 7, 2 ^ 5 ^ 8, 3 ^ 6 ^ 9]);
    let out = combine_row(&gf, &[], &vec![], 4);
    assert_eq!(out, vec![0, 0, 0, 0]);
}

#[test]
fn borrowed_shards_keep_their_order() {
    let shards = vec![vec![1u8], vec![2], vec![3]];
    let refs = borrow_all(&shards);
    assert_eq!(refs, vec![&shards[0], &shards[1], &shards[2]]);
    assert!(shards_have_length(&shards, 1));
    assert!(!shards_have_length(&shards, 2));
    assert!(shards_have_length(&[], 5));
}

#[test]
fn numerals_are_written_behind_what_is_there() {
    let mut out = b"n=".to_vec();
    push_decimal(&mut out, 0);
    push_decimal(&mut out, 10);
    push_decimal(&mut out, 907);
    assert_eq!(out, b"n=010907".to_vec());
}
