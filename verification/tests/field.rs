use rs_erasure::error::CodecError;
use rs_erasure::gf256::Gf256;

#[test]
fn multiplication_is_commutative_with_zero_and_one() {
    let gf = Gf256::new();
    for a in 0..=255u8 {
        assert_eq!(gf.mul(a, 0), 0);
        assert_eq!(gf.mul(0, a), 0);
        assert_eq!(gf.mul(a, 1), a);
        for b in 0..=255u8 {
            assert_eq!(gf.mul(a, b), gf.mul(b, a));
        }
    }
}

#[test]
fn every_nonzero_element_has_an_inverse() {
    let gf = Gf256::new();
    for a in 1..=255u8 {
        let inv = gf.inv(a).unwrap();
        assert_eq!(gf.mul(a, inv), 1);
        assert_eq!(gf.inv(inv), Ok(a));
    }
}

#[test]
fn zero_has_no_inverse() {
    let gf = Gf256::new();
    assert_eq!(gf.inv(0), Err(CodecError::DomainError));
}

#[test]
fn products_reduce_by_the_polynomial() {
    let gf = Gf256::new();
    assert_eq!(gf.mul(2, 2), 4);
    assert_eq!(gf.mul(2, 0x80), 0x1d);
    assert_eq!(gf.mul(0x80, 0x80), 0x13);
    assert_eq!(gf.mul(3, 7), 9);
    assert_eq!(gf.mul(0xff, 0xff), 0xe2);
    assert_eq!(gf.inv(1), Ok(1));
    assert_eq!(gf.inv(2), Ok(0x8e));
}

#[test]
fn powers_of_the_generator_repeat_after_255() {
    let gf = Gf256::new();
    assert_eq!(gf.exp_at(0), 1);
    assert_eq!(gf.exp_at(1), 2);
    assert_eq!(gf.exp_at(7), 0x80);
    assert_eq!(gf.exp_at(8), 0x1d);
    assert_eq!(gf.exp_at(254), 0x8e);
    assert_eq!(gf.exp_at(255), 1);
    for i in 0..257usize {
        assert_eq!(gf.exp_at(i + 255), gf.exp_at(i));
    }
}

#[test]
fn multiplication_table_lists_the_products() {
    let gf = Gf256::new();
    for c in [0u8, 1, 2, 0x1d, 0x53, 0xff] {
        let table = gf.mul_table(c);
        for x in 0..=255u8 {
            assert_eq!(table[x as usize], gf.mul(c, x));
        }
    }
}

#[test]
fn multiplication_distributes_and_associates() {
    let gf = Gf256::new();
    for a in (0..=255u8).step_by(7) {
        for b in (0..=255u8).step_by(5) {
            for c in (0..=255u8).step_by(11) {
                assert_eq!(gf.mul(a, b ^ c), gf.mul(a, b) ^ gf.mul(a, c));
                assert_eq!(gf.mul(gf.mul(a, b), c), gf.mul(a, gf.mul(b, c)));
            }
        }
    }
}

#[test]
fn default_and_clone_hold_the_same_tables() {
    let gf = Gf256::default();
    let copy = gf.clone();
    for a in 0..=255u8 {
        assert_eq!(gf.mul(a, 0x53), copy.mul(a, 0x53));
    }
}
