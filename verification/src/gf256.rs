//! Arithmetic in GF(2^8) with generator 2 and reducing polynomial 0x11d.
//!
//! The field is specified through the powers of its generator: `gf_exp(i)` is
//! the generator raised to `i`, `gf_log` is its inverse on the nonzero bytes,
//! and products and inverses are sums and differences of logarithms. Addition
//! in the field is bitwise exclusive or.

use vstd::prelude::*;
use vstd::arithmetic::div_mod::lemma_add_mod_noop;
use vstd::relations::injective_on;
use vstd::set_lib::*;
use crate::error::CodecError;
use crate::orbit::{Bits, lemma_orbit_no_return, lemma_orbit_period, lemma_steps_last, one, step, steps};

verus! {

/// Multiplication by the generator: a shift by one bit, reduced by the
/// polynomial 0x11d when the top bit falls out.
pub open spec fn xtime(a: u8) -> u8 {
    if a & 0x80u8 == 0u8 {
        a << 1u8
    } else {
        (a << 1u8) ^ 0x1du8
    }
}

/// The generator raised to the power `i`.
pub open spec fn gf_exp(i: nat) -> u8
    decreases i,
{
    if i == 0 {
        1u8
    } else {
        xtime(gf_exp((i - 1) as nat))
    }
}

/// The discrete logarithm of a nonzero byte: the one exponent below 255 that
/// the generator takes to `a`.
pub open spec fn gf_log(a: u8) -> nat
    recommends
        a != 0,
{
    choose|i: nat| i < 255 && gf_exp(i) == a
}

/// The product of two field elements.
pub open spec fn gf_mul(a: u8, b: u8) -> u8 {
    if a == 0 || b == 0 {
        0u8
    } else {
        gf_exp(gf_log(a) + gf_log(b))
    }
}

/// The multiplicative inverse of a nonzero field element.
pub open spec fn gf_inv(a: u8) -> u8
    recommends
        a != 0,
{
    gf_exp((255 - gf_log(a)) as nat)
}

/// The table of powers: 512 entries, so that the sum of two logarithms
/// indexes it without a reduction.
pub open spec fn power_table() -> Seq<u8> {
    Seq::new(512, |i: int| gf_exp(i as nat))
}

/// The table of logarithms: 256 entries, with -1 standing at zero.
pub open spec fn logarithm_table() -> Seq<i16> {
    Seq::new(256, |a: int| if a == 0 { -1i16 } else { gf_log(a as u8) as i16 })
}

// ---------------------------------------------------------------------------
// Bitwise facts
// ---------------------------------------------------------------------------

/// Zero is neutral for exclusive or, and every byte is its own negative.
pub proof fn lemma_xor_zero(a: u8)
    ensures
        a ^ 0u8 == a,
        0u8 ^ a == a,
        a ^ a == 0u8,
{
    assert(a ^ 0u8 == a) by (bit_vector);
    assert(0u8 ^ a == a) by (bit_vector);
    assert(a ^ a == 0u8) by (bit_vector);
}

/// Multiplication by the generator is additive, one to one, and takes zero
/// and nothing else to zero.
proof fn lemma_xtime_facts(a: u8, b: u8)
    ensures
        xtime(a ^ b) == xtime(a) ^ xtime(b),
        xtime(a) == xtime(b) ==> a == b,
        xtime(0u8) == 0u8,
        a != 0 ==> xtime(a) != 0,
{
    assert(xtime(a ^ b) == xtime(a) ^ xtime(b)) by (bit_vector);
    assert(xtime(a) == xtime(b) ==> a == b) by (bit_vector);
    assert(xtime(0u8) == 0u8) by (bit_vector);
    assert(a != 0 ==> xtime(a) != 0) by (bit_vector);
}

// ---------------------------------------------------------------------------
// The orbit of the generator, followed bit by bit
// ---------------------------------------------------------------------------

/// The eight coefficient bits of a byte.
spec fn bits_of(a: u8) -> Bits {
    Bits {
        b0: a & 0x01u8 != 0u8,
        b1: a & 0x02u8 != 0u8,
        b2: a & 0x04u8 != 0u8,
        b3: a & 0x08u8 != 0u8,
        b4: a & 0x10u8 != 0u8,
        b5: a & 0x20u8 != 0u8,
        b6: a & 0x40u8 != 0u8,
        b7: a & 0x80u8 != 0u8,
    }
}

/// On the coefficient bits, `xtime` is `step`.
proof fn lemma_bits_of_xtime(a: u8)
    ensures
        bits_of(xtime(a)) == step(bits_of(a)),
{
    assert((xtime(a) & 0x01u8 != 0u8) == (a & 0x80u8 != 0u8)) by (bit_vector);
    assert((xtime(a) & 0x02u8 != 0u8) == (a & 0x01u8 != 0u8)) by (bit_vector);
    assert((xtime(a) & 0x04u8 != 0u8) == ((a & 0x02u8 != 0u8) != (a & 0x80u8 != 0u8)))
        by (bit_vector);
    assert((xtime(a) & 0x08u8 != 0u8) == ((a & 0x04u8 != 0u8) != (a & 0x80u8 != 0u8)))
        by (bit_vector);
    assert((xtime(a) & 0x10u8 != 0u8) == ((a & 0x08u8 != 0u8) != (a & 0x80u8 != 0u8)))
        by (bit_vector);
    assert((xtime(a) & 0x20u8 != 0u8) == (a & 0x10u8 != 0u8)) by (bit_vector);
    assert((xtime(a) & 0x40u8 != 0u8) == (a & 0x20u8 != 0u8)) by (bit_vector);
    assert((xtime(a) & 0x80u8 != 0u8) == (a & 0x40u8 != 0u8)) by (bit_vector);
}

/// The byte 1 is the one byte with the bits of the element 1.
proof fn lemma_bits_of_one(a: u8)
    ensures
        bits_of(a) == one() <==> a == 1,
{
    assert((a & 0x01u8 != 0u8 && a & 0x02u8 == 0u8 && a & 0x04u8 == 0u8 && a & 0x08u8 == 0u8 && a
        & 0x10u8 == 0u8 && a & 0x20u8 == 0u8 && a & 0x40u8 == 0u8 && a & 0x80u8 == 0u8) <==> a
        == 1u8) by (bit_vector);
}

/// The bits of a power of the generator are as many steps from 1.
proof fn lemma_exp_bits(i: nat)
    ensures
        bits_of(gf_exp(i)) == steps(one(), i),
    decreases i,
{
    if i == 0 {
        lemma_bits_of_one(1u8);
    } else {
        lemma_exp_bits((i - 1) as nat);
        lemma_bits_of_xtime(gf_exp((i - 1) as nat));
        lemma_steps_last(one(), (i - 1) as nat);
    }
}

/// The generator has order 255: its 255th power is 1.
pub proof fn lemma_exp_255()
    ensures
        gf_exp(255) == 1,
{
    lemma_orbit_period();
    lemma_exp_bits(255);
    lemma_bits_of_one(gf_exp(255));
}

/// No smaller positive power of the generator is 1.
proof fn lemma_exp_not_one(d: nat)
    requires
        0 < d < 255,
    ensures
        gf_exp(d) != 1,
{
    lemma_orbit_no_return(d);
    lemma_exp_bits(d);
    lemma_bits_of_one(gf_exp(d));
}

/// Two powers that are equal stay equal when both exponents are lowered.
proof fn lemma_exp_cancel(i: nat, d: nat)
    requires
        gf_exp(i) == gf_exp(i + d),
    ensures
        gf_exp(d) == 1,
    decreases i,
{
    if i > 0 {
        lemma_xtime_facts(gf_exp((i - 1) as nat), gf_exp((i - 1 + d) as nat));
        lemma_exp_cancel((i - 1) as nat, d);
    }
}

/// Powers of the generator below 255 are pairwise distinct.
pub proof fn lemma_exp_injective(i: nat, j: nat)
    requires
        i < 255,
        j < 255,
        gf_exp(i) == gf_exp(j),
    ensures
        i == j,
{
    if i < j {
        lemma_exp_cancel(i, (j - i) as nat);
        lemma_exp_not_one((j - i) as nat);
    } else if j < i {
        lemma_exp_cancel(j, (i - j) as nat);
        lemma_exp_not_one((i - j) as nat);
    }
}

/// No power of the generator is zero.
pub proof fn lemma_exp_nonzero(i: nat)
    ensures
        gf_exp(i) != 0,
    decreases i,
{
    if i > 0 {
        lemma_exp_nonzero((i - 1) as nat);
        lemma_xtime_facts(gf_exp((i - 1) as nat), 0u8);
    }
}

/// The powers of the generator repeat with period 255.
pub proof fn lemma_exp_periodic(i: nat)
    ensures
        gf_exp(i + 255) == gf_exp(i),
    decreases i,
{
    if i == 0 {
        lemma_exp_255();
    } else {
        lemma_exp_periodic((i - 1) as nat);
    }
}

/// A power of the generator depends on the exponent modulo 255 only.
pub proof fn lemma_exp_mod(i: nat)
    ensures
        gf_exp(i) == gf_exp(i % 255),
    decreases i,
{
    if i >= 255 {
        lemma_exp_mod((i - 255) as nat);
        lemma_exp_periodic((i - 255) as nat);
    }
}

/// Every nonzero byte is a power of the generator.
proof fn lemma_exp_surjective(a: u8)
    requires
        a != 0,
    ensures
        exists|i: nat| i < 255 && gf_exp(i) == a,
{
    let dom = set_int_range(0, 255);
    let cod = set_int_range(1, 256);
    let f = |i: int| gf_exp(i as nat) as int;
    let img = dom.map(f);
    lemma_int_range(0, 255);
    lemma_int_range(1, 256);
    assert(injective_on(f, dom)) by {
        assert forall|x: int, y: int| dom.contains(x) && dom.contains(y) && f(x) == f(y) implies x
            == y by {
            lemma_exp_injective(x as nat, y as nat);
        }
    }
    lemma_map_size(dom, img, f);
    assert(img.subset_of(cod)) by {
        assert forall|y: int| img.contains(y) implies cod.contains(y) by {
            let x = choose|x: int| dom.contains(x) && y == f(x);
            lemma_exp_nonzero(x as nat);
        }
    }
    lemma_subset_equality(img, cod);
    assert(cod.contains(a as int));
    assert(img.contains(a as int));
    let x = choose|x: int| dom.contains(x) && a as int == f(x);
    assert((x as nat) < 255 && gf_exp(x as nat) == a);
}

/// The logarithm of a nonzero byte is below 255 and is undone by `gf_exp`.
pub proof fn lemma_log(a: u8)
    requires
        a != 0,
    ensures
        gf_log(a) < 255,
        gf_exp(gf_log(a)) == a,
{
    lemma_exp_surjective(a);
}

/// The logarithm undoes `gf_exp`, up to the period.
pub proof fn lemma_log_exp(i: nat)
    ensures
        gf_log(gf_exp(i)) == i % 255,
{
    lemma_exp_mod(i);
    lemma_exp_nonzero(i);
    lemma_log(gf_exp(i));
    lemma_exp_injective(gf_log(gf_exp(i)), i % 255);
}

// ---------------------------------------------------------------------------
// Multiplication as repeated doubling
// ---------------------------------------------------------------------------

/// `b` multiplied `n` times by the generator.
spec fn scale(n: nat, b: u8) -> u8
    decreases n,
{
    if n == 0 {
        b
    } else {
        xtime(scale((n - 1) as nat, b))
    }
}

/// A power of the generator, multiplied `n` times by the generator, is the
/// power `n` higher.
proof fn lemma_scale_exp(n: nat, j: nat)
    ensures
        scale(n, gf_exp(j)) == gf_exp(n + j),
    decreases n,
{
    if n > 0 {
        lemma_scale_exp((n - 1) as nat, j);
    }
}

/// Multiplying `n` times by the generator is additive.
proof fn lemma_scale_xor(n: nat, b: u8, c: u8)
    ensures
        scale(n, b ^ c) == scale(n, b) ^ scale(n, c),
    decreases n,
{
    if n > 0 {
        lemma_scale_xor((n - 1) as nat, b, c);
        lemma_xtime_facts(scale((n - 1) as nat, b), scale((n - 1) as nat, c));
    }
}

/// Multiplying zero by the generator leaves zero.
proof fn lemma_scale_zero(n: nat)
    ensures
        scale(n, 0u8) == 0u8,
    decreases n,
{
    if n > 0 {
        lemma_scale_zero((n - 1) as nat);
        lemma_xtime_facts(0u8, 0u8);
    }
}

/// A product is its second factor multiplied by the generator as often as
/// the logarithm of the first says.
proof fn lemma_mul_scale(a: u8, b: u8)
    requires
        a != 0,
    ensures
        gf_mul(a, b) == scale(gf_log(a), b),
{
    if b == 0 {
        lemma_scale_zero(gf_log(a));
    } else {
        lemma_log(b);
        lemma_scale_exp(gf_log(a), gf_log(b));
    }
}

// ---------------------------------------------------------------------------
// The field laws
// ---------------------------------------------------------------------------

/// The product of two bytes as polynomials over GF(2), reduced by 0x11d:
/// the bits of `a` from the lowest up, each one adding `b` multiplied by a
/// further power of the generator.
pub open spec fn poly_mul(a: u8, b: u8) -> u8
    decreases a,
{
    if a == 0 {
        0u8
    } else {
        (if a % 2 == 1 { b } else { 0u8 }) ^ xtime(poly_mul(a / 2, b))
    }
}

/// Multiplication by the generator is `xtime`.
pub proof fn lemma_mul_two(b: u8)
    ensures
        gf_mul(2, b) == xtime(b),
{
    assert(xtime(1u8) == 2u8) by (bit_vector);
    assert(gf_exp(1) == 2) by {
        reveal_with_fuel(gf_exp, 2);
    }
    lemma_log_exp(1);
    lemma_mul_scale(2, b);
    assert(scale(1, b) == xtime(b)) by {
        reveal_with_fuel(scale, 2);
    }
}

/// The product in the field is the product of polynomials, reduced by
/// 0x11d.
pub proof fn lemma_mul_is_polynomial_product(a: u8, b: u8)
    ensures
        gf_mul(a, b) == poly_mul(a, b),
    decreases a,
{
    if a != 0 {
        let half = a / 2;
        let low: u8 = a % 2;
        lemma_mul_is_polynomial_product(half, b);
        assert(a / 2u8 < 128u8 && a == (a % 2u8) ^ xtime(a / 2u8)) by (bit_vector);
        lemma_mul_distributive(b, low, xtime(half));
        lemma_mul_two(half);
        lemma_mul_associative(2, half, b);
        lemma_mul_two(gf_mul(half, b));
        if low == 1 {
            lemma_mul_one(b);
        }
    }
}

/// Multiplication is commutative.
pub proof fn lemma_mul_commutative(a: u8, b: u8)
    ensures
        gf_mul(a, b) == gf_mul(b, a),
{
}

/// Zero annihilates: a product with zero on either side is zero.
pub proof fn lemma_mul_zero(a: u8)
    ensures
        gf_mul(a, 0) == 0,
        gf_mul(0, a) == 0,
{
}

/// One is neutral: a product with one on either side is the other factor.
pub proof fn lemma_mul_one(a: u8)
    ensures
        gf_mul(a, 1) == a,
        gf_mul(1, a) == a,
{
    if a != 0 {
        lemma_log_exp(0);
        lemma_log(a);
    }
}

/// The product of two powers of the generator is the power of the sum.
pub proof fn lemma_mul_exp(i: nat, j: nat)
    ensures
        gf_mul(gf_exp(i), gf_exp(j)) == gf_exp(i + j),
{
    lemma_exp_nonzero(i);
    lemma_exp_nonzero(j);
    lemma_log_exp(i);
    lemma_log_exp(j);
    lemma_exp_mod(i % 255 + j % 255);
    lemma_exp_mod(i + j);
    lemma_add_mod_noop(i as int, j as int, 255);
}

/// Multiplication is associative.
pub proof fn lemma_mul_associative(a: u8, b: u8, c: u8)
    ensures
        gf_mul(gf_mul(a, b), c) == gf_mul(a, gf_mul(b, c)),
{
    if a != 0 && b != 0 && c != 0 {
        let la = gf_log(a);
        let lb = gf_log(b);
        let lc = gf_log(c);
        lemma_log(a);
        lemma_log(b);
        lemma_log(c);
        lemma_mul_exp(la + lb, lc);
        lemma_mul_exp(la, lb + lc);
    }
}

/// Multiplication distributes over addition in the field, which is exclusive
/// or.
pub proof fn lemma_mul_distributive(a: u8, b: u8, c: u8)
    ensures
        gf_mul(a, b ^ c) == gf_mul(a, b) ^ gf_mul(a, c),
        gf_mul(b ^ c, a) == gf_mul(b, a) ^ gf_mul(c, a),
{
    if a == 0 {
        lemma_xor_zero(0u8);
    } else {
        lemma_mul_scale(a, b ^ c);
        lemma_mul_scale(a, b);
        lemma_mul_scale(a, c);
        lemma_scale_xor(gf_log(a), b, c);
    }
}

/// A nonzero element times its inverse is one, and the inverse is nonzero.
pub proof fn lemma_mul_inv(a: u8)
    requires
        a != 0,
    ensures
        gf_inv(a) != 0,
        gf_mul(a, gf_inv(a)) == 1,
        gf_mul(gf_inv(a), a) == 1,
{
    let la = gf_log(a);
    lemma_log(a);
    let e = (255 - la) as nat;
    lemma_exp_nonzero(e);
    lemma_mul_exp(la, e);
    lemma_exp_255();
}

/// Inverting twice gives the element back.
pub proof fn lemma_inv_inv(a: u8)
    requires
        a != 0,
    ensures
        gf_inv(gf_inv(a)) == a,
{
    let la = gf_log(a);
    lemma_log(a);
    let e = (255 - la) as nat;
    lemma_log_exp(e);
    if la == 0 {
        lemma_exp_255();
    }
}

// ---------------------------------------------------------------------------
// The tables
// ---------------------------------------------------------------------------

/// The field, held as its table of powers and its table of logarithms.
#[derive(Debug)]
pub struct Gf256 {
    exp: Vec<u8>,
    log: Vec<i16>,
}

/// The step that builds the table, on sixteen bits, is `xtime` on a byte.
proof fn lemma_exec_step(x: u16)
    requires
        x < 256,
    ensures
        ({
            let y: u16 = x << 1u16;
            if y & 0x100u16 != 0u16 {
                (y ^ 0x11du16) == xtime(x as u8) as u16
            } else {
                y == xtime(x as u8) as u16
            }
        }),
{
    assert(x < 256u16 ==> ({
        let y: u16 = x << 1u16;
        if y & 0x100u16 != 0u16 {
            (y ^ 0x11du16) == xtime(x as u8) as u16
        } else {
            y == xtime(x as u8) as u16
        }
    })) by (bit_vector);
}

impl Gf256 {
    #[verifier::type_invariant]
    spec fn tables_hold(self) -> bool {
        &&& self.exp@ =~= power_table()
        &&& self.log@ =~= logarithm_table()
    }

    /// The table of powers that this value holds.
    pub closed spec fn exp_table(&self) -> Seq<u8> {
        self.exp@
    }

    /// The table of logarithms that this value holds.
    pub closed spec fn log_table(&self) -> Seq<i16> {
        self.log@
    }

    /// Builds the two tables by walking the powers of the generator.
    pub fn new() -> (gf: Self)
        ensures
            gf.exp_table() == power_table(),
            gf.log_table() == logarithm_table(),
    {
        let mut exp: Vec<u8> = Vec::new();
        let mut log: Vec<i16> = Vec::new();
        while exp.len() < 512
            invariant
                exp.len() <= 512,
            decreases 512 - exp.len(),
        {
            exp.push(0u8);
        }
        while log.len() < 256
            invariant
                log.len() <= 256,
                forall|j: int| 0 <= j < log.len() ==> log@[j] == -1i16,
            decreases 256 - log.len(),
        {
            log.push(-1i16);
        }
        let mut x: u16 = 1;
        let mut i: usize = 0;
        while i < 255
            invariant
                i <= 255,
                exp.len() == 512,
                log.len() == 256,
                x == gf_exp(i as nat),
                log@[0] == -1i16,
                forall|j: int| 0 <= j < i ==> exp@[j] == gf_exp(j as nat),
                forall|a: u8| a != 0 && #[trigger] gf_log(a) < i ==> log@[a as int] == gf_log(a),
            decreases 255 - i,
        {
            proof {
                lemma_exp_nonzero(i as nat);
                lemma_exec_step(x);
                lemma_log_exp(i as nat);
                assert forall|a: u8| a != 0 && a != x && #[trigger] gf_log(a) < i + 1 implies gf_log(
                    a,
                ) < i by {
                    lemma_log(a);
                }
            }
            exp[i] = x as u8;
            log[x as usize] = i as i16;
            x = x << 1;
            if x & 0x100 != 0 {
                x = x ^ 0x11d;
            }
            i += 1;
        }
        let mut i: usize = 255;
        while i < 512
            invariant
                255 <= i <= 512,
                exp.len() == 512,
                forall|j: int| 0 <= j < i ==> exp@[j] == gf_exp(j as nat),
            decreases 512 - i,
        {
            proof {
                lemma_exp_periodic((i - 255) as nat);
            }
            exp[i] = exp[i - 255];
            i += 1;
        }
        proof {
            assert forall|a: int| 0 < a < 256 implies log@[a] == gf_log(a as u8) as i16 by {
                lemma_log(a as u8);
                assert(gf_log(a as u8) < 255);
            }
            assert(exp@ =~= power_table());
            assert(log@ =~= logarithm_table());
        }
        Gf256 { exp, log }
    }

    /// The generator raised to the power `i`, read from the table.
    pub fn exp_at(&self, i: usize) -> (r: u8)
        requires
            i < 512,
        ensures
            r == gf_exp(i as nat),
    {
        proof {
            use_type_invariant(self);
        }
        self.exp[i]
    }

    /// The table of the products of `factor` with every byte.
    pub fn mul_table(&self, factor: u8) -> (table: [u8; 256])
        ensures
            forall|x: int| 0 <= x < 256 ==> table@[x] == gf_mul(factor, x as u8),
    {
        let mut table = [0u8;256];
        if factor == 0 {
            return table;
        }
        proof {
            use_type_invariant(self);
            lemma_log(factor);
        }
        let log_factor = self.log[factor as usize] as i32;
        let mut i: usize = 1;
        while i < 256
            invariant
                1 <= i <= 256,
                factor != 0,
                log_factor == gf_log(factor),
                log_factor < 255,
                self.exp@ == power_table(),
                self.log@ == logarithm_table(),
                forall|x: int| 0 <= x < i ==> table@[x] == gf_mul(factor, x as u8),
            decreases 256 - i,
        {
            proof {
                lemma_log(i as u8);
            }
            let log_i = self.log[i] as i32;
            table[i] = self.exp[(log_i + log_factor) as usize];
            i += 1;
        }
        table
    }

    /// The product of `a` and `b` in the field.
    pub fn mul(&self, a: u8, b: u8) -> (r: u8)
        ensures
            r == gf_mul(a, b),
    {
        if a == 0 || b == 0 {
            0
        } else {
            proof {
                use_type_invariant(self);
                lemma_log(a);
                lemma_log(b);
            }
            let la = self.log[a as usize] as i32;
            let lb = self.log[b as usize] as i32;
            self.exp[(la + lb) as usize]
        }
    }

    /// The multiplicative inverse of `a`; zero has none.
    pub fn inv(&self, a: u8) -> (r: Result<u8, CodecError>)
        ensures
            a == 0 ==> r == Err::<u8, CodecError>(CodecError::DomainError),
            a != 0 ==> r == Ok::<u8, CodecError>(gf_inv(a)),
    {
        if a == 0 {
            return Err(CodecError::DomainError);
        }
        proof {
            use_type_invariant(self);
            lemma_log(a);
        }
        let la = self.log[a as usize] as i32;
        Ok(self.exp[(255 - la) as usize])
    }
}

impl Clone for Gf256 {
    fn clone(&self) -> (gf: Self)
        ensures
            gf.exp_table() == power_table(),
            gf.log_table() == logarithm_table(),
    {
        proof {
            use_type_invariant(self);
        }
        Gf256 { exp: self.exp.clone(), log: self.log.clone() }
    }
}

impl Default for Gf256 {
    fn default() -> (gf: Self)
        ensures
            gf.exp_table() == power_table(),
            gf.log_table() == logarithm_table(),
    {
        Gf256::new()
    }
}

} // verus!
