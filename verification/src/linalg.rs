//! Vectors and matrices over GF(2^8) as sequences of bytes: sums, dot
//! products, and the products of vectors with matrices.

use vstd::prelude::*;
use crate::gauss::lemma_not_singular_invertible;
use crate::gf256::{
    gf_mul, lemma_mul_associative, lemma_mul_distributive, lemma_mul_one, lemma_xor_zero,
};

verus! {

/// The sum in the field, that is the exclusive or, of the bytes of `t`.
pub open spec fn xor_sum(t: Seq<u8>) -> u8
    decreases t.len(),
{
    if t.len() == 0 {
        0u8
    } else {
        xor_sum(t.drop_last()) ^ t.last()
    }
}

/// The products of the entries of `v` with those of `w`, place by place.
pub open spec fn products(v: Seq<u8>, w: Seq<u8>) -> Seq<u8> {
    Seq::new(v.len(), |i: int| gf_mul(v[i], w[i]))
}

/// The dot product of two vectors of one length.
pub open spec fn dot(v: Seq<u8>, w: Seq<u8>) -> u8 {
    xor_sum(products(v, w))
}

/// The sum of two vectors of one length.
pub open spec fn vec_xor(v: Seq<u8>, w: Seq<u8>) -> Seq<u8> {
    Seq::new(v.len(), |i: int| v[i] ^ w[i])
}

/// The vector `v` with each entry multiplied by `c`.
pub open spec fn vec_scale(c: u8, v: Seq<u8>) -> Seq<u8> {
    Seq::new(v.len(), |i: int| gf_mul(c, v[i]))
}

/// The vector of `n` zeros.
pub open spec fn zeros(n: nat) -> Seq<u8> {
    Seq::new(n, |i: int| 0u8)
}

/// The vector of length `n` with 1 at place `k` and 0 elsewhere.
pub open spec fn unit(n: nat, k: int) -> Seq<u8> {
    Seq::new(n, |i: int| if i == k { 1u8 } else { 0u8 })
}

/// `m` has `rows` rows, each of length `cols`.
pub open spec fn is_matrix(m: Seq<Seq<u8>>, rows: nat, cols: nat) -> bool {
    &&& m.len() == rows
    &&& forall|r: int| 0 <= r < rows ==> (#[trigger] m[r]).len() == cols
}

/// Column `j` of `m`.
pub open spec fn column(m: Seq<Seq<u8>>, j: int) -> Seq<u8> {
    Seq::new(m.len(), |i: int| m[i][j])
}

/// The number of columns of `m`: the length of its first row.
pub open spec fn width(m: Seq<Seq<u8>>) -> nat {
    if m.len() == 0 {
        0
    } else {
        m[0].len()
    }
}

/// The row vector `v` times the matrix `m`.
pub open spec fn vec_mat(v: Seq<u8>, m: Seq<Seq<u8>>) -> Seq<u8> {
    Seq::new(width(m), |j: int| dot(v, column(m, j)))
}

/// The matrix `m` times the column vector `x`.
pub open spec fn mat_vec(m: Seq<Seq<u8>>, x: Seq<u8>) -> Seq<u8> {
    Seq::new(m.len(), |r: int| dot(m[r], x))
}

/// The product of two matrices.
pub open spec fn mat_mul(a: Seq<Seq<u8>>, b: Seq<Seq<u8>>) -> Seq<Seq<u8>> {
    Seq::new(a.len(), |r: int| vec_mat(a[r], b))
}

/// The identity matrix of size `n`.
pub open spec fn identity(n: nat) -> Seq<Seq<u8>> {
    Seq::new(n, |r: int| unit(n, r))
}

/// `b` is the inverse of the `n` by `n` matrix `m`, on both sides.
pub open spec fn is_inverse(b: Seq<Seq<u8>>, m: Seq<Seq<u8>>, n: nat) -> bool {
    &&& is_matrix(m, n, n)
    &&& is_matrix(b, n, n)
    &&& mat_mul(b, m) == identity(n)
    &&& mat_mul(m, b) == identity(n)
}

/// The `n` by `n` matrix `a` has an inverse.
pub open spec fn invertible(a: Seq<Seq<u8>>, n: nat) -> bool {
    exists|b: Seq<Seq<u8>>| is_inverse(b, a, n)
}

/// The columns of the `n` by `n` matrix `m` are linearly dependent: some
/// vector other than zero is taken to zero.
pub open spec fn singular(m: Seq<Seq<u8>>, n: nat) -> bool {
    exists|x: Seq<u8>| #[trigger] null_vector(m, n, x)
}

/// `x` is a vector other than zero that `m` takes to zero.
pub open spec fn null_vector(m: Seq<Seq<u8>>, n: nat, x: Seq<u8>) -> bool {
    &&& x.len() == n
    &&& x != zeros(n)
    &&& mat_vec(m, x) == zeros(n)
}

// ---------------------------------------------------------------------------
// Sums
// ---------------------------------------------------------------------------

/// Sums of four bytes may be regrouped, and adding a byte twice adds
/// nothing.
proof fn lemma_xor_shuffle(a: u8, b: u8, c: u8, d: u8)
    ensures
        (a ^ b) ^ (c ^ d) == (a ^ c) ^ (b ^ d),
        ((a ^ b) ^ c) ^ d == ((a ^ c) ^ d) ^ b,
        ((a ^ b) ^ b) == a,
{
    assert((a ^ b) ^ (c ^ d) == (a ^ c) ^ (b ^ d)) by (bit_vector);
    assert(((a ^ b) ^ c) ^ d == ((a ^ c) ^ d) ^ b) by (bit_vector);
    assert(((a ^ b) ^ b) == a) by (bit_vector);
}

/// A sum of zeros is zero.
pub proof fn lemma_xor_sum_zero(t: Seq<u8>)
    requires
        forall|i: int| 0 <= i < t.len() ==> t[i] == 0,
    ensures
        xor_sum(t) == 0,
    decreases t.len(),
{
    if t.len() > 0 {
        lemma_xor_sum_zero(t.drop_last());
        lemma_xor_zero(0u8);
    }
}

/// Replacing one term changes the sum by the old term and the new one.
pub proof fn lemma_xor_sum_update(t: Seq<u8>, a: int, x: u8)
    requires
        0 <= a < t.len(),
    ensures
        xor_sum(t.update(a, x)) == (xor_sum(t) ^ t[a]) ^ x,
    decreases t.len(),
{
    let s = xor_sum(t.drop_last());
    if a == t.len() - 1 {
        assert(t.update(a, x).drop_last() =~= t.drop_last());
        lemma_xor_shuffle(s, t[a], 0, 0);
    } else {
        assert(t.update(a, x).drop_last() =~= t.drop_last().update(a, x));
        lemma_xor_sum_update(t.drop_last(), a, x);
        lemma_xor_shuffle(s, t.last(), t[a], x);
    }
}

/// The sum of the sums of two vectors is the sum of their sum.
pub proof fn lemma_xor_sum_xor(s: Seq<u8>, t: Seq<u8>)
    requires
        s.len() == t.len(),
    ensures
        xor_sum(vec_xor(s, t)) == xor_sum(s) ^ xor_sum(t),
    decreases s.len(),
{
    if s.len() == 0 {
        lemma_xor_zero(0u8);
    } else {
        assert(vec_xor(s, t).drop_last() =~= vec_xor(s.drop_last(), t.drop_last()));
        lemma_xor_sum_xor(s.drop_last(), t.drop_last());
        lemma_xor_shuffle(xor_sum(s.drop_last()), s.last(), xor_sum(t.drop_last()), t.last());
    }
}

/// A common factor may be taken out of a sum.
pub proof fn lemma_xor_sum_scale(c: u8, t: Seq<u8>)
    ensures
        xor_sum(vec_scale(c, t)) == gf_mul(c, xor_sum(t)),
    decreases t.len(),
{
    if t.len() > 0 {
        assert(vec_scale(c, t).drop_last() =~= vec_scale(c, t.drop_last()));
        lemma_xor_sum_scale(c, t.drop_last());
        lemma_mul_distributive(c, xor_sum(t.drop_last()), t.last());
    }
}

// ---------------------------------------------------------------------------
// Dot products
// ---------------------------------------------------------------------------

/// The dot product is additive in its first argument.
pub proof fn lemma_dot_xor(a: Seq<u8>, b: Seq<u8>, x: Seq<u8>)
    requires
        a.len() == b.len(),
        a.len() == x.len(),
    ensures
        dot(vec_xor(a, b), x) == dot(a, x) ^ dot(b, x),
{
    assert(products(vec_xor(a, b), x) =~= vec_xor(products(a, x), products(b, x))) by {
        assert forall|i: int| 0 <= i < a.len() implies gf_mul(a[i] ^ b[i], x[i]) == gf_mul(
            a[i],
            x[i],
        ) ^ gf_mul(b[i], x[i]) by {
            lemma_mul_distributive(x[i], a[i], b[i]);
        }
    }
    lemma_xor_sum_xor(products(a, x), products(b, x));
}

/// A factor of the first argument may be taken out of a dot product.
pub proof fn lemma_dot_scale(c: u8, a: Seq<u8>, x: Seq<u8>)
    requires
        a.len() == x.len(),
    ensures
        dot(vec_scale(c, a), x) == gf_mul(c, dot(a, x)),
{
    assert(products(vec_scale(c, a), x) =~= vec_scale(c, products(a, x))) by {
        assert forall|i: int| 0 <= i < a.len() implies gf_mul(gf_mul(c, a[i]), x[i]) == gf_mul(
            c,
            gf_mul(a[i], x[i]),
        ) by {
            lemma_mul_associative(c, a[i], x[i]);
        }
    }
    lemma_xor_sum_scale(c, products(a, x));
}

/// The dot product with the zero vector is zero.
pub proof fn lemma_dot_zero(a: Seq<u8>)
    ensures
        dot(a, zeros(a.len())) == 0,
        dot(zeros(a.len()), a) == 0,
{
    lemma_xor_sum_zero(products(a, zeros(a.len())));
    lemma_xor_sum_zero(products(zeros(a.len()), a));
}

/// The dot product with a unit vector picks an entry.
pub proof fn lemma_dot_unit(a: Seq<u8>, k: int)
    requires
        0 <= k < a.len(),
    ensures
        dot(a, unit(a.len(), k)) == a[k],
        dot(unit(a.len(), k), a) == a[k],
{
    let z = zeros(a.len());
    lemma_xor_sum_zero(z);
    lemma_xor_sum_update(z, k, a[k]);
    lemma_xor_zero(a[k]);
    lemma_xor_zero(0u8);
    lemma_mul_one(a[k]);
    assert(products(a, unit(a.len(), k)) =~= z.update(k, a[k]));
    assert(products(unit(a.len(), k), a) =~= z.update(k, a[k]));
}

// ---------------------------------------------------------------------------
// Products with matrices
// ---------------------------------------------------------------------------

/// The combination of the rows of `m` with the coefficients `v`, `cols`
/// entries wide: entry `j` is the dot product of `v` with column `j`.
pub open spec fn combine(v: Seq<u8>, m: Seq<Seq<u8>>, cols: nat) -> Seq<u8> {
    Seq::new(cols, |j: int| dot(v, column(m, j)))
}

/// A combination of rows is that of all rows but the last, plus the last
/// row times its coefficient.
proof fn lemma_combine_split(v: Seq<u8>, m: Seq<Seq<u8>>, cols: nat)
    requires
        v.len() > 0,
        is_matrix(m, v.len(), cols),
    ensures
        combine(v, m, cols) == vec_xor(
            combine(v.drop_last(), m.drop_last(), cols),
            vec_scale(v.last(), m.last()),
        ),
{
    assert forall|j: int| 0 <= j < cols implies dot(v, column(m, j)) == dot(
        v.drop_last(),
        column(m.drop_last(), j),
    ) ^ gf_mul(v.last(), m.last()[j]) by {
        assert(products(v, column(m, j)).drop_last() =~= products(
            v.drop_last(),
            column(m.drop_last(), j),
        ));
    }
    assert(combine(v, m, cols) =~= vec_xor(
        combine(v.drop_last(), m.drop_last(), cols),
        vec_scale(v.last(), m.last()),
    ));
}

/// A combination of rows, then a dot product, is a dot product with the
/// matrix applied to the other vector.
pub proof fn lemma_combine_dot(v: Seq<u8>, m: Seq<Seq<u8>>, x: Seq<u8>)
    requires
        is_matrix(m, v.len(), x.len()),
    ensures
        dot(combine(v, m, x.len()), x) == dot(v, mat_vec(m, x)),
    decreases v.len(),
{
    let cols = x.len();
    if v.len() == 0 {
        assert(combine(v, m, cols) =~= zeros(cols));
        lemma_dot_zero(x);
    } else {
        let v1 = v.drop_last();
        let m1 = m.drop_last();
        lemma_combine_split(v, m, cols);
        lemma_combine_dot(v1, m1, x);
        lemma_dot_xor(combine(v1, m1, cols), vec_scale(v.last(), m.last()), x);
        lemma_dot_scale(v.last(), m.last(), x);
        assert(products(v, mat_vec(m, x)).drop_last() =~= products(v1, mat_vec(m1, x)));
    }
}

/// A row vector times a matrix times a column vector may be bracketed
/// either way.
pub proof fn lemma_dot_associative(v: Seq<u8>, m: Seq<Seq<u8>>, x: Seq<u8>)
    requires
        v.len() > 0,
        is_matrix(m, v.len(), x.len()),
    ensures
        dot(vec_mat(v, m), x) == dot(v, mat_vec(m, x)),
{
    assert(vec_mat(v, m) =~= combine(v, m, x.len()));
    lemma_combine_dot(v, m, x);
}

/// A row vector times the product of two matrices is the vector times the
/// first, times the second.
pub proof fn lemma_vec_mat_associative(
    v: Seq<u8>,
    a: Seq<Seq<u8>>,
    b: Seq<Seq<u8>>,
    q: nat,
    s: nat,
)
    requires
        v.len() > 0,
        q > 0,
        is_matrix(a, v.len(), q),
        is_matrix(b, q, s),
    ensures
        vec_mat(vec_mat(v, a), b) == vec_mat(v, mat_mul(a, b)),
{
    assert(width(mat_mul(a, b)) == s) by {
        assert(mat_mul(a, b)[0] == vec_mat(a[0], b));
    }
    assert forall|j: int| 0 <= j < s implies dot(vec_mat(v, a), column(b, j)) == dot(
        v,
        column(mat_mul(a, b), j),
    ) by {
        lemma_dot_associative(v, a, column(b, j));
        assert(column(mat_mul(a, b), j) =~= mat_vec(a, column(b, j)));
    }
    assert(vec_mat(vec_mat(v, a), b) =~= vec_mat(v, mat_mul(a, b)));
}

/// A row vector times the identity matrix is the vector.
pub proof fn lemma_vec_mat_identity(v: Seq<u8>)
    requires
        v.len() > 0,
    ensures
        vec_mat(v, identity(v.len())) == v,
{
    let n = v.len();
    assert(identity(n)[0] == unit(n, 0));
    assert forall|j: int| 0 <= j < n implies dot(v, column(identity(n), j)) == v[j] by {
        assert(column(identity(n), j) =~= unit(n, j));
        lemma_dot_unit(v, j);
    }
    assert(vec_mat(v, identity(n)) =~= v);
}

/// A unit vector times a matrix picks a row.
pub proof fn lemma_unit_vec_mat(m: Seq<Seq<u8>>, n: nat, cols: nat, r: int)
    requires
        0 <= r < n,
        is_matrix(m, n, cols),
    ensures
        vec_mat(unit(n, r), m) == m[r],
{
    assert forall|j: int| 0 <= j < cols implies dot(unit(n, r), column(m, j)) == m[r][j] by {
        lemma_dot_unit(column(m, j), r);
    }
    assert(m[0].len() == cols);
    assert(vec_mat(unit(n, r), m) =~= m[r]);
}

/// Multiplying a vector by a matrix and then by its inverse gives the
/// vector back.
pub proof fn lemma_inverse_round_trip(v: Seq<u8>, m: Seq<Seq<u8>>, b: Seq<Seq<u8>>, n: nat)
    requires
        n > 0,
        v.len() == n,
        is_inverse(b, m, n),
    ensures
        vec_mat(vec_mat(v, m), b) == v,
{
    lemma_vec_mat_associative(v, m, b, n, n);
    lemma_vec_mat_identity(v);
}

/// A matrix has at most one inverse.
pub proof fn lemma_inverse_unique(b1: Seq<Seq<u8>>, b2: Seq<Seq<u8>>, m: Seq<Seq<u8>>, n: nat)
    requires
        n > 0,
        is_inverse(b1, m, n),
        is_inverse(b2, m, n),
    ensures
        b1 == b2,
{
    assert forall|r: int| 0 <= r < n implies b1[r] == b2[r] by {
        lemma_vec_mat_identity(b1[r]);
        lemma_vec_mat_associative(b1[r], m, b2, n, n);
        assert(vec_mat(b1[r], m) == mat_mul(b1, m)[r]);
        assert(identity(n)[r] == unit(n, r));
        lemma_unit_vec_mat(b2, n, n, r);
    }
    assert(b1 =~= b2);
}

/// The inverse of the inverse is the matrix itself.
pub proof fn lemma_inverse_of_inverse(b: Seq<Seq<u8>>, m: Seq<Seq<u8>>, c: Seq<Seq<u8>>, n: nat)
    requires
        n > 0,
        is_inverse(b, m, n),
        is_inverse(c, b, n),
    ensures
        c == m,
{
    lemma_inverse_unique(c, m, b, n);
}

/// A matrix with an inverse takes no vector but zero to zero.
pub proof fn lemma_inverse_not_singular(b: Seq<Seq<u8>>, m: Seq<Seq<u8>>, n: nat)
    requires
        n > 0,
        is_inverse(b, m, n),
    ensures
        !singular(m, n),
{
    assert forall|x: Seq<u8>| !null_vector(m, n, x) by {
        if null_vector(m, n, x) {
            assert forall|j: int| 0 <= j < n implies x[j] == 0 by {
                lemma_dot_associative(b[j], m, x);
                assert(vec_mat(b[j], m) == mat_mul(b, m)[j]);
                assert(identity(n)[j] == unit(n, j));
                lemma_dot_unit(x, j);
                lemma_dot_zero(b[j]);
            }
            assert(x =~= zeros(n));
        }
    }
}

/// A square matrix has an inverse exactly when it is not singular.
pub proof fn lemma_invertible_iff_not_singular(m: Seq<Seq<u8>>, n: nat)
    requires
        n > 0,
        is_matrix(m, n, n),
    ensures
        invertible(m, n) <==> !singular(m, n),
{
    if invertible(m, n) {
        let b = choose|b: Seq<Seq<u8>>| is_inverse(b, m, n);
        lemma_inverse_not_singular(b, m, n);
    }
    if !singular(m, n) {
        lemma_not_singular_invertible(m, n);
    }
}

} // verus!
