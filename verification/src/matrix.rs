//! Dense byte matrices over GF(2^8): the product of a vector with a matrix,
//! inversion by Gauss-Jordan elimination, and the coding matrix.

use vstd::prelude::*;
use vstd::arithmetic::div_mod::lemma_mul_mod_noop_general;
use crate::error::CodecError;
use crate::gauss::{add_col, add_row, lemma_row_equiv_add, lemma_row_equiv_done,
    lemma_row_equiv_scale, lemma_row_equiv_start, lemma_row_equiv_stuck, lemma_row_equiv_swap,
    lemma_unit_columns_add, lemma_unit_columns_next, lemma_unit_columns_scale,
    lemma_unit_columns_swap, row_equiv, scale_col, scale_row, swap_cols, swapped, unit_columns};
use crate::gf256::{gf_exp, gf_mul, lemma_exp_mod, lemma_mul_inv, lemma_mul_zero, lemma_xor_zero,
    Gf256};
use crate::linalg::{column, identity, is_inverse, is_matrix, lemma_inverse_not_singular,
    products, singular, unit, vec_mat, vec_scale, vec_xor, width, xor_sum};

verus! {

/// A matrix, held row by row.
pub type Matrix = Vec<Vec<u8>>;

/// The coding matrix for `k` data shards and `m` parity shards: row `r`
/// holds the powers of the generator raised to `r + k`.
pub open spec fn vandermonde(k: nat, m: nat) -> Seq<Seq<u8>> {
    Seq::new(m, |r: int| Seq::new(k, |c: int| gf_exp((((r + k) * c) % 255) as nat)))
}

/// `v` with the entries from `from` on multiplied by `c`.
pub open spec fn scaled_from(c: u8, v: Seq<u8>, from: int) -> Seq<u8> {
    Seq::new(v.len(), |j: int| if j < from { v[j] } else { gf_mul(c, v[j]) })
}

/// `v` with `x` times `s` added to the entries from `from` on.
pub open spec fn added_from(v: Seq<u8>, x: u8, s: Seq<u8>, from: int) -> Seq<u8> {
    Seq::new(v.len(), |j: int| if j < from { v[j] } else { v[j] ^ gf_mul(x, s[j]) })
}

/// What `mul_vec_matrix` asks of its arguments: a matrix with at least one
/// row, rows of one length, and as many rows as the vector has entries.
pub open spec fn shapes_agree(v: Seq<u8>, m: Seq<Seq<u8>>) -> bool {
    &&& m.len() > 0
    &&& v.len() == m.len()
    &&& is_matrix(m, m.len(), width(m))
}

/// Tells whether every row of `mat` has length `cols`.
fn rows_have_length(mat: &[Vec<u8>], cols: usize) -> (b: bool)
    ensures
        b == is_matrix(mat.deep_view(), mat@.len(), cols as nat),
{
    let mut r: usize = 0;
    while r < mat.len()
        invariant
            r <= mat@.len(),
            forall|i: int| 0 <= i < r ==> (#[trigger] mat.deep_view()[i]).len() == cols,
        decreases mat@.len() - r,
    {
        if mat[r].len() != cols {
            assert(mat.deep_view()[r as int].len() != cols);
            return false;
        }
        r += 1;
    }
    true
}

/// The product of the row vector `vec` with `mat`: entry `j` is the dot
/// product of `vec` with column `j`.
pub fn mul_vec_matrix(gf: &Gf256, vec: &[u8], mat: &Matrix) -> (r: Result<Vec<u8>, CodecError>)
    ensures
        shapes_agree(vec@, mat.deep_view()) ==> r is Ok && r->Ok_0@ == vec_mat(
            vec@,
            mat.deep_view(),
        ),
        !shapes_agree(vec@, mat.deep_view()) ==> r == Err::<Vec<u8>, CodecError>(
            CodecError::ShapeError,
        ),
{
    let k = mat.len();
    if k == 0 || vec.len() != k {
        return Err(CodecError::ShapeError);
    }
    let cols = mat[0].len();
    assert(mat.deep_view()[0].len() == cols);
    let rows = mat.as_slice();
    assert(rows.deep_view() =~~= mat.deep_view());
    if !rows_have_length(rows, cols) {
        return Err(CodecError::ShapeError);
    }
    let ghost m = mat.deep_view();
    assert(width(m) == cols);
    let mut result: Vec<u8> = Vec::new();
    let mut j: usize = 0;
    while j < cols
        invariant
            j <= cols,
            k == mat@.len(),
            k == vec@.len(),
            m == mat.deep_view(),
            is_matrix(m, k as nat, cols as nat),
            width(m) == cols,
            result@.len() == j,
            forall|c: int| 0 <= c < j ==> result@[c] == vec_mat(vec@, m)[c],
        decreases cols - j,
    {
        let ghost p = products(vec@, column(m, j as int));
        let mut sum: u8 = 0;
        let mut i: usize = 0;
        while i < k
            invariant
                i <= k,
                j < cols,
                k == mat@.len(),
                k == vec@.len(),
                m == mat.deep_view(),
                is_matrix(m, k as nat, cols as nat),
                p == products(vec@, column(m, j as int)),
                sum == xor_sum(p.take(i as int)),
            decreases k - i,
        {
            proof {
                assert(p.take(i + 1).drop_last() =~= p.take(i as int));
                assert(m[i as int][j as int] == mat@[i as int]@[j as int]);
            }
            let prod = gf.mul(vec[i], mat[i][j]);
            sum = sum ^ prod;
            i += 1;
        }
        proof {
            assert(p.take(k as int) =~= p);
        }
        result.push(sum);
        j += 1;
    }
    proof {
        assert(result@ =~= vec_mat(vec@, m));
    }
    Ok(result)
}

/// Multiplies the entries of row `row` from column `from` on by `c`.
fn scale_row_from(gf: &Gf256, m: &mut Matrix, row: usize, c: u8, from: usize)
    requires
        row < old(m)@.len(),
    ensures
        final(m)@.len() == old(m)@.len(),
        forall|r: int| 0 <= r < old(m)@.len() && r != row ==> final(m)@[r] == old(m)@[r],
        final(m)@[row as int]@ == scaled_from(c, old(m)@[row as int]@, from as int),
{
    let len = m[row].len();
    let ghost before = m@[row as int]@;
    let mut j: usize = from;
    while j < len
        invariant
            from <= j,
            row < m@.len(),
            m@.len() == old(m)@.len(),
            before == old(m)@[row as int]@,
            m@[row as int]@.len() == len,
            before.len() == len,
            forall|r: int| 0 <= r < m@.len() && r != row ==> m@[r] == old(m)@[r],
            forall|i: int|
                0 <= i < len ==> m@[row as int]@[i] == (if from <= i < j {
                    gf_mul(c, before[i])
                } else {
                    before[i]
                }),
        decreases len - j,
    {
        let v = gf.mul(c, m[row][j]);
        m[row][j] = v;
        j += 1;
    }
    proof {
        assert(m@[row as int]@ =~= scaled_from(c, before, from as int));
    }
}

/// Adds `x` times row `source` to row `target`, in the entries from column
/// `from` on.
fn add_scaled_row_from(
    gf: &Gf256,
    m: &mut Matrix,
    target: usize,
    source: usize,
    x: u8,
    from: usize,
)
    requires
        target < old(m)@.len(),
        source < old(m)@.len(),
        target != source,
        old(m)@[target as int]@.len() == old(m)@[source as int]@.len(),
    ensures
        final(m)@.len() == old(m)@.len(),
        forall|r: int| 0 <= r < old(m)@.len() && r != target ==> final(m)@[r] == old(m)@[r],
        final(m)@[target as int]@ == added_from(
            old(m)@[target as int]@,
            x,
            old(m)@[source as int]@,
            from as int,
        ),
{
    let len = m[target].len();
    let ghost before = m@[target as int]@;
    let ghost src = m@[source as int]@;
    let mut j: usize = from;
    while j < len
        invariant
            from <= j,
            target < m@.len(),
            source < m@.len(),
            target != source,
            m@.len() == old(m)@.len(),
            before == old(m)@[target as int]@,
            src == old(m)@[source as int]@,
            m@[target as int]@.len() == len,
            before.len() == len,
            src.len() == len,
            forall|r: int| 0 <= r < m@.len() && r != target ==> m@[r] == old(m)@[r],
            forall|i: int|
                0 <= i < len ==> m@[target as int]@[i] == (if from <= i < j {
                    before[i] ^ gf_mul(x, src[i])
                } else {
                    before[i]
                }),
        decreases len - j,
    {
        let prod = gf.mul(x, m[source][j]);
        let v = m[target][j] ^ prod;
        m[target][j] = v;
        j += 1;
    }
    proof {
        assert(m@[target as int]@ =~= added_from(before, x, src, from as int));
    }
}

/// Exchanges the rows `a` and `b`.
fn swap_rows(m: &mut Matrix, a: usize, b: usize)
    requires
        a < old(m)@.len(),
        b < old(m)@.len(),
    ensures
        final(m)@ == swapped(old(m)@, a as int, b as int),
{
    if a != b {
        let mut held: Vec<u8> = Vec::new();
        core::mem::swap(&mut held, &mut m[a]);
        core::mem::swap(&mut held, &mut m[b]);
        core::mem::swap(&mut held, &mut m[a]);
    }
    proof {
        assert(m@ =~= swapped(old(m)@, a as int, b as int));
    }
}

/// The identity matrix of size `n`.
fn identity_matrix(n: usize) -> (e: Matrix)
    ensures
        e.deep_view() == identity(n as nat),
{
    let mut e: Matrix = Vec::new();
    let mut r: usize = 0;
    while r < n
        invariant
            r <= n,
            e@.len() == r,
            forall|i: int| 0 <= i < r ==> (#[trigger] e@[i])@ == unit(n as nat, i),
        decreases n - r,
    {
        let mut row = vec![0u8; n];
        row[r] = 1u8;
        assert(row@ =~= unit(n as nat, r as int));
        e.push(row);
        r += 1;
    }
    proof {
        assert(e.deep_view() =~~= identity(n as nat));
    }
    e
}

/// A copy of `mat`, row by row.
fn copy_rows(mat: &[Vec<u8>]) -> (l: Matrix)
    ensures
        l.deep_view() == mat.deep_view(),
{
    let mut l: Matrix = Vec::new();
    let mut r: usize = 0;
    while r < mat.len()
        invariant
            r <= mat@.len(),
            l@.len() == r,
            forall|i: int| 0 <= i < r ==> (#[trigger] l@[i])@ == mat@[i]@,
        decreases mat@.len() - r,
    {
        let row = mat[r].clone();
        assert(row@ =~= mat@[r as int]@);
        l.push(row);
        r += 1;
    }
    proof {
        assert(l.deep_view() =~~= mat.deep_view());
    }
    l
}

/// The first row at or below the diagonal with a nonzero entry in column
/// `col`, or `n` when there is none.
fn find_pivot(l: &Matrix, n: usize, col: usize) -> (pivot: usize)
    requires
        is_matrix(l.deep_view(), n as nat, n as nat),
        col < n,
    ensures
        col <= pivot <= n,
        forall|r: int| col <= r < pivot ==> l.deep_view()[r][col as int] == 0,
        pivot < n ==> l.deep_view()[pivot as int][col as int] != 0,
{
    let mut pivot: usize = col;
    while pivot < n
        invariant
            col <= pivot <= n,
            col < n,
            is_matrix(l.deep_view(), n as nat, n as nat),
            forall|r: int| col <= r < pivot ==> l.deep_view()[r][col as int] == 0,
        decreases n - pivot,
    {
        assert(l.deep_view()[pivot as int].len() == n);
        if l[pivot][col] != 0 {
            return pivot;
        }
        pivot += 1;
    }
    pivot
}

/// The inverse of a square matrix, by Gauss-Jordan elimination on the
/// matrix and an identity matrix side by side: for each column in turn the
/// first row at or below the diagonal with a nonzero entry is brought up
/// and normalised, and the column is cleared in every other row.
///
/// A matrix that is empty or not square is refused; one whose columns are
/// linearly dependent has no inverse.
pub fn invert_matrix(gf: &Gf256, mat: &[Vec<u8>]) -> (r: Result<Matrix, CodecError>)
    ensures
        ({
            let n = mat@.len();
            let m = mat.deep_view();
            if n == 0 || !is_matrix(m, n, n) {
                r == Err::<Matrix, CodecError>(CodecError::ShapeError)
            } else if singular(m, n) {
                r == Err::<Matrix, CodecError>(CodecError::SingularMatrix)
            } else {
                r is Ok && is_inverse(r->Ok_0.deep_view(), m, n)
            }
        }),
{
    let n = mat.len();
    if n == 0 || !rows_have_length(mat, n) {
        return Err(CodecError::ShapeError);
    }
    let ghost m0 = mat.deep_view();
    let mut l = copy_rows(mat);
    let mut e = identity_matrix(n);
    let ghost mut f = identity(n as nat);
    proof {
        lemma_row_equiv_start(m0, n as nat);
    }
    let mut col: usize = 0;
    while col < n
        invariant
            col <= n,
            n > 0,
            m0 == mat.deep_view(),
            row_equiv(m0, l.deep_view(), e.deep_view(), f, n as nat),
            unit_columns(l.deep_view(), n as nat, col as int),
        decreases n - col,
    {
        let pivot = find_pivot(&l, n, col);
        if pivot == n {
            proof {
                lemma_row_equiv_stuck(m0, l.deep_view(), e.deep_view(), f, n as nat, col as int);
            }
            return Err(CodecError::SingularMatrix);
        }
        let ghost l0 = l.deep_view();
        let ghost e0 = e.deep_view();
        swap_rows(&mut l, col, pivot);
        swap_rows(&mut e, col, pivot);
        proof {
            lemma_row_equiv_swap(m0, l0, e0, f, n as nat, col as int, pivot as int);
            lemma_unit_columns_swap(l0, n as nat, col as int, pivot as int);
            f = swap_cols(f, col as int, pivot as int);
            assert(l.deep_view() =~~= swapped(l0, col as int, pivot as int));
            assert(e.deep_view() =~~= swapped(e0, col as int, pivot as int));
        }
        let ghost l1 = l.deep_view();
        let ghost e1 = e.deep_view();
        assert(l1[col as int].len() == n);
        let p = l[col][col];
        let c = match gf.inv(p) {
            Ok(c) => c,
            Err(err) => {
                return Err(err);
            },
        };
        scale_row_from(gf, &mut l, col, c, col);
        scale_row_from(gf, &mut e, col, c, 0);
        proof {
            lemma_mul_inv(p);
            lemma_row_equiv_scale(m0, l1, e1, f, n as nat, col as int, c, p);
            lemma_unit_columns_scale(l1, n as nat, col as int, c);
            f = scale_col(f, col as int, p);
            assert(l.deep_view()[col as int] =~= vec_scale(c, l1[col as int])) by {
                assert forall|j: int| 0 <= j < col implies gf_mul(c, l1[col as int][j])
                    == l1[col as int][j] by {
                    assert(l1[col as int][j] == (if col as int == j { 1u8 } else { 0u8 }));
                    lemma_mul_zero(c);
                }
            }
            assert(e.deep_view()[col as int] =~= vec_scale(c, e1[col as int]));
            assert(l.deep_view() =~~= scale_row(l1, col as int, c));
            assert(e.deep_view() =~~= scale_row(e1, col as int, c));
        }
        let mut row: usize = 0;
        while row < n
            invariant
                row <= n,
                col < n,
                m0 == mat.deep_view(),
                row_equiv(m0, l.deep_view(), e.deep_view(), f, n as nat),
                unit_columns(l.deep_view(), n as nat, col as int),
                l.deep_view()[col as int][col as int] == 1u8,
                forall|r: int|
                    0 <= r < row && r != col ==> (#[trigger] l.deep_view()[r])[col as int] == 0,
            decreases n - row,
        {
            if row != col {
                let ghost l2 = l.deep_view();
                let ghost e2 = e.deep_view();
                assert(l2[row as int].len() == n && l2[col as int].len() == n);
                assert(e2[row as int].len() == n && e2[col as int].len() == n);
                let factor = l[row][col];
                if factor != 0 {
                    add_scaled_row_from(gf, &mut l, row, col, factor, col);
                    add_scaled_row_from(gf, &mut e, row, col, factor, 0);
                    proof {
                        lemma_row_equiv_add(
                            m0,
                            l2,
                            e2,
                            f,
                            n as nat,
                            row as int,
                            col as int,
                            factor,
                        );
                        lemma_unit_columns_add(l2, n as nat, col as int, row as int);
                        f = add_col(f, col as int, row as int, factor);
                        assert(l.deep_view()[row as int] =~= vec_xor(
                            l2[row as int],
                            vec_scale(factor, l2[col as int]),
                        )) by {
                            assert forall|j: int| 0 <= j < col implies l2[row as int][j] ^ gf_mul(
                                factor,
                                l2[col as int][j],
                            ) == l2[row as int][j] by {
                                assert(l2[col as int][j] == (if col as int == j {
                                    1u8
                                } else {
                                    0u8
                                }));
                                lemma_mul_zero(factor);
                                lemma_xor_zero(l2[row as int][j]);
                            }
                        }
                        assert(e.deep_view()[row as int] =~= vec_xor(
                            e2[row as int],
                            vec_scale(factor, e2[col as int]),
                        ));
                        assert(l.deep_view() =~~= add_row(l2, row as int, col as int, factor));
                        assert(e.deep_view() =~~= add_row(e2, row as int, col as int, factor));
                        assert forall|r: int| 0 <= r < row && r != col implies
                            (#[trigger] l.deep_view()[r])[col as int] == 0 by {
                            assert(l.deep_view()[r] == l2[r]);
                        }
                    }
                }
            }
            row += 1;
        }
        proof {
            lemma_unit_columns_next(l.deep_view(), n as nat, col as int);
        }
        col += 1;
    }
    proof {
        lemma_row_equiv_done(m0, l.deep_view(), e.deep_view(), f, n as nat);
        lemma_inverse_not_singular(e.deep_view(), m0, n as nat);
    }
    Ok(e)
}

/// The coding matrix for `k` data shards and `m` parity shards: `m` rows of
/// `k` entries, the entry in row `r` and column `c` being the generator to
/// the power `(r + k) * c`, the exponent taken modulo 255.
pub fn build_vandermonde(gf: &Gf256, k: usize, m: usize) -> (v: Matrix)
    ensures
        v.deep_view() == vandermonde(k as nat, m as nat),
{
    let mut matrix: Matrix = Vec::new();
    let km = k % 255;
    let mut r: usize = 0;
    while r < m
        invariant
            r <= m,
            km == k % 255,
            matrix@.len() == r,
            forall|i: int|
                0 <= i < r ==> (#[trigger] matrix@[i])@ == vandermonde(k as nat, m as nat)[i],
        decreases m - r,
    {
        let x = (r % 255 + km) % 255;
        let mut row: Vec<u8> = Vec::new();
        let mut c: usize = 0;
        while c < k
            invariant
                c <= k,
                r < m,
                x == (r + k) % 255,
                row@.len() == c,
                forall|j: int|
                    0 <= j < c ==> row@[j] == gf_exp((((r + k) * j) % 255) as nat),
            decreases k - c,
        {
            assert(x * (c % 255) <= 254 * 254) by (nonlinear_arith)
                requires
                    x <= 254,
                    c % 255 <= 254,
            ;
            let idx = (x * (c % 255)) % 255;
            proof {
                lemma_mul_mod_noop_general((r + k) as int, c as int, 255);
                lemma_exp_mod((((r + k) * c) % 255) as nat);
            }
            row.push(gf.exp_at(idx));
            c += 1;
        }
        proof {
            assert(row@ =~= vandermonde(k as nat, m as nat)[r as int]);
        }
        matrix.push(row);
        r += 1;
    }
    proof {
        assert(matrix.deep_view() =~~= vandermonde(k as nat, m as nat));
    }
    matrix
}

} // verus!
