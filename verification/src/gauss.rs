//! What Gauss-Jordan elimination keeps true: the row operations on a
//! matrix, and the two matrices that tie the reduced matrix to the matrix
//! given.

use vstd::prelude::*;
use crate::gf256::{gf_inv, gf_mul, lemma_mul_associative, lemma_mul_distributive, lemma_mul_inv,
    lemma_mul_one, lemma_mul_zero, lemma_xor_zero};
use crate::linalg::{column, dot, identity, invertible, is_inverse, is_matrix,
    lemma_dot_associative,
    lemma_dot_scale, lemma_dot_unit, lemma_dot_xor, lemma_dot_zero, lemma_xor_sum_update,
    lemma_xor_sum_zero, mat_mul, mat_vec, null_vector, products, singular, unit, vec_mat,
    vec_scale, vec_xor, xor_sum, zeros};

verus! {

/// `v` with the entries at `a` and `b` exchanged.
pub open spec fn swapped<T>(v: Seq<T>, a: int, b: int) -> Seq<T> {
    v.update(a, v[b]).update(b, v[a])
}

/// `m` with the columns `a` and `b` exchanged.
pub open spec fn swap_cols(m: Seq<Seq<u8>>, a: int, b: int) -> Seq<Seq<u8>> {
    Seq::new(m.len(), |r: int| swapped(m[r], a, b))
}

/// `m` with row `a` multiplied by `c`.
pub open spec fn scale_row(m: Seq<Seq<u8>>, a: int, c: u8) -> Seq<Seq<u8>> {
    m.update(a, vec_scale(c, m[a]))
}

/// `m` with column `a` multiplied by `p`.
pub open spec fn scale_col(m: Seq<Seq<u8>>, a: int, p: u8) -> Seq<Seq<u8>> {
    Seq::new(m.len(), |r: int| m[r].update(a, gf_mul(m[r][a], p)))
}

/// `m` with `x` times row `s` added to row `t`.
pub open spec fn add_row(m: Seq<Seq<u8>>, t: int, s: int, x: u8) -> Seq<Seq<u8>> {
    m.update(t, vec_xor(m[t], vec_scale(x, m[s])))
}

/// `m` with `x` times column `t` added to column `s`.
pub open spec fn add_col(m: Seq<Seq<u8>>, s: int, t: int, x: u8) -> Seq<Seq<u8>> {
    Seq::new(m.len(), |r: int| m[r].update(s, m[r][s] ^ gf_mul(m[r][t], x)))
}

/// The reduced matrix `l` comes from the given matrix `m0` by the row
/// operations that `e` records, and `f` undoes them: `l = e * m0`,
/// `m0 = f * l` and `f * e` is the identity.
pub open spec fn row_equiv(
    m0: Seq<Seq<u8>>,
    l: Seq<Seq<u8>>,
    e: Seq<Seq<u8>>,
    f: Seq<Seq<u8>>,
    n: nat,
) -> bool {
    &&& is_matrix(m0, n, n)
    &&& is_matrix(l, n, n)
    &&& is_matrix(e, n, n)
    &&& is_matrix(f, n, n)
    &&& forall|r: int, j: int|
        0 <= r < n && 0 <= j < n ==> #[trigger] l[r][j] == dot(e[r], column(m0, j))
    &&& forall|r: int, j: int|
        0 <= r < n && 0 <= j < n ==> #[trigger] m0[r][j] == dot(f[r], column(l, j))
    &&& forall|r: int, j: int|
        0 <= r < n && 0 <= j < n ==> #[trigger] identity(n)[r][j] == dot(f[r], column(e, j))
}

/// The columns of `l` before `col` are those of the identity matrix.
pub open spec fn unit_columns(l: Seq<Seq<u8>>, n: nat, col: int) -> bool {
    forall|r: int, c: int|
        0 <= r < n && 0 <= c < col ==> #[trigger] l[r][c] == (if r == c {
            1u8
        } else {
            0u8
        })
}

/// In a sum, terms that occur twice cancel.
proof fn lemma_xor_cancel(s: u8, a: u8, b: u8, d: u8)
    ensures
        (((s ^ a) ^ b) ^ b) ^ a == s,
        (((s ^ a) ^ (a ^ d)) ^ b) ^ (b ^ d) == s,
{
    assert((((s ^ a) ^ b) ^ b) ^ a == s) by (bit_vector);
    assert((((s ^ a) ^ (a ^ d)) ^ b) ^ (b ^ d) == s) by (bit_vector);
}

/// Exchanging two places in both vectors keeps the dot product.
proof fn lemma_dot_swapped(v: Seq<u8>, w: Seq<u8>, a: int, b: int)
    requires
        v.len() == w.len(),
        0 <= a < v.len(),
        0 <= b < v.len(),
    ensures
        dot(swapped(v, a, b), swapped(w, a, b)) == dot(v, w),
{
    let p = products(v, w);
    if a == b {
        assert(swapped(v, a, b) =~= v);
        assert(swapped(w, a, b) =~= w);
    } else {
        assert(products(swapped(v, a, b), swapped(w, a, b)) =~= p.update(a, p[b]).update(b, p[a]));
        lemma_xor_sum_update(p, a, p[b]);
        lemma_xor_sum_update(p.update(a, p[b]), b, p[a]);
        lemma_xor_cancel(xor_sum(p), p[a], p[b], 0);
    }
}

/// Multiplying one place of one vector by `c` and the same place of the
/// other by the inverse of `c` keeps the dot product.
proof fn lemma_dot_rescaled(v: Seq<u8>, w: Seq<u8>, a: int, p: u8, c: u8)
    requires
        v.len() == w.len(),
        0 <= a < v.len(),
        gf_mul(p, c) == 1,
    ensures
        dot(v.update(a, gf_mul(v[a], p)), w.update(a, gf_mul(c, w[a]))) == dot(v, w),
{
    lemma_mul_associative(gf_mul(v[a], p), c, w[a]);
    lemma_mul_associative(v[a], p, c);
    lemma_mul_one(v[a]);
    assert(products(v.update(a, gf_mul(v[a], p)), w.update(a, gf_mul(c, w[a]))) =~= products(
        v,
        w,
    ));
}

/// Adding `x` times place `s` to place `t` of one vector, and `x` times
/// place `t` to place `s` of the other, keeps the dot product.
proof fn lemma_dot_transferred(v: Seq<u8>, w: Seq<u8>, t: int, s: int, x: u8)
    requires
        v.len() == w.len(),
        0 <= t < v.len(),
        0 <= s < v.len(),
        t != s,
    ensures
        dot(v.update(s, v[s] ^ gf_mul(v[t], x)), w.update(t, w[t] ^ gf_mul(x, w[s]))) == dot(
            v,
            w,
        ),
{
    let p = products(v, w);
    let d = gf_mul(v[t], gf_mul(x, w[s]));
    lemma_mul_distributive(v[t], w[t], gf_mul(x, w[s]));
    lemma_mul_distributive(w[s], v[s], gf_mul(v[t], x));
    lemma_mul_associative(v[t], x, w[s]);
    let changed = p.update(t, p[t] ^ d);
    assert(products(v.update(s, v[s] ^ gf_mul(v[t], x)), w.update(t, w[t] ^ gf_mul(x, w[s])))
        =~= changed.update(s, p[s] ^ d));
    lemma_xor_sum_update(p, t, p[t] ^ d);
    lemma_xor_sum_update(changed, s, p[s] ^ d);
    lemma_xor_cancel(xor_sum(p), p[t], p[s], d);
}

/// At the start nothing has been done: the reduced matrix is the given
/// one, and both recording matrices are the identity.
pub proof fn lemma_row_equiv_start(m0: Seq<Seq<u8>>, n: nat)
    requires
        is_matrix(m0, n, n),
    ensures
        row_equiv(m0, m0, identity(n), identity(n), n),
{
    let id = identity(n);
    assert forall|r: int, j: int| 0 <= r < n && 0 <= j < n implies #[trigger] m0[r][j] == dot(
        id[r],
        column(m0, j),
    ) by {
        lemma_dot_unit(column(m0, j), r);
    }
    assert forall|r: int, j: int| 0 <= r < n && 0 <= j < n implies #[trigger] id[r][j] == dot(
        id[r],
        column(id, j),
    ) by {
        lemma_dot_unit(column(id, j), r);
    }
}

/// Exchanging two rows keeps the reduced matrix tied to the given one.
pub proof fn lemma_row_equiv_swap(
    m0: Seq<Seq<u8>>,
    l: Seq<Seq<u8>>,
    e: Seq<Seq<u8>>,
    f: Seq<Seq<u8>>,
    n: nat,
    a: int,
    b: int,
)
    requires
        row_equiv(m0, l, e, f, n),
        0 <= a < n,
        0 <= b < n,
    ensures
        row_equiv(m0, swapped(l, a, b), swapped(e, a, b), swap_cols(f, a, b), n),
{
    let l2 = swapped(l, a, b);
    let e2 = swapped(e, a, b);
    let f2 = swap_cols(f, a, b);
    assert forall|r: int, j: int| 0 <= r < n && 0 <= j < n implies #[trigger] l2[r][j] == dot(
        e2[r],
        column(m0, j),
    ) by {
        let r0 = if r == a { b } else if r == b { a } else { r };
        assert(l2[r] == l[r0] && e2[r] == e[r0]);
        assert(l[r0][j] == dot(e[r0], column(m0, j)));
    }
    assert forall|r: int, j: int| 0 <= r < n && 0 <= j < n implies #[trigger] m0[r][j] == dot(
        f2[r],
        column(l2, j),
    ) by {
        assert(column(l2, j) =~= swapped(column(l, j), a, b));
        lemma_dot_swapped(f[r], column(l, j), a, b);
    }
    assert forall|r: int, j: int| 0 <= r < n && 0 <= j < n implies #[trigger] identity(n)[r][j]
        == dot(f2[r], column(e2, j)) by {
        assert(column(e2, j) =~= swapped(column(e, j), a, b));
        lemma_dot_swapped(f[r], column(e, j), a, b);
    }
}

/// Multiplying a row by a nonzero factor keeps the reduced matrix tied to
/// the given one.
pub proof fn lemma_row_equiv_scale(
    m0: Seq<Seq<u8>>,
    l: Seq<Seq<u8>>,
    e: Seq<Seq<u8>>,
    f: Seq<Seq<u8>>,
    n: nat,
    a: int,
    c: u8,
    p: u8,
)
    requires
        row_equiv(m0, l, e, f, n),
        0 <= a < n,
        gf_mul(p, c) == 1,
    ensures
        row_equiv(m0, scale_row(l, a, c), scale_row(e, a, c), scale_col(f, a, p), n),
{
    let l2 = scale_row(l, a, c);
    let e2 = scale_row(e, a, c);
    let f2 = scale_col(f, a, p);
    assert forall|r: int, j: int| 0 <= r < n && 0 <= j < n implies #[trigger] l2[r][j] == dot(
        e2[r],
        column(m0, j),
    ) by {
        assert(l[r][j] == dot(e[r], column(m0, j)));
        if r == a {
            lemma_dot_scale(c, e[a], column(m0, j));
        }
    }
    assert forall|r: int, j: int| 0 <= r < n && 0 <= j < n implies #[trigger] m0[r][j] == dot(
        f2[r],
        column(l2, j),
    ) by {
        assert(column(l2, j) =~= column(l, j).update(a, gf_mul(c, l[a][j])));
        lemma_dot_rescaled(f[r], column(l, j), a, p, c);
    }
    assert forall|r: int, j: int| 0 <= r < n && 0 <= j < n implies #[trigger] identity(n)[r][j]
        == dot(f2[r], column(e2, j)) by {
        assert(column(e2, j) =~= column(e, j).update(a, gf_mul(c, e[a][j])));
        lemma_dot_rescaled(f[r], column(e, j), a, p, c);
    }
}

/// Adding a multiple of one row to another keeps the reduced matrix tied
/// to the given one.
pub proof fn lemma_row_equiv_add(
    m0: Seq<Seq<u8>>,
    l: Seq<Seq<u8>>,
    e: Seq<Seq<u8>>,
    f: Seq<Seq<u8>>,
    n: nat,
    t: int,
    s: int,
    x: u8,
)
    requires
        row_equiv(m0, l, e, f, n),
        0 <= t < n,
        0 <= s < n,
        t != s,
    ensures
        row_equiv(m0, add_row(l, t, s, x), add_row(e, t, s, x), add_col(f, s, t, x), n),
{
    let l2 = add_row(l, t, s, x);
    let e2 = add_row(e, t, s, x);
    let f2 = add_col(f, s, t, x);
    assert forall|r: int, j: int| 0 <= r < n && 0 <= j < n implies #[trigger] l2[r][j] == dot(
        e2[r],
        column(m0, j),
    ) by {
        assert(l[r][j] == dot(e[r], column(m0, j)));
        if r == t {
            assert(l[s][j] == dot(e[s], column(m0, j)));
            lemma_dot_xor(e[t], vec_scale(x, e[s]), column(m0, j));
            lemma_dot_scale(x, e[s], column(m0, j));
        }
    }
    assert forall|r: int, j: int| 0 <= r < n && 0 <= j < n implies #[trigger] m0[r][j] == dot(
        f2[r],
        column(l2, j),
    ) by {
        assert(column(l2, j) =~= column(l, j).update(t, l[t][j] ^ gf_mul(x, l[s][j])));
        lemma_dot_transferred(f[r], column(l, j), t, s, x);
    }
    assert forall|r: int, j: int| 0 <= r < n && 0 <= j < n implies #[trigger] identity(n)[r][j]
        == dot(f2[r], column(e2, j)) by {
        assert(column(e2, j) =~= column(e, j).update(t, e[t][j] ^ gf_mul(x, e[s][j])));
        lemma_dot_transferred(f[r], column(e, j), t, s, x);
    }
}

/// Once every column is reduced, the recording matrix is the inverse.
pub proof fn lemma_row_equiv_done(
    m0: Seq<Seq<u8>>,
    l: Seq<Seq<u8>>,
    e: Seq<Seq<u8>>,
    f: Seq<Seq<u8>>,
    n: nat,
)
    requires
        n > 0,
        row_equiv(m0, l, e, f, n),
        unit_columns(l, n, n as int),
    ensures
        is_inverse(e, m0, n),
{
    let id = identity(n);
    assert(l =~~= id);
    assert(mat_mul(e, m0) =~~= id) by {
        assert forall|r: int, j: int| 0 <= r < n && 0 <= j < n implies mat_mul(e, m0)[r][j]
            == id[r][j] by {
            assert(l[r][j] == dot(e[r], column(m0, j)));
        }
    }
    assert forall|r: int, j: int| 0 <= r < n && 0 <= j < n implies m0[r][j] == f[r][j] by {
        assert(m0[r][j] == dot(f[r], column(l, j)));
        assert(column(id, j) =~= unit(n, j));
        lemma_dot_unit(f[r], j);
    }
    assert(m0 =~~= f);
    assert(mat_mul(m0, e) =~~= id) by {
        assert forall|r: int, j: int| 0 <= r < n && 0 <= j < n implies mat_mul(m0, e)[r][j]
            == id[r][j] by {
            assert(id[r][j] == dot(f[r], column(e, j)));
        }
    }
}

/// The vector that a column without a pivot yields: the column's entries
/// above the diagonal, then 1, then zeros.
pub open spec fn stuck_vector(l: Seq<Seq<u8>>, n: nat, col: int) -> Seq<u8> {
    Seq::new(
        n,
        |c: int|
            if c < col {
                l[c][col]
            } else if c == col {
                1u8
            } else {
                0u8
            },
    )
}

/// When a column has no pivot, the given matrix is singular.
pub proof fn lemma_row_equiv_stuck(
    m0: Seq<Seq<u8>>,
    l: Seq<Seq<u8>>,
    e: Seq<Seq<u8>>,
    f: Seq<Seq<u8>>,
    n: nat,
    col: int,
)
    requires
        row_equiv(m0, l, e, f, n),
        0 <= col < n,
        unit_columns(l, n, col),
        forall|r: int| col <= r < n ==> l[r][col] == 0,
    ensures
        singular(m0, n),
{
    let x = stuck_vector(l, n, col);
    let z = zeros(n);
    assert forall|r: int| 0 <= r < n implies dot(l[r], x) == 0 by {
        let p = products(l[r], x);
        lemma_xor_sum_zero(z);
        lemma_xor_zero(l[r][col]);
        lemma_xor_zero(0u8);
        lemma_mul_one(l[r][col]);
        if r < col {
            let z1 = z.update(r, l[r][col]);
            assert forall|c: int| 0 <= c < n implies p[c] == z1.update(col, l[r][col])[c] by {
                lemma_mul_zero(l[r][c]);
                lemma_mul_zero(x[c]);
                if c < col {
                    assert(l[r][c] == (if r == c { 1u8 } else { 0u8 }));
                    lemma_mul_one(x[c]);
                }
            }
            assert(p =~= z1.update(col, l[r][col]));
            lemma_xor_sum_update(z, r, l[r][col]);
            lemma_xor_sum_update(z1, col, l[r][col]);
        } else {
            assert forall|c: int| 0 <= c < n implies p[c] == 0 by {
                lemma_mul_zero(l[r][c]);
                lemma_mul_zero(x[c]);
                if c < col {
                    assert(l[r][c] == (if r == c { 1u8 } else { 0u8 }));
                }
            }
            lemma_xor_sum_zero(p);
        }
    }
    assert(mat_vec(l, x) =~= z);
    assert forall|r: int| 0 <= r < n implies dot(m0[r], x) == 0 by {
        assert(vec_mat(f[r], l) =~= m0[r]) by {
            assert(l[0].len() == n);
            assert forall|j: int| 0 <= j < n implies vec_mat(f[r], l)[j] == m0[r][j] by {
                assert(m0[r][j] == dot(f[r], column(l, j)));
            }
        }
        lemma_dot_associative(f[r], l, x);
        lemma_dot_zero(f[r]);
    }
    assert(mat_vec(m0, x) =~= z);
    assert(x[col] == 1u8 && z[col] == 0u8);
    assert(null_vector(m0, n, x));
}

/// Exchanging the row on the diagonal with one below it keeps the columns
/// already reduced.
pub proof fn lemma_unit_columns_swap(l: Seq<Seq<u8>>, n: nat, col: int, pivot: int)
    requires
        is_matrix(l, n, n),
        unit_columns(l, n, col),
        0 <= col <= pivot < n,
    ensures
        unit_columns(swapped(l, col, pivot), n, col),
{
    let l2 = swapped(l, col, pivot);
    assert forall|r: int, c: int| 0 <= r < n && 0 <= c < col implies #[trigger] l2[r][c] == (if r
        == c {
        1u8
    } else {
        0u8
    }) by {
        let r0 = if r == col {
            pivot
        } else if r == pivot {
            col
        } else {
            r
        };
        assert(l2[r] == l[r0]);
        assert(l[r0][c] == (if r0 == c {
            1u8
        } else {
            0u8
        }));
    }
}

/// Multiplying the row on the diagonal by a factor keeps the columns
/// already reduced, and multiplies the entry on the diagonal.
pub proof fn lemma_unit_columns_scale(l: Seq<Seq<u8>>, n: nat, col: int, c: u8)
    requires
        is_matrix(l, n, n),
        unit_columns(l, n, col),
        0 <= col < n,
    ensures
        unit_columns(scale_row(l, col, c), n, col),
        scale_row(l, col, c)[col][col] == gf_mul(c, l[col][col]),
{
    let l2 = scale_row(l, col, c);
    assert forall|r: int, c2: int| 0 <= r < n && 0 <= c2 < col implies #[trigger] l2[r][c2] == (if r
        == c2 {
        1u8
    } else {
        0u8
    }) by {
        assert(l[r][c2] == (if r == c2 {
            1u8
        } else {
            0u8
        }));
        lemma_mul_zero(c);
    }
}

/// Adding a multiple of the row on the diagonal to another row keeps the
/// columns already reduced; with the entry on the diagonal 1 and the
/// multiple that of the other row's entry in the column, that entry
/// becomes 0.
pub proof fn lemma_unit_columns_add(l: Seq<Seq<u8>>, n: nat, col: int, t: int)
    requires
        is_matrix(l, n, n),
        unit_columns(l, n, col),
        0 <= col < n,
        0 <= t < n,
        t != col,
        l[col][col] == 1u8,
    ensures
        unit_columns(add_row(l, t, col, l[t][col]), n, col),
        add_row(l, t, col, l[t][col])[t][col] == 0u8,
        forall|r: int| 0 <= r < n && r != t ==> #[trigger] add_row(l, t, col, l[t][col])[r] == l[r],
{
    let x = l[t][col];
    let l2 = add_row(l, t, col, x);
    assert forall|r: int, c2: int| 0 <= r < n && 0 <= c2 < col implies #[trigger] l2[r][c2] == (if r
        == c2 {
        1u8
    } else {
        0u8
    }) by {
        assert(l[r][c2] == (if r == c2 {
            1u8
        } else {
            0u8
        }));
        assert(l[col][c2] == (if col == c2 {
            1u8
        } else {
            0u8
        }));
        lemma_mul_zero(x);
        lemma_xor_zero(l[r][c2]);
    }
    lemma_mul_one(x);
    lemma_xor_zero(x);
}

/// A column with 1 on the diagonal and 0 elsewhere is reduced.
pub proof fn lemma_unit_columns_next(l: Seq<Seq<u8>>, n: nat, col: int)
    requires
        unit_columns(l, n, col),
        0 <= col < n,
        l[col][col] == 1u8,
        forall|r: int| 0 <= r < n && r != col ==> (#[trigger] l[r])[col] == 0u8,
    ensures
        unit_columns(l, n, col + 1),
{
    assert forall|r: int, c2: int| 0 <= r < n && 0 <= c2 < col + 1 implies #[trigger] l[r][c2]
        == (if r == c2 {
        1u8
    } else {
        0u8
    }) by {
        if c2 == col && r != col {
            assert(l[r][col] == 0u8);
        }
    }
}

/// Elimination carried on in thought, row by row in one column: once the
/// entry on the diagonal is 1, the column can be cleared in every other
/// row.
proof fn lemma_clear_column(
    m0: Seq<Seq<u8>>,
    l: Seq<Seq<u8>>,
    e: Seq<Seq<u8>>,
    f: Seq<Seq<u8>>,
    n: nat,
    col: int,
    row: int,
) -> (out: (Seq<Seq<u8>>, Seq<Seq<u8>>, Seq<Seq<u8>>))
    requires
        row_equiv(m0, l, e, f, n),
        unit_columns(l, n, col),
        0 <= col < n,
        0 <= row <= n,
        l[col][col] == 1u8,
        forall|r: int| 0 <= r < row && r != col ==> (#[trigger] l[r])[col] == 0u8,
    ensures
        row_equiv(m0, out.0, out.1, out.2, n),
        unit_columns(out.0, n, col + 1),
    decreases n - row,
{
    if row == n {
        lemma_unit_columns_next(l, n, col);
        (l, e, f)
    } else if row == col {
        lemma_clear_column(m0, l, e, f, n, col, row + 1)
    } else {
        let x = l[row][col];
        lemma_row_equiv_add(m0, l, e, f, n, row, col, x);
        lemma_unit_columns_add(l, n, col, row);
        let l2 = add_row(l, row, col, x);
        assert forall|r: int| 0 <= r < row + 1 && r != col implies (#[trigger] l2[r])[col]
            == 0u8 by {
            if r != row {
                assert(l2[r] == l[r]);
            }
        }
        assert(l2[col] == l[col]);
        lemma_clear_column(
            m0,
            l2,
            add_row(e, row, col, x),
            add_col(f, col, row, x),
            n,
            col,
            row + 1,
        )
    }
}

/// Elimination carried on in thought, column by column: a matrix that is
/// not singular has a pivot in every column, and so an inverse.
proof fn lemma_eliminate(
    m0: Seq<Seq<u8>>,
    l: Seq<Seq<u8>>,
    e: Seq<Seq<u8>>,
    f: Seq<Seq<u8>>,
    n: nat,
    col: int,
)
    requires
        n > 0,
        row_equiv(m0, l, e, f, n),
        unit_columns(l, n, col),
        0 <= col <= n,
        !singular(m0, n),
    ensures
        invertible(m0, n),
    decreases n - col,
{
    if col == n {
        lemma_row_equiv_done(m0, l, e, f, n);
        assert(is_inverse(e, m0, n));
    } else if forall|r: int| col <= r < n ==> (#[trigger] l[r])[col] == 0u8 {
        lemma_row_equiv_stuck(m0, l, e, f, n, col);
    } else {
        let pivot = choose|r: int| col <= r < n && (#[trigger] l[r])[col] != 0u8;
        lemma_row_equiv_swap(m0, l, e, f, n, col, pivot);
        lemma_unit_columns_swap(l, n, col, pivot);
        let l1 = swapped(l, col, pivot);
        let e1 = swapped(e, col, pivot);
        let f1 = swap_cols(f, col, pivot);
        let p = l1[col][col];
        assert(p == l[pivot][col]);
        let c = gf_inv(p);
        lemma_mul_inv(p);
        lemma_row_equiv_scale(m0, l1, e1, f1, n, col, c, p);
        lemma_unit_columns_scale(l1, n, col, c);
        let l2 = scale_row(l1, col, c);
        let e2 = scale_row(e1, col, c);
        let f2 = scale_col(f1, col, p);
        let done = lemma_clear_column(m0, l2, e2, f2, n, col, 0);
        lemma_eliminate(m0, done.0, done.1, done.2, n, col + 1);
    }
}

/// A square matrix that is not singular has an inverse.
pub proof fn lemma_not_singular_invertible(m0: Seq<Seq<u8>>, n: nat)
    requires
        n > 0,
        is_matrix(m0, n, n),
        !singular(m0, n),
    ensures
        invertible(m0, n),
{
    lemma_row_equiv_start(m0, n);
    lemma_eliminate(m0, m0, identity(n), identity(n), n, 0);
}

} // verus!
