//! What reconstruction computes: which slots survive, the matrix that the
//! survivors select, and the shard that each missing slot gets.

use vstd::prelude::*;
use crate::error::CodecError;
use crate::linalg::{column, combine, dot, identity, is_inverse, is_matrix,
    lemma_dot_associative, lemma_invertible_iff_not_singular,
    lemma_dot_unit, lemma_inverse_not_singular, lemma_inverse_unique, lemma_vec_mat_associative,
    lemma_vec_mat_identity, mat_mul, mat_vec, singular, unit, vec_mat};
use crate::matrix::vandermonde;
use crate::shards::all_of_length;

verus! {

/// A shard vector: each slot is empty or holds the bytes of a shard.
pub type Slots = Seq<Option<Seq<u8>>>;

/// The shard counts that the field allows: at least one data shard, at
/// least one parity shard, at most 255 in all.
pub open spec fn valid_params(k: nat, m: nat) -> bool {
    k >= 1 && m >= 1 && k + m <= 255
}

/// Row `j` of the coding matrix under the identity matrix: a unit row for a
/// data shard, a row of the coding matrix for a parity shard.
pub open spec fn coding_row(k: nat, m: nat, j: int) -> Seq<u8> {
    if j < k {
        unit(k, j)
    } else {
        vandermonde(k, m)[j - k]
    }
}

/// The indices below `i` of the slots that hold a shard, in rising order.
pub open spec fn present_upto(s: Slots, i: int) -> Seq<usize>
    decreases i,
{
    if i <= 0 {
        Seq::empty()
    } else if s[i - 1] is Some {
        present_upto(s, i - 1).push((i - 1) as usize)
    } else {
        present_upto(s, i - 1)
    }
}

/// The indices below `i` of the empty slots, in rising order.
pub open spec fn absent_upto(s: Slots, i: int) -> Seq<usize>
    decreases i,
{
    if i <= 0 {
        Seq::empty()
    } else if s[i - 1] is None {
        absent_upto(s, i - 1).push((i - 1) as usize)
    } else {
        absent_upto(s, i - 1)
    }
}

/// The indices of the slots that hold a shard, in rising order.
pub open spec fn present(s: Slots) -> Seq<usize> {
    present_upto(s, s.len() as int)
}

/// The indices of the empty slots, in rising order.
pub open spec fn absent(s: Slots) -> Seq<usize> {
    absent_upto(s, s.len() as int)
}

/// The common length of the shards: that of the first one present.
pub open spec fn shard_len(s: Slots) -> nat {
    if present(s).len() == 0 {
        0
    } else {
        s[present(s)[0] as int]->Some_0.len()
    }
}

/// All shards present have one length.
pub open spec fn uniform(s: Slots) -> bool {
    forall|i: int| 0 <= i < s.len() && s[i] is Some ==> (#[trigger] s[i])->Some_0.len() == shard_len(s)
}

/// The survivors: the first `k` slots that hold a shard.
pub open spec fn survivors(s: Slots, k: nat) -> Seq<usize> {
    present(s).take(k as int)
}

/// The shards in the slots `idx`.
pub open spec fn picked(s: Slots, idx: Seq<usize>) -> Seq<Seq<u8>> {
    Seq::new(idx.len(), |i: int| s[idx[i] as int]->Some_0)
}

/// The square matrix that the slots `idx` select from the coding matrix
/// under the identity matrix.
pub open spec fn selection(idx: Seq<usize>, k: nat, m: nat) -> Seq<Seq<u8>> {
    Seq::new(idx.len(), |i: int| coding_row(k, m, idx[i] as int))
}

/// The inverse of `a`, where it has one.
pub open spec fn matrix_inverse(a: Seq<Seq<u8>>, n: nat) -> Seq<Seq<u8>> {
    choose|b: Seq<Seq<u8>>| is_inverse(b, a, n)
}

/// The coefficients that give shard `j` back from the survivors: row `j`
/// of the coding matrix under the identity, times the inverse of the
/// matrix that the survivors select. For a data shard that is row `j` of
/// the inverse.
pub open spec fn recovery_row(s: Slots, k: nat, m: nat, j: int) -> Seq<u8> {
    vec_mat(coding_row(k, m, j), matrix_inverse(selection(survivors(s, k), k, m), k))
}

/// The shard that reconstruction puts into the empty slot `j`.
pub open spec fn recovered(s: Slots, k: nat, m: nat, j: int) -> Seq<u8> {
    combine(recovery_row(s, k, m, j), picked(s, survivors(s, k)), shard_len(s))
}

/// No slot of `s` is empty.
pub open spec fn complete(s: Slots) -> bool {
    forall|i: int| 0 <= i < s.len() ==> (#[trigger] s[i]) is Some
}

/// How reconstruction ends: shards of differing lengths are refused, then
/// fewer survivors than data shards, then survivors whose matrix has no
/// inverse.
pub open spec fn outcome(s: Slots, k: nat, m: nat) -> Result<(), CodecError> {
    if !uniform(s) {
        Err(CodecError::ShapeError)
    } else if present(s).len() < k {
        Err(CodecError::Insufficient)
    } else if singular(selection(survivors(s, k), k, m), k) {
        Err(CodecError::SingularMatrix)
    } else {
        Ok(())
    }
}

/// The shard vector after a reconstruction that succeeds: the shards
/// present stay, and each empty slot gets its recovered shard.
pub open spec fn restored(s: Slots, k: nat, m: nat) -> Slots {
    Seq::new(
        s.len(),
        |j: int|
            if s[j] is Some {
                s[j]
            } else {
                Some(recovered(s, k, m, j))
            },
    )
}

/// The slots listed as present hold a shard, lie below `i` and rise; every
/// slot below `i` that holds a shard is listed.
pub proof fn lemma_present_upto(s: Slots, i: int)
    requires
        0 <= i <= s.len(),
        s.len() <= usize::MAX,
    ensures
        present_upto(s, i).len() <= i,
        forall|x: int|
            0 <= x < present_upto(s, i).len() ==> (#[trigger] present_upto(s, i)[x]) < i && s[present_upto(
                s,
                i,
            )[x] as int] is Some,
        forall|x: int, y: int|
            0 <= x < y < present_upto(s, i).len() ==> present_upto(s, i)[x] < present_upto(s, i)[y],
        forall|j: int|
            0 <= j < i && s[j] is Some ==> exists|x: int|
                0 <= x < present_upto(s, i).len() && #[trigger] present_upto(s, i)[x] == j,
    decreases i,
{
    if i > 0 {
        lemma_present_upto(s, i - 1);
        let before = present_upto(s, i - 1);
        let p = present_upto(s, i);
        assert forall|j: int| 0 <= j < i && s[j] is Some implies exists|x: int|
            0 <= x < p.len() && #[trigger] p[x] == j by {
            if j < i - 1 {
                let x = choose|x: int| 0 <= x < before.len() && #[trigger] before[x] == j;
                assert(p[x] == j);
            } else {
                assert(p[p.len() - 1] == j);
            }
        }
    }
}

/// The slots listed as absent are empty, lie below `i` and rise; every
/// empty slot below `i` is listed.
pub proof fn lemma_absent_upto(s: Slots, i: int)
    requires
        0 <= i <= s.len(),
        s.len() <= usize::MAX,
    ensures
        absent_upto(s, i).len() <= i,
        forall|x: int|
            0 <= x < absent_upto(s, i).len() ==> (#[trigger] absent_upto(s, i)[x]) < i && s[absent_upto(
                s,
                i,
            )[x] as int] is None,
        forall|x: int, y: int|
            0 <= x < y < absent_upto(s, i).len() ==> absent_upto(s, i)[x] < absent_upto(s, i)[y],
        forall|j: int|
            0 <= j < i && s[j] is None ==> exists|x: int|
                0 <= x < absent_upto(s, i).len() && #[trigger] absent_upto(s, i)[x] == j,
    decreases i,
{
    if i > 0 {
        lemma_absent_upto(s, i - 1);
        let before = absent_upto(s, i - 1);
        let p = absent_upto(s, i);
        assert forall|j: int| 0 <= j < i && s[j] is None implies exists|x: int|
            0 <= x < p.len() && #[trigger] p[x] == j by {
            if j < i - 1 {
                let x = choose|x: int| 0 <= x < before.len() && #[trigger] before[x] == j;
                assert(p[x] == j);
            } else {
                assert(p[p.len() - 1] == j);
            }
        }
    }
}

/// Every slot below `i` is listed once, as present or as absent.
pub proof fn lemma_slot_counts(s: Slots, i: int)
    requires
        0 <= i <= s.len(),
    ensures
        present_upto(s, i).len() + absent_upto(s, i).len() == i,
    decreases i,
{
    if i > 0 {
        lemma_slot_counts(s, i - 1);
    }
}

/// When every slot below `i` holds a shard, the slots present are
/// `0, 1, .., i - 1`.
pub proof fn lemma_present_all(s: Slots, i: int)
    requires
        0 <= i <= s.len(),
        s.len() <= usize::MAX,
        forall|j: int| 0 <= j < s.len() ==> s[j] is Some,
    ensures
        present_upto(s, i).len() == i,
        forall|x: int| 0 <= x < i ==> present_upto(s, i)[x] == x,
    decreases i,
{
    if i > 0 {
        lemma_present_all(s, i - 1);
    }
}

/// An inverse that is at hand is the inverse.
pub proof fn lemma_matrix_inverse(b: Seq<Seq<u8>>, a: Seq<Seq<u8>>, n: nat)
    requires
        n > 0,
        is_inverse(b, a, n),
    ensures
        matrix_inverse(a, n) == b,
        !singular(a, n),
{
    lemma_inverse_unique(matrix_inverse(a, n), b, a, n);
    lemma_inverse_not_singular(b, a, n);
}

/// The identity matrix is its own inverse.
pub proof fn lemma_identity_inverse(n: nat)
    requires
        n > 0,
    ensures
        is_inverse(identity(n), identity(n), n),
{
    let id = identity(n);
    assert forall|r: int| 0 <= r < n implies #[trigger] mat_mul(id, id)[r] == id[r] by {
        lemma_vec_mat_identity(id[r]);
    }
    assert(mat_mul(id, id) =~= id);
}

/// A shard vector with every slot filled, the shards of one length,
/// reconstructs with success.
pub proof fn lemma_full_vector_succeeds(s: Slots, k: nat, m: nat)
    requires
        valid_params(k, m),
        s.len() == k + m,
        uniform(s),
        forall|j: int| 0 <= j < s.len() ==> s[j] is Some,
    ensures
        outcome(s, k, m) == Ok::<(), CodecError>(()),
        restored(s, k, m) == s,
{
    lemma_present_all(s, s.len() as int);
    let surv = survivors(s, k);
    assert(selection(surv, k, m) =~= identity(k));
    lemma_identity_inverse(k);
    lemma_inverse_not_singular(identity(k), identity(k), k);
    assert(restored(s, k, m) =~= s);
}

/// `full` is a codeword: `k + m` shards of length `len`, the last `m` being
/// the parity of the first `k` under the coding matrix.
pub open spec fn is_codeword(full: Seq<Seq<u8>>, k: nat, m: nat, len: nat) -> bool {
    &&& full.len() == k + m
    &&& all_of_length(full, len)
    &&& forall|r: int|
        0 <= r < m ==> #[trigger] full[k + r] == combine(
            vandermonde(k, m)[r],
            full.take(k as int),
            len,
        )
}

/// `s` is `full` with some slots emptied.
pub open spec fn erasure_of(s: Slots, full: Seq<Seq<u8>>) -> bool {
    &&& s.len() == full.len()
    &&& forall|i: int| 0 <= i < s.len() && s[i] is Some ==> #[trigger] s[i] == Some(full[i])
}

/// The shard vector with every slot filled from `full`.
pub open spec fn all_present(full: Seq<Seq<u8>>) -> Slots {
    Seq::new(full.len(), |i: int| Some(full[i]))
}

/// Every shard of a codeword, data or parity, is the combination of the
/// data shards with its row of the coding matrix under the identity.
pub proof fn lemma_codeword_rows(full: Seq<Seq<u8>>, k: nat, m: nat, len: nat, j: int)
    requires
        valid_params(k, m),
        is_codeword(full, k, m, len),
        0 <= j < k + m,
    ensures
        full[j] == combine(coding_row(k, m, j), full.take(k as int), len),
{
    let d = full.take(k as int);
    if j < k {
        assert forall|t: int| 0 <= t < len implies dot(unit(k, j), column(d, t)) == full[j][t] by {
            lemma_dot_unit(column(d, t), j);
        }
        assert(full[j].len() == len);
        assert(full[j] =~= combine(unit(k, j), d, len));
    } else {
        assert(full[k + (j - k)] == combine(vandermonde(k, m)[j - k], d, len));
    }
}

/// The matrix that a list of `k` slots selects is square.
pub proof fn lemma_selection_square(idx: Seq<usize>, k: nat, m: nat)
    requires
        valid_params(k, m),
        idx.len() == k,
        forall|i: int| 0 <= i < k ==> idx[i] < k + m,
    ensures
        is_matrix(selection(idx, k, m), k, k),
{
    let a = selection(idx, k, m);
    assert forall|r: int| 0 <= r < k implies (#[trigger] a[r]).len() == k by {
        if idx[r] >= k {
            assert(vandermonde(k, m)[idx[r] - k].len() == k);
        }
    }
}

/// Encoding, then emptying slots, then reconstruction gives the codeword
/// back: where at most `m` slots of a codeword are emptied and the matrix
/// that the survivors select is not singular, reconstruction succeeds and
/// restores every shard of the codeword.
pub proof fn lemma_round_trip(s: Slots, full: Seq<Seq<u8>>, k: nat, m: nat, len: nat)
    requires
        valid_params(k, m),
        is_codeword(full, k, m, len),
        erasure_of(s, full),
        absent(s).len() <= m,
        !singular(selection(survivors(s, k), k, m), k),
    ensures
        outcome(s, k, m) == Ok::<(), CodecError>(()),
        restored(s, k, m) == all_present(full),
{
    lemma_slot_counts(s, s.len() as int);
    lemma_present_upto(s, s.len() as int);
    let surv = survivors(s, k);
    let a = selection(surv, k, m);
    lemma_selection_square(surv, k, m);
    lemma_invertible_iff_not_singular(a, k);
    let b = choose|b: Seq<Seq<u8>>| is_inverse(b, a, k);
    lemma_matrix_inverse(b, a, k);
    let d = full.take(k as int);
    let picks = picked(s, surv);
    assert(s[present(s)[0] as int] == Some(full[present(s)[0] as int]));
    assert(shard_len(s) == len);
    assert(uniform(s)) by {
        assert forall|i: int| 0 <= i < s.len() && s[i] is Some implies (#[trigger] s[i])->Some_0.len()
            == shard_len(s) by {
            assert(s[i] == Some(full[i]));
        }
    }
    assert forall|i: int| 0 <= i < k implies #[trigger] picks[i] == combine(a[i], d, len) by {
        assert(surv[i] == present(s)[i]);
        assert(s[surv[i] as int] == Some(full[surv[i] as int]));
        lemma_codeword_rows(full, k, m, len, surv[i] as int);
    }
    assert forall|j: int| 0 <= j < s.len() implies #[trigger] restored(s, k, m)[j] == Some(
        full[j],
    ) by {
        if s[j] is Some {
            assert(s[j] == Some(full[j]));
        } else {
            let c = coding_row(k, m, j);
            assert(c.len() == k) by {
                if j >= k {
                    assert(vandermonde(k, m)[j - k].len() == k);
                }
            }
            let cb = vec_mat(c, b);
            assert(b[0].len() == k);
            lemma_vec_mat_associative(c, b, a, k, k);
            lemma_vec_mat_identity(c);
            lemma_codeword_rows(full, k, m, len, j);
            assert forall|t: int| 0 <= t < len implies dot(cb, column(picks, t)) == dot(
                c,
                column(d, t),
            ) by {
                let x = column(d, t);
                assert(column(picks, t) =~= mat_vec(a, x)) by {
                    assert forall|i: int| 0 <= i < k implies column(picks, t)[i] == dot(
                        a[i],
                        x,
                    ) by {
                        assert(picks[i] == combine(a[i], d, len));
                    }
                }
                lemma_dot_associative(cb, a, x);
            }
            assert(recovered(s, k, m, j) =~= full[j]);
        }
    }
    assert(restored(s, k, m) =~= all_present(full));
}

} // verus!
