//! The byte-wise kernels that both coding and reconstruction run: adding a
//! multiple of one shard to another, and combining shards with a row of
//! coefficients.

use vstd::prelude::*;
use rayon::iter::{IntoParallelRefIterator, ParallelIterator};
use crate::gf256::{gf_mul, lemma_mul_one, lemma_xor_zero, Gf256};
use crate::linalg::{column, combine, products, vec_scale, vec_xor, xor_sum};

verus! {

/// Every shard of `s` has length `len`.
pub open spec fn all_of_length(s: Seq<Seq<u8>>, len: nat) -> bool {
    forall|i: int| 0 <= i < s.len() ==> (#[trigger] s[i]).len() == len
}

/// Adds `coef` times `src` to `out`, byte by byte. A coefficient of 0 adds
/// nothing, a coefficient of 1 adds the bytes as they are, and any other
/// goes through its table of products, built once.
pub fn accumulate(gf: &Gf256, out: &mut Vec<u8>, coef: u8, src: &[u8])
    requires
        old(out)@.len() == src@.len(),
    ensures
        final(out)@ == vec_xor(old(out)@, vec_scale(coef, src@)),
{
    let len = out.len();
    if coef == 0 {
        proof {
            assert forall|t: int| 0 <= t < len implies out@[t] == out@[t] ^ gf_mul(
                coef,
                src@[t],
            ) by {
                lemma_xor_zero(out@[t]);
            }
            assert(out@ =~= vec_xor(old(out)@, vec_scale(coef, src@)));
        }
        return ;
    }
    let mut t: usize = 0;
    if coef == 1 {
        while t < len
            invariant
                t <= len,
                coef == 1,
                out@.len() == len,
                src@.len() == len,
                old(out)@.len() == len,
                forall|i: int| 0 <= i < t ==> out@[i] == old(out)@[i] ^ gf_mul(coef, src@[i]),
                forall|i: int| t <= i < len ==> out@[i] == old(out)@[i],
            decreases len - t,
        {
            proof {
                lemma_mul_one(src@[t as int]);
            }
            let v = out[t] ^ src[t];
            out[t] = v;
            t += 1;
        }
    } else {
        let table = gf.mul_table(coef);
        while t < len
            invariant
                t <= len,
                out@.len() == len,
                src@.len() == len,
                old(out)@.len() == len,
                forall|x: int| 0 <= x < 256 ==> table@[x] == gf_mul(coef, x as u8),
                forall|i: int| 0 <= i < t ==> out@[i] == old(out)@[i] ^ gf_mul(coef, src@[i]),
                forall|i: int| t <= i < len ==> out@[i] == old(out)@[i],
            decreases len - t,
        {
            let v = out[t] ^ table[src[t] as usize];
            out[t] = v;
            t += 1;
        }
    }
    proof {
        assert(out@ =~= vec_xor(old(out)@, vec_scale(coef, src@)));
    }
}

/// The combination of the shards `sources` with the coefficients `coeffs`:
/// byte `t` of the result is the dot product of `coeffs` with the bytes at
/// `t` of the shards.
pub fn combine_row(gf: &Gf256, coeffs: &[u8], sources: &Vec<&Vec<u8>>, len: usize) -> (out: Vec<
    u8,
>)
    requires
        coeffs@.len() == sources@.len(),
        all_of_length(sources.deep_view(), len as nat),
    ensures
        out@ == combine(coeffs@, sources.deep_view(), len as nat),
{
    let ghost s = sources.deep_view();
    let k = sources.len();
    let mut out = vec![0u8; len];
    let mut c: usize = 0;
    while c < k
        invariant
            c <= k,
            k == sources@.len(),
            k == coeffs@.len(),
            s == sources.deep_view(),
            all_of_length(s, len as nat),
            out@.len() == len,
            forall|t: int|
                0 <= t < len ==> out@[t] == xor_sum(
                    #[trigger] products(coeffs@, column(s, t)).take(c as int),
                ),
        decreases k - c,
    {
        let ghost before = out@;
        assert(s[c as int] =~= sources@[c as int]@);
        accumulate(gf, &mut out, coeffs[c], sources[c].as_slice());
        proof {
            assert forall|t: int| 0 <= t < len implies out@[t] == xor_sum(
                #[trigger] products(coeffs@, column(s, t)).take(c + 1),
            ) by {
                let p = products(coeffs@, column(s, t));
                assert(before[t] == xor_sum(p.take(c as int)));
                assert(p.take(c + 1).drop_last() =~= p.take(c as int));
            }
        }
        c += 1;
    }
    proof {
        assert forall|t: int| 0 <= t < len implies out@[t] == combine(
            coeffs@,
            s,
            len as nat,
        )[t] by {
            let p = products(coeffs@, column(s, t));
            assert(p.take(k as int) =~= p);
        }
        assert(out@ =~= combine(coeffs@, s, len as nat));
    }
    out
}

/// One combination of the shards `sources` for each row of `rows`, the
/// rows handed out to rayon's worker threads.
///
/// It calls `par_iter`, `map` and `collect` of rayon on the slice of rows,
/// with `combine_row` as the mapped function. What is taken on trust: that
/// the collected vector holds, for each row and in the order of the rows,
/// what the mapped function returned for it.
#[verifier::external_body]
pub(crate) fn par_combine_rows(
    gf: &Gf256,
    rows: &[Vec<u8>],
    sources: &Vec<&Vec<u8>>,
    len: usize,
) -> (out: Vec<Vec<u8>>)
    requires
        all_of_length(rows.deep_view(), sources@.len()),
        all_of_length(sources.deep_view(), len as nat),
    ensures
        out@.len() == rows@.len(),
        forall|r: int|
            0 <= r < rows@.len() ==> (#[trigger] out@[r])@ == combine(
                rows@[r]@,
                sources.deep_view(),
                len as nat,
            ),
{
    rows.par_iter().map(|row| combine_row(gf, row.as_slice(), sources, len)).collect()
}

} // verus!
