//! The encoder: parity shards from data shards and the coding matrix.

use vstd::prelude::*;
use crate::error::CodecError;
use crate::gf256::Gf256;
use crate::linalg::{combine, is_matrix};
use crate::shards::{all_of_length, par_combine_rows};

verus! {

/// What the encoder asks of its arguments: a matrix with at least one row,
/// at least one data shard, one matrix column for each data shard, and
/// data shards of one length.
pub open spec fn encodable(matrix: Seq<Seq<u8>>, data: Seq<Seq<u8>>) -> bool {
    &&& matrix.len() > 0
    &&& data.len() > 0
    &&& is_matrix(matrix, matrix.len(), data.len())
    &&& all_of_length(data, data[0].len())
}

/// The parity shards that `matrix` gives for `data`: one for each row of
/// the matrix, byte `t` of it being the dot product of the row with the
/// bytes at `t` of the data shards.
pub open spec fn parity_of(matrix: Seq<Seq<u8>>, data: Seq<Seq<u8>>) -> Seq<Seq<u8>> {
    Seq::new(matrix.len(), |r: int| combine(matrix[r], data, data[0].len()))
}

/// Tells whether every shard of `shards` has length `len`.
pub fn shards_have_length(shards: &[Vec<u8>], len: usize) -> (b: bool)
    ensures
        b == all_of_length(shards.deep_view(), len as nat),
{
    let mut i: usize = 0;
    while i < shards.len()
        invariant
            i <= shards@.len(),
            forall|j: int| 0 <= j < i ==> (#[trigger] shards.deep_view()[j]).len() == len,
        decreases shards@.len() - i,
    {
        if shards[i].len() != len {
            assert(shards.deep_view()[i as int].len() != len);
            return false;
        }
        i += 1;
    }
    true
}

/// References to the shards of `shards`, in their order.
pub fn borrow_all(shards: &[Vec<u8>]) -> (refs: Vec<&Vec<u8>>)
    ensures
        refs.deep_view() == shards.deep_view(),
{
    let mut refs: Vec<&Vec<u8>> = Vec::new();
    let mut i: usize = 0;
    while i < shards.len()
        invariant
            i <= shards@.len(),
            refs@.len() == i,
            forall|j: int| 0 <= j < i ==> *(#[trigger] refs@[j]) == shards@[j],
        decreases shards@.len() - i,
    {
        refs.push(&shards[i]);
        i += 1;
    }
    proof {
        assert(refs.deep_view() =~~= shards.deep_view());
    }
    refs
}

/// Computes the parity shards of `data_shards` under `matrix`: parity shard
/// `r` is the combination of the data shards with row `r` of the matrix.
/// The rows are independent and are computed in parallel.
pub fn shard_encoding(gf: &Gf256, matrix: &[Vec<u8>], data_shards: &[Vec<u8>]) -> (r: Result<
    Vec<Vec<u8>>,
    CodecError,
>)
    ensures
        encodable(matrix.deep_view(), data_shards.deep_view()) ==> r is Ok
            && r->Ok_0.deep_view() == parity_of(matrix.deep_view(), data_shards.deep_view()),
        !encodable(matrix.deep_view(), data_shards.deep_view()) ==> r == Err::<
            Vec<Vec<u8>>,
            CodecError,
        >(CodecError::ShapeError),
{
    let m = matrix.len();
    let k = data_shards.len();
    if m == 0 || k == 0 {
        return Err(CodecError::ShapeError);
    }
    if !shards_have_length(matrix, k) {
        return Err(CodecError::ShapeError);
    }
    let shard_len = data_shards[0].len();
    assert(data_shards.deep_view()[0].len() == shard_len);
    if !shards_have_length(data_shards, shard_len) {
        return Err(CodecError::ShapeError);
    }
    let sources = borrow_all(data_shards);
    let parities = par_combine_rows(gf, matrix, &sources, shard_len);
    proof {
        assert forall|r: int| 0 <= r < m implies #[trigger] parities.deep_view()[r] == parity_of(
            matrix.deep_view(),
            data_shards.deep_view(),
        )[r] by {
            assert(parities.deep_view()[r] =~= parities@[r]@);
            assert(matrix.deep_view()[r] =~= matrix@[r]@);
        }
        assert(parities.deep_view() =~~= parity_of(matrix.deep_view(), data_shards.deep_view()));
    }
    Ok(parities)
}

} // verus!
