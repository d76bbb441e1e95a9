//! Encoding a file held in memory: the data shards cut from it, padded with
//! zeros, and the parity shards computed from them.

use vstd::prelude::*;
use crate::encode_shards::{encodable, parity_of, shard_encoding};
use crate::error::CodecError;
use crate::gf256::Gf256;
use crate::matrix::{build_vandermonde, vandermonde};
use crate::metadata::Metadata;
use crate::recovery::valid_params;

verus! {

/// The common length of the shards of a file of `orig_len` bytes cut into
/// `k` data shards: `orig_len / k`, rounded up.
pub open spec fn shard_length(orig_len: nat, k: nat) -> nat {
    if k == 0 {
        0
    } else if orig_len % k == 0 {
        orig_len / k
    } else {
        orig_len / k + 1
    }
}

/// Data shard `i` of `buf`: the bytes from `i` shard lengths on, with
/// zeros where the file has ended.
pub open spec fn data_shard(buf: Seq<u8>, k: nat, i: int) -> Seq<u8> {
    let len = shard_length(buf.len(), k);
    Seq::new(len, |t: int| if i * len + t < buf.len() { buf[i * len + t] } else { 0u8 })
}

/// The `k` data shards of `buf`.
pub open spec fn split(buf: Seq<u8>, k: nat) -> Seq<Seq<u8>> {
    Seq::new(k, |i: int| data_shard(buf, k, i))
}

/// All shards of `buf`: its `k` data shards, then their `m` parity shards.
pub open spec fn encoded_shards(buf: Seq<u8>, k: nat, m: nat) -> Seq<Seq<u8>> {
    split(buf, k) + parity_of(vandermonde(k, m), split(buf, k))
}

/// An encoded file: its shards, data first, and what to record of it.
pub struct Encoded {
    pub shards: Vec<Vec<u8>>,
    pub metadata: Metadata,
}

/// Tells whether `k` data shards and `m` parity shards are counts that the
/// field allows.
pub fn check_params(k: usize, m: usize) -> (ok: bool)
    ensures
        ok == valid_params(k as nat, m as nat),
{
    k >= 1 && m >= 1 && k <= 255 && m <= 255 && k + m <= 255
}

/// Cuts `buf` into `k` shards of one length, the last ones padded with
/// zeros.
pub fn split_into_shards(buf: &[u8], k: usize) -> (shards: Vec<Vec<u8>>)
    requires
        k >= 1,
    ensures
        shards.deep_view() == split(buf@, k as nat),
{
    let orig_len = buf.len();
    let quotient = orig_len / k;
    let shard_len = if orig_len % k == 0 {
        quotient
    } else {
        assert(quotient * k <= orig_len) by (nonlinear_arith)
            requires
                quotient == orig_len / k,
                k > 0,
        ;
        assert(2 * quotient <= orig_len) by (nonlinear_arith)
            requires
                quotient * k <= orig_len,
                k >= 2,
        ;
        quotient + 1
    };
    let mut shards: Vec<Vec<u8>> = Vec::new();
    let mut pos: usize = 0;
    let mut i: usize = 0;
    while i < k
        invariant
            i <= k,
            k >= 1,
            orig_len == buf@.len(),
            shard_len == shard_length(orig_len as nat, k as nat),
            pos <= orig_len,
            pos == (if i * shard_len <= orig_len { i * shard_len } else { orig_len as int }),
            shards@.len() == i,
            forall|j: int| 0 <= j < i ==> (#[trigger] shards@[j])@ == data_shard(buf@, k as nat, j),
        decreases k - i,
    {
        let take = if shard_len <= orig_len - pos {
            shard_len
        } else {
            orig_len - pos
        };
        let mut shard: Vec<u8> = Vec::new();
        let mut t: usize = 0;
        while t < take
            invariant
                t <= take,
                take <= shard_len,
                pos + take <= orig_len,
                orig_len == buf@.len(),
                shard@.len() == t,
                forall|x: int| 0 <= x < t ==> shard@[x] == buf@[pos + x],
            decreases take - t,
        {
            shard.push(buf[pos + t]);
            t += 1;
        }
        while t < shard_len
            invariant
                take <= t <= shard_len,
                pos + take <= orig_len,
                orig_len == buf@.len(),
                shard@.len() == t,
                forall|x: int| 0 <= x < take ==> shard@[x] == buf@[pos + x],
                forall|x: int| take <= x < t ==> shard@[x] == 0u8,
            decreases shard_len - t,
        {
            shard.push(0u8);
            t += 1;
        }
        proof {
            assert((i + 1) * shard_len == i * shard_len + shard_len) by (nonlinear_arith);
            assert(shard@ =~= data_shard(buf@, k as nat, i as int));
        }
        shards.push(shard);
        pos = pos + take;
        i += 1;
    }
    proof {
        assert(shards.deep_view() =~~= split(buf@, k as nat));
    }
    shards
}

/// Encodes the file `buf` for `k` data shards and `m` parity shards: the
/// data shards cut from the file, the parity shards that the coding matrix
/// gives for them, and the record of the file's length and the counts.
///
/// Counts that the field does not allow are refused: no data shard, no
/// parity shard, or more than 255 shards in all.
pub fn handle_encode(k: usize, m: usize, buf: &[u8]) -> (r: Result<Encoded, CodecError>)
    ensures
        !valid_params(k as nat, m as nat) ==> r is Err && r->Err_0 == CodecError::InvalidParameters,
        valid_params(k as nat, m as nat) ==> r is Ok && r->Ok_0.shards.deep_view()
            == encoded_shards(buf@, k as nat, m as nat) && r->Ok_0.metadata == (Metadata {
            orig_len: buf@.len() as usize,
            k,
            m,
        }),
{
    if !check_params(k, m) {
        return Err(CodecError::InvalidParameters);
    }
    let gf = Gf256::new();
    let mut shards = split_into_shards(buf, k);
    let matrix = build_vandermonde(&gf, k, m);
    let ghost data = shards.deep_view();
    let ghost v = matrix.deep_view();
    let shard_rows = shards.as_slice();
    let matrix_rows = matrix.as_slice();
    proof {
        assert(shard_rows.deep_view() =~~= data);
        assert(matrix_rows.deep_view() =~~= v);
        assert(encodable(v, data));
    }
    let mut parities = match shard_encoding(&gf, matrix_rows, shard_rows) {
        Ok(parities) => parities,
        Err(e) => {
            return Err(e);
        },
    };
    let ghost par = parities.deep_view();
    shards.append(&mut parities);
    proof {
        assert(shards.deep_view() =~~= data + par);
    }
    Ok(Encoded { shards, metadata: Metadata { orig_len: buf.len(), k, m } })
}

} // verus!
