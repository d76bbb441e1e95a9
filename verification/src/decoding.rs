//! Decoding a file from its shards: reconstruction where a slot is empty,
//! then the data shards put end to end and cut to the file's length.

use vstd::prelude::*;
use crate::error::CodecError;
use crate::metadata::Metadata;
use crate::reconstruct_shards::{slots_of, Codec};
use crate::recovery::{absent, all_present, complete, erasure_of, is_codeword,
    lemma_round_trip, outcome, restored, selection, survivors, valid_params, Slots};
use crate::encoding::{check_params, data_shard, encoded_shards, shard_length, split};
use crate::encode_shards::parity_of;
use crate::linalg::{combine, singular};
use crate::matrix::vandermonde;
use crate::shards::all_of_length;

verus! {

/// The first `i` shards of `s` put end to end; an empty slot adds nothing.
pub open spec fn concat(s: Slots, i: int) -> Seq<u8>
    decreases i,
{
    if i <= 0 {
        Seq::empty()
    } else if s[i - 1] is Some {
        concat(s, i - 1) + s[i - 1]->Some_0
    } else {
        concat(s, i - 1)
    }
}

/// The first `k` shards of `s` put end to end and cut to `orig_len` bytes.
pub open spec fn joined(s: Slots, k: nat, orig_len: nat) -> Seq<u8> {
    let all = concat(s, k as int);
    if orig_len <= all.len() {
        all.take(orig_len as int)
    } else {
        all
    }
}

/// How decoding ends: a record whose counts the field does not allow, or
/// that does not fit the number of slots, is refused; with an empty slot
/// the shards are reconstructed, and what that refuses is refused.
pub open spec fn decode_outcome(meta: Metadata, s: Slots) -> Result<(), CodecError> {
    if !valid_params(meta.k as nat, meta.m as nat) || s.len() != meta.k + meta.m {
        Err(CodecError::MetadataError)
    } else if complete(s) {
        Ok(())
    } else {
        outcome(s, meta.k as nat, meta.m as nat)
    }
}

/// The file that decoding returns where it succeeds.
pub open spec fn decoded(meta: Metadata, s: Slots) -> Seq<u8> {
    joined(restored(s, meta.k as nat, meta.m as nat), meta.k as nat, meta.orig_len as nat)
}

/// Tells whether a slot is empty.
fn any_missing(shards: &Vec<Option<Vec<u8>>>) -> (b: bool)
    ensures
        b == !complete(slots_of(shards@)),
{
    let mut i: usize = 0;
    while i < shards.len()
        invariant
            i <= shards@.len(),
            forall|j: int| 0 <= j < i ==> (#[trigger] slots_of(shards@)[j]) is Some,
        decreases shards@.len() - i,
    {
        if shards[i].is_none() {
            assert(slots_of(shards@)[i as int] is None);
            return true;
        }
        i += 1;
    }
    false
}

/// Puts the first `k` shards end to end, up to `orig_len` bytes.
fn join_shards(shards: &Vec<Option<Vec<u8>>>, k: usize, orig_len: usize) -> (out: Vec<u8>)
    requires
        k <= shards@.len(),
        forall|i: int| 0 <= i < k ==> (#[trigger] shards@[i]) is Some,
    ensures
        out@ == joined(slots_of(shards@), k as nat, orig_len as nat),
{
    let ghost s = slots_of(shards@);
    let mut out: Vec<u8> = Vec::new();
    let mut i: usize = 0;
    while i < k
        invariant
            i <= k,
            k <= shards@.len(),
            s == slots_of(shards@),
            forall|j: int| 0 <= j < k ==> (#[trigger] shards@[j]) is Some,
            out@.len() <= orig_len,
            out@ == joined(s, i as nat, orig_len as nat),
        decreases k - i,
    {
        let shard = shards[i].as_ref().unwrap();
        let room = orig_len - out.len();
        let count = if shard.len() <= room {
            shard.len()
        } else {
            room
        };
        let ghost before = out@;
        let ghost sofar = concat(s, i as int);
        assert(s[i as int] == Some(shard@));
        let mut t: usize = 0;
        while t < count
            invariant
                t <= count,
                count <= shard@.len(),
                before.len() + count <= orig_len,
                out@ == before + shard@.take(t as int),
            decreases count - t,
        {
            out.push(shard[t]);
            proof {
                assert(shard@.take(t + 1) =~= shard@.take(t as int).push(shard@[t as int]));
            }
            t += 1;
        }
        proof {
            let next = concat(s, i + 1);
            assert(next == sofar + shard@);
            if orig_len <= sofar.len() {
                assert(count == 0);
                assert(out@ =~= next.take(orig_len as int));
            } else if orig_len <= next.len() {
                assert(out@ =~= next.take(orig_len as int));
            } else {
                assert(shard@.take(count as int) =~= shard@);
                assert(out@ =~= next);
            }
        }
        i += 1;
    }
    out
}

/// Decodes a file from the record `meta` and the shard vector `shards`:
/// where a slot is empty the shards are reconstructed first; then the data
/// shards are put end to end and cut to the recorded length.
///
/// A record whose counts the field does not allow, or that names another
/// number of shards than there are slots, is refused; so is what
/// reconstruction refuses.
pub fn handle_decode(meta: &Metadata, shards: Vec<Option<Vec<u8>>>) -> (r: Result<
    Vec<u8>,
    CodecError,
>)
    ensures
        match decode_outcome(*meta, slots_of(shards@)) {
            Ok(_) => r is Ok && r->Ok_0@ == decoded(*meta, slots_of(shards@)),
            Err(e) => r is Err && r->Err_0 == e,
        },
{
    let k = meta.k;
    let m = meta.m;
    if !check_params(k, m) || shards.len() != k + m {
        return Err(CodecError::MetadataError);
    }
    let ghost s = slots_of(shards@);
    let mut shards = shards;
    if any_missing(&shards) {
        let mut codec = Codec::new(k, m);
        match codec.reconstruct(&mut shards) {
            Ok(_) => {},
            Err(e) => {
                return Err(e);
            },
        }
    } else {
        proof {
            assert(s =~= restored(s, k as nat, m as nat));
        }
    }
    proof {
        let t = slots_of(shards@);
        assert(t == restored(s, k as nat, m as nat));
        assert forall|i: int| 0 <= i < k implies (#[trigger] shards@[i]) is Some by {
            assert(t[i] is Some);
        }
    }
    Ok(join_shards(&shards, k, meta.orig_len))
}

/// The shards cut from a file cover it: `k` shard lengths are at least the
/// file's length.
pub proof fn lemma_shards_cover(orig_len: nat, k: nat)
    requires
        k >= 1,
    ensures
        k * shard_length(orig_len, k) >= orig_len,
{
    let q = orig_len / k;
    let r = orig_len % k;
    assert(orig_len == k * q + r && 0 <= r < k) by (nonlinear_arith)
        requires
            q == orig_len / k,
            r == orig_len % k,
            k >= 1,
    ;
    if r != 0 {
        assert(k * (q + 1) == k * q + k) by (nonlinear_arith);
    }
}

/// The first `i` data shards of a file, put end to end, are the file's
/// bytes as far as they go, then zeros.
proof fn lemma_concat_split(buf: Seq<u8>, k: nat, m: nat, i: int)
    requires
        valid_params(k, m),
        0 <= i <= k,
    ensures
        concat(all_present(encoded_shards(buf, k, m)), i).len() == i * shard_length(buf.len(), k),
        forall|x: int|
            0 <= x < i * shard_length(buf.len(), k) ==> #[trigger] concat(
                all_present(encoded_shards(buf, k, m)),
                i,
            )[x] == (if x < buf.len() {
                buf[x]
            } else {
                0u8
            }),
    decreases i,
{
    let len = shard_length(buf.len(), k);
    let s = all_present(encoded_shards(buf, k, m));
    if i > 0 {
        lemma_concat_split(buf, k, m, i - 1);
        assert(i * len == (i - 1) * len + len) by (nonlinear_arith);
        assert(s[i - 1] == Some(data_shard(buf, k, i - 1)));
        let prev = concat(s, i - 1);
        assert(concat(s, i) == prev + data_shard(buf, k, i - 1));
    } else {
        assert(i * len == 0) by (nonlinear_arith)
            requires
                i == 0,
        ;
    }
}

/// The shards of an encoded file are a codeword.
pub proof fn lemma_encoded_is_codeword(buf: Seq<u8>, k: nat, m: nat)
    requires
        valid_params(k, m),
    ensures
        is_codeword(encoded_shards(buf, k, m), k, m, shard_length(buf.len(), k)),
{
    let len = shard_length(buf.len(), k);
    let full = encoded_shards(buf, k, m);
    let data = split(buf, k);
    assert(full.take(k as int) =~= data);
    assert(data[0].len() == len);
    assert forall|r: int| 0 <= r < m implies #[trigger] full[k + r] == combine(
        vandermonde(k, m)[r],
        full.take(k as int),
        len,
    ) by {
        assert(full[k + r] == parity_of(vandermonde(k, m), data)[r]);
    }
    assert(all_of_length(full, len)) by {
        assert forall|i: int| 0 <= i < full.len() implies (#[trigger] full[i]).len() == len by {
            if i >= k {
                assert(full[k + (i - k)] == parity_of(vandermonde(k, m), data)[i - k]);
            }
        }
    }
}

/// A file survives encoding, the loss of shards and decoding: where at
/// most `m` of the shards of an encoded file are lost and the matrix that
/// the survivors select is not singular, decoding succeeds and returns the
/// file, byte for byte.
pub proof fn lemma_file_round_trip(buf: Seq<u8>, k: usize, m: usize, s: Slots)
    requires
        valid_params(k as nat, m as nat),
        buf.len() <= usize::MAX,
        erasure_of(s, encoded_shards(buf, k as nat, m as nat)),
        absent(s).len() <= m,
        !singular(selection(survivors(s, k as nat), k as nat, m as nat), k as nat),
    ensures
        decode_outcome((Metadata { orig_len: buf.len() as usize, k, m }), s) == Ok::<
            (),
            CodecError,
        >(()),
        decoded((Metadata { orig_len: buf.len() as usize, k, m }), s) == buf,
{
    let len = shard_length(buf.len(), k as nat);
    let full = encoded_shards(buf, k as nat, m as nat);
    lemma_encoded_is_codeword(buf, k as nat, m as nat);
    lemma_round_trip(s, full, k as nat, m as nat, len);
    lemma_concat_split(buf, k as nat, m as nat, k as int);
    lemma_shards_cover(buf.len(), k as nat);
    let all = concat(all_present(full), k as int);
    assert(all.take(buf.len() as int) =~= buf);
}

} // verus!
