//! The reconstructor: from a shard vector with empty slots back to a full
//! one, with a cache of the inverted matrices of the survivors.

use vstd::prelude::*;
use dashmap::DashMap;
use crate::error::CodecError;
use crate::gf256::Gf256;
use crate::linalg::{invertible, is_inverse, is_matrix, lemma_unit_vec_mat, singular, unit,
    vec_mat};
use crate::matrix::{build_vandermonde, invert_matrix, mul_vec_matrix, vandermonde, Matrix};
use crate::recovery::{absent, absent_upto, coding_row, complete, lemma_absent_upto,
    lemma_matrix_inverse, lemma_present_upto, matrix_inverse, outcome, picked, present,
    present_upto, recovered, restored, selection, shard_len, survivors, uniform, valid_params,
    Slots};
use crate::shards::{all_of_length, par_combine_rows};

verus! {

/// dashmap's concurrent hash map `DashMap`. Nothing inside it is seen here:
/// what it holds is spoken of through `cache_entries`.
#[verifier::external_type_specification]
#[verifier::external_body]
#[verifier::reject_recursive_types(K)]
#[verifier::reject_recursive_types(V)]
#[verifier::reject_recursive_types(S)]
pub struct ExDashMap<K, V, S>(DashMap<K, V, S>);

/// What a cache of inverted matrices holds: for each list of survivor
/// indices that has an entry, the matrix stored for it.
pub uninterp spec fn cache_entries(cache: DashMap<Vec<usize>, Vec<Vec<u8>>>) -> Map<
    Seq<usize>,
    Seq<Seq<u8>>,
>;

/// The contents of a cache with no entry.
pub open spec fn no_entries() -> Map<Seq<usize>, Seq<Seq<u8>>> {
    Map::empty()
}

/// A cache with no entry, from `DashMap::new` of dashmap. Taken on trust:
/// that the new map holds nothing.
#[verifier::external_body]
fn cache_new() -> (fresh: DashMap<Vec<usize>, Matrix>)
    ensures
        cache_entries(fresh) == no_entries(),
{
    DashMap::new()
}

/// A copy of the matrix stored for `key`, from `DashMap::get` of dashmap.
/// Taken on trust: that the map answers with the value last stored under a
/// key that it holds, and with nothing for a key that it does not hold.
#[verifier::external_body]
fn cache_get(cache: &DashMap<Vec<usize>, Matrix>, key: &Vec<usize>) -> (found: Option<Matrix>)
    ensures
        found is Some <==> cache_entries(*cache).contains_key(key@),
        found is Some ==> found->Some_0.deep_view() == cache_entries(*cache)[key@],
{
    match cache.get(key) {
        Some(entry) => Some(entry.value().clone()),
        None => None,
    }
}

/// Stores `value` for `key`, by `DashMap::insert` of dashmap. Taken on
/// trust: that the entry for the key is set, in place of an earlier one if
/// there was one, that no other entry changes, and that the call comes back
/// without unwinding.
#[verifier::external_body]
fn cache_insert(cache: &mut DashMap<Vec<usize>, Matrix>, key: Vec<usize>, value: Matrix)
    ensures
        cache_entries(*final(cache)) == cache_entries(*old(cache)).insert(
            key@,
            value.deep_view(),
        ),
    no_unwind
{
    cache.insert(key, value);
}

/// The view of a shard vector: each slot by the bytes it holds.
pub open spec fn slots_of(shards: Seq<Option<Vec<u8>>>) -> Slots {
    Seq::new(
        shards.len(),
        |i: int|
            match shards[i] {
                Some(v) => Some(v@),
                None => None,
            },
    )
}

/// What a scan of a shard vector finds: the indices of the slots that hold
/// a shard, those of the empty slots, the length of the first shard, and
/// whether every shard has that length.
pub struct Scan {
    pub present: Vec<usize>,
    pub missing: Vec<usize>,
    pub shard_len: usize,
    pub uniform: bool,
}

/// Walks the shard vector once.
pub fn scan_shards(shards: &Vec<Option<Vec<u8>>>) -> (scan: Scan)
    ensures
        scan.present@ == present(slots_of(shards@)),
        scan.missing@ == absent(slots_of(shards@)),
        scan.shard_len == shard_len(slots_of(shards@)),
        scan.uniform == uniform(slots_of(shards@)),
{
    let ghost s = slots_of(shards@);
    let n = shards.len();
    let mut present_idx: Vec<usize> = Vec::new();
    let mut missing_idx: Vec<usize> = Vec::new();
    let mut len: usize = 0;
    let mut ok = true;
    let mut i: usize = 0;
    while i < n
        invariant
            i <= n,
            n == shards@.len(),
            s == slots_of(shards@),
            present_idx@ == present_upto(s, i as int),
            missing_idx@ == absent_upto(s, i as int),
            present_idx@.len() == 0 ==> len == 0,
            present_idx@.len() > 0 ==> len == s[present_idx@[0] as int]->Some_0.len(),
            ok == (forall|j: int|
                0 <= j < i && s[j] is Some ==> (#[trigger] s[j])->Some_0.len() == len),
        decreases n - i,
    {
        proof {
            lemma_present_upto(s, i as int);
        }
        match &shards[i] {
            Some(v) => {
                if present_idx.len() == 0 {
                    len = v.len();
                } else if v.len() != len {
                    ok = false;
                    assert(s[i as int]->Some_0.len() != len);
                }
                present_idx.push(i);
            },
            None => {
                missing_idx.push(i);
            },
        }
        i += 1;
    }
    Scan { present: present_idx, missing: missing_idx, shard_len: len, uniform: ok }
}

/// The first `k` entries of `list`.
fn first_entries(list: &Vec<usize>, k: usize) -> (head: Vec<usize>)
    requires
        k <= list@.len(),
    ensures
        head@ == list@.take(k as int),
{
    let mut head: Vec<usize> = Vec::new();
    let mut i: usize = 0;
    while i < k
        invariant
            i <= k,
            k <= list@.len(),
            head@ == list@.take(i as int),
        decreases k - i,
    {
        head.push(list[i]);
        proof {
            assert(list@.take(i + 1) =~= list@.take(i as int).push(list@[i as int]));
        }
        i += 1;
    }
    head
}

/// A copy of a matrix, row by row.
fn copy_matrix(mat: &Matrix) -> (copy: Matrix)
    ensures
        copy.deep_view() == mat.deep_view(),
{
    let mut copy: Matrix = Vec::new();
    let mut r: usize = 0;
    while r < mat.len()
        invariant
            r <= mat@.len(),
            copy@.len() == r,
            forall|i: int| 0 <= i < r ==> (#[trigger] copy@[i])@ == mat@[i]@,
        decreases mat@.len() - r,
    {
        let row = mat[r].clone();
        assert(row@ =~= mat@[r as int]@);
        copy.push(row);
        r += 1;
    }
    proof {
        assert(copy.deep_view() =~~= mat.deep_view());
    }
    copy
}

/// The matrix whose rows the survivors select: a unit row for a data
/// shard, the row of the coding matrix for a parity shard.
fn build_selection(encode_matrix: &Matrix, chosen: &Vec<usize>, k: usize, m: usize) -> (a: Matrix)
    requires
        valid_params(k as nat, m as nat),
        encode_matrix.deep_view() == vandermonde(k as nat, m as nat),
        forall|i: int| 0 <= i < chosen@.len() ==> chosen@[i] < k + m,
    ensures
        a.deep_view() == selection(chosen@, k as nat, m as nat),
{
    let mut a: Matrix = Vec::new();
    let mut i: usize = 0;
    while i < chosen.len()
        invariant
            i <= chosen@.len(),
            valid_params(k as nat, m as nat),
            encode_matrix.deep_view() == vandermonde(k as nat, m as nat),
            forall|j: int| 0 <= j < chosen@.len() ==> chosen@[j] < k + m,
            a@.len() == i,
            forall|j: int|
                0 <= j < i ==> (#[trigger] a@[j])@ == coding_row(
                    k as nat,
                    m as nat,
                    chosen@[j] as int,
                ),
        decreases chosen@.len() - i,
    {
        let global = chosen[i];
        if global < k {
            let mut row = vec![0u8; k];
            row[global] = 1u8;
            assert(row@ =~= unit(k as nat, global as int));
            a.push(row);
        } else {
            assert(encode_matrix.deep_view().len() == encode_matrix@.len());
            assert(encode_matrix.deep_view()[global - k] =~= encode_matrix@[global - k]@);
            let row = encode_matrix[global - k].clone();
            assert(row@ =~= encode_matrix@[global - k]@);
            a.push(row);
        }
        i += 1;
    }
    proof {
        assert(a.deep_view() =~~= selection(chosen@, k as nat, m as nat));
    }
    a
}

/// The inverse of the matrix that `chosen` selects, or the reason why it
/// has none.
fn invert_selection(
    gf: &Gf256,
    encode_matrix: &Matrix,
    chosen: &Vec<usize>,
    k: usize,
    m: usize,
) -> (r: Result<Matrix, CodecError>)
    requires
        valid_params(k as nat, m as nat),
        encode_matrix.deep_view() == vandermonde(k as nat, m as nat),
        chosen@.len() == k,
        forall|i: int| 0 <= i < chosen@.len() ==> chosen@[i] < k + m,
    ensures
        inverse_found(r, chosen@, k as nat, m as nat),
{
    let a = build_selection(encode_matrix, chosen, k, m);
    let a_rows = a.as_slice();
    proof {
        let sel = selection(chosen@, k as nat, m as nat);
        assert(a_rows.deep_view() =~~= a.deep_view());
        assert(is_matrix(sel, k as nat, k as nat)) by {
            assert forall|r: int| 0 <= r < k implies (#[trigger] sel[r]).len() == k by {
                if chosen@[r] >= k {
                    assert(vandermonde(k as nat, m as nat)[chosen@[r] - k].len() == k);
                }
            }
        }
    }
    invert_matrix(gf, a_rows)
}

/// What the inversion of the survivors' matrix returns: its inverse, or
/// the error that says that it has none.
pub open spec fn inverse_found(
    r: Result<Matrix, CodecError>,
    chosen: Seq<usize>,
    k: nat,
    m: nat,
) -> bool {
    let a = selection(chosen, k, m);
    if singular(a, k) {
        r == Err::<Matrix, CodecError>(CodecError::SingularMatrix)
    } else {
        r is Ok && is_inverse(r->Ok_0.deep_view(), a, k)
    }
}

/// References to the shards in the slots `chosen`.
fn borrow_survivors<'a>(shards: &'a Vec<Option<Vec<u8>>>, chosen: &Vec<usize>) -> (refs: Vec<
    &'a Vec<u8>,
>)
    requires
        forall|i: int|
            0 <= i < chosen@.len() ==> chosen@[i] < shards@.len() && shards@[chosen@[i] as int] is Some,
    ensures
        refs.deep_view() == picked(slots_of(shards@), chosen@),
{
    let mut refs: Vec<&Vec<u8>> = Vec::new();
    let mut i: usize = 0;
    while i < chosen.len()
        invariant
            i <= chosen@.len(),
            forall|j: int|
                0 <= j < chosen@.len() ==> chosen@[j] < shards@.len() && shards@[chosen@[j] as int] is Some,
            refs@.len() == i,
            forall|j: int|
                0 <= j < i ==> *(#[trigger] refs@[j]) == shards@[chosen@[j] as int]->Some_0,
        decreases chosen@.len() - i,
    {
        let shard = shards[chosen[i]].as_ref().unwrap();
        refs.push(shard);
        i += 1;
    }
    proof {
        assert(refs.deep_view() =~~= picked(slots_of(shards@), chosen@));
    }
    refs
}

/// The coefficients for each missing slot: the row of the inverse for a
/// data shard, the row of the coding matrix times the inverse for a parity
/// shard.
fn recovery_rows(
    gf: &Gf256,
    encode_matrix: &Matrix,
    a_inv: &Matrix,
    missing: &Vec<usize>,
    k: usize,
    m: usize,
) -> (r: Result<Matrix, CodecError>)
    requires
        valid_params(k as nat, m as nat),
        encode_matrix.deep_view() == vandermonde(k as nat, m as nat),
        is_matrix(a_inv.deep_view(), k as nat, k as nat),
        forall|i: int| 0 <= i < missing@.len() ==> missing@[i] < k + m,
    ensures
        r is Ok,
        r->Ok_0@.len() == missing@.len(),
        forall|i: int|
            0 <= i < missing@.len() ==> (#[trigger] r->Ok_0@[i])@ == vec_mat(
                coding_row(k as nat, m as nat, missing@[i] as int),
                a_inv.deep_view(),
            ),
{
    let mut rows: Matrix = Vec::new();
    let mut i: usize = 0;
    while i < missing.len()
        invariant
            i <= missing@.len(),
            valid_params(k as nat, m as nat),
            encode_matrix.deep_view() == vandermonde(k as nat, m as nat),
            is_matrix(a_inv.deep_view(), k as nat, k as nat),
            forall|j: int| 0 <= j < missing@.len() ==> missing@[j] < k + m,
            rows@.len() == i,
            forall|j: int|
                0 <= j < i ==> (#[trigger] rows@[j])@ == vec_mat(
                    coding_row(k as nat, m as nat, missing@[j] as int),
                    a_inv.deep_view(),
                ),
        decreases missing@.len() - i,
    {
        let idx = missing[i];
        if idx < k {
            proof {
                lemma_unit_vec_mat(a_inv.deep_view(), k as nat, k as nat, idx as int);
                assert(a_inv.deep_view()[idx as int] =~= a_inv@[idx as int]@);
            }
            let row = a_inv[idx].clone();
            assert(row@ =~= a_inv@[idx as int]@);
            rows.push(row);
        } else {
            proof {
                assert(encode_matrix.deep_view().len() == encode_matrix@.len());
                assert(encode_matrix.deep_view()[idx - k] =~= encode_matrix@[idx - k]@);
                assert(a_inv.deep_view()[0].len() == k);
            }
            match mul_vec_matrix(gf, encode_matrix[idx - k].as_slice(), a_inv) {
                Ok(row) => {
                    rows.push(row);
                },
                Err(e) => {
                    return Err(e);
                },
            }
        }
        i += 1;
    }
    Ok(rows)
}

/// Puts the recovered shards into their slots.
fn store_recovered(
    shards: &mut Vec<Option<Vec<u8>>>,
    missing: &Vec<usize>,
    recovered_shards: Vec<Vec<u8>>,
)
    requires
        recovered_shards@.len() == missing@.len(),
        forall|i: int| 0 <= i < missing@.len() ==> missing@[i] < old(shards)@.len(),
        forall|x: int, y: int| 0 <= x < y < missing@.len() ==> missing@[x] < missing@[y],
    ensures
        final(shards)@.len() == old(shards)@.len(),
        forall|i: int|
            0 <= i < missing@.len() ==> (#[trigger] final(shards)@[missing@[i] as int])
                == Some(recovered_shards@[i]),
        forall|j: int|
            0 <= j < old(shards)@.len() && !missing@.contains(j as usize) ==> final(shards)@[j]
                == old(shards)@[j],
{
    let mut pending = recovered_shards;
    let mut i: usize = missing.len();
    while i > 0
        invariant
            i <= missing@.len(),
            pending@ == recovered_shards@.take(i as int),
            recovered_shards@.len() == missing@.len(),
            shards@.len() == old(shards)@.len(),
            forall|x: int| 0 <= x < missing@.len() ==> missing@[x] < shards@.len(),
            forall|x: int, y: int| 0 <= x < y < missing@.len() ==> missing@[x] < missing@[y],
            forall|x: int|
                i <= x < missing@.len() ==> (#[trigger] shards@[missing@[x] as int]) == Some(
                    recovered_shards@[x],
                ),
            forall|j: int|
                0 <= j < shards@.len() && !missing@.contains(j as usize) ==> shards@[j] == old(
                    shards,
                )@[j],
        decreases i,
    {
        i -= 1;
        let shard = pending.pop().unwrap();
        proof {
            assert(recovered_shards@.take(i + 1).drop_last() =~= recovered_shards@.take(i as int));
            assert(missing@.contains(missing@[i as int]));
        }
        shards[missing[i]] = Some(shard);
    }
}

/// Fills the empty slots of `shards` from the survivors `chosen` and the
/// inverse `a_inv` of the matrix that they select.
fn fill_missing(
    gf: &Gf256,
    encode_matrix: &Matrix,
    a_inv: &Matrix,
    k: usize,
    m: usize,
    shards: &mut Vec<Option<Vec<u8>>>,
    chosen: &Vec<usize>,
    missing: &Vec<usize>,
    len: usize,
) -> (r: Result<(), CodecError>)
    requires
        valid_params(k as nat, m as nat),
        old(shards)@.len() == k + m,
        encode_matrix.deep_view() == vandermonde(k as nat, m as nat),
        uniform(slots_of(old(shards)@)),
        present(slots_of(old(shards)@)).len() >= k,
        chosen@ == survivors(slots_of(old(shards)@), k as nat),
        missing@ == absent(slots_of(old(shards)@)),
        len == shard_len(slots_of(old(shards)@)),
        is_inverse(a_inv.deep_view(), selection(chosen@, k as nat, m as nat), k as nat),
    ensures
        r == Ok::<(), CodecError>(()),
        slots_of(final(shards)@) == restored(slots_of(old(shards)@), k as nat, m as nat),
{
    let ghost s = slots_of(shards@);
    proof {
        lemma_present_upto(s, s.len() as int);
        lemma_absent_upto(s, s.len() as int);
        lemma_matrix_inverse(
            a_inv.deep_view(),
            selection(chosen@, k as nat, m as nat),
            k as nat,
        );
    }
    let rows = match recovery_rows(gf, encode_matrix, a_inv, missing, k, m) {
        Ok(rows) => rows,
        Err(e) => {
            return Err(e);
        },
    };
    let sources = borrow_survivors(shards, chosen);
    let row_slice = rows.as_slice();
    proof {
        assert(all_of_length(sources.deep_view(), len as nat));
        assert(sources@.len() == sources.deep_view().len());
        assert(sources@.len() == k);
        assert(row_slice.deep_view().len() == rows@.len());
        assert(a_inv.deep_view()[0].len() == k);
        assert forall|i: int| 0 <= i < rows@.len() implies (#[trigger] row_slice.deep_view()[i]).len()
            == k by {
            assert(row_slice.deep_view()[i] =~= rows@[i]@);
            assert(rows@[i]@ == vec_mat(
                coding_row(k as nat, m as nat, missing@[i] as int),
                a_inv.deep_view(),
            ));
        }
        assert(all_of_length(row_slice.deep_view(), sources@.len()));
    }
    let outputs = par_combine_rows(gf, row_slice, &sources, len);
    let ghost out_views = outputs@;
    store_recovered(shards, missing, outputs);
    proof {
        let t = slots_of(shards@);
        let want = restored(s, k as nat, m as nat);
        assert forall|j: int| 0 <= j < s.len() implies t[j] == want[j] by {
            if s[j] is Some {
                if missing@.contains(j as usize) {
                    let x = choose|x: int| 0 <= x < missing@.len() && missing@[x] == j as usize;
                    assert(s[missing@[x] as int] is None);
                }
            } else {
                let x = choose|x: int| 0 <= x < missing@.len() && #[trigger] missing@[x] == j;
                assert(shards@[missing@[x] as int] == Some(out_views[x]));
                assert(row_slice@[x]@ == rows@[x]@);
            }
        }
        assert(t =~= want);
    }
    Ok(())
}

/// Reconstruction without a cache: restores every empty slot of `shards`
/// from the first `k` shards present, for `k` data shards and `m` parity
/// shards.
///
/// Shards present of differing lengths, fewer than `k` shards present, and
/// survivors whose matrix has no inverse are refused, in that order, and
/// the shard vector is then left as it was.
pub fn shard_reconstruction(
    gf: &Gf256,
    k: usize,
    m: usize,
    shards_opt: &mut Vec<Option<Vec<u8>>>,
) -> (r: Result<(), CodecError>)
    requires
        valid_params(k as nat, m as nat),
        old(shards_opt)@.len() == k + m,
    ensures
        r == outcome(slots_of(old(shards_opt)@), k as nat, m as nat),
        r is Ok ==> slots_of(final(shards_opt)@) == restored(
            slots_of(old(shards_opt)@),
            k as nat,
            m as nat,
        ),
        r is Ok ==> complete(slots_of(final(shards_opt)@)),
        r is Ok ==> invertible(
            selection(survivors(slots_of(old(shards_opt)@), k as nat), k as nat, m as nat),
            k as nat,
        ),
        r is Err ==> final(shards_opt)@ == old(shards_opt)@,
{
    let scan = scan_shards(shards_opt);
    if !scan.uniform {
        return Err(CodecError::ShapeError);
    }
    if scan.present.len() < k {
        return Err(CodecError::Insufficient);
    }
    let ghost s = slots_of(shards_opt@);
    proof {
        lemma_present_upto(s, s.len() as int);
    }
    let chosen = first_entries(&scan.present, k);
    let encode_matrix = build_vandermonde(gf, k, m);
    let a_inv = match invert_selection(gf, &encode_matrix, &chosen, k, m) {
        Ok(a_inv) => a_inv,
        Err(e) => {
            return Err(e);
        },
    };
    assert(is_inverse(a_inv.deep_view(), selection(chosen@, k as nat, m as nat), k as nat));
    fill_missing(gf, &encode_matrix, &a_inv, k, m, shards_opt, &chosen, &scan.missing, scan.shard_len)
}

/// A reconstructor for `k` data shards and `m` parity shards: the field,
/// the coding matrix, and the inverted matrices of the survivor sets met
/// so far.
pub struct Codec {
    k: usize,
    m: usize,
    n: usize,
    gf: Gf256,
    encode_matrix: Matrix,
    inverse_matrix_cache: DashMap<Vec<usize>, Matrix>,
}

impl Codec {
    #[verifier::type_invariant]
    spec fn well_formed(self) -> bool {
        &&& valid_params(self.k as nat, self.m as nat)
        &&& self.n == self.k + self.m
        &&& self.encode_matrix.deep_view() == vandermonde(self.k as nat, self.m as nat)
        &&& sound_cache(cache_entries(self.inverse_matrix_cache), self.k as nat, self.m as nat)
    }

    /// The number of data shards.
    pub closed spec fn data_shards(&self) -> nat {
        self.k as nat
    }

    /// The number of parity shards.
    pub closed spec fn parity_shards(&self) -> nat {
        self.m as nat
    }

    /// The inverted matrices held, by the survivor indices they belong to.
    pub closed spec fn cached(&self) -> Map<Seq<usize>, Seq<Seq<u8>>> {
        cache_entries(self.inverse_matrix_cache)
    }

    /// A reconstructor with an empty cache.
    pub fn new(k: usize, m: usize) -> (codec: Self)
        requires
            valid_params(k as nat, m as nat),
        ensures
            codec.data_shards() == k,
            codec.parity_shards() == m,
            codec.cached() == no_entries(),
    {
        let gf = Gf256::new();
        let encode_matrix = build_vandermonde(&gf, k, m);
        Codec { k, m, n: k + m, gf, encode_matrix, inverse_matrix_cache: cache_new() }
    }

    /// The inverse of the matrix that `chosen` selects: from the cache
    /// where it is held, else computed and then stored. A computation that
    /// fails stores nothing.
    fn get_or_compute_inverse_matrix(&mut self, chosen: &Vec<usize>) -> (r: Result<
        Matrix,
        CodecError,
    >)
        requires
            chosen@.len() == old(self).data_shards(),
            forall|i: int|
                0 <= i < chosen@.len() ==> chosen@[i] < old(self).data_shards() + old(
                    self,
                ).parity_shards(),
        ensures
            final(self).data_shards() == old(self).data_shards(),
            final(self).parity_shards() == old(self).parity_shards(),
            inverse_found(r, chosen@, old(self).data_shards(), old(self).parity_shards()),
            final(self).cached() == cache_after(old(self).cached(), chosen@, r),
    {
        proof {
            use_type_invariant(&*self);
        }
        let key = first_entries(chosen, chosen.len());
        assert(key@ =~= chosen@);
        match cache_get(&self.inverse_matrix_cache, &key) {
            Some(cached_inv) => {
                proof {
                    lemma_matrix_inverse(
                        cached_inv.deep_view(),
                        selection(chosen@, self.k as nat, self.m as nat),
                        self.k as nat,
                    );
                    assert(self.cached() =~= cache_after(self.cached(), chosen@, Ok(cached_inv)));
                }
                return Ok(cached_inv);
            },
            None => {},
        }
        let inverted = match invert_selection(&self.gf, &self.encode_matrix, chosen, self.k, self.m) {
            Ok(inverted) => inverted,
            Err(e) => {
                return Err(e);
            },
        };
        let stored = copy_matrix(&inverted);
        cache_insert(&mut self.inverse_matrix_cache, key, stored);
        Ok(inverted)
    }

    /// Restores every empty slot of `shards_opt` from the first shards
    /// present, as many as there are data shards: a missing data shard by
    /// its row of the inverse of the matrix that the survivors select, a
    /// missing parity shard by its row of the coding matrix times that
    /// inverse. The shards present stay as they are.
    ///
    /// Shards present of differing lengths, fewer shards present than
    /// there are data shards, and survivors whose matrix has no inverse
    /// are refused, in that order, and the shard vector is then left as it
    /// was.
    pub fn reconstruct(&mut self, shards_opt: &mut Vec<Option<Vec<u8>>>) -> (r: Result<
        (),
        CodecError,
    >)
        requires
            old(shards_opt)@.len() == old(self).data_shards() + old(self).parity_shards(),
        ensures
            final(self).data_shards() == old(self).data_shards(),
            final(self).parity_shards() == old(self).parity_shards(),
            r == outcome(
                slots_of(old(shards_opt)@),
                old(self).data_shards(),
                old(self).parity_shards(),
            ),
            r is Ok ==> slots_of(final(shards_opt)@) == restored(
                slots_of(old(shards_opt)@),
                old(self).data_shards(),
                old(self).parity_shards(),
            ),
            r is Ok ==> complete(slots_of(final(shards_opt)@)),
            r is Ok ==> invertible(
                selection(
                    survivors(slots_of(old(shards_opt)@), old(self).data_shards()),
                    old(self).data_shards(),
                    old(self).parity_shards(),
                ),
                old(self).data_shards(),
            ),
            r is Err ==> final(shards_opt)@ == old(shards_opt)@,
            final(self).cached() == cache_kept(
                old(self).cached(),
                slots_of(old(shards_opt)@),
                old(self).data_shards(),
                old(self).parity_shards(),
            ),
    {
        proof {
            use_type_invariant(&*self);
        }
        let scan = scan_shards(shards_opt);
        if !scan.uniform {
            return Err(CodecError::ShapeError);
        }
        if scan.present.len() < self.k {
            return Err(CodecError::Insufficient);
        }
        let ghost s = slots_of(shards_opt@);
        proof {
            lemma_present_upto(s, s.len() as int);
        }
        let chosen = first_entries(&scan.present, self.k);
        let a_inv = match self.get_or_compute_inverse_matrix(&chosen) {
            Ok(a_inv) => a_inv,
            Err(e) => {
                return Err(e);
            },
        };
        proof {
            use_type_invariant(&*self);
            assert(is_inverse(
                a_inv.deep_view(),
                selection(chosen@, self.k as nat, self.m as nat),
                self.k as nat,
            ));
            lemma_matrix_inverse(
                a_inv.deep_view(),
                selection(chosen@, self.k as nat, self.m as nat),
                self.k as nat,
            );
        }
        if scan.missing.len() == 0 {
            proof {
                lemma_absent_upto(s, s.len() as int);
                assert forall|j: int| 0 <= j < s.len() implies s[j] is Some by {
                    if s[j] is None {
                        let x = choose|x: int|
                            0 <= x < absent(s).len() && #[trigger] absent(s)[x] == j;
                    }
                }
                assert(s =~= restored(s, self.k as nat, self.m as nat));
            }
            return Ok(());
        }
        fill_missing(
            &self.gf,
            &self.encode_matrix,
            &a_inv,
            self.k,
            self.m,
            shards_opt,
            &chosen,
            &scan.missing,
            scan.shard_len,
        )
    }
}

/// Every matrix held is the inverse of the matrix that its key selects.
pub open spec fn sound_cache(entries: Map<Seq<usize>, Seq<Seq<u8>>>, k: nat, m: nat) -> bool {
    forall|key: Seq<usize>| #[trigger]
        entries.contains_key(key) ==> is_inverse(entries[key], selection(key, k, m), k)
}

/// The cache after a reconstruction of the shard vector `s`: where the
/// survivors' matrix was asked for and has an inverse, the inverse is held
/// under the survivors' indices; else the cache is as it was. No entry is
/// ever dropped.
pub open spec fn cache_kept(
    before: Map<Seq<usize>, Seq<Seq<u8>>>,
    s: Slots,
    k: nat,
    m: nat,
) -> Map<Seq<usize>, Seq<Seq<u8>>> {
    let chosen = survivors(s, k);
    if uniform(s) && present(s).len() >= k && !singular(selection(chosen, k, m), k) {
        before.insert(chosen, matrix_inverse(selection(chosen, k, m), k))
    } else {
        before
    }
}

/// The cache after a lookup for `key` that ended in `r`: an inverse that
/// was found or computed is held under `key`, and a failure leaves the
/// cache as it was.
pub open spec fn cache_after(
    before: Map<Seq<usize>, Seq<Seq<u8>>>,
    key: Seq<usize>,
    r: Result<Matrix, CodecError>,
) -> Map<Seq<usize>, Seq<Seq<u8>>> {
    match r {
        Ok(inv) => before.insert(key, inv.deep_view()),
        Err(_) => before,
    }
}

} // verus!
