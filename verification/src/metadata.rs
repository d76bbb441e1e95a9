//! The metadata record that goes with the shards of a file: two lines of
//! ASCII, the file's length on the first, the two shard counts on the
//! second.

use vstd::prelude::*;
use crate::error::CodecError;

verus! {

/// What is recorded of an encoded file: its length in bytes and the two
/// shard counts.
#[derive(Clone, Copy, Debug, PartialEq, Eq, Structural)]
pub struct Metadata {
    pub orig_len: usize,
    pub k: usize,
    pub m: usize,
}

/// `c` is an ASCII digit.
pub open spec fn is_digit(c: u8) -> bool {
    48 <= c <= 57
}

/// The decimal numeral of `n`, without leading zeros.
pub open spec fn decimal(n: nat) -> Seq<u8>
    decreases n,
{
    if n < 10 {
        seq![(48 + n) as u8]
    } else {
        decimal(n / 10).push((48 + n % 10) as u8)
    }
}

/// The text of a record: the length and a line feed, then the counts with
/// a space between them and a line feed.
pub open spec fn metadata_text(meta: Metadata) -> Seq<u8> {
    decimal(meta.orig_len as nat) + seq![10u8] + decimal(meta.k as nat) + seq![32u8] + decimal(
        meta.m as nat,
    ) + seq![10u8]
}

/// A numeral is not empty, holds digits only, has one digit just for the
/// numbers below ten, and starts with a zero just for zero.
pub proof fn lemma_decimal_shape(n: nat)
    ensures
        decimal(n).len() >= 1,
        n < 10 <==> decimal(n).len() == 1,
        forall|i: int| 0 <= i < decimal(n).len() ==> is_digit(#[trigger] decimal(n)[i]),
        decimal(n)[0] == 48u8 <==> n == 0,
    decreases n,
{
    if n >= 10 {
        lemma_decimal_shape(n / 10);
    }
}

/// Two numbers with one numeral are equal.
pub proof fn lemma_decimal_injective(a: nat, b: nat)
    requires
        decimal(a) == decimal(b),
    ensures
        a == b,
    decreases a,
{
    lemma_decimal_shape(a);
    lemma_decimal_shape(b);
    if a >= 10 {
        let da = decimal(a / 10);
        let db = decimal(b / 10);
        assert(da == decimal(a).drop_last());
        assert(db == decimal(b).drop_last());
        assert(decimal(a).last() == (48 + a % 10) as u8);
        assert(decimal(b).last() == (48 + b % 10) as u8);
        lemma_decimal_injective(a / 10, b / 10);
        assert(a % 10 == b % 10);
    } else {
        assert(decimal(a)[0] == (48 + a) as u8);
        assert(decimal(b)[0] == (48 + b) as u8);
    }
}

/// A number whose numeral starts with the numeral of `w` is at least `w`.
proof fn lemma_decimal_prefix(v: nat, w: nat, j: int)
    requires
        1 <= j <= decimal(v).len(),
        decimal(v).take(j) == decimal(w),
    ensures
        w <= v,
    decreases v,
{
    lemma_decimal_shape(v);
    if j == decimal(v).len() {
        assert(decimal(v).take(j) =~= decimal(v));
        lemma_decimal_injective(v, w);
    } else {
        assert(decimal(v).take(j) =~= decimal(v / 10).take(j));
        lemma_decimal_prefix(v / 10, w, j);
    }
}

/// The numeral of ten times `v` and a digit is the numeral of `v` with the
/// digit put behind it.
proof fn lemma_decimal_push(v: nat, d: nat)
    requires
        v >= 1,
        d < 10,
    ensures
        decimal(10 * v + d) == decimal(v).push((48 + d) as u8),
{
    assert((10 * v + d) / 10 == v);
    assert((10 * v + d) % 10 == d);
}

/// Where the parts of a record's text stand.
proof fn lemma_text_shape(meta: Metadata)
    ensures
        ({
            let t = metadata_text(meta);
            let a = decimal(meta.orig_len as nat).len() as int;
            let b = a + 1 + decimal(meta.k as nat).len();
            let c = b + 1 + decimal(meta.m as nat).len();
            &&& t.len() == c + 1
            &&& t.subrange(0, a) == decimal(meta.orig_len as nat)
            &&& t[a] == 10u8
            &&& t.subrange(a + 1, b) == decimal(meta.k as nat)
            &&& t[b] == 32u8
            &&& t.subrange(b + 1, c) == decimal(meta.m as nat)
            &&& t[c] == 10u8
        }),
{
    let t = metadata_text(meta);
    let a = decimal(meta.orig_len as nat).len() as int;
    let b = a + 1 + decimal(meta.k as nat).len();
    let c = b + 1 + decimal(meta.m as nat).len();
    assert(t.subrange(0, a) =~= decimal(meta.orig_len as nat));
    assert(t.subrange(a + 1, b) =~= decimal(meta.k as nat));
    assert(t.subrange(b + 1, c) =~= decimal(meta.m as nat));
}

/// Two records with one text are equal.
pub proof fn lemma_metadata_text_injective(x: Metadata, y: Metadata)
    requires
        metadata_text(x) == metadata_text(y),
    ensures
        x == y,
{
    let t = metadata_text(x);
    lemma_text_shape(x);
    lemma_text_shape(y);
    let ax = decimal(x.orig_len as nat).len() as int;
    let ay = decimal(y.orig_len as nat).len() as int;
    lemma_numeral_ends(t, 0, ax, x.orig_len as nat, ay, y.orig_len as nat);
    let bx = ax + 1 + decimal(x.k as nat).len();
    let by = ay + 1 + decimal(y.k as nat).len();
    lemma_numeral_ends(t, ax + 1, bx, x.k as nat, by, y.k as nat);
    let cx = bx + 1 + decimal(x.m as nat).len();
    let cy = by + 1 + decimal(y.m as nat).len();
    lemma_numeral_ends(t, bx + 1, cx, x.m as nat, cy, y.m as nat);
}

/// A numeral that starts at `p` and is followed by something other than a
/// digit, or by nothing, ends in one place and names one number.
proof fn lemma_numeral_ends(t: Seq<u8>, p: int, q: int, v: nat, q2: int, v2: nat)
    requires
        0 <= p < q <= t.len(),
        0 <= p < q2 <= t.len(),
        t.subrange(p, q) == decimal(v),
        t.subrange(p, q2) == decimal(v2),
        q == t.len() || !is_digit(t[q]),
        q2 == t.len() || !is_digit(t[q2]),
    ensures
        q == q2,
        v == v2,
{
    lemma_decimal_shape(v);
    lemma_decimal_shape(v2);
    if q < q2 {
        assert(t[q] == t.subrange(p, q2)[q - p]);
    } else if q2 < q {
        assert(t[q2] == t.subrange(p, q)[q2 - p]);
    } else {
        lemma_decimal_injective(v, v2);
    }
}

/// Writes the numeral of `n` behind what `out` holds.
pub fn push_decimal(out: &mut Vec<u8>, n: usize)
    ensures
        final(out)@ == old(out)@ + decimal(n as nat),
    decreases n,
{
    if n >= 10 {
        push_decimal(out, n / 10);
    }
    let digit = (n % 10) as u8;
    out.push(48u8 + digit);
    proof {
        if n >= 10 {
            assert(out@ =~= old(out)@ + decimal(n as nat));
        } else {
            assert(out@ =~= old(out)@ + decimal(n as nat));
        }
    }
}

/// The text of the record `meta`.
pub fn format_metadata(meta: &Metadata) -> (text: Vec<u8>)
    ensures
        text@ == metadata_text(*meta),
{
    let mut text: Vec<u8> = Vec::new();
    push_decimal(&mut text, meta.orig_len);
    text.push(10u8);
    push_decimal(&mut text, meta.k);
    text.push(32u8);
    push_decimal(&mut text, meta.m);
    text.push(10u8);
    proof {
        assert(text@ =~= metadata_text(*meta));
    }
    text
}

/// No numeral of a number that fits the machine starts at `p` and is
/// followed by something other than a digit, or by nothing.
pub open spec fn no_numeral_at(t: Seq<u8>, p: int) -> bool {
    forall|v: nat, q: int|
        v <= usize::MAX && p < q <= t.len() && #[trigger] t.subrange(p, q) == #[trigger] decimal(v)
            ==> q < t.len() && is_digit(t[q])
}

/// Reads the numeral that starts at `p`: the number it names and the place
/// where it ends. A numeral with a leading zero, or of a number that does
/// not fit the machine, is none.
pub fn parse_number(bytes: &[u8], p: usize) -> (r: Option<(usize, usize)>)
    ensures
        match r {
            Some((v, q)) => p < q <= bytes@.len() && bytes@.subrange(p as int, q as int)
                == decimal(v as nat) && (q == bytes@.len() || !is_digit(bytes@[q as int])),
            None => no_numeral_at(bytes@, p as int),
        },
{
    let n = bytes.len();
    let ghost t = bytes@;
    if p >= n || bytes[p] < 48 || bytes[p] > 57 {
        proof {
            assert forall|v: nat, q: int|
                v <= usize::MAX && p < q <= t.len() && #[trigger] t.subrange(p as int, q)
                    == #[trigger] decimal(v) implies q < t.len() && is_digit(t[q]) by {
                lemma_decimal_shape(v);
                assert(t.subrange(p as int, q)[0] == t[p as int]);
            }
        }
        return None;
    }
    let first = bytes[p] - 48;
    let mut q: usize = p + 1;
    if first == 0 {
        if q < n && bytes[q] >= 48 && bytes[q] <= 57 {
            proof {
                assert forall|v: nat, q2: int|
                    v <= usize::MAX && p < q2 <= t.len() && #[trigger] t.subrange(p as int, q2)
                        == #[trigger] decimal(v) implies q2 < t.len() && is_digit(t[q2]) by {
                    lemma_decimal_shape(v);
                    assert(t.subrange(p as int, q2)[0] == t[p as int]);
                }
            }
            return None;
        }
        proof {
            assert(t.subrange(p as int, q as int) =~= decimal(0));
        }
        return Some((0, q));
    }
    let mut value: usize = first as usize;
    proof {
        assert(t.subrange(p as int, q as int) =~= decimal(value as nat));
    }
    while q < n && bytes[q] >= 48 && bytes[q] <= 57
        invariant
            p < q <= n,
            n == bytes@.len(),
            t == bytes@,
            value >= 1,
            t.subrange(p as int, q as int) == decimal(value as nat),
        decreases n - q,
    {
        let d = (bytes[q] - 48) as usize;
        proof {
            lemma_decimal_push(value as nat, d as nat);
            assert(t.subrange(p as int, q + 1) =~= t.subrange(p as int, q as int).push(
                t[q as int],
            ));
        }
        if value > (usize::MAX - d) / 10 {
            proof {
                let big = 10 * value + d;
                assert(big > usize::MAX);
                assert forall|v: nat, q2: int|
                    v <= usize::MAX && p < q2 <= t.len() && #[trigger] t.subrange(p as int, q2)
                        == #[trigger] decimal(v) implies q2 < t.len() && is_digit(t[q2]) by {
                    if q2 <= q {
                        if q2 < q {
                            lemma_decimal_shape(value as nat);
                            assert(t[q2] == t.subrange(p as int, q as int)[q2 - p]);
                        }
                    } else {
                        assert(t.subrange(p as int, q2).take(q + 1 - p) =~= t.subrange(
                            p as int,
                            q + 1,
                        ));
                        lemma_decimal_prefix(v, big as nat, q + 1 - p);
                    }
                }
            }
            return None;
        }
        value = value * 10 + d;
        q += 1;
    }
    Some((value, q))
}

/// Reads a record from its text. A text that no record has is refused.
pub fn parse_metadata(bytes: &[u8]) -> (r: Result<Metadata, CodecError>)
    ensures
        match r {
            Ok(meta) => bytes@ == metadata_text(meta),
            Err(e) => e == CodecError::MetadataError && forall|meta: Metadata|
                bytes@ != #[trigger] metadata_text(meta),
        },
{
    let n = bytes.len();
    let ghost t = bytes@;
    let (orig_len, q1) = match parse_number(bytes, 0) {
        Some(found) => found,
        None => {
            proof {
                assert forall|meta: Metadata| t != #[trigger] metadata_text(meta) by {
                    if t == metadata_text(meta) {
                        lemma_text_shape(meta);
                        let a = decimal(meta.orig_len as nat).len() as int;
                        lemma_decimal_shape(meta.orig_len as nat);
                        assert(t.subrange(0, a) == decimal(meta.orig_len as nat));
                    }
                }
            }
            return Err(CodecError::MetadataError);
        },
    };
    if q1 >= n || bytes[q1] != 10 {
        proof {
            assert forall|meta: Metadata| t != #[trigger] metadata_text(meta) by {
                if t == metadata_text(meta) {
                    lemma_text_shape(meta);
                    let a = decimal(meta.orig_len as nat).len() as int;
                    lemma_decimal_shape(meta.orig_len as nat);
                    lemma_numeral_ends(t, 0, q1 as int, orig_len as nat, a, meta.orig_len as nat);
                }
            }
        }
        return Err(CodecError::MetadataError);
    }
    let (k, q2) = match parse_number(bytes, q1 + 1) {
        Some(found) => found,
        None => {
            proof {
                assert forall|meta: Metadata| t != #[trigger] metadata_text(meta) by {
                    if t == metadata_text(meta) {
                        lemma_text_shape(meta);
                        let a = decimal(meta.orig_len as nat).len() as int;
                        let b = a + 1 + decimal(meta.k as nat).len();
                        lemma_decimal_shape(meta.orig_len as nat);
                        lemma_decimal_shape(meta.k as nat);
                        lemma_numeral_ends(
                            t,
                            0,
                            q1 as int,
                            orig_len as nat,
                            a,
                            meta.orig_len as nat,
                        );
                        assert(t.subrange(q1 + 1, b) == decimal(meta.k as nat));
                    }
                }
            }
            return Err(CodecError::MetadataError);
        },
    };
    if q2 >= n || bytes[q2] != 32 {
        proof {
            assert forall|meta: Metadata| t != #[trigger] metadata_text(meta) by {
                if t == metadata_text(meta) {
                    lemma_text_shape(meta);
                    let a = decimal(meta.orig_len as nat).len() as int;
                    let b = a + 1 + decimal(meta.k as nat).len();
                    lemma_decimal_shape(meta.orig_len as nat);
                    lemma_decimal_shape(meta.k as nat);
                    lemma_numeral_ends(t, 0, q1 as int, orig_len as nat, a, meta.orig_len as nat);
                    lemma_numeral_ends(t, q1 + 1, q2 as int, k as nat, b, meta.k as nat);
                }
            }
        }
        return Err(CodecError::MetadataError);
    }
    let (m, q3) = match parse_number(bytes, q2 + 1) {
        Some(found) => found,
        None => {
            proof {
                assert forall|meta: Metadata| t != #[trigger] metadata_text(meta) by {
                    if t == metadata_text(meta) {
                        lemma_text_shape(meta);
                        let a = decimal(meta.orig_len as nat).len() as int;
                        let b = a + 1 + decimal(meta.k as nat).len();
                        let c = b + 1 + decimal(meta.m as nat).len();
                        lemma_decimal_shape(meta.orig_len as nat);
                        lemma_decimal_shape(meta.k as nat);
                        lemma_decimal_shape(meta.m as nat);
                        lemma_numeral_ends(
                            t,
                            0,
                            q1 as int,
                            orig_len as nat,
                            a,
                            meta.orig_len as nat,
                        );
                        lemma_numeral_ends(t, q1 + 1, q2 as int, k as nat, b, meta.k as nat);
                        assert(t.subrange(q2 + 1, c) == decimal(meta.m as nat));
                    }
                }
            }
            return Err(CodecError::MetadataError);
        },
    };
    if q3 >= n || bytes[q3] != 10 || q3 + 1 != n {
        proof {
            assert forall|meta: Metadata| t != #[trigger] metadata_text(meta) by {
                if t == metadata_text(meta) {
                    lemma_text_shape(meta);
                    let a = decimal(meta.orig_len as nat).len() as int;
                    let b = a + 1 + decimal(meta.k as nat).len();
                    let c = b + 1 + decimal(meta.m as nat).len();
                    lemma_decimal_shape(meta.orig_len as nat);
                    lemma_decimal_shape(meta.k as nat);
                    lemma_decimal_shape(meta.m as nat);
                    lemma_numeral_ends(t, 0, q1 as int, orig_len as nat, a, meta.orig_len as nat);
                    lemma_numeral_ends(t, q1 + 1, q2 as int, k as nat, b, meta.k as nat);
                    lemma_numeral_ends(t, q2 + 1, q3 as int, m as nat, c, meta.m as nat);
                }
            }
        }
        return Err(CodecError::MetadataError);
    }
    let meta = Metadata { orig_len, k, m };
    proof {
        assert(t =~= metadata_text(meta)) by {
            let a = decimal(orig_len as nat);
            let b = decimal(k as nat);
            let c = decimal(m as nat);
            assert(t.subrange(0, q1 as int) == a);
            assert(t.subrange(q1 + 1, q2 as int) == b);
            assert(t.subrange(q2 + 1, q3 as int) == c);
            assert forall|i: int| 0 <= i < t.len() implies t[i] == metadata_text(meta)[i] by {
                if i < q1 {
                    assert(t[i] == t.subrange(0, q1 as int)[i]);
                } else if i == q1 {
                } else if i < q2 {
                    assert(t[i] == t.subrange(q1 + 1, q2 as int)[i - q1 - 1]);
                } else if i == q2 {
                } else if i < q3 {
                    assert(t[i] == t.subrange(q2 + 1, q3 as int)[i - q2 - 1]);
                } else {
                }
            }
        }
    }
    Ok(meta)
}

} // verus!
