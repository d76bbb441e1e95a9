//! The names under which the shards and the metadata record of a file are
//! kept, as ASCII bytes: `shard_NN.dat`, with the index of the shard in at
//! least two decimal digits, and `meta.txt`.

use vstd::prelude::*;
use crate::metadata::{decimal, lemma_decimal_injective, lemma_decimal_shape, push_decimal};

verus! {

/// The bytes of `shard_`.
pub open spec fn shard_prefix() -> Seq<u8> {
    seq![115u8, 104u8, 97u8, 114u8, 100u8, 95u8]
}

/// The bytes of `.dat`.
pub open spec fn shard_suffix() -> Seq<u8> {
    seq![46u8, 100u8, 97u8, 116u8]
}

/// The numeral of `i`, with a zero before a single digit.
pub open spec fn two_digits(i: nat) -> Seq<u8> {
    if i < 10 {
        seq![48u8] + decimal(i)
    } else {
        decimal(i)
    }
}

/// The name of shard `i`.
pub open spec fn shard_name(i: nat) -> Seq<u8> {
    shard_prefix() + two_digits(i) + shard_suffix()
}

/// The bytes of `meta.txt`.
pub open spec fn metadata_name() -> Seq<u8> {
    seq![109u8, 101u8, 116u8, 97u8, 46u8, 116u8, 120u8, 116u8]
}

/// Two shards with one name are one shard.
pub proof fn lemma_shard_names_differ(i: nat, j: nat)
    requires
        shard_name(i) == shard_name(j),
    ensures
        i == j,
{
    let a = two_digits(i);
    let b = two_digits(j);
    lemma_decimal_shape(i);
    lemma_decimal_shape(j);
    assert(shard_name(i).len() == 6 + a.len() + 4);
    assert(shard_name(j).len() == 6 + b.len() + 4);
    assert(a =~= shard_name(i).subrange(6, 6 + a.len() as int));
    assert(b =~= shard_name(j).subrange(6, 6 + b.len() as int));
    assert(a == b);
    if i < 10 {
        assert(a[0] == 48u8);
        assert(a.len() == 2);
        if j >= 10 {
            assert(b[0] == decimal(j)[0]);
        } else {
            assert(decimal(i) =~= a.subrange(1, 2));
            assert(decimal(j) =~= b.subrange(1, 2));
            lemma_decimal_injective(i, j);
        }
    } else {
        if j < 10 {
            assert(b[0] == 48u8);
            assert(a[0] == decimal(i)[0]);
        } else {
            lemma_decimal_injective(i, j);
        }
    }
}

/// The name of the file that holds shard `index`.
pub fn shard_file_name(index: usize) -> (name: Vec<u8>)
    ensures
        name@ == shard_name(index as nat),
{
    let mut name: Vec<u8> = Vec::new();
    name.push(115u8);
    name.push(104u8);
    name.push(97u8);
    name.push(114u8);
    name.push(100u8);
    name.push(95u8);
    if index < 10 {
        name.push(48u8);
    }
    push_decimal(&mut name, index);
    name.push(46u8);
    name.push(100u8);
    name.push(97u8);
    name.push(116u8);
    proof {
        assert(name@ =~= shard_name(index as nat));
    }
    name
}

/// The name of the file that holds the metadata record.
pub fn metadata_file_name() -> (name: Vec<u8>)
    ensures
        name@ == metadata_name(),
{
    let mut name: Vec<u8> = Vec::new();
    name.push(109u8);
    name.push(101u8);
    name.push(116u8);
    name.push(97u8);
    name.push(46u8);
    name.push(116u8);
    name.push(120u8);
    name.push(116u8);
    proof {
        assert(name@ =~= metadata_name());
    }
    name
}

} // verus!
