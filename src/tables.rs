use vstd::prelude::*;

use crate::codec::{
    be_bytes, be_value, copy_bytes, decode_be, encode_be, lemma_be_bytes_len,
    lemma_be_order, lemma_be_round_trip, lemma_be_value_bound, lemma_be_value_round_trip,
    lemma_lex_concat, lemma_pow256_values, lex_lt,
};
use crate::error::Error;
use crate::table::{opt_bytes, Indexed, Table};

verus! {

/// The bytes of a key made of a big-endian number of `a` bytes followed by one of `b` bytes.
pub open spec fn pair_bytes(x: nat, a: nat, y: nat, b: nat) -> Seq<u8> {
    be_bytes(x, a) + be_bytes(y, b)
}

proof fn lemma_pair_split(x: nat, a: nat, y: nat, b: nat)
    ensures
        pair_bytes(x, a, y, b).len() == a + b,
        pair_bytes(x, a, y, b).subrange(0, a as int) == be_bytes(x, a),
        pair_bytes(x, a, y, b).subrange(a as int, (a + b) as int) == be_bytes(y, b),
{
    lemma_be_bytes_len(x, a);
    lemma_be_bytes_len(y, b);
    assert(pair_bytes(x, a, y, b).subrange(0, a as int) =~= be_bytes(x, a));
    assert(pair_bytes(x, a, y, b).subrange(a as int, (a + b) as int) =~= be_bytes(y, b));
}

proof fn lemma_pair_join(s: Seq<u8>, a: nat, b: nat)
    requires
        s.len() == a + b,
    ensures
        pair_bytes(be_value(s.subrange(0, a as int)), a, be_value(s.subrange(a as int, (a + b) as int)), b)
            == s,
{
    lemma_be_value_round_trip(s.subrange(0, a as int));
    lemma_be_value_round_trip(s.subrange(a as int, (a + b) as int));
    assert(s.subrange(0, a as int) + s.subrange(a as int, (a + b) as int) =~= s);
}

/// Orders pairs by their first part, then by their second: byte-wise order of their keys.
proof fn lemma_pair_order(x1: nat, y1: nat, x2: nat, y2: nat, a: nat, b: nat)
    requires
        x1 < crate::codec::pow256(a),
        x2 < crate::codec::pow256(a),
        y1 < crate::codec::pow256(b),
        y2 < crate::codec::pow256(b),
        x1 < x2 || (x1 == x2 && y1 < y2),
    ensures
        lex_lt(pair_bytes(x1, a, y1, b), pair_bytes(x2, a, y2, b)),
{
    lemma_be_bytes_len(x1, a);
    lemma_be_bytes_len(x2, a);
    lemma_lex_concat(be_bytes(x1, a), be_bytes(y1, b), be_bytes(x2, a), be_bytes(y2, b));
    if x1 < x2 {
        lemma_be_order(x1, x2, a);
    } else {
        lemma_be_order(y1, y2, b);
    }
}

/// Appends the big-endian bytes of two numbers.
fn encode_pair(x: u64, a: usize, y: u64, b: usize) -> (r: Vec<u8>)
    ensures
        r@ == pair_bytes(x as nat, a as nat, y as nat, b as nat),
{
    let mut first = encode_be(x, a);
    let mut second = encode_be(y, b);
    first.append(&mut second);
    first
}

/// Scores keyed by an id and a timestamp, indexed by the id.
///
/// Keys are the id's two big-endian bytes followed by the timestamp's four, so that keys
/// sort by id and then by timestamp; values are the score's eight big-endian bytes (two's
/// complement).
pub struct ScoreTable;

/// The bytes of a score key.
pub open spec fn score_key_bytes(key: (u16, u32)) -> Seq<u8> {
    pair_bytes(key.0 as nat, 2, key.1 as nat, 4)
}

impl Table for ScoreTable {
    type Key = (u16, u32);

    type Value = i64;

    open spec fn key_encoding(key: (u16, u32)) -> Option<Seq<u8>> {
        Some(score_key_bytes(key))
    }

    open spec fn value_encoding(value: i64) -> Option<Seq<u8>> {
        Some(be_bytes(value as u64 as nat, 8))
    }

    open spec fn key_decoding(bytes: Seq<u8>) -> Option<(u16, u32)> {
        if bytes.len() == 6 {
            Some((be_value(bytes.subrange(0, 2)) as u16, be_value(bytes.subrange(2, 6)) as u32))
        } else {
            None
        }
    }

    open spec fn value_decoding(bytes: Seq<u8>) -> Option<i64> {
        if bytes.len() == 8 {
            Some(be_value(bytes) as u64 as i64)
        } else {
            None
        }
    }

    open spec fn spec_prefix_len() -> nat {
        2
    }

    open spec fn spec_merge_name() -> Option<Seq<char>> {
        None
    }

    open spec fn merge_result(existing: Option<Seq<u8>>, operands: Seq<Seq<u8>>) -> Option<Seq<u8>> {
        None
    }

    proof fn lemma_key_round_trip(key: (u16, u32)) {
        lemma_pow256_values();
        lemma_pair_split(key.0 as nat, 2, key.1 as nat, 4);
        lemma_be_round_trip(key.0 as nat, 2);
        lemma_be_round_trip(key.1 as nat, 4);
    }

    proof fn lemma_value_round_trip(value: i64) {
        lemma_pow256_values();
        lemma_be_bytes_len(value as u64 as nat, 8);
        lemma_be_round_trip(value as u64 as nat, 8);
        assert((value as u64) as i64 == value) by (bit_vector);
    }

    proof fn lemma_key_canonical(bytes: Seq<u8>) {
        lemma_pow256_values();
        lemma_be_value_bound(bytes.subrange(0, 2));
        lemma_be_value_bound(bytes.subrange(2, 6));
        lemma_pair_join(bytes, 2, 4);
    }

    proof fn lemma_merge_batches(
        existing: Option<Seq<u8>>,
        first: Seq<Seq<u8>>,
        rest: Seq<Seq<u8>>,
    ) {
    }

    proof fn lemma_merge_total(existing: Option<i64>, operands: Seq<i64>) {
    }

    fn key_to_bytes(key: &(u16, u32)) -> (r: Result<Vec<u8>, Error>) {
        Ok(encode_pair(key.0 as u64, 2, key.1 as u64, 4))
    }

    fn value_to_bytes(value: &i64) -> (r: Result<Vec<u8>, Error>) {
        Ok(encode_be(*value as u64, 8))
    }

    fn bytes_to_key(bytes: &[u8]) -> (r: Result<(u16, u32), Error>) {
        if bytes.len() != 6 {
            Err(Error::InvalidKey(copy_bytes(bytes)))
        } else {
            Ok((decode_be(bytes, 0, 2) as u16, decode_be(bytes, 2, 6) as u32))
        }
    }

    fn bytes_to_value(bytes: &[u8]) -> (r: Result<i64, Error>) {
        if bytes.len() != 8 {
            Err(Error::InvalidValue(copy_bytes(bytes)))
        } else {
            proof {
                assert(bytes@.subrange(0, 8) =~= bytes@);
            }
            Ok(decode_be(bytes, 0, 8) as i64)
        }
    }

    fn prefix_len() -> (r: usize) {
        2
    }

    fn merge_name() -> (r: Option<String>) {
        None
    }

    fn associative_merge(existing: Option<&[u8]>, operands: &Vec<Vec<u8>>) -> (r: Option<Vec<u8>>) {
        None
    }
}

impl Indexed<2> for ScoreTable {
    type Index = u16;

    open spec fn index_encoding(index: u16) -> Seq<u8> {
        be_bytes(index as nat, 2)
    }

    open spec fn key_index(key: (u16, u32)) -> u16 {
        key.0
    }

    proof fn lemma_index_layout(key: (u16, u32), i: u16, j: u16) {
        lemma_pow256_values();
        lemma_be_bytes_len(i as nat, 2);
        lemma_pair_split(key.0 as nat, 2, key.1 as nat, 4);
        lemma_be_round_trip(i as nat, 2);
        lemma_be_round_trip(j as nat, 2);
    }

    fn index_to_bytes(index: &u16) -> (r: Vec<u8>) {
        encode_be(*index as u64, 2)
    }
}

/// Keys of the score table sort byte-wise as the pairs sort: by id, then by timestamp.
pub proof fn lemma_score_key_order(k1: (u16, u32), k2: (u16, u32))
    requires
        k1.0 < k2.0 || (k1.0 == k2.0 && k1.1 < k2.1),
    ensures
        lex_lt(score_key_bytes(k1), score_key_bytes(k2)),
{
    lemma_pow256_values();
    lemma_pair_order(k1.0 as nat, k1.1 as nat, k2.0 as nat, k2.1 as nat, 2, 4);
}

/// `2^32`: counts are summed modulo this.
pub const COUNT_MODULUS: u64 = 0x1_0000_0000;

/// Every operand holds the four bytes of a count.
pub open spec fn count_operands(operands: Seq<Seq<u8>>) -> bool {
    forall|i: int| 0 <= i < operands.len() ==> (#[trigger] operands[i]).len() == 4
}

/// The sum of the counts that operands hold.
pub open spec fn operand_sum(operands: Seq<Seq<u8>>) -> int
    decreases operands.len(),
{
    if operands.len() == 0 {
        0
    } else {
        operand_sum(operands.drop_last()) + be_value(operands.last())
    }
}

/// The count a stored value holds, zero where none is stored.
pub open spec fn existing_count(existing: Option<Seq<u8>>) -> int {
    match existing {
        Some(b) => be_value(b) as int,
        None => 0,
    }
}

/// The additive merge: the stored count plus every operand, modulo `2^32`, as four bytes;
/// nothing where a stored value or an operand is not four bytes long.
pub open spec fn addition_merge(existing: Option<Seq<u8>>, operands: Seq<Seq<u8>>) -> Option<Seq<u8>> {
    if (existing is None || existing->Some_0.len() == 4) && count_operands(operands) {
        Some(be_bytes(((existing_count(existing) + operand_sum(operands)) % (COUNT_MODULUS as int)) as nat, 4))
    } else {
        None
    }
}

proof fn lemma_operand_sum_concat(xs: Seq<Seq<u8>>, ys: Seq<Seq<u8>>)
    ensures
        operand_sum(xs + ys) == operand_sum(xs) + operand_sum(ys),
    decreases ys.len(),
{
    if ys.len() == 0 {
        assert(xs + ys =~= xs);
    } else {
        assert((xs + ys).drop_last() =~= xs + ys.drop_last());
        lemma_operand_sum_concat(xs, ys.drop_last());
    }
}

/// Counts keyed by an id and a timestamp in seconds, indexed by the id, merged by addition.
///
/// Keys are the id's eight big-endian bytes followed by the timestamp's four; values are
/// the count's four big-endian bytes.
pub struct CountTable;

/// The bytes of a count key.
pub open spec fn count_key_bytes(key: (u64, u32)) -> Seq<u8> {
    pair_bytes(key.0 as nat, 8, key.1 as nat, 4)
}

impl Table for CountTable {
    type Key = (u64, u32);

    type Value = u32;

    open spec fn key_encoding(key: (u64, u32)) -> Option<Seq<u8>> {
        Some(count_key_bytes(key))
    }

    open spec fn value_encoding(value: u32) -> Option<Seq<u8>> {
        Some(be_bytes(value as nat, 4))
    }

    open spec fn key_decoding(bytes: Seq<u8>) -> Option<(u64, u32)> {
        if bytes.len() == 12 {
            Some((be_value(bytes.subrange(0, 8)) as u64, be_value(bytes.subrange(8, 12)) as u32))
        } else {
            None
        }
    }

    open spec fn value_decoding(bytes: Seq<u8>) -> Option<u32> {
        if bytes.len() == 4 {
            Some(be_value(bytes) as u32)
        } else {
            None
        }
    }

    open spec fn spec_prefix_len() -> nat {
        8
    }

    open spec fn spec_merge_name() -> Option<Seq<char>> {
        Some(seq!['a', 'd', 'd', 'i', 't', 'i', 'o', 'n'])
    }

    open spec fn merge_result(existing: Option<Seq<u8>>, operands: Seq<Seq<u8>>) -> Option<Seq<u8>> {
        addition_merge(existing, operands)
    }

    proof fn lemma_key_round_trip(key: (u64, u32)) {
        lemma_pow256_values();
        lemma_pair_split(key.0 as nat, 8, key.1 as nat, 4);
        lemma_be_round_trip(key.0 as nat, 8);
        lemma_be_round_trip(key.1 as nat, 4);
    }

    proof fn lemma_value_round_trip(value: u32) {
        lemma_pow256_values();
        lemma_be_bytes_len(value as nat, 4);
        lemma_be_round_trip(value as nat, 4);
    }

    proof fn lemma_key_canonical(bytes: Seq<u8>) {
        lemma_pow256_values();
        lemma_be_value_bound(bytes.subrange(0, 8));
        lemma_be_value_bound(bytes.subrange(8, 12));
        lemma_pair_join(bytes, 8, 4);
    }

    proof fn lemma_merge_batches(
        existing: Option<Seq<u8>>,
        first: Seq<Seq<u8>>,
        rest: Seq<Seq<u8>>,
    ) {
        let m = COUNT_MODULUS as int;
        assert(count_operands(first + rest) ==> count_operands(first)) by {
            if count_operands(first + rest) {
                assert forall|i: int| 0 <= i < first.len() implies (#[trigger] first[i]).len() == 4 by {
                    assert((first + rest)[i] == first[i]);
                }
            }
        }
        if addition_merge(existing, first) is Some {
            lemma_pow256_values();
            let s1 = (existing_count(existing) + operand_sum(first)) % m;
            let b1 = be_bytes(s1 as nat, 4);
            lemma_be_bytes_len(s1 as nat, 4);
            lemma_be_round_trip(s1 as nat, 4);
            lemma_operand_sum_concat(first, rest);
            assert(count_operands(rest) == count_operands(first + rest)) by {
                if count_operands(rest) {
                    assert forall|i: int| 0 <= i < (first + rest).len() implies (#[trigger] (first
                        + rest)[i]).len() == 4 by {
                        if i >= first.len() {
                            assert((first + rest)[i] == rest[i - first.len()]);
                        }
                    }
                }
                if count_operands(first + rest) {
                    assert forall|i: int| 0 <= i < rest.len() implies (#[trigger] rest[i]).len() == 4 by {
                        assert((first + rest)[i + first.len()] == rest[i]);
                    }
                }
            }
            let e = existing_count(existing);
            let x = operand_sum(first);
            let y = operand_sum(rest);
            assert(((e + x) % m + y) % m == (e + (x + y)) % m) by {
                vstd::arithmetic::div_mod::lemma_add_mod_noop(e + x, y, m);
                vstd::arithmetic::div_mod::lemma_mod_twice(y, m);
                vstd::arithmetic::div_mod::lemma_add_mod_noop((e + x) % m, y, m);
                vstd::arithmetic::div_mod::lemma_mod_twice(e + x, m);
            }
        }
    }

    proof fn lemma_merge_total(existing: Option<u32>, operands: Seq<u32>) {
        if existing is Some {
            lemma_be_bytes_len(existing->Some_0 as nat, 4);
        }
        let ops = operands.map_values(|v: u32| be_bytes(v as nat, 4));
        assert(operands.map_values(|v: u32| Self::value_encoding(v)->Some_0) =~= ops);
        assert forall|i: int| 0 <= i < ops.len() implies (#[trigger] ops[i]).len() == 4 by {
            lemma_be_bytes_len(operands[i] as nat, 4);
        }
        assert(count_operands(ops));
    }

    fn key_to_bytes(key: &(u64, u32)) -> (r: Result<Vec<u8>, Error>) {
        Ok(encode_pair(key.0, 8, key.1 as u64, 4))
    }

    fn value_to_bytes(value: &u32) -> (r: Result<Vec<u8>, Error>) {
        Ok(encode_be(*value as u64, 4))
    }

    fn bytes_to_key(bytes: &[u8]) -> (r: Result<(u64, u32), Error>) {
        if bytes.len() != 12 {
            Err(Error::InvalidKey(copy_bytes(bytes)))
        } else {
            Ok((decode_be(bytes, 0, 8), decode_be(bytes, 8, 12) as u32))
        }
    }

    fn bytes_to_value(bytes: &[u8]) -> (r: Result<u32, Error>) {
        if bytes.len() != 4 {
            Err(Error::InvalidValue(copy_bytes(bytes)))
        } else {
            proof {
                assert(bytes@.subrange(0, 4) =~= bytes@);
            }
            Ok(decode_be(bytes, 0, 4) as u32)
        }
    }

    fn prefix_len() -> (r: usize) {
        8
    }

    fn merge_name() -> (r: Option<String>) {
        let name = "addition".to_owned();
        proof {
            reveal_strlit("addition");
        }
        Some(name)
    }

    fn associative_merge(existing: Option<&[u8]>, operands: &Vec<Vec<u8>>) -> (r: Option<Vec<u8>>) {
        let ghost ops = operands.deep_view();
        let ghost m = COUNT_MODULUS as int;
        proof {
            lemma_pow256_values();
        }
        let mut acc: u64 = 0;
        match existing {
            Some(b) => {
                if b.len() != 4 {
                    return None;
                }
                proof {
                    assert(b@.subrange(0, 4) =~= b@);
                    lemma_be_value_bound(b@);
                }
                acc = decode_be(b, 0, 4);
            },
            None => {},
        }
        let mut i: usize = 0;
        while i < operands.len()
            invariant
                ops == operands.deep_view(),
                ops.len() == operands@.len(),
                m == COUNT_MODULUS as int,
                existing is None || existing->Some_0@.len() == 4,
                i <= operands@.len(),
                acc < COUNT_MODULUS,
                acc as int == (existing_count(opt_bytes(existing)) + operand_sum(ops.subrange(0, i as int))) % m,
                forall|j: int| 0 <= j < i ==> (#[trigger] ops[j]).len() == 4,
            decreases operands@.len() - i,
        {
            let op = &operands[i];
            assert(ops[i as int] == op@);
            if op.len() != 4 {
                return None;
            }
            let v = decode_be(op.as_slice(), 0, 4);
            proof {
                lemma_pow256_values();
                assert(op@.subrange(0, 4) =~= op@);
                lemma_be_value_bound(op@);
                assert(ops.subrange(0, i + 1).drop_last() =~= ops.subrange(0, i as int));
                let e = existing_count(opt_bytes(existing));
                let x = operand_sum(ops.subrange(0, i as int));
                vstd::arithmetic::div_mod::lemma_add_mod_noop(e + x, v as int, m);
                vstd::arithmetic::div_mod::lemma_mod_twice(e + x, m);
                vstd::arithmetic::div_mod::lemma_small_mod(v as nat, m as nat);
                vstd::arithmetic::div_mod::lemma_add_mod_noop(acc as int, v as int, m);
                vstd::arithmetic::div_mod::lemma_small_mod(acc as nat, m as nat);
            }
            acc = (acc + v) % COUNT_MODULUS;
            i = i + 1;
        }
        proof {
            assert(ops.subrange(0, i as int) =~= ops);
        }
        Some(encode_be(acc, 4))
    }
}

impl Indexed<8> for CountTable {
    type Index = u64;

    open spec fn index_encoding(index: u64) -> Seq<u8> {
        be_bytes(index as nat, 8)
    }

    open spec fn key_index(key: (u64, u32)) -> u64 {
        key.0
    }

    proof fn lemma_index_layout(key: (u64, u32), i: u64, j: u64) {
        lemma_pow256_values();
        lemma_be_bytes_len(i as nat, 8);
        lemma_pair_split(key.0 as nat, 8, key.1 as nat, 4);
        lemma_be_round_trip(i as nat, 8);
        lemma_be_round_trip(j as nat, 8);
    }

    fn index_to_bytes(index: &u64) -> (r: Vec<u8>) {
        encode_be(*index, 8)
    }
}

/// Keys of the count table sort byte-wise as the pairs sort: by id, then by timestamp.
pub proof fn lemma_count_key_order(k1: (u64, u32), k2: (u64, u32))
    requires
        k1.0 < k2.0 || (k1.0 == k2.0 && k1.1 < k2.1),
    ensures
        lex_lt(count_key_bytes(k1), count_key_bytes(k2)),
{
    lemma_pow256_values();
    lemma_pair_order(k1.0 as nat, k1.1 as nat, k2.0 as nat, k2.1 as nat, 8, 4);
}

} // verus!
