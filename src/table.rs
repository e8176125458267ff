use vstd::prelude::*;

use crate::codec::has_prefix;
use crate::error::Error;

verus! {

/// The bytes behind an optional borrowed slice.
pub open spec fn opt_bytes(b: Option<&[u8]>) -> Option<Seq<u8>> {
    match b {
        Some(s) => Some(s@),
        None => None,
    }
}

/// The bytes stored for an optional value.
pub open spec fn stored_bytes<T: Table>(value: Option<T::Value>) -> Option<Seq<u8>> {
    match value {
        Some(v) => T::value_encoding(v),
        None => None,
    }
}

/// The bytes of merge operands that are values.
pub open spec fn operand_bytes<T: Table>(values: Seq<T::Value>) -> Seq<Seq<u8>> {
    values.map_values(|v: T::Value| T::value_encoding(v)->Some_0)
}

/// The encoding contract of a table: how its keys and values become bytes and back.
///
/// Encodings are deterministic, and decoding accepts exactly the bytes that encoding
/// produces. A table may also declare an associative merge operator, applied by the
/// engine to a stored value and a list of pending operands.
pub trait Table {
    type Key;
    type Value;

    /// The bytes of `key`, where it can be encoded.
    spec fn key_encoding(key: Self::Key) -> Option<Seq<u8>>;

    /// The bytes of `value`, where it can be encoded.
    spec fn value_encoding(value: Self::Value) -> Option<Seq<u8>>;

    /// The key that `bytes` hold, where they hold one.
    spec fn key_decoding(bytes: Seq<u8>) -> Option<Self::Key>;

    /// The value that `bytes` hold, where they hold one.
    spec fn value_decoding(bytes: Seq<u8>) -> Option<Self::Value>;

    /// Length of the fixed key prefix that the partition's prefix extractor uses (0: none).
    spec fn spec_prefix_len() -> nat;

    /// Name of the merge operator, where the table has one.
    spec fn spec_merge_name() -> Option<Seq<char>>;

    /// What the merge operator makes of a stored value and pending operands.
    spec fn merge_result(existing: Option<Seq<u8>>, operands: Seq<Seq<u8>>) -> Option<Seq<u8>>;

    proof fn lemma_key_round_trip(key: Self::Key)
        requires
            Self::key_encoding(key) is Some,
        ensures
            Self::key_decoding(Self::key_encoding(key)->Some_0) == Some(key),
    ;

    proof fn lemma_value_round_trip(value: Self::Value)
        requires
            Self::value_encoding(value) is Some,
        ensures
            Self::value_decoding(Self::value_encoding(value)->Some_0) == Some(value),
    ;

    proof fn lemma_key_canonical(bytes: Seq<u8>)
        requires
            Self::key_decoding(bytes) is Some,
        ensures
            Self::key_encoding(Self::key_decoding(bytes)->Some_0) == Some(bytes),
    ;

    /// Merging in two batches gives what merging all operands at once gives, and operands
    /// that merge at once also merge in a first batch.
    proof fn lemma_merge_batches(
        existing: Option<Seq<u8>>,
        first: Seq<Seq<u8>>,
        rest: Seq<Seq<u8>>,
    )
        ensures
            Self::merge_result(existing, first + rest) is Some ==> Self::merge_result(
                existing,
                first,
            ) is Some,
            Self::merge_result(existing, first) is Some ==> Self::merge_result(
                Self::merge_result(existing, first),
                rest,
            ) == Self::merge_result(existing, first + rest),
    ;

    /// A table with a merge operator merges any operands that are values, onto a stored
    /// value or onto none.
    proof fn lemma_merge_total(existing: Option<Self::Value>, operands: Seq<Self::Value>)
        requires
            Self::spec_merge_name() is Some,
            existing is Some ==> Self::value_encoding(existing->Some_0) is Some,
            forall|i: int|
                0 <= i < operands.len() ==> Self::value_encoding(#[trigger] operands[i]) is Some,
        ensures
            Self::merge_result(
                match existing {
                    Some(v) => Self::value_encoding(v),
                    None => None,
                },
                operands.map_values(|v: Self::Value| Self::value_encoding(v)->Some_0),
            ) is Some,
    ;

    fn key_to_bytes(key: &Self::Key) -> (r: Result<Vec<u8>, Error>)
        ensures
            match r {
                Ok(b) => Self::key_encoding(*key) == Some(b@),
                Err(_) => Self::key_encoding(*key) is None,
            },
    ;

    fn value_to_bytes(value: &Self::Value) -> (r: Result<Vec<u8>, Error>)
        ensures
            match r {
                Ok(b) => Self::value_encoding(*value) == Some(b@),
                Err(_) => Self::value_encoding(*value) is None,
            },
    ;

    fn bytes_to_key(bytes: &[u8]) -> (r: Result<Self::Key, Error>)
        ensures
            match r {
                Ok(k) => Self::key_decoding(bytes@) == Some(k),
                Err(e) => Self::key_decoding(bytes@) is None && (e matches Error::InvalidKey(b)
                    && b@ == bytes@),
            },
    ;

    fn bytes_to_value(bytes: &[u8]) -> (r: Result<Self::Value, Error>)
        ensures
            match r {
                Ok(v) => Self::value_decoding(bytes@) == Some(v),
                Err(e) => Self::value_decoding(bytes@) is None && (e matches Error::InvalidValue(b)
                    && b@ == bytes@),
            },
    ;

    fn prefix_len() -> (r: usize)
        ensures
            r as nat == Self::spec_prefix_len(),
    ;

    fn merge_name() -> (r: Option<String>)
        ensures
            match r {
                Some(s) => Self::spec_merge_name() == Some(s@),
                None => Self::spec_merge_name() is None,
            },
    ;

    /// The merge operator; `None` reports operands it cannot combine.
    fn associative_merge(existing: Option<&[u8]>, operands: &Vec<Vec<u8>>) -> (r: Option<Vec<u8>>)
        ensures
            match r {
                Some(b) => Self::merge_result(opt_bytes(existing), operands.deep_view()) == Some(
                    b@,
                ),
                None => Self::merge_result(opt_bytes(existing), operands.deep_view()) is None,
            },
    ;
}

/// A table whose keys begin with an `N`-byte index, so that all entries sharing an index
/// value can be read by one bounded prefix scan.
pub trait Indexed<const N: usize>: Table {
    type Index;

    /// The `N` bytes of an index value.
    spec fn index_encoding(index: Self::Index) -> Seq<u8>;

    /// The index value of the entry with key `key`.
    spec fn key_index(key: Self::Key) -> Self::Index;

    /// The index bytes are a prefix of every key encoding, a non-empty one, and they tell
    /// index values apart.
    proof fn lemma_index_layout(key: Self::Key, i: Self::Index, j: Self::Index)
        ensures
            N > 0,
            Self::spec_prefix_len() == N,
            Self::index_encoding(i).len() == N,
            Self::index_encoding(i) == Self::index_encoding(j) ==> i == j,
            Self::key_encoding(key) is Some ==> has_prefix(
                Self::key_encoding(key)->Some_0,
                Self::index_encoding(Self::key_index(key)),
            ),
    ;

    fn index_to_bytes(index: &Self::Index) -> (r: Vec<u8>)
        ensures
            r@ == Self::index_encoding(*index),
    ;
}

/// Decoding an encoded key or value gives it back.
pub proof fn lemma_round_trip<T: Table>(key: T::Key, value: T::Value)
    ensures
        T::key_encoding(key) is Some ==> T::key_decoding(T::key_encoding(key)->Some_0) == Some(key),
        T::value_encoding(value) is Some ==> T::value_decoding(T::value_encoding(value)->Some_0)
            == Some(value),
{
    if T::key_encoding(key) is Some {
        T::lemma_key_round_trip(key);
    }
    if T::value_encoding(value) is Some {
        T::lemma_value_round_trip(value);
    }
}

/// Stored key bytes begin with the bytes of an index value exactly when the key they
/// hold has that index value.
pub proof fn lemma_index_match<const N: usize, T: Indexed<N>>(bytes: Seq<u8>, index: T::Index)
    requires
        T::key_decoding(bytes) is Some,
    ensures
        has_prefix(bytes, T::index_encoding(index)) <==> T::key_index(
            T::key_decoding(bytes)->Some_0,
        ) == index,
{
    let key = T::key_decoding(bytes)->Some_0;
    T::lemma_key_canonical(bytes);
    T::lemma_index_layout(key, T::key_index(key), index);
    T::lemma_index_layout(key, index, T::key_index(key));
    if has_prefix(bytes, T::index_encoding(index)) {
        assert(bytes.subrange(0, N as int) == T::index_encoding(index));
        assert(bytes.subrange(0, N as int) == T::index_encoding(T::key_index(key)));
    }
}

/// Merging operands in any grouping gives one result: `[a, b, c]` at once, `[a, b]` and then
/// `[c]`, or `[a]` and then `[b, c]`.
pub proof fn lemma_merge_grouping<T: Table>(
    existing: Option<Seq<u8>>,
    a: Seq<u8>,
    b: Seq<u8>,
    c: Seq<u8>,
)
    requires
        T::merge_result(existing, seq![a, b, c]) is Some,
    ensures
        T::merge_result(T::merge_result(existing, seq![a, b]), seq![c]) == T::merge_result(
            existing,
            seq![a, b, c],
        ),
        T::merge_result(T::merge_result(existing, seq![a]), seq![b, c]) == T::merge_result(
            existing,
            seq![a, b, c],
        ),
{
    assert(seq![a, b] + seq![c] =~= seq![a, b, c]);
    assert(seq![a] + seq![b, c] =~= seq![a, b, c]);
    T::lemma_merge_batches(existing, seq![a, b], seq![c]);
    T::lemma_merge_batches(existing, seq![a], seq![b, c]);
}

/// For a table with a merge operator, merging values in any grouping gives one result, and
/// there always is one: `[a, b, c]` at once, `[a, b]` and then `[c]`, or `[a]` and then
/// `[b, c]`, onto a stored value or onto none.
pub proof fn lemma_merge_grouping_values<T: Table>(
    existing: Option<T::Value>,
    a: T::Value,
    b: T::Value,
    c: T::Value,
)
    requires
        T::spec_merge_name() is Some,
        existing is Some ==> T::value_encoding(existing->Some_0) is Some,
        T::value_encoding(a) is Some,
        T::value_encoding(b) is Some,
        T::value_encoding(c) is Some,
    ensures
        ({
            let e = stored_bytes::<T>(existing);
            let (x, y, z) = (
                T::value_encoding(a)->Some_0,
                T::value_encoding(b)->Some_0,
                T::value_encoding(c)->Some_0,
            );
            &&& T::merge_result(e, seq![x, y, z]) is Some
            &&& T::merge_result(T::merge_result(e, seq![x, y]), seq![z]) == T::merge_result(
                e,
                seq![x, y, z],
            )
            &&& T::merge_result(T::merge_result(e, seq![x]), seq![y, z]) == T::merge_result(
                e,
                seq![x, y, z],
            )
        }),
{
    let ops = seq![a, b, c];
    assert(operand_bytes::<T>(ops) =~= seq![
        T::value_encoding(a)->Some_0,
        T::value_encoding(b)->Some_0,
        T::value_encoding(c)->Some_0,
    ]);
    T::lemma_merge_total(existing, ops);
    lemma_merge_grouping::<T>(
        stored_bytes::<T>(existing),
        T::value_encoding(a)->Some_0,
        T::value_encoding(b)->Some_0,
        T::value_encoding(c)->Some_0,
    );
}

/// Two writes address one engine key exactly when they are for one key, and a read decodes
/// the bytes of the last write for a key back to its value. With an engine that keeps the
/// last write for each key, a lookup therefore sees the most recent value.
pub proof fn lemma_overwrite<T: Table>(k1: T::Key, k2: T::Key, last: T::Value)
    requires
        T::key_encoding(k1) is Some,
        T::key_encoding(k2) is Some,
        T::value_encoding(last) is Some,
    ensures
        T::key_encoding(k1) == T::key_encoding(k2) <==> k1 == k2,
        T::value_decoding(T::value_encoding(last)->Some_0) == Some(last),
{
    T::lemma_key_round_trip(k1);
    T::lemma_key_round_trip(k2);
    T::lemma_value_round_trip(last);
}

/// What an engine that keeps the last write for each key holds after a run of puts of
/// encodable entries, as key bytes to value bytes.
pub open spec fn stored_after<T: Table>(writes: Seq<(T::Key, T::Value)>) -> Map<Seq<u8>, Seq<u8>>
    decreases writes.len(),
{
    if writes.len() == 0 {
        Map::empty()
    } else {
        stored_after::<T>(writes.drop_last()).insert(
            T::key_encoding(writes.last().0)->Some_0,
            T::value_encoding(writes.last().1)->Some_0,
        )
    }
}

/// The value last written for `key` in a run of puts, if any was.
pub open spec fn last_written<T: Table>(writes: Seq<(T::Key, T::Value)>, key: T::Key) -> Option<
    T::Value,
>
    decreases writes.len(),
{
    if writes.len() == 0 {
        None
    } else if writes.last().0 == key {
        Some(writes.last().1)
    } else {
        last_written::<T>(writes.drop_last(), key)
    }
}

/// Last write wins. After a run of puts, a lookup of a key finds the value last written
/// for it and nothing for a key never written; and every stored entry, so every entry that
/// a scan decodes, is one written key with the value last written for it.
pub proof fn lemma_last_write_wins<T: Table>(writes: Seq<(T::Key, T::Value)>)
    requires
        forall|i: int|
            0 <= i < writes.len() ==> T::key_encoding((#[trigger] writes[i]).0) is Some
                && T::value_encoding(writes[i].1) is Some,
    ensures
        forall|key: T::Key|
            T::key_encoding(key) is Some ==> match #[trigger] last_written::<T>(writes, key) {
                Some(v) => stored_after::<T>(writes).contains_key(T::key_encoding(key)->Some_0)
                    && T::value_decoding(stored_after::<T>(writes)[T::key_encoding(key)->Some_0])
                    == Some(v),
                None => !stored_after::<T>(writes).contains_key(T::key_encoding(key)->Some_0),
            },
        forall|b: Seq<u8>|
            #[trigger] stored_after::<T>(writes).contains_key(b) ==> T::key_decoding(b) is Some
                && last_written::<T>(writes, T::key_decoding(b)->Some_0) == T::value_decoding(
                stored_after::<T>(writes)[b],
            ),
    decreases writes.len(),
{
    if writes.len() > 0 {
        let w = writes.drop_last();
        let (k0, v0) = writes.last();
        assert(writes[writes.len() - 1] == writes.last());
        let e0 = T::key_encoding(k0)->Some_0;
        assert forall|i: int| 0 <= i < w.len() implies T::key_encoding((#[trigger] w[i]).0) is Some
            && T::value_encoding(w[i].1) is Some by {
            assert(w[i] == writes[i]);
        }
        lemma_last_write_wins::<T>(w);
        T::lemma_key_round_trip(k0);
        T::lemma_value_round_trip(v0);
        let m = stored_after::<T>(writes);
        assert forall|key: T::Key| T::key_encoding(key) is Some implies match #[trigger] last_written::<
            T,
        >(writes, key) {
            Some(v) => m.contains_key(T::key_encoding(key)->Some_0) && T::value_decoding(
                m[T::key_encoding(key)->Some_0],
            ) == Some(v),
            None => !m.contains_key(T::key_encoding(key)->Some_0),
        } by {
            lemma_overwrite::<T>(key, k0, v0);
            assert(last_written::<T>(w, key) == last_written::<T>(w, key));
        }
        assert forall|b: Seq<u8>| #[trigger] m.contains_key(b) implies T::key_decoding(b) is Some
            && last_written::<T>(writes, T::key_decoding(b)->Some_0) == T::value_decoding(m[b]) by {
            if b != e0 {
                assert(stored_after::<T>(w).contains_key(b));
                T::lemma_key_canonical(b);
            }
        }
    }
}

} // verus!
