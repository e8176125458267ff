use vstd::prelude::*;

use crate::codec::{
    copy_bytes, has_prefix, lemma_lex_asymmetric, lemma_lex_transitive, lemma_past_prefix,
    lemma_prefix_not_before, lex_lt,
};
use crate::error::Error;
use crate::table::{lemma_index_match, opt_bytes, Indexed, Table};
use core::marker::PhantomData;
use either::Either;

verus! {

/// Relies on `either::Either` as that crate declares it: an enum of the two public variants
/// `Left(L)` and `Right(R)`, which a selective scan yields for decoded entries and for keys
/// alone.
#[verifier::external_type_specification]
#[verifier::reject_recursive_types(L)]
#[verifier::reject_recursive_types(R)]
pub struct ExEither<L, R>(Either<L, R>);

/// One item of an engine cursor: the key and value bytes it visited, or the engine's error.
pub type RawItem = Result<(Vec<u8>, Vec<u8>), Error>;

/// The item is a key outside the scan's prefix, where the scan ends.
pub open spec fn leaves_scan(item: RawItem, prefix: Option<Seq<u8>>) -> bool {
    item is Ok && prefix is Some && !has_prefix(item->Ok_0.0@, prefix->Some_0)
}

/// How many leading cursor items a scan reaches: all of them, or those before the first
/// key outside the prefix.
pub open spec fn scan_extent(raw: Seq<RawItem>, prefix: Option<Seq<u8>>) -> nat
    decreases raw.len(),
{
    if raw.len() == 0 || leaves_scan(raw[0], prefix) {
        0
    } else {
        1 + scan_extent(raw.drop_first(), prefix)
    }
}

/// The item holds stored bytes whose key and value both decode.
pub open spec fn item_decodes<T: Table>(item: RawItem) -> bool {
    &&& item is Ok
    &&& T::key_decoding(item->Ok_0.0@) is Some
    &&& T::value_decoding(item->Ok_0.1@) is Some
}

/// The entry that a decoding item holds.
pub open spec fn item_entry<T: Table>(item: RawItem) -> (T::Key, T::Value) {
    (
        T::key_decoding(item->Ok_0.0@)->Some_0,
        T::value_decoding(item->Ok_0.1@)->Some_0,
    )
}

/// `e` is the error that a scan reports for an item that does not decode: the engine's own
/// error, or the key bytes that do not decode, or else the value bytes.
pub open spec fn item_error<T: Table>(item: RawItem, e: Error) -> bool {
    match item {
        Err(e0) => e == e0,
        Ok((k, v)) => if T::key_decoding(k@) is None {
            e matches Error::InvalidKey(b) && b@ == k@
        } else {
            e matches Error::InvalidValue(b) && b@ == v@
        },
    }
}

pub proof fn lemma_scan_extent(raw: Seq<RawItem>, prefix: Option<Seq<u8>>)
    ensures
        scan_extent(raw, prefix) <= raw.len(),
        forall|i: int| 0 <= i < scan_extent(raw, prefix) ==> !leaves_scan(raw[i], prefix),
        scan_extent(raw, prefix) < raw.len() ==> leaves_scan(raw[scan_extent(raw, prefix) as int], prefix),
    decreases raw.len(),
{
    if raw.len() > 0 && !leaves_scan(raw[0], prefix) {
        lemma_scan_extent(raw.drop_first(), prefix);
        assert forall|i: int| 0 <= i < scan_extent(raw, prefix) implies !leaves_scan(raw[i], prefix) by {
            if i > 0 {
                assert(raw[i] == raw.drop_first()[i - 1]);
            }
        }
    }
}

/// A scan reaches `n` items exactly when none of the first `n` leaves it and the next does.
pub proof fn lemma_scan_extent_unique(raw: Seq<RawItem>, prefix: Option<Seq<u8>>, n: nat)
    requires
        n <= raw.len(),
        forall|i: int| 0 <= i < n ==> !leaves_scan(raw[i], prefix),
        n < raw.len() ==> leaves_scan(raw[n as int], prefix),
    ensures
        scan_extent(raw, prefix) == n,
    decreases raw.len(),
{
    if n > 0 {
        assert forall|i: int| 0 <= i < n - 1 implies !leaves_scan(raw.drop_first()[i], prefix) by {
            assert(raw.drop_first()[i] == raw[i + 1]);
        }
        if n < raw.len() {
            assert(raw.drop_first()[n - 1] == raw[n as int]);
        }
        lemma_scan_extent_unique(raw.drop_first(), prefix, (n - 1) as nat);
    }
}

/// Decodes the items of an engine cursor into typed entries, one at a time.
///
/// Where the scan is bound to a prefix it ends at the first key outside it. After the
/// end, or after the first error, no further items come.
pub struct TableIterator<T> {
    prefix: Option<Vec<u8>>,
    done: bool,
    _table: PhantomData<T>,
}

impl<T: Table> TableIterator<T> {
    pub closed spec fn spec_prefix(&self) -> Option<Seq<u8>> {
        match self.prefix {
            Some(p) => Some(p@),
            None => None,
        }
    }

    pub closed spec fn is_done(&self) -> bool {
        self.done
    }

    /// Whether the iterator has ended: no further items come.
    pub fn finished(&self) -> (r: bool)
        ensures
            r == self.is_done(),
    {
        self.done
    }

    /// An iterator over a whole partition.
    pub fn new() -> (r: Self)
        ensures
            r.spec_prefix() is None,
            !r.is_done(),
    {
        TableIterator { prefix: None, done: false, _table: PhantomData }
    }

    /// An iterator bound to the keys that begin with `prefix`.
    pub fn with_prefix(prefix: &[u8]) -> (r: Self)
        ensures
            r.spec_prefix() == Some(prefix@),
            !r.is_done(),
    {
        TableIterator { prefix: Some(copy_bytes(prefix)), done: false, _table: PhantomData }
    }

    /// Takes the cursor's next item (`None` once the cursor is exhausted) and gives the
    /// iterator's next item.
    pub fn next_item(&mut self, raw: Option<RawItem>) -> (r: Option<Result<(T::Key, T::Value), Error>>)
        ensures
            final(self).spec_prefix() == old(self).spec_prefix(),
            old(self).is_done() ==> r is None && final(self).is_done(),
            !old(self).is_done() ==> match raw {
                None => r is None && final(self).is_done(),
                Some(item) => if leaves_scan(item, old(self).spec_prefix()) {
                    r is None && final(self).is_done()
                } else if item_decodes::<T>(item) {
                    r == Some(Ok::<(T::Key, T::Value), Error>(item_entry::<T>(item)))
                        && !final(self).is_done()
                } else {
                    r matches Some(Err(e)) && item_error::<T>(item, e) && final(self).is_done()
                },
            },
    {
        if self.done {
            return None;
        }
        match raw {
            None => {
                self.done = true;
                None
            },
            Some(Err(e)) => {
                self.done = true;
                Some(Err(e))
            },
            Some(Ok((key_bytes, value_bytes))) => {
                if outside_prefix(&self.prefix, key_bytes.as_slice()) {
                    self.done = true;
                    return None;
                }
                match T::bytes_to_key(key_bytes.as_slice()) {
                    Err(e) => {
                        self.done = true;
                        Some(Err(e))
                    },
                    Ok(key) => match T::bytes_to_value(value_bytes.as_slice()) {
                        Err(e) => {
                            self.done = true;
                            Some(Err(e))
                        },
                        Ok(value) => Some(Ok((key, value))),
                    },
                }
            },
        }
    }
}

/// Runs a scan over the items of a cursor and collects the entries, stopping at the first
/// error.
///
/// The scan reaches the items before the first key outside `prefix`. It succeeds exactly
/// when each of them decodes, with their entries in cursor order; otherwise it reports the
/// error of the first one that does not.
pub fn collect_entries<T: Table>(prefix: Option<&[u8]>, raw: Vec<RawItem>) -> (r: Result<
    Vec<(T::Key, T::Value)>,
    Error,
>)
    ensures
        ({
            let n = scan_extent(raw@, opt_bytes(prefix));
            match r {
                Ok(es) => {
                    &&& es@.len() == n
                    &&& forall|i: int| 0 <= i < n ==> item_decodes::<T>(#[trigger] raw@[i])
                    &&& forall|i: int| 0 <= i < n ==> es@[i] == item_entry::<T>(#[trigger] raw@[i])
                },
                Err(e) => exists|j: int|
                    0 <= j < n && (forall|i: int| 0 <= i < j ==> item_decodes::<T>(#[trigger] raw@[i]))
                        && !item_decodes::<T>(#[trigger] raw@[j]) && item_error::<T>(raw@[j], e),
            }
        }),
{
    let ghost all = raw@;
    let ghost p = opt_bytes(prefix);
    let mut it: TableIterator<T> = match prefix {
        Some(b) => TableIterator::with_prefix(b),
        None => TableIterator::new(),
    };
    let total = raw.len();
    let mut rest = raw;
    let mut out: Vec<(T::Key, T::Value)> = Vec::new();
    let mut i: usize = 0;
    proof {
        lemma_scan_extent(all, p);
    }
    loop
        invariant
            all == raw@,
            p == opt_bytes(prefix),
            total == all.len(),
            it.spec_prefix() == p,
            !it.is_done(),
            i <= all.len(),
            rest@ == all.subrange(i as int, all.len() as int),
            out@.len() == i,
            forall|j: int| 0 <= j < i ==> !leaves_scan(#[trigger] all[j], p),
            forall|j: int| 0 <= j < i ==> item_decodes::<T>(#[trigger] all[j]),
            forall|j: int| 0 <= j < i ==> out@[j] == item_entry::<T>(#[trigger] all[j]),
            scan_extent(all, p) <= all.len(),
            forall|j: int| 0 <= j < scan_extent(all, p) ==> !leaves_scan(all[j], p),
            scan_extent(all, p) < all.len() ==> leaves_scan(all[scan_extent(all, p) as int], p),
        decreases all.len() - i,
    {
        let remaining = rest.len();
        let item = if remaining == 0 {
            None
        } else {
            Some(rest.remove(0))
        };
        proof {
            if remaining > 0 {
                assert(item == Some(all[i as int]));
            } else {
                assert(i == all.len());
            }
        }
        match it.next_item(item) {
            None => {
                proof {
                    lemma_scan_extent_unique(all, p, i as nat);
                }
                return Ok(out);
            },
            Some(Err(e)) => {
                proof {
                    lemma_scan_extent_unique_lower(all, p, i as nat);
                }
                return Err(e);
            },
            Some(Ok(entry)) => {
                out.push(entry);
                i = i + 1;
                proof {
                    assert(rest@ =~= all.subrange(i as int, all.len() as int));
                }
            },
        }
    }
}

/// A scan reaches past every item before one that does not leave it.
proof fn lemma_scan_extent_unique_lower(raw: Seq<RawItem>, prefix: Option<Seq<u8>>, n: nat)
    requires
        n < raw.len(),
        forall|i: int| 0 <= i <= n ==> !leaves_scan(#[trigger] raw[i], prefix),
    ensures
        n < scan_extent(raw, prefix),
    decreases n,
{
    if n > 0 {
        assert forall|i: int| 0 <= i <= n - 1 implies !leaves_scan(#[trigger] raw.drop_first()[i], prefix) by {
            assert(raw.drop_first()[i] == raw[i + 1]);
        }
        lemma_scan_extent_unique_lower(raw.drop_first(), prefix, (n - 1) as nat);
    }
}

/// The item holds stored bytes whose key decodes.
pub open spec fn key_decodes<T: Table>(item: RawItem) -> bool {
    item is Ok && T::key_decoding(item->Ok_0.0@) is Some
}

/// The key that a key-decoding item holds.
pub open spec fn key_of<T: Table>(item: RawItem) -> T::Key {
    T::key_decoding(item->Ok_0.0@)->Some_0
}

/// `out` is what a selective scan yields for `item`: the whole entry where the predicate
/// selected the key, the key alone where it did not.
pub open spec fn selected_entry<T: Table, P: Fn(&T::Key) -> bool>(
    pred: P,
    item: RawItem,
    out: Either<(T::Key, T::Value), T::Key>,
) -> bool {
    &&& key_decodes::<T>(item)
    &&& match out {
        Either::Left((k, v)) => k == key_of::<T>(item) && pred.ensures((&k,), true)
            && T::value_decoding(item->Ok_0.1@) == Some(v),
        Either::Right(k) => k == key_of::<T>(item) && pred.ensures((&k,), false),
    }
}

/// `e` is the error that a selective scan reports for `item`: that of an item whose key
/// does not decode, or the value bytes of a selected key that do not decode.
pub open spec fn selected_error<T: Table, P: Fn(&T::Key) -> bool>(
    pred: P,
    item: RawItem,
    e: Error,
) -> bool {
    if key_decodes::<T>(item) {
        &&& pred.ensures((&key_of::<T>(item),), true)
        &&& T::value_decoding(item->Ok_0.1@) is None
        &&& e matches Error::InvalidValue(b) && b@ == item->Ok_0.1@
    } else {
        item_error::<T>(item, e)
    }
}

/// The item's key decodes, and its value too unless the predicate, as called, rejected the
/// key: a selective scan goes on past such an item.
pub open spec fn passes<T: Table, P: Fn(&T::Key) -> bool>(pred: P, item: RawItem) -> bool {
    &&& key_decodes::<T>(item)
    &&& T::value_decoding(item->Ok_0.1@) is Some || pred.ensures((&key_of::<T>(item),), false)
}

/// The item's key decodes, and its value too unless the predicate can only reject the key.
pub open spec fn selectable<T: Table, P: Fn(&T::Key) -> bool>(pred: P, item: RawItem) -> bool {
    &&& key_decodes::<T>(item)
    &&& T::value_decoding(item->Ok_0.1@) is Some || forall|b: bool|
        pred.ensures((&key_of::<T>(item),), b) ==> !b
}

/// Decodes the items of an engine cursor, decoding a value only where a predicate over the
/// decoded key selects it; other items come out as their key alone.
///
/// Where the scan is bound to a prefix it ends at the first key outside it. After the
/// end, or after the first error, no further items come.
pub struct SelectedEntryIterator<T, P> {
    prefix: Option<Vec<u8>>,
    pred: P,
    done: bool,
    _table: PhantomData<T>,
}

impl<T: Table, P: Fn(&T::Key) -> bool> SelectedEntryIterator<T, P> {
    pub closed spec fn spec_prefix(&self) -> Option<Seq<u8>> {
        match self.prefix {
            Some(p) => Some(p@),
            None => None,
        }
    }

    pub closed spec fn spec_pred(&self) -> P {
        self.pred
    }

    pub closed spec fn is_done(&self) -> bool {
        self.done
    }

    /// Whether the iterator has ended: no further items come.
    pub fn finished(&self) -> (r: bool)
        ensures
            r == self.is_done(),
    {
        self.done
    }

    /// A selective iterator over a whole partition.
    pub fn new(pred: P) -> (r: Self)
        ensures
            r.spec_prefix() is None,
            r.spec_pred() == pred,
            !r.is_done(),
    {
        SelectedEntryIterator { prefix: None, pred, done: false, _table: PhantomData }
    }

    /// A selective iterator bound to the keys that begin with `prefix`.
    pub fn with_prefix(prefix: &[u8], pred: P) -> (r: Self)
        ensures
            r.spec_prefix() == Some(prefix@),
            r.spec_pred() == pred,
            !r.is_done(),
    {
        SelectedEntryIterator {
            prefix: Some(copy_bytes(prefix)),
            pred,
            done: false,
            _table: PhantomData,
        }
    }

    /// Takes the cursor's next item (`None` once the cursor is exhausted) and gives the
    /// iterator's next item.
    pub fn next_item(&mut self, raw: Option<RawItem>) -> (r: Option<
        Result<Either<(T::Key, T::Value), T::Key>, Error>,
    >)
        requires
            forall|k: T::Key| old(self).spec_pred().requires((&k,)),
        ensures
            final(self).spec_prefix() == old(self).spec_prefix(),
            final(self).spec_pred() == old(self).spec_pred(),
            old(self).is_done() ==> r is None && final(self).is_done(),
            !old(self).is_done() ==> match raw {
                None => r is None && final(self).is_done(),
                Some(item) => if leaves_scan(item, old(self).spec_prefix()) {
                    r is None && final(self).is_done()
                } else {
                    match r {
                        Some(Ok(out)) => selected_entry::<T, P>(old(self).spec_pred(), item, out)
                            && !final(self).is_done(),
                        Some(Err(e)) => selected_error::<T, P>(old(self).spec_pred(), item, e)
                            && final(self).is_done(),
                        None => false,
                    }
                },
            },
    {
        if self.done {
            return None;
        }
        match raw {
            None => {
                self.done = true;
                None
            },
            Some(Err(e)) => {
                self.done = true;
                Some(Err(e))
            },
            Some(Ok((key_bytes, value_bytes))) => {
                if outside_prefix(&self.prefix, key_bytes.as_slice()) {
                    self.done = true;
                    return None;
                }
                match T::bytes_to_key(key_bytes.as_slice()) {
                    Err(e) => {
                        self.done = true;
                        Some(Err(e))
                    },
                    Ok(key) => {
                        proof {
                            assert(old(self).spec_pred().requires((&key,)));
                            assert(self.pred == old(self).spec_pred());
                        }
                        if (self.pred)(&key) {
                            match T::bytes_to_value(value_bytes.as_slice()) {
                                Err(e) => {
                                    self.done = true;
                                    Some(Err(e))
                                },
                                Ok(value) => Some(Ok(Either::Left((key, value)))),
                            }
                        } else {
                            Some(Ok(Either::Right(key)))
                        }
                    },
                }
            },
        }
    }
}

/// Runs a selective scan over the items of a cursor and collects what it yields, stopping
/// at the first error.
///
/// The scan succeeds exactly when each item it reaches has a decodable key and, where the
/// predicate selected the key, a decodable value: values that the predicate never asks for
/// are not decoded and cannot make it fail.
pub fn collect_selected<T: Table, P: Fn(&T::Key) -> bool>(
    prefix: Option<&[u8]>,
    raw: Vec<RawItem>,
    pred: P,
) -> (r: Result<Vec<Either<(T::Key, T::Value), T::Key>>, Error>)
    requires
        forall|k: T::Key| pred.requires((&k,)),
    ensures
        ({
            let n = scan_extent(raw@, opt_bytes(prefix));
            &&& match r {
                Ok(es) => {
                    &&& es@.len() == n
                    &&& forall|i: int|
                        0 <= i < n ==> selected_entry::<T, P>(pred, #[trigger] raw@[i], es@[i])
                },
                Err(e) => exists|j: int|
                    0 <= j < n && (forall|i: int|
                        0 <= i < j ==> passes::<T, P>(pred, #[trigger] raw@[i]))
                        && selected_error::<T, P>(pred, #[trigger] raw@[j], e),
            }
            &&& (forall|i: int| 0 <= i < n ==> selectable::<T, P>(pred, #[trigger] raw@[i]))
                ==> r is Ok
        }),
{
    let ghost all = raw@;
    let ghost p = opt_bytes(prefix);
    let mut it: SelectedEntryIterator<T, P> = match prefix {
        Some(b) => SelectedEntryIterator::with_prefix(b, pred),
        None => SelectedEntryIterator::new(pred),
    };
    let total = raw.len();
    let mut rest = raw;
    let mut out: Vec<Either<(T::Key, T::Value), T::Key>> = Vec::new();
    let mut i: usize = 0;
    proof {
        lemma_scan_extent(all, p);
    }
    loop
        invariant
            all == raw@,
            p == opt_bytes(prefix),
            total == all.len(),
            it.spec_prefix() == p,
            it.spec_pred() == pred,
            forall|k: T::Key| pred.requires((&k,)),
            !it.is_done(),
            i <= all.len(),
            rest@ == all.subrange(i as int, all.len() as int),
            out@.len() == i,
            forall|j: int| 0 <= j < i ==> !leaves_scan(#[trigger] all[j], p),
            forall|j: int| 0 <= j < i ==> selected_entry::<T, P>(pred, #[trigger] all[j], out@[j]),
            scan_extent(all, p) <= all.len(),
            forall|j: int| 0 <= j < scan_extent(all, p) ==> !leaves_scan(all[j], p),
            scan_extent(all, p) < all.len() ==> leaves_scan(all[scan_extent(all, p) as int], p),
        decreases all.len() - i,
    {
        let remaining = rest.len();
        let item = if remaining == 0 {
            None
        } else {
            Some(rest.remove(0))
        };
        proof {
            if remaining > 0 {
                assert(item == Some(all[i as int]));
            } else {
                assert(i == all.len());
            }
        }
        match it.next_item(item) {
            None => {
                proof {
                    lemma_scan_extent_unique(all, p, i as nat);
                }
                return Ok(out);
            },
            Some(Err(e)) => {
                proof {
                    lemma_scan_extent_unique_lower(all, p, i as nat);
                    assert(forall|j: int| 0 <= j < i ==> passes::<T, P>(pred, #[trigger] all[j]));
                }
                return Err(e);
            },
            Some(Ok(entry)) => {
                out.push(entry);
                i = i + 1;
                proof {
                    assert(rest@ =~= all.subrange(i as int, all.len() as int));
                }
            },
        }
    }
}

/// Whether `key` lies outside the prefix that a scan is bound to.
fn outside_prefix(prefix: &Option<Vec<u8>>, key: &[u8]) -> (r: bool)
    ensures
        r == (prefix is Some && !has_prefix(key@, prefix->Some_0@)),
{
    match prefix {
        None => false,
        Some(p) => {
            if p.len() > key.len() {
                true
            } else {
                let mut i: usize = 0;
                while i < p.len()
                    invariant
                        prefix is Some,
                        prefix->Some_0@ == p@,
                        i <= p@.len() <= key@.len(),
                        key@.subrange(0, i as int) == p@.subrange(0, i as int),
                    decreases p@.len() - i,
                {
                    if key[i] != p[i] {
                        assert(key@.subrange(0, p@.len() as int)[i as int] != p@[i as int]);
                        return true;
                    }
                    i = i + 1;
                    assert(key@.subrange(0, i as int) =~= p@.subrange(0, i as int));
                }
                assert(p@.subrange(0, p@.len() as int) =~= p@);
                false
            }
        },
    }
}

/// The key bytes of a cursor item that holds stored bytes.
pub open spec fn item_key(item: RawItem) -> Seq<u8> {
    item->Ok_0.0@
}

/// A scan bound to the bytes of an index value, started where seeking to those bytes puts
/// an ordered cursor over a partition, reaches exactly the stored entries with that index
/// value, and in key order.
///
/// `stored` is the partition in key order and `start` the first position whose key does
/// not sort before the index bytes. The scan reaches `stored[start..start + n]`, and those
/// are all the entries whose index value is `index`.
pub proof fn lemma_index_scan<const N: usize, T: Indexed<N>>(
    stored: Seq<RawItem>,
    start: int,
    index: T::Index,
)
    requires
        forall|i: int| 0 <= i < stored.len() ==> key_decodes::<T>(#[trigger] stored[i]),
        forall|i: int, j: int|
            0 <= i < j < stored.len() ==> lex_lt(
                #[trigger] item_key(stored[i]),
                #[trigger] item_key(stored[j]),
            ),
        0 <= start <= stored.len(),
        forall|i: int|
            0 <= i < start ==> lex_lt(#[trigger] item_key(stored[i]), T::index_encoding(index)),
        start < stored.len() ==> !lex_lt(item_key(stored[start]), T::index_encoding(index)),
    ensures
        ({
            let n = scan_extent(
                stored.subrange(start, stored.len() as int),
                Some(T::index_encoding(index)),
            );
            &&& start + n <= stored.len()
            &&& forall|i: int|
                start <= i < start + n ==> T::key_index(key_of::<T>(#[trigger] stored[i]))
                    == index
            &&& forall|i: int|
                0 <= i < stored.len() && T::key_index(key_of::<T>(#[trigger] stored[i])) == index
                    ==> start <= i < start + n
        }),
{
    let p = T::index_encoding(index);
    let cursor = stored.subrange(start, stored.len() as int);
    let n = scan_extent(cursor, Some(p));
    lemma_scan_extent(cursor, Some(p));
    assert forall|i: int| start <= i < start + n implies T::key_index(
        key_of::<T>(#[trigger] stored[i]),
    ) == index by {
        assert(cursor[i - start] == stored[i]);
        assert(!leaves_scan(cursor[i - start], Some(p)));
        lemma_index_match::<N, T>(item_key(stored[i]), index);
    }
    assert forall|i: int|
        0 <= i < stored.len() && T::key_index(key_of::<T>(#[trigger] stored[i])) == index implies start
        <= i < start + n by {
        lemma_index_match::<N, T>(item_key(stored[i]), index);
        assert(has_prefix(item_key(stored[i]), p));
        if i < start {
            lemma_prefix_not_before(item_key(stored[i]), p);
        }
        if i >= start + n {
            let m = start + n;
            let b = item_key(stored[m]);
            assert(cursor[n as int] == stored[m]);
            assert(!has_prefix(b, p));
            if n > 0 {
                if lex_lt(b, p) {
                    lemma_lex_transitive(item_key(stored[start]), b, p);
                }
            }
            assert(!lex_lt(b, p));
            if i > m {
                lemma_past_prefix(b, item_key(stored[i]), p);
                lemma_lex_asymmetric(b, item_key(stored[i]));
            }
        }
    }
}

/// A scan over a cursor in byte order of keys yields its entries in byte order of their key
/// encodings; and in the order of the keys themselves, for any order that the table's key
/// encoding preserves and that relates any two distinct keys.
pub proof fn lemma_scan_in_key_order<T: Table>(
    raw: Seq<RawItem>,
    prefix: Option<Seq<u8>>,
    lt: spec_fn(T::Key, T::Key) -> bool,
)
    requires
        forall|i: int, j: int|
            0 <= i < j < raw.len() && raw[i] is Ok && raw[j] is Ok ==> lex_lt(
                #[trigger] item_key(raw[i]),
                #[trigger] item_key(raw[j]),
            ),
        forall|i: int| 0 <= i < scan_extent(raw, prefix) ==> item_decodes::<T>(#[trigger] raw[i]),
        forall|k1: T::Key, k2: T::Key|
            T::key_encoding(k1) is Some && T::key_encoding(k2) is Some && #[trigger] lt(k1, k2)
                ==> lex_lt(T::key_encoding(k1)->Some_0, T::key_encoding(k2)->Some_0),
        forall|k1: T::Key, k2: T::Key| k1 != k2 ==> #[trigger] lt(k1, k2) || #[trigger] lt(k2, k1),
    ensures
        forall|i: int, j: int|
            0 <= i < j < scan_extent(raw, prefix) ==> lex_lt(
                T::key_encoding((#[trigger] item_entry::<T>(raw[i])).0)->Some_0,
                T::key_encoding((#[trigger] item_entry::<T>(raw[j])).0)->Some_0,
            ) && lt(item_entry::<T>(raw[i]).0, item_entry::<T>(raw[j]).0),
{
    lemma_scan_extent(raw, prefix);
    assert forall|i: int, j: int| 0 <= i < j < scan_extent(raw, prefix) implies lex_lt(
        T::key_encoding((#[trigger] item_entry::<T>(raw[i])).0)->Some_0,
        T::key_encoding((#[trigger] item_entry::<T>(raw[j])).0)->Some_0,
    ) && lt(item_entry::<T>(raw[i]).0, item_entry::<T>(raw[j]).0) by {
        let a = item_key(raw[i]);
        let b = item_key(raw[j]);
        let ki = item_entry::<T>(raw[i]).0;
        let kj = item_entry::<T>(raw[j]).0;
        assert(item_decodes::<T>(raw[i]) && item_decodes::<T>(raw[j]));
        T::lemma_key_canonical(a);
        T::lemma_key_canonical(b);
        assert(lex_lt(a, b));
        lemma_lex_asymmetric(a, b);
        lemma_lex_asymmetric(a, a);
        if ki == kj {
            assert(a == b);
        }
        if lt(kj, ki) {
            assert(lex_lt(b, a));
        }
    }
}

} // verus!
