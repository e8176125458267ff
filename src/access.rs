use vstd::prelude::*;

use crate::config::{descriptor_names, NamedTable, OpenSettings};
use crate::error::Error;
use crate::iter::{SelectedEntryIterator, TableIterator};
use crate::mode::ModeType;
use crate::table::{Indexed, Table};

verus! {

/// Where an operation goes: the default partition or a named one.
#[derive(Clone, Debug, PartialEq, Eq)]
pub enum Target {
    Default,
    Named(String),
}

/// The target is the partition called `name`, or the default partition for `None`.
pub open spec fn target_is(t: Target, name: Option<Seq<char>>) -> bool {
    match t {
        Target::Default => name is None,
        Target::Named(s) => name == Some(s@),
    }
}

/// The named partitions a database was opened with, against which every operation resolves
/// the partition of its table.
#[derive(Clone)]
pub struct Partitions {
    names: Vec<String>,
}

impl Partitions {
    pub closed spec fn spec_names(&self) -> Seq<Seq<char>> {
        self.names@.map_values(|s: String| s@)
    }

    /// The table names a partition that is not open.
    pub open spec fn unknown<T>(&self, table: &NamedTable<T>) -> bool {
        table.spec_name() is Some && !self.spec_names().contains(table.spec_name()->Some_0)
    }

    /// The partitions that a database opened with `settings` has.
    pub fn from_settings(settings: &OpenSettings) -> (r: Self)
        ensures
            r.spec_names() == descriptor_names(settings.cf_descriptors@),
    {
        let mut names: Vec<String> = Vec::new();
        let mut i: usize = 0;
        while i < settings.cf_descriptors.len()
            invariant
                i <= settings.cf_descriptors@.len(),
                names@.len() == i,
                names@.map_values(|s: String| s@) == descriptor_names(
                    settings.cf_descriptors@.subrange(0, i as int),
                ),
            decreases settings.cf_descriptors@.len() - i,
        {
            let name = settings.cf_descriptors[i].name.clone();
            let ghost before = names@;
            names.push(name);
            i = i + 1;
            proof {
                let ds = settings.cf_descriptors@.subrange(0, i as int);
                assert(ds.drop_last() =~= settings.cf_descriptors@.subrange(0, i - 1));
                assert forall|j: int| 0 <= j < i implies names@.map_values(|s: String| s@)[j]
                    == descriptor_names(ds)[j] by {
                    if j < i - 1 {
                        assert(names@[j] == before[j]);
                        assert(before.map_values(|s: String| s@)[j] == descriptor_names(
                            ds.drop_last(),
                        )[j]);
                    }
                }
                assert(names@.map_values(|s: String| s@) =~= descriptor_names(
                    settings.cf_descriptors@.subrange(0, i as int),
                ));
            }
        }
        proof {
            assert(settings.cf_descriptors@.subrange(0, i as int) =~= settings.cf_descriptors@);
        }
        Partitions { names }
    }

    /// Whether a partition called `name` is open.
    pub fn contains(&self, name: &String) -> (r: bool)
        ensures
            r == self.spec_names().contains(name@),
    {
        let mut i: usize = 0;
        while i < self.names.len()
            invariant
                i <= self.names@.len(),
                forall|j: int| 0 <= j < i ==> self.names@[j]@ != name@,
            decreases self.names@.len() - i,
        {
            if self.names[i] == *name {
                proof {
                    assert(self.spec_names()[i as int] == name@);
                }
                return true;
            }
            i = i + 1;
        }
        proof {
            assert forall|j: int| 0 <= j < self.spec_names().len() implies self.spec_names()[j]
                != name@ by {
                assert(self.spec_names()[j] == self.names@[j]@);
            }
        }
        false
    }

    /// The partition of `table`; an error where it names a partition that is not open.
    pub fn resolve<T>(&self, table: &NamedTable<T>) -> (r: Result<Target, Error>)
        ensures
            self.unknown(table) ==> (r matches Err(Error::InvalidCfName(m)) && table.spec_name()
                == Some(m@)),
            !self.unknown(table) ==> (r matches Ok(t) && target_is(t, table.spec_name())),
    {
        match table.name() {
            None => Ok(Target::Default),
            Some(n) => {
                let name = n.to_owned();
                if self.contains(&name) {
                    Ok(Target::Named(name))
                } else {
                    Err(Error::InvalidCfName(name))
                }
            },
        }
    }
}

/// A point read: the key bytes to look up in a partition.
pub struct Lookup {
    pub target: Target,
    pub key: Vec<u8>,
}

/// A batched read: key bytes, one per requested key and in their order.
pub struct MultiLookup {
    pub target: Target,
    pub keys: Vec<Vec<u8>>,
}

/// Whether a write stores a value or hands it to the merge operator.
#[derive(Clone, Copy, Debug, PartialEq, Eq, Structural)]
pub enum WriteKind {
    Put,
    Merge,
}

/// A single-key write: key and value bytes for a partition.
pub struct Write {
    pub kind: WriteKind,
    pub target: Target,
    pub key: Vec<u8>,
    pub value: Vec<u8>,
}

/// A scan of a partition, bound to a key prefix or not.
pub struct Scan {
    pub target: Target,
    pub prefix: Option<Vec<u8>>,
}

/// What a point read gives for stored bytes: nothing for none, the value they hold, or
/// `None` where they hold none.
pub open spec fn stored_value<T: Table>(stored: Option<Vec<u8>>) -> Option<Option<T::Value>> {
    match stored {
        None => Some(None),
        Some(b) => match T::value_decoding(b@) {
            Some(v) => Some(Some(v)),
            None => None,
        },
    }
}

/// `e` is the error that a read reports for a result of the engine: the engine's own
/// error, or stored bytes that do not decode, carried in the error.
pub open spec fn read_error<T: Table>(res: Result<Option<Vec<u8>>, Error>, e: Error) -> bool {
    match res {
        Err(e0) => e == e0,
        Ok(Some(b)) => T::value_decoding(b@) is None && (e matches Error::InvalidValue(x) && x@
            == b@),
        Ok(None) => false,
    }
}

/// Plans a point read of `key`: the partition is resolved first, then the key encoded.
pub fn plan_lookup<T: Table>(parts: &Partitions, table: &NamedTable<T>, key: &T::Key) -> (r: Result<
    Lookup,
    Error,
>)
    ensures
        parts.unknown(table) ==> (r matches Err(Error::InvalidCfName(m)) && table.spec_name()
            == Some(m@)),
        !parts.unknown(table) ==> match T::key_encoding(*key) {
            None => r is Err,
            Some(b) => r matches Ok(l) && target_is(l.target, table.spec_name()) && l.key@ == b,
        },
{
    let target = parts.resolve(table)?;
    let key = T::key_to_bytes(key)?;
    Ok(Lookup { target, key })
}

/// Decodes what a point read found. An absent key gives `None`, never an error.
pub fn finish_lookup<T: Table>(stored: Option<Vec<u8>>) -> (r: Result<Option<T::Value>, Error>)
    ensures
        match stored_value::<T>(stored) {
            Some(v) => r == Ok::<Option<T::Value>, Error>(v),
            None => r matches Err(e) && read_error::<T>(Ok(stored), e),
        },
{
    match stored {
        None => Ok(None),
        Some(b) => match T::bytes_to_value(b.as_slice()) {
            Ok(v) => Ok(Some(v)),
            Err(e) => Err(e),
        },
    }
}

/// Plans a batched read: the partition is resolved first, then every key encoded, failing
/// at the first key that cannot be.
pub fn plan_lookups<T: Table>(
    parts: &Partitions,
    table: &NamedTable<T>,
    keys: &Vec<T::Key>,
) -> (r: Result<MultiLookup, Error>)
    ensures
        parts.unknown(table) ==> (r matches Err(Error::InvalidCfName(m)) && table.spec_name()
            == Some(m@)),
        !parts.unknown(table) ==> ((r is Ok) <==> forall|i: int|
            0 <= i < keys@.len() ==> T::key_encoding(#[trigger] keys@[i]) is Some),
        r matches Ok(m) ==> {
            &&& target_is(m.target, table.spec_name())
            &&& m.keys@.len() == keys@.len()
            &&& forall|i: int|
                0 <= i < keys@.len() ==> T::key_encoding(#[trigger] keys@[i]) == Some(
                    m.keys@[i]@,
                )
        },
{
    let target = parts.resolve(table)?;
    let mut encoded: Vec<Vec<u8>> = Vec::new();
    let mut i: usize = 0;
    while i < keys.len()
        invariant
            !parts.unknown(table),
            target_is(target, table.spec_name()),
            i <= keys@.len(),
            encoded@.len() == i,
            forall|j: int| 0 <= j < i ==> T::key_encoding(#[trigger] keys@[j]) == Some(encoded@[j]@),
        decreases keys@.len() - i,
    {
        let b = T::key_to_bytes(&keys[i])?;
        encoded.push(b);
        i = i + 1;
    }
    Ok(MultiLookup { target, keys: encoded })
}

/// Decodes the results of a batched read, one slot per requested key and in their order.
/// The whole read fails at the first result that is an engine error or holds bytes that do
/// not decode.
pub fn finish_lookups<T: Table>(results: Vec<Result<Option<Vec<u8>>, Error>>) -> (r: Result<
    Vec<Option<T::Value>>,
    Error,
>)
    ensures
        match r {
            Ok(vs) => {
                &&& vs@.len() == results@.len()
                &&& forall|i: int|
                    0 <= i < results@.len() ==> (#[trigger] results@[i]) is Ok && stored_value::<
                        T,
                    >(results@[i]->Ok_0) == Some(vs@[i])
            },
            Err(e) => exists|j: int|
                0 <= j < results@.len() && (forall|i: int|
                    0 <= i < j ==> (#[trigger] results@[i]) is Ok && stored_value::<T>(
                        results@[i]->Ok_0,
                    ) is Some) && read_error::<T>(#[trigger] results@[j], e),
        },
        (forall|i: int|
            0 <= i < results@.len() ==> (#[trigger] results@[i]) is Ok && stored_value::<T>(
                results@[i]->Ok_0,
            ) is Some) ==> r is Ok,
{
    let ghost all = results@;
    let total = results.len();
    let mut rest = results;
    let mut out: Vec<Option<T::Value>> = Vec::new();
    let mut i: usize = 0;
    while i < total
        invariant
            all == results@,
            total == all.len(),
            i <= total,
            rest@ == all.subrange(i as int, all.len() as int),
            out@.len() == i,
            forall|j: int|
                0 <= j < i ==> (#[trigger] all[j]) is Ok && stored_value::<T>(all[j]->Ok_0) == Some(
                    out@[j],
                ),
        decreases total - i,
    {
        let res = rest.remove(0);
        assert(res == all[i as int]);
        match res {
            Err(e) => {
                return Err(e);
            },
            Ok(stored) => {
                let ghost s = stored;
                match finish_lookup::<T>(stored) {
                    Err(e) => {
                        return Err(e);
                    },
                    Ok(v) => {
                        out.push(v);
                    },
                }
            },
        }
        i = i + 1;
        proof {
            assert(rest@ =~= all.subrange(i as int, all.len() as int));
        }
    }
    Ok(out)
}

/// Plans a write or a merge. A handle whose mode does not allow writes is refused before
/// anything else; then the partition is resolved, then key and value are encoded.
pub fn plan_write<T: Table>(
    mode: ModeType,
    parts: &Partitions,
    table: &NamedTable<T>,
    kind: WriteKind,
    key: &T::Key,
    value: &T::Value,
) -> (r: Result<Write, Error>)
    ensures
        !mode.spec_is_primary() ==> r == Err::<Write, Error>(Error::NotWriteable(mode)),
        mode.spec_is_primary() && parts.unknown(table) ==> (r matches Err(Error::InvalidCfName(m))
            && table.spec_name() == Some(m@)),
        mode.spec_is_primary() && !parts.unknown(table) ==> match (
            T::key_encoding(*key),
            T::value_encoding(*value),
        ) {
            (Some(kb), Some(vb)) => r matches Ok(w) && w.kind == kind && target_is(
                w.target,
                table.spec_name(),
            ) && w.key@ == kb && w.value@ == vb,
            _ => r is Err,
        },
{
    mode.check_writeable()?;
    let target = parts.resolve(table)?;
    let key = T::key_to_bytes(key)?;
    let value = T::value_to_bytes(value)?;
    Ok(Write { kind, target, key, value })
}

/// Plans a scan of the whole partition of `table`.
pub fn plan_scan<T: Table>(parts: &Partitions, table: &NamedTable<T>) -> (r: Result<Scan, Error>)
    ensures
        parts.unknown(table) ==> (r matches Err(Error::InvalidCfName(m)) && table.spec_name()
            == Some(m@)),
        !parts.unknown(table) ==> (r matches Ok(s) && target_is(s.target, table.spec_name())
            && s.prefix is None),
{
    let target = parts.resolve(table)?;
    Ok(Scan { target, prefix: None })
}

/// Plans a scan of the entries whose index value is `index`: a seek to its bytes, bound to
/// keys that begin with them. The partition is resolved before the index is encoded.
pub fn plan_index_scan<const N: usize, T: Indexed<N>>(
    parts: &Partitions,
    table: &NamedTable<T>,
    index: &T::Index,
) -> (r: Result<Scan, Error>)
    ensures
        parts.unknown(table) ==> (r matches Err(Error::InvalidCfName(m)) && table.spec_name()
            == Some(m@)),
        !parts.unknown(table) ==> (r matches Ok(s) && target_is(s.target, table.spec_name())
            && (s.prefix matches Some(p) && p@ == T::index_encoding(*index))),
{
    let target = parts.resolve(table)?;
    let prefix = T::index_to_bytes(index);
    Ok(Scan { target, prefix: Some(prefix) })
}

impl Scan {
    /// The decoder for the cursor of this scan.
    pub fn entries<T: Table>(&self) -> (r: TableIterator<T>)
        ensures
            !r.is_done(),
            match self.prefix {
                Some(p) => r.spec_prefix() == Some(p@),
                None => r.spec_prefix() is None,
            },
    {
        match &self.prefix {
            Some(p) => TableIterator::with_prefix(p.as_slice()),
            None => TableIterator::new(),
        }
    }

    /// The selective decoder for the cursor of this scan.
    pub fn selected_entries<T: Table, P: Fn(&T::Key) -> bool>(&self, pred: P) -> (r:
        SelectedEntryIterator<T, P>)
        ensures
            !r.is_done(),
            r.spec_pred() == pred,
            match self.prefix {
                Some(p) => r.spec_prefix() == Some(p@),
                None => r.spec_prefix() is None,
            },
    {
        match &self.prefix {
            Some(p) => SelectedEntryIterator::with_prefix(p.as_slice(), pred),
            None => SelectedEntryIterator::new(pred),
        }
    }
}

} // verus!
