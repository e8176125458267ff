use vstd::prelude::*;

use crate::error::TableConfigError;
use crate::table::Table;
use core::marker::PhantomData;

verus! {

/// The characters of an optional string.
pub open spec fn opt_str(s: Option<String>) -> Option<Seq<char>> {
    match s {
        Some(t) => Some(t@),
        None => None,
    }
}

/// Tuning options of one partition, or of the default partition.
#[derive(Clone, Debug, PartialEq, Eq)]
pub struct PartitionOptions {
    /// Length of the fixed key prefix that the prefix extractor takes; `None` sets no
    /// extractor.
    pub prefix_len: Option<usize>,
    /// Name of the associative merge operator; `None` registers none.
    pub merge_operator: Option<String>,
}

/// The options are those that table `T` asks for: its prefix length, where it has one, and
/// its merge operator.
pub open spec fn options_for<T: Table>(o: PartitionOptions) -> bool {
    &&& o.prefix_len == if T::spec_prefix_len() > 0 {
        Some(T::spec_prefix_len() as usize)
    } else {
        None::<usize>
    }
    &&& opt_str(o.merge_operator) == T::spec_merge_name()
}

/// The options set nothing.
pub open spec fn plain_options(o: PartitionOptions) -> bool {
    o.prefix_len is None && o.merge_operator is None
}

impl PartitionOptions {
    /// Options that set nothing.
    pub fn plain() -> (r: Self)
        ensures
            plain_options(r),
    {
        PartitionOptions { prefix_len: None, merge_operator: None }
    }

    /// The options that table `T` asks for.
    pub fn for_table<T: Table>() -> (r: Self)
        ensures
            options_for::<T>(r),
    {
        let n = T::prefix_len();
        PartitionOptions {
            prefix_len: if n > 0 {
                Some(n)
            } else {
                None
            },
            merge_operator: T::merge_name(),
        }
    }
}

/// A named partition and its options, to be opened or created with the database.
#[derive(Clone, Debug, PartialEq, Eq)]
pub struct PartitionDescriptor {
    pub name: String,
    pub options: PartitionOptions,
}

/// The descriptor is that of a partition `name` holding table `T`.
pub open spec fn descriptor_for<T: Table>(d: PartitionDescriptor, name: Seq<char>) -> bool {
    d.name@ == name && options_for::<T>(d.options)
}

/// A table `T` bound to a partition: a named one, or the default partition.
pub struct NamedTable<T> {
    name: Option<String>,
    _table: PhantomData<T>,
}

impl<T> NamedTable<T> {
    /// The name of the partition; `None` for the default partition.
    pub closed spec fn spec_name(&self) -> Option<Seq<char>> {
        opt_str(self.name)
    }

    /// The table on the default partition.
    pub fn new() -> (r: Self)
        ensures
            r.spec_name() is None,
    {
        NamedTable { name: None, _table: PhantomData }
    }

    /// The table on the partition called `name`.
    pub fn new_cf(name: &str) -> (r: Self)
        ensures
            r.spec_name() == Some(name@),
    {
        NamedTable { name: Some(name.to_owned()), _table: PhantomData }
    }

    pub fn name(&self) -> (r: Option<&str>)
        ensures
            match r {
                Some(s) => self.spec_name() == Some(s@),
                None => self.spec_name() is None,
            },
    {
        match &self.name {
            Some(n) => Some(n.as_str()),
            None => None,
        }
    }
}

impl<T: Table> NamedTable<T> {
    /// The descriptor of the table's partition, where it is a named one.
    pub fn cf_descriptor(&self) -> (r: Option<PartitionDescriptor>)
        ensures
            match self.spec_name() {
                Some(n) => r is Some && descriptor_for::<T>(r->Some_0, n),
                None => r is None,
            },
    {
        match &self.name {
            Some(n) => Some(
                PartitionDescriptor { name: n.clone(), options: PartitionOptions::for_table::<T>() },
            ),
            None => None,
        }
    }
}

/// The partitions to open a database with: either named partitions only, or the default
/// partition alone with the options of its one table.
pub enum TableConfig {
    WithCfs { cf_descriptors: Vec<PartitionDescriptor> },
    WithoutCfs { options: PartitionOptions },
}

/// The names of the partitions that descriptors stand for.
pub open spec fn descriptor_names(ds: Seq<PartitionDescriptor>) -> Seq<Seq<char>> {
    ds.map_values(|d: PartitionDescriptor| d.name@)
}

/// What a database is opened with: options of the default partition, the named partitions,
/// and whether missing ones are created.
pub struct OpenSettings {
    pub base: PartitionOptions,
    pub cf_descriptors: Vec<PartitionDescriptor>,
    pub create_if_missing: bool,
    pub create_missing_column_families: bool,
}

impl TableConfig {
    /// The names of the configured partitions.
    pub open spec fn spec_names(&self) -> Seq<Seq<char>> {
        match self {
            TableConfig::WithCfs { cf_descriptors } => descriptor_names(cf_descriptors@),
            TableConfig::WithoutCfs { .. } => Seq::empty(),
        }
    }

    /// A configuration holding one table.
    pub fn new<T: Table>(table: &NamedTable<T>) -> (r: Self)
        ensures
            match table.spec_name() {
                Some(n) => r matches TableConfig::WithCfs { cf_descriptors } && cf_descriptors@.len()
                    == 1 && descriptor_for::<T>(cf_descriptors@[0], n),
                None => r matches TableConfig::WithoutCfs { options } && options_for::<T>(options),
            },
    {
        match table.cf_descriptor() {
            Some(d) => {
                let mut cf_descriptors = Vec::new();
                cf_descriptors.push(d);
                TableConfig::WithCfs { cf_descriptors }
            },
            None => TableConfig::WithoutCfs { options: PartitionOptions::for_table::<T>() },
        }
    }

    /// Adds a table on a further named partition.
    ///
    /// Refused for a table on the default partition, for a configuration of the default
    /// partition, and for a partition name that is already configured.
    pub fn with<T: Table>(self, table: &NamedTable<T>) -> (r: Result<Self, TableConfigError>)
        ensures
            match table.spec_name() {
                None => r == Err::<Self, TableConfigError>(TableConfigError::ExpectedSingleTable),
                Some(n) => match self {
                    TableConfig::WithoutCfs { .. } => r == Err::<Self, TableConfigError>(
                        TableConfigError::ExpectedNamedTable,
                    ),
                    TableConfig::WithCfs { cf_descriptors: ds } => if self.spec_names().contains(n) {
                        r matches Err(TableConfigError::DuplicateCfName(m)) && m@ == n
                    } else {
                        r matches Ok(TableConfig::WithCfs { cf_descriptors: ds2 }) && ds2@.len()
                            == ds@.len() + 1 && ds2@.subrange(0, ds@.len() as int) == ds@
                            && descriptor_for::<T>(ds2@.last(), n)
                    },
                },
            },
    {
        match table.cf_descriptor() {
            None => Err(TableConfigError::ExpectedSingleTable),
            Some(d) => match self {
                TableConfig::WithoutCfs { .. } => Err(TableConfigError::ExpectedNamedTable),
                TableConfig::WithCfs { mut cf_descriptors } => {
                    let ghost ds = cf_descriptors@;
                    let ghost ds_vec = cf_descriptors;
                    let mut i: usize = 0;
                    while i < cf_descriptors.len()
                        invariant
                            cf_descriptors@ == ds,
                            table.spec_name() == Some(d.name@),
                            descriptor_for::<T>(d, d.name@),
                            self == (TableConfig::WithCfs { cf_descriptors: ds_vec }),
                            ds_vec@ == ds,
                            i <= ds.len(),
                            forall|j: int| 0 <= j < i ==> ds[j].name@ != d.name@,
                        decreases ds.len() - i,
                    {
                        if cf_descriptors[i].name == d.name {
                            proof {
                                assert(descriptor_names(ds)[i as int] == d.name@);
                                assert(self.spec_names() == descriptor_names(ds));
                                assert(self.spec_names().contains(d.name@));
                            }
                            return Err(TableConfigError::DuplicateCfName(d.name));
                        }
                        i = i + 1;
                    }
                    proof {
                        assert(!descriptor_names(ds).contains(d.name@));
                    }
                    cf_descriptors.push(d);
                    proof {
                        assert(cf_descriptors@.subrange(0, ds.len() as int) =~= ds);
                    }
                    Ok(TableConfig::WithCfs { cf_descriptors })
                },
            },
        }
    }

    /// What to open the database with. A configuration of named partitions leaves the
    /// default partition plain and creates missing partitions; one of the default partition
    /// takes its table's options.
    pub fn open_settings(self) -> (r: OpenSettings)
        ensures
            r.create_if_missing,
            r.create_missing_column_families == (r.cf_descriptors@.len() > 0),
            match self {
                TableConfig::WithCfs { cf_descriptors } => r.cf_descriptors == cf_descriptors
                    && plain_options(r.base),
                TableConfig::WithoutCfs { options } => r.cf_descriptors@.len() == 0 && r.base
                    == options,
            },
    {
        let (base, cf_descriptors) = self.parts();
        let create_missing_column_families = cf_descriptors.len() > 0;
        OpenSettings { base, cf_descriptors, create_if_missing: true, create_missing_column_families }
    }

    fn parts(self) -> (r: (PartitionOptions, Vec<PartitionDescriptor>))
        ensures
            match self {
                TableConfig::WithCfs { cf_descriptors } => r.1 == cf_descriptors && plain_options(
                    r.0,
                ),
                TableConfig::WithoutCfs { options } => r.1@.len() == 0 && r.0 == options,
            },
    {
        match self {
            TableConfig::WithCfs { cf_descriptors } => (PartitionOptions::plain(), cf_descriptors),
            TableConfig::WithoutCfs { options } => (options, Vec::new()),
        }
    }
}

} // verus!
