use vstd::prelude::*;

use crate::mode::ModeType;

verus! {

/// Errors raised by typed operations on a table.
#[derive(Clone, Debug, PartialEq, Eq)]
pub enum Error {
    /// A failure reported by the storage engine, with its message.
    Db(String),
    /// Stored key bytes that do not decode to a key of the table.
    InvalidKey(Vec<u8>),
    /// Stored value bytes that do not decode to a value of the table.
    InvalidValue(Vec<u8>),
    /// A partition name that is not among the partitions the database was opened with.
    InvalidCfName(String),
    /// A write or merge attempted on a handle whose mode does not allow it.
    NotWriteable(ModeType),
}

/// Errors raised while assembling the partitions of a database.
#[derive(Clone, Debug, PartialEq, Eq)]
pub enum TableConfigError {
    /// A table on the default partition can only be configured alone.
    ExpectedSingleTable,
    /// A configuration started from the default partition cannot take named partitions.
    ExpectedNamedTable,
    /// The partition name is already registered in the configuration.
    DuplicateCfName(String),
}

} // verus!
