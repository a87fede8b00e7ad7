//! Errors reported by the library and by the storage around it.

use vstd::prelude::*;

verus! {

/// Failures of the driver database and of the actions built on it.
#[derive(Clone, Debug)]
pub enum Error {
    /// The database file could not be opened or created.
    StorageUnavailable { message: String },
    /// An expected bucket or record is missing or unreadable.
    StorageCorrupt { message: String },
    /// A write transaction could not commit.
    CommitFailed { message: String },
    /// A catalog record breaks a rule of the catalog.
    InvalidCatalogRecord { message: String },
    /// A name matches no variant of an enumeration.
    EnumValue { value: String, enum_name: String, allowed_values: Vec<String> },
    /// A package is known to no package database.
    PackageNotFound { name: String },
    /// No driver option applies, so there is nothing to install.
    NothingToInstall,
}

} // verus!
