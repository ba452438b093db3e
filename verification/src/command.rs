//! The database inspection command: what it decides before it prints.

use vstd::prelude::*;

verus! {

/// The subcommands of the database command.
#[derive(Debug, Clone, Copy, PartialEq, Eq)]
pub enum Subcommands {
    /// Lists current and local database versions.
    Version,
    /// Returns the full database path.
    Path,
}

/// Why the version of a database could not be read.
#[derive(Debug, Clone, Copy, PartialEq, Eq)]
pub enum DatabaseVersionError {
    /// The database has no version file.
    MissingFile,
    /// The version file does not hold a version.
    MalformedFile,
    /// The version of the database is not the one the client supports.
    VersionMismatch {
        /// The version of the database.
        version: u64,
    },
    /// The version file could not be read.
    IORead,
}

/// The version of the local database, from what reading its version file
/// gave: the version if there is one, nothing if the database has no version
/// file and so is uninitialized, and the error of anything else.
pub fn local_db_version(read: Result<u64, DatabaseVersionError>) -> (r: Result<
    Option<u64>,
    DatabaseVersionError,
>)
    ensures
        r == match read {
            Ok(version) => Ok::<Option<u64>, DatabaseVersionError>(Some(version)),
            Err(DatabaseVersionError::MissingFile) => Ok(None),
            Err(err) => Err(err),
        },
{
    match read {
        Ok(version) => Ok(Some(version)),
        Err(DatabaseVersionError::MissingFile) => Ok(None),
        Err(err) => Err(err),
    }
}

} // verus!
