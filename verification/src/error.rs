//! Errors of the database layer.

use vstd::prelude::*;

verus! {

/// What went wrong, in words, with a numeric code.
#[derive(Debug, Clone, PartialEq, Eq)]
pub struct DatabaseErrorInfo {
    /// Human-readable message.
    pub message: String,
    /// Error code.
    pub code: i32,
}

/// The write operation that failed.
#[derive(Debug, Clone, Copy, PartialEq, Eq)]
pub enum DatabaseWriteOperation {
    /// Append through a cursor.
    CursorAppend,
    /// Upsert through a cursor.
    CursorUpsert,
    /// Insert through a cursor.
    CursorInsert,
    /// Append a duplicate through a cursor.
    CursorAppendDup,
    /// Put through the transaction.
    Put,
    /// Delete through the transaction.
    Delete,
    /// Clear through the transaction.
    Clear,
}

/// The read or the use of a cursor that failed.
#[derive(Debug, Clone, Copy, PartialEq, Eq)]
pub enum DatabaseReadOperation {
    /// Get through the transaction.
    Get,
    /// Count of the entries of a table.
    Entries,
    /// Opening a cursor.
    CursorOpen,
    /// Search for a key through a cursor or at the start of a walk.
    Seek,
    /// Search for a key and subkey through a cursor.
    SeekBySubkey,
    /// Start of a walk through the values of a key.
    WalkDup,
    /// Delete at the position of a cursor.
    DeleteCurrent,
}

/// A failed read: what failed, on which table and at which key.
#[derive(Debug, Clone, PartialEq, Eq)]
pub struct DatabaseReadError {
    /// What went wrong.
    pub info: DatabaseErrorInfo,
    /// The operation that failed.
    pub operation: DatabaseReadOperation,
    /// Name of the table; empty if the table is not known.
    pub table_name: String,
    /// The encoded key of the read; empty if the operation has none.
    pub key: Vec<u8>,
}

/// A failed write: what failed, on which table and at which key.
#[derive(Debug, Clone, PartialEq, Eq)]
pub struct DatabaseWriteError {
    /// What went wrong.
    pub info: DatabaseErrorInfo,
    /// The operation that failed.
    pub operation: DatabaseWriteOperation,
    /// Name of the table; empty if the table is not known.
    pub table_name: String,
    /// The encoded key of the write; empty if the operation has none.
    pub key: Vec<u8>,
}

/// Database error.
#[derive(Debug, Clone, PartialEq, Eq)]
pub enum DatabaseError {
    /// A table could not be created.
    CreateTable(DatabaseErrorInfo),
    /// A write failed.
    Write(DatabaseWriteError),
    /// A read, or the use of a cursor, failed.
    Read(DatabaseReadError),
    /// The store failed to delete.
    Delete(DatabaseErrorInfo),
    /// A commit failed.
    Commit(DatabaseErrorInfo),
    /// Stored bytes could not be decoded.
    Decode,
}

impl DatabaseError {
    /// A read error of this operation, table and key, with this message.
    pub open spec fn is_read(
        self,
        operation: DatabaseReadOperation,
        message: Seq<char>,
        table_name: Seq<char>,
        key: Seq<u8>,
    ) -> bool {
        self matches DatabaseError::Read(e) && e.info.message@ == message && e.info.code == 1
            && e.operation == operation && e.table_name@ == table_name && e.key@ == key
    }

    /// A table creation error with this message.
    pub open spec fn is_create_table(self, message: Seq<char>) -> bool {
        self matches DatabaseError::CreateTable(info) && info.message@ == message && info.code
            == 1
    }

    /// A write error of this operation, table and key, with this message.
    pub open spec fn is_write(
        self,
        operation: DatabaseWriteOperation,
        message: Seq<char>,
        table_name: Seq<char>,
        key: Seq<u8>,
    ) -> bool {
        self matches DatabaseError::Write(e) && e.info.message@ == message && e.info.code == 1
            && e.operation == operation && e.table_name@ == table_name && e.key@ == key
    }
}

/// `r` is a read error of this operation, table and key, with this message.
pub open spec fn read_refused<T>(
    r: Result<T, DatabaseError>,
    operation: DatabaseReadOperation,
    message: Seq<char>,
    table_name: Seq<char>,
    key: Seq<u8>,
) -> bool {
    r matches Err(e) && e.is_read(operation, message, table_name, key)
}

/// `r` is a write error of this operation, table and key, with this message.
pub open spec fn write_refused<T>(
    r: Result<T, DatabaseError>,
    operation: DatabaseWriteOperation,
    message: Seq<char>,
    table_name: Seq<char>,
    key: Seq<u8>,
) -> bool {
    r matches Err(e) && e.is_write(operation, message, table_name, key)
}

/// A read error with the given message.
pub fn read_error(
    operation: DatabaseReadOperation,
    message: &str,
    table_name: &str,
    key: Vec<u8>,
) -> (r: DatabaseError)
    ensures
        r.is_read(operation, message@, table_name@, key@),
{
    DatabaseError::Read(
        DatabaseReadError {
            info: DatabaseErrorInfo { message: message.to_owned(), code: 1 },
            operation,
            table_name: table_name.to_owned(),
            key,
        },
    )
}

/// A table creation error with the given message.
pub fn create_table_error(message: &str) -> (r: DatabaseError)
    ensures
        r.is_create_table(message@),
{
    DatabaseError::CreateTable(DatabaseErrorInfo { message: message.to_owned(), code: 1 })
}

/// A write error with the given message.
pub fn write_error(
    operation: DatabaseWriteOperation,
    message: &str,
    table_name: &str,
    key: Vec<u8>,
) -> (r: DatabaseError)
    ensures
        r.is_write(operation, message@, table_name@, key@),
{
    DatabaseError::Write(
        DatabaseWriteError {
            info: DatabaseErrorInfo { message: message.to_owned(), code: 1 },
            operation,
            table_name: table_name.to_owned(),
            key,
        },
    )
}

} // verus!
