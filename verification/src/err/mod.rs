//! Everything that can go wrong in the engine.

use crate::compaction::bucket::concat_text;
use crate::names::decimal_text;
use std::io;
use std::path::PathBuf;
use vstd::prelude::*;

verus! {

/// `std::io::Error`, carried as a value that is not looked into.
#[verifier::external_type_specification]
#[verifier::external_body]
pub struct ExIoError(io::Error);

/// `std::path::PathBuf`, carried as a value that is not looked into.
#[verifier::external_type_specification]
#[verifier::external_body]
pub struct ExPathBuf(PathBuf);

#[derive(Debug)]
#[non_exhaustive]
#[allow(inconsistent_fields)]
pub enum StorageEngineError {
    /// There was an error while opening a sorted table file
    SSTableFileOpenError { path: PathBuf, error: io::Error },
    /// There was an error while attempting to read from a sorted table file
    SSTableFileReadError { path: PathBuf, error: io::Error },
    /// There was an error while attempting to write to a sorted table file
    SSTableWriteError { error: io::Error },
    /// There was an error while attempting to flush a sorted table write to disk
    SSTableFlushError { error: io::Error },
    /// There was an error while attempting to open a bucket directory
    BucketDirectoryOpenError { path: PathBuf, error: io::Error },
    /// No bucket accepted the sorted table
    FailedToInsertSSTableToBucketError,
    /// There was an error while flushing a memtable to a sorted table
    FlushToDiskError { error: Box<StorageEngineError> },
    /// There was an error while attempting to create the value log directory
    VLogDirectoryCreationError { path: PathBuf, error: io::Error },
    /// There was an error while attempting to create the value log file
    VLogFileCreationError { path: PathBuf, error: io::Error },
    /// There was an error while attempting to write to the value log file
    VLogFileWriteError(String),
    /// There was an error while attempting to seek in a file
    FileSeekError(io::Error),
    /// There was an error inserting an entry into the memtable
    InsertToMemTableFailedError { key: String, value_offset: usize },
    /// There was an error while recovering memtables from the value log
    MemTableRecoveryError(Box<StorageEngineError>),
    /// File metadata could not be read
    GetFileMetaDataError(io::Error),
    /// A bucket directory does not carry a UUID
    InvaidUUIDParseString { input_string: String, error: uuid::Error },
    /// A sorted table directory does not hold a data and an index file
    InvalidSSTableDirectoryError { input_string: String },
    /// A sorted table does not carry a UUID
    InvaidSSTable { input_string: String, error: uuid::Error },
    /// Unexpected end of file while reading
    UnexpectedEOF(io::Error),
    /// Failure while trying to lock a file
    FileLockError(String),
    /// Compaction changed nothing
    CompactionFailed(String),
    /// Compaction wrote some of its outputs
    CompactionPartiallyFailed(String),
    /// No sorted table contains the key searched
    KeyNotFoundInAnySSTableError,
    /// The newest entry for the key in the sorted tables is a tombstone
    KeyFoundAsTombstoneInSSTableError,
    /// The newest entry for the key in the memtables is a tombstone
    KeyFoundAsTombstoneInMemtableError,
    /// The record for the key in the value log is a tombstone
    KeyFoundAsTombstoneInValueLogError,
    /// The memtable does not contain the key
    KeyNotFoundInMemTable,
    /// The key was found in a table but not in the value log
    KeyNotFoundInValueLogError,
    /// The key was not found, for the reason given
    KeyNotFound(Box<StorageEngineError>),
    /// The key is not in the store
    NotFoundInDB,
    /// There was an error while attempting to read from the value log file
    ValueLogFileReadError { error: io::Error },
    /// There was an error while attempting to open the value log directory
    ValueLogDirectoryOpenError { error: io::Error },
    /// A tombstone check failed during compaction
    TombStoneCheckFailed(String),
    /// The block is full
    BlockIsFullError,
    /// Error while writing to an index file
    IndexFileWriteError(io::Error),
    /// Error while reading from an index file
    IndexFileReadError(io::Error),
    /// Error while flushing an index file to disk
    IndexFileFlushError(io::Error),
    /// The memtable is empty and has no biggest key
    BiggestKeyIndexError,
    /// Every Bloom filter in range reports the key absent
    KeyNotFoundByAnyBloomFilterError,
    /// The sorted table could not be placed in a bucket
    FailedToInsertToBucket(String),
    /// The key lies in the range reserved for the engine's own entries
    ReservedKeyError,
}

/// `Path::display`: the path as text, for a message.
#[verifier::external_body]
pub(crate) fn path_text(path: &PathBuf) -> String {
    path.display().to_string()
}

/// `Display` of `std::io::Error`: the error as text, for a message.
#[verifier::external_body]
pub(crate) fn io_error_text(error: &io::Error) -> String {
    error.to_string()
}

/// `Display` of `uuid::Error`: the error as text, for a message.
#[verifier::external_body]
pub(crate) fn uuid_error_text(error: &uuid::Error) -> String {
    error.to_string()
}

/// `first`, then `path` between backquotes, then a colon and `error`.
fn with_path_and_error(first: &str, path: &str, error: &str) -> (r: String)
    ensures
        r@ == first@ + "`"@ + path@ + "`: "@ + error@,
{
    let a = concat_text(first, "`");
    let b = concat_text(a.as_str(), path);
    let c = concat_text(b.as_str(), "`: ");
    concat_text(c.as_str(), error)
}

impl StorageEngineError {
    /// Whether the error is the outcome of a lookup that found no live value,
    /// rather than a failure.
    pub open spec fn is_lookup_outcome(&self) -> bool {
        ||| self is KeyNotFoundInAnySSTableError
        ||| self is KeyNotFoundByAnyBloomFilterError
        ||| self is KeyFoundAsTombstoneInMemtableError
        ||| self is KeyFoundAsTombstoneInSSTableError
        ||| self is KeyFoundAsTombstoneInValueLogError
        ||| self is KeyNotFoundInValueLogError
        ||| self is NotFoundInDB
    }

    /// The error for a caller that does not tell lookup outcomes apart: every
    /// lookup outcome becomes `NotFoundInDB`, every other error stays.
    pub fn collapse(self) -> (r: Self)
        ensures
            self.is_lookup_outcome() ==> r is NotFoundInDB,
            !self.is_lookup_outcome() ==> r == self,
    {
        match self {
            StorageEngineError::KeyNotFoundInAnySSTableError => StorageEngineError::NotFoundInDB,
            StorageEngineError::KeyNotFoundByAnyBloomFilterError => StorageEngineError::NotFoundInDB,
            StorageEngineError::KeyFoundAsTombstoneInMemtableError => {
                StorageEngineError::NotFoundInDB
            },
            StorageEngineError::KeyFoundAsTombstoneInSSTableError => {
                StorageEngineError::NotFoundInDB
            },
            StorageEngineError::KeyFoundAsTombstoneInValueLogError => {
                StorageEngineError::NotFoundInDB
            },
            StorageEngineError::KeyNotFoundInValueLogError => StorageEngineError::NotFoundInDB,
            other => other,
        }
    }

    /// The error in words.
    pub fn message(&self) -> (r: String)
        ensures
            self is KeyNotFoundInAnySSTableError ==> r@ == "No SS Tables contains the searched key"@,
            self is KeyFoundAsTombstoneInSSTableError ==> r@ == "Key found as tombstone in sstable"@,
            self is KeyFoundAsTombstoneInMemtableError ==> r@
                == "Key found as tombstone in memtable"@,
            self is KeyFoundAsTombstoneInValueLogError ==> r@
                == "Key found as tombstone in value log"@,
            self is KeyNotFoundInMemTable ==> r@ == "Memtable does not contains the searched key"@,
            self is KeyNotFoundInValueLogError ==> r@ == "Key does not exist in value log"@,
            self is NotFoundInDB ==> r@ == "Key not found "@,
            self is BiggestKeyIndexError ==> r@
                == "Error finding biggest key in memtable (None was returned)"@,
            self is KeyNotFoundByAnyBloomFilterError ==> r@
                == "All bloom filters return false for all sstables"@,
            self is BlockIsFullError ==> r@ == "Block is full"@,
            self is ReservedKeyError ==> r@ == "Key is reserved for the engine"@,
            self is FailedToInsertSSTableToBucketError ==> r@
                == "Failed to insert sstable to bucket because no insertion condition was met"@,
            self matches StorageEngineError::CompactionFailed(reason) ==> r@
                == "Compaction failed reason : "@ + reason@,
            self matches StorageEngineError::CompactionPartiallyFailed(reason) ==> r@
                == "Compaction partially failed failed reason : "@ + reason@,
            self matches StorageEngineError::FailedToInsertToBucket(reason) ==> r@
                == "Failed to insert to a bucket, reason `"@ + reason@ + "`"@,
            self matches StorageEngineError::TombStoneCheckFailed(reason) ==> r@
                == "Tombstone check failed "@ + reason@,
            self matches StorageEngineError::InvalidSSTableDirectoryError { input_string } ==> r@
                == "Invalid sstable directory error `"@ + input_string@ + "`"@,
    {
        match self {
            StorageEngineError::SSTableFileOpenError { .. } => "Failed to open file".to_owned(),
            StorageEngineError::SSTableFileReadError { path, error } => with_path_and_error(
                "Failed to read sstsable file ",
                path_text(path).as_str(),
                io_error_text(error).as_str(),
            ),
            StorageEngineError::SSTableWriteError { error } => concat_text(
                "Failed to write to sstsable file  ",
                io_error_text(error).as_str(),
            ),
            StorageEngineError::SSTableFlushError { error } => concat_text(
                "Failed to flush write to disk for sstable : ",
                io_error_text(error).as_str(),
            ),
            StorageEngineError::BucketDirectoryOpenError { path, error } => with_path_and_error(
                "Failed to open bucket directory ",
                path_text(path).as_str(),
                io_error_text(error).as_str(),
            ),
            StorageEngineError::FailedToInsertSSTableToBucketError => {
                "Failed to insert sstable to bucket because no insertion condition was met".to_owned()
            },
            StorageEngineError::FlushToDiskError { .. } => {
                "Error occured while flushing to disk".to_owned()
            },
            StorageEngineError::VLogDirectoryCreationError { path, error } => with_path_and_error(
                "Failed to create v_log directory ",
                path_text(path).as_str(),
                io_error_text(error).as_str(),
            ),
            StorageEngineError::VLogFileCreationError { path, error } => with_path_and_error(
                "Failed to create v_log.bin file ",
                path_text(path).as_str(),
                io_error_text(error).as_str(),
            ),
            StorageEngineError::VLogFileWriteError(_) => {
                "Failed to write to value log file".to_owned()
            },
            StorageEngineError::FileSeekError(_) => "File seek error".to_owned(),
            StorageEngineError::InsertToMemTableFailedError { key, value_offset } => {
                let a = concat_text(
                    "Error occured while inserting entry to memtable value  Key: `",
                    key.as_str(),
                );
                let b = concat_text(a.as_str(), "` Value: `");
                let c = concat_text(b.as_str(), decimal_text(*value_offset as u64).as_str());
                concat_text(c.as_str(), "`")
            },
            StorageEngineError::MemTableRecoveryError(_) => {
                "Error while recovering memtable from disk".to_owned()
            },
            StorageEngineError::GetFileMetaDataError(_) => "Failed to get file metadata".to_owned(),
            StorageEngineError::InvaidUUIDParseString { input_string, error } => with_path_and_error(
                "Invalid string provided to be parsed to UUID input ",
                input_string.as_str(),
                uuid_error_text(error).as_str(),
            ),
            StorageEngineError::InvalidSSTableDirectoryError { input_string } => {
                let a = concat_text("Invalid sstable directory error `", input_string.as_str());
                concat_text(a.as_str(), "`")
            },
            StorageEngineError::InvaidSSTable { input_string, error } => with_path_and_error(
                "Invalid string provided to be parsed to UUID input ",
                input_string.as_str(),
                uuid_error_text(error).as_str(),
            ),
            StorageEngineError::UnexpectedEOF(_) => "File read ended unexpectedly".to_owned(),
            StorageEngineError::FileLockError(_) => "File lock unsuccessful".to_owned(),
            StorageEngineError::CompactionFailed(reason) => concat_text(
                "Compaction failed reason : ",
                reason.as_str(),
            ),
            StorageEngineError::CompactionPartiallyFailed(reason) => concat_text(
                "Compaction partially failed failed reason : ",
                reason.as_str(),
            ),
            StorageEngineError::KeyNotFoundInAnySSTableError => {
                "No SS Tables contains the searched key".to_owned()
            },
            StorageEngineError::KeyFoundAsTombstoneInSSTableError => {
                "Key found as tombstone in sstable".to_owned()
            },
            StorageEngineError::KeyFoundAsTombstoneInMemtableError => {
                "Key found as tombstone in memtable".to_owned()
            },
            StorageEngineError::KeyFoundAsTombstoneInValueLogError => {
                "Key found as tombstone in value log".to_owned()
            },
            StorageEngineError::KeyNotFoundInMemTable => {
                "Memtable does not contains the searched key".to_owned()
            },
            StorageEngineError::KeyNotFoundInValueLogError => {
                "Key does not exist in value log".to_owned()
            },
            StorageEngineError::KeyNotFound(_) => "Key not found, reason: ".to_owned(),
            StorageEngineError::NotFoundInDB => "Key not found ".to_owned(),
            StorageEngineError::ValueLogFileReadError { error } => concat_text(
                "Failed to read value log file : ",
                io_error_text(error).as_str(),
            ),
            StorageEngineError::ValueLogDirectoryOpenError { error } => {
                let a = concat_text(
                    "Failed to open value log directory `",
                    io_error_text(error).as_str(),
                );
                concat_text(a.as_str(), "`")
            },
            StorageEngineError::TombStoneCheckFailed(reason) => concat_text(
                "Tombstone check failed ",
                reason.as_str(),
            ),
            StorageEngineError::BlockIsFullError => "Block is full".to_owned(),
            StorageEngineError::IndexFileWriteError(_) => "Index file write error".to_owned(),
            StorageEngineError::IndexFileReadError(_) => "Index file read error".to_owned(),
            StorageEngineError::IndexFileFlushError(_) => "Index file flush error".to_owned(),
            StorageEngineError::BiggestKeyIndexError => {
                "Error finding biggest key in memtable (None was returned)".to_owned()
            },
            StorageEngineError::KeyNotFoundByAnyBloomFilterError => {
                "All bloom filters return false for all sstables".to_owned()
            },
            StorageEngineError::FailedToInsertToBucket(reason) => {
                let a = concat_text("Failed to insert to a bucket, reason `", reason.as_str());
                concat_text(a.as_str(), "`")
            },
            StorageEngineError::ReservedKeyError => "Key is reserved for the engine".to_owned(),
        }
    }
}

} // verus!
