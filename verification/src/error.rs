//! Errors returned by the library.
use vstd::prelude::*;

verus! {

/// Everything that can go wrong inside the library.
#[derive(Debug)]
pub enum Error {
    DatabaseNotOpen,
    Invalid,
    InvalidMapping,
    VersionMismatch,
    Checksum,
    Timeout,
    TxNotWritable,
    TxClosed,
    DatabaseReadOnly,
    FreePagesNotLoaded,
    BucketNotFound,
    BucketExists,
    BucketNameRequired,
    KeyRequired,
    KeyTooLarge,
    ValueTooLarge,
    MaxSizeReached,
    IncompatibleValue,
    SameBuckets,
    DifferentDb,
    ManagedTx,
    /// A file operation failed; the text names the file and the cause.
    Io(String),
    /// The database holds something that the format does not allow.
    Corrupt(String),
}

/// The result of a library operation.
pub type Result<T> = core::result::Result<T, Error>;

/// The text of an error.
pub open spec fn error_text(e: Error) -> Seq<char> {
    match e {
        Error::DatabaseNotOpen => "database not open"@,
        Error::Invalid => "invalid database"@,
        Error::InvalidMapping => "database isn't correctly mapped"@,
        Error::VersionMismatch => "version mismatch"@,
        Error::Checksum => "checksum error"@,
        Error::Timeout => "timeout"@,
        Error::TxNotWritable => "tx not writable"@,
        Error::TxClosed => "tx closed"@,
        Error::DatabaseReadOnly => "database is in read-only mode"@,
        Error::FreePagesNotLoaded => "free pages are not pre-loaded"@,
        Error::BucketNotFound => "bucket not found"@,
        Error::BucketExists => "bucket already exists"@,
        Error::BucketNameRequired => "bucket name required"@,
        Error::KeyRequired => "key required"@,
        Error::KeyTooLarge => "key too large"@,
        Error::ValueTooLarge => "value too large"@,
        Error::MaxSizeReached => "database reached maximum size"@,
        Error::IncompatibleValue => "incompatible value"@,
        Error::SameBuckets => "the source and target are the same bucket"@,
        Error::DifferentDb => "the source and target buckets are in different database files"@,
        Error::ManagedTx => "managed transaction commit/rollback is not allowed"@,
        Error::Io(text) => text@,
        Error::Corrupt(text) => text@,
    }
}

impl Error {
    /// The message shown to a user.
    pub fn message(&self) -> (text: String)
        ensures
            text@ == error_text(*self),
    {
        match self {
            Error::DatabaseNotOpen => "database not open".to_string(),
            Error::Invalid => "invalid database".to_string(),
            Error::InvalidMapping => "database isn't correctly mapped".to_string(),
            Error::VersionMismatch => "version mismatch".to_string(),
            Error::Checksum => "checksum error".to_string(),
            Error::Timeout => "timeout".to_string(),
            Error::TxNotWritable => "tx not writable".to_string(),
            Error::TxClosed => "tx closed".to_string(),
            Error::DatabaseReadOnly => "database is in read-only mode".to_string(),
            Error::FreePagesNotLoaded => "free pages are not pre-loaded".to_string(),
            Error::BucketNotFound => "bucket not found".to_string(),
            Error::BucketExists => "bucket already exists".to_string(),
            Error::BucketNameRequired => "bucket name required".to_string(),
            Error::KeyRequired => "key required".to_string(),
            Error::KeyTooLarge => "key too large".to_string(),
            Error::ValueTooLarge => "value too large".to_string(),
            Error::MaxSizeReached => "database reached maximum size".to_string(),
            Error::IncompatibleValue => "incompatible value".to_string(),
            Error::SameBuckets => "the source and target are the same bucket".to_string(),
            Error::DifferentDb => "the source and target buckets are in different database files".to_string(),
            Error::ManagedTx => "managed transaction commit/rollback is not allowed".to_string(),
            Error::Io(text) => text.clone(),
            Error::Corrupt(text) => text.clone(),
        }
    }
}

/// What tells the text of an error from all others: how long it is, and two letters of it.
spec fn mark(e: Error) -> (int, char, char) {
    match e {
        Error::DatabaseNotOpen => (17, 'd', 'n'),
        Error::Invalid => (16, 'i', 'a'),
        Error::InvalidMapping => (31, 'd', 'i'),
        Error::VersionMismatch => (16, 'v', 'i'),
        Error::Checksum => (14, 'c', 'e'),
        Error::Timeout => (7, 't', ' '),
        Error::TxNotWritable => (15, 't', 'i'),
        Error::TxClosed => (9, 't', ' '),
        Error::DatabaseReadOnly => (29, 'd', 'i'),
        Error::FreePagesNotLoaded => (29, 'f', 's'),
        Error::BucketNotFound => (16, 'b', 't'),
        Error::BucketExists => (21, 'b', 'r'),
        Error::BucketNameRequired => (20, 'b', 'm'),
        Error::KeyRequired => (12, 'k', 'r'),
        Error::KeyTooLarge => (13, 'k', 'a'),
        Error::ValueTooLarge => (15, 'v', ' '),
        Error::MaxSizeReached => (29, 'd', 'r'),
        Error::IncompatibleValue => (18, 'i', 'b'),
        Error::SameBuckets => (41, 't', 'e'),
        Error::DifferentDb => (61, 't', 'e'),
        Error::ManagedTx => (50, 'm', 'r'),
        _ => (0, ' ', ' '),
    }
}

proof fn lemma_mark(e: Error)
    requires
        !(e is Io) && !(e is Corrupt),
    ensures
        ({
            let t = error_text(e);
            mark(e) == (t.len() as int, t[0], if t.len() > 9 { t[9] } else { ' ' })
        }),
{
    reveal_strlit("database not open");
    reveal_strlit("invalid database");
    reveal_strlit("database isn't correctly mapped");
    reveal_strlit("version mismatch");
    reveal_strlit("checksum error");
    reveal_strlit("timeout");
    reveal_strlit("tx not writable");
    reveal_strlit("tx closed");
    reveal_strlit("database is in read-only mode");
    reveal_strlit("free pages are not pre-loaded");
    reveal_strlit("bucket not found");
    reveal_strlit("bucket already exists");
    reveal_strlit("bucket name required");
    reveal_strlit("key required");
    reveal_strlit("key too large");
    reveal_strlit("value too large");
    reveal_strlit("database reached maximum size");
    reveal_strlit("incompatible value");
    reveal_strlit("the source and target are the same bucket");
    reveal_strlit("the source and target buckets are in different database files");
    reveal_strlit("managed transaction commit/rollback is not allowed");
}

/// No two errors have the same text, but for those whose text says more.
pub proof fn lemma_texts_differ(a: Error, b: Error)
    requires
        !(a is Io) && !(a is Corrupt),
        !(b is Io) && !(b is Corrupt),
        error_text(a) == error_text(b),
    ensures
        a == b,
{
    lemma_mark(a);
    lemma_mark(b);
}

} // verus!
