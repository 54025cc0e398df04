//! What the index stores per key, and the errors it reports.

use vstd::prelude::*;

verus! {

/// Deletion state of a key: 0 live, 1 being written or soft-deleted,
/// 2 hard-deleted. Other values are kept as they are read.
#[derive(Debug, Clone, Copy, PartialEq, Eq, Structural)]
pub struct Deleted(pub i32);

impl Deleted {
    /// A live key.
    #[verifier::allow_in_spec]
    pub fn no() -> Deleted
        returns
            Deleted(0),
    {
        Deleted(0)
    }

    /// A key whose replicas are being written, or that was soft-deleted.
    #[verifier::allow_in_spec]
    pub fn soft() -> Deleted
        returns
            Deleted(1),
    {
        Deleted(1)
    }

    /// A hard-deleted key.
    #[verifier::allow_in_spec]
    pub fn hard() -> Deleted
        returns
            Deleted(2),
    {
        Deleted(2)
    }
}

/// The index entry of a key: the volumes that hold its replicas, its
/// deletion state, and a content hash (left empty by the writer).
#[derive(Debug)]
pub struct Record {
    pub replica_volumes: Vec<String>,
    pub deleted: Deleted,
    pub content_hash: String,
}

impl Record {
    /// The key reads as absent: soft- or hard-deleted.
    pub open spec fn hidden(&self) -> bool {
        self.deleted == Deleted::soft() || self.deleted == Deleted::hard()
    }

    /// Decides `hidden`.
    pub fn is_hidden(&self) -> (hidden: bool)
        ensures
            hidden == self.hidden(),
    {
        self.deleted == Deleted::soft() || self.deleted == Deleted::hard()
    }

    /// The key is live: a new value may not be written over it.
    pub open spec fn live(&self) -> bool {
        self.deleted == Deleted::no()
    }

    /// Decides `live`.
    pub fn is_live(&self) -> (live: bool)
        ensures
            live == self.live(),
    {
        self.deleted == Deleted::no()
    }
}

/// Errors of the index. Errors that come from the database, the JSON
/// codec, the HTTP client or the web framework carry their message.
#[derive(Debug)]
pub enum SysError {
    Transaction(String),
    Table(String),
    Storage(String),
    Commit(String),
    Json(String),
    Reqwest(String),
    Axum(String),
    NotFound,
    RecordNotFound,
    Internal,
}

/// The text describing an error.
pub open spec fn error_text(err: SysError) -> Seq<char> {
    match err {
        SysError::Transaction(m) => "transaction error: "@ + m@,
        SysError::Table(m) => "table error: "@ + m@,
        SysError::Storage(m) => "storage error: "@ + m@,
        SysError::Commit(m) => "commit error: "@ + m@,
        SysError::Json(m) => "JSON error: "@ + m@,
        SysError::Reqwest(m) => "HTTP error: "@ + m@,
        SysError::Axum(m) => "Axum error: "@ + m@,
        SysError::NotFound => "not found"@,
        SysError::RecordNotFound => "record not found"@,
        SysError::Internal => "internal server error"@,
    }
}

/// Prefixes `message` with `prefix`.
fn prefixed(prefix: &str, message: &String) -> (text: String)
    ensures
        text@ == prefix@ + message@,
{
    let mut text = String::from_str(prefix);
    text.append(message.as_str());
    text
}

impl SysError {
    /// The text describing this error.
    pub fn describe(&self) -> (text: String)
        ensures
            text@ == error_text(*self),
    {
        match self {
            SysError::Transaction(m) => prefixed("transaction error: ", m),
            SysError::Table(m) => prefixed("table error: ", m),
            SysError::Storage(m) => prefixed("storage error: ", m),
            SysError::Commit(m) => prefixed("commit error: ", m),
            SysError::Json(m) => prefixed("JSON error: ", m),
            SysError::Reqwest(m) => prefixed("HTTP error: ", m),
            SysError::Axum(m) => prefixed("Axum error: ", m),
            SysError::NotFound => String::from_str("not found"),
            SysError::RecordNotFound => String::from_str("record not found"),
            SysError::Internal => String::from_str("internal server error"),
        }
    }
}

} // verus!
