//! The answers the index gives: status code, headers and JSON body of each.

use crate::record::SysError;
use vstd::prelude::*;

verus! {

/// An answer to a request.
#[derive(Debug)]
pub enum Reply {
    /// The blob was found on a replica: redirect there.
    Found { location: String, key_volumes: String },
    /// GET of a key that has no live record or no reachable replica.
    NoSuchRecord,
    /// PUT with a zero Content-Length.
    LengthRequired,
    /// PUT over a live key.
    ExistingKey,
    /// PUT stored the key.
    Created,
    /// DELETE of a key that is already deleted.
    AlreadyDeleted,
    /// DELETE removed the key.
    Removed,
    /// Another PUT or DELETE holds the key.
    KeyBusy,
    /// A method other than GET, PUT and DELETE.
    MethodNotAllowed,
    /// The request failed with an error.
    Failed(SysError),
}

/// Text pairs, by their views.
pub open spec fn pairs_view(pairs: Seq<(String, String)>) -> Seq<(Seq<char>, Seq<char>)> {
    pairs.map_values(|p: (String, String)| (p.0@, p.1@))
}

/// The status code of an error answer.
pub open spec fn error_status(err: SysError) -> u16 {
    match err {
        SysError::NotFound => 404,
        SysError::RecordNotFound => 404,
        _ => 500,
    }
}

/// The `error` field of an error answer: only "not found" and "record not
/// found" are told apart; every other error reads as an internal error.
pub open spec fn error_field(err: SysError) -> Seq<char> {
    match err {
        SysError::NotFound => "not found"@,
        SysError::RecordNotFound => "record not found"@,
        _ => "internal server error"@,
    }
}

/// The status code of an answer.
pub open spec fn reply_status(reply: Reply) -> u16 {
    match reply {
        Reply::Found { .. } => 302,
        Reply::NoSuchRecord => 404,
        Reply::LengthRequired => 411,
        Reply::ExistingKey => 403,
        Reply::Created => 201,
        Reply::AlreadyDeleted => 404,
        Reply::Removed => 204,
        Reply::KeyBusy => 409,
        Reply::MethodNotAllowed => 405,
        Reply::Failed(e) => error_status(e),
    }
}

/// The headers of an answer, as (name, value) pairs.
pub open spec fn reply_headers(reply: Reply) -> Seq<(Seq<char>, Seq<char>)> {
    match reply {
        Reply::Found { location, key_volumes } => seq![
            ("location"@, location@),
            ("key-volumes"@, key_volumes@),
            ("key-balance"@, "balanced"@),
        ],
        _ => seq![],
    }
}

/// The JSON body of an answer as the fields of one object with text values,
/// or `None` where the answer has no body.
pub open spec fn reply_body(reply: Reply) -> Option<Seq<(Seq<char>, Seq<char>)>> {
    match reply {
        Reply::Found { .. } => Some(seq![]),
        Reply::NoSuchRecord => Some(
            seq![("status"@, "Not found"@), ("message"@, "No such record in DB"@)],
        ),
        Reply::LengthRequired => Some(seq![("error"@, "Content-Length is required"@)]),
        Reply::ExistingKey => Some(seq![("error"@, "PUTting into an existing key"@)]),
        Reply::Created => Some(seq![("status"@, "Success"@)]),
        Reply::AlreadyDeleted => None,
        Reply::Removed => None,
        Reply::KeyBusy => Some(seq![("error"@, "The key is being used"@)]),
        Reply::MethodNotAllowed => Some(seq![("error"@, "Method not allowed"@)]),
        Reply::Failed(e) => Some(seq![("error"@, error_field(e))]),
    }
}

/// A (name, value) pair of texts.
fn text_pair(name: &str, value: &str) -> (pair: (String, String))
    ensures
        pair.0@ == name@,
        pair.1@ == value@,
{
    (String::from_str(name), String::from_str(value))
}

/// A JSON object of one text field.
fn one_field(name: &str, value: &str) -> (fields: Vec<(String, String)>)
    ensures
        pairs_view(fields@) == seq![(name@, value@)],
{
    let mut fields = Vec::new();
    fields.push(text_pair(name, value));
    assert(pairs_view(fields@) =~= seq![(name@, value@)]);
    fields
}

impl SysError {
    /// The status code of the answer to this error.
    pub fn status(&self) -> (code: u16)
        ensures
            code == error_status(*self),
    {
        match self {
            SysError::NotFound => 404,
            SysError::RecordNotFound => 404,
            _ => 500,
        }
    }

    /// The `error` field of the answer to this error.
    pub fn error_message(&self) -> (text: String)
        ensures
            text@ == error_field(*self),
    {
        match self {
            SysError::NotFound => String::from_str("not found"),
            SysError::RecordNotFound => String::from_str("record not found"),
            _ => String::from_str("internal server error"),
        }
    }
}

impl Reply {
    /// The status code of this answer.
    pub fn status(&self) -> (code: u16)
        ensures
            code == reply_status(*self),
    {
        match self {
            Reply::Found { .. } => 302,
            Reply::NoSuchRecord => 404,
            Reply::LengthRequired => 411,
            Reply::ExistingKey => 403,
            Reply::Created => 201,
            Reply::AlreadyDeleted => 404,
            Reply::Removed => 204,
            Reply::KeyBusy => 409,
            Reply::MethodNotAllowed => 405,
            Reply::Failed(e) => e.status(),
        }
    }

    /// The headers of this answer.
    pub fn headers(&self) -> (headers: Vec<(String, String)>)
        ensures
            pairs_view(headers@) == reply_headers(*self),
    {
        let mut headers: Vec<(String, String)> = Vec::new();
        match self {
            Reply::Found { location, key_volumes } => {
                headers.push(text_pair("location", location.as_str()));
                headers.push(text_pair("key-volumes", key_volumes.as_str()));
                headers.push(text_pair("key-balance", "balanced"));
            },
            _ => {},
        }
        assert(pairs_view(headers@) =~= reply_headers(*self));
        headers
    }

    /// The JSON body of this answer.
    pub fn body(&self) -> (body: Option<Vec<(String, String)>>)
        ensures
            match body {
                Some(fields) => reply_body(*self) == Some(pairs_view(fields@)),
                None => reply_body(*self) is None,
            },
    {
        match self {
            Reply::Found { .. } => {
                let fields: Vec<(String, String)> = Vec::new();
                assert(pairs_view(fields@) =~= seq![]);
                Some(fields)
            },
            Reply::NoSuchRecord => {
                let mut fields = Vec::new();
                fields.push(text_pair("status", "Not found"));
                fields.push(text_pair("message", "No such record in DB"));
                assert(pairs_view(fields@) =~= seq![
                    ("status"@, "Not found"@),
                    ("message"@, "No such record in DB"@),
                ]);
                Some(fields)
            },
            Reply::LengthRequired => Some(one_field("error", "Content-Length is required")),
            Reply::ExistingKey => Some(one_field("error", "PUTting into an existing key")),
            Reply::Created => Some(one_field("status", "Success")),
            Reply::AlreadyDeleted => None,
            Reply::Removed => None,
            Reply::KeyBusy => Some(one_field("error", "The key is being used")),
            Reply::MethodNotAllowed => Some(one_field("error", "Method not allowed")),
            Reply::Failed(e) => {
                let text = e.error_message();
                Some(one_field("error", text.as_str()))
            },
        }
    }
}

} // verus!
