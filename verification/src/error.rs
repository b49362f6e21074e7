//! The error type shared by every layer of the engine.

use vstd::prelude::*;
use vstd::string::*;

use crate::phrase;
use crate::phrase::say;
use crate::strings;
use crate::strings::text3;

verus! {

/// What can go wrong in the engine. The variant is for programs, the text for people.
#[derive(Debug)]
pub enum Error {
    NotFound(String),
    AlreadyExists(String),
    CasMismatch { key: String, expected: String, actual: Option<String> },
    IdempotencyConflict(String),
    Backpressure { unindexed_bytes: u64, limit_bytes: u64 },
    InvalidRange { start: u64, end: u64, size: u64 },
    InvalidWrite(String),
    InvalidSchema(String),
    InvalidQuery(String),
    InvalidQueueClaim(String),
    InvalidQueueBroker(String),
    InvalidPinningClaim(String),
    InvalidMaintenanceLease(String),
    InvalidReaderLease(String),
    Corrupt(String),
    Codec(String),
    Io(String),
}

/// What an error is called, for those that hold nothing but a text.
pub open spec fn title_of(e: Error) -> Seq<char> {
    match e {
        Error::NotFound(_) => "object not found"@,
        Error::AlreadyExists(_) => "object already exists"@,
        Error::IdempotencyConflict(_) => "idempotency key conflict"@,
        Error::InvalidWrite(_) => "invalid write"@,
        Error::InvalidSchema(_) => "invalid schema"@,
        Error::InvalidQuery(_) => "invalid query"@,
        Error::InvalidQueueClaim(_) => "invalid indexing queue claim"@,
        Error::InvalidQueueBroker(_) => "invalid indexing queue broker"@,
        Error::InvalidPinningClaim(_) => "invalid pinning claim"@,
        Error::InvalidMaintenanceLease(_) => "invalid maintenance lease"@,
        Error::InvalidReaderLease(_) => "invalid reader lease"@,
        Error::Corrupt(_) => "corrupt data"@,
        Error::Codec(_) => "codec error"@,
        _ => "io error"@,
    }
}

/// The text that an error holds.
pub open spec fn held_text(e: Error) -> Seq<char> {
    match e {
        Error::NotFound(t) => t@,
        Error::AlreadyExists(t) => t@,
        Error::IdempotencyConflict(t) => t@,
        Error::InvalidWrite(t) => t@,
        Error::InvalidSchema(t) => t@,
        Error::InvalidQuery(t) => t@,
        Error::InvalidQueueClaim(t) => t@,
        Error::InvalidQueueBroker(t) => t@,
        Error::InvalidPinningClaim(t) => t@,
        Error::InvalidMaintenanceLease(t) => t@,
        Error::InvalidReaderLease(t) => t@,
        Error::Corrupt(t) => t@,
        Error::Codec(t) => t@,
        Error::Io(t) => t@,
        _ => Seq::empty(),
    }
}

/// The version of an object that may be missing, for people.
pub open spec fn version_words(version: Option<String>) -> Seq<char> {
    match version {
        Some(v) => "Some(ObjectVersion("@ + phrase::quoted(v@) + "))"@,
        None => "None"@,
    }
}

/// What an error says to people.
pub open spec fn message_of(e: Error) -> Seq<char> {
    match e {
        Error::CasMismatch { key, expected, actual } => "compare-and-set mismatch for "@ + key@
            + ": expected "@ + expected@ + ", found "@ + version_words(actual),
        Error::Backpressure { unindexed_bytes, limit_bytes } => strings::decimal(
            unindexed_bytes as nat,
        ) + " unindexed WAL bytes exceed the limit of "@ + strings::decimal(limit_bytes as nat),
        Error::InvalidRange { start, end, size } => "invalid object range "@ + strings::decimal(
            start as nat,
        ) + ".."@ + strings::decimal(end as nat) + " for object of size "@ + strings::decimal(
            size as nat,
        ),
        _ => title_of(e) + ": "@ + held_text(e),
    }
}

impl Error {
    /// What the error says to people.
    pub fn message(&self) -> (s: String)
        ensures
            s@ == message_of(*self),
    {
        match self {
            Error::CasMismatch { key, expected, actual } => {
                let p = say("compare-and-set mismatch for ").and(key.as_str()).and(
                    ": expected ",
                ).and(expected.as_str()).and(", found ");
                let r: String = match actual {
                    Some(v) => {
                        let found = say("Some(ObjectVersion(").quote(v.as_str()).and("))").done();
                        p.and(found.as_str()).done()
                    },
                    None => p.and("None").done(),
                };
                r
            },
            Error::Backpressure { unindexed_bytes, limit_bytes } => {
                let n = strings::decimal_text(*unindexed_bytes);
                say(n.as_str()).and(" unindexed WAL bytes exceed the limit of ").number(
                    *limit_bytes,
                ).done()
            },
            Error::InvalidRange { start, end, size } => say("invalid object range ").number(
                *start,
            ).and("..").number(*end).and(" for object of size ").number(*size).done(),
            Error::NotFound(t) => text3("object not found", ": ", t.as_str()),
            Error::AlreadyExists(t) => text3("object already exists", ": ", t.as_str()),
            Error::IdempotencyConflict(t) => text3("idempotency key conflict", ": ", t.as_str()),
            Error::InvalidWrite(t) => text3("invalid write", ": ", t.as_str()),
            Error::InvalidSchema(t) => text3("invalid schema", ": ", t.as_str()),
            Error::InvalidQuery(t) => text3("invalid query", ": ", t.as_str()),
            Error::InvalidQueueClaim(t) => text3(
                "invalid indexing queue claim",
                ": ",
                t.as_str(),
            ),
            Error::InvalidQueueBroker(t) => text3(
                "invalid indexing queue broker",
                ": ",
                t.as_str(),
            ),
            Error::InvalidPinningClaim(t) => text3("invalid pinning claim", ": ", t.as_str()),
            Error::InvalidMaintenanceLease(t) => text3(
                "invalid maintenance lease",
                ": ",
                t.as_str(),
            ),
            Error::InvalidReaderLease(t) => text3("invalid reader lease", ": ", t.as_str()),
            Error::Corrupt(t) => text3("corrupt data", ": ", t.as_str()),
            Error::Codec(t) => text3("codec error", ": ", t.as_str()),
            Error::Io(t) => text3("io error", ": ", t.as_str()),
        }
    }
}

pub fn corrupt(text: &str) -> (e: Error)
    ensures
        e is Corrupt,
        e->Corrupt_0@ == text@,
{
    Error::Corrupt(text.to_owned())
}

pub fn invalid_write(text: &str) -> (e: Error)
    ensures
        e is InvalidWrite,
        e->InvalidWrite_0@ == text@,
{
    Error::InvalidWrite(text.to_owned())
}

pub fn invalid_query(text: &str) -> (e: Error)
    ensures
        e is InvalidQuery,
        e->InvalidQuery_0@ == text@,
{
    Error::InvalidQuery(text.to_owned())
}

pub fn invalid_schema(text: &str) -> (e: Error)
    ensures
        e is InvalidSchema,
        e->InvalidSchema_0@ == text@,
{
    Error::InvalidSchema(text.to_owned())
}

} // verus!
