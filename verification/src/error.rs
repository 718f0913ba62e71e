//! Error type shared across the crate.
//!
//! Recoverable situations never panic: every fallible operation returns a
//! `Result` with this error.
use vstd::prelude::*;
use vstd::string::*;

use crate::text::{dec_chars, push_decimal, text};

verus! {

#[verifier::external_type_specification]
#[verifier::external_body]
pub struct ExIoError(std::io::Error);

/// The central error type of the database engine.
#[derive(Debug)]
pub enum Error {
    /// An underlying I/O failure (file not found, permissions, disk errors...).
    Io(std::io::Error),
    /// A generic, storage-level failure described by a message.
    Storage(String),
    /// The requested page does not exist in the underlying file.
    InvalidPageId(u32),
    /// A record does not fit in the remaining free space of a page.
    PageFull {
        /// Bytes required by the record (data + slot + header overhead).
        needed: usize,
        /// Bytes currently available in the page.
        free: usize,
    },
    /// A slot id that does not exist (or was deleted) was accessed.
    InvalidSlot(u16),
    /// A page's on-disk layout failed validation.
    Corrupt(String),
    /// A serialized row could not be decoded.
    Deserialize(String),
    /// A requested object (table, column...) does not exist.
    NotFound(String),
    /// An object was created twice (e.g. duplicate table name).
    Duplicate(String),
    /// Syntax error in a query.
    Syntax(String),
}

/// The text of an error other than an I/O failure.
pub open spec fn error_message(e: Error) -> Seq<char> {
    match e {
        Error::Io(_) => "I/O error: "@,
        Error::Storage(m) => "storage error: "@ + m@,
        Error::InvalidPageId(id) => "invalid page id: "@ + dec_chars(id as nat),
        Error::PageFull { needed, free } => "page full: need "@ + dec_chars(needed as nat)
            + " bytes, only "@ + dec_chars(free as nat) + " available"@,
        Error::InvalidSlot(s) => "invalid slot id: "@ + dec_chars(s as nat),
        Error::Corrupt(m) => "corrupt page: "@ + m@,
        Error::Deserialize(m) => "deserialization error: "@ + m@,
        Error::NotFound(m) => "not found: "@ + m@,
        Error::Duplicate(m) => "duplicate: "@ + m@,
        Error::Syntax(m) => "syntax: "@ + m@,
    }
}

/// The text of an I/O error.
///
/// Calls the `Display` implementation of `std::io::Error` (through `to_string`);
/// what text it gives is not stated.
#[verifier::external_body]
fn io_error_text(e: &std::io::Error) -> String {
    e.to_string()
}

impl Error {
    /// The lower-level error that caused this one: the I/O failure of an
    /// [`Error::Io`], none for the others.
    pub fn source(&self) -> (r: Option<&std::io::Error>)
        ensures
            match self {
                Error::Io(e) => r == Some(e),
                _ => r is None,
            },
    {
        match self {
            Error::Io(e) => Some(e),
            _ => None,
        }
    }

    /// A human-readable description of the error.
    ///
    /// For an I/O failure the text starts with `I/O error: ` and continues with
    /// the operating system's description.
    pub fn to_message(&self) -> (m: String)
        ensures
            self is Io ==> m@.len() >= error_message(*self).len() && m@.subrange(
                0,
                error_message(*self).len() as int,
            ) == error_message(*self),
            !(self is Io) ==> m@ == error_message(*self),
    {
        let mut m;
        match self {
            Error::Io(e) => {
                m = text("I/O error: ");
                m.append(io_error_text(e).as_str());
                assert(m@.subrange(0, error_message(*self).len() as int) =~= error_message(*self));
            },
            Error::Storage(msg) => {
                m = text("storage error: ");
                m.append(msg.as_str());
            },
            Error::InvalidPageId(id) => {
                m = text("invalid page id: ");
                push_decimal(&mut m, *id as u64);
            },
            Error::PageFull { needed, free } => {
                m = text("page full: need ");
                push_decimal(&mut m, *needed as u64);
                m.append(" bytes, only ");
                push_decimal(&mut m, *free as u64);
                m.append(" available");
            },
            Error::InvalidSlot(slot) => {
                m = text("invalid slot id: ");
                push_decimal(&mut m, *slot as u64);
            },
            Error::Corrupt(msg) => {
                m = text("corrupt page: ");
                m.append(msg.as_str());
            },
            Error::Deserialize(msg) => {
                m = text("deserialization error: ");
                m.append(msg.as_str());
            },
            Error::NotFound(msg) => {
                m = text("not found: ");
                m.append(msg.as_str());
            },
            Error::Duplicate(msg) => {
                m = text("duplicate: ");
                m.append(msg.as_str());
            },
            Error::Syntax(msg) => {
                m = text("syntax: ");
                m.append(msg.as_str());
            },
        }
        m
    }
}

impl From<std::io::Error> for Error {
    /// Wraps an I/O failure.
    fn from(e: std::io::Error) -> (r: Self) {
        Error::Io(e)
    }
}

impl vstd::std_specs::convert::FromSpecImpl<std::io::Error> for Error {
    open spec fn obeys_from_spec() -> bool {
        true
    }

    open spec fn from_spec(e: std::io::Error) -> Error {
        Error::Io(e)
    }
}

} // verus!
