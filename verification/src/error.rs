//! The library's error type.
//!
//! Failures that come from the storage engine, from JSON parsing or from the
//! operating system belong to the program around the library; everything the
//! library itself can refuse is listed here, with the message it prints.

use vstd::prelude::*;
use crate::text::push_str;

verus! {

#[derive(Debug)]
pub enum Error {
    /// The path is carried for programmatic use but left out of the message.
    NotARepository(String),
    SchemaVersion { found: String, supported: String },
    /// What was looked for (`commit`, `model`, ...) and the name asked for.
    NotFound(String, String),
    MissingObject(String),
    CorruptObject { hash: String, actual: String },
    NonFiniteNumber,
    Invalid(String),
    DirtyWorkingTree,
}

pub type Result<T> = core::result::Result<T, Error>;

/// The message of an error, as it is shown to a user.
pub open spec fn error_message(e: Error) -> Seq<char> {
    match e {
        Error::NotARepository(_) => "not a ground-model file"@,
        Error::SchemaVersion { found, supported } => "ground-model file was written by schema "@
            + found@ + ", this build understands "@ + supported@,
        Error::NotFound(what, name) => what@ + " not found: "@ + name@,
        Error::MissingObject(hash) => "object "@ + hash@ + " is missing from the store"@,
        Error::CorruptObject { hash, actual } => "object "@ + hash@ + " is corrupt: content hashes to "@
            + actual@,
        Error::NonFiniteNumber => "cannot canonicalise a non-finite number"@,
        Error::Invalid(msg) => msg@,
        Error::DirtyWorkingTree => "working tree has uncommitted changes; commit or discard them first"@,
    }
}

impl Error {
    /// The message of this error (what `Display` prints for it).
    pub fn message(&self) -> (r: String)
        ensures
            r@ == error_message(*self),
    {
        let mut s = String::new();
        match self {
            Error::NotARepository(_) => push_str(&mut s, "not a ground-model file"),
            Error::SchemaVersion { found, supported } => {
                push_str(&mut s, "ground-model file was written by schema ");
                push_str(&mut s, found.as_str());
                push_str(&mut s, ", this build understands ");
                push_str(&mut s, supported.as_str());
            },
            Error::NotFound(what, name) => {
                push_str(&mut s, what.as_str());
                push_str(&mut s, " not found: ");
                push_str(&mut s, name.as_str());
            },
            Error::MissingObject(hash) => {
                push_str(&mut s, "object ");
                push_str(&mut s, hash.as_str());
                push_str(&mut s, " is missing from the store");
            },
            Error::CorruptObject { hash, actual } => {
                push_str(&mut s, "object ");
                push_str(&mut s, hash.as_str());
                push_str(&mut s, " is corrupt: content hashes to ");
                push_str(&mut s, actual.as_str());
            },
            Error::NonFiniteNumber => push_str(&mut s, "cannot canonicalise a non-finite number"),
            Error::Invalid(msg) => push_str(&mut s, msg.as_str()),
            Error::DirtyWorkingTree => push_str(
                &mut s,
                "working tree has uncommitted changes; commit or discard them first",
            ),
        }
        s
    }
}

/// An `Invalid` error carrying `msg`.
pub fn invalid(msg: String) -> (e: Error)
    ensures
        e matches Error::Invalid(m) && m@ == msg@,
{
    Error::Invalid(msg)
}

} // verus!
