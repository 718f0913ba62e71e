//! BasaltDB: an educational relational database engine.
//!
//! The storage engine lives in [`storage`], the SQL front-end in [`parser`]
//! and the shared error type in [`error`].
use vstd::prelude::*;

pub mod error;
pub mod parser;
pub mod storage;
pub mod text;

pub use error::Error;

verus! {

/// The result type used across the crate.
pub type Result<T> = std::result::Result<T, Error>;

} // verus!
