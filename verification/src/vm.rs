//! What the database knows of the transaction machine: its errors, the types
//! and outcomes that it reads and writes, and the access manifests of programs.

pub mod access;
pub mod catalogue;
pub mod outcome;
pub mod program;
pub mod types;

pub use access::{overlap, AccessManifest, AccessMode, Scope};
pub use catalogue::{validate_catalogue, CatalogueOperation};
pub use outcome::{decode_outcome, encode_outcome, Outcome, OutcomeRecord};
pub use program::transaction_tables;
pub use types::Type;

use crate::storage;
use vstd::prelude::*;

verus! {

/// A failure of the transaction machine; not an abort of a transaction.
#[derive(Clone, Debug, PartialEq, Eq)]
pub enum Error {
    Invalid(&'static str),
    Unsupported { format: &'static str, version: u16 },
    Storage(storage::Error),
}

} // verus!
