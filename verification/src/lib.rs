//! Ownership resolution for source trees that carry `CODEOWNERS` files.
//!
//! A declaration file maps glob patterns to owners and tags; a file of the
//! tree belongs to the owners of the nearest declaration that matches it. The
//! crate resolves single files, builds the ownership cache of a whole tree
//! with its reverse indexes, and decides when a stored cache is still valid.

pub mod cache;
pub mod commands;
pub mod discovery;
pub mod display;
pub mod glob;
pub mod hash;
pub mod lookup;
pub mod matcher;
pub mod parser;
pub mod paths;
pub mod resolver;
pub mod store;
pub mod text;
pub mod types;

use crate::types::Error;
use vstd::prelude::*;

verus! {

/// Prepares the library for use. There is nothing to prepare, so this always
/// succeeds.
pub fn start() -> (started: Result<(), Error>)
    ensures
        started is Ok,
{
    Ok(())
}

} // verus!
