//! A zero-copy-oriented (de)serialization engine for a textual (JSON-like)
//! and a compact binary (BSON-like) wire format.
//!
//! Documents are modelled by the [`value::Value`] tree.  The text codec
//! drives explicit work stacks instead of call-stack recursion, so
//! arbitrarily nested text cannot overflow the call stack; the binary
//! codec walks its length-prefixed documents recursively.  Every fallible
//! entry point reports a single [`error::Error`] with a distinguishable
//! reason.

use vstd::prelude::*;

pub mod bson;
pub mod buffer;
pub mod bytes;
mod chars;
pub mod de;
pub mod error;
pub mod json;
pub mod value;

verus! {

/// Result alias used by every fallible operation of this crate.
pub type Result<T> = core::result::Result<T, crate::error::Error>;

} // verus!
