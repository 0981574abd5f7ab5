//! Binary (interchange-compatible) data format.
//!
//! Both serializer and deserializer wrap the root value in a document with
//! a single empty-named field, so `true` travels as `08 00 00 00 08 00 01
//! 00`.  [`format`] pins every byte down; the alignment-tagged extension
//! element lets binary payloads land at their required alignment, counted
//! from the buffer start.
//!
//! Unlike the text codec, both directions here recurse to the document's
//! nesting depth, so a caller handling untrusted, very deeply nested
//! binary input should bound its depth; only the text codec is safe at
//! arbitrary depth.

pub mod format;

pub mod ser;
pub use self::ser::{to_bin, BsonSer};

pub mod de;
pub use self::de::from_bin;
