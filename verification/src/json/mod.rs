//! JSON text format.
//!
//! [`grammar`] pins the format down: a canonical-encoding function and a
//! parsing function, both at the specification level, related by the
//! round-trip lemma.  [`ser`] and [`de`] are the executable codec, each
//! driven by an explicit work stack and proved against the grammar.

pub mod grammar;

pub mod ser;
pub use self::ser::to_string;

pub mod de;
pub use self::de::from_str;
