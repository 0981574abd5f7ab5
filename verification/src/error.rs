//! Error type when (de)serialization fails.
//!
//! The error is a single lightweight value: a closed set of reasons plus a
//! short text payload (a field name, a variant name, a type name or a free
//! message) and up to two numeric payloads (an index, or a needed/actual
//! pair for alignment errors).  Callers branch on [`ErrorKind`]; the rest is
//! diagnostic only.

use vstd::prelude::*;

verus! {

/// The closed set of distinguishable failure reasons.
#[derive(Clone, Copy, PartialEq, Eq, Structural, Debug)]
pub enum ErrorKind {
    /// Decoding finished without producing a value.
    Unknown,
    /// Free-form failure, e.g. a malformed wire structure.
    Generic,
    /// A shape arrived that the target type does not accept.
    NotExpected,
    /// A shape the decoder was waiting for never arrived.
    Expecting,
    /// A required map field was absent at container end.
    MissingField,
    /// A tuple element was absent at sequence end.
    MissingElement,
    /// An enum variant name matched nothing.
    UnknownVariant,
    /// A byte sequence was not valid UTF-8.
    InvalidUtf8,
    /// A hex string did not carry enough padding to reach its alignment.
    NotEnoughOffset,
    /// A document declared a higher alignment rank than its buffer has.
    LowerAlignmentRank,
    /// An aligned binary payload was not at its declared alignment.
    NotAligned,
    /// A map key could not be converted into the target key type.
    InvalidMapKey,
    /// A number did not fit the range of the target type.
    OutOfRange,
}

/// Error type when (de)serialization fails.
///
/// Deliberately not a rich structured type: the reason code is what a
/// caller may branch on, everything else is a diagnostic payload.
#[derive(Debug)]
pub struct Error {
    /// The reason this error was raised.
    pub kind: ErrorKind,
    /// Field name, variant name, type name or free message, if any.
    pub what: String,
    /// First numeric payload: a needed quantity, or an index.
    pub needed: usize,
    /// Second numeric payload: the quantity actually present.
    pub got: usize,
    /// Line (or zero) appended by a top-level entry point.
    pub line: usize,
    /// Column or byte offset appended by a top-level entry point.
    pub column: usize,
}

impl Error {
    /// Appends position context at a top-level entry point; diagnostic only.
    pub fn append_line_and_column(self, line: usize, column: usize) -> (r: Self)
        ensures
            r.kind == self.kind,
            r.what@ == self.what@,
            r.needed == self.needed,
            r.got == self.got,
            r.line == line,
            r.column == column,
    {
        Error { line, column, ..self }
    }

    fn bare(kind: ErrorKind) -> (r: Self)
        ensures
            r.kind == kind,
            r.what@ == Seq::<char>::empty(),
            r.needed == 0,
            r.got == 0,
    {
        Error { kind, what: String::new(), needed: 0, got: 0, line: 0, column: 0 }
    }

    /// Decoding ran to completion without writing an output value.
    pub fn unknown() -> (r: Self)
        ensures
            r.kind == ErrorKind::Unknown,
    {
        Self::bare(ErrorKind::Unknown)
    }

    /// Generic error carrying a free-form message.
    pub fn generic(err: String) -> (r: Self)
        ensures
            r.kind == ErrorKind::Generic,
            r.what@ == err@,
    {
        Error { kind: ErrorKind::Generic, what: err, needed: 0, got: 0, line: 0, column: 0 }
    }

    /// Not expected visit: the wire held shape `msg`, the target rejects it.
    pub fn not_expected(msg: &str) -> (r: Self)
        ensures
            r.kind == ErrorKind::NotExpected,
            r.what@ == msg@,
    {
        Error {
            kind: ErrorKind::NotExpected,
            what: msg.to_owned(),
            needed: 0,
            got: 0,
            line: 0,
            column: 0,
        }
    }

    /// Was expecting something (`msg`) that never arrived.
    pub fn expecting(msg: &str) -> (r: Self)
        ensures
            r.kind == ErrorKind::Expecting,
            r.what@ == msg@,
    {
        Error {
            kind: ErrorKind::Expecting,
            what: msg.to_owned(),
            needed: 0,
            got: 0,
            line: 0,
            column: 0,
        }
    }

    /// Missing required field inside a map; `field` names it.
    pub fn missing_field(field: &str) -> (r: Self)
        ensures
            r.kind == ErrorKind::MissingField,
            r.what@ == field@,
    {
        Error {
            kind: ErrorKind::MissingField,
            what: field.to_owned(),
            needed: 0,
            got: 0,
            line: 0,
            column: 0,
        }
    }

    /// Missing element inside a sequence, most likely a tuple slot.
    pub fn missing_element(index: usize) -> (r: Self)
        ensures
            r.kind == ErrorKind::MissingElement,
            r.needed == index,
    {
        Error {
            kind: ErrorKind::MissingElement,
            what: String::new(),
            needed: index,
            got: 0,
            line: 0,
            column: 0,
        }
    }

    /// An enum variant name (`variant`) matched no known variant.
    pub fn unknown_variant(variant: &str) -> (r: Self)
        ensures
            r.kind == ErrorKind::UnknownVariant,
            r.what@ == variant@,
    {
        Error {
            kind: ErrorKind::UnknownVariant,
            what: variant.to_owned(),
            needed: 0,
            got: 0,
            line: 0,
            column: 0,
        }
    }

    /// Found an invalid UTF-8 sequence.
    pub fn invalid_utf8() -> (r: Self)
        ensures
            r.kind == ErrorKind::InvalidUtf8,
    {
        Self::bare(ErrorKind::InvalidUtf8)
    }

    /// A hex string carried `current` padding where `needed` was required
    /// to reach its declared alignment.
    pub fn not_enough_offset(needed: usize, current: usize) -> (r: Self)
        ensures
            r.kind == ErrorKind::NotEnoughOffset,
            r.needed == needed,
            r.got == current,
    {
        Error {
            kind: ErrorKind::NotEnoughOffset,
            what: String::new(),
            needed,
            got: current,
            line: 0,
            column: 0,
        }
    }

    /// A document asked for alignment rank `needed` but its buffer only
    /// guarantees `current`.
    pub fn lower_alignment_rank(needed: usize, current: usize) -> (r: Self)
        ensures
            r.kind == ErrorKind::LowerAlignmentRank,
            r.needed == needed,
            r.got == current,
    {
        Error {
            kind: ErrorKind::LowerAlignmentRank,
            what: String::new(),
            needed,
            got: current,
            line: 0,
            column: 0,
        }
    }

    /// Binary data was not properly aligned: `align` is off by `offset`.
    pub fn not_aligned(align: usize, offset: usize) -> (r: Self)
        ensures
            r.kind == ErrorKind::NotAligned,
            r.needed == align,
            r.got == offset,
    {
        Error {
            kind: ErrorKind::NotAligned,
            what: String::new(),
            needed: align,
            got: offset,
            line: 0,
            column: 0,
        }
    }

    /// A map key could not be converted into the target key type.
    pub fn invalid_map_key(key: String) -> (r: Self)
        ensures
            r.kind == ErrorKind::InvalidMapKey,
            r.what@ == key@,
    {
        Error { kind: ErrorKind::InvalidMapKey, what: key, needed: 0, got: 0, line: 0, column: 0 }
    }

    /// A number fell out of the range of target type `ty`.
    pub fn out_of_range(ty: &str) -> (r: Self)
        ensures
            r.kind == ErrorKind::OutOfRange,
            r.what@ == ty@,
    {
        Error {
            kind: ErrorKind::OutOfRange,
            what: ty.to_owned(),
            needed: 0,
            got: 0,
            line: 0,
            column: 0,
        }
    }
}

} // verus!
