//! Error kinds surfaced by the storage engine.
use vstd::prelude::*;

verus! {

/// Every failure of the engine is reported to the immediate caller as one of
/// these kinds; no failure is silently swallowed.
#[derive(Clone, Copy, Debug, PartialEq, Eq, Structural)]
pub enum DbError {
    /// No table of the requested name is known.
    TableNotFound,
    /// The schema declares no column of the requested name.
    ColumnNotFound,
    /// A value cannot be represented in the column's declared type; the
    /// payload is the position of the offending column in the schema.
    TypeMismatch { column: usize },
    /// A file could not be created, read, or written.
    Io,
    /// A length prefix runs past end-of-file, or a string column holds bytes
    /// that are not valid UTF-8.
    CorruptData,
    /// A declared column type outside the supported set.
    UnsupportedType,
}

} // verus!
