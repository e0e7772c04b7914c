//! The error taxonomy of the persistence core.

use vstd::prelude::*;

verus! {

/// Everything that can go wrong while persisting or restoring a value.
///
/// Transport exhaustion is `UnexpectedEof` (a read made zero progress) or
/// `WriteZero` (a write made zero progress).  Format violations are
/// `InvalidUtf8` and `UnsupportedVersion` (the tag carries the offending
/// version for diagnostics).  Range violations are `IndexOutOfRange` (a
/// stored 32-bit length cannot be represented natively; the value is
/// carried) and `IndexTooLarge` (a native length exceeds 32-bit range on the
/// write side).  `NotFound` is the distinguished, expected condition of a
/// missing preference file; `Io` stands for any other transport failure
/// reported by the surrounding application.
#[derive(Clone, Copy, Debug, PartialEq, Eq, Structural)]
pub enum PersistError {
    UnexpectedEof,
    WriteZero,
    InvalidUtf8,
    UnsupportedVersion(u16),
    IndexOutOfRange(u32),
    IndexTooLarge,
    NotFound,
    Io,
}

/// The errors a decode can report: transport exhaustion, or one of the
/// format and range violations.
pub open spec fn is_read_error(e: PersistError) -> bool {
    ||| e == PersistError::UnexpectedEof
    ||| e == PersistError::InvalidUtf8
    ||| e matches PersistError::UnsupportedVersion(_)
    ||| e matches PersistError::IndexOutOfRange(_)
}

/// The errors an encode can report: a stalled sink, or a value that
/// cannot be narrowed for the on-disk representation.
pub open spec fn is_write_error(e: PersistError) -> bool {
    ||| e == PersistError::WriteZero
    ||| e == PersistError::IndexTooLarge
}

} // verus!
