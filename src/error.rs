//! Errors of the library.
use vstd::prelude::*;
use crate::entry::AclEntryKind;

verus! {

/// Why a line of text is not an entry.
#[derive(Clone, Copy, Debug, PartialEq, Eq, Structural)]
pub enum ParseReason {
    /// The line does not have three, four or five fields.
    FieldCount,
    /// The first of five fields is neither `allow` nor `deny`.
    UnknownAllow,
    UnknownKind,
    UnknownFlag,
    UnknownPerm,
    /// The name resolves to no principal.
    UnknownName,
}

#[derive(Debug)]
pub enum AclError {
    /// A name or GUID that resolves to no principal of the given kind.
    UnknownPrincipal { kind: AclEntryKind, name: String },
    /// The entries do not make a valid ACL (missing required entries, or
    /// deny entries where only allow is supported).
    InvalidAcl,
    /// The operation is not supported for this principal or platform.
    UnsupportedOperation,
    /// An error code of the operating system, verbatim.
    NativeFailure(i32),
    /// A line of text that is not an entry, and why.
    ParseFailure { line: String, reason: ParseReason },
}

} // verus!
