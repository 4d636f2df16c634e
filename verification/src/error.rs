use vstd::prelude::*;

verus! {

/// Failure of a decode or encode step.
///
/// Absence of an entry is never an error (lookups return `None`); these
/// variants cover only structurally bad input. I/O failures belong to the
/// caller that owns the file handling and are not represented here.
#[derive(Clone, Copy, Debug, PartialEq, Eq, Structural)]
pub enum ArchiveError {
    /// Fewer bytes were available than a structural read required: the
    /// 6-byte outer header, the entry count, a descriptor, or a data block.
    TruncatedInput,
    /// A headerless bzip2 block failed to decode after the magic prefix was
    /// restored.
    DecompressionError,
}

} // verus!
