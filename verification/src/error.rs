use vstd::prelude::*;

verus! {

/// Everything that an editing operation can report.
#[derive(Debug, Clone, Copy, PartialEq, Eq, Structural)]
pub enum Error {
    /// The offset lies outside `[0, length]` of the original content.
    IndexOutOfBoundError(usize),
    /// Essential content was appended at a boundary whose buffer is discarded.
    EssentialContentCannotBeAppended,
    /// Essential content was prepended at a boundary whose buffer is discarded.
    EssentialContentCannotBePrepended,
    /// A removal would discard content that was inserted as essential.
    ContentShouldNotBeRemoved,
    /// The edited bytes are not validly encoded text.
    InvalidInternalState,
}

} // verus!
