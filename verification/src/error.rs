//! Error taxonomy of the boot path.

use vstd::prelude::*;

verus! {

/// Every failure the core can report. Functions below the boot sequence
/// return one of these; the boot sequence itself treats any of them as
/// fatal, since there is nothing to recover into.
#[derive(Clone, Copy, Debug, PartialEq, Eq, Structural)]
pub enum KernelError {
    /// The frame allocator ran out of usable memory.
    AllocationExhausted,
    /// A mapping call hit an already-present leaf entry under the strict
    /// policy.
    MappingConflict,
    /// A virtual address resolved to nothing.
    TranslationFailure,
    /// The executable image's header or record stride is not what the
    /// loader expects, or a declared range runs past the buffer.
    MalformedImage,
    /// A firmware-mediated call reported a non-zero status.
    FirmwareCallFailure,
}

} // verus!
