//! Structured errors surfaced by the boot core.
//!
//! Every fallible operation reports one of these; the boot driver treats
//! almost all of them as fatal and halts with a diagnostic.
use vstd::prelude::*;

verus! {

/// Error taxonomy of the boot core.
#[derive(Clone, Copy, PartialEq, Eq, Structural, Debug)]
pub enum BootError {
    /// The memory map's fixed capacity would be exceeded.
    MapFull,
    /// The frame allocator's free list is empty.
    OutOfFrames,
    /// A mapping was requested over an already-valid descriptor.
    AlreadyMapped,
    /// An address was not aligned to the required boundary.
    Misaligned,
    /// The device tree blob is malformed.
    DtbParse,
    /// The kernel image is not a loadable AArch64 executable.
    ElfInvalid,
    /// A mailbox request returned a failure code.
    MailboxRespNotOk,
    /// The null physical frame was handed to the allocator.
    NullFrame,
    /// The bootloader's reservation accounting does not match the
    /// allocator's free-frame count.
    SanityFail,
}

} // verus!
