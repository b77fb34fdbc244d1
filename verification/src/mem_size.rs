//! A tagged byte count.
use vstd::prelude::*;

verus! {

/// A byte count carried through the memory map.
///
/// The fractional KiB/MiB/GiB conversions and the pretty-printer live
/// with the unverified front end; the core only ever reads the raw
/// byte count.
#[derive(Default, Clone, Copy, PartialEq, Eq, Structural, Debug)]
pub struct MemSize {
    pub bytes: u64,
}

impl MemSize {
    /// The raw byte count.
    pub fn to_bytes(&self) -> (r: u64)
        ensures
            r == self.bytes,
    {
        self.bytes
    }
}

} // verus!
