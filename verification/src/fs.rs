//! Position arithmetic of the FAT-backed block device.
//!
//! The device reads and writes 512-byte sectors through the storage
//! controller (memory-mapped I/O, outside this crate); the sector and
//! byte-offset bookkeeping behind its seek operation is pure and is
//! verified here.
use vstd::prelude::*;

verus! {

/// A position on the 512-byte-sector block device backing the FAT
/// filesystem.
#[derive(Clone, Copy, PartialEq, Eq, Structural, Debug)]
pub struct Fat32FileSystem {
    pub sector: u32,
    pub offset: u32,
}

impl Fat32FileSystem {
    /// A handle positioned at the start of the device.
    pub fn new() -> (r: Fat32FileSystem)
        ensures
            r.sector == 0,
            r.offset == 0,
    {
        Fat32FileSystem { sector: 0, offset: 0 }
    }

    /// The absolute byte position.
    pub fn position(&self) -> (r: u64)
        ensures
            r == self.sector * 512 + self.offset,
    {
        (self.sector as u64) * 512 + (self.offset as u64)
    }

    /// Seeks to an absolute byte position, splitting it into a sector
    /// number and an offset within the sector.
    pub fn seek_to(&mut self, pos: u64) -> (r: u64)
        requires
            pos < 0x200_0000_0000,
        ensures
            final(self).sector == pos / 512,
            final(self).offset == pos % 512,
            r == pos,
            final(self).sector * 512 + final(self).offset == pos,
    {
        proof {
            lemma_sector_split(pos);
        }
        self.sector = (pos / 512) as u32;
        self.offset = (pos % 512) as u32;
        pos
    }
}

/// The sector/offset split recomposes to the position.
proof fn lemma_sector_split(pos: u64)
    ensures
        512 * (pos as int / 512) + pos as int % 512 == pos,
        pos < 0x200_0000_0000 ==> pos / 512 <= u32::MAX,
{
    assert(512 * (pos as int / 512) + pos as int % 512 == pos && (pos < 0x200_0000_0000
        ==> pos / 512 <= u32::MAX)) by (nonlinear_arith);
}

} // verus!
