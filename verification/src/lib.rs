//! Core of a bare-metal AArch64 boot environment for Raspberry Pi 3/4
//! class boards: the physical memory map, the page frame allocator, the
//! translation-table engine and the pure computations of the boot driver.
//!
//! Hardware access (MMIO, system registers, assembly trampolines) lives
//! outside this crate; everything here works on plain values and on an
//! explicit model of physical memory, so that the logic can be verified.
use vstd::prelude::*;

pub mod board;
pub mod boot;
pub mod elf;
pub mod errors;
pub mod frame_alloc;
pub mod fs;
pub mod mailbox;
pub mod mem_size;
pub mod memory_map;
pub mod page_table;
pub mod phys;

verus! {

/// Size in bytes of a physical page frame (4 KiB granule).
pub const PAGE_SZ: u64 = 0x1000;

/// Rounds an address down to the start of the page containing it.
pub fn get_page_addr(addr: u64) -> (r: u64)
    ensures
        r == addr - addr % PAGE_SZ,
        r % PAGE_SZ == 0,
        r <= addr < r + PAGE_SZ,
{
    proof {
        assert(addr & !0xFFFu64 == addr - addr % 0x1000 && (addr & !0xFFFu64) % 0x1000 == 0
            && addr - addr % 0x1000 <= addr < (addr - addr % 0x1000) + 0x1000) by (bit_vector);
    }
    addr & !0xFFF
}

} // verus!
