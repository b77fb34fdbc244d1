use lantern_boot::boot::{
    core_arg_address, core_mailbox_register, find_free_region, mair_value, map_window,
    reseed_from_map, reserve_memory_regions, round_up_page, sanity_check, sctlr_enable_bits,
    seed_allocator, tcr_value, BootLayout,
};
use lantern_boot::page_table::{MemoryType, PageTable, VirtualAddr};
use lantern_boot::errors::BootError;
use lantern_boot::frame_alloc::PageFrameAllocator;
use lantern_boot::mem_size::MemSize;
use lantern_boot::memory_map::{EntryType, MemoryMap, MemoryMapEntry};
use lantern_boot::phys::PhysMem;

fn layout() -> BootLayout {
    BootLayout {
        stack_size: 0x4000,
        dtb_base: 0x20000,
        dtb_size: 0x1000,
        gpu_base: 0xC0_0000,
        gpu_size: 0x40_0000,
        mmio_base: 0xFC00_0000,
        mmio_end: 0x1_0000_0000,
        bl_stack_start: 0x80000,
        bl_stack_end: 0x90000,
        bl_start: 0x90000,
        bl_end: 0xB0000,
    }
}

#[test]
fn discovery_reserves_the_fixed_regions() {
    let ranges = vec![(0u64, 0x100_0000u64)];
    let map = reserve_memory_regions(&ranges, &layout()).unwrap();
    assert_eq!(map.get_total_mem().bytes, 0x100_0000);
    let entries = map.get_entries();
    // Sorted, disjoint, and the null page is never free.
    assert!(entries[0].base_addr == 0 && !matches!(entries[0].entry_type, EntryType::Free));
    for i in 1..entries.len() {
        assert!(entries[i - 1].end_addr <= entries[i].base_addr);
    }
    // Free memory shrank below the bank size by the reservations.
    assert!(map.get_free_mem().bytes < 0x100_0000);
}

#[test]
fn discovery_rejects_an_empty_tree() {
    let ranges: Vec<(u64, u64)> = vec![];
    assert_eq!(
        reserve_memory_regions(&ranges, &layout()).err(),
        Some(BootError::DtbParse)
    );
}

#[test]
fn seeding_fills_the_allocator_from_free_ranges() {
    let mut map = MemoryMap::new();
    map.add_entry(MemoryMapEntry {
        base_addr: 0x2000,
        size: MemSize { bytes: 0x4000 },
        end_addr: 0x6000,
        entry_type: EntryType::Free,
    })
    .unwrap();
    map.add_entry(MemoryMapEntry {
        base_addr: 0x8000,
        size: MemSize { bytes: 0x2000 },
        end_addr: 0xA000,
        entry_type: EntryType::Kernel,
    })
    .unwrap();
    let mut mem = PhysMem::new(0x10000 / 8);
    let mut alloc = PageFrameAllocator::new(0x1000);
    let count = seed_allocator(&map, &mut alloc, &mut mem);
    // Only the four pages of the free range were seeded.
    assert_eq!(count, 4);
    assert_eq!(alloc.num_free_frames(), 4);
    // Most recently freed first.
    assert_eq!(alloc.alloc_frame(&mut mem), Ok(0x5000));
}

#[test]
fn sanity_check_matches_reservation_accounting() {
    let mut map = MemoryMap::new();
    map.add_entry(MemoryMapEntry {
        base_addr: 0x3000,
        size: MemSize { bytes: 0x1000 },
        end_addr: 0x4000,
        entry_type: EntryType::BLReserved,
    })
    .unwrap();
    map.add_entry(MemoryMapEntry {
        base_addr: 0x5000,
        size: MemSize { bytes: 0x1000 },
        end_addr: 0x6000,
        entry_type: EntryType::BLReserved,
    })
    .unwrap();
    assert!(sanity_check(&map, 10, 8));
    assert!(!sanity_check(&map, 10, 9));
}

#[test]
fn free_region_search_finds_the_first_fit() {
    let mut map = MemoryMap::new();
    map.add_entry(MemoryMapEntry {
        base_addr: 0x1000,
        size: MemSize { bytes: 0x1000 },
        end_addr: 0x2000,
        entry_type: EntryType::Free,
    })
    .unwrap();
    map.add_entry(MemoryMapEntry {
        base_addr: 0x4000,
        size: MemSize { bytes: 0x4000 },
        end_addr: 0x8000,
        entry_type: EntryType::Free,
    })
    .unwrap();
    let region = find_free_region(&map, 0x3000).unwrap();
    assert_eq!(region.base_addr, 0x4000);
    assert!(find_free_region(&map, 0x9000).is_none());
}

#[test]
fn handoff_constants() {
    assert_eq!(round_up_page(0x1001), 0x2000);
    assert_eq!(round_up_page(0x2000), 0x2000);
    assert_eq!(core_mailbox_register(1), 0xE0);
    assert_eq!(core_mailbox_register(2), 0xE8);
    assert_eq!(core_mailbox_register(3), 0xF0);
    assert_eq!(core_arg_address(1), 0xFA0);
    assert_eq!(core_arg_address(2), 0xFC0);
    assert_eq!(core_arg_address(3), 0xFE0);
    assert_eq!(mair_value(), 0xFF00);
    assert_eq!(tcr_value(), 0x5_8010_0010);
    assert_eq!(sctlr_enable_bits(), 0x1005);
}

#[test]
fn window_mapping_round_trips() {
    let mut mem = PhysMem::new(0x14000 / 8);
    let mut alloc = PageFrameAllocator::new(0x1000);
    for k in 1..16u64 {
        alloc.free_frame(&mut mem, k * 0x1000).unwrap();
    }
    let mut pt = PageTable::new(&mut mem, &mut alloc).unwrap();
    map_window(
        &mut pt,
        &mut mem,
        &mut alloc,
        0x80000,
        0xFFFF_0000_0000_0000,
        8,
        MemoryType::normal_cacheable(),
    )
    .unwrap();
    for k in 0..8u64 {
        assert_eq!(
            pt.virt_to_phys(&mem, VirtualAddr(0xFFFF_0000_0000_0000 + 4096 * k)),
            Ok(0x80000 + 4096 * k)
        );
    }
}

#[test]
fn kernel_reseeding_reclaims_bootloader_memory() {
    let mut map = MemoryMap::new();
    map.add_entry(MemoryMapEntry {
        base_addr: 0x2000,
        size: MemSize { bytes: 0x2000 },
        end_addr: 0x4000,
        entry_type: EntryType::Free,
    })
    .unwrap();
    map.add_entry(MemoryMapEntry {
        base_addr: 0x5000,
        size: MemSize { bytes: 0x2000 },
        end_addr: 0x7000,
        entry_type: EntryType::Bootloader,
    })
    .unwrap();

    let mut mem = PhysMem::new(0x10000 / 8);
    let mut alloc = PageFrameAllocator::new(0x1000);
    assert_eq!(reseed_from_map(&map, &mut alloc, &mut mem, true), 4);

    let mut mem2 = PhysMem::new(0x10000 / 8);
    let mut alloc2 = PageFrameAllocator::new(0x1000);
    assert_eq!(reseed_from_map(&map, &mut alloc2, &mut mem2, false), 2);
}
