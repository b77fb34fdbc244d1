use lantern_boot::errors::BootError;
use lantern_boot::mem_size::MemSize;
use lantern_boot::memory_map::{EntryType, MemoryMap, MemoryMapEntry};

fn entry(base: u64, end: u64, t: EntryType) -> MemoryMapEntry {
    MemoryMapEntry { base_addr: base, size: MemSize { bytes: end - base }, end_addr: end, entry_type: t }
}

#[test]
fn reserve_island_splits_free_range() {
    let mut map = MemoryMap::new();
    map.add_entry(entry(0x1000, 0x9000, EntryType::Free)).unwrap();
    map.add_entry(entry(0x3000, 0x5000, EntryType::Mmio)).unwrap();
    let entries = map.get_entries();
    assert_eq!(entries.len(), 3);
    assert_eq!(entries[0].base_addr, 0x1000);
    assert_eq!(entries[0].end_addr, 0x3000);
    assert!(matches!(entries[0].entry_type, EntryType::Free));
    assert_eq!(entries[0].size.bytes, 0x2000);
    assert_eq!(entries[1].base_addr, 0x3000);
    assert_eq!(entries[1].end_addr, 0x5000);
    assert!(matches!(entries[1].entry_type, EntryType::Mmio));
    assert_eq!(entries[1].size.bytes, 0x2000);
    assert_eq!(entries[2].base_addr, 0x5000);
    assert_eq!(entries[2].end_addr, 0x9000);
    assert!(matches!(entries[2].entry_type, EntryType::Free));
    assert_eq!(entries[2].size.bytes, 0x4000);
}

#[test]
fn adjacent_free_ranges_coalesce() {
    let mut map = MemoryMap::new();
    map.add_entry(entry(0x1000, 0x2000, EntryType::Free)).unwrap();
    map.add_entry(entry(0x2000, 0x3000, EntryType::Free)).unwrap();
    let entries = map.get_entries();
    assert_eq!(entries.len(), 1);
    assert_eq!(entries[0].base_addr, 0x1000);
    assert_eq!(entries[0].end_addr, 0x3000);
    assert_eq!(entries[0].size.bytes, 0x2000);
    assert!(matches!(entries[0].entry_type, EntryType::Free));
}

#[test]
fn coalesce_works_downward_too() {
    let mut map = MemoryMap::new();
    map.add_entry(entry(0x2000, 0x3000, EntryType::Free)).unwrap();
    map.add_entry(entry(0x1000, 0x2000, EntryType::Free)).unwrap();
    let entries = map.get_entries();
    assert_eq!(entries.len(), 1);
    assert_eq!(entries[0].base_addr, 0x1000);
    assert_eq!(entries[0].end_addr, 0x3000);
}

#[test]
fn trimmed_survivors_coalesce_with_the_new_range() {
    // A free range inserted over the tail of another free range must
    // come out as one entry, not two touching ones.
    let mut map = MemoryMap::new();
    map.add_entry(entry(0, 0x8000, EntryType::Free)).unwrap();
    map.add_entry(entry(0x4000, 0xA000, EntryType::Free)).unwrap();
    let entries = map.get_entries();
    assert_eq!(entries.len(), 1);
    assert_eq!(entries[0].base_addr, 0);
    assert_eq!(entries[0].end_addr, 0xA000);
    assert_eq!(entries[0].size.bytes, 0xA000);
    assert!(matches!(entries[0].entry_type, EntryType::Free));
}

#[test]
fn no_touching_same_kind_neighbours_remain() {
    // A reserved-over-reserved trim must not leave two touching
    // entries of one kind behind.
    let mut map = MemoryMap::new();
    map.add_entry(entry(0, 0x10000, EntryType::Free)).unwrap();
    map.add_entry(entry(0x8000, 0xA000, EntryType::Mmio)).unwrap();
    map.add_entry(entry(0x7000, 0x9000, EntryType::Mmio)).unwrap();
    let entries = map.get_entries();
    for i in 1..entries.len() {
        assert!(
            entries[i - 1].end_addr != entries[i].base_addr
                || entries[i - 1].entry_type != entries[i].entry_type
        );
    }
}

#[test]
fn entries_stay_sorted_and_disjoint() {
    let mut map = MemoryMap::new();
    map.add_entry(entry(0x5000, 0x6000, EntryType::Free)).unwrap();
    map.add_entry(entry(0x1000, 0x2000, EntryType::Free)).unwrap();
    map.add_entry(entry(0x3000, 0x4000, EntryType::Stack)).unwrap();
    let entries = map.get_entries();
    assert_eq!(entries.len(), 3);
    for i in 1..entries.len() {
        assert!(entries[i - 1].end_addr <= entries[i].base_addr);
    }
}

#[test]
fn contained_entries_are_absorbed() {
    let mut map = MemoryMap::new();
    map.add_entry(entry(0x2000, 0x3000, EntryType::Free)).unwrap();
    map.add_entry(entry(0x1000, 0x4000, EntryType::Firmware)).unwrap();
    let entries = map.get_entries();
    assert_eq!(entries.len(), 1);
    assert_eq!(entries[0].base_addr, 0x1000);
    assert_eq!(entries[0].end_addr, 0x4000);
    assert!(matches!(entries[0].entry_type, EntryType::Firmware));
}

#[test]
fn capacity_overflow_reports_full_and_keeps_map() {
    let mut map = MemoryMap::new();
    for i in 0..32u64 {
        map.add_entry(entry(i * 0x2000, i * 0x2000 + 0x1000, EntryType::Free)).unwrap();
    }
    assert_eq!(map.get_entries().len(), 32);
    let res = map.add_entry(entry(0x100_0000, 0x100_1000, EntryType::Free));
    assert_eq!(res, Err(BootError::MapFull));
    assert_eq!(map.get_entries().len(), 32);
}

#[test]
fn free_mem_sums_only_free_entries() {
    let mut map = MemoryMap::new();
    map.add_entry(entry(0x1000, 0x3000, EntryType::Free)).unwrap();
    map.add_entry(entry(0x4000, 0x5000, EntryType::Kernel)).unwrap();
    map.add_entry(entry(0x6000, 0x7000, EntryType::Free)).unwrap();
    assert_eq!(map.get_free_mem().bytes, 0x3000);
}

#[test]
fn total_mem_is_recorded() {
    let mut map = MemoryMap::new();
    assert_eq!(map.get_total_mem().bytes, 0);
    map.set_total_mem(0x4000_0000);
    assert_eq!(map.get_total_mem().bytes, 0x4000_0000);
    assert_eq!(map.get_total_mem().to_bytes(), 0x4000_0000);
}

#[test]
fn coverage_is_conserved_across_overlapping_inserts() {
    let mut map = MemoryMap::new();
    map.add_entry(entry(0x1000, 0x9000, EntryType::Free)).unwrap();
    map.add_entry(entry(0x3000, 0x5000, EntryType::Mmio)).unwrap();
    map.add_entry(entry(0x4000, 0x6000, EntryType::Firmware)).unwrap();
    // Every byte of [0x1000, 0x9000) is covered exactly once.
    let entries = map.get_entries();
    let mut total: u64 = 0;
    for e in entries.iter() {
        total += e.size.bytes;
    }
    assert_eq!(total, 0x8000);
    for i in 1..entries.len() {
        assert!(entries[i - 1].end_addr <= entries[i].base_addr);
    }
}
