use lantern_boot::errors::BootError;
use lantern_boot::frame_alloc::PageFrameAllocator;
use lantern_boot::page_table::{MemoryType, PageTable, VirtualAddr};
use lantern_boot::phys::PhysMem;

fn seeded(num_frames: u64) -> (PhysMem, PageFrameAllocator) {
    // Enough modelled memory for the seeded frames starting at 0x1000.
    let words = ((num_frames + 2) * 0x1000 / 8) as usize;
    let mut mem = PhysMem::new(words);
    let mut alloc = PageFrameAllocator::new(0x1000);
    let mut addr = 0x1000u64;
    for _ in 0..num_frames {
        alloc.free_frame(&mut mem, addr).unwrap();
        addr += 0x1000;
    }
    (mem, alloc)
}

#[test]
fn identity_map_1gib_round_trip() {
    let (mut mem, mut alloc) = seeded(8);
    let mut pt = PageTable::new(&mut mem, &mut alloc).unwrap();
    pt.map_1gib_page(&mut mem, &mut alloc, 0, VirtualAddr(0), MemoryType::device()).unwrap();
    assert_eq!(pt.virt_to_phys(&mem, VirtualAddr(0x12345678)), Ok(0x12345678));
    assert_eq!(pt.virt_to_phys(&mem, VirtualAddr(0)), Ok(0));
    assert_eq!(pt.virt_to_phys(&mem, VirtualAddr(0x3FFFFFFF)), Ok(0x3FFFFFFF));
}

#[test]
fn second_gib_maps_independently() {
    let (mut mem, mut alloc) = seeded(8);
    let mut pt = PageTable::new(&mut mem, &mut alloc).unwrap();
    pt.map_1gib_page(&mut mem, &mut alloc, 0, VirtualAddr(0), MemoryType::device()).unwrap();
    pt.map_1gib_page(&mut mem, &mut alloc, 0x40000000, VirtualAddr(0x40000000), MemoryType::device())
        .unwrap();
    assert_eq!(pt.virt_to_phys(&mem, VirtualAddr(0x4FFFFFFF)), Ok(0x4FFFFFFF));
}

#[test]
fn unmapped_address_fails_to_translate() {
    let (mut mem, mut alloc) = seeded(4);
    let pt = PageTable::new(&mut mem, &mut alloc).unwrap();
    assert_eq!(pt.virt_to_phys(&mem, VirtualAddr(0x1234)), Err(()));
}

#[test]
fn double_map_is_rejected_and_changes_nothing() {
    let (mut mem, mut alloc) = seeded(8);
    let mut pt = PageTable::new(&mut mem, &mut alloc).unwrap();
    pt.map_1gib_page(&mut mem, &mut alloc, 0, VirtualAddr(0), MemoryType::device()).unwrap();
    let free_before = alloc.num_free_frames();
    let res = pt.map_1gib_page(
        &mut mem,
        &mut alloc,
        0x40000000,
        VirtualAddr(0),
        MemoryType::device(),
    );
    assert_eq!(res, Err(BootError::AlreadyMapped));
    assert_eq!(alloc.num_free_frames(), free_before);
    // The old mapping still stands.
    assert_eq!(pt.virt_to_phys(&mem, VirtualAddr(0x123)), Ok(0x123));
}

#[test]
fn misaligned_map_is_rejected() {
    let (mut mem, mut alloc) = seeded(4);
    let mut pt = PageTable::new(&mut mem, &mut alloc).unwrap();
    let res = pt.map_1gib_page(&mut mem, &mut alloc, 0x1000, VirtualAddr(0), MemoryType::device());
    assert_eq!(res, Err(BootError::Misaligned));
    let res = pt.map_1gib_page(&mut mem, &mut alloc, 0, VirtualAddr(0x1000), MemoryType::device());
    assert_eq!(res, Err(BootError::Misaligned));
}

#[test]
fn out_of_frames_is_reported() {
    let mut mem = PhysMem::new(0x4000 / 8);
    let mut alloc = PageFrameAllocator::new(0x1000);
    assert_eq!(
        PageTable::new(&mut mem, &mut alloc).map(|pt| pt.as_raw_ptr()),
        Err(BootError::OutOfFrames)
    );
}

#[test]
fn unmap_1gib_clears_only_its_block() {
    let (mut mem, mut alloc) = seeded(8);
    let mut pt = PageTable::new(&mut mem, &mut alloc).unwrap();
    pt.map_1gib_page(&mut mem, &mut alloc, 0, VirtualAddr(0), MemoryType::device()).unwrap();
    pt.map_1gib_page(&mut mem, &mut alloc, 0x40000000, VirtualAddr(0x40000000), MemoryType::device())
        .unwrap();
    assert!(pt.unmap_1gib_page(&mut mem, VirtualAddr(0)));
    assert_eq!(pt.virt_to_phys(&mem, VirtualAddr(0x123)), Err(()));
    assert_eq!(pt.virt_to_phys(&mem, VirtualAddr(0x40000123)), Ok(0x40000123));
    // Unmapping again fails: nothing is mapped there any more.
    assert!(!pt.unmap_1gib_page(&mut mem, VirtualAddr(0)));
    // Misaligned unmap fails.
    assert!(!pt.unmap_1gib_page(&mut mem, VirtualAddr(0x40000800)));
}

#[test]
fn destroy_returns_all_table_frames() {
    let (mut mem, mut alloc) = seeded(8);
    let before = alloc.num_free_frames();
    let mut pt = PageTable::new(&mut mem, &mut alloc).unwrap();
    pt.map_1gib_page(&mut mem, &mut alloc, 0, VirtualAddr(0), MemoryType::device()).unwrap();
    pt.map_1gib_page(&mut mem, &mut alloc, 0x40000000, VirtualAddr(0x40000000), MemoryType::device())
        .unwrap();
    // Root plus one level-1 table were drawn from the allocator.
    assert_eq!(alloc.num_free_frames(), before - 2);
    let frames = pt.table_frames();
    assert_eq!(frames.len(), 2);
    pt.destroy(&mut mem, &mut alloc);
    assert_eq!(alloc.num_free_frames(), before);
}

#[test]
fn higher_half_kernel_pages_round_trip() {
    let (mut mem, mut alloc) = seeded(16);
    let mut ttbr1 = PageTable::new(&mut mem, &mut alloc).unwrap();
    let kernel_virt_start = 0xFFFF_0000_0000_0000u64;
    let kernel_phys_start = 0x80000u64;
    for k in 0..8u64 {
        ttbr1
            .map_page(
                &mut mem,
                &mut alloc,
                kernel_phys_start + 4096 * k,
                VirtualAddr(kernel_virt_start + 4096 * k),
                MemoryType::normal_cacheable(),
            )
            .unwrap();
    }
    for k in 0..8u64 {
        assert_eq!(
            ttbr1.virt_to_phys(&mem, VirtualAddr(kernel_virt_start + 4096 * k)),
            Ok(kernel_phys_start + 4096 * k)
        );
    }
    // The page after the last one is unmapped.
    assert_eq!(
        ttbr1.virt_to_phys(&mem, VirtualAddr(kernel_virt_start + 4096 * 8)),
        Err(())
    );
}

#[test]
fn two_mib_blocks_round_trip() {
    let (mut mem, mut alloc) = seeded(8);
    let mut pt = PageTable::new(&mut mem, &mut alloc).unwrap();
    pt.map_2mib_page(&mut mem, &mut alloc, 0x20_0000, VirtualAddr(0x20_0000), MemoryType::device())
        .unwrap();
    assert_eq!(pt.virt_to_phys(&mem, VirtualAddr(0x23_4567)), Ok(0x23_4567));
    assert_eq!(pt.virt_to_phys(&mem, VirtualAddr(0x1F_FFFF)), Err(()));
    // The slot is taken now.
    assert_eq!(
        pt.map_2mib_page(&mut mem, &mut alloc, 0, VirtualAddr(0x20_0000), MemoryType::device()),
        Err(BootError::AlreadyMapped)
    );
    // Misalignment is rejected.
    assert_eq!(
        pt.map_2mib_page(&mut mem, &mut alloc, 0x1000, VirtualAddr(0x40_0000), MemoryType::device()),
        Err(BootError::Misaligned)
    );
}

#[test]
fn a_block_in_the_way_blocks_page_mapping() {
    let (mut mem, mut alloc) = seeded(8);
    let mut pt = PageTable::new(&mut mem, &mut alloc).unwrap();
    pt.map_1gib_page(&mut mem, &mut alloc, 0, VirtualAddr(0), MemoryType::device()).unwrap();
    let res = pt.map_page(&mut mem, &mut alloc, 0x5000, VirtualAddr(0x5000), MemoryType::device());
    assert_eq!(res, Err(BootError::AlreadyMapped));
}

#[test]
fn destroy_returns_frames_after_deep_maps() {
    let (mut mem, mut alloc) = seeded(16);
    let before = alloc.num_free_frames();
    let mut pt = PageTable::new(&mut mem, &mut alloc).unwrap();
    pt.map_page(&mut mem, &mut alloc, 0x6000, VirtualAddr(0x6000), MemoryType::device()).unwrap();
    pt.map_page(&mut mem, &mut alloc, 0x7000, VirtualAddr(0x7000), MemoryType::device()).unwrap();
    // Root plus one table per level were drawn.
    assert_eq!(alloc.num_free_frames(), before - 4);
    pt.destroy(&mut mem, &mut alloc);
    assert_eq!(alloc.num_free_frames(), before);
}

#[test]
fn root_address_is_exposed_for_ttbr() {
    let (mut mem, mut alloc) = seeded(4);
    let pt = PageTable::new(&mut mem, &mut alloc).unwrap();
    let root = pt.as_raw_ptr();
    assert!(root != 0 && root % 0x1000 == 0);
}

#[test]
fn memory_types_match_the_mair_layout() {
    assert_eq!(MemoryType::device().0, 0);
    assert_eq!(MemoryType::normal_cacheable().0, 1);
}
