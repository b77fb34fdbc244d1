use lantern_boot::errors::BootError;
use lantern_boot::frame_alloc::PageFrameAllocator;
use lantern_boot::phys::PhysMem;

#[test]
fn frame_round_trip_is_lifo_and_zeroed() {
    // 128 KiB of modelled memory.
    let mut mem = PhysMem::new(0x20000 / 8);
    let mut alloc = PageFrameAllocator::new(0x1000);
    assert_eq!(alloc.num_free_frames(), 0);

    alloc.free_frame(&mut mem, 0x10000).unwrap();
    alloc.free_frame(&mut mem, 0x11000).unwrap();
    alloc.free_frame(&mut mem, 0x12000).unwrap();
    assert_eq!(alloc.num_free_frames(), 3);

    let a = alloc.alloc_frame(&mut mem).unwrap();
    let b = alloc.alloc_frame(&mut mem).unwrap();
    let c = alloc.alloc_frame(&mut mem).unwrap();
    assert_eq!(a, 0x12000);
    assert_eq!(b, 0x11000);
    assert_eq!(c, 0x10000);
    assert_eq!(alloc.num_free_frames(), 0);

    // Each pointer came back exactly once.
    assert!(a != b && b != c && a != c);

    // Every word of each returned frame is zero.
    for frame in [a, b, c] {
        for w in 0..(0x1000 / 8) {
            assert_eq!(mem.read_word(frame + 8 * w), 0);
        }
    }

    // The list is empty now.
    assert_eq!(alloc.alloc_frame(&mut mem), Err(BootError::OutOfFrames));
}

#[test]
fn lifo_single_frame() {
    let mut mem = PhysMem::new(0x8000 / 8);
    let mut alloc = PageFrameAllocator::new(0x1000);
    alloc.free_frame(&mut mem, 0x3000).unwrap();
    let q = alloc.alloc_frame(&mut mem).unwrap();
    assert_eq!(q, 0x3000);
}

#[test]
fn null_and_misaligned_frames_are_rejected() {
    let mut mem = PhysMem::new(0x8000 / 8);
    let mut alloc = PageFrameAllocator::new(0x1000);
    alloc.free_frame(&mut mem, 0x2000).unwrap();
    assert_eq!(alloc.num_free_frames(), 1);

    assert_eq!(alloc.free_frame(&mut mem, 0), Err(BootError::NullFrame));
    assert_eq!(alloc.num_free_frames(), 1);

    assert_eq!(alloc.free_frame(&mut mem, 0x2800), Err(BootError::Misaligned));
    assert_eq!(alloc.num_free_frames(), 1);
}

#[test]
fn allocator_zeroes_dirty_frames() {
    let mut mem = PhysMem::new(0x8000 / 8);
    // Dirty a word inside the frame beyond the link slot.
    mem.write_word(0x2008, 0xDEAD_BEEF);
    let mut alloc = PageFrameAllocator::new(0x1000);
    alloc.free_frame(&mut mem, 0x2000).unwrap();
    let p = alloc.alloc_frame(&mut mem).unwrap();
    assert_eq!(p, 0x2000);
    for w in 0..(0x1000 / 8) {
        assert_eq!(mem.read_word(p + 8 * w), 0);
    }
}
