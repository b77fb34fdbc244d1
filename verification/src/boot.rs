//! The boot driver's computations: building the memory map from the
//! discovered RAM ranges and the fixed reservations, seeding the frame
//! allocator from the free ranges, the reservation-accounting sanity
//! check, and the constants of the MMU programming and the
//! secondary-core release protocol.
//!
//! Reading the device tree pointer, querying the firmware and touching
//! hardware registers happen outside this crate; everything here works
//! on the plain values those steps produce.
use vstd::prelude::*;

use crate::errors::BootError;
use crate::frame_alloc::PageFrameAllocator;
use crate::mem_size::MemSize;
use crate::memory_map::{
    add_entry_spec, entry_wf, kind_bytes, mk_entry, EntryType, MemoryMap, MemoryMapEntry,
    MAX_ENTRIES,
};
use crate::page_table::{
    lemma_mapped_offset_4k, walk_spec, MemoryType, PageTable, VirtualAddr, VA_PAGE_MASK,
};
use crate::phys::PhysMem;
use crate::PAGE_SZ;

verus! {

/// Rounds an address up to the next page boundary.
pub fn round_up_page(addr: u64) -> (r: u64)
    requires
        addr <= u64::MAX - 0xFFF,
    ensures
        r == page_up(addr),
        r % PAGE_SZ == 0,
        addr <= r < addr + PAGE_SZ,
{
    if addr % PAGE_SZ == 0 {
        addr
    } else {
        addr - addr % PAGE_SZ + PAGE_SZ
    }
}

/// The plain addresses the reservation step works from: where the
/// device tree sits, what the firmware keeps, where the peripheral
/// window and the bootloader's own stack and image lie, and the
/// per-core kernel stack size.
#[derive(Clone, Copy, PartialEq, Eq, Structural, Debug)]
pub struct BootLayout {
    pub stack_size: u64,
    pub dtb_base: u64,
    pub dtb_size: u64,
    pub gpu_base: u64,
    pub gpu_size: u64,
    pub mmio_base: u64,
    pub mmio_end: u64,
    pub bl_stack_start: u64,
    pub bl_stack_end: u64,
    pub bl_start: u64,
    pub bl_end: u64,
}

/// The layout's numbers are usable: ordered windows, and sums that
/// stay inside the address space.
pub open spec fn layout_wf(lay: BootLayout) -> bool {
    &&& lay.dtb_base + lay.dtb_size <= u64::MAX - 0xFFF
    &&& lay.gpu_base + lay.gpu_size <= u64::MAX
    &&& lay.mmio_base <= lay.mmio_end
    &&& lay.bl_stack_start <= lay.bl_stack_end
    &&& lay.bl_start <= lay.bl_end
    &&& lay.bl_end <= u64::MAX - 0xFFF
    &&& 0x1000 + 4 * lay.stack_size <= u64::MAX
}

/// An address rounded down to its page.
pub open spec fn page_down(a: u64) -> u64 {
    (a - a % PAGE_SZ) as u64
}

/// An address rounded up to the next page boundary.
pub open spec fn page_up(a: u64) -> u64 {
    if a % PAGE_SZ == 0 {
        a
    } else {
        (a - a % PAGE_SZ + PAGE_SZ) as u64
    }
}

/// Rounding down keeps order.
pub proof fn lemma_page_down_mono(a: u64, b: u64)
    requires
        a <= b,
    ensures
        page_down(a) <= page_down(b),
{
    assert(a - a % 0x1000 <= b - b % 0x1000) by (nonlinear_arith)
        requires
            a <= b,
    ;
}

/// The `Free` entry a discovered RAM range enters the map as.
pub open spec fn free_entry_of(r: (u64, u64)) -> MemoryMapEntry {
    mk_entry(r.0, (r.0 + r.1) as u64, EntryType::Free)
}

/// The `Free` entries of all discovered ranges, in order.
pub open spec fn free_entries(ranges: Seq<(u64, u64)>) -> Seq<MemoryMapEntry> {
    Seq::new(ranges.len(), |i: int| free_entry_of(ranges[i]))
}

/// The highest end address over the discovered ranges.
pub open spec fn max_end(ranges: Seq<(u64, u64)>) -> u64
    decreases ranges.len(),
{
    if ranges.len() == 0 {
        0
    } else {
        let m = max_end(ranges.drop_last());
        let e = (ranges.last().0 + ranges.last().1) as u64;
        if e > m {
            e
        } else {
            m
        }
    }
}

/// The documented reservations, in the order they are claimed: the
/// null and park page, the four staged kernel stacks, the device
/// tree's pages, the firmware carve-out, the peripheral window, and
/// the bootloader's stack and image pages.
pub open spec fn reservations(lay: BootLayout) -> Seq<MemoryMapEntry> {
    seq![
        mk_entry(0, 0x1000, EntryType::Firmware),
        mk_entry(0x1000, (0x1000 + 4 * lay.stack_size) as u64, EntryType::Stack),
        mk_entry(
            page_down(lay.dtb_base),
            page_up((lay.dtb_base + lay.dtb_size) as u64),
            EntryType::DtReserved,
        ),
        mk_entry(lay.gpu_base, (lay.gpu_base + lay.gpu_size) as u64, EntryType::Firmware),
        mk_entry(lay.mmio_base, lay.mmio_end, EntryType::Mmio),
        mk_entry(
            page_down(lay.bl_stack_start),
            page_down(lay.bl_stack_end),
            EntryType::Bootloader,
        ),
        mk_entry(page_down(lay.bl_start), page_up(lay.bl_end), EntryType::Bootloader),
    ]
}

/// All the entries discovery adds, in order.
pub open spec fn boot_entries(ranges: Seq<(u64, u64)>, lay: BootLayout) -> Seq<MemoryMapEntry> {
    free_entries(ranges) + reservations(lay)
}

/// Folding entries into a map with `add_entry`, skipping empty
/// ranges.
pub open spec fn entries_fold(s: Seq<MemoryMapEntry>, es: Seq<MemoryMapEntry>) -> Seq<
    MemoryMapEntry,
>
    decreases es.len(),
{
    if es.len() == 0 {
        s
    } else if es.first().base_addr < es.first().end_addr {
        entries_fold(add_entry_spec(s, es.first()), es.drop_first())
    } else {
        entries_fold(s, es.drop_first())
    }
}

/// Every step of the fold stays within the fixed capacity.
pub open spec fn fold_fits(s: Seq<MemoryMapEntry>, es: Seq<MemoryMapEntry>) -> bool
    decreases es.len(),
{
    if es.len() == 0 {
        true
    } else if es.first().base_addr < es.first().end_addr {
        add_entry_spec(s, es.first()).len() <= MAX_ENTRIES && fold_fits(
            add_entry_spec(s, es.first()),
            es.drop_first(),
        )
    } else {
        fold_fits(s, es.drop_first())
    }
}

/// Folds compose over concatenation.
pub proof fn lemma_fold_append(
    s: Seq<MemoryMapEntry>,
    es1: Seq<MemoryMapEntry>,
    es2: Seq<MemoryMapEntry>,
)
    ensures
        entries_fold(s, es1 + es2) == entries_fold(entries_fold(s, es1), es2),
        fold_fits(s, es1 + es2) == (fold_fits(s, es1) && (fold_fits(s, es1) ==> fold_fits(
            entries_fold(s, es1),
            es2,
        ))),
    decreases es1.len(),
{
    if es1.len() == 0 {
        assert(es1 + es2 =~= es2);
    } else {
        assert((es1 + es2).first() == es1.first());
        assert((es1 + es2).drop_first() =~= es1.drop_first() + es2);
        if es1.first().base_addr < es1.first().end_addr {
            lemma_fold_append(add_entry_spec(s, es1.first()), es1.drop_first(), es2);
        } else {
            lemma_fold_append(s, es1.drop_first(), es2);
        }
    }
}

/// Builds the boot memory map: the discovered RAM ranges enter as
/// `Free`, then the documented reservations claim their parts, in
/// order.  The result is exactly the `add_entry` fold of those
/// entries; the total extent is the highest end of any RAM range; a
/// tree with no memory is malformed; the map reports `MapFull`
/// exactly when some step of the fold would overflow the capacity.
pub fn reserve_memory_regions(ranges: &Vec<(u64, u64)>, lay: &BootLayout) -> (r: Result<
    MemoryMap,
    BootError,
>)
    requires
        layout_wf(*lay),
        forall|k: int|
            0 <= k < ranges@.len() ==> (#[trigger] ranges@[k]).0 + ranges@[k].1 <= u64::MAX,
    ensures
        r is Ok <==> (max_end(ranges@) > 0 && fold_fits(
            Seq::<MemoryMapEntry>::empty(),
            boot_entries(ranges@, *lay),
        )),
        r == Err::<MemoryMap, BootError>(BootError::DtbParse) <==> (max_end(ranges@) == 0
            && fold_fits(Seq::<MemoryMapEntry>::empty(), free_entries(ranges@))),
        r is Err ==> (r == Err::<MemoryMap, BootError>(BootError::MapFull) || r == Err::<
            MemoryMap,
            BootError,
        >(BootError::DtbParse)),
        r is Ok ==> ({
            let m = r->Ok_0;
            &&& m@ == entries_fold(Seq::<MemoryMapEntry>::empty(), boot_entries(ranges@, *lay))
            &&& m.inv()
            &&& m.total_mem_spec() == max_end(ranges@)
            &&& m.total_mem_spec() > 0
        }),
{
    let ghost fe = free_entries(ranges@);
    let ghost rs = reservations(*lay);
    let ghost all = boot_entries(ranges@, *lay);
    let ghost emp = Seq::<MemoryMapEntry>::empty();
    let mut map = MemoryMap::new();
    let mut max_addr: u64 = 0;

    // The discovered RAM ranges.
    let n = ranges.len();
    let mut i: usize = 0;
    proof {
        assert(fe.skip(0) =~= fe);
        assert(ranges@.take(0) =~= Seq::<(u64, u64)>::empty());
    }
    while i < n
        invariant
            0 <= i <= n,
            n == ranges@.len(),
            fe == free_entries(ranges@),
            rs == reservations(*lay),
            all == boot_entries(ranges@, *lay),
            emp == Seq::<MemoryMapEntry>::empty(),
            map.inv(),
            map.total_mem_spec() == 0,
            forall|k: int|
                0 <= k < ranges@.len() ==> (#[trigger] ranges@[k]).0 + ranges@[k].1 <= u64::MAX,
            entries_fold(map@, fe.skip(i as int)) == entries_fold(emp, fe),
            fold_fits(emp, fe) <==> fold_fits(map@, fe.skip(i as int)),
            max_addr == max_end(ranges@.take(i as int)),
        decreases n - i,
    {
        let (base, size) = ranges[i];
        let ghost e = free_entry_of(ranges@[i as int]);
        proof {
            let rest = fe.skip(i as int);
            assert(rest.first() == fe[i as int]);
            assert(fe[i as int] == e);
            assert(rest.drop_first() =~= fe.skip(i as int + 1));
            assert(ranges@.take(i as int + 1).drop_last() =~= ranges@.take(i as int));
            assert(ranges@.take(i as int + 1).last() == ranges@[i as int]);
        }
        if size > 0 {
            let ghost pre = map@;
            let res = map.add_entry(
                MemoryMapEntry {
                    base_addr: base,
                    size: MemSize { bytes: size },
                    end_addr: base + size,
                    entry_type: EntryType::Free,
                },
            );
            if res.is_err() {
                proof {
                    assert(!fold_fits(map@, fe.skip(i as int)));
                    assert(!fold_fits(emp, fe));
                    lemma_fold_append(emp, fe, rs);
                    assert(all =~= fe + rs);
                    assert(!fold_fits(emp, all));
                }
                return Err(BootError::MapFull);
            }
            proof {
                assert(map@ == add_entry_spec(pre, e));
            }
        }
        if base + size > max_addr {
            max_addr = base + size;
        }
        i = i + 1;
    }
    proof {
        assert(fe.skip(n as int) =~= Seq::<MemoryMapEntry>::empty());
        assert(map@ == entries_fold(emp, fe));
        assert(fold_fits(emp, fe));
        assert(ranges@.take(n as int) =~= ranges@);
    }
    if max_addr == 0 {
        return Err(BootError::DtbParse);
    }

    // The documented reservations, in order.
    let mut resv: Vec<MemoryMapEntry> = Vec::new();
    resv.push(
        MemoryMapEntry {
            base_addr: 0,
            size: MemSize { bytes: 0x1000 },
            end_addr: 0x1000,
            entry_type: EntryType::Firmware,
        },
    );
    resv.push(
        MemoryMapEntry {
            base_addr: 0x1000,
            size: MemSize { bytes: 4 * lay.stack_size },
            end_addr: 0x1000 + 4 * lay.stack_size,
            entry_type: EntryType::Stack,
        },
    );
    let dtb_page_start = crate::get_page_addr(lay.dtb_base);
    let dtb_page_end = round_up_page(lay.dtb_base + lay.dtb_size);
    resv.push(
        MemoryMapEntry {
            base_addr: dtb_page_start,
            size: MemSize { bytes: dtb_page_end - dtb_page_start },
            end_addr: dtb_page_end,
            entry_type: EntryType::DtReserved,
        },
    );
    resv.push(
        MemoryMapEntry {
            base_addr: lay.gpu_base,
            size: MemSize { bytes: lay.gpu_size },
            end_addr: lay.gpu_base + lay.gpu_size,
            entry_type: EntryType::Firmware,
        },
    );
    resv.push(
        MemoryMapEntry {
            base_addr: lay.mmio_base,
            size: MemSize { bytes: lay.mmio_end - lay.mmio_base },
            end_addr: lay.mmio_end,
            entry_type: EntryType::Mmio,
        },
    );
    let st_start = crate::get_page_addr(lay.bl_stack_start);
    let st_end = crate::get_page_addr(lay.bl_stack_end);
    proof {
        lemma_page_down_mono(lay.bl_stack_start, lay.bl_stack_end);
    }
    resv.push(
        MemoryMapEntry {
            base_addr: st_start,
            size: MemSize { bytes: st_end - st_start },
            end_addr: st_end,
            entry_type: EntryType::Bootloader,
        },
    );
    let bl_page_start = crate::get_page_addr(lay.bl_start);
    let bl_page_end = round_up_page(lay.bl_end);
    resv.push(
        MemoryMapEntry {
            base_addr: bl_page_start,
            size: MemSize { bytes: bl_page_end - bl_page_start },
            end_addr: bl_page_end,
            entry_type: EntryType::Bootloader,
        },
    );
    proof {
        assert(resv@[0] == rs[0]);
        assert(resv@[1] == rs[1]);
        assert(resv@[2] == rs[2]);
        assert(resv@[3] == rs[3]);
        assert(resv@[4] == rs[4]);
        assert(resv@[5] == rs[5]);
        assert(resv@[6] == rs[6]);
        assert(resv@ =~= rs);
        assert(forall|k: int| 0 <= k < rs.len() ==> entry_wf(#[trigger] rs[k]));
        assert(rs.skip(0) =~= rs);
    }
    let ghost postfree = map@;
    let m2 = resv.len();
    i = 0;
    while i < m2
        invariant
            0 <= i <= m2,
            m2 == rs.len(),
            resv@ == rs,
            emp == Seq::<MemoryMapEntry>::empty(),
            fe == free_entries(ranges@),
            rs == reservations(*lay),
            all == boot_entries(ranges@, *lay),
            max_addr == max_end(ranges@),
            max_addr > 0,
            postfree == entries_fold(emp, fe),
            fold_fits(emp, fe),
            map.inv(),
            map.total_mem_spec() == 0,
            forall|k: int| 0 <= k < rs.len() ==> entry_wf(#[trigger] rs[k]),
            entries_fold(map@, rs.skip(i as int)) == entries_fold(postfree, rs),
            fold_fits(postfree, rs) <==> fold_fits(map@, rs.skip(i as int)),
        decreases m2 - i,
    {
        let e = resv[i];
        proof {
            let rest = rs.skip(i as int);
            assert(rest.first() == rs[i as int]);
            assert(rest.drop_first() =~= rs.skip(i as int + 1));
        }
        if e.base_addr < e.end_addr {
            let ghost pre = map@;
            if map.add_entry(e).is_err() {
                proof {
                    assert(!fold_fits(map@, rs.skip(i as int)));
                    assert(!fold_fits(postfree, rs));
                    lemma_fold_append(emp, fe, rs);
                    assert(all =~= fe + rs);
                    assert(!fold_fits(emp, all));
                }
                return Err(BootError::MapFull);
            }
            proof {
                assert(map@ == add_entry_spec(pre, rs[i as int]));
            }
        }
        i = i + 1;
    }
    proof {
        assert(rs.skip(m2 as int) =~= Seq::<MemoryMapEntry>::empty());
        assert(map@ == entries_fold(postfree, rs));
        assert(fold_fits(postfree, rs));
        lemma_fold_append(emp, fe, rs);
        assert(all =~= fe + rs);
        assert(map@ == entries_fold(emp, all));
        assert(fold_fits(emp, all));
    }
    map.set_total_mem(max_addr);
    Ok(map)
}

/// The seeding step hands this entry's frames to the allocator:
/// always the `Free` ranges, and the `Bootloader` ranges too when the
/// kernel reclaims them.
pub open spec fn seed_kind(t: EntryType, reclaim_bootloader: bool) -> bool {
    t == EntryType::Free || (reclaim_bootloader && t == EntryType::Bootloader)
}

/// `p` is a page-stepped address of one of the first `n` entries'
/// seeded ranges.
pub open spec fn reseedable_upto(
    map: Seq<MemoryMapEntry>,
    n: int,
    reclaim_bootloader: bool,
    p: u64,
) -> bool {
    &&& p != 0
    &&& p % PAGE_SZ == 0
    &&& exists|k: int|
        0 <= k < n && k < map.len() && seed_kind((#[trigger] map[k]).entry_type, reclaim_bootloader)
            && map[k].base_addr <= p < map[k].end_addr && (p - map[k].base_addr) % (
        PAGE_SZ as int) == 0
}

/// `p` is one of the non-null, page-aligned frame addresses that
/// stepping through the map's seeded ranges page by page visits.
pub open spec fn reseedable(map: Seq<MemoryMapEntry>, reclaim_bootloader: bool, p: u64) -> bool {
    reseedable_upto(map, map.len() as int, reclaim_bootloader, p)
}

/// `p` is a frame address that seeding the `Free` ranges visits.
pub open spec fn seedable(map: Seq<MemoryMapEntry>, p: u64) -> bool {
    reseedable(map, false, p)
}

/// Two addresses on the same page-stepped grid are at least a page
/// apart.
proof fn lemma_step_gap(p: u64, q: u64, base: u64)
    requires
        base <= q,
        base <= p,
        (p - base) % (PAGE_SZ as int) == 0,
        (q - base) % (PAGE_SZ as int) == 0,
        p > q,
    ensures
        p >= q + PAGE_SZ,
{
    assert(p - base >= q - base + 0x1000) by (nonlinear_arith)
        requires
            (p - base) % 0x1000 == 0,
            (q - base) % 0x1000 == 0,
            base <= q < p,
    ;
}

/// Seeds the allocator with every page-stepped frame of every `Free`
/// range — and, when the kernel reclaims the bootloader's memory, of
/// every `Bootloader` range — in ascending order; the null frame and
/// misaligned grids are skipped by the allocator's own rejection.
/// Afterwards the free list holds exactly the aligned, non-null
/// stepped addresses of the seeded ranges, and `count` of them.
pub fn reseed_from_map(
    map: &MemoryMap,
    alloc: &mut PageFrameAllocator,
    mem: &mut PhysMem,
    reclaim_bootloader: bool,
) -> (count: u64)
    requires
        map.inv(),
        old(alloc).inv(old(mem)@),
        old(alloc).page_size_spec() == PAGE_SZ,
        old(alloc).free_seq() == Seq::<u64>::empty(),
        forall|k: int|
            0 <= k < map@.len() && seed_kind(
                (#[trigger] map@[k]).entry_type,
                reclaim_bootloader,
            ) ==> map@[k].end_addr + PAGE_SZ <= old(mem).len_bytes(),
    ensures
        final(alloc).inv(final(mem)@),
        final(alloc).page_size_spec() == PAGE_SZ,
        final(alloc).num_free_spec() == count,
        final(mem)@.len() == old(mem)@.len(),
        forall|p: u64|
            #[trigger] final(alloc).free_seq().contains(p) <==> reseedable(
                map@,
                reclaim_bootloader,
                p,
            ),
{
    let entries = map.get_entries();
    let n = entries.len();
    let mut count: u64 = 0;
    let mut i: usize = 0;
    let ghost mut hi: u64 = 0;
    while i < n
        invariant
            0 <= i <= n,
            n == map@.len(),
            map.inv(),
            alloc.inv(mem@),
            alloc.page_size_spec() == PAGE_SZ,
            alloc.num_free_spec() == count,
            mem@.len() == old(mem)@.len(),
            entries@ == map@,
            forall|k: int|
                0 <= k < map@.len() && seed_kind(
                    (#[trigger] map@[k]).entry_type,
                    reclaim_bootloader,
                ) ==> map@[k].end_addr + PAGE_SZ <= old(mem).len_bytes(),
            forall|j: int|
                0 <= j < alloc.free_seq().len() ==> #[trigger] alloc.free_seq()[j] < hi,
            forall|k: int| i <= k < map@.len() ==> hi <= (#[trigger] map@[k]).base_addr,
            forall|p: u64|
                #[trigger] alloc.free_seq().contains(p) <==> reseedable_upto(
                    map@,
                    i as int,
                    reclaim_bootloader,
                    p,
                ),
        decreases n - i,
    {
        let e = &entries[i];
        let seeded_kind = match e.entry_type {
            EntryType::Free => true,
            EntryType::Bootloader => reclaim_bootloader,
            _ => false,
        };
        match seeded_kind {
            true => {
                let base = e.base_addr;
                let end = e.end_addr;
                proof {
                    assert(entry_wf(map@[i as int]));
                    assert(hi <= map@[i as int].base_addr);
                }
                let mut addr = base;
                while addr < end
                    invariant
                        base <= addr <= end,
                        addr == end || (addr - base) % (PAGE_SZ as int) == 0,
                        base == map@[i as int].base_addr,
                        end == map@[i as int].end_addr,
                        0 <= i < map@.len(),
                        seed_kind(map@[i as int].entry_type, reclaim_bootloader),
                        end + PAGE_SZ <= old(mem).len_bytes(),
                        alloc.inv(mem@),
                        alloc.page_size_spec() == PAGE_SZ,
                        alloc.num_free_spec() == count,
                        mem@.len() == old(mem)@.len(),
                        forall|j: int|
                            0 <= j < alloc.free_seq().len() ==> #[trigger] alloc.free_seq()[j]
                                < addr,
                        forall|p: u64|
                            #[trigger] alloc.free_seq().contains(p) <==> (reseedable_upto(
                                map@,
                                i as int,
                                reclaim_bootloader,
                                p,
                            ) || (p != 0 && p % PAGE_SZ == 0 && base <= p < addr && (p - base)
                                % (PAGE_SZ as int) == 0)),
                    decreases end - addr,
                {
                    let ghost fl0 = alloc.free_seq();
                    let res = alloc.free_frame(mem, addr);
                    let ghost next = if end - addr <= PAGE_SZ {
                        end
                    } else {
                        (addr + PAGE_SZ) as u64
                    };
                    proof {
                        // Between this stepped address and the next,
                        // the grid holds nothing new.
                        assert forall|p: u64|
                            #[trigger] alloc.free_seq().contains(p) implies (reseedable_upto(
                            map@,
                            i as int,
                            reclaim_bootloader,
                            p,
                        ) || (p != 0 && p % PAGE_SZ == 0 && base <= p < next && (p - base)
                            % (PAGE_SZ as int) == 0)) by {
                            if p != addr {
                                if res is Ok {
                                    let j = choose|j: int|
                                        0 <= j < alloc.free_seq().len() && alloc.free_seq()[j]
                                            == p;
                                    if j > 0 {
                                        assert(fl0[j - 1] == p);
                                        assert(fl0.contains(p));
                                    }
                                } else {
                                    assert(fl0.contains(p));
                                }
                            }
                        }
                        assert forall|p: u64|
                            (reseedable_upto(map@, i as int, reclaim_bootloader, p) || (p != 0
                                && p % PAGE_SZ == 0 && base <= p < next && (p - base) % (
                            PAGE_SZ as int) == 0)) implies #[trigger] alloc.free_seq().contains(
                            p,
                        ) by {
                            if reseedable_upto(map@, i as int, reclaim_bootloader, p) || (p != 0
                                && p % PAGE_SZ == 0 && base <= p < addr && (p - base) % (
                            PAGE_SZ as int) == 0) {
                                assert(fl0.contains(p));
                                if res is Ok {
                                    let j = choose|j: int|
                                        0 <= j < fl0.len() && fl0[j] == p;
                                    assert(alloc.free_seq()[j + 1] == p);
                                } else {
                                    assert(alloc.free_seq() == fl0);
                                }
                            } else {
                                // A new grid point: it can only be the
                                // address just handed over.
                                assert(p != 0 && p % PAGE_SZ == 0 && base <= p < next && (p
                                    - base) % (PAGE_SZ as int) == 0);
                                if p > addr {
                                    lemma_step_gap(p, addr, base);
                                    assert(false);
                                }
                                if p < addr {
                                    assert(false);
                                }
                                assert(p == addr);
                                assert(res is Ok);
                                assert(alloc.free_seq()[0] == addr);
                            }
                        }
                    }
                    if res.is_ok() {
                        count = count + 1;
                    }
                    if end - addr <= PAGE_SZ {
                        addr = end;
                    } else {
                        addr = addr + PAGE_SZ;
                    }
                }
                proof {
                    hi = map@[i as int].end_addr;
                    assert forall|p: u64|
                        #[trigger] alloc.free_seq().contains(p) <==> reseedable_upto(
                        map@,
                        i as int + 1,
                        reclaim_bootloader,
                        p,
                    ) by {
                        if alloc.free_seq().contains(p) {
                            if !reseedable_upto(map@, i as int, reclaim_bootloader, p) {
                                assert(seed_kind(map@[i as int].entry_type, reclaim_bootloader)
                                    && map@[i as int].base_addr <= p < map@[i as int].end_addr
                                    && (p - map@[i as int].base_addr) % (PAGE_SZ as int) == 0);
                            }
                        }
                        if reseedable_upto(map@, i as int + 1, reclaim_bootloader, p) {
                            let k = choose|k: int|
                                0 <= k < i as int + 1 && k < map@.len() && seed_kind(
                                    (#[trigger] map@[k]).entry_type,
                                    reclaim_bootloader,
                                ) && map@[k].base_addr <= p < map@[k].end_addr && (p - map@[
                                    k
                                ].base_addr) % (PAGE_SZ as int) == 0;
                            if k < i as int {
                                assert(reseedable_upto(map@, i as int, reclaim_bootloader, p));
                            }
                        }
                    }
                }
            },
            _ => {
                proof {
                    assert forall|p: u64|
                        #[trigger] alloc.free_seq().contains(p) <==> reseedable_upto(
                        map@,
                        i as int + 1,
                        reclaim_bootloader,
                        p,
                    ) by {
                        if reseedable_upto(map@, i as int + 1, reclaim_bootloader, p) {
                            let k = choose|k: int|
                                0 <= k < i as int + 1 && k < map@.len() && seed_kind(
                                    (#[trigger] map@[k]).entry_type,
                                    reclaim_bootloader,
                                ) && map@[k].base_addr <= p < map@[k].end_addr && (p - map@[
                                    k
                                ].base_addr) % (PAGE_SZ as int) == 0;
                            assert(k < i as int);
                            assert(reseedable_upto(map@, i as int, reclaim_bootloader, p));
                        }
                    }
                }
            },
        }
        proof {
            assert forall|k: int| i as int + 1 <= k < map@.len() implies hi
                <= (#[trigger] map@[k]).base_addr by {
                if hi > map@[i as int].base_addr {
                    assert(map@[i as int].end_addr <= map@[k].base_addr);
                }
            }
        }
        i = i + 1;
    }
    count
}

/// Two distinct aligned pages within the 48-bit space select
/// distinct translation-table paths.
proof fn lemma_pages_distinct(a: u64, b: u64)
    requires
        a % 4096 == 0,
        b % 4096 == 0,
        a < b,
        b - a < 0x1_0000_0000_0000,
    ensures
        a & VA_PAGE_MASK != b & VA_PAGE_MASK,
{
    assert(a & 0xFFFF_FFFF_F000 != b & 0xFFFF_FFFF_F000) by (bit_vector)
        requires
            a % 4096 == 0,
            b % 4096 == 0,
            a < b,
            b - a < 0x1_0000_0000_0000,
    ;
}

/// Maps `num_pages` consecutive 4 KiB pages from `phys_start` onto
/// `virt_start` — the window-mapping loop behind the kernel image,
/// the per-core stacks and the heap.  On success every page of the
/// window translates to its physical counterpart.
pub fn map_window(
    pt: &mut PageTable,
    mem: &mut PhysMem,
    alloc: &mut PageFrameAllocator,
    phys_start: u64,
    virt_start: u64,
    num_pages: u64,
    mem_type: MemoryType,
) -> (r: Result<(), BootError>)
    requires
        old(pt).wf(old(mem)@),
        old(alloc).inv(old(mem)@),
        old(alloc).page_size_spec() == 4096,
        old(pt).disjoint_from(old(alloc)),
        phys_start % 4096 == 0,
        virt_start % 4096 == 0,
        num_pages <= 0xFFF_FFFF,
        phys_start + num_pages * 4096 < 0x1_0000_0000_0000,
        virt_start + num_pages * 4096 <= u64::MAX,
        mem_type.0 < 8,
    ensures
        final(pt).root_spec() == old(pt).root_spec(),
        final(alloc).page_size_spec() == 4096,
        final(mem)@.len() == old(mem)@.len(),
        final(pt).wf(final(mem)@),
        final(alloc).inv(final(mem)@),
        final(pt).disjoint_from(final(alloc)),
        final(alloc).num_free_spec() + final(pt).num_tables() == old(alloc).num_free_spec()
            + old(pt).num_tables(),
        r is Ok ==> forall|k: u64|
            k < num_pages ==> #[trigger] walk_spec(
                final(mem)@,
                old(pt).root_spec(),
                (virt_start + k * 4096) as u64,
            ) == Some((phys_start + k * 4096) as u64),
        r is Err ==> (r == Err::<(), BootError>(BootError::AlreadyMapped) || r == Err::<
            (),
            BootError,
        >(BootError::OutOfFrames)),
{
    let ghost root = pt.root_spec();
    let mut i: u64 = 0;
    while i < num_pages
        invariant
            0 <= i <= num_pages,
            root == old(pt).root_spec(),
            pt.root_spec() == root,
            pt.wf(mem@),
            alloc.inv(mem@),
            alloc.page_size_spec() == 4096,
            pt.disjoint_from(alloc),
            mem@.len() == old(mem)@.len(),
            alloc.num_free_spec() + pt.num_tables() == old(alloc).num_free_spec() + old(
                pt,
            ).num_tables(),
            phys_start % 4096 == 0,
            virt_start % 4096 == 0,
            num_pages <= 0xFFF_FFFF,
            phys_start + num_pages * 4096 < 0x1_0000_0000_0000,
            virt_start + num_pages * 4096 <= u64::MAX,
            mem_type.0 < 8,
            forall|k: u64|
                k < i ==> #[trigger] walk_spec(mem@, root, (virt_start + k * 4096) as u64)
                    == Some((phys_start + k * 4096) as u64),
        decreases num_pages - i,
    {
        proof {
            assert(i * 4096 < num_pages * 4096 && (i * 4096) % 4096 == 0) by (nonlinear_arith)
                requires
                    i < num_pages,
            ;
        }
        let va = virt_start + i * 4096;
        let pa = phys_start + i * 4096;
        proof {
            assert(va % 4096 == 0 && pa % 4096 == 0) by (nonlinear_arith)
                requires
                    virt_start % 4096 == 0,
                    phys_start % 4096 == 0,
                    va == virt_start + i * 4096,
                    pa == phys_start + i * 4096,
            ;
        }
        let ghost m_pre = mem@;
        let res = pt.map_page(mem, alloc, pa, VirtualAddr(va), mem_type);
        match res {
            Ok(_) => {},
            Err(BootError::AlreadyMapped) => {
                return Err(BootError::AlreadyMapped);
            },
            Err(_) => {
                return Err(BootError::OutOfFrames);
            },
        }
        proof {
            lemma_mapped_offset_4k(pa, va, 0);
            assert(walk_spec(mem@, root, va) == Some(pa));
            assert forall|k: u64|
                k < i implies #[trigger] walk_spec(mem@, root, (virt_start + k * 4096) as u64)
                == Some((phys_start + k * 4096) as u64) by {
                let vak = (virt_start + k * 4096) as u64;
                assert(k * 4096 < i * 4096 && (k * 4096) % 4096 == 0) by (nonlinear_arith)
                    requires
                        k < i,
                ;
                assert(vak % 4096 == 0) by (nonlinear_arith)
                    requires
                        virt_start % 4096 == 0,
                        vak == virt_start + k * 4096,
                ;
                lemma_pages_distinct(vak, va);
                assert(walk_spec(mem@, root, vak) == walk_spec(m_pre, root, vak));
            }
        }
        i = i + 1;
    }
    Ok(())
}

/// Seeds the allocator from the map's `Free` ranges alone, as the
/// bootloader does before building any tables.
pub fn seed_allocator(map: &MemoryMap, alloc: &mut PageFrameAllocator, mem: &mut PhysMem) -> (
    count: u64)
    requires
        map.inv(),
        old(alloc).inv(old(mem)@),
        old(alloc).page_size_spec() == PAGE_SZ,
        old(alloc).free_seq() == Seq::<u64>::empty(),
        forall|k: int|
            0 <= k < map@.len() && (#[trigger] map@[k]).entry_type == EntryType::Free ==> map@[
                k
            ].end_addr + PAGE_SZ <= old(mem).len_bytes(),
    ensures
        final(alloc).inv(final(mem)@),
        final(alloc).page_size_spec() == PAGE_SZ,
        final(alloc).num_free_spec() == count,
        final(mem)@.len() == old(mem)@.len(),
        forall|p: u64| #[trigger] final(alloc).free_seq().contains(p) <==> seedable(map@, p),
{
    reseed_from_map(map, alloc, mem, false)
}

/// Sum of the sizes of the entries the bootloader reserved for its
/// own allocations.
pub fn bl_reserved_bytes(map: &MemoryMap) -> (r: u64)
    requires
        map.inv(),
    ensures
        r == kind_bytes(map@, EntryType::BLReserved),
{
    let entries = map.get_entries();
    let n = entries.len();
    let mut bytes: u64 = 0;
    let mut i: usize = 0;
    while i < n
        invariant
            0 <= i <= n,
            n == map@.len(),
            map.inv(),
            entries@ == map@,
            bytes == kind_bytes(map@.take(i as int), EntryType::BLReserved),
            bytes <= if i == 0 {
                0int
            } else {
                map@[i as int - 1].end_addr as int
            },
        decreases n - i,
    {
        proof {
            assert(map@.take(i as int + 1).drop_last() =~= map@.take(i as int));
            assert(map@.take(i as int + 1).last() == map@[i as int]);
            if i > 0 {
                assert(map@[i as int - 1].end_addr <= map@[i as int].base_addr);
            }
            assert(crate::memory_map::entry_wf(map@[i as int]));
        }
        let e = &entries[i];
        match e.entry_type {
            EntryType::BLReserved => {
                bytes = bytes + e.size.bytes;
            },
            _ => {},
        }
        i = i + 1;
    }
    proof {
        assert(map@.take(n as int) =~= map@);
    }
    bytes
}

/// The mandatory reservation-accounting check before hand-off: the
/// bootloader-reserved bytes in the map must account page for page for
/// every frame drawn from the allocator since seeding.
pub fn sanity_check(map: &MemoryMap, start_free_frames: u64, current_free_frames: u64) -> (r:
    bool)
    requires
        map.inv(),
        current_free_frames <= start_free_frames,
    ensures
        r == (kind_bytes(map@, EntryType::BLReserved) / PAGE_SZ as int == start_free_frames
            - current_free_frames),
{
    let bytes = bl_reserved_bytes(map);
    bytes / PAGE_SZ == start_free_frames - current_free_frames
}

/// The first `Free` range large enough to hold a kernel image of
/// `need` bytes, if any.
pub fn find_free_region(map: &MemoryMap, need: u64) -> (r: Option<MemoryMapEntry>)
    requires
        map.inv(),
    ensures
        match r {
            Some(e) => exists|k: int|
                0 <= k < map@.len() && #[trigger] map@[k] == e && e.entry_type == EntryType::Free
                    && e.size.bytes >= need,
            None => forall|k: int|
                0 <= k < map@.len() ==> !((#[trigger] map@[k]).entry_type == EntryType::Free
                    && map@[k].size.bytes >= need),
        },
{
    let entries = map.get_entries();
    let n = entries.len();
    let mut i: usize = 0;
    while i < n
        invariant
            0 <= i <= n,
            n == map@.len(),
            entries@ == map@,
            forall|k: int|
                0 <= k < i ==> !((#[trigger] map@[k]).entry_type == EntryType::Free
                    && map@[k].size.bytes >= need),
        decreases n - i,
    {
        let e = &entries[i];
        let is_free = match e.entry_type {
            EntryType::Free => true,
            _ => false,
        };
        if is_free && e.size.bytes >= need {
            return Some(*e);
        }
        i = i + 1;
    }
    None
}

/// The park-page mailbox register a secondary core spins on.
pub fn core_mailbox_register(core: u64) -> (r: u64)
    requires
        1 <= core <= 3,
    ensures
        core == 1 ==> r == 0xE0,
        core == 2 ==> r == 0xE8,
        core == 3 ==> r == 0xF0,
{
    0xD8 + 8 * core
}

/// The low-memory staging address of a secondary core's argument
/// block; its stack pointer, and the two table roots, sit at offsets
/// 0, 8 and 16.
pub fn core_arg_address(core: u64) -> (r: u64)
    requires
        1 <= core <= 3,
    ensures
        r == 0xFA0 + 32 * (core - 1),
{
    0xFA0 + 32 * (core - 1)
}

/// The memory-attribute register value: index 0 is device memory
/// (non-gathering, non-reordering, no early write-acknowledge, 0x00),
/// index 1 is normal write-back non-transient read/write-allocating
/// memory (0xFF).
pub fn mair_value() -> (r: u64)
    ensures
        r == 0xFF00,
{
    0xFF00
}

/// The translation-control register value: 4 KiB granule for both
/// halves, 48-bit intermediate physical addresses, and 48-bit virtual
/// address spaces (T0SZ = T1SZ = 16).
pub fn tcr_value() -> (r: u64)
    ensures
        r == 0x5_8010_0010,
{
    0x5_8010_0010
}

/// The system-control register bits to set when turning the MMU on:
/// MMU enable, data cache, instruction cache.
pub fn sctlr_enable_bits() -> (r: u64)
    ensures
        r == 0x1005,
{
    0x1005
}

} // verus!
