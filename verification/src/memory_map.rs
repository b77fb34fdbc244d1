//! The physical memory map: a bounded, sorted set of tagged,
//! non-overlapping half-open intervals over the 64-bit physical
//! address space.
//!
//! The map exists before any dynamic allocator does, so its capacity is
//! a fixed small bound.  `add_entry` coalesces a new range with
//! same-kind neighbours, absorbs ranges the new one fully contains,
//! trims or splits overlapped ranges, and inserts the result in sorted
//! position.  The whole algorithm is mirrored by spec functions, and
//! the exec code is proved to compute exactly their result.
use vstd::prelude::*;

use crate::errors::BootError;
use crate::mem_size::MemSize;

verus! {

/// Fixed capacity of the memory map (it predates any heap).
pub const MAX_ENTRIES: usize = 32;

/// The kind of a physical memory range.
#[derive(Clone, Copy, PartialEq, Eq, Structural, Debug)]
pub enum EntryType {
    /// Usable RAM.
    Free,
    /// Kernel stacks staged in low memory.
    Stack,
    /// Pages holding the device tree blob.
    DtReserved,
    /// Memory owned by firmware (GPU carve-out, park page).
    Firmware,
    /// The bootloader's own image and stack.
    Bootloader,
    /// Frames the bootloader allocated after starting.
    BLReserved,
    /// The loaded kernel image.
    Kernel,
    /// The memory-mapped peripheral window.
    Mmio,
}

impl Default for EntryType {
    fn default() -> (r: Self)
        ensures
            r == EntryType::Free,
    {
        EntryType::Free
    }
}

/// A half-open physical interval `[base_addr, end_addr)` with a
/// redundant size and a kind tag.
#[derive(Clone, Copy, PartialEq, Eq, Structural, Debug)]
pub struct MemoryMapEntry {
    pub base_addr: u64,
    pub size: MemSize,
    pub end_addr: u64,
    pub entry_type: EntryType,
}

impl Default for MemoryMapEntry {
    fn default() -> (r: Self)
        ensures
            r == (MemoryMapEntry {
                base_addr: 0,
                size: MemSize { bytes: 0 },
                end_addr: 0,
                entry_type: EntryType::Free,
            }),
    {
        MemoryMapEntry {
            base_addr: 0,
            size: MemSize { bytes: 0 },
            end_addr: 0,
            entry_type: EntryType::Free,
        }
    }
}

/// An entry is internally consistent: ordered bounds and a size field
/// that matches them.
pub open spec fn entry_wf(e: MemoryMapEntry) -> bool {
    &&& e.base_addr <= e.end_addr
    &&& e.size.bytes == e.end_addr - e.base_addr
}

/// Every entry of the sequence is internally consistent.
pub open spec fn entries_wf(s: Seq<MemoryMapEntry>) -> bool {
    forall|i: int| 0 <= i < s.len() ==> entry_wf(#[trigger] s[i])
}

/// Entries are sorted by base address and pairwise non-overlapping.
pub open spec fn sorted_disjoint(s: Seq<MemoryMapEntry>) -> bool {
    forall|i: int, j: int|
        0 <= i < j < s.len() ==> #[trigger] s[i].end_addr <= #[trigger] s[j].base_addr
}

/// No two adjacent entries share a kind with touching boundaries:
/// such neighbours must have been coalesced.
pub open spec fn coalesced_wf(s: Seq<MemoryMapEntry>) -> bool {
    forall|i: int|
        #![trigger s[i], s[i + 1]]
        0 <= i < s.len() - 1 ==> !(s[i].end_addr == s[i + 1].base_addr && s[i].entry_type == s[i
            + 1].entry_type)
}

/// Every entry covers at least one address.
pub open spec fn entries_pos(s: Seq<MemoryMapEntry>) -> bool {
    forall|i: int| 0 <= i < s.len() ==> (#[trigger] s[i]).base_addr < s[i].end_addr
}

/// The memory map invariant: consistent, non-empty entries, sorted
/// and disjoint, adjacent same-kind entries coalesced, within the
/// fixed capacity.
pub open spec fn map_inv(s: Seq<MemoryMapEntry>) -> bool {
    &&& entries_wf(s)
    &&& sorted_disjoint(s)
    &&& coalesced_wf(s)
    &&& entries_pos(s)
    &&& s.len() <= MAX_ENTRIES
}

/// The half-open range of `x` touches `e`'s base or end
/// (the overlap test the reduction step uses).
pub open spec fn overlaps_spec(x: MemoryMapEntry, e: MemoryMapEntry) -> bool {
    ||| x.base_addr <= e.base_addr < x.end_addr
    ||| x.base_addr <= e.end_addr < x.end_addr
}

/// Both bounds of `x` lie within `e`'s closed range (the removal test).
pub open spec fn absorbed_spec(e: MemoryMapEntry, x: MemoryMapEntry) -> bool {
    &&& e.base_addr <= x.base_addr <= e.end_addr
    &&& e.base_addr <= x.end_addr <= e.end_addr
}

/// The ranges of `x` and `e` share no address.
pub open spec fn ranges_disjoint(x: MemoryMapEntry, e: MemoryMapEntry) -> bool {
    x.end_addr <= e.base_addr || x.base_addr >= e.end_addr
}

/// Index of the first entry whose end touches `e`'s base with the same
/// kind, searching from `i`; `-1` if none.
pub open spec fn find_merge_low(s: Seq<MemoryMapEntry>, e: MemoryMapEntry, i: int) -> int
    decreases s.len() - i,
{
    if i < 0 || i >= s.len() {
        -1
    } else if s[i].end_addr == e.base_addr && s[i].entry_type == e.entry_type {
        i
    } else {
        find_merge_low(s, e, i + 1)
    }
}

/// Index of the first entry whose base touches `e`'s end with the same
/// kind, searching from `i`; `-1` if none.
pub open spec fn find_merge_high(s: Seq<MemoryMapEntry>, e: MemoryMapEntry, i: int) -> int
    decreases s.len() - i,
{
    if i < 0 || i >= s.len() {
        -1
    } else if s[i].base_addr == e.end_addr && s[i].entry_type == e.entry_type {
        i
    } else {
        find_merge_high(s, e, i + 1)
    }
}

/// Grows `e` downward over a same-kind neighbour that ends at its base.
pub open spec fn coalesce_low(s: Seq<MemoryMapEntry>, e: MemoryMapEntry) -> MemoryMapEntry {
    let i = find_merge_low(s, e, 0);
    if i >= 0 {
        MemoryMapEntry {
            base_addr: s[i].base_addr,
            size: MemSize { bytes: (e.end_addr - s[i].base_addr) as u64 },
            end_addr: e.end_addr,
            entry_type: e.entry_type,
        }
    } else {
        e
    }
}

/// Grows `e` upward over a same-kind neighbour that starts at its end.
pub open spec fn coalesce_high(s: Seq<MemoryMapEntry>, e: MemoryMapEntry) -> MemoryMapEntry {
    let i = find_merge_high(s, e, 0);
    if i >= 0 {
        MemoryMapEntry {
            base_addr: e.base_addr,
            size: MemSize { bytes: (s[i].end_addr - e.base_addr) as u64 },
            end_addr: s[i].end_addr,
            entry_type: e.entry_type,
        }
    } else {
        e
    }
}

/// `e` after both coalescing steps.
pub open spec fn coalesced(s: Seq<MemoryMapEntry>, e: MemoryMapEntry) -> MemoryMapEntry {
    coalesce_high(s, coalesce_low(s, e))
}

/// Drops every entry fully contained in `e`.
pub open spec fn remove_absorbed(s: Seq<MemoryMapEntry>, e: MemoryMapEntry) -> Seq<
    MemoryMapEntry,
>
    decreases s.len(),
{
    if s.len() == 0 {
        s
    } else {
        let prev = remove_absorbed(s.drop_last(), e);
        if absorbed_spec(e, s.last()) {
            prev
        } else {
            prev.push(s.last())
        }
    }
}

/// The surviving part of `x` once `e` claims their shared addresses:
/// trimmed at its low or high edge, or truncated before a strict split.
pub open spec fn reduce_main(x: MemoryMapEntry, e: MemoryMapEntry) -> MemoryMapEntry {
    if overlaps_spec(x, e) {
        if e.base_addr <= x.base_addr {
            MemoryMapEntry {
                base_addr: e.end_addr,
                size: MemSize { bytes: (x.end_addr - e.end_addr) as u64 },
                end_addr: x.end_addr,
                entry_type: x.entry_type,
            }
        } else if e.end_addr >= x.end_addr {
            MemoryMapEntry {
                base_addr: x.base_addr,
                size: MemSize { bytes: (e.base_addr - x.base_addr) as u64 },
                end_addr: e.base_addr,
                entry_type: x.entry_type,
            }
        } else {
            MemoryMapEntry {
                base_addr: x.base_addr,
                size: MemSize { bytes: (e.base_addr - x.base_addr) as u64 },
                end_addr: e.base_addr,
                entry_type: x.entry_type,
            }
        }
    } else {
        x
    }
}

/// The trailing free range a strict split of `x` by `e` emits.
pub open spec fn reduce_extra(x: MemoryMapEntry, e: MemoryMapEntry) -> Option<MemoryMapEntry> {
    if overlaps_spec(x, e) && !(e.base_addr <= x.base_addr) && !(e.end_addr >= x.end_addr) {
        Some(
            MemoryMapEntry {
                base_addr: e.end_addr,
                size: MemSize { bytes: (x.end_addr - e.end_addr) as u64 },
                end_addr: x.end_addr,
                entry_type: EntryType::Free,
            },
        )
    } else {
        None
    }
}

/// Every entry reduced against `e`, in place.
pub open spec fn reduce_all(s: Seq<MemoryMapEntry>, e: MemoryMapEntry) -> Seq<MemoryMapEntry> {
    Seq::new(s.len(), |i: int| reduce_main(s[i], e))
}

/// The trailing free ranges all strict splits emit, in order.
pub open spec fn extras_all(s: Seq<MemoryMapEntry>, e: MemoryMapEntry) -> Seq<MemoryMapEntry>
    decreases s.len(),
{
    if s.len() == 0 {
        Seq::empty()
    } else {
        let prev = extras_all(s.drop_last(), e);
        match reduce_extra(s.last(), e) {
            Some(x) => prev.push(x),
            None => prev,
        }
    }
}

/// First index at which `e` can be inserted keeping bases sorted,
/// searching from `i`.
pub open spec fn insert_pos(s: Seq<MemoryMapEntry>, e: MemoryMapEntry, i: int) -> int
    decreases s.len() - i,
{
    if i < 0 || i >= s.len() {
        s.len() as int
    } else if s[i].base_addr >= e.base_addr {
        i
    } else {
        insert_pos(s, e, i + 1)
    }
}

/// `e` inserted at its sorted position.
pub open spec fn insert_sorted(s: Seq<MemoryMapEntry>, e: MemoryMapEntry) -> Seq<
    MemoryMapEntry,
> {
    s.insert(insert_pos(s, e, 0), e)
}

/// Each element of `xs` inserted in turn at its sorted position.
pub open spec fn insert_all(s: Seq<MemoryMapEntry>, xs: Seq<MemoryMapEntry>) -> Seq<
    MemoryMapEntry,
>
    decreases xs.len(),
{
    if xs.len() == 0 {
        s
    } else {
        insert_all(insert_sorted(s, xs.first()), xs.drop_first())
    }
}

/// The placement stage of `add_entry`: coalesce with matching
/// neighbours, remove absorbed entries, reduce overlapped ones,
/// insert the split remainders and finally the new entry itself,
/// keeping sorted order.
pub open spec fn place_entry(s: Seq<MemoryMapEntry>, e: MemoryMapEntry) -> Seq<
    MemoryMapEntry,
> {
    let e1 = coalesced(s, e);
    let s1 = remove_absorbed(s, e1);
    let s2 = reduce_all(s1, e1);
    insert_sorted(insert_all(s2, extras_all(s1, e1)), e1)
}

/// Two touching entries merged into one.
pub open spec fn merge_two(x: MemoryMapEntry, y: MemoryMapEntry) -> MemoryMapEntry {
    MemoryMapEntry {
        base_addr: x.base_addr,
        size: MemSize { bytes: (y.end_addr - x.base_addr) as u64 },
        end_addr: y.end_addr,
        entry_type: x.entry_type,
    }
}

/// Merges every run of touching same-kind entries into one entry.
pub open spec fn merge_adjacent(s: Seq<MemoryMapEntry>) -> Seq<MemoryMapEntry>
    decreases s.len(),
{
    if s.len() == 0 {
        s
    } else {
        let prev = merge_adjacent(s.drop_last());
        if prev.len() > 0 && prev.last().end_addr == s.last().base_addr && prev.last().entry_type
            == s.last().entry_type {
            prev.drop_last().push(merge_two(prev.last(), s.last()))
        } else {
            prev.push(s.last())
        }
    }
}

/// The complete effect of `add_entry` on the entry sequence: the
/// placement stage followed by coalescing of the survivors that the
/// reduction step trimmed into touching the new range.
pub open spec fn add_entry_spec(s: Seq<MemoryMapEntry>, e: MemoryMapEntry) -> Seq<
    MemoryMapEntry,
> {
    merge_adjacent(place_entry(s, e))
}

/// Merging preserves consistency, order, positivity and coverage,
/// never grows the sequence, and leaves no touching same-kind
/// neighbours behind.
#[verifier::rlimit(100)]
pub proof fn lemma_merge_adjacent_props(s: Seq<MemoryMapEntry>)
    requires
        entries_wf(s),
        sorted_disjoint(s),
    ensures
        merge_adjacent(s).len() <= s.len(),
        s.len() > 0 ==> merge_adjacent(s).len() > 0 && merge_adjacent(s).last().end_addr
            == s.last().end_addr,
        entries_wf(merge_adjacent(s)),
        sorted_disjoint(merge_adjacent(s)),
        coalesced_wf(merge_adjacent(s)),
        entries_pos(s) ==> entries_pos(merge_adjacent(s)),
    decreases s.len(),
{
    let r = merge_adjacent(s);
    if s.len() == 0 {
    } else {
        let sd = s.drop_last();
        assert(forall|i: int| 0 <= i < sd.len() ==> sd[i] == s[i]);
        lemma_merge_adjacent_props(sd);
        let prev = merge_adjacent(sd);
        let x = s.last();
        assert(entry_wf(x));
        if prev.len() > 0 && prev.last().end_addr == x.base_addr && prev.last().entry_type
            == x.entry_type {
            let m = merge_two(prev.last(), x);
            assert(r == prev.drop_last().push(m));
            assert(entry_wf(prev.last()));
            assert(entry_wf(m));
            assert forall|i: int, j: int| 0 <= i < j < r.len() implies #[trigger] r[i].end_addr
                <= #[trigger] r[j].base_addr by {
                if j < r.len() - 1 {
                    assert(r[i] == prev[i] && r[j] == prev[j]);
                } else {
                    assert(r[j] == m && m.base_addr == prev.last().base_addr);
                    assert(r[i] == prev[i]);
                    assert(prev[i].end_addr <= prev[prev.len() - 1].base_addr);
                }
            }
            assert forall|i: int|
                #![trigger r[i], r[i + 1]]
                0 <= i < r.len() - 1 implies !(r[i].end_addr == r[i + 1].base_addr
                && r[i].entry_type == r[i + 1].entry_type) by {
                if i < r.len() - 2 {
                    assert(r[i] == prev[i] && r[i + 1] == prev[i + 1]);
                } else {
                    assert(r[i + 1] == m);
                    assert(r[i] == prev[i]);
                    assert(!(prev[i].end_addr == prev[prev.len() - 1].base_addr
                        && prev[i].entry_type == prev[prev.len() - 1].entry_type));
                }
            }
            assert forall|i: int| 0 <= i < r.len() implies entry_wf(#[trigger] r[i]) by {
                if i < r.len() - 1 {
                    assert(r[i] == prev[i]);
                }
            }
            if entries_pos(s) {
                assert forall|i: int| 0 <= i < r.len() implies (#[trigger] r[i]).base_addr
                    < r[i].end_addr by {
                    if i < r.len() - 1 {
                        assert(r[i] == prev[i]);
                    } else {
                        assert(r[i] == m);
                        assert(prev[prev.len() - 1].base_addr <= prev[prev.len() - 1].end_addr);
                        assert(s[s.len() - 1].base_addr < s[s.len() - 1].end_addr);
                    }
                }
            }
        } else {
            assert(r == prev.push(x));
            assert forall|i: int, j: int| 0 <= i < j < r.len() implies #[trigger] r[i].end_addr
                <= #[trigger] r[j].base_addr by {
                if j < r.len() - 1 {
                    assert(r[i] == prev[i] && r[j] == prev[j]);
                } else {
                    assert(r[j] == x);
                    assert(r[i] == prev[i]);
                    if sd.len() > 0 {
                        assert(prev.last().end_addr == sd.last().end_addr);
                        assert(sd[sd.len() - 1].end_addr <= s[s.len() - 1].base_addr);
                        if i < prev.len() - 1 {
                            assert(prev[i].end_addr <= prev[prev.len() - 1].base_addr);
                            assert(entry_wf(prev[prev.len() - 1]));
                        }
                    }
                }
            }
            assert forall|i: int|
                #![trigger r[i], r[i + 1]]
                0 <= i < r.len() - 1 implies !(r[i].end_addr == r[i + 1].base_addr
                && r[i].entry_type == r[i + 1].entry_type) by {
                if i < r.len() - 2 {
                    assert(r[i] == prev[i] && r[i + 1] == prev[i + 1]);
                } else {
                    assert(r[i + 1] == x && r[i] == prev[prev.len() - 1]);
                }
            }
            assert forall|i: int| 0 <= i < r.len() implies entry_wf(#[trigger] r[i]) by {
                if i < r.len() - 1 {
                    assert(r[i] == prev[i]);
                }
            }
            if entries_pos(s) {
                assert forall|i: int| 0 <= i < r.len() implies (#[trigger] r[i]).base_addr
                    < r[i].end_addr by {
                    if i < r.len() - 1 {
                        assert(r[i] == prev[i]);
                    } else {
                        assert(r[i] == x);
                        assert(s[s.len() - 1].base_addr < s[s.len() - 1].end_addr);
                    }
                }
            }
        }
    }
}

/// Merging neither loses nor gains covered addresses.
#[verifier::rlimit(100)]
pub proof fn lemma_merge_adjacent_covered(s: Seq<MemoryMapEntry>)
    requires
        entries_wf(s),
        sorted_disjoint(s),
    ensures
        forall|a: u64| addr_covered(merge_adjacent(s), a) <==> addr_covered(s, a),
    decreases s.len(),
{
    let r = merge_adjacent(s);
    if s.len() == 0 {
    } else {
        let sd = s.drop_last();
        assert(forall|i: int| 0 <= i < sd.len() ==> sd[i] == s[i]);
        lemma_merge_adjacent_covered(sd);
        lemma_merge_adjacent_props(sd);
        lemma_merge_adjacent_props(s);
        let prev = merge_adjacent(sd);
        let x = s.last();
        assert(entry_wf(x));
        if prev.len() > 0 && prev.last().end_addr == x.base_addr && prev.last().entry_type
            == x.entry_type {
            let m = merge_two(prev.last(), x);
            assert(r == prev.drop_last().push(m));
            assert(entry_wf(prev.last()));
            assert forall|a: u64| addr_covered(r, a) implies addr_covered(s, a) by {
                let i = choose|i: int|
                    0 <= i < r.len() && (#[trigger] r[i]).base_addr <= a < r[i].end_addr;
                if i < r.len() - 1 {
                    assert(r[i] == prev[i]);
                    assert(prev[i].base_addr <= a < prev[i].end_addr);
                    assert(addr_covered(prev, a));
                    assert(addr_covered(sd, a));
                    let k = choose|k: int|
                        0 <= k < sd.len() && (#[trigger] sd[k]).base_addr <= a < sd[k].end_addr;
                    assert(s[k].base_addr <= a < s[k].end_addr);
                } else {
                    if a < prev.last().end_addr {
                        assert(prev[prev.len() - 1].base_addr <= a < prev[prev.len()
                            - 1].end_addr);
                        assert(addr_covered(prev, a));
                        assert(addr_covered(sd, a));
                        let k = choose|k: int|
                            0 <= k < sd.len() && (#[trigger] sd[k]).base_addr <= a
                                < sd[k].end_addr;
                        assert(s[k].base_addr <= a < s[k].end_addr);
                    } else {
                        assert(s[s.len() - 1].base_addr <= a < s[s.len() - 1].end_addr);
                    }
                }
            }
            assert forall|a: u64| addr_covered(s, a) implies addr_covered(r, a) by {
                let k = choose|k: int|
                    0 <= k < s.len() && (#[trigger] s[k]).base_addr <= a < s[k].end_addr;
                if k == s.len() - 1 {
                    assert(r[r.len() - 1].base_addr <= a < r[r.len() - 1].end_addr);
                } else {
                    assert(sd[k].base_addr <= a < sd[k].end_addr);
                    assert(addr_covered(sd, a));
                    assert(addr_covered(prev, a));
                    let i = choose|i: int|
                        0 <= i < prev.len() && (#[trigger] prev[i]).base_addr <= a
                            < prev[i].end_addr;
                    if i < prev.len() - 1 {
                        assert(r[i].base_addr <= a < r[i].end_addr);
                    } else {
                        assert(r[r.len() - 1].base_addr <= a < r[r.len() - 1].end_addr);
                    }
                }
            }
        } else {
            assert(r == prev.push(x));
            assert forall|a: u64| addr_covered(r, a) implies addr_covered(s, a) by {
                let i = choose|i: int|
                    0 <= i < r.len() && (#[trigger] r[i]).base_addr <= a < r[i].end_addr;
                if i < r.len() - 1 {
                    assert(r[i] == prev[i]);
                    assert(prev[i].base_addr <= a < prev[i].end_addr);
                    assert(addr_covered(prev, a));
                    assert(addr_covered(sd, a));
                    let k = choose|k: int|
                        0 <= k < sd.len() && (#[trigger] sd[k]).base_addr <= a < sd[k].end_addr;
                    assert(s[k].base_addr <= a < s[k].end_addr);
                } else {
                    assert(s[s.len() - 1].base_addr <= a < s[s.len() - 1].end_addr);
                }
            }
            assert forall|a: u64| addr_covered(s, a) implies addr_covered(r, a) by {
                let k = choose|k: int|
                    0 <= k < s.len() && (#[trigger] s[k]).base_addr <= a < s[k].end_addr;
                if k == s.len() - 1 {
                    assert(r[r.len() - 1].base_addr <= a < r[r.len() - 1].end_addr);
                } else {
                    assert(sd[k].base_addr <= a < sd[k].end_addr);
                    assert(addr_covered(sd, a));
                    assert(addr_covered(prev, a));
                    let i = choose|i: int|
                        0 <= i < prev.len() && (#[trigger] prev[i]).base_addr <= a
                            < prev[i].end_addr;
                    assert(r[i].base_addr <= a < r[i].end_addr);
                }
            }
        }
    }
}

/// A sequence with no touching same-kind neighbours merges to itself.
pub proof fn lemma_merge_adjacent_noop(s: Seq<MemoryMapEntry>)
    requires
        coalesced_wf(s),
    ensures
        merge_adjacent(s) == s,
    decreases s.len(),
{
    if s.len() == 0 {
        assert(merge_adjacent(s) =~= s);
    } else {
        let sd = s.drop_last();
        assert(forall|i: int| 0 <= i < sd.len() ==> sd[i] == s[i]);
        lemma_merge_adjacent_noop(sd);
        if sd.len() > 0 {
            assert(!(s[s.len() - 2].end_addr == s[s.len() - 1].base_addr && s[s.len()
                - 2].entry_type == s[s.len() - 1].entry_type));
            assert(sd.last() == s[s.len() - 2]);
        }
        assert(merge_adjacent(s) == sd.push(s.last()));
        assert(sd.push(s.last()) =~= s);
    }
}

/// Address `a` is covered by some entry of `s`.
pub open spec fn addr_covered(s: Seq<MemoryMapEntry>, a: u64) -> bool {
    exists|i: int| 0 <= i < s.len() && (#[trigger] s[i]).base_addr <= a < s[i].end_addr
}

/// Sum of the sizes of all `Free` entries.
pub open spec fn free_bytes(s: Seq<MemoryMapEntry>) -> int
    decreases s.len(),
{
    if s.len() == 0 {
        0
    } else {
        free_bytes(s.drop_last()) + if s.last().entry_type == EntryType::Free {
            s.last().size.bytes as int
        } else {
            0int
        }
    }
}

/// Sum of the sizes of all entries of the given kind.
pub open spec fn kind_bytes(s: Seq<MemoryMapEntry>, t: EntryType) -> int
    decreases s.len(),
{
    if s.len() == 0 {
        0
    } else {
        kind_bytes(s.drop_last(), t) + if s.last().entry_type == t {
            s.last().size.bytes as int
        } else {
            0int
        }
    }
}

/// A successful low-side search yields a same-kind entry ending at
/// `e`'s base.
pub proof fn lemma_find_merge_low_props(s: Seq<MemoryMapEntry>, e: MemoryMapEntry, i: int)
    ensures
        find_merge_low(s, e, i) >= 0 ==> {
            let r = find_merge_low(s, e, i);
            &&& i <= r < s.len()
            &&& s[r].end_addr == e.base_addr
            &&& s[r].entry_type == e.entry_type
        },
    decreases s.len() - i,
{
    if i < 0 || i >= s.len() {
    } else if s[i].end_addr == e.base_addr && s[i].entry_type == e.entry_type {
    } else {
        lemma_find_merge_low_props(s, e, i + 1);
    }
}

/// A successful high-side search yields a same-kind entry starting at
/// `e`'s end.
pub proof fn lemma_find_merge_high_props(s: Seq<MemoryMapEntry>, e: MemoryMapEntry, i: int)
    ensures
        find_merge_high(s, e, i) >= 0 ==> {
            let r = find_merge_high(s, e, i);
            &&& i <= r < s.len()
            &&& s[r].base_addr == e.end_addr
            &&& s[r].entry_type == e.entry_type
        },
    decreases s.len() - i,
{
    if i < 0 || i >= s.len() {
    } else if s[i].base_addr == e.end_addr && s[i].entry_type == e.entry_type {
    } else {
        lemma_find_merge_high_props(s, e, i + 1);
    }
}

/// Coalescing keeps the entry consistent and only grows its range.
pub proof fn lemma_coalesced_wf(s: Seq<MemoryMapEntry>, e: MemoryMapEntry)
    requires
        entries_wf(s),
        entry_wf(e),
    ensures
        entry_wf(coalesced(s, e)),
        coalesced(s, e).entry_type == e.entry_type,
        coalesced(s, e).base_addr <= e.base_addr,
        coalesced(s, e).end_addr >= e.end_addr,
        entry_wf(coalesce_low(s, e)),
        coalesce_low(s, e).end_addr == e.end_addr,
{
    lemma_find_merge_low_props(s, e, 0);
    let el = coalesce_low(s, e);
    lemma_find_merge_high_props(s, el, 0);
}

/// Removal keeps only entries of `s` that `e` does not fully contain,
/// preserving consistency and order.
pub proof fn lemma_remove_absorbed_props(s: Seq<MemoryMapEntry>, e: MemoryMapEntry)
    ensures
        remove_absorbed(s, e).len() <= s.len(),
        forall|k: int|
            0 <= k < remove_absorbed(s, e).len() ==> exists|j: int|
                0 <= j < s.len() && #[trigger] remove_absorbed(s, e)[k] == s[j],
        forall|k: int|
            0 <= k < remove_absorbed(s, e).len() ==> !absorbed_spec(
                e,
                #[trigger] remove_absorbed(s, e)[k],
            ),
        entries_wf(s) ==> entries_wf(remove_absorbed(s, e)),
        sorted_disjoint(s) ==> sorted_disjoint(remove_absorbed(s, e)),
    decreases s.len(),
{
    let r = remove_absorbed(s, e);
    if s.len() == 0 {
    } else {
        let sd = s.drop_last();
        lemma_remove_absorbed_props(sd, e);
        let prev = remove_absorbed(sd, e);
        assert forall|k: int| 0 <= k < prev.len() implies exists|j: int|
            0 <= j < s.len() && #[trigger] prev[k] == s[j] by {
            let j = choose|j: int| 0 <= j < sd.len() && prev[k] == sd[j];
            assert(sd[j] == s[j]);
            assert(0 <= j < s.len() && prev[k] == s[j]);
        }
        if absorbed_spec(e, s.last()) {
            assert(r == prev);
        } else {
            assert(r == prev.push(s.last()));
            assert forall|k: int| 0 <= k < r.len() implies exists|j: int|
                0 <= j < s.len() && #[trigger] r[k] == s[j] by {
                if k < prev.len() {
                    assert(r[k] == prev[k]);
                    let j = choose|j: int| 0 <= j < s.len() && prev[k] == s[j];
                    assert(0 <= j < s.len() && r[k] == s[j]);
                } else {
                    assert(r[k] == s[s.len() - 1]);
                }
            }
            if sorted_disjoint(s) {
                assert forall|i: int, j: int| 0 <= i < j < r.len() implies #[trigger] r[i].end_addr
                    <= #[trigger] r[j].base_addr by {
                    if j < prev.len() {
                        assert(r[i] == prev[i] && r[j] == prev[j]);
                    } else {
                        assert(r[j] == s.last());
                        assert(r[i] == prev[i]);
                        let jj = choose|jj: int| 0 <= jj < sd.len() && prev[i] == sd[jj];
                        assert(s[jj] == sd[jj]);
                        assert(s[jj].end_addr <= s[s.len() - 1].base_addr);
                    }
                }
            }
            if entries_wf(s) {
                assert forall|k: int| 0 <= k < r.len() implies entry_wf(#[trigger] r[k]) by {
                    if k < prev.len() {
                        assert(r[k] == prev[k]);
                    } else {
                        assert(r[k] == s.last());
                        assert(entry_wf(s[s.len() - 1]));
                    }
                }
            }
        }
    }
}

/// Entries that are not absorbed survive removal.
pub proof fn lemma_remove_absorbed_keeps(s: Seq<MemoryMapEntry>, e: MemoryMapEntry)
    ensures
        forall|x: MemoryMapEntry|
            s.contains(x) && !absorbed_spec(e, x) ==> remove_absorbed(s, e).contains(x),
    decreases s.len(),
{
    if s.len() == 0 {
    } else {
        let sd = s.drop_last();
        lemma_remove_absorbed_keeps(sd, e);
        let prev = remove_absorbed(sd, e);
        assert forall|x: MemoryMapEntry|
            s.contains(x) && !absorbed_spec(e, x) implies remove_absorbed(s, e).contains(x) by {
            if x == s.last() {
                assert(remove_absorbed(s, e) == prev.push(s.last()));
                assert(remove_absorbed(s, e)[prev.len() as int] == x);
            } else {
                let j = choose|j: int| 0 <= j < s.len() && s[j] == x;
                assert(sd[j] == x);
                assert(sd.contains(x));
                assert(prev.contains(x));
                let k = choose|k: int| 0 <= k < prev.len() && prev[k] == x;
                if !absorbed_spec(e, s.last()) {
                    assert(remove_absorbed(s, e)[k] == x);
                }
            }
        }
    }
}

/// If nothing is absorbed, removal is the identity.
pub proof fn lemma_remove_absorbed_noop(s: Seq<MemoryMapEntry>, e: MemoryMapEntry)
    requires
        forall|k: int| 0 <= k < s.len() ==> !absorbed_spec(e, #[trigger] s[k]),
    ensures
        remove_absorbed(s, e) == s,
    decreases s.len(),
{
    if s.len() == 0 {
        assert(remove_absorbed(s, e) =~= s);
    } else {
        let sd = s.drop_last();
        assert(forall|k: int| 0 <= k < sd.len() ==> sd[k] == s[k]);
        lemma_remove_absorbed_noop(sd, e);
        assert(remove_absorbed(s, e) =~= sd.push(s.last()));
        assert(sd.push(s.last()) =~= s);
    }
}

/// Removing after inserting one absorbed element, into a sequence with
/// no absorbed elements, restores the original sequence.
pub proof fn lemma_remove_inserted(
    s: Seq<MemoryMapEntry>,
    y: MemoryMapEntry,
    p: int,
    e: MemoryMapEntry,
)
    requires
        0 <= p <= s.len(),
        forall|k: int| 0 <= k < s.len() ==> !absorbed_spec(e, #[trigger] s[k]),
        absorbed_spec(e, y),
    ensures
        remove_absorbed(s.insert(p, y), e) == s,
    decreases s.len(),
{
    let si = s.insert(p, y);
    s.insert_ensures(p, y);
    if p == s.len() {
        assert(si.drop_last() =~= s);
        assert(si.last() == y);
        lemma_remove_absorbed_noop(s, e);
    } else {
        assert(si.last() == s.last());
        assert(si.drop_last() =~= s.drop_last().insert(p, y)) by {
            s.drop_last().insert_ensures(p, y);
        }
        assert(forall|k: int|
            0 <= k < s.drop_last().len() ==> !absorbed_spec(e, #[trigger] s.drop_last()[k]));
        lemma_remove_inserted(s.drop_last(), y, p, e);
        assert(remove_absorbed(si, e) == remove_absorbed(si.drop_last(), e).push(si.last()));
        assert(s.drop_last().push(s.last()) =~= s);
    }
}

/// If no entry is changed by reduction, the reduced sequence is the
/// original and no remainders are emitted.
pub proof fn lemma_reduce_noop(s: Seq<MemoryMapEntry>, e: MemoryMapEntry)
    requires
        forall|k: int| 0 <= k < s.len() ==> reduce_main(#[trigger] s[k], e) == s[k],
        forall|k: int| 0 <= k < s.len() ==> reduce_extra(#[trigger] s[k], e) is None,
    ensures
        reduce_all(s, e) == s,
        extras_all(s, e) == Seq::<MemoryMapEntry>::empty(),
    decreases s.len(),
{
    assert(reduce_all(s, e) =~= s);
    if s.len() == 0 {
        assert(extras_all(s, e) =~= Seq::<MemoryMapEntry>::empty());
    } else {
        let sd = s.drop_last();
        assert(forall|k: int| 0 <= k < sd.len() ==> sd[k] == s[k]);
        lemma_reduce_noop(sd, e);
        assert(reduce_extra(s.last(), e) is None);
    }
}

/// A search with no matching entry reports none.
pub proof fn lemma_find_merge_low_none(s: Seq<MemoryMapEntry>, e: MemoryMapEntry, i: int)
    requires
        forall|k: int|
            0 <= k < s.len() ==> !((#[trigger] s[k]).end_addr == e.base_addr && s[k].entry_type
                == e.entry_type),
    ensures
        find_merge_low(s, e, i) == -1,
    decreases s.len() - i,
{
    if i < 0 || i >= s.len() {
    } else {
        lemma_find_merge_low_none(s, e, i + 1);
    }
}

/// A search with no matching entry reports none.
pub proof fn lemma_find_merge_high_none(s: Seq<MemoryMapEntry>, e: MemoryMapEntry, i: int)
    requires
        forall|k: int|
            0 <= k < s.len() ==> !((#[trigger] s[k]).base_addr == e.end_addr && s[k].entry_type
                == e.entry_type),
    ensures
        find_merge_high(s, e, i) == -1,
    decreases s.len() - i,
{
    if i < 0 || i >= s.len() {
    } else {
        lemma_find_merge_high_none(s, e, i + 1);
    }
}

/// The low-side search returns the first matching index.
pub proof fn lemma_find_merge_low_at(s: Seq<MemoryMapEntry>, e: MemoryMapEntry, i: int, i0: int)
    requires
        0 <= i <= i0 < s.len(),
        forall|k: int|
            0 <= k < i0 ==> !((#[trigger] s[k]).end_addr == e.base_addr && s[k].entry_type
                == e.entry_type),
        s[i0].end_addr == e.base_addr && s[i0].entry_type == e.entry_type,
    ensures
        find_merge_low(s, e, i) == i0,
    decreases s.len() - i,
{
    if i == i0 {
    } else {
        lemma_find_merge_low_at(s, e, i + 1, i0);
    }
}

/// The insertion position search returns the boundary index between
/// smaller and not-smaller bases.
pub proof fn lemma_insert_pos_exact(s: Seq<MemoryMapEntry>, e: MemoryMapEntry, p: int)
    requires
        0 <= p <= s.len(),
        forall|k: int| 0 <= k < p ==> (#[trigger] s[k]).base_addr < e.base_addr,
        p < s.len() ==> s[p].base_addr >= e.base_addr,
    ensures
        insert_pos(s, e, 0) == p,
{
    lemma_insert_pos_props(s, e, 0);
    let q = insert_pos(s, e, 0);
    if q < p {
        assert(s[q].base_addr < e.base_addr);
    } else if q > p {
        assert(s[p].base_addr < e.base_addr);
    }
}

/// What reduction does to a single consistent, not-absorbed entry:
/// the survivor stays consistent, inside the original range, and
/// disjoint from `e`; a split remainder likewise.
pub proof fn lemma_reduce_props(x: MemoryMapEntry, e: MemoryMapEntry)
    requires
        entry_wf(x),
        entry_wf(e),
        !absorbed_spec(e, x),
    ensures
        entry_wf(reduce_main(x, e)),
        ranges_disjoint(reduce_main(x, e), e),
        x.base_addr <= reduce_main(x, e).base_addr,
        reduce_main(x, e).end_addr <= x.end_addr,
        reduce_main(x, e).entry_type == x.entry_type,
        !(reduce_main(x, e).base_addr == reduce_main(x, e).end_addr && reduce_main(x, e).base_addr
            == e.base_addr),
        x.base_addr < x.end_addr ==> reduce_main(x, e).base_addr < reduce_main(x, e).end_addr,
        reduce_extra(x, e) is Some ==> {
            let y = reduce_extra(x, e)->Some_0;
            &&& entry_wf(y)
            &&& y.base_addr == e.end_addr
            &&& y.end_addr == x.end_addr
            &&& y.base_addr < y.end_addr
            &&& ranges_disjoint(y, e)
        },
        !overlaps_spec(x, e) ==> ranges_disjoint(x, e),
{
    if overlaps_spec(x, e) {
        if e.base_addr <= x.base_addr {
            // Not absorbed, so the range sticks out above `e`.
            assert(e.end_addr < x.end_addr);
            // Overlap puts `e`'s end at or above the base.
            assert(e.end_addr >= x.base_addr);
        } else if e.end_addr >= x.end_addr {
            assert(e.base_addr < x.end_addr);
        } else {
        }
    } else {
    }
}

/// A consistent, sorted map splits at most one entry.
pub proof fn lemma_extras_len(s: Seq<MemoryMapEntry>, e: MemoryMapEntry)
    requires
        entries_wf(s),
        sorted_disjoint(s),
        entry_wf(e),
    ensures
        extras_all(s, e).len() <= 1,
        extras_all(s, e).len() == 1 ==> exists|j: int|
            0 <= j < s.len() && reduce_extra(#[trigger] s[j], e) == Some(extras_all(s, e)[0]),
    decreases s.len(),
{
    if s.len() == 0 {
    } else {
        let sd = s.drop_last();
        assert(entries_wf(sd) && sorted_disjoint(sd)) by {
            assert(forall|i: int| 0 <= i < sd.len() ==> sd[i] == s[i]);
        }
        lemma_extras_len(sd, e);
        let prev = extras_all(sd, e);
        if reduce_extra(s.last(), e) is Some {
            // A split of the last entry pins `e` strictly inside it, so
            // no earlier entry can also be split.
            if prev.len() > 0 {
                let j = choose|j: int|
                    0 <= j < sd.len() && reduce_extra(#[trigger] sd[j], e) == Some(prev[0]);
                assert(sd[j] == s[j]);
                assert(s[j].end_addr <= s[s.len() - 1].base_addr);
                assert(overlaps_spec(s[j], e) && e.base_addr > s[j].base_addr && e.end_addr
                    < s[j].end_addr);
                assert(overlaps_spec(s[s.len() - 1], e) && e.base_addr > s[s.len()
                    - 1].base_addr);
                assert(false);
            }
            assert(extras_all(s, e) == prev.push(reduce_extra(s.last(), e)->Some_0));
            assert(extras_all(s, e)[0] == reduce_extra(s[s.len() - 1], e)->Some_0);
        } else {
            assert(extras_all(s, e) == prev);
            if prev.len() == 1 {
                let j = choose|j: int|
                    0 <= j < sd.len() && reduce_extra(#[trigger] sd[j], e) == Some(prev[0]);
                assert(sd[j] == s[j]);
                assert(0 <= j < s.len() && reduce_extra(s[j], e) == Some(extras_all(s, e)[0]));
            }
        }
    }
}

/// Inserting an entry that is disjoint from every present range (and
/// does not collide with an empty range at its base) keeps the map
/// consistent, sorted and disjoint.
#[verifier::rlimit(100)]
#[verifier::spinoff_prover]
pub proof fn lemma_insert_sorted_inv(s: Seq<MemoryMapEntry>, x: MemoryMapEntry)
    requires
        entries_wf(s),
        sorted_disjoint(s),
        entry_wf(x),
        forall|k: int| 0 <= k < s.len() ==> ranges_disjoint(#[trigger] s[k], x),
        forall|k: int|
            0 <= k < s.len() ==> !((#[trigger] s[k]).base_addr == s[k].end_addr && s[k].base_addr
                == x.base_addr),
    ensures
        insert_sorted(s, x).len() == s.len() + 1,
        entries_wf(insert_sorted(s, x)),
        sorted_disjoint(insert_sorted(s, x)),
        forall|k: int|
            0 <= k < insert_sorted(s, x).len() ==> insert_sorted(s, x)[k] == x || exists|j: int|
                0 <= j < s.len() && #[trigger] insert_sorted(s, x)[k] == s[j],
        insert_sorted(s, x)[insert_pos(s, x, 0)] == x,
        forall|z: MemoryMapEntry| s.contains(z) ==> insert_sorted(s, x).contains(z),
        insert_sorted(s, x).contains(x),
{
    let p = insert_pos(s, x, 0);
    lemma_insert_pos_props(s, x, 0);
    s.insert_ensures(p, x);
    let r = insert_sorted(s, x);
    assert forall|z: MemoryMapEntry| s.contains(z) implies r.contains(z) by {
        let j = choose|j: int| 0 <= j < s.len() && s[j] == z;
        if j < p {
            assert(r[j] == z);
        } else {
            assert(r[j + 1] == z);
        }
    }
    assert(r[p] == x);
    assert forall|k: int| 0 <= k < r.len() implies r[k] == x || exists|j: int|
        0 <= j < s.len() && #[trigger] r[k] == s[j] by {
        if k < p {
            assert(r[k] == s[k]);
        } else if k == p {
            assert(r[k] == x);
        } else {
            assert(r[k] == s[k - 1]);
        }
    }
    assert forall|i: int, j: int| 0 <= i < j < r.len() implies #[trigger] r[i].end_addr
        <= #[trigger] r[j].base_addr by {
        if i < p && j < p {
            assert(r[i] == s[i] && r[j] == s[j]);
        } else if i < p && j == p {
            // The element just below the insertion point ends at or
            // before `x` begins.
            assert(r[i] == s[i] && r[j] == x);
            assert(s[p - 1].base_addr < x.base_addr);
            assert(ranges_disjoint(s[p - 1], x));
            assert(s[p - 1].end_addr <= x.base_addr);
            assert(s[i].end_addr <= s[p - 1].end_addr || i == p - 1);
        } else if i < p && j > p {
            assert(r[i] == s[i] && r[j] == s[j - 1]);
        } else if i == p {
            assert(r[i] == x && r[j] == s[j - 1]);
            assert(s[j - 1].base_addr >= s[p].base_addr || j - 1 == p);
            assert(s[p].base_addr >= x.base_addr);
            assert(ranges_disjoint(s[p], x));
            if s[p].end_addr <= x.base_addr {
                assert(s[p].base_addr == s[p].end_addr && s[p].base_addr == x.base_addr);
                assert(false);
            }
            assert(x.end_addr <= s[p].base_addr);
            assert(s[j - 1].base_addr >= s[p].base_addr);
        } else {
            assert(r[i] == s[i - 1] && r[j] == s[j - 1]);
        }
    }
    assert forall|k: int| 0 <= k < r.len() implies entry_wf(#[trigger] r[k]) by {
        if k < p {
            assert(r[k] == s[k]);
        } else if k == p {
        } else {
            assert(r[k] == s[k - 1]);
        }
    }
}

/// The insertion position search is within bounds, and everything
/// before it has a strictly smaller base.
pub proof fn lemma_insert_pos_props(s: Seq<MemoryMapEntry>, e: MemoryMapEntry, i: int)
    requires
        0 <= i <= s.len(),
    ensures
        i <= insert_pos(s, e, i) <= s.len(),
        forall|k: int| i <= k < insert_pos(s, e, i) ==> (#[trigger] s[k]).base_addr < e.base_addr,
        insert_pos(s, e, i) < s.len() ==> s[insert_pos(s, e, i)].base_addr >= e.base_addr,
    decreases s.len() - i,
{
    if i >= s.len() {
    } else if s[i].base_addr >= e.base_addr {
    } else {
        lemma_insert_pos_props(s, e, i + 1);
    }
}

/// Inserting a batch grows the length by the batch size.
pub proof fn lemma_insert_all_len(s: Seq<MemoryMapEntry>, xs: Seq<MemoryMapEntry>)
    ensures
        insert_all(s, xs).len() == s.len() + xs.len(),
    decreases xs.len(),
{
    if xs.len() == 0 {
    } else {
        lemma_insert_pos_props(s, xs.first(), 0);
        s.insert_ensures(insert_pos(s, xs.first(), 0), xs.first());
        lemma_insert_all_len(insert_sorted(s, xs.first()), xs.drop_first());
    }
}

/// The full `add_entry` algorithm preserves the map invariant: the
/// result is consistent, sorted by base and non-overlapping.
pub proof fn lemma_place_entry_inv(s: Seq<MemoryMapEntry>, e: MemoryMapEntry)
    requires
        entries_wf(s),
        sorted_disjoint(s),
        entry_wf(e),
    ensures
        entries_wf(place_entry(s, e)),
        sorted_disjoint(place_entry(s, e)),
        place_entry(s, e).len() == remove_absorbed(s, coalesced(s, e)).len() + extras_all(
            remove_absorbed(s, coalesced(s, e)),
            coalesced(s, e),
        ).len() + 1,
        forall|x: MemoryMapEntry|
            place_entry(s, e).contains(x) <==> (x == coalesced(s, e) || reduce_all(
                remove_absorbed(s, coalesced(s, e)),
                coalesced(s, e),
            ).contains(x) || extras_all(
                remove_absorbed(s, coalesced(s, e)),
                coalesced(s, e),
            ).contains(x)),
        entries_pos(s) && e.base_addr < e.end_addr ==> entries_pos(place_entry(s, e)),
{
    lemma_coalesced_wf(s, e);
    let e1 = coalesced(s, e);
    lemma_remove_absorbed_props(s, e1);
    let s1 = remove_absorbed(s, e1);
    assert(entries_wf(s1) && sorted_disjoint(s1));
    let s2 = reduce_all(s1, e1);
    assert forall|k: int| 0 <= k < s1.len() implies entry_wf(#[trigger] s2[k]) && ranges_disjoint(
        s2[k],
        e1,
    ) && s1[k].base_addr <= s2[k].base_addr && s2[k].end_addr <= s1[k].end_addr && !(
    s2[k].base_addr == s2[k].end_addr && s2[k].base_addr == e1.base_addr) && (s2[k].base_addr
        == s2[k].end_addr ==> s2[k] == s1[k]) && (entries_pos(s) ==> s2[k].base_addr
        < s2[k].end_addr) by {
        lemma_reduce_props(s1[k], e1);
        if entries_pos(s) {
            let jj = choose|jj: int| 0 <= jj < s.len() && s1[k] == s[jj];
            assert(s[jj].base_addr < s[jj].end_addr);
        }
    }
    assert forall|i: int, j: int| 0 <= i < j < s2.len() implies #[trigger] s2[i].end_addr
        <= #[trigger] s2[j].base_addr by {
        lemma_reduce_props(s1[i], e1);
        lemma_reduce_props(s1[j], e1);
        assert(s1[i].end_addr <= s1[j].base_addr);
        if s2[j].base_addr == s1[j].base_addr {
        } else {
            // `j` was trimmed at its low edge, so `e1` reaches at least
            // to its old base, which lies above everything before it.
            assert(overlaps_spec(s1[j], e1) && e1.base_addr <= s1[j].base_addr);
            assert(e1.end_addr >= s1[j].base_addr);
        }
    }
    lemma_extras_len(s1, e1);
    let xs = extras_all(s1, e1);
    if xs.len() == 0 {
        assert(insert_all(s2, xs) == s2);
        lemma_insert_sorted_inv(s2, e1);
        assert(place_entry(s, e) == insert_sorted(s2, e1));
        let fin = insert_sorted(s2, e1);
        assert forall|x: MemoryMapEntry| fin.contains(x) implies (x == e1 || s2.contains(x)
            || xs.contains(x)) by {
            let k = choose|k: int| 0 <= k < fin.len() && fin[k] == x;
            assert(fin[k] == e1 || exists|j: int| 0 <= j < s2.len() && fin[k] == s2[j]);
        }
        if entries_pos(s) && e.base_addr < e.end_addr {
            assert forall|k: int| 0 <= k < fin.len() implies (#[trigger] fin[k]).base_addr
                < fin[k].end_addr by {
                assert(fin.contains(fin[k]));
                if fin[k] != e1 {
                    let jj = choose|jj: int| 0 <= jj < s2.len() && s2[jj] == fin[k];
                }
            }
        }
    } else {
        let y = xs[0];
        let j = choose|j: int|
            0 <= j < s1.len() && reduce_extra(#[trigger] s1[j], e1) == Some(y);
        lemma_reduce_props(s1[j], e1);
        assert(entry_wf(y) && y.base_addr == e1.end_addr && y.end_addr == s1[j].end_addr
            && y.base_addr < y.end_addr && ranges_disjoint(y, e1));
        // `j` was split strictly, so `e1` sits inside it.
        assert(overlaps_spec(s1[j], e1) && e1.base_addr > s1[j].base_addr && e1.end_addr
            < s1[j].end_addr);
        assert(s2[j].end_addr == e1.base_addr);
        assert forall|k: int| 0 <= k < s2.len() implies ranges_disjoint(#[trigger] s2[k], y)
            && !(s2[k].base_addr == s2[k].end_addr && s2[k].base_addr == y.base_addr) by {
            lemma_reduce_props(s1[k], e1);
            if k < j {
                assert(s1[k].end_addr <= s1[j].base_addr);
                assert(s2[k].end_addr <= y.base_addr);
            } else if k == j {
                assert(s2[k].end_addr == e1.base_addr);
            } else {
                assert(s1[k].base_addr >= s1[j].end_addr);
                // With a strict split, no later entry still overlaps.
                assert(!overlaps_spec(s1[k], e1));
                assert(s2[k] == s1[k]);
                assert(s2[k].base_addr >= y.end_addr);
            }
            if s2[k].base_addr == s2[k].end_addr && s2[k].base_addr == y.base_addr {
                assert(s2[k] == s1[k]);
                assert(absorbed_spec(e1, s1[k]));
                assert(false);
            }
        }
        lemma_insert_sorted_inv(s2, y);
        let mid = insert_sorted(s2, y);
        assert(xs.drop_first() =~= Seq::<MemoryMapEntry>::empty());
        assert(xs.first() == y);
        assert(insert_all(s2, xs) == insert_all(mid, xs.drop_first()));
        assert(insert_all(s2, xs) == mid);
        assert forall|k: int| 0 <= k < mid.len() implies ranges_disjoint(#[trigger] mid[k], e1)
            && !(mid[k].base_addr == mid[k].end_addr && mid[k].base_addr == e1.base_addr) by {
            if mid[k] == y {
            } else {
                let jj = choose|jj: int| 0 <= jj < s2.len() && #[trigger] mid[k] == s2[jj];
            }
        }
        lemma_insert_sorted_inv(mid, e1);
        assert(place_entry(s, e) == insert_sorted(mid, e1));
        let fin = insert_sorted(mid, e1);
        assert forall|x: MemoryMapEntry| fin.contains(x) implies (x == e1 || s2.contains(x)
            || xs.contains(x)) by {
            let k = choose|k: int| 0 <= k < fin.len() && fin[k] == x;
            assert(fin[k] == e1 || exists|jj: int| 0 <= jj < mid.len() && fin[k] == mid[jj]);
            if x != e1 {
                let kk = choose|kk: int| 0 <= kk < mid.len() && mid[kk] == x;
                assert(mid[kk] == y || exists|jj: int| 0 <= jj < s2.len() && mid[kk] == s2[jj]);
                if x == y {
                    assert(xs[0] == x);
                }
            }
        }
        assert forall|x: MemoryMapEntry| (x == e1 || s2.contains(x) || xs.contains(
            x,
        )) implies fin.contains(x) by {
            if x == e1 {
            } else if s2.contains(x) {
                assert(mid.contains(x));
            } else {
                assert(xs[0] == x);
                assert(mid.contains(y));
            }
        }
        if entries_pos(s) && e.base_addr < e.end_addr {
            assert forall|k: int| 0 <= k < fin.len() implies (#[trigger] fin[k]).base_addr
                < fin[k].end_addr by {
                assert(fin.contains(fin[k]));
                if fin[k] != e1 && fin[k] != y {
                    let kk = choose|kk: int| 0 <= kk < mid.len() && mid[kk] == fin[k];
                    let jj = choose|jj: int| 0 <= jj < s2.len() && s2[jj] == fin[k];
                }
            }
        }
    }
}

/// The full `add_entry` algorithm preserves the map invariant: the
/// result is consistent, sorted, non-overlapping, and has no touching
/// same-kind neighbours left.
pub proof fn lemma_add_entry_spec_inv(s: Seq<MemoryMapEntry>, e: MemoryMapEntry)
    requires
        entries_wf(s),
        sorted_disjoint(s),
        entry_wf(e),
    ensures
        entries_wf(add_entry_spec(s, e)),
        sorted_disjoint(add_entry_spec(s, e)),
        coalesced_wf(add_entry_spec(s, e)),
        entries_pos(s) && e.base_addr < e.end_addr ==> entries_pos(add_entry_spec(s, e)),
        add_entry_spec(s, e).len() <= place_entry(s, e).len(),
{
    lemma_place_entry_inv(s, e);
    lemma_merge_adjacent_props(place_entry(s, e));
}

/// Every split remainder in the collected sequence comes from some
/// entry, and every split entry's remainder is collected.
pub proof fn lemma_extras_contains(s: Seq<MemoryMapEntry>, e: MemoryMapEntry)
    ensures
        forall|k: int|
            0 <= k < s.len() && reduce_extra(#[trigger] s[k], e) is Some ==> extras_all(
                s,
                e,
            ).contains(reduce_extra(s[k], e)->Some_0),
        forall|i: int|
            0 <= i < extras_all(s, e).len() ==> exists|k: int|
                0 <= k < s.len() && reduce_extra(#[trigger] s[k], e) == Some(
                    #[trigger] extras_all(s, e)[i],
                ),
    decreases s.len(),
{
    if s.len() == 0 {
    } else {
        let sd = s.drop_last();
        lemma_extras_contains(sd, e);
        let prev = extras_all(sd, e);
        let r = extras_all(s, e);
        assert(forall|k: int| 0 <= k < sd.len() ==> sd[k] == s[k]);
        assert forall|k: int|
            0 <= k < s.len() && reduce_extra(#[trigger] s[k], e) is Some implies r.contains(
            reduce_extra(s[k], e)->Some_0) by {
            if k == s.len() - 1 {
                assert(r == prev.push(reduce_extra(s.last(), e)->Some_0));
                assert(r[prev.len() as int] == reduce_extra(s[k], e)->Some_0);
            } else {
                assert(prev.contains(reduce_extra(sd[k], e)->Some_0));
                let i = choose|i: int|
                    0 <= i < prev.len() && prev[i] == reduce_extra(sd[k], e)->Some_0;
                assert(r[i] == prev[i]);
            }
        }
        assert forall|i: int| 0 <= i < r.len() implies exists|k: int|
            0 <= k < s.len() && reduce_extra(#[trigger] s[k], e) == Some(#[trigger] r[i]) by {
            if i < prev.len() {
                assert(r[i] == prev[i]);
                let k = choose|k: int|
                    0 <= k < sd.len() && reduce_extra(#[trigger] sd[k], e) == Some(prev[i]);
                assert(reduce_extra(s[k], e) == Some(r[i]));
            } else {
                assert(reduce_extra(s[s.len() - 1], e) == Some(r[i]));
            }
        }
    }
}

/// Conservation of coverage: after `add_entry`, an address is covered
/// exactly when it was covered before or lies in the inserted range.
/// Together with the non-overlap invariant this says the map neither
/// loses nor double-counts any byte of any inserted range.
#[verifier::rlimit(100)]
pub proof fn lemma_add_entry_coverage(s: Seq<MemoryMapEntry>, e: MemoryMapEntry)
    requires
        entries_wf(s),
        sorted_disjoint(s),
        entry_wf(e),
    ensures
        forall|a: u64|
            addr_covered(add_entry_spec(s, e), a) <==> (addr_covered(s, a) || e.base_addr <= a
                < e.end_addr),
{
    lemma_place_entry_inv(s, e);
    lemma_merge_adjacent_covered(place_entry(s, e));
    lemma_coalesced_wf(s, e);
    let e1 = coalesced(s, e);
    lemma_remove_absorbed_props(s, e1);
    lemma_remove_absorbed_keeps(s, e1);
    let s1 = remove_absorbed(s, e1);
    let s2 = reduce_all(s1, e1);
    let xs = extras_all(s1, e1);
    lemma_extras_contains(s1, e1);
    let fin = place_entry(s, e);
    assert forall|a: u64| addr_covered(fin, a) implies (addr_covered(s, a) || e.base_addr <= a
        < e.end_addr) by {
        let k = choose|k: int| 0 <= k < fin.len() && (#[trigger] fin[k]).base_addr <= a
            < fin[k].end_addr;
        let x = fin[k];
        assert(fin.contains(x));
        if x == e1 {
            // Inside the coalesced range: either inside the original
            // range or inside an absorbed same-kind neighbour.
            if a < e.base_addr {
                lemma_find_merge_low_props(s, e, 0);
                let i = find_merge_low(s, e, 0);
                assert(e1.base_addr != e.base_addr ==> i >= 0 && s[i].base_addr == e1.base_addr
                    && s[i].end_addr == e.base_addr);
                assert(s[i].base_addr <= a < s[i].end_addr);
            } else if a >= e.end_addr {
                let el = coalesce_low(s, e);
                lemma_find_merge_high_props(s, el, 0);
                let i = find_merge_high(s, el, 0);
                assert(e1.end_addr != e.end_addr ==> i >= 0 && s[i].base_addr == e.end_addr
                    && s[i].end_addr == e1.end_addr);
                assert(s[i].base_addr <= a < s[i].end_addr);
            }
        } else if s2.contains(x) {
            let j = choose|j: int| 0 <= j < s2.len() && s2[j] == x;
            lemma_reduce_props(s1[j], e1);
            // The survivor sits inside its original entry.
            let jj = choose|jj: int| 0 <= jj < s.len() && s1[j] == s[jj];
            assert(s[jj].base_addr <= a < s[jj].end_addr);
        } else {
            let i = choose|i: int| 0 <= i < xs.len() && xs[i] == x;
            let j = choose|j: int|
                0 <= j < s1.len() && reduce_extra(#[trigger] s1[j], e1) == Some(x);
            lemma_reduce_props(s1[j], e1);
            let jj = choose|jj: int| 0 <= jj < s.len() && s1[j] == s[jj];
            assert(s[jj].base_addr <= a < s[jj].end_addr);
        }
    }
    assert forall|a: u64| (addr_covered(s, a) || e.base_addr <= a < e.end_addr) implies
        addr_covered(fin, a) by {
        if e1.base_addr <= a < e1.end_addr {
            assert(fin.contains(e1));
            let k = choose|k: int| 0 <= k < fin.len() && fin[k] == e1;
            assert(addr_covered(fin, a));
        } else {
            let j = choose|j: int| 0 <= j < s.len() && (#[trigger] s[j]).base_addr <= a
                < s[j].end_addr;
            let x = s[j];
            // Not absorbed (else `a` would lie inside the coalesced
            // range), so `x` survives removal.
            assert(!absorbed_spec(e1, x));
            assert(s1.contains(x));
            let k = choose|k: int| 0 <= k < s1.len() && s1[k] == x;
            lemma_reduce_props(x, e1);
            let m = reduce_main(x, e1);
            let ex = reduce_extra(x, e1);
            // `a` avoids the claimed range, so it stays inside the
            // survivor or the split remainder.
            if m.base_addr <= a < m.end_addr {
                assert(s2[k] == m);
                assert(s2.contains(m));
                assert(fin.contains(m));
                let kk = choose|kk: int| 0 <= kk < fin.len() && fin[kk] == m;
                assert(addr_covered(fin, a));
            } else {
                assert(ex is Some);
                let y = ex->Some_0;
                assert(y.base_addr <= a < y.end_addr);
                assert(xs.contains(y));
                assert(fin.contains(y));
                let kk = choose|kk: int| 0 <= kk < fin.len() && fin[kk] == y;
                assert(addr_covered(fin, a));
            }
        }
    }
}

/// A consistent entry built from its bounds.
pub open spec fn mk_entry(base: u64, end: u64, t: EntryType) -> MemoryMapEntry {
    MemoryMapEntry {
        base_addr: base,
        size: MemSize { bytes: (end - base) as u64 },
        end_addr: end,
        entry_type: t,
    }
}

/// With no splits at all, no remainders are collected.
pub proof fn lemma_extras_none(s: Seq<MemoryMapEntry>, e: MemoryMapEntry)
    requires
        forall|j: int| 0 <= j < s.len() ==> reduce_extra(#[trigger] s[j], e) is None,
    ensures
        extras_all(s, e) == Seq::<MemoryMapEntry>::empty(),
    decreases s.len(),
{
    if s.len() == 0 {
        assert(extras_all(s, e) =~= Seq::<MemoryMapEntry>::empty());
    } else {
        let sd = s.drop_last();
        assert(forall|j: int| 0 <= j < sd.len() ==> sd[j] == s[j]);
        lemma_extras_none(sd, e);
    }
}

/// With exactly one split, exactly its remainder is collected.
pub proof fn lemma_extras_single(s: Seq<MemoryMapEntry>, e: MemoryMapEntry, k: int)
    requires
        0 <= k < s.len(),
        reduce_extra(s[k], e) is Some,
        forall|j: int| 0 <= j < s.len() && j != k ==> reduce_extra(#[trigger] s[j], e) is None,
    ensures
        extras_all(s, e) == seq![reduce_extra(s[k], e)->Some_0],
    decreases s.len(),
{
    let sd = s.drop_last();
    assert(forall|j: int| 0 <= j < sd.len() ==> sd[j] == s[j]);
    if k == s.len() - 1 {
        lemma_extras_none(sd, e);
        assert(extras_all(s, e) =~= seq![reduce_extra(s[k], e)->Some_0]);
    } else {
        lemma_extras_single(sd, e, k);
        assert(reduce_extra(s.last(), e) is None);
    }
}

/// Inserting an entry that touches no present range with its own
/// kind keeps the no-touching-same-kind property.
#[verifier::rlimit(100)]
#[verifier::spinoff_prover]
proof fn lemma_insert_keeps_coalesced(s: Seq<MemoryMapEntry>, x: MemoryMapEntry)
    requires
        entries_wf(s),
        sorted_disjoint(s),
        coalesced_wf(s),
        entries_pos(s),
        entry_wf(x),
        x.base_addr < x.end_addr,
        forall|j: int| 0 <= j < s.len() ==> ranges_disjoint(#[trigger] s[j], x),
        forall|j: int|
            0 <= j < s.len() ==> !((#[trigger] s[j]).end_addr == x.base_addr && s[j].entry_type
                == x.entry_type),
        forall|j: int|
            0 <= j < s.len() ==> !((#[trigger] s[j]).base_addr == x.end_addr && s[j].entry_type
                == x.entry_type),
    ensures
        coalesced_wf(insert_sorted(s, x)),
{
    let p = insert_pos(s, x, 0);
    lemma_insert_pos_props(s, x, 0);
    s.insert_ensures(p, x);
    let r = insert_sorted(s, x);
    assert forall|i: int|
        #![trigger r[i], r[i + 1]]
        0 <= i < r.len() - 1 implies !(r[i].end_addr == r[i + 1].base_addr && r[i].entry_type
        == r[i + 1].entry_type) by {
        if i + 1 < p {
            assert(r[i] == s[i] && r[i + 1] == s[i + 1]);
        } else if i + 1 == p {
            assert(r[i] == s[i] && r[i + 1] == x);
        } else if i == p {
            assert(r[i] == x && r[i + 1] == s[i]);
            assert(!(s[i].base_addr == x.end_addr && s[i].entry_type == x.entry_type));
        } else {
            assert(r[i] == s[i - 1] && r[i + 1] == s[i]);
        }
    }
}

/// Coalescing law: inserting the `Free` ranges `[a,b)` and then
/// `[b,c)` into a map whose entries neither intersect `[a,c)` nor
/// adjoin it with another `Free` range gives exactly the map that
/// inserting the single `Free` range `[a,c)` gives: the two ranges
/// appear as the one entry `[a,c)`, everything else untouched.
#[verifier::rlimit(100)]
pub proof fn lemma_free_coalesce(s: Seq<MemoryMapEntry>, a: u64, b: u64, c: u64)
    requires
        entries_wf(s),
        sorted_disjoint(s),
        coalesced_wf(s),
        a < b < c,
        forall|j: int| 0 <= j < s.len() ==> (#[trigger] s[j]).base_addr < s[j].end_addr,
        forall|j: int|
            0 <= j < s.len() ==> (#[trigger] s[j]).end_addr <= a || s[j].base_addr >= c,
        forall|j: int|
            0 <= j < s.len() ==> !((#[trigger] s[j]).end_addr == a && s[j].entry_type
                == EntryType::Free),
        forall|j: int|
            0 <= j < s.len() ==> !((#[trigger] s[j]).base_addr == c && s[j].entry_type
                == EntryType::Free),
    ensures
        add_entry_spec(
            add_entry_spec(s, mk_entry(a, b, EntryType::Free)),
            mk_entry(b, c, EntryType::Free),
        ) == add_entry_spec(s, mk_entry(a, c, EntryType::Free)),
        add_entry_spec(
            add_entry_spec(s, mk_entry(a, b, EntryType::Free)),
            mk_entry(b, c, EntryType::Free),
        ).contains(mk_entry(a, c, EntryType::Free)),
        add_entry_spec(
            add_entry_spec(s, mk_entry(a, b, EntryType::Free)),
            mk_entry(b, c, EntryType::Free),
        ).len() == s.len() + 1,
{
    let fab = mk_entry(a, b, EntryType::Free);
    let fbc = mk_entry(b, c, EntryType::Free);
    let fac = mk_entry(a, c, EntryType::Free);

    // First insertion: nothing touches `[a,b)`, so it is placed as is.
    lemma_find_merge_low_none(s, fab, 0);
    assert forall|j: int| 0 <= j < s.len() implies !((#[trigger] s[j]).base_addr
        == fab.end_addr && s[j].entry_type == fab.entry_type) by {
        assert(entry_wf(s[j]));
    }
    lemma_find_merge_high_none(s, fab, 0);
    assert(coalesced(s, fab) == fab);
    assert forall|j: int| 0 <= j < s.len() implies !absorbed_spec(fab, #[trigger] s[j]) by {}
    lemma_remove_absorbed_noop(s, fab);
    assert forall|j: int| 0 <= j < s.len() implies reduce_main(#[trigger] s[j], fab) == s[j]
        && reduce_extra(s[j], fab) is None by {
        assert(!overlaps_spec(s[j], fab));
    }
    lemma_reduce_noop(s, fab);
    assert(place_entry(s, fab) == insert_sorted(s, fab));
    assert forall|j: int| 0 <= j < s.len() implies ranges_disjoint(#[trigger] s[j], fab) by {
        assert(entry_wf(s[j]));
    }
    assert forall|j: int| 0 <= j < s.len() implies !((#[trigger] s[j]).base_addr
        == fab.end_addr && s[j].entry_type == fab.entry_type) by {
        assert(s[j].base_addr < s[j].end_addr);
    }
    lemma_insert_keeps_coalesced(s, fab);
    lemma_merge_adjacent_noop(insert_sorted(s, fab));
    assert(add_entry_spec(s, fab) == insert_sorted(s, fab));
    let m1 = insert_sorted(s, fab);
    let p1 = insert_pos(s, fab, 0);
    lemma_insert_pos_props(s, fab, 0);
    s.insert_ensures(p1, fab);
    lemma_insert_sorted_inv(s, fab);

    // Second insertion: `[b,c)` finds `[a,b)` as its low neighbour and
    // becomes `[a,c)`, which absorbs `[a,b)` and touches nothing else.
    assert forall|j: int| 0 <= j < p1 implies !((#[trigger] m1[j]).end_addr == fbc.base_addr
        && m1[j].entry_type == fbc.entry_type) by {
        assert(m1[j] == s[j]);
        assert(entry_wf(s[j]));
    }
    assert(m1[p1] == fab);
    lemma_find_merge_low_at(m1, fbc, 0, p1);
    let el2 = coalesce_low(m1, fbc);
    assert(el2 == mk_entry(a, c, EntryType::Free));
    assert forall|j: int| 0 <= j < m1.len() implies !((#[trigger] m1[j]).base_addr
        == el2.end_addr && m1[j].entry_type == el2.entry_type) by {
        if j < p1 {
            assert(m1[j] == s[j]);
            assert(entry_wf(s[j]));
        } else if j == p1 {
        } else {
            assert(m1[j] == s[j - 1]);
        }
    }
    lemma_find_merge_high_none(m1, el2, 0);
    assert(coalesced(m1, fbc) == fac);
    assert forall|j: int| 0 <= j < s.len() implies !absorbed_spec(fac, #[trigger] s[j]) by {
        assert(entry_wf(s[j]));
    }
    lemma_remove_inserted(s, fab, p1, fac);
    assert(remove_absorbed(m1, fac) == s);
    assert forall|j: int| 0 <= j < s.len() implies reduce_main(#[trigger] s[j], fac) == s[j]
        && reduce_extra(s[j], fac) is None by {
        assert(entry_wf(s[j]));
    }
    lemma_reduce_noop(s, fac);
    assert(place_entry(m1, fbc) == insert_sorted(s, fac));
    assert forall|j: int| 0 <= j < s.len() implies ranges_disjoint(#[trigger] s[j], fac) by {
        assert(entry_wf(s[j]));
    }
    lemma_insert_keeps_coalesced(s, fac);
    lemma_merge_adjacent_noop(insert_sorted(s, fac));
    assert(add_entry_spec(m1, fbc) == insert_sorted(s, fac));

    // The direct insertion of `[a,c)` runs through the same stages.
    lemma_find_merge_low_none(s, fac, 0);
    lemma_find_merge_high_none(s, fac, 0);
    assert(coalesced(s, fac) == fac);
    lemma_remove_absorbed_noop(s, fac);
    assert(place_entry(s, fac) == insert_sorted(s, fac));
    assert(add_entry_spec(s, fac) == insert_sorted(s, fac));

    lemma_insert_sorted_inv(s, fac);
}

/// Reduction law: reserving `[b,c)` strictly inside the `Free` range
/// `[a,d)` replaces that range by exactly three entries `[a,b)` Free,
/// `[b,c)` reserved and `[c,d)` Free, in order, with consistent sizes,
/// and leaves every other entry untouched.
#[verifier::rlimit(100)]
pub proof fn lemma_reserve_split(s: Seq<MemoryMapEntry>, k: int, b: u64, c: u64, t: EntryType)
    requires
        entries_wf(s),
        sorted_disjoint(s),
        coalesced_wf(s),
        t != EntryType::Free,
        0 <= k < s.len(),
        s[k].entry_type == EntryType::Free,
        s[k].base_addr < b < c < s[k].end_addr,
        forall|j: int| 0 <= j < s.len() ==> (#[trigger] s[j]).base_addr < s[j].end_addr,
    ensures
        add_entry_spec(s, mk_entry(b, c, t)) == s.take(k) + seq![
            mk_entry(s[k].base_addr, b, EntryType::Free),
            mk_entry(b, c, t),
            mk_entry(c, s[k].end_addr, EntryType::Free),
        ] + s.skip(k + 1),
        add_entry_spec(s, mk_entry(b, c, t)).len() == s.len() + 2,
{
    let a = s[k].base_addr;
    let d = s[k].end_addr;
    let e = mk_entry(b, c, t);
    let fab = mk_entry(a, b, EntryType::Free);
    let fcd = mk_entry(c, d, EntryType::Free);
    assert(entry_wf(s[k]));

    // No neighbour merges with the reserved range.
    assert forall|j: int| 0 <= j < s.len() implies !((#[trigger] s[j]).end_addr == e.base_addr
        && s[j].entry_type == e.entry_type) by {
        assert(entry_wf(s[j]));
        if j < k {
            assert(s[j].end_addr <= s[k].base_addr);
        } else if j > k {
            assert(s[j].base_addr >= s[k].end_addr);
        }
    }
    lemma_find_merge_low_none(s, e, 0);
    assert forall|j: int| 0 <= j < s.len() implies !((#[trigger] s[j]).base_addr == e.end_addr
        && s[j].entry_type == e.entry_type) by {
        assert(entry_wf(s[j]));
        if j < k {
            assert(s[j].end_addr <= s[k].base_addr);
        } else if j > k {
            assert(s[j].base_addr >= s[k].end_addr);
        }
    }
    lemma_find_merge_high_none(s, e, 0);
    assert(coalesced(s, e) == e);

    // Nothing is absorbed; only the split entry is reduced.
    assert forall|j: int| 0 <= j < s.len() implies !absorbed_spec(e, #[trigger] s[j]) by {
        assert(entry_wf(s[j]));
        if j < k {
            assert(s[j].end_addr <= s[k].base_addr);
        } else if j > k {
            assert(s[j].base_addr >= s[k].end_addr);
        }
    }
    lemma_remove_absorbed_noop(s, e);
    assert forall|j: int| 0 <= j < s.len() && j != k implies reduce_main(#[trigger] s[j], e)
        == s[j] && reduce_extra(s[j], e) is None by {
        assert(entry_wf(s[j]));
        if j < k {
            assert(s[j].end_addr <= s[k].base_addr);
        } else {
            assert(s[j].base_addr >= s[k].end_addr);
        }
        assert(!overlaps_spec(s[j], e));
    }
    assert(overlaps_spec(s[k], e));
    assert(reduce_main(s[k], e) == fab);
    assert(reduce_extra(s[k], e) == Some(fcd));
    let s2 = reduce_all(s, e);
    assert(s2 =~= s.update(k, fab));
    lemma_extras_single(s, e, k);
    assert(extras_all(s, e) == seq![fcd]);

    // The free tail lands right after the truncated entry, and the
    // reserved range lands between them.
    assert forall|j: int| 0 <= j <= k implies (#[trigger] s2[j]).base_addr < fcd.base_addr by {
        assert(entry_wf(s[j]));
        if j < k {
            assert(s[j].end_addr <= s[k].base_addr);
        }
    }
    lemma_insert_pos_exact(s2, fcd, k + 1);
    let mid = s2.insert(k + 1, fcd);
    s2.insert_ensures(k + 1, fcd);
    assert(insert_sorted(s2, fcd) == mid);
    let xs = extras_all(s, e);
    assert(xs.first() == fcd);
    assert(xs.drop_first() =~= Seq::<MemoryMapEntry>::empty());
    assert(insert_all(s2, xs) == insert_all(mid, xs.drop_first()));
    assert(insert_all(s2, xs) == mid);
    assert forall|j: int| 0 <= j <= k implies (#[trigger] mid[j]).base_addr < e.base_addr by {
        assert(mid[j] == s2[j]);
        assert(entry_wf(s[j]));
        if j < k {
            assert(s[j].end_addr <= s[k].base_addr);
        }
    }
    assert(mid[k + 1] == fcd);
    lemma_insert_pos_exact(mid, e, k + 1);
    mid.insert_ensures(k + 1, e);
    let fin = mid.insert(k + 1, e);
    assert(place_entry(s, e) == fin);
    assert(fin =~= s.take(k) + seq![fab, e, fcd] + s.skip(k + 1)) by {
        assert forall|j: int| 0 <= j < fin.len() implies fin[j] == (s.take(k) + seq![
            fab,
            e,
            fcd,
        ] + s.skip(k + 1))[j] by {
            if j < k {
                assert(fin[j] == mid[j]);
                assert(mid[j] == s2[j]);
            } else if j == k {
                assert(fin[j] == mid[j]);
                assert(mid[k] == s2[k]);
            } else if j == k + 1 {
                assert(fin[j] == e);
            } else if j == k + 2 {
                assert(fin[j] == mid[j - 1]);
                assert(mid[k + 1] == fcd);
            } else {
                assert(fin[j] == mid[j - 1]);
                assert(mid[j - 1] == s2[j - 2]);
            }
        }
    }
    // No touching same-kind neighbours remain, so the merge pass is a
    // no-op and the placed sequence is the final one.
    assert forall|i: int|
        #![trigger fin[i], fin[i + 1]]
        0 <= i < fin.len() - 1 implies !(fin[i].end_addr == fin[i + 1].base_addr
        && fin[i].entry_type == fin[i + 1].entry_type) by {
        assert(entry_wf(s[k]));
        if i + 1 < k {
            assert(fin[i] == s[i] && fin[i + 1] == s[i + 1]);
        } else if i + 1 == k {
            assert(fin[i] == s[i] && fin[i + 1] == fab);
            assert(!(s[k - 1].end_addr == s[k].base_addr && s[k - 1].entry_type
                == s[k].entry_type));
        } else if i == k {
            assert(fin[i] == fab && fin[i + 1] == e);
        } else if i == k + 1 {
            assert(fin[i] == e && fin[i + 1] == fcd);
        } else if i == k + 2 {
            assert(fin[i] == fcd && fin[i + 1] == s[k + 1]);
            assert(!(s[k].end_addr == s[k + 1].base_addr && s[k].entry_type == s[k
                + 1].entry_type));
        } else {
            assert(fin[i] == s[i - 2] && fin[i + 1] == s[i - 1]);
        }
    }
    lemma_merge_adjacent_noop(fin);
    assert(add_entry_spec(s, e) == fin);
}

/// Exec mirror of `overlaps_spec`.
pub fn entry_overlaps(x: &MemoryMapEntry, e: &MemoryMapEntry) -> (r: bool)
    ensures
        r == overlaps_spec(*x, *e),
{
    (x.base_addr <= e.base_addr && e.base_addr < x.end_addr) || (x.base_addr <= e.end_addr
        && e.end_addr < x.end_addr)
}

/// Exec mirror of `absorbed_spec`.
pub fn entry_absorbs(e: &MemoryMapEntry, x: &MemoryMapEntry) -> (r: bool)
    ensures
        r == absorbed_spec(*e, *x),
{
    e.base_addr <= x.base_addr && x.base_addr <= e.end_addr && e.base_addr <= x.end_addr
        && x.end_addr <= e.end_addr
}

/// Finds the first same-kind entry ending at `e`'s base.
fn find_merge_low_exec(v: &Vec<MemoryMapEntry>, e: &MemoryMapEntry) -> (r: Option<usize>)
    ensures
        match r {
            Some(i) => i < v@.len() && find_merge_low(v@, *e, 0) == i,
            None => find_merge_low(v@, *e, 0) == -1,
        },
{
    let n = v.len();
    let mut i: usize = 0;
    while i < n
        invariant
            0 <= i <= n,
            n == v@.len(),
            find_merge_low(v@, *e, 0) == find_merge_low(v@, *e, i as int),
        decreases n - i,
    {
        if v[i].end_addr == e.base_addr && v[i].entry_type == e.entry_type {
            return Some(i);
        }
        i = i + 1;
    }
    None
}

/// Finds the first same-kind entry starting at `e`'s end.
fn find_merge_high_exec(v: &Vec<MemoryMapEntry>, e: &MemoryMapEntry) -> (r: Option<usize>)
    ensures
        match r {
            Some(i) => i < v@.len() && find_merge_high(v@, *e, 0) == i,
            None => find_merge_high(v@, *e, 0) == -1,
        },
{
    let n = v.len();
    let mut i: usize = 0;
    while i < n
        invariant
            0 <= i <= n,
            n == v@.len(),
            find_merge_high(v@, *e, 0) == find_merge_high(v@, *e, i as int),
        decreases n - i,
    {
        if v[i].base_addr == e.end_addr && v[i].entry_type == e.entry_type {
            return Some(i);
        }
        i = i + 1;
    }
    None
}

/// Finds the sorted insertion position for `e`.
fn find_insert_pos(v: &Vec<MemoryMapEntry>, e: &MemoryMapEntry) -> (p: usize)
    ensures
        p == insert_pos(v@, *e, 0),
        p <= v@.len(),
{
    let n = v.len();
    let mut i: usize = 0;
    while i < n
        invariant
            0 <= i <= n,
            n == v@.len(),
            insert_pos(v@, *e, 0) == insert_pos(v@, *e, i as int),
        decreases n - i,
    {
        if v[i].base_addr >= e.base_addr {
            return i;
        }
        i = i + 1;
    }
    n
}

/// The bounded, ordered physical memory map.
pub struct MemoryMap {
    entries: Vec<MemoryMapEntry>,
    addr_end: u64,
}

impl View for MemoryMap {
    type V = Seq<MemoryMapEntry>;

    closed spec fn view(&self) -> Seq<MemoryMapEntry> {
        self.entries@
    }
}

impl MemoryMap {
    /// Total physical extent recorded by `set_total_mem`.
    pub closed spec fn total_mem_spec(&self) -> u64 {
        self.addr_end
    }

    /// The invariant every constructed map satisfies.
    pub open spec fn inv(&self) -> bool {
        map_inv(self@)
    }

    /// Creates an empty map with no recorded extent.
    pub fn new() -> (r: MemoryMap)
        ensures
            r@ == Seq::<MemoryMapEntry>::empty(),
            r.total_mem_spec() == 0,
            r.inv(),
    {
        MemoryMap { entries: Vec::new(), addr_end: 0 }
    }

    /// Read-only view of the entries.
    pub fn get_entries(&self) -> (r: &Vec<MemoryMapEntry>)
        ensures
            r@ == self@,
    {
        &self.entries
    }

    /// The recorded total physical extent.
    pub fn get_total_mem(&self) -> (r: MemSize)
        ensures
            r.bytes == self.total_mem_spec(),
    {
        MemSize { bytes: self.addr_end }
    }

    /// Records the total physical extent.
    pub fn set_total_mem(&mut self, total_mem: u64)
        ensures
            final(self).total_mem_spec() == total_mem,
            final(self)@ == old(self)@,
    {
        self.addr_end = total_mem;
    }

    /// Inserts a range into the map.
    ///
    /// Coalesces with same-kind neighbours that touch the new range,
    /// drops entries it fully contains, trims or splits entries it
    /// overlaps, and places it in sorted position.  Fails with
    /// `MapFull`, leaving the map unchanged, exactly when the result
    /// would exceed the fixed capacity.
    #[verifier::rlimit(100)]
    pub fn add_entry(&mut self, entry: MemoryMapEntry) -> (r: Result<(), BootError>)
        requires
            entry_wf(entry),
            entry.base_addr < entry.end_addr,
            old(self).inv(),
        ensures
            final(self).total_mem_spec() == old(self).total_mem_spec(),
            r is Ok ==> final(self)@ == add_entry_spec(old(self)@, entry),
            r is Err ==> final(self)@ == old(self)@ && r == Err::<(), BootError>(
                BootError::MapFull,
            ),
            r is Ok <==> add_entry_spec(old(self)@, entry).len() <= MAX_ENTRIES,
            final(self).inv(),
    {
        let ghost s0 = self.entries@;
        proof {
            lemma_place_entry_inv(s0, entry);
            lemma_add_entry_spec_inv(s0, entry);
        }
        let n = self.entries.len();
        let mut e = entry;

        // Coalesce with a same-kind neighbour that ends at our base.
        match find_merge_low_exec(&self.entries, &e) {
            Some(i) => {
                proof {
                    lemma_find_merge_low_props(s0, e, 0);
                    assert(entry_wf(s0[i as int]));
                }
                e.base_addr = self.entries[i].base_addr;
                e.size = MemSize { bytes: e.end_addr - e.base_addr };
            },
            None => {},
        }
        proof {
            assert(e == coalesce_low(s0, entry));
        }

        // Coalesce with a same-kind neighbour that starts at our end.
        match find_merge_high_exec(&self.entries, &e) {
            Some(i) => {
                proof {
                    lemma_find_merge_high_props(s0, e, 0);
                    assert(entry_wf(s0[i as int]));
                }
                e.end_addr = self.entries[i].end_addr;
                e.size = MemSize { bytes: e.end_addr - e.base_addr };
            },
            None => {},
        }
        let ghost e1 = coalesced(s0, entry);
        proof {
            assert(e == e1);
            lemma_coalesced_wf(s0, entry);
        }

        // Drop entries fully contained in the (grown) range.
        let mut kept: Vec<MemoryMapEntry> = Vec::new();
        let mut i: usize = 0;
        while i < n
            invariant
                0 <= i <= n,
                n == s0.len(),
                self@ == s0,
                e == e1,
                kept@ == remove_absorbed(s0.take(i as int), e1),
            decreases n - i,
        {
            proof {
                assert(s0.take(i as int + 1).drop_last() =~= s0.take(i as int));
                assert(s0.take(i as int + 1).last() == s0[i as int]);
            }
            let x = self.entries[i];
            if !entry_absorbs(&e, &x) {
                kept.push(x);
            }
            i = i + 1;
        }
        proof {
            assert(s0.take(n as int) =~= s0);
        }
        let ghost s1 = kept@;
        proof {
            assert(s1 == remove_absorbed(s0, e1));
            lemma_remove_absorbed_props(s0, e1);
        }

        // Trim or split every entry the range overlaps.
        let m = kept.len();
        let mut reduced: Vec<MemoryMapEntry> = Vec::new();
        let mut extras: Vec<MemoryMapEntry> = Vec::new();
        i = 0;
        while i < m
            invariant
                0 <= i <= m,
                m == s1.len(),
                kept@ == s1,
                e == e1,
                entry_wf(e1),
                reduced@.len() == i,
                forall|k: int| 0 <= k < i ==> reduced@[k] == reduce_main(s1[k], e1),
                extras@ == extras_all(s1.take(i as int), e1),
                forall|k: int|
                    0 <= k < s1.len() ==> entry_wf(#[trigger] s1[k]) && !absorbed_spec(e1, s1[k]),
            decreases m - i,
        {
            proof {
                assert(s1.take(i as int + 1).drop_last() =~= s1.take(i as int));
                assert(s1.take(i as int + 1).last() == s1[i as int]);
            }
            let x = kept[i];
            if entry_overlaps(&x, &e) {
                if e.base_addr <= x.base_addr {
                    reduced.push(
                        MemoryMapEntry {
                            base_addr: e.end_addr,
                            size: MemSize { bytes: x.end_addr - e.end_addr },
                            end_addr: x.end_addr,
                            entry_type: x.entry_type,
                        },
                    );
                } else if e.end_addr >= x.end_addr {
                    reduced.push(
                        MemoryMapEntry {
                            base_addr: x.base_addr,
                            size: MemSize { bytes: e.base_addr - x.base_addr },
                            end_addr: e.base_addr,
                            entry_type: x.entry_type,
                        },
                    );
                } else {
                    reduced.push(
                        MemoryMapEntry {
                            base_addr: x.base_addr,
                            size: MemSize { bytes: e.base_addr - x.base_addr },
                            end_addr: e.base_addr,
                            entry_type: x.entry_type,
                        },
                    );
                    extras.push(
                        MemoryMapEntry {
                            base_addr: e.end_addr,
                            size: MemSize { bytes: x.end_addr - e.end_addr },
                            end_addr: x.end_addr,
                            entry_type: EntryType::Free,
                        },
                    );
                }
            } else {
                reduced.push(x);
            }
            i = i + 1;
        }
        proof {
            assert(s1.take(m as int) =~= s1);
            assert(reduced@ =~= reduce_all(s1, e1));
            assert(extras@ == extras_all(s1, e1));
        }
        let ghost s2 = reduce_all(s1, e1);
        let ghost xs = extras_all(s1, e1);

        // Insert the split remainders, then the new range, in sorted
        // position.
        let mut out = reduced;
        let ne = extras.len();
        proof {
            assert(xs.skip(0) =~= xs);
        }
        i = 0;
        while i < ne
            invariant
                0 <= i <= ne,
                ne == xs.len(),
                extras@ == xs,
                e == e1,
                out@.len() == s2.len() + i,
                insert_all(out@, xs.skip(i as int)) == insert_all(s2, xs),
            decreases ne - i,
        {
            let x = extras[i];
            let p = find_insert_pos(&out, &x);
            let ghost prev = out@;
            proof {
                let rest = xs.skip(i as int);
                assert(rest.first() == xs[i as int]);
                assert(rest.drop_first() =~= xs.skip(i as int + 1));
            }
            out.insert(p, x);
            proof {
                assert(out@ == insert_sorted(prev, x));
                assert(insert_all(prev, xs.skip(i as int)) == insert_all(
                    out@,
                    xs.skip(i as int + 1),
                ));
            }
            i = i + 1;
        }
        proof {
            assert(xs.skip(ne as int) =~= Seq::<MemoryMapEntry>::empty());
            assert(insert_all(out@, xs.skip(ne as int)) == out@);
        }
        let p = find_insert_pos(&out, &e);
        out.insert(p, e);
        proof {
            assert(out@ == place_entry(s0, entry));
        }

        // Coalesce survivors the reduction step trimmed into touching
        // the placed range.
        let ghost placed = out@;
        proof {
            assert(entries_wf(placed) && sorted_disjoint(placed));
        }
        let m2 = out.len();
        let mut merged: Vec<MemoryMapEntry> = Vec::new();
        i = 0;
        while i < m2
            invariant
                0 <= i <= m2,
                m2 == placed.len(),
                out@ == placed,
                merged@ == merge_adjacent(placed.take(i as int)),
                entries_wf(merged@),
                entries_wf(placed),
            decreases m2 - i,
        {
            proof {
                assert(placed.take(i as int + 1).drop_last() =~= placed.take(i as int));
                assert(placed.take(i as int + 1).last() == placed[i as int]);
                assert(entry_wf(placed[i as int]));
            }
            let x = out[i];
            let ml = merged.len();
            if ml > 0 && merged[ml - 1].end_addr == x.base_addr && merged[ml - 1].entry_type
                == x.entry_type {
                let prev_last = merged[ml - 1];
                proof {
                    assert(entry_wf(merged@[ml - 1]));
                }
                merged[ml - 1] = MemoryMapEntry {
                    base_addr: prev_last.base_addr,
                    size: MemSize { bytes: x.end_addr - prev_last.base_addr },
                    end_addr: x.end_addr,
                    entry_type: x.entry_type,
                };
                proof {
                    assert(merged@ =~= merge_adjacent(placed.take(i as int)).drop_last().push(
                        merge_two(prev_last, placed[i as int]),
                    ));
                    assert(merged@ == merge_adjacent(placed.take(i as int + 1)));
                }
            } else {
                merged.push(x);
                proof {
                    assert(merged@ == merge_adjacent(placed.take(i as int + 1)));
                }
            }
            i = i + 1;
        }
        proof {
            assert(placed.take(m2 as int) =~= placed);
            assert(merged@ == add_entry_spec(s0, entry));
        }
        if merged.len() > MAX_ENTRIES {
            return Err(BootError::MapFull);
        }
        self.entries = merged;
        Ok(())
    }

    /// Sum of the sizes of all `Free` entries.
    pub fn get_free_mem(&self) -> (r: MemSize)
        requires
            self.inv(),
        ensures
            r.bytes == free_bytes(self@),
    {
        let n = self.entries.len();
        let mut bytes: u64 = 0;
        let mut i: usize = 0;
        while i < n
            invariant
                0 <= i <= n,
                n == self@.len(),
                map_inv(self@),
                bytes == free_bytes(self@.take(i as int)),
                bytes <= if i == 0 { 0int } else { self@[i as int - 1].end_addr as int },
            decreases n - i,
        {
            proof {
                assert(self@.take(i as int + 1).drop_last() =~= self@.take(i as int));
                assert(self@.take(i as int + 1).last() == self@[i as int]);
            }
            let e = &self.entries[i];
            match e.entry_type {
                EntryType::Free => {
                    proof {
                        if i > 0 {
                            assert(self@[i as int - 1].end_addr <= self@[i as int].base_addr);
                        }
                        assert(entry_wf(self@[i as int]));
                    }
                    bytes = bytes + e.size.bytes;
                },
                _ => {
                    proof {
                        if i > 0 {
                            assert(self@[i as int - 1].end_addr <= self@[i as int].base_addr);
                            assert(entry_wf(self@[i as int]));
                        }
                    }
                },
            }
            i = i + 1;
        }
        proof {
            assert(self@.take(n as int) =~= self@);
        }
        MemSize { bytes }
    }
}

} // verus!
