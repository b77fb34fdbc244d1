//! The AArch64 translation-table engine: a 4-level table with a 4 KiB
//! granule, supporting 4 KiB page, 2 MiB block and 1 GiB block
//! mappings, with walk, map, unmap and an explicit drop discipline.
//!
//! Tables live inside page frames of the modelled physical memory;
//! a descriptor is one 64-bit word, interpreted by its position in the
//! walk.  The `walk_spec` function is the single meaning of the table:
//! every operation's contract says exactly how it changes `walk_spec`.
use vstd::prelude::*;

use crate::errors::BootError;
use crate::frame_alloc::{lemma_frame_align, PageFrameAllocator};
use crate::phys::{word_at, PhysMem};

verus! {

/// One gibibyte.
pub const GIB: u64 = 0x40000000;

/// Bits 47:12 of a virtual address: the part that selects the page.
pub const VA_PAGE_MASK: u64 = 0xFFFF_FFFF_F000;

/// Bits 47:21 of a virtual address: the part that selects a 2 MiB block.
pub const VA_BLOCK2M_MASK: u64 = 0xFFFF_FFE0_0000;

/// Bits 47:30 of a virtual address: the part that selects a 1 GiB block.
pub const VA_BLOCK1G_MASK: u64 = 0xFFFF_C000_0000;

/// An index into the eight-entry MAIR register.
#[derive(Clone, Copy, PartialEq, Eq, Structural, Debug)]
pub struct MemoryType(pub u8);

impl MemoryType {
    /// Device memory: non-gathering, non-reordering, no early
    /// write-acknowledge (MAIR index 0).
    pub fn device() -> (r: MemoryType)
        ensures
            r.0 == 0,
    {
        MemoryType(0)
    }

    /// Normal cacheable memory: inner and outer write-back,
    /// non-transient, read/write-allocate (MAIR index 1).
    pub fn normal_cacheable() -> (r: MemoryType)
        ensures
            r.0 == 1,
    {
        MemoryType(1)
    }
}

/// A virtual address in the VMSAv8-64 layout.
#[derive(Clone, Copy, PartialEq, Eq, Structural, Debug)]
pub struct VirtualAddr(pub u64);

/// Level-0 index: bits 47:39.
pub open spec fn l0_idx(va: u64) -> u64 {
    (va >> 39) & 0x1FF
}

/// Level-1 index: bits 38:30.
pub open spec fn l1_idx(va: u64) -> u64 {
    (va >> 30) & 0x1FF
}

/// Level-2 index: bits 29:21.
pub open spec fn l2_idx(va: u64) -> u64 {
    (va >> 21) & 0x1FF
}

/// Level-3 index: bits 20:12.
pub open spec fn l3_idx(va: u64) -> u64 {
    (va >> 12) & 0x1FF
}

/// Bit 0: the descriptor is valid.
pub open spec fn desc_valid(d: u64) -> bool {
    d & 1 == 1
}

/// Bit 1: at levels 0-2, the descriptor points to a next-level table
/// (otherwise it is a block); at level 3 the same bit means "page".
pub open spec fn desc_is_table(d: u64) -> bool {
    d & 2 == 2
}

/// Bits 47:12: physical address of the next-level table.
pub open spec fn next_table_addr(d: u64) -> u64 {
    ((d >> 12) & 0xF_FFFF_FFFF) << 12
}

/// Bits 47:30: output address of a 1 GiB block descriptor.
pub open spec fn out_addr_1g(d: u64) -> u64 {
    ((d >> 30) & 0x3_FFFF) << 30
}

/// Bits 47:21: output address of a 2 MiB block descriptor.
pub open spec fn out_addr_2m(d: u64) -> u64 {
    ((d >> 21) & 0x7FF_FFFF) << 21
}

/// Bits 47:12: output address of a page descriptor.
pub open spec fn out_addr_4k(d: u64) -> u64 {
    ((d >> 12) & 0xF_FFFF_FFFF) << 12
}

/// A table descriptor for a next-level table at `t`: valid, table.
pub open spec fn make_table_desc(t: u64) -> u64 {
    t | 3
}

/// A block descriptor: valid, not table, access flag set, attribute
/// index in bits 4:2, output address in the block's own bits.
pub open spec fn make_block_desc(pa: u64, attr: u8) -> u64 {
    pa | ((attr as u64) << 2) | 0x401
}

/// A page descriptor: valid, page bit, access flag, attribute index.
pub open spec fn make_page_desc(pa: u64, attr: u8) -> u64 {
    pa | ((attr as u64) << 2) | 0x403
}

/// Byte address of entry `i` of the table at `t`.
pub open spec fn entry_addr(t: u64, i: u64) -> u64 {
    (t + 8 * i) as u64
}

/// The descriptor at entry `i` of the table at `t`.
pub open spec fn entry_at(m: Seq<u64>, t: u64, i: u64) -> u64 {
    word_at(m, entry_addr(t, i))
}

/// The meaning of the table rooted at `root` over memory `m`: the
/// physical address `va` translates to, or `None` if the walk fails.
#[verifier::opaque]
pub open spec fn walk_spec(m: Seq<u64>, root: u64, va: u64) -> Option<u64> {
    let d0 = entry_at(m, root, l0_idx(va));
    if !desc_valid(d0) {
        None
    } else {
        let t1 = next_table_addr(d0);
        let d1 = entry_at(m, t1, l1_idx(va));
        if !desc_valid(d1) {
            None
        } else if !desc_is_table(d1) {
            Some(out_addr_1g(d1) | (va & 0x3FFF_FFFF))
        } else {
            let t2 = next_table_addr(d1);
            let d2 = entry_at(m, t2, l2_idx(va));
            if !desc_valid(d2) {
                None
            } else if !desc_is_table(d2) {
                Some(out_addr_2m(d2) | (va & 0x1F_FFFF))
            } else {
                let t3 = next_table_addr(d2);
                let d3 = entry_at(m, t3, l3_idx(va));
                if desc_valid(d3) && desc_is_table(d3) {
                    Some(out_addr_4k(d3) | (va & 0xFFF))
                } else {
                    None
                }
            }
        }
    }
}

/// A frame usable as a table over memory `m`.
pub open spec fn table_ok(t: u64, m: Seq<u64>) -> bool {
    &&& t != 0
    &&& t % 4096 == 0
    &&& t + 4096 <= m.len() * 8
}

/// Every frame of a table tree, root first, then the level-1, level-2
/// and level-3 pools.
pub open spec fn all_frames(root: u64, s1: Seq<u64>, s2: Seq<u64>, s3: Seq<u64>) -> Seq<u64> {
    seq![root] + s1 + s2 + s3
}

/// Well-formedness of a table tree over memory `m`, stated over the
/// raw frame pools:
/// - memory fits the 48-bit physical address space;
/// - every owned frame is a distinct, valid table frame;
/// - valid level-0 descriptors point into the level-1 pool, valid
///   level-1/2 table descriptors into the next pool;
/// - two distinct table descriptors never share a child.
pub open spec fn wf_data(m: Seq<u64>, root: u64, s1: Seq<u64>, s2: Seq<u64>, s3: Seq<u64>) -> bool {
    &&& m.len() * 8 <= 0x1_0000_0000_0000
    &&& table_ok(root, m)
    &&& forall|k: int| 0 <= k < s1.len() ==> table_ok(#[trigger] s1[k], m)
    &&& forall|k: int| 0 <= k < s2.len() ==> table_ok(#[trigger] s2[k], m)
    &&& forall|k: int| 0 <= k < s3.len() ==> table_ok(#[trigger] s3[k], m)
    &&& all_frames(root, s1, s2, s3).no_duplicates()
    &&& children_l0(m, root, s1)
    &&& children_l1(m, s1, s2)
    &&& children_l2(m, s2, s3)
    &&& inj_l0(m, root)
    &&& inj_l1(m, s1)
    &&& inj_l2(m, s2)
}

/// Every valid level-0 descriptor is a table descriptor whose child
/// lies in the level-1 pool.
#[verifier::opaque]
pub open spec fn children_l0(m: Seq<u64>, root: u64, s1: Seq<u64>) -> bool {
    forall|i: u64|
        i < 512 && desc_valid(#[trigger] entry_at(m, root, i)) ==> desc_is_table(
            entry_at(m, root, i),
        ) && s1.contains(next_table_addr(entry_at(m, root, i)))
}

/// Every valid level-1 table descriptor's child lies in the level-2
/// pool.
#[verifier::opaque]
pub open spec fn children_l1(m: Seq<u64>, s1: Seq<u64>, s2: Seq<u64>) -> bool {
    forall|k: int, i: u64|
        0 <= k < s1.len() && i < 512 && desc_valid(#[trigger] entry_at(m, s1[k], i))
            && desc_is_table(entry_at(m, s1[k], i)) ==> s2.contains(
            next_table_addr(entry_at(m, s1[k], i)),
        )
}

/// Every valid level-2 table descriptor's child lies in the level-3
/// pool.
#[verifier::opaque]
pub open spec fn children_l2(m: Seq<u64>, s2: Seq<u64>, s3: Seq<u64>) -> bool {
    forall|k: int, i: u64|
        0 <= k < s2.len() && i < 512 && desc_valid(#[trigger] entry_at(m, s2[k], i))
            && desc_is_table(entry_at(m, s2[k], i)) ==> s3.contains(
            next_table_addr(entry_at(m, s2[k], i)),
        )
}

/// No two valid level-0 descriptors share a child table.
#[verifier::opaque]
pub open spec fn inj_l0(m: Seq<u64>, root: u64) -> bool {
    forall|i: u64, j: u64|
        i < 512 && j < 512 && i != j && desc_valid(#[trigger] entry_at(m, root, i)) && desc_valid(
            #[trigger] entry_at(m, root, j),
        ) ==> next_table_addr(entry_at(m, root, i)) != next_table_addr(entry_at(m, root, j))
}

/// No two valid level-1 table descriptors share a child table.
#[verifier::opaque]
pub open spec fn inj_l1(m: Seq<u64>, s1: Seq<u64>) -> bool {
    forall|k: int, i: u64, k2: int, i2: u64|
        0 <= k < s1.len() && i < 512 && 0 <= k2 < s1.len() && i2 < 512 && (k != k2 || i != i2)
            && desc_valid(#[trigger] entry_at(m, s1[k], i)) && desc_is_table(entry_at(m, s1[k], i))
            && desc_valid(#[trigger] entry_at(m, s1[k2], i2)) && desc_is_table(
            entry_at(m, s1[k2], i2),
        ) ==> next_table_addr(entry_at(m, s1[k], i)) != next_table_addr(entry_at(m, s1[k2], i2))
}

/// No two valid level-2 table descriptors share a child table.
#[verifier::opaque]
pub open spec fn inj_l2(m: Seq<u64>, s2: Seq<u64>) -> bool {
    forall|k: int, i: u64, k2: int, i2: u64|
        0 <= k < s2.len() && i < 512 && 0 <= k2 < s2.len() && i2 < 512 && (k != k2 || i != i2)
            && desc_valid(#[trigger] entry_at(m, s2[k], i)) && desc_is_table(entry_at(m, s2[k], i))
            && desc_valid(#[trigger] entry_at(m, s2[k2], i2)) && desc_is_table(
            entry_at(m, s2[k2], i2),
        ) ==> next_table_addr(entry_at(m, s2[k], i)) != next_table_addr(entry_at(m, s2[k2], i2))
}

/// All four level indices lie below 512.
pub proof fn lemma_idx_bounds(va: u64)
    ensures
        l0_idx(va) < 512,
        l1_idx(va) < 512,
        l2_idx(va) < 512,
        l3_idx(va) < 512,
{
    assert((va >> 39) & 0x1FF < 512 && (va >> 30) & 0x1FF < 512 && (va >> 21) & 0x1FF < 512 && (
    va >> 12) & 0x1FF < 512) by (bit_vector);
}

/// Entry addresses are word-aligned and stay inside the table frame.
pub proof fn lemma_entry_addr_ok(t: u64, i: u64, m: Seq<u64>)
    requires
        table_ok(t, m),
        i < 512,
        m.len() * 8 <= u64::MAX,
    ensures
        entry_addr(t, i) % 8 == 0,
        entry_addr(t, i) + 8 <= m.len() * 8,
        entry_addr(t, i) as int == t + 8 * i,
        entry_addr(t, i) as int / 8 == t as int / 8 + i,
{
    lemma_frame_align(t, 4096);
    assert((t + 8 * i) % 8 == 0 && (t + 8 * i) as int / 8 == t as int / 8 + i)
        by (nonlinear_arith)
        requires
            t % 8 == 0,
            i < 512,
            t + 4096 <= u64::MAX,
    ;
}

/// Index and membership structure of a frame sequence.
pub proof fn lemma_frames_facts(root: u64, s1: Seq<u64>, s2: Seq<u64>, s3: Seq<u64>)
    ensures
        all_frames(root, s1, s2, s3).len() == 1 + s1.len() + s2.len() + s3.len(),
        all_frames(root, s1, s2, s3)[0] == root,
        forall|k: int|
            0 <= k < s1.len() ==> all_frames(root, s1, s2, s3)[1 + k] == #[trigger] s1[k],
        forall|k: int|
            0 <= k < s2.len() ==> all_frames(root, s1, s2, s3)[1 + s1.len() + k] == #[trigger] s2[k],
        forall|k: int|
            0 <= k < s3.len() ==> all_frames(root, s1, s2, s3)[1 + s1.len() + s2.len() + k]
                == #[trigger] s3[k],
        forall|t: u64|
            #[trigger] all_frames(root, s1, s2, s3).contains(t) <==> (t == root || s1.contains(t)
                || s2.contains(t) || s3.contains(t)),
{
    let a = all_frames(root, s1, s2, s3);
    assert forall|t: u64| #[trigger] a.contains(t) implies (t == root || s1.contains(t)
        || s2.contains(t) || s3.contains(t)) by {
        let k = choose|k: int| 0 <= k < a.len() && a[k] == t;
        if k == 0 {
        } else if k < 1 + s1.len() {
            assert(s1[k - 1] == t);
        } else if k < 1 + s1.len() + s2.len() {
            assert(s2[k - 1 - s1.len()] == t);
        } else {
            assert(s3[k - 1 - s1.len() - s2.len()] == t);
        }
    }
    assert forall|t: u64| (t == root || s1.contains(t) || s2.contains(t) || s3.contains(
        t,
    )) implies #[trigger] a.contains(t) by {
        if t == root {
            assert(a[0] == t);
        } else if s1.contains(t) {
            let k = choose|k: int| 0 <= k < s1.len() && s1[k] == t;
            assert(a[1 + k] == t);
        } else if s2.contains(t) {
            let k = choose|k: int| 0 <= k < s2.len() && s2[k] == t;
            assert(a[1 + s1.len() + k] == t);
        } else {
            let k = choose|k: int| 0 <= k < s3.len() && s3[k] == t;
            assert(a[1 + s1.len() + s2.len() + k] == t);
        }
    }
}

/// Distinctness across a duplicate-free frame sequence: the root is in
/// no pool, and the pools are pairwise disjoint.
pub proof fn lemma_frames_distinct(root: u64, s1: Seq<u64>, s2: Seq<u64>, s3: Seq<u64>)
    requires
        all_frames(root, s1, s2, s3).no_duplicates(),
    ensures
        !s1.contains(root),
        !s2.contains(root),
        !s3.contains(root),
        forall|k: int, k2: int|
            0 <= k < s1.len() && 0 <= k2 < s2.len() ==> #[trigger] s1[k] != #[trigger] s2[k2],
        forall|k: int, k2: int|
            0 <= k < s1.len() && 0 <= k2 < s3.len() ==> #[trigger] s1[k] != #[trigger] s3[k2],
        forall|k: int, k2: int|
            0 <= k < s2.len() && 0 <= k2 < s3.len() ==> #[trigger] s2[k] != #[trigger] s3[k2],
        s1.no_duplicates(),
        s2.no_duplicates(),
        s3.no_duplicates(),
        forall|k: int| 0 <= k < s1.len() ==> #[trigger] s1[k] != root,
        forall|k: int| 0 <= k < s2.len() ==> #[trigger] s2[k] != root,
        forall|k: int| 0 <= k < s3.len() ==> #[trigger] s3[k] != root,
{
    lemma_frames_facts(root, s1, s2, s3);
    let a = all_frames(root, s1, s2, s3);
    assert forall|k: int| 0 <= k < s1.len() implies #[trigger] s1[k] != root by {
        assert(a[0] == root && a[1 + k] == s1[k]);
    }
    assert forall|k: int| 0 <= k < s2.len() implies #[trigger] s2[k] != root by {
        assert(a[0] == root && a[1 + s1.len() + k] == s2[k]);
    }
    assert forall|k: int| 0 <= k < s3.len() implies #[trigger] s3[k] != root by {
        assert(a[0] == root && a[1 + s1.len() + s2.len() + k] == s3[k]);
    }
    if s1.contains(root) {
        let k = choose|k: int| 0 <= k < s1.len() && s1[k] == root;
        assert(s1[k] != root);
    }
    if s2.contains(root) {
        let k = choose|k: int| 0 <= k < s2.len() && s2[k] == root;
        assert(s2[k] != root);
    }
    if s3.contains(root) {
        let k = choose|k: int| 0 <= k < s3.len() && s3[k] == root;
        assert(s3[k] != root);
    }
    assert forall|k: int, k2: int| 0 <= k < s1.len() && 0 <= k2 < s2.len() implies #[trigger]
        s1[k] != #[trigger] s2[k2] by {
        assert(a[1 + k] == s1[k] && a[1 + s1.len() + k2] == s2[k2]);
    }
    assert forall|k: int, k2: int| 0 <= k < s1.len() && 0 <= k2 < s3.len() implies #[trigger]
        s1[k] != #[trigger] s3[k2] by {
        assert(a[1 + k] == s1[k] && a[1 + s1.len() + s2.len() + k2] == s3[k2]);
    }
    assert forall|k: int, k2: int| 0 <= k < s2.len() && 0 <= k2 < s3.len() implies #[trigger]
        s2[k] != #[trigger] s3[k2] by {
        assert(a[1 + s1.len() + k] == s2[k] && a[1 + s1.len() + s2.len() + k2] == s3[k2]);
    }
    assert forall|k: int, k2: int| 0 <= k < k2 < s1.len() implies s1[k] != s1[k2] by {
        assert(a[1 + k] == s1[k] && a[1 + k2] == s1[k2]);
    }
    assert forall|k: int, k2: int| 0 <= k < k2 < s2.len() implies s2[k] != s2[k2] by {
        assert(a[1 + s1.len() + k] == s2[k] && a[1 + s1.len() + k2] == s2[k2]);
    }
    assert forall|k: int, k2: int| 0 <= k < k2 < s3.len() implies s3[k] != s3[k2] by {
        assert(a[1 + s1.len() + s2.len() + k] == s3[k] && a[1 + s1.len() + s2.len() + k2]
            == s3[k2]);
    }
}

/// Distinct table entries occupy distinct memory words.
pub proof fn lemma_entry_words_distinct(m: Seq<u64>, t: u64, i: u64, t2: u64, i2: u64)
    requires
        table_ok(t, m),
        table_ok(t2, m),
        i < 512,
        i2 < 512,
        t != t2 || i != i2,
        m.len() * 8 <= 0x1_0000_0000_0000,
    ensures
        entry_addr(t, i) as int / 8 != entry_addr(t2, i2) as int / 8,
{
    lemma_entry_addr_ok(t, i, m);
    lemma_entry_addr_ok(t2, i2, m);
    if t != t2 {
        crate::frame_alloc::lemma_frame_words_disjoint(t, t2, 4096);
    }
}

/// Reading any table entry after a single entry write: only the
/// written slot changes.
pub proof fn lemma_entry_at_update(m: Seq<u64>, t: u64, i: u64, v: u64, t2: u64, i2: u64)
    requires
        table_ok(t, m),
        table_ok(t2, m),
        i < 512,
        i2 < 512,
        m.len() * 8 <= 0x1_0000_0000_0000,
    ensures
        entry_at(m.update(entry_addr(t, i) as int / 8, v), t2, i2) == if t2 == t && i2 == i {
            v
        } else {
            entry_at(m, t2, i2)
        },
{
    lemma_entry_addr_ok(t, i, m);
    lemma_entry_addr_ok(t2, i2, m);
    crate::phys::lemma_word_index(entry_addr(t, i), m.len() as int);
    crate::phys::lemma_word_index(entry_addr(t2, i2), m.len() as int);
    if !(t2 == t && i2 == i) {
        lemma_entry_words_distinct(m, t, i, t2, i2);
    }
}

/// Two memories that agree on every word of every owned table frame
/// give the same walk, and well-formedness carries over.
pub proof fn lemma_walk_agrees(
    m: Seq<u64>,
    m2: Seq<u64>,
    root: u64,
    s1: Seq<u64>,
    s2: Seq<u64>,
    s3: Seq<u64>,
)
    requires
        wf_data(m, root, s1, s2, s3),
        m2.len() == m.len(),
        forall|t: u64, i: u64|
            all_frames(root, s1, s2, s3).contains(t) && i < 512 ==> #[trigger] entry_at(m2, t, i)
                == entry_at(m, t, i),
    ensures
        wf_data(m2, root, s1, s2, s3),
        forall|va: u64| #[trigger] walk_spec(m2, root, va) == walk_spec(m, root, va),
{
    reveal(inj_l0);
    reveal(inj_l1);
    reveal(inj_l2);
    reveal(children_l0);
    reveal(children_l1);
    reveal(children_l2);
    reveal(walk_spec);
    lemma_frames_facts(root, s1, s2, s3);
    let a = all_frames(root, s1, s2, s3);
    assert(a.contains(root));
    assert forall|i: u64| i < 512 implies #[trigger] entry_at(m2, root, i) == entry_at(
        m,
        root,
        i,
    ) by {}
    assert forall|k: int, i: u64| 0 <= k < s1.len() && i < 512 implies #[trigger] entry_at(
        m2,
        s1[k],
        i,
    ) == entry_at(m, s1[k], i) by {
        assert(a.contains(s1[k]));
    }
    assert forall|k: int, i: u64| 0 <= k < s2.len() && i < 512 implies #[trigger] entry_at(
        m2,
        s2[k],
        i,
    ) == entry_at(m, s2[k], i) by {
        assert(a.contains(s2[k]));
    }
    assert forall|k: int, i: u64| 0 <= k < s3.len() && i < 512 implies #[trigger] entry_at(
        m2,
        s3[k],
        i,
    ) == entry_at(m, s3[k], i) by {
        assert(a.contains(s3[k]));
    }
    assert forall|va: u64| #[trigger] walk_spec(m2, root, va) == walk_spec(m, root, va) by {
        lemma_idx_bounds(va);
        let d0 = entry_at(m, root, l0_idx(va));
        if desc_valid(d0) {
            let t1x = next_table_addr(d0);
            assert(s1.contains(t1x));
            let k1 = choose|k: int| 0 <= k < s1.len() && s1[k] == t1x;
            let d1 = entry_at(m, t1x, l1_idx(va));
            if desc_valid(d1) && desc_is_table(d1) {
                let t2x = next_table_addr(d1);
                assert(s2.contains(t2x));
                let k2 = choose|k: int| 0 <= k < s2.len() && s2[k] == t2x;
                let d2 = entry_at(m, t2x, l2_idx(va));
                if desc_valid(d2) && desc_is_table(d2) {
                    let t3x = next_table_addr(d2);
                    assert(s3.contains(t3x));
                    let k3 = choose|k: int| 0 <= k < s3.len() && s3[k] == t3x;
                    assert(entry_at(m2, t3x, l3_idx(va)) == entry_at(m, t3x, l3_idx(va)));
                }
            }
        }
    }
}

/// The zero word is an invalid descriptor.
pub proof fn lemma_zero_desc_invalid()
    ensures
        !desc_valid(0u64),
{
    assert(0u64 & 1 != 1) by (bit_vector);
}

/// Field decomposition of a 1 GiB block descriptor.
pub proof fn lemma_block1g_fields(pa: u64, attr: u8)
    requires
        pa % 0x4000_0000 == 0,
        pa < 0x1_0000_0000_0000,
        attr < 8,
    ensures
        desc_valid(make_block_desc(pa, attr)),
        !desc_is_table(make_block_desc(pa, attr)),
        out_addr_1g(make_block_desc(pa, attr)) == pa,
{
    let d = pa | ((attr as u64) << 2) | 0x401;
    assert(d & 1 == 1 && d & 2 != 2 && (((d >> 30) & 0x3_FFFF) << 30) == pa) by (bit_vector)
        requires
            d == pa | ((attr as u64) << 2) | 0x401,
            pa % 0x4000_0000 == 0,
            pa < 0x1_0000_0000_0000,
            attr < 8,
    ;
}

/// Field decomposition of a 2 MiB block descriptor.
pub proof fn lemma_block2m_fields(pa: u64, attr: u8)
    requires
        pa % 0x20_0000 == 0,
        pa < 0x1_0000_0000_0000,
        attr < 8,
    ensures
        desc_valid(make_block_desc(pa, attr)),
        !desc_is_table(make_block_desc(pa, attr)),
        out_addr_2m(make_block_desc(pa, attr)) == pa,
{
    let d = pa | ((attr as u64) << 2) | 0x401;
    assert(d & 1 == 1 && d & 2 != 2 && (((d >> 21) & 0x7FF_FFFF) << 21) == pa) by (bit_vector)
        requires
            d == pa | ((attr as u64) << 2) | 0x401,
            pa % 0x20_0000 == 0,
            pa < 0x1_0000_0000_0000,
            attr < 8,
    ;
}

/// Field decomposition of a page descriptor.
pub proof fn lemma_page_fields(pa: u64, attr: u8)
    requires
        pa % 0x1000 == 0,
        pa < 0x1_0000_0000_0000,
        attr < 8,
    ensures
        desc_valid(make_page_desc(pa, attr)),
        desc_is_table(make_page_desc(pa, attr)),
        out_addr_4k(make_page_desc(pa, attr)) == pa,
{
    let d = pa | ((attr as u64) << 2) | 0x403;
    assert(d & 1 == 1 && d & 2 == 2 && (((d >> 12) & 0xF_FFFF_FFFF) << 12) == pa)
        by (bit_vector)
        requires
            d == pa | ((attr as u64) << 2) | 0x403,
            pa % 0x1000 == 0,
            pa < 0x1_0000_0000_0000,
            attr < 8,
    ;
}

/// Two addresses share level-0 and level-1 indices exactly when they
/// agree on bits 47:30.
pub proof fn lemma_group_1g(va: u64, va2: u64)
    ensures
        (l0_idx(va2) == l0_idx(va) && l1_idx(va2) == l1_idx(va)) <==> (va2 & 0xFFFF_C000_0000
            == va & 0xFFFF_C000_0000),
{
    assert(((va2 >> 39) & 0x1FF == (va >> 39) & 0x1FF && (va2 >> 30) & 0x1FF == (va >> 30)
        & 0x1FF) <==> (va2 & 0xFFFF_C000_0000 == va & 0xFFFF_C000_0000)) by (bit_vector);
}

/// Two addresses share level-0..2 indices exactly when they agree on
/// bits 47:21.
pub proof fn lemma_group_2m(va: u64, va2: u64)
    ensures
        (l0_idx(va2) == l0_idx(va) && l1_idx(va2) == l1_idx(va) && l2_idx(va2) == l2_idx(va))
            <==> (va2 & 0xFFFF_FFE0_0000 == va & 0xFFFF_FFE0_0000),
{
    assert(((va2 >> 39) & 0x1FF == (va >> 39) & 0x1FF && (va2 >> 30) & 0x1FF == (va >> 30)
        & 0x1FF && (va2 >> 21) & 0x1FF == (va >> 21) & 0x1FF) <==> (va2 & 0xFFFF_FFE0_0000 == va
        & 0xFFFF_FFE0_0000)) by (bit_vector);
}

/// Two addresses share all four level indices exactly when they agree
/// on bits 47:12.
pub proof fn lemma_group_4k(va: u64, va2: u64)
    ensures
        (l0_idx(va2) == l0_idx(va) && l1_idx(va2) == l1_idx(va) && l2_idx(va2) == l2_idx(va)
            && l3_idx(va2) == l3_idx(va)) <==> (va2 & 0xFFFF_FFFF_F000 == va
            & 0xFFFF_FFFF_F000),
{
    assert(((va2 >> 39) & 0x1FF == (va >> 39) & 0x1FF && (va2 >> 30) & 0x1FF == (va >> 30)
        & 0x1FF && (va2 >> 21) & 0x1FF == (va >> 21) & 0x1FF && (va2 >> 12) & 0x1FF == (va >> 12)
        & 0x1FF) <==> (va2 & 0xFFFF_FFFF_F000 == va & 0xFFFF_FFFF_F000)) by (bit_vector);
}

/// Round-trip arithmetic for a 1 GiB mapping: every in-block offset
/// keeps the block key, and composing the output address with the
/// offset is plain addition.
pub proof fn lemma_mapped_offset_1g(pa: u64, va: u64, k: u64)
    requires
        pa % 0x4000_0000 == 0,
        va % 0x4000_0000 == 0,
        k < 0x4000_0000,
        va + k <= u64::MAX,
        pa + k <= u64::MAX,
    ensures
        ((va + k) as u64) & 0xFFFF_C000_0000 == va & 0xFFFF_C000_0000,
        ((va + k) as u64) & 0x3FFF_FFFF == k,
        pa | k == pa + k,
{
    assert(((va + k) as u64) & 0xFFFF_C000_0000 == va & 0xFFFF_C000_0000 && ((va + k) as u64)
        & 0x3FFF_FFFF == k && (pa | k) == pa + k) by (bit_vector)
        requires
            pa % 0x4000_0000 == 0,
            va % 0x4000_0000 == 0,
            k < 0x4000_0000,
            va + k <= 0xFFFF_FFFF_FFFF_FFFF,
            pa + k <= 0xFFFF_FFFF_FFFF_FFFF,
    ;
}

/// Round-trip arithmetic for a 2 MiB mapping.
pub proof fn lemma_mapped_offset_2m(pa: u64, va: u64, k: u64)
    requires
        pa % 0x20_0000 == 0,
        va % 0x20_0000 == 0,
        k < 0x20_0000,
        va + k <= u64::MAX,
        pa + k <= u64::MAX,
    ensures
        ((va + k) as u64) & 0xFFFF_FFE0_0000 == va & 0xFFFF_FFE0_0000,
        ((va + k) as u64) & 0x1F_FFFF == k,
        pa | k == pa + k,
{
    assert(((va + k) as u64) & 0xFFFF_FFE0_0000 == va & 0xFFFF_FFE0_0000 && ((va + k) as u64)
        & 0x1F_FFFF == k && (pa | k) == pa + k) by (bit_vector)
        requires
            pa % 0x20_0000 == 0,
            va % 0x20_0000 == 0,
            k < 0x20_0000,
            va + k <= 0xFFFF_FFFF_FFFF_FFFF,
            pa + k <= 0xFFFF_FFFF_FFFF_FFFF,
    ;
}

/// Round-trip arithmetic for a 4 KiB mapping.
pub proof fn lemma_mapped_offset_4k(pa: u64, va: u64, k: u64)
    requires
        pa % 0x1000 == 0,
        va % 0x1000 == 0,
        k < 0x1000,
        va + k <= u64::MAX,
        pa + k <= u64::MAX,
    ensures
        ((va + k) as u64) & 0xFFFF_FFFF_F000 == va & 0xFFFF_FFFF_F000,
        ((va + k) as u64) & 0xFFF == k,
        pa | k == pa + k,
{
    assert(((va + k) as u64) & 0xFFFF_FFFF_F000 == va & 0xFFFF_FFFF_F000 && ((va + k) as u64)
        & 0xFFF == k && (pa | k) == pa + k) by (bit_vector)
        requires
            pa % 0x1000 == 0,
            va % 0x1000 == 0,
            k < 0x1000,
            va + k <= 0xFFFF_FFFF_FFFF_FFFF,
            pa + k <= 0xFFFF_FFFF_FFFF_FFFF,
    ;
}

/// A memory state whose words differ from `m0` only inside the frame
/// at `f` — fresh, zero-filled, and owned by no table — leaves the
/// tree well-formed and every walk unchanged.
pub proof fn lemma_after_alloc(
    m0: Seq<u64>,
    m1: Seq<u64>,
    root: u64,
    s1: Seq<u64>,
    s2: Seq<u64>,
    s3: Seq<u64>,
    f: u64,
)
    requires
        wf_data(m0, root, s1, s2, s3),
        m1.len() == m0.len(),
        f != 0,
        f % 4096 == 0,
        f + 4096 <= m0.len() * 8,
        !all_frames(root, s1, s2, s3).contains(f),
        forall|w: int| f as int / 8 <= w < f as int / 8 + 512 ==> m1[w] == 0,
        forall|w: int|
            0 <= w < m0.len() && !(f as int / 8 <= w < f as int / 8 + 512) ==> m1[w] == m0[w],
    ensures
        wf_data(m1, root, s1, s2, s3),
        forall|va: u64| #[trigger] walk_spec(m1, root, va) == walk_spec(m0, root, va),
        table_ok(f, m1),
        forall|i: u64| i < 512 ==> #[trigger] entry_at(m1, f, i) == 0,
        forall|t: u64, i: u64|
            all_frames(root, s1, s2, s3).contains(t) && i < 512 ==> #[trigger] entry_at(m1, t, i)
                == entry_at(m0, t, i),
{
    reveal(inj_l0);
    reveal(inj_l1);
    reveal(inj_l2);
    reveal(children_l0);
    reveal(children_l1);
    reveal(children_l2);
    reveal(walk_spec);
    assert forall|t: u64, i: u64|
        all_frames(root, s1, s2, s3).contains(t) && i < 512 implies #[trigger] entry_at(
        m1,
        t,
        i,
    ) == entry_at(m0, t, i) by {
        lemma_member_table_ok(m0, root, s1, s2, s3, t);
        lemma_entry_addr_ok(t, i, m0);
        crate::phys::lemma_word_index(entry_addr(t, i), m0.len() as int);
        crate::frame_alloc::lemma_frame_words_disjoint(f, t, 4096);
    }
    lemma_walk_agrees(m0, m1, root, s1, s2, s3);
    assert forall|i: u64| i < 512 implies #[trigger] entry_at(m1, f, i) == 0 by {
        lemma_entry_addr_ok(f, i, m1);
        crate::phys::lemma_word_index(entry_addr(f, i), m1.len() as int);
    }
}

/// Field decomposition of a table descriptor built from an aligned
/// 48-bit frame address.
pub proof fn lemma_table_desc_fields(t: u64)
    requires
        t % 4096 == 0,
        t < 0x1_0000_0000_0000,
    ensures
        desc_valid(make_table_desc(t)),
        desc_is_table(make_table_desc(t)),
        next_table_addr(make_table_desc(t)) == t,
{
    assert((t | 3) & 1 == 1 && (t | 3) & 2 == 2 && ((((t | 3) >> 12) & 0xF_FFFF_FFFF) << 12)
        == t) by (bit_vector)
        requires
            t % 4096 == 0,
            t < 0x1_0000_0000_0000,
    ;
}

/// A member of the frame sequence is a valid table frame.
pub proof fn lemma_member_table_ok(
    m: Seq<u64>,
    root: u64,
    s1: Seq<u64>,
    s2: Seq<u64>,
    s3: Seq<u64>,
    t: u64,
)
    requires
        wf_data(m, root, s1, s2, s3),
        all_frames(root, s1, s2, s3).contains(t),
    ensures
        table_ok(t, m),
{
    lemma_frames_facts(root, s1, s2, s3);
    if t == root {
    } else if s1.contains(t) {
        let k = choose|k: int| 0 <= k < s1.len() && s1[k] == t;
    } else if s2.contains(t) {
        let k = choose|k: int| 0 <= k < s2.len() && s2[k] == t;
    } else {
        let k = choose|k: int| 0 <= k < s3.len() && s3[k] == t;
    }
}

/// Effect of writing a non-table descriptor (a 1 GiB block, or an
/// invalid word) into the level-1 slot of `va`: exactly the walks of
/// `va`'s 1 GiB group change.
pub proof fn lemma_write_l1(
    m: Seq<u64>,
    root: u64,
    s1: Seq<u64>,
    s2: Seq<u64>,
    s3: Seq<u64>,
    va: u64,
    v: u64,
)
    requires
        wf_data(m, root, s1, s2, s3),
        desc_valid(entry_at(m, root, l0_idx(va))),
        !(desc_valid(v) && desc_is_table(v)),
    ensures
        ({
            let t1x = next_table_addr(entry_at(m, root, l0_idx(va)));
            let m2 = m.update(entry_addr(t1x, l1_idx(va)) as int / 8, v);
            &&& wf_data(m2, root, s1, s2, s3)
            &&& m2.len() == m.len()
            &&& entry_at(m2, t1x, l1_idx(va)) == v
            &&& forall|t: u64, i: u64|
                all_frames(root, s1, s2, s3).contains(t) && i < 512 ==> #[trigger] entry_at(
                    m2,
                    t,
                    i,
                ) == (if t == t1x && i == l1_idx(va) {
                    v
                } else {
                    entry_at(m, t, i)
                })
            &&& forall|va2: u64|
                #[trigger] walk_spec(m2, root, va2) == (if l0_idx(va2) == l0_idx(va) && l1_idx(
                    va2,
                ) == l1_idx(va) {
                    if desc_valid(v) {
                        Some(out_addr_1g(v) | (va2 & 0x3FFF_FFFF))
                    } else {
                        None
                    }
                } else {
                    walk_spec(m, root, va2)
                })
        }),
{
    reveal(inj_l0);
    reveal(inj_l1);
    reveal(inj_l2);
    reveal(children_l0);
    reveal(children_l1);
    reveal(children_l2);
    reveal(walk_spec);
    lemma_idx_bounds(va);
    lemma_frames_facts(root, s1, s2, s3);
    lemma_frames_distinct(root, s1, s2, s3);
    let a = all_frames(root, s1, s2, s3);
    let t1x = next_table_addr(entry_at(m, root, l0_idx(va)));
    assert(s1.contains(t1x));
    let kx = choose|k: int| 0 <= k < s1.len() && s1[k] == t1x;
    assert(table_ok(t1x, m));
    let m2 = m.update(entry_addr(t1x, l1_idx(va)) as int / 8, v);
    assert forall|t: u64, i: u64| a.contains(t) && i < 512 implies #[trigger] entry_at(m2, t, i)
        == (if t == t1x && i == l1_idx(va) {
        v
    } else {
        entry_at(m, t, i)
    }) by {
        lemma_member_table_ok(m, root, s1, s2, s3, t);
        lemma_entry_at_update(m, t1x, l1_idx(va), v, t, i);
    }
    // Well-formedness: the only changed slot holds a non-table
    // descriptor, which no structural clause constrains.
    assert forall|i: u64| i < 512 && desc_valid(#[trigger] entry_at(m2, root, i)) implies
        desc_is_table(entry_at(m2, root, i)) && s1.contains(
        next_table_addr(entry_at(m2, root, i)),
    ) by {
        assert(a.contains(root));
        assert(entry_at(m2, root, i) == entry_at(m, root, i));
    }
    assert forall|k: int, i: u64|
        0 <= k < s1.len() && i < 512 && desc_valid(#[trigger] entry_at(m2, s1[k], i))
            && desc_is_table(entry_at(m2, s1[k], i)) implies s2.contains(
        next_table_addr(entry_at(m2, s1[k], i)),
    ) by {
        assert(a.contains(s1[k]));
        if s1[k] == t1x && i == l1_idx(va) {
        } else {
            assert(entry_at(m2, s1[k], i) == entry_at(m, s1[k], i));
        }
    }
    assert forall|k: int, i: u64|
        0 <= k < s2.len() && i < 512 && desc_valid(#[trigger] entry_at(m2, s2[k], i))
            && desc_is_table(entry_at(m2, s2[k], i)) implies s3.contains(
        next_table_addr(entry_at(m2, s2[k], i)),
    ) by {
        assert(a.contains(s2[k]));
        assert(s2[k] != t1x);
        assert(entry_at(m2, s2[k], i) == entry_at(m, s2[k], i));
    }
    assert forall|i: u64, j: u64|
        i < 512 && j < 512 && i != j && desc_valid(#[trigger] entry_at(m2, root, i))
            && desc_valid(#[trigger] entry_at(m2, root, j)) implies next_table_addr(
        entry_at(m2, root, i),
    ) != next_table_addr(entry_at(m2, root, j)) by {
        assert(a.contains(root));
        assert(entry_at(m2, root, i) == entry_at(m, root, i));
        assert(entry_at(m2, root, j) == entry_at(m, root, j));
    }
    assert forall|k: int, i: u64, k2: int, i2: u64|
        0 <= k < s1.len() && i < 512 && 0 <= k2 < s1.len() && i2 < 512 && (k != k2 || i != i2)
            && desc_valid(#[trigger] entry_at(m2, s1[k], i)) && desc_is_table(
            entry_at(m2, s1[k], i),
        ) && desc_valid(#[trigger] entry_at(m2, s1[k2], i2)) && desc_is_table(
            entry_at(m2, s1[k2], i2),
        ) implies next_table_addr(entry_at(m2, s1[k], i)) != next_table_addr(
        entry_at(m2, s1[k2], i2),
    ) by {
        assert(a.contains(s1[k]) && a.contains(s1[k2]));
        assert(!(s1[k] == t1x && i == l1_idx(va)) && !(s1[k2] == t1x && i2 == l1_idx(va)));
        assert(entry_at(m2, s1[k], i) == entry_at(m, s1[k], i));
        assert(entry_at(m2, s1[k2], i2) == entry_at(m, s1[k2], i2));
    }
    assert forall|k: int, i: u64, k2: int, i2: u64|
        0 <= k < s2.len() && i < 512 && 0 <= k2 < s2.len() && i2 < 512 && (k != k2 || i != i2)
            && desc_valid(#[trigger] entry_at(m2, s2[k], i)) && desc_is_table(
            entry_at(m2, s2[k], i),
        ) && desc_valid(#[trigger] entry_at(m2, s2[k2], i2)) && desc_is_table(
            entry_at(m2, s2[k2], i2),
        ) implies next_table_addr(entry_at(m2, s2[k], i)) != next_table_addr(
        entry_at(m2, s2[k2], i2),
    ) by {
        assert(a.contains(s2[k]) && a.contains(s2[k2]));
        assert(s2[k] != t1x && s2[k2] != t1x);
        assert(entry_at(m2, s2[k], i) == entry_at(m, s2[k], i));
        assert(entry_at(m2, s2[k2], i2) == entry_at(m, s2[k2], i2));
    }
    // The walk delta.
    assert forall|va2: u64| #[trigger] walk_spec(m2, root, va2) == (if l0_idx(va2) == l0_idx(va)
        && l1_idx(va2) == l1_idx(va) {
        if desc_valid(v) {
            Some(out_addr_1g(v) | (va2 & 0x3FFF_FFFF))
        } else {
            None
        }
    } else {
        walk_spec(m, root, va2)
    }) by {
        lemma_idx_bounds(va2);
        assert(a.contains(root));
        assert(entry_at(m2, root, l0_idx(va2)) == entry_at(m, root, l0_idx(va2)));
        let d0 = entry_at(m, root, l0_idx(va2));
        if desc_valid(d0) {
            let t1y = next_table_addr(d0);
            assert(s1.contains(t1y));
            let ky = choose|k: int| 0 <= k < s1.len() && s1[k] == t1y;
            assert(a.contains(t1y));
            if t1y == t1x {
                // Shared child means shared level-0 slot.
                assert(l0_idx(va2) == l0_idx(va));
                if l1_idx(va2) == l1_idx(va) {
                    assert(entry_at(m2, t1x, l1_idx(va2)) == v);
                } else {
                    assert(entry_at(m2, t1y, l1_idx(va2)) == entry_at(m, t1y, l1_idx(va2)));
                    let d1 = entry_at(m, t1y, l1_idx(va2));
                    if desc_valid(d1) && desc_is_table(d1) {
                        let t2y = next_table_addr(d1);
                        assert(s2.contains(t2y));
                        let k2y = choose|k: int| 0 <= k < s2.len() && s2[k] == t2y;
                        assert(a.contains(t2y) && t2y != t1x);
                        assert(entry_at(m2, t2y, l2_idx(va2)) == entry_at(m, t2y, l2_idx(va2)));
                        let d2 = entry_at(m, t2y, l2_idx(va2));
                        if desc_valid(d2) && desc_is_table(d2) {
                            let t3y = next_table_addr(d2);
                            assert(s3.contains(t3y));
                            let k3y = choose|k: int| 0 <= k < s3.len() && s3[k] == t3y;
                            assert(a.contains(t3y) && t3y != t1x);
                            assert(entry_at(m2, t3y, l3_idx(va2)) == entry_at(
                                m,
                                t3y,
                                l3_idx(va2),
                            ));
                        }
                    }
                }
            } else {
                // A different level-1 table: nothing on this path is
                // touched.
                assert(l0_idx(va2) != l0_idx(va) || l1_idx(va2) != l1_idx(va) || t1y == t1x);
                assert(entry_at(m2, t1y, l1_idx(va2)) == entry_at(m, t1y, l1_idx(va2)));
                let d1 = entry_at(m, t1y, l1_idx(va2));
                if desc_valid(d1) && desc_is_table(d1) {
                    let t2y = next_table_addr(d1);
                    assert(s2.contains(t2y));
                    let k2y = choose|k: int| 0 <= k < s2.len() && s2[k] == t2y;
                    assert(a.contains(t2y) && t2y != t1x);
                    assert(entry_at(m2, t2y, l2_idx(va2)) == entry_at(m, t2y, l2_idx(va2)));
                    let d2 = entry_at(m, t2y, l2_idx(va2));
                    if desc_valid(d2) && desc_is_table(d2) {
                        let t3y = next_table_addr(d2);
                        assert(s3.contains(t3y));
                        let k3y = choose|k: int| 0 <= k < s3.len() && s3[k] == t3y;
                        assert(a.contains(t3y) && t3y != t1x);
                        assert(entry_at(m2, t3y, l3_idx(va2)) == entry_at(m, t3y, l3_idx(va2)));
                    }
                }
            }
        } else {
            // The level-0 slot of `va2` is invalid, so `va2` is not in
            // the written group and both walks fail at level 0.
            assert(l0_idx(va2) != l0_idx(va) || !desc_valid(entry_at(m, root, l0_idx(va))));
        }
    }
}

/// Effect of writing a non-table descriptor (a 2 MiB block, or an
/// invalid word) into the level-2 slot of `va`: exactly the walks of
/// `va`'s 2 MiB group change.
pub proof fn lemma_write_l2(
    m: Seq<u64>,
    root: u64,
    s1: Seq<u64>,
    s2: Seq<u64>,
    s3: Seq<u64>,
    va: u64,
    v: u64,
)
    requires
        wf_data(m, root, s1, s2, s3),
        desc_valid(entry_at(m, root, l0_idx(va))),
        desc_valid(entry_at(m, next_table_addr(entry_at(m, root, l0_idx(va))), l1_idx(va))),
        desc_is_table(entry_at(m, next_table_addr(entry_at(m, root, l0_idx(va))), l1_idx(va))),
        !(desc_valid(v) && desc_is_table(v)),
    ensures
        ({
            let t1x = next_table_addr(entry_at(m, root, l0_idx(va)));
            let t2x = next_table_addr(entry_at(m, t1x, l1_idx(va)));
            let m2 = m.update(entry_addr(t2x, l2_idx(va)) as int / 8, v);
            &&& wf_data(m2, root, s1, s2, s3)
            &&& m2.len() == m.len()
            &&& entry_at(m2, t2x, l2_idx(va)) == v
            &&& forall|t: u64, i: u64|
                all_frames(root, s1, s2, s3).contains(t) && i < 512 ==> #[trigger] entry_at(
                    m2,
                    t,
                    i,
                ) == (if t == t2x && i == l2_idx(va) {
                    v
                } else {
                    entry_at(m, t, i)
                })
            &&& forall|va2: u64|
                #[trigger] walk_spec(m2, root, va2) == (if l0_idx(va2) == l0_idx(va) && l1_idx(
                    va2,
                ) == l1_idx(va) && l2_idx(va2) == l2_idx(va) {
                    if desc_valid(v) {
                        Some(out_addr_2m(v) | (va2 & 0x1F_FFFF))
                    } else {
                        None
                    }
                } else {
                    walk_spec(m, root, va2)
                })
        }),
{
    reveal(inj_l0);
    reveal(inj_l1);
    reveal(inj_l2);
    reveal(children_l0);
    reveal(children_l1);
    reveal(children_l2);
    reveal(walk_spec);
    lemma_idx_bounds(va);
    lemma_frames_facts(root, s1, s2, s3);
    lemma_frames_distinct(root, s1, s2, s3);
    let a = all_frames(root, s1, s2, s3);
    let t1x = next_table_addr(entry_at(m, root, l0_idx(va)));
    assert(s1.contains(t1x));
    let kx1 = choose|k: int| 0 <= k < s1.len() && s1[k] == t1x;
    let t2x = next_table_addr(entry_at(m, t1x, l1_idx(va)));
    assert(s2.contains(t2x));
    let kx2 = choose|k: int| 0 <= k < s2.len() && s2[k] == t2x;
    assert(table_ok(t2x, m));
    let m2 = m.update(entry_addr(t2x, l2_idx(va)) as int / 8, v);
    assert forall|t: u64, i: u64| a.contains(t) && i < 512 implies #[trigger] entry_at(m2, t, i)
        == (if t == t2x && i == l2_idx(va) {
        v
    } else {
        entry_at(m, t, i)
    }) by {
        lemma_member_table_ok(m, root, s1, s2, s3, t);
        lemma_entry_at_update(m, t2x, l2_idx(va), v, t, i);
    }
    // Well-formedness transfers: the changed slot holds a non-table
    // descriptor.
    assert forall|i: u64| i < 512 && desc_valid(#[trigger] entry_at(m2, root, i)) implies
        desc_is_table(entry_at(m2, root, i)) && s1.contains(
        next_table_addr(entry_at(m2, root, i)),
    ) by {
        assert(a.contains(root));
        assert(entry_at(m2, root, i) == entry_at(m, root, i));
    }
    assert forall|k: int, i: u64|
        0 <= k < s1.len() && i < 512 && desc_valid(#[trigger] entry_at(m2, s1[k], i))
            && desc_is_table(entry_at(m2, s1[k], i)) implies s2.contains(
        next_table_addr(entry_at(m2, s1[k], i)),
    ) by {
        assert(a.contains(s1[k]));
        assert(s1[k] != t2x);
        assert(entry_at(m2, s1[k], i) == entry_at(m, s1[k], i));
    }
    assert forall|k: int, i: u64|
        0 <= k < s2.len() && i < 512 && desc_valid(#[trigger] entry_at(m2, s2[k], i))
            && desc_is_table(entry_at(m2, s2[k], i)) implies s3.contains(
        next_table_addr(entry_at(m2, s2[k], i)),
    ) by {
        assert(a.contains(s2[k]));
        if s2[k] == t2x && i == l2_idx(va) {
        } else {
            assert(entry_at(m2, s2[k], i) == entry_at(m, s2[k], i));
        }
    }
    assert forall|i: u64, j: u64|
        i < 512 && j < 512 && i != j && desc_valid(#[trigger] entry_at(m2, root, i))
            && desc_valid(#[trigger] entry_at(m2, root, j)) implies next_table_addr(
        entry_at(m2, root, i),
    ) != next_table_addr(entry_at(m2, root, j)) by {
        assert(a.contains(root));
        assert(entry_at(m2, root, i) == entry_at(m, root, i));
        assert(entry_at(m2, root, j) == entry_at(m, root, j));
    }
    assert forall|k: int, i: u64, k2: int, i2: u64|
        0 <= k < s1.len() && i < 512 && 0 <= k2 < s1.len() && i2 < 512 && (k != k2 || i != i2)
            && desc_valid(#[trigger] entry_at(m2, s1[k], i)) && desc_is_table(
            entry_at(m2, s1[k], i),
        ) && desc_valid(#[trigger] entry_at(m2, s1[k2], i2)) && desc_is_table(
            entry_at(m2, s1[k2], i2),
        ) implies next_table_addr(entry_at(m2, s1[k], i)) != next_table_addr(
        entry_at(m2, s1[k2], i2),
    ) by {
        assert(a.contains(s1[k]) && a.contains(s1[k2]));
        assert(s1[k] != t2x && s1[k2] != t2x);
        assert(entry_at(m2, s1[k], i) == entry_at(m, s1[k], i));
        assert(entry_at(m2, s1[k2], i2) == entry_at(m, s1[k2], i2));
    }
    assert forall|k: int, i: u64, k2: int, i2: u64|
        0 <= k < s2.len() && i < 512 && 0 <= k2 < s2.len() && i2 < 512 && (k != k2 || i != i2)
            && desc_valid(#[trigger] entry_at(m2, s2[k], i)) && desc_is_table(
            entry_at(m2, s2[k], i),
        ) && desc_valid(#[trigger] entry_at(m2, s2[k2], i2)) && desc_is_table(
            entry_at(m2, s2[k2], i2),
        ) implies next_table_addr(entry_at(m2, s2[k], i)) != next_table_addr(
        entry_at(m2, s2[k2], i2),
    ) by {
        assert(a.contains(s2[k]) && a.contains(s2[k2]));
        assert(!(s2[k] == t2x && i == l2_idx(va)) && !(s2[k2] == t2x && i2 == l2_idx(va)));
        assert(entry_at(m2, s2[k], i) == entry_at(m, s2[k], i));
        assert(entry_at(m2, s2[k2], i2) == entry_at(m, s2[k2], i2));
    }
    // The walk delta.
    assert forall|va2: u64| #[trigger] walk_spec(m2, root, va2) == (if l0_idx(va2) == l0_idx(va)
        && l1_idx(va2) == l1_idx(va) && l2_idx(va2) == l2_idx(va) {
        if desc_valid(v) {
            Some(out_addr_2m(v) | (va2 & 0x1F_FFFF))
        } else {
            None
        }
    } else {
        walk_spec(m, root, va2)
    }) by {
        lemma_idx_bounds(va2);
        assert(a.contains(root));
        assert(entry_at(m2, root, l0_idx(va2)) == entry_at(m, root, l0_idx(va2)));
        let d0 = entry_at(m, root, l0_idx(va2));
        if desc_valid(d0) {
            let t1y = next_table_addr(d0);
            assert(s1.contains(t1y));
            let ky1 = choose|k: int| 0 <= k < s1.len() && s1[k] == t1y;
            assert(a.contains(t1y) && t1y != t2x);
            assert(entry_at(m2, t1y, l1_idx(va2)) == entry_at(m, t1y, l1_idx(va2)));
            let d1 = entry_at(m, t1y, l1_idx(va2));
            if desc_valid(d1) && desc_is_table(d1) {
                let t2y = next_table_addr(d1);
                assert(s2.contains(t2y));
                let ky2 = choose|k: int| 0 <= k < s2.len() && s2[k] == t2y;
                assert(a.contains(t2y));
                if t2y == t2x {
                    // A shared level-2 child pins the whole prefix.
                    assert(t1y == t1x && l1_idx(va2) == l1_idx(va));
                    assert(l0_idx(va2) == l0_idx(va));
                    if l2_idx(va2) == l2_idx(va) {
                        assert(entry_at(m2, t2x, l2_idx(va2)) == v);
                    } else {
                        assert(entry_at(m2, t2y, l2_idx(va2)) == entry_at(m, t2y, l2_idx(va2)));
                        let d2 = entry_at(m, t2y, l2_idx(va2));
                        if desc_valid(d2) && desc_is_table(d2) {
                            let t3y = next_table_addr(d2);
                            assert(s3.contains(t3y));
                            let ky3 = choose|k: int| 0 <= k < s3.len() && s3[k] == t3y;
                            assert(a.contains(t3y) && t3y != t2x);
                            assert(entry_at(m2, t3y, l3_idx(va2)) == entry_at(
                                m,
                                t3y,
                                l3_idx(va2),
                            ));
                        }
                    }
                } else {
                    assert(!(l0_idx(va2) == l0_idx(va) && l1_idx(va2) == l1_idx(va) && l2_idx(
                        va2,
                    ) == l2_idx(va)));
                    assert(entry_at(m2, t2y, l2_idx(va2)) == entry_at(m, t2y, l2_idx(va2)));
                    let d2 = entry_at(m, t2y, l2_idx(va2));
                    if desc_valid(d2) && desc_is_table(d2) {
                        let t3y = next_table_addr(d2);
                        assert(s3.contains(t3y));
                        let ky3 = choose|k: int| 0 <= k < s3.len() && s3[k] == t3y;
                        assert(a.contains(t3y) && t3y != t2x);
                        assert(entry_at(m2, t3y, l3_idx(va2)) == entry_at(m, t3y, l3_idx(va2)));
                    }
                }
            } else {
                assert(!(l0_idx(va2) == l0_idx(va) && l1_idx(va2) == l1_idx(va)) || !(
                desc_valid(d1) && desc_is_table(d1)));
            }
        } else {
            assert(l0_idx(va2) != l0_idx(va) || !desc_valid(entry_at(m, root, l0_idx(va))));
        }
    }
}

/// Effect of writing any descriptor into the level-3 slot of `va`
/// (the level-3 pool carries no structural constraints): exactly the
/// walks of `va`'s 4 KiB group change.
pub proof fn lemma_write_l3(
    m: Seq<u64>,
    root: u64,
    s1: Seq<u64>,
    s2: Seq<u64>,
    s3: Seq<u64>,
    va: u64,
    v: u64,
)
    requires
        wf_data(m, root, s1, s2, s3),
        desc_valid(entry_at(m, root, l0_idx(va))),
        desc_valid(entry_at(m, next_table_addr(entry_at(m, root, l0_idx(va))), l1_idx(va))),
        desc_is_table(entry_at(m, next_table_addr(entry_at(m, root, l0_idx(va))), l1_idx(va))),
        desc_valid(
            entry_at(
                m,
                next_table_addr(
                    entry_at(m, next_table_addr(entry_at(m, root, l0_idx(va))), l1_idx(va)),
                ),
                l2_idx(va),
            ),
        ),
        desc_is_table(
            entry_at(
                m,
                next_table_addr(
                    entry_at(m, next_table_addr(entry_at(m, root, l0_idx(va))), l1_idx(va)),
                ),
                l2_idx(va),
            ),
        ),
    ensures
        ({
            let t1x = next_table_addr(entry_at(m, root, l0_idx(va)));
            let t2x = next_table_addr(entry_at(m, t1x, l1_idx(va)));
            let t3x = next_table_addr(entry_at(m, t2x, l2_idx(va)));
            let m2 = m.update(entry_addr(t3x, l3_idx(va)) as int / 8, v);
            &&& wf_data(m2, root, s1, s2, s3)
            &&& m2.len() == m.len()
            &&& entry_at(m2, t3x, l3_idx(va)) == v
            &&& forall|t: u64, i: u64|
                all_frames(root, s1, s2, s3).contains(t) && i < 512 ==> #[trigger] entry_at(
                    m2,
                    t,
                    i,
                ) == (if t == t3x && i == l3_idx(va) {
                    v
                } else {
                    entry_at(m, t, i)
                })
            &&& forall|va2: u64|
                #[trigger] walk_spec(m2, root, va2) == (if l0_idx(va2) == l0_idx(va) && l1_idx(
                    va2,
                ) == l1_idx(va) && l2_idx(va2) == l2_idx(va) && l3_idx(va2) == l3_idx(va) {
                    if desc_valid(v) && desc_is_table(v) {
                        Some(out_addr_4k(v) | (va2 & 0xFFF))
                    } else {
                        None
                    }
                } else {
                    walk_spec(m, root, va2)
                })
        }),
{
    reveal(inj_l0);
    reveal(inj_l1);
    reveal(inj_l2);
    reveal(children_l0);
    reveal(children_l1);
    reveal(children_l2);
    reveal(walk_spec);
    lemma_idx_bounds(va);
    lemma_frames_facts(root, s1, s2, s3);
    lemma_frames_distinct(root, s1, s2, s3);
    let a = all_frames(root, s1, s2, s3);
    let t1x = next_table_addr(entry_at(m, root, l0_idx(va)));
    assert(s1.contains(t1x));
    let kx1 = choose|k: int| 0 <= k < s1.len() && s1[k] == t1x;
    let t2x = next_table_addr(entry_at(m, t1x, l1_idx(va)));
    assert(s2.contains(t2x));
    let kx2 = choose|k: int| 0 <= k < s2.len() && s2[k] == t2x;
    let t3x = next_table_addr(entry_at(m, t2x, l2_idx(va)));
    assert(s3.contains(t3x));
    let kx3 = choose|k: int| 0 <= k < s3.len() && s3[k] == t3x;
    assert(table_ok(t3x, m));
    let m2 = m.update(entry_addr(t3x, l3_idx(va)) as int / 8, v);
    assert forall|t: u64, i: u64| a.contains(t) && i < 512 implies #[trigger] entry_at(m2, t, i)
        == (if t == t3x && i == l3_idx(va) {
        v
    } else {
        entry_at(m, t, i)
    }) by {
        lemma_member_table_ok(m, root, s1, s2, s3, t);
        lemma_entry_at_update(m, t3x, l3_idx(va), v, t, i);
    }
    // Well-formedness transfers: level-3 entries carry no structural
    // clause, and no other table's words changed.
    assert forall|i: u64| i < 512 && desc_valid(#[trigger] entry_at(m2, root, i)) implies
        desc_is_table(entry_at(m2, root, i)) && s1.contains(
        next_table_addr(entry_at(m2, root, i)),
    ) by {
        assert(a.contains(root));
        assert(entry_at(m2, root, i) == entry_at(m, root, i));
    }
    assert forall|k: int, i: u64|
        0 <= k < s1.len() && i < 512 && desc_valid(#[trigger] entry_at(m2, s1[k], i))
            && desc_is_table(entry_at(m2, s1[k], i)) implies s2.contains(
        next_table_addr(entry_at(m2, s1[k], i)),
    ) by {
        assert(a.contains(s1[k]));
        assert(s1[k] != t3x);
        assert(entry_at(m2, s1[k], i) == entry_at(m, s1[k], i));
    }
    assert forall|k: int, i: u64|
        0 <= k < s2.len() && i < 512 && desc_valid(#[trigger] entry_at(m2, s2[k], i))
            && desc_is_table(entry_at(m2, s2[k], i)) implies s3.contains(
        next_table_addr(entry_at(m2, s2[k], i)),
    ) by {
        assert(a.contains(s2[k]));
        assert(s2[k] != t3x);
        assert(entry_at(m2, s2[k], i) == entry_at(m, s2[k], i));
    }
    assert forall|i: u64, j: u64|
        i < 512 && j < 512 && i != j && desc_valid(#[trigger] entry_at(m2, root, i))
            && desc_valid(#[trigger] entry_at(m2, root, j)) implies next_table_addr(
        entry_at(m2, root, i),
    ) != next_table_addr(entry_at(m2, root, j)) by {
        assert(a.contains(root));
        assert(entry_at(m2, root, i) == entry_at(m, root, i));
        assert(entry_at(m2, root, j) == entry_at(m, root, j));
    }
    assert forall|k: int, i: u64, k2: int, i2: u64|
        0 <= k < s1.len() && i < 512 && 0 <= k2 < s1.len() && i2 < 512 && (k != k2 || i != i2)
            && desc_valid(#[trigger] entry_at(m2, s1[k], i)) && desc_is_table(
            entry_at(m2, s1[k], i),
        ) && desc_valid(#[trigger] entry_at(m2, s1[k2], i2)) && desc_is_table(
            entry_at(m2, s1[k2], i2),
        ) implies next_table_addr(entry_at(m2, s1[k], i)) != next_table_addr(
        entry_at(m2, s1[k2], i2),
    ) by {
        assert(a.contains(s1[k]) && a.contains(s1[k2]));
        assert(s1[k] != t3x && s1[k2] != t3x);
        assert(entry_at(m2, s1[k], i) == entry_at(m, s1[k], i));
        assert(entry_at(m2, s1[k2], i2) == entry_at(m, s1[k2], i2));
    }
    assert forall|k: int, i: u64, k2: int, i2: u64|
        0 <= k < s2.len() && i < 512 && 0 <= k2 < s2.len() && i2 < 512 && (k != k2 || i != i2)
            && desc_valid(#[trigger] entry_at(m2, s2[k], i)) && desc_is_table(
            entry_at(m2, s2[k], i),
        ) && desc_valid(#[trigger] entry_at(m2, s2[k2], i2)) && desc_is_table(
            entry_at(m2, s2[k2], i2),
        ) implies next_table_addr(entry_at(m2, s2[k], i)) != next_table_addr(
        entry_at(m2, s2[k2], i2),
    ) by {
        assert(a.contains(s2[k]) && a.contains(s2[k2]));
        assert(s2[k] != t3x && s2[k2] != t3x);
        assert(entry_at(m2, s2[k], i) == entry_at(m, s2[k], i));
        assert(entry_at(m2, s2[k2], i2) == entry_at(m, s2[k2], i2));
    }
    // The walk delta.
    assert forall|va2: u64| #[trigger] walk_spec(m2, root, va2) == (if l0_idx(va2) == l0_idx(va)
        && l1_idx(va2) == l1_idx(va) && l2_idx(va2) == l2_idx(va) && l3_idx(va2) == l3_idx(va) {
        if desc_valid(v) && desc_is_table(v) {
            Some(out_addr_4k(v) | (va2 & 0xFFF))
        } else {
            None
        }
    } else {
        walk_spec(m, root, va2)
    }) by {
        lemma_idx_bounds(va2);
        assert(a.contains(root));
        assert(entry_at(m2, root, l0_idx(va2)) == entry_at(m, root, l0_idx(va2)));
        let d0 = entry_at(m, root, l0_idx(va2));
        if desc_valid(d0) {
            let t1y = next_table_addr(d0);
            assert(s1.contains(t1y));
            let ky1 = choose|k: int| 0 <= k < s1.len() && s1[k] == t1y;
            assert(a.contains(t1y) && t1y != t3x);
            assert(entry_at(m2, t1y, l1_idx(va2)) == entry_at(m, t1y, l1_idx(va2)));
            let d1 = entry_at(m, t1y, l1_idx(va2));
            if desc_valid(d1) && desc_is_table(d1) {
                let t2y = next_table_addr(d1);
                assert(s2.contains(t2y));
                let ky2 = choose|k: int| 0 <= k < s2.len() && s2[k] == t2y;
                assert(a.contains(t2y) && t2y != t3x);
                assert(entry_at(m2, t2y, l2_idx(va2)) == entry_at(m, t2y, l2_idx(va2)));
                let d2 = entry_at(m, t2y, l2_idx(va2));
                if desc_valid(d2) && desc_is_table(d2) {
                    let t3y = next_table_addr(d2);
                    assert(s3.contains(t3y));
                    let ky3 = choose|k: int| 0 <= k < s3.len() && s3[k] == t3y;
                    assert(a.contains(t3y));
                    if t3y == t3x {
                        // A shared level-3 child pins the whole prefix.
                        assert(t2y == t2x && l2_idx(va2) == l2_idx(va));
                        assert(t1y == t1x && l1_idx(va2) == l1_idx(va));
                        assert(l0_idx(va2) == l0_idx(va));
                        if l3_idx(va2) == l3_idx(va) {
                            assert(entry_at(m2, t3x, l3_idx(va2)) == v);
                        } else {
                            assert(entry_at(m2, t3y, l3_idx(va2)) == entry_at(
                                m,
                                t3y,
                                l3_idx(va2),
                            ));
                        }
                    } else {
                        assert(!(l0_idx(va2) == l0_idx(va) && l1_idx(va2) == l1_idx(va)
                            && l2_idx(va2) == l2_idx(va)));
                        assert(entry_at(m2, t3y, l3_idx(va2)) == entry_at(m, t3y, l3_idx(va2)));
                    }
                } else {
                    assert(!(l0_idx(va2) == l0_idx(va) && l1_idx(va2) == l1_idx(va) && l2_idx(
                        va2,
                    ) == l2_idx(va)) || !(desc_valid(d2) && desc_is_table(d2)));
                }
            } else {
                assert(!(l0_idx(va2) == l0_idx(va) && l1_idx(va2) == l1_idx(va)) || !(
                desc_valid(d1) && desc_is_table(d1)));
            }
        } else {
            assert(l0_idx(va2) != l0_idx(va) || !desc_valid(entry_at(m, root, l0_idx(va))));
        }
    }
}

/// Appending a fresh frame to the level-1 pool keeps the frame list
/// duplicate-free and adds exactly that frame.
pub proof fn lemma_frames_push1(root: u64, s1: Seq<u64>, s2: Seq<u64>, s3: Seq<u64>, f: u64)
    requires
        all_frames(root, s1, s2, s3).no_duplicates(),
        !all_frames(root, s1, s2, s3).contains(f),
    ensures
        all_frames(root, s1.push(f), s2, s3).no_duplicates(),
        forall|t: u64|
            #[trigger] all_frames(root, s1.push(f), s2, s3).contains(t) <==> (all_frames(
                root,
                s1,
                s2,
                s3,
            ).contains(t) || t == f),
{
    let a = all_frames(root, s1, s2, s3);
    let an = all_frames(root, s1.push(f), s2, s3);
    let pos = 1 + s1.len() as int;
    assert(an =~= a.insert(pos, f));
    a.insert_ensures(pos, f);
    assert forall|k: int, k2: int| 0 <= k < k2 < an.len() implies an[k] != an[k2] by {
        if k2 < pos {
            assert(an[k] == a[k] && an[k2] == a[k2]);
        } else if k2 == pos {
            assert(an[k] == a[k] && an[k2] == f);
            assert(a.contains(a[k]));
        } else if k < pos {
            assert(an[k] == a[k] && an[k2] == a[k2 - 1]);
        } else if k == pos {
            assert(an[k] == f && an[k2] == a[k2 - 1]);
            assert(a.contains(a[k2 - 1]));
        } else {
            assert(an[k] == a[k - 1] && an[k2] == a[k2 - 1]);
        }
    }
    assert forall|t: u64| #[trigger] an.contains(t) implies (a.contains(t) || t == f) by {
        let k = choose|k: int| 0 <= k < an.len() && an[k] == t;
        if k < pos {
            assert(a[k] == t);
        } else if k > pos {
            assert(a[k - 1] == t);
        }
    }
    assert forall|t: u64| (a.contains(t) || t == f) implies #[trigger] an.contains(t) by {
        if t == f {
            assert(an[pos] == f);
        } else {
            let k = choose|k: int| 0 <= k < a.len() && a[k] == t;
            if k < pos {
                assert(an[k] == t);
            } else {
                assert(an[k + 1] == t);
            }
        }
    }
}

/// Appending a fresh frame to the level-2 pool keeps the frame list
/// duplicate-free and adds exactly that frame.
pub proof fn lemma_frames_push2(root: u64, s1: Seq<u64>, s2: Seq<u64>, s3: Seq<u64>, f: u64)
    requires
        all_frames(root, s1, s2, s3).no_duplicates(),
        !all_frames(root, s1, s2, s3).contains(f),
    ensures
        all_frames(root, s1, s2.push(f), s3).no_duplicates(),
        forall|t: u64|
            #[trigger] all_frames(root, s1, s2.push(f), s3).contains(t) <==> (all_frames(
                root,
                s1,
                s2,
                s3,
            ).contains(t) || t == f),
{
    let a = all_frames(root, s1, s2, s3);
    let an = all_frames(root, s1, s2.push(f), s3);
    let pos = 1 + s1.len() as int + s2.len() as int;
    assert(an =~= a.insert(pos, f));
    a.insert_ensures(pos, f);
    assert forall|k: int, k2: int| 0 <= k < k2 < an.len() implies an[k] != an[k2] by {
        if k2 < pos {
            assert(an[k] == a[k] && an[k2] == a[k2]);
        } else if k2 == pos {
            assert(an[k] == a[k] && an[k2] == f);
            assert(a.contains(a[k]));
        } else if k < pos {
            assert(an[k] == a[k] && an[k2] == a[k2 - 1]);
        } else if k == pos {
            assert(an[k] == f && an[k2] == a[k2 - 1]);
            assert(a.contains(a[k2 - 1]));
        } else {
            assert(an[k] == a[k - 1] && an[k2] == a[k2 - 1]);
        }
    }
    assert forall|t: u64| #[trigger] an.contains(t) implies (a.contains(t) || t == f) by {
        let k = choose|k: int| 0 <= k < an.len() && an[k] == t;
        if k < pos {
            assert(a[k] == t);
        } else if k > pos {
            assert(a[k - 1] == t);
        }
    }
    assert forall|t: u64| (a.contains(t) || t == f) implies #[trigger] an.contains(t) by {
        if t == f {
            assert(an[pos] == f);
        } else {
            let k = choose|k: int| 0 <= k < a.len() && a[k] == t;
            if k < pos {
                assert(an[k] == t);
            } else {
                assert(an[k + 1] == t);
            }
        }
    }
}

/// Appending a fresh frame to the level-3 pool keeps the frame list
/// duplicate-free and adds exactly that frame.
pub proof fn lemma_frames_push3(root: u64, s1: Seq<u64>, s2: Seq<u64>, s3: Seq<u64>, f: u64)
    requires
        all_frames(root, s1, s2, s3).no_duplicates(),
        !all_frames(root, s1, s2, s3).contains(f),
    ensures
        all_frames(root, s1, s2, s3.push(f)).no_duplicates(),
        forall|t: u64|
            #[trigger] all_frames(root, s1, s2, s3.push(f)).contains(t) <==> (all_frames(
                root,
                s1,
                s2,
                s3,
            ).contains(t) || t == f),
{
    let a = all_frames(root, s1, s2, s3);
    let an = all_frames(root, s1, s2, s3.push(f));
    let pos = a.len() as int;
    assert(an =~= a.insert(pos, f));
    a.insert_ensures(pos, f);
    assert forall|k: int, k2: int| 0 <= k < k2 < an.len() implies an[k] != an[k2] by {
        if k2 < pos {
            assert(an[k] == a[k] && an[k2] == a[k2]);
        } else if k2 == pos {
            assert(an[k] == a[k] && an[k2] == f);
            assert(a.contains(a[k]));
        } else if k < pos {
            assert(an[k] == a[k] && an[k2] == a[k2 - 1]);
        } else if k == pos {
            assert(an[k] == f && an[k2] == a[k2 - 1]);
            assert(a.contains(a[k2 - 1]));
        } else {
            assert(an[k] == a[k - 1] && an[k2] == a[k2 - 1]);
        }
    }
    assert forall|t: u64| #[trigger] an.contains(t) implies (a.contains(t) || t == f) by {
        let k = choose|k: int| 0 <= k < an.len() && an[k] == t;
        if k < pos {
            assert(a[k] == t);
        } else if k > pos {
            assert(a[k - 1] == t);
        }
    }
    assert forall|t: u64| (a.contains(t) || t == f) implies #[trigger] an.contains(t) by {
        if t == f {
            assert(an[pos] == f);
        } else {
            let k = choose|k: int| 0 <= k < a.len() && a[k] == t;
            if k < pos {
                assert(an[k] == t);
            } else {
                assert(an[k + 1] == t);
            }
        }
    }
}

/// Installing a fresh, zero-filled level-1 table under the (invalid)
/// level-0 slot of `va`: the tree stays well-formed with the frame
/// added to the level-1 pool, and no walk changes (walks through the
/// new slot now descend into an all-invalid table).
pub proof fn lemma_install_l0(
    m: Seq<u64>,
    root: u64,
    s1: Seq<u64>,
    s2: Seq<u64>,
    s3: Seq<u64>,
    va: u64,
    f: u64,
)
    requires
        wf_data(m, root, s1, s2, s3),
        !desc_valid(entry_at(m, root, l0_idx(va))),
        table_ok(f, m),
        !all_frames(root, s1, s2, s3).contains(f),
        forall|i: u64| i < 512 ==> #[trigger] entry_at(m, f, i) == 0,
    ensures
        ({
            let m2 = m.update(entry_addr(root, l0_idx(va)) as int / 8, make_table_desc(f));
            &&& wf_data(m2, root, s1.push(f), s2, s3)
            &&& m2.len() == m.len()
            &&& desc_valid(entry_at(m2, root, l0_idx(va)))
            &&& desc_is_table(entry_at(m2, root, l0_idx(va)))
            &&& next_table_addr(entry_at(m2, root, l0_idx(va))) == f
            &&& forall|t: u64, i: u64|
                all_frames(root, s1.push(f), s2, s3).contains(t) && i < 512 ==> #[trigger]
                entry_at(m2, t, i) == (if t == root && i == l0_idx(va) {
                    make_table_desc(f)
                } else {
                    entry_at(m, t, i)
                })
            &&& forall|va2: u64| #[trigger] walk_spec(m2, root, va2) == walk_spec(m, root, va2)
            &&& forall|t: u64|
                #[trigger] all_frames(root, s1.push(f), s2, s3).contains(t) <==> (all_frames(
                    root,
                    s1,
                    s2,
                    s3,
                ).contains(t) || t == f)
        }),
{
    reveal(inj_l0);
    reveal(inj_l1);
    reveal(inj_l2);
    reveal(children_l0);
    reveal(children_l1);
    reveal(children_l2);
    reveal(walk_spec);
    lemma_idx_bounds(va);
    lemma_frames_facts(root, s1, s2, s3);
    lemma_frames_distinct(root, s1, s2, s3);
    lemma_table_desc_fields(f);
    let a = all_frames(root, s1, s2, s3);
    let s1n = s1.push(f);
    let an = all_frames(root, s1n, s2, s3);
    lemma_frames_facts(root, s1n, s2, s3);
    let v = make_table_desc(f);
    let m2 = m.update(entry_addr(root, l0_idx(va)) as int / 8, v);
    assert(forall|x: u64| s1n.contains(x) <==> (s1.contains(x) || x == f)) by {
        assert(s1n[s1.len() as int] == f);
        assert(forall|k: int| 0 <= k < s1.len() ==> s1n[k] == #[trigger] s1[k]);
        assert forall|x: u64| #[trigger] s1n.contains(x) implies (s1.contains(x) || x == f) by {
            let k = choose|k: int| 0 <= k < s1n.len() && s1n[k] == x;
            if k < s1.len() {
                assert(s1[k] == x);
            }
        }
        assert forall|x: u64| s1.contains(x) implies s1n.contains(x) by {
            let k = choose|k: int| 0 <= k < s1.len() && s1[k] == x;
            assert(s1n[k] == x);
        }
    }
    lemma_frames_push1(root, s1, s2, s3, f);
    assert(an.no_duplicates());
    // How every table entry reads after the write.
    assert forall|t: u64, i: u64| an.contains(t) && i < 512 implies #[trigger] entry_at(
        m2,
        t,
        i,
    ) == (if t == root && i == l0_idx(va) {
        v
    } else {
        entry_at(m, t, i)
    }) by {
        if t == f {
            lemma_entry_at_update(m, root, l0_idx(va), v, t, i);
        } else {
            lemma_member_table_ok(m, root, s1, s2, s3, t);
            lemma_entry_at_update(m, root, l0_idx(va), v, t, i);
        }
    }
    assert(an.contains(f));
    // Well-formedness of the grown tree.
    assert forall|i: u64| i < 512 && desc_valid(#[trigger] entry_at(m2, root, i)) implies
        desc_is_table(entry_at(m2, root, i)) && s1n.contains(
        next_table_addr(entry_at(m2, root, i)),
    ) by {
        assert(an.contains(root));
        if i == l0_idx(va) {
            assert(entry_at(m2, root, i) == v);
        } else {
            assert(entry_at(m2, root, i) == entry_at(m, root, i));
        }
    }
    assert forall|k: int, i: u64|
        0 <= k < s1n.len() && i < 512 && desc_valid(#[trigger] entry_at(m2, s1n[k], i))
            && desc_is_table(entry_at(m2, s1n[k], i)) implies s2.contains(
        next_table_addr(entry_at(m2, s1n[k], i)),
    ) by {
        assert(an.contains(s1n[k]));
        assert(entry_at(m2, s1n[k], i) == entry_at(m, s1n[k], i));
        if k == s1.len() {
            assert(entry_at(m, f, i) == 0);
            lemma_zero_desc_invalid();
        } else {
            assert(s1n[k] == s1[k]);
        }
    }
    assert forall|k: int, i: u64|
        0 <= k < s2.len() && i < 512 && desc_valid(#[trigger] entry_at(m2, s2[k], i))
            && desc_is_table(entry_at(m2, s2[k], i)) implies s3.contains(
        next_table_addr(entry_at(m2, s2[k], i)),
    ) by {
        assert(an.contains(s2[k]));
        assert(entry_at(m2, s2[k], i) == entry_at(m, s2[k], i));
    }
    assert forall|i: u64, j: u64|
        i < 512 && j < 512 && i != j && desc_valid(#[trigger] entry_at(m2, root, i))
            && desc_valid(#[trigger] entry_at(m2, root, j)) implies next_table_addr(
        entry_at(m2, root, i),
    ) != next_table_addr(entry_at(m2, root, j)) by {
        assert(an.contains(root));
        if i == l0_idx(va) {
            assert(entry_at(m2, root, j) == entry_at(m, root, j));
            assert(s1.contains(next_table_addr(entry_at(m, root, j))));
            assert(next_table_addr(entry_at(m2, root, i)) == f);
        } else if j == l0_idx(va) {
            assert(entry_at(m2, root, i) == entry_at(m, root, i));
            assert(s1.contains(next_table_addr(entry_at(m, root, i))));
            assert(next_table_addr(entry_at(m2, root, j)) == f);
        } else {
            assert(entry_at(m2, root, i) == entry_at(m, root, i));
            assert(entry_at(m2, root, j) == entry_at(m, root, j));
        }
    }
    assert forall|k: int, i: u64, k2: int, i2: u64|
        0 <= k < s1n.len() && i < 512 && 0 <= k2 < s1n.len() && i2 < 512 && (k != k2 || i != i2)
            && desc_valid(#[trigger] entry_at(m2, s1n[k], i)) && desc_is_table(
            entry_at(m2, s1n[k], i),
        ) && desc_valid(#[trigger] entry_at(m2, s1n[k2], i2)) && desc_is_table(
            entry_at(m2, s1n[k2], i2),
        ) implies next_table_addr(entry_at(m2, s1n[k], i)) != next_table_addr(
        entry_at(m2, s1n[k2], i2),
    ) by {
        assert(an.contains(s1n[k]) && an.contains(s1n[k2]));
        assert(entry_at(m2, s1n[k], i) == entry_at(m, s1n[k], i));
        assert(entry_at(m2, s1n[k2], i2) == entry_at(m, s1n[k2], i2));
        lemma_zero_desc_invalid();
        if k == s1.len() {
            assert(entry_at(m, f, i) == 0);
        } else if k2 == s1.len() {
            assert(entry_at(m, f, i2) == 0);
        } else {
            assert(s1n[k] == s1[k] && s1n[k2] == s1[k2]);
        }
    }
    assert forall|k: int, i: u64, k2: int, i2: u64|
        0 <= k < s2.len() && i < 512 && 0 <= k2 < s2.len() && i2 < 512 && (k != k2 || i != i2)
            && desc_valid(#[trigger] entry_at(m2, s2[k], i)) && desc_is_table(
            entry_at(m2, s2[k], i),
        ) && desc_valid(#[trigger] entry_at(m2, s2[k2], i2)) && desc_is_table(
            entry_at(m2, s2[k2], i2),
        ) implies next_table_addr(entry_at(m2, s2[k], i)) != next_table_addr(
        entry_at(m2, s2[k2], i2),
    ) by {
        assert(an.contains(s2[k]) && an.contains(s2[k2]));
        assert(entry_at(m2, s2[k], i) == entry_at(m, s2[k], i));
        assert(entry_at(m2, s2[k2], i2) == entry_at(m, s2[k2], i2));
    }
    // No walk changes: a walk through the new slot dies in the fresh
    // all-invalid table, just as it died at the old invalid slot.
    assert forall|va2: u64| #[trigger] walk_spec(m2, root, va2) == walk_spec(m, root, va2) by {
        lemma_idx_bounds(va2);
        assert(an.contains(root));
        if l0_idx(va2) == l0_idx(va) {
            assert(entry_at(m2, root, l0_idx(va2)) == v);
            assert(entry_at(m2, f, l1_idx(va2)) == entry_at(m, f, l1_idx(va2)));
            assert(entry_at(m, f, l1_idx(va2)) == 0);
            lemma_zero_desc_invalid();
            assert(walk_spec(m2, root, va2) is None);
            assert(walk_spec(m, root, va2) is None);
        } else {
            assert(entry_at(m2, root, l0_idx(va2)) == entry_at(m, root, l0_idx(va2)));
            let d0 = entry_at(m, root, l0_idx(va2));
            if desc_valid(d0) {
                let t1y = next_table_addr(d0);
                assert(s1.contains(t1y));
                let ky1 = choose|k: int| 0 <= k < s1.len() && s1[k] == t1y;
                assert(an.contains(t1y) && t1y != root);
                assert(entry_at(m2, t1y, l1_idx(va2)) == entry_at(m, t1y, l1_idx(va2)));
                let d1 = entry_at(m, t1y, l1_idx(va2));
                if desc_valid(d1) && desc_is_table(d1) {
                    let t2y = next_table_addr(d1);
                    assert(s2.contains(t2y));
                    let ky2 = choose|k: int| 0 <= k < s2.len() && s2[k] == t2y;
                    assert(an.contains(t2y) && t2y != root);
                    assert(entry_at(m2, t2y, l2_idx(va2)) == entry_at(m, t2y, l2_idx(va2)));
                    let d2 = entry_at(m, t2y, l2_idx(va2));
                    if desc_valid(d2) && desc_is_table(d2) {
                        let t3y = next_table_addr(d2);
                        assert(s3.contains(t3y));
                        let ky3 = choose|k: int| 0 <= k < s3.len() && s3[k] == t3y;
                        assert(an.contains(t3y) && t3y != root);
                        assert(entry_at(m2, t3y, l3_idx(va2)) == entry_at(m, t3y, l3_idx(va2)));
                    }
                }
            }
        }
    }
}

/// Installing a fresh, zero-filled level-2 table under the (invalid)
/// level-1 slot of `va`: well-formed with the frame added to the
/// level-2 pool, and no walk changes.
pub proof fn lemma_install_l1(
    m: Seq<u64>,
    root: u64,
    s1: Seq<u64>,
    s2: Seq<u64>,
    s3: Seq<u64>,
    va: u64,
    f: u64,
)
    requires
        wf_data(m, root, s1, s2, s3),
        desc_valid(entry_at(m, root, l0_idx(va))),
        !desc_valid(entry_at(m, next_table_addr(entry_at(m, root, l0_idx(va))), l1_idx(va))),
        table_ok(f, m),
        !all_frames(root, s1, s2, s3).contains(f),
        forall|i: u64| i < 512 ==> #[trigger] entry_at(m, f, i) == 0,
    ensures
        ({
            let t1x = next_table_addr(entry_at(m, root, l0_idx(va)));
            let m2 = m.update(entry_addr(t1x, l1_idx(va)) as int / 8, make_table_desc(f));
            &&& wf_data(m2, root, s1, s2.push(f), s3)
            &&& m2.len() == m.len()
            &&& desc_valid(entry_at(m2, t1x, l1_idx(va)))
            &&& desc_is_table(entry_at(m2, t1x, l1_idx(va)))
            &&& next_table_addr(entry_at(m2, t1x, l1_idx(va))) == f
            &&& forall|t: u64, i: u64|
                all_frames(root, s1, s2.push(f), s3).contains(t) && i < 512 ==> #[trigger]
                entry_at(m2, t, i) == (if t == t1x && i == l1_idx(va) {
                    make_table_desc(f)
                } else {
                    entry_at(m, t, i)
                })
            &&& desc_valid(entry_at(m2, root, l0_idx(va)))
            &&& entry_at(m2, root, l0_idx(va)) == entry_at(m, root, l0_idx(va))
            &&& forall|va2: u64| #[trigger] walk_spec(m2, root, va2) == walk_spec(m, root, va2)
            &&& forall|t: u64|
                #[trigger] all_frames(root, s1, s2.push(f), s3).contains(t) <==> (all_frames(
                    root,
                    s1,
                    s2,
                    s3,
                ).contains(t) || t == f)
        }),
{
    reveal(inj_l0);
    reveal(inj_l1);
    reveal(inj_l2);
    reveal(children_l0);
    reveal(children_l1);
    reveal(children_l2);
    reveal(walk_spec);
    lemma_idx_bounds(va);
    lemma_frames_facts(root, s1, s2, s3);
    lemma_frames_distinct(root, s1, s2, s3);
    lemma_table_desc_fields(f);
    let a = all_frames(root, s1, s2, s3);
    let t1x = next_table_addr(entry_at(m, root, l0_idx(va)));
    assert(s1.contains(t1x));
    let kx1 = choose|k: int| 0 <= k < s1.len() && s1[k] == t1x;
    assert(table_ok(t1x, m));
    let s2n = s2.push(f);
    let an = all_frames(root, s1, s2n, s3);
    lemma_frames_facts(root, s1, s2n, s3);
    lemma_frames_push2(root, s1, s2, s3, f);
    let v = make_table_desc(f);
    let m2 = m.update(entry_addr(t1x, l1_idx(va)) as int / 8, v);
    assert(forall|x: u64| s2n.contains(x) <==> (s2.contains(x) || x == f)) by {
        assert(s2n[s2.len() as int] == f);
        assert(forall|k: int| 0 <= k < s2.len() ==> s2n[k] == #[trigger] s2[k]);
        assert forall|x: u64| #[trigger] s2n.contains(x) implies (s2.contains(x) || x == f) by {
            let k = choose|k: int| 0 <= k < s2n.len() && s2n[k] == x;
            if k < s2.len() {
                assert(s2[k] == x);
            }
        }
        assert forall|x: u64| s2.contains(x) implies s2n.contains(x) by {
            let k = choose|k: int| 0 <= k < s2.len() && s2[k] == x;
            assert(s2n[k] == x);
        }
    }
    // How every table entry reads after the write.
    assert forall|t: u64, i: u64| an.contains(t) && i < 512 implies #[trigger] entry_at(
        m2,
        t,
        i,
    ) == (if t == t1x && i == l1_idx(va) {
        v
    } else {
        entry_at(m, t, i)
    }) by {
        if t == f {
            lemma_entry_at_update(m, t1x, l1_idx(va), v, t, i);
        } else {
            assert(a.contains(t));
            lemma_member_table_ok(m, root, s1, s2, s3, t);
            lemma_entry_at_update(m, t1x, l1_idx(va), v, t, i);
        }
    }
    assert(an.contains(f) && an.contains(t1x) && an.contains(root));
    assert(f != t1x && root != t1x);
    // Well-formedness of the grown tree.
    assert forall|i: u64| i < 512 && desc_valid(#[trigger] entry_at(m2, root, i)) implies
        desc_is_table(entry_at(m2, root, i)) && s1.contains(
        next_table_addr(entry_at(m2, root, i)),
    ) by {
        assert(entry_at(m2, root, i) == entry_at(m, root, i));
    }
    assert forall|k: int, i: u64|
        0 <= k < s1.len() && i < 512 && desc_valid(#[trigger] entry_at(m2, s1[k], i))
            && desc_is_table(entry_at(m2, s1[k], i)) implies s2n.contains(
        next_table_addr(entry_at(m2, s1[k], i)),
    ) by {
        assert(an.contains(s1[k]));
        if s1[k] == t1x && i == l1_idx(va) {
            assert(entry_at(m2, s1[k], i) == v);
        } else {
            assert(entry_at(m2, s1[k], i) == entry_at(m, s1[k], i));
        }
    }
    assert forall|k: int, i: u64|
        0 <= k < s2n.len() && i < 512 && desc_valid(#[trigger] entry_at(m2, s2n[k], i))
            && desc_is_table(entry_at(m2, s2n[k], i)) implies s3.contains(
        next_table_addr(entry_at(m2, s2n[k], i)),
    ) by {
        assert(an.contains(s2n[k]));
        assert(entry_at(m2, s2n[k], i) == entry_at(m, s2n[k], i));
        if k == s2.len() {
            assert(entry_at(m, f, i) == 0);
            lemma_zero_desc_invalid();
        } else {
            assert(s2n[k] == s2[k]);
        }
    }
    assert forall|i: u64, j: u64|
        i < 512 && j < 512 && i != j && desc_valid(#[trigger] entry_at(m2, root, i))
            && desc_valid(#[trigger] entry_at(m2, root, j)) implies next_table_addr(
        entry_at(m2, root, i),
    ) != next_table_addr(entry_at(m2, root, j)) by {
        assert(entry_at(m2, root, i) == entry_at(m, root, i));
        assert(entry_at(m2, root, j) == entry_at(m, root, j));
    }
    assert forall|k: int, i: u64, k2: int, i2: u64|
        0 <= k < s1.len() && i < 512 && 0 <= k2 < s1.len() && i2 < 512 && (k != k2 || i != i2)
            && desc_valid(#[trigger] entry_at(m2, s1[k], i)) && desc_is_table(
            entry_at(m2, s1[k], i),
        ) && desc_valid(#[trigger] entry_at(m2, s1[k2], i2)) && desc_is_table(
            entry_at(m2, s1[k2], i2),
        ) implies next_table_addr(entry_at(m2, s1[k], i)) != next_table_addr(
        entry_at(m2, s1[k2], i2),
    ) by {
        assert(an.contains(s1[k]) && an.contains(s1[k2]));
        if s1[k] == t1x && i == l1_idx(va) {
            assert(entry_at(m2, s1[k2], i2) == entry_at(m, s1[k2], i2));
            assert(s2.contains(next_table_addr(entry_at(m, s1[k2], i2))));
            assert(next_table_addr(entry_at(m2, s1[k], i)) == f);
        } else if s1[k2] == t1x && i2 == l1_idx(va) {
            assert(entry_at(m2, s1[k], i) == entry_at(m, s1[k], i));
            assert(s2.contains(next_table_addr(entry_at(m, s1[k], i))));
            assert(next_table_addr(entry_at(m2, s1[k2], i2)) == f);
        } else {
            assert(entry_at(m2, s1[k], i) == entry_at(m, s1[k], i));
            assert(entry_at(m2, s1[k2], i2) == entry_at(m, s1[k2], i2));
        }
    }
    assert forall|k: int, i: u64, k2: int, i2: u64|
        0 <= k < s2n.len() && i < 512 && 0 <= k2 < s2n.len() && i2 < 512 && (k != k2 || i != i2)
            && desc_valid(#[trigger] entry_at(m2, s2n[k], i)) && desc_is_table(
            entry_at(m2, s2n[k], i),
        ) && desc_valid(#[trigger] entry_at(m2, s2n[k2], i2)) && desc_is_table(
            entry_at(m2, s2n[k2], i2),
        ) implies next_table_addr(entry_at(m2, s2n[k], i)) != next_table_addr(
        entry_at(m2, s2n[k2], i2),
    ) by {
        assert(an.contains(s2n[k]) && an.contains(s2n[k2]));
        assert(entry_at(m2, s2n[k], i) == entry_at(m, s2n[k], i));
        assert(entry_at(m2, s2n[k2], i2) == entry_at(m, s2n[k2], i2));
        lemma_zero_desc_invalid();
        if k == s2.len() {
            assert(entry_at(m, f, i) == 0);
        } else if k2 == s2.len() {
            assert(entry_at(m, f, i2) == 0);
        } else {
            assert(s2n[k] == s2[k] && s2n[k2] == s2[k2]);
        }
    }
    // No walk changes.
    assert forall|va2: u64| #[trigger] walk_spec(m2, root, va2) == walk_spec(m, root, va2) by {
        lemma_idx_bounds(va2);
        assert(entry_at(m2, root, l0_idx(va2)) == entry_at(m, root, l0_idx(va2)));
        let d0 = entry_at(m, root, l0_idx(va2));
        if desc_valid(d0) {
            let t1y = next_table_addr(d0);
            assert(s1.contains(t1y));
            let ky1 = choose|k: int| 0 <= k < s1.len() && s1[k] == t1y;
            assert(an.contains(t1y));
            if t1y == t1x {
                assert(l0_idx(va2) == l0_idx(va));
                if l1_idx(va2) == l1_idx(va) {
                    assert(entry_at(m2, t1x, l1_idx(va2)) == v);
                    assert(entry_at(m2, f, l2_idx(va2)) == entry_at(m, f, l2_idx(va2)));
                    assert(entry_at(m, f, l2_idx(va2)) == 0);
                    lemma_zero_desc_invalid();
                    assert(walk_spec(m2, root, va2) is None);
                    assert(walk_spec(m, root, va2) is None);
                } else {
                    assert(entry_at(m2, t1y, l1_idx(va2)) == entry_at(m, t1y, l1_idx(va2)));
                    let d1 = entry_at(m, t1y, l1_idx(va2));
                    if desc_valid(d1) && desc_is_table(d1) {
                        let t2y = next_table_addr(d1);
                        assert(s2.contains(t2y));
                        let ky2 = choose|k: int| 0 <= k < s2.len() && s2[k] == t2y;
                        assert(an.contains(t2y) && t2y != t1x);
                        assert(entry_at(m2, t2y, l2_idx(va2)) == entry_at(m, t2y, l2_idx(va2)));
                        let d2 = entry_at(m, t2y, l2_idx(va2));
                        if desc_valid(d2) && desc_is_table(d2) {
                            let t3y = next_table_addr(d2);
                            assert(s3.contains(t3y));
                            let ky3 = choose|k: int| 0 <= k < s3.len() && s3[k] == t3y;
                            assert(an.contains(t3y) && t3y != t1x);
                            assert(entry_at(m2, t3y, l3_idx(va2)) == entry_at(
                                m,
                                t3y,
                                l3_idx(va2),
                            ));
                        }
                    }
                }
            } else {
                assert(entry_at(m2, t1y, l1_idx(va2)) == entry_at(m, t1y, l1_idx(va2)));
                let d1 = entry_at(m, t1y, l1_idx(va2));
                if desc_valid(d1) && desc_is_table(d1) {
                    let t2y = next_table_addr(d1);
                    assert(s2.contains(t2y));
                    let ky2 = choose|k: int| 0 <= k < s2.len() && s2[k] == t2y;
                    assert(an.contains(t2y) && t2y != t1x);
                    assert(entry_at(m2, t2y, l2_idx(va2)) == entry_at(m, t2y, l2_idx(va2)));
                    let d2 = entry_at(m, t2y, l2_idx(va2));
                    if desc_valid(d2) && desc_is_table(d2) {
                        let t3y = next_table_addr(d2);
                        assert(s3.contains(t3y));
                        let ky3 = choose|k: int| 0 <= k < s3.len() && s3[k] == t3y;
                        assert(an.contains(t3y) && t3y != t1x);
                        assert(entry_at(m2, t3y, l3_idx(va2)) == entry_at(m, t3y, l3_idx(va2)));
                    }
                }
            }
        }
    }
}

/// Installing a fresh, zero-filled level-3 table under the (invalid)
/// level-2 slot of `va`: well-formed with the frame added to the
/// level-3 pool, and no walk changes.
pub proof fn lemma_install_l2(
    m: Seq<u64>,
    root: u64,
    s1: Seq<u64>,
    s2: Seq<u64>,
    s3: Seq<u64>,
    va: u64,
    f: u64,
)
    requires
        wf_data(m, root, s1, s2, s3),
        desc_valid(entry_at(m, root, l0_idx(va))),
        desc_valid(entry_at(m, next_table_addr(entry_at(m, root, l0_idx(va))), l1_idx(va))),
        desc_is_table(entry_at(m, next_table_addr(entry_at(m, root, l0_idx(va))), l1_idx(va))),
        !desc_valid(
            entry_at(
                m,
                next_table_addr(
                    entry_at(m, next_table_addr(entry_at(m, root, l0_idx(va))), l1_idx(va)),
                ),
                l2_idx(va),
            ),
        ),
        table_ok(f, m),
        !all_frames(root, s1, s2, s3).contains(f),
        forall|i: u64| i < 512 ==> #[trigger] entry_at(m, f, i) == 0,
    ensures
        ({
            let t1x = next_table_addr(entry_at(m, root, l0_idx(va)));
            let t2x = next_table_addr(entry_at(m, t1x, l1_idx(va)));
            let m2 = m.update(entry_addr(t2x, l2_idx(va)) as int / 8, make_table_desc(f));
            &&& wf_data(m2, root, s1, s2, s3.push(f))
            &&& m2.len() == m.len()
            &&& desc_valid(entry_at(m2, t2x, l2_idx(va)))
            &&& desc_is_table(entry_at(m2, t2x, l2_idx(va)))
            &&& next_table_addr(entry_at(m2, t2x, l2_idx(va))) == f
            &&& forall|t: u64, i: u64|
                all_frames(root, s1, s2, s3.push(f)).contains(t) && i < 512 ==> #[trigger]
                entry_at(m2, t, i) == (if t == t2x && i == l2_idx(va) {
                    make_table_desc(f)
                } else {
                    entry_at(m, t, i)
                })
            &&& entry_at(m2, root, l0_idx(va)) == entry_at(m, root, l0_idx(va))
            &&& entry_at(m2, t1x, l1_idx(va)) == entry_at(m, t1x, l1_idx(va))
            &&& forall|va2: u64| #[trigger] walk_spec(m2, root, va2) == walk_spec(m, root, va2)
            &&& forall|t: u64|
                #[trigger] all_frames(root, s1, s2, s3.push(f)).contains(t) <==> (all_frames(
                    root,
                    s1,
                    s2,
                    s3,
                ).contains(t) || t == f)
        }),
{
    reveal(inj_l0);
    reveal(inj_l1);
    reveal(inj_l2);
    reveal(children_l0);
    reveal(children_l1);
    reveal(children_l2);
    reveal(walk_spec);
    lemma_idx_bounds(va);
    lemma_frames_facts(root, s1, s2, s3);
    lemma_frames_distinct(root, s1, s2, s3);
    lemma_table_desc_fields(f);
    let a = all_frames(root, s1, s2, s3);
    let t1x = next_table_addr(entry_at(m, root, l0_idx(va)));
    assert(s1.contains(t1x));
    let kx1 = choose|k: int| 0 <= k < s1.len() && s1[k] == t1x;
    let t2x = next_table_addr(entry_at(m, t1x, l1_idx(va)));
    assert(s2.contains(t2x));
    let kx2 = choose|k: int| 0 <= k < s2.len() && s2[k] == t2x;
    assert(table_ok(t2x, m));
    let s3n = s3.push(f);
    let an = all_frames(root, s1, s2, s3n);
    lemma_frames_facts(root, s1, s2, s3n);
    lemma_frames_push3(root, s1, s2, s3, f);
    let v = make_table_desc(f);
    let m2 = m.update(entry_addr(t2x, l2_idx(va)) as int / 8, v);
    assert(forall|x: u64| s3n.contains(x) <==> (s3.contains(x) || x == f)) by {
        assert(s3n[s3.len() as int] == f);
        assert(forall|k: int| 0 <= k < s3.len() ==> s3n[k] == #[trigger] s3[k]);
        assert forall|x: u64| #[trigger] s3n.contains(x) implies (s3.contains(x) || x == f) by {
            let k = choose|k: int| 0 <= k < s3n.len() && s3n[k] == x;
            if k < s3.len() {
                assert(s3[k] == x);
            }
        }
        assert forall|x: u64| s3.contains(x) implies s3n.contains(x) by {
            let k = choose|k: int| 0 <= k < s3.len() && s3[k] == x;
            assert(s3n[k] == x);
        }
    }
    // How every table entry reads after the write.
    assert forall|t: u64, i: u64| an.contains(t) && i < 512 implies #[trigger] entry_at(
        m2,
        t,
        i,
    ) == (if t == t2x && i == l2_idx(va) {
        v
    } else {
        entry_at(m, t, i)
    }) by {
        if t == f {
            lemma_entry_at_update(m, t2x, l2_idx(va), v, t, i);
        } else {
            assert(a.contains(t));
            lemma_member_table_ok(m, root, s1, s2, s3, t);
            lemma_entry_at_update(m, t2x, l2_idx(va), v, t, i);
        }
    }
    assert(an.contains(f) && an.contains(t2x) && an.contains(root) && an.contains(t1x));
    assert(f != t2x && root != t2x && t1x != t2x);
    // Well-formedness of the grown tree.
    assert forall|i: u64| i < 512 && desc_valid(#[trigger] entry_at(m2, root, i)) implies
        desc_is_table(entry_at(m2, root, i)) && s1.contains(
        next_table_addr(entry_at(m2, root, i)),
    ) by {
        assert(entry_at(m2, root, i) == entry_at(m, root, i));
    }
    assert forall|k: int, i: u64|
        0 <= k < s1.len() && i < 512 && desc_valid(#[trigger] entry_at(m2, s1[k], i))
            && desc_is_table(entry_at(m2, s1[k], i)) implies s2.contains(
        next_table_addr(entry_at(m2, s1[k], i)),
    ) by {
        assert(an.contains(s1[k]));
        assert(s1[k] != t2x);
        assert(entry_at(m2, s1[k], i) == entry_at(m, s1[k], i));
    }
    assert forall|k: int, i: u64|
        0 <= k < s2.len() && i < 512 && desc_valid(#[trigger] entry_at(m2, s2[k], i))
            && desc_is_table(entry_at(m2, s2[k], i)) implies s3n.contains(
        next_table_addr(entry_at(m2, s2[k], i)),
    ) by {
        assert(an.contains(s2[k]));
        if s2[k] == t2x && i == l2_idx(va) {
            assert(entry_at(m2, s2[k], i) == v);
        } else {
            assert(entry_at(m2, s2[k], i) == entry_at(m, s2[k], i));
        }
    }
    assert forall|i: u64, j: u64|
        i < 512 && j < 512 && i != j && desc_valid(#[trigger] entry_at(m2, root, i))
            && desc_valid(#[trigger] entry_at(m2, root, j)) implies next_table_addr(
        entry_at(m2, root, i),
    ) != next_table_addr(entry_at(m2, root, j)) by {
        assert(entry_at(m2, root, i) == entry_at(m, root, i));
        assert(entry_at(m2, root, j) == entry_at(m, root, j));
    }
    assert forall|k: int, i: u64, k2: int, i2: u64|
        0 <= k < s1.len() && i < 512 && 0 <= k2 < s1.len() && i2 < 512 && (k != k2 || i != i2)
            && desc_valid(#[trigger] entry_at(m2, s1[k], i)) && desc_is_table(
            entry_at(m2, s1[k], i),
        ) && desc_valid(#[trigger] entry_at(m2, s1[k2], i2)) && desc_is_table(
            entry_at(m2, s1[k2], i2),
        ) implies next_table_addr(entry_at(m2, s1[k], i)) != next_table_addr(
        entry_at(m2, s1[k2], i2),
    ) by {
        assert(an.contains(s1[k]) && an.contains(s1[k2]));
        assert(s1[k] != t2x && s1[k2] != t2x);
        assert(entry_at(m2, s1[k], i) == entry_at(m, s1[k], i));
        assert(entry_at(m2, s1[k2], i2) == entry_at(m, s1[k2], i2));
    }
    assert forall|k: int, i: u64, k2: int, i2: u64|
        0 <= k < s2.len() && i < 512 && 0 <= k2 < s2.len() && i2 < 512 && (k != k2 || i != i2)
            && desc_valid(#[trigger] entry_at(m2, s2[k], i)) && desc_is_table(
            entry_at(m2, s2[k], i),
        ) && desc_valid(#[trigger] entry_at(m2, s2[k2], i2)) && desc_is_table(
            entry_at(m2, s2[k2], i2),
        ) implies next_table_addr(entry_at(m2, s2[k], i)) != next_table_addr(
        entry_at(m2, s2[k2], i2),
    ) by {
        assert(an.contains(s2[k]) && an.contains(s2[k2]));
        if s2[k] == t2x && i == l2_idx(va) {
            assert(entry_at(m2, s2[k2], i2) == entry_at(m, s2[k2], i2));
            assert(s3.contains(next_table_addr(entry_at(m, s2[k2], i2))));
            assert(next_table_addr(entry_at(m2, s2[k], i)) == f);
        } else if s2[k2] == t2x && i2 == l2_idx(va) {
            assert(entry_at(m2, s2[k], i) == entry_at(m, s2[k], i));
            assert(s3.contains(next_table_addr(entry_at(m, s2[k], i))));
            assert(next_table_addr(entry_at(m2, s2[k2], i2)) == f);
        } else {
            assert(entry_at(m2, s2[k], i) == entry_at(m, s2[k], i));
            assert(entry_at(m2, s2[k2], i2) == entry_at(m, s2[k2], i2));
        }
    }
    // No walk changes.
    assert forall|va2: u64| #[trigger] walk_spec(m2, root, va2) == walk_spec(m, root, va2) by {
        lemma_idx_bounds(va2);
        assert(entry_at(m2, root, l0_idx(va2)) == entry_at(m, root, l0_idx(va2)));
        let d0 = entry_at(m, root, l0_idx(va2));
        if desc_valid(d0) {
            let t1y = next_table_addr(d0);
            assert(s1.contains(t1y));
            let ky1 = choose|k: int| 0 <= k < s1.len() && s1[k] == t1y;
            assert(an.contains(t1y) && t1y != t2x);
            assert(entry_at(m2, t1y, l1_idx(va2)) == entry_at(m, t1y, l1_idx(va2)));
            let d1 = entry_at(m, t1y, l1_idx(va2));
            if desc_valid(d1) && desc_is_table(d1) {
                let t2y = next_table_addr(d1);
                assert(s2.contains(t2y));
                let ky2 = choose|k: int| 0 <= k < s2.len() && s2[k] == t2y;
                assert(an.contains(t2y));
                if t2y == t2x {
                    assert(t1y == t1x && l1_idx(va2) == l1_idx(va));
                    assert(l0_idx(va2) == l0_idx(va));
                    if l2_idx(va2) == l2_idx(va) {
                        assert(entry_at(m2, t2x, l2_idx(va2)) == v);
                        assert(entry_at(m2, f, l3_idx(va2)) == entry_at(m, f, l3_idx(va2)));
                        assert(entry_at(m, f, l3_idx(va2)) == 0);
                        lemma_zero_desc_invalid();
                        assert(walk_spec(m2, root, va2) is None);
                        assert(walk_spec(m, root, va2) is None);
                    } else {
                        assert(entry_at(m2, t2y, l2_idx(va2)) == entry_at(m, t2y, l2_idx(va2)));
                        let d2 = entry_at(m, t2y, l2_idx(va2));
                        if desc_valid(d2) && desc_is_table(d2) {
                            let t3y = next_table_addr(d2);
                            assert(s3.contains(t3y));
                            let ky3 = choose|k: int| 0 <= k < s3.len() && s3[k] == t3y;
                            assert(an.contains(t3y) && t3y != t2x);
                            assert(entry_at(m2, t3y, l3_idx(va2)) == entry_at(
                                m,
                                t3y,
                                l3_idx(va2),
                            ));
                        }
                    }
                } else {
                    assert(entry_at(m2, t2y, l2_idx(va2)) == entry_at(m, t2y, l2_idx(va2)));
                    let d2 = entry_at(m, t2y, l2_idx(va2));
                    if desc_valid(d2) && desc_is_table(d2) {
                        let t3y = next_table_addr(d2);
                        assert(s3.contains(t3y));
                        let ky3 = choose|k: int| 0 <= k < s3.len() && s3[k] == t3y;
                        assert(an.contains(t3y) && t3y != t2x);
                        assert(entry_at(m2, t3y, l3_idx(va2)) == entry_at(m, t3y, l3_idx(va2)));
                    }
                }
            }
        }
    }
}

/// A 1 GiB block bars the way, or the level-2 slot is already taken.
pub open spec fn obstacle_2m(m: Seq<u64>, root: u64, va: u64) -> bool {
    let d0 = entry_at(m, root, l0_idx(va));
    if !desc_valid(d0) {
        false
    } else {
        let d1 = entry_at(m, next_table_addr(d0), l1_idx(va));
        if !desc_valid(d1) {
            false
        } else if !desc_is_table(d1) {
            true
        } else {
            desc_valid(entry_at(m, next_table_addr(d1), l2_idx(va)))
        }
    }
}

/// Table frames a 2 MiB mapping of `va` still needs.
pub open spec fn missing_2m(m: Seq<u64>, root: u64, va: u64) -> int {
    let d0 = entry_at(m, root, l0_idx(va));
    if !desc_valid(d0) {
        2
    } else {
        let d1 = entry_at(m, next_table_addr(d0), l1_idx(va));
        if !desc_valid(d1) {
            1
        } else {
            0
        }
    }
}

/// A block bars the way at level 1 or 2, or the page slot is taken.
pub open spec fn obstacle_4k(m: Seq<u64>, root: u64, va: u64) -> bool {
    let d0 = entry_at(m, root, l0_idx(va));
    if !desc_valid(d0) {
        false
    } else {
        let d1 = entry_at(m, next_table_addr(d0), l1_idx(va));
        if !desc_valid(d1) {
            false
        } else if !desc_is_table(d1) {
            true
        } else {
            let d2 = entry_at(m, next_table_addr(d1), l2_idx(va));
            if !desc_valid(d2) {
                false
            } else if !desc_is_table(d2) {
                true
            } else {
                desc_valid(entry_at(m, next_table_addr(d2), l3_idx(va)))
            }
        }
    }
}

/// Table frames a 4 KiB mapping of `va` still needs.
pub open spec fn missing_4k(m: Seq<u64>, root: u64, va: u64) -> int {
    let d0 = entry_at(m, root, l0_idx(va));
    if !desc_valid(d0) {
        3
    } else {
        let d1 = entry_at(m, next_table_addr(d0), l1_idx(va));
        if !desc_valid(d1) {
            2
        } else {
            let d2 = entry_at(m, next_table_addr(d1), l2_idx(va));
            if !desc_valid(d2) {
                1
            } else {
                0
            }
        }
    }
}

/// There is already a mapping in the level-1 slot of `va`.
pub open spec fn taken_1g(m: Seq<u64>, root: u64, va: u64) -> bool {
    let d0 = entry_at(m, root, l0_idx(va));
    desc_valid(d0) && desc_valid(entry_at(m, next_table_addr(d0), l1_idx(va)))
}

/// Table frames a 1 GiB mapping of `va` still needs.
pub open spec fn missing_1g(m: Seq<u64>, root: u64, va: u64) -> int {
    if desc_valid(entry_at(m, root, l0_idx(va))) {
        0
    } else {
        1
    }
}

/// Writing into a table frame that is not on the allocator's free
/// list leaves the allocator's intrusive chain intact.
pub proof fn lemma_alloc_inv_write(
    a: &PageFrameAllocator,
    m1: Seq<u64>,
    t: u64,
    i: u64,
    v: u64,
)
    requires
        a.inv(m1),
        a.page_size_spec() == 4096,
        table_ok(t, m1),
        i < 512,
        m1.len() * 8 <= 0x1_0000_0000_0000,
        !a.free_seq().contains(t),
    ensures
        a.inv(m1.update(entry_addr(t, i) as int / 8, v)),
{
    let m2 = m1.update(entry_addr(t, i) as int / 8, v);
    let fl = a.free_seq();
    lemma_entry_addr_ok(t, i, m1);
    crate::phys::lemma_word_index(entry_addr(t, i), m1.len() as int);
    assert forall|j: int| 0 <= j < fl.len() implies word_at(m2, #[trigger] fl[j]) == word_at(
        m1,
        fl[j],
    ) by {
        assert(crate::frame_alloc::frame_ok(fl[j], 4096, m1.len() as int));
        lemma_frame_align(fl[j], 4096);
        crate::phys::lemma_word_index(fl[j], m1.len() as int);
        assert(fl[j] != t);
        crate::frame_alloc::lemma_frame_words_disjoint(t, fl[j], 4096);
    }
    assert forall|j: int| 0 <= j < fl.len() implies crate::frame_alloc::frame_ok(
        #[trigger] fl[j],
        4096,
        m2.len() as int,
    ) by {}
}

/// The four-level translation table.
///
/// `root` is the level-0 table frame; `t1`, `t2` and `t3` record every
/// level-1, level-2 and level-3 table frame this table has allocated.
/// Block and page descriptors describe their target frames but do not
/// own them.
pub struct PageTable {
    root: u64,
    t1: Vec<u64>,
    t2: Vec<u64>,
    t3: Vec<u64>,
}

impl PageTable {
    /// Physical address of the level-0 table.
    pub closed spec fn root_spec(&self) -> u64 {
        self.root
    }

    /// The level-1 table frames.
    pub closed spec fn tables1(&self) -> Seq<u64> {
        self.t1@
    }

    /// The level-2 table frames.
    pub closed spec fn tables2(&self) -> Seq<u64> {
        self.t2@
    }

    /// The level-3 table frames.
    pub closed spec fn tables3(&self) -> Seq<u64> {
        self.t3@
    }

    /// Every frame owned by this table, the root first.
    pub open spec fn all_tables(&self) -> Seq<u64> {
        all_frames(self.root_spec(), self.tables1(), self.tables2(), self.tables3())
    }

    /// Number of frames owned by this table.
    pub open spec fn num_tables(&self) -> int {
        self.all_tables().len() as int
    }

    /// None of this table's frames sit in the allocator's free list.
    pub open spec fn disjoint_from(&self, alloc: &PageFrameAllocator) -> bool {
        forall|k: int|
            0 <= k < self.all_tables().len() ==> !alloc.free_seq().contains(
                #[trigger] self.all_tables()[k],
            )
    }

    /// Well-formedness of the table tree over memory `m`.
    pub open spec fn wf(&self, m: Seq<u64>) -> bool {
        wf_data(m, self.root_spec(), self.tables1(), self.tables2(), self.tables3())
    }

    /// The physical address of the level-0 table, for programming into
    /// a translation-table base register.
    pub fn as_raw_ptr(&self) -> (r: u64)
        ensures
            r == self.root_spec(),
    {
        self.root
    }

    /// Constructs a new, empty page table, drawing one frame for the
    /// level-0 table from the allocator.
    pub fn new(mem: &mut PhysMem, alloc: &mut PageFrameAllocator) -> (r: Result<
        PageTable,
        BootError,
    >)
        requires
            old(alloc).inv(old(mem)@),
            old(alloc).page_size_spec() == 4096,
            old(mem)@.len() * 8 <= 0x1_0000_0000_0000,
        ensures
            final(alloc).page_size_spec() == 4096,
            final(alloc).inv(final(mem)@),
            final(mem)@.len() == old(mem)@.len(),
            r is Ok <==> old(alloc).free_seq().len() > 0,
            r is Err ==> *final(alloc) == *old(alloc) && final(mem)@ == old(mem)@ && r
                == Err::<PageTable, BootError>(BootError::OutOfFrames),
            r is Ok ==> ({
                let pt = r->Ok_0;
                &&& pt.wf(final(mem)@)
                &&& pt.disjoint_from(final(alloc))
                &&& pt.num_tables() == 1
                &&& pt.tables1() == Seq::<u64>::empty()
                &&& pt.tables2() == Seq::<u64>::empty()
                &&& pt.tables3() == Seq::<u64>::empty()
                &&& final(alloc).num_free_spec() == old(alloc).num_free_spec() - 1
                &&& forall|i: u64|
                    i < 512 ==> !desc_valid(#[trigger] entry_at(final(mem)@, pt.root_spec(), i))
                &&& forall|va: u64| #[trigger] walk_spec(final(mem)@, pt.root_spec(), va) is None
                &&& forall|w: int|
                    0 <= w < old(mem)@.len() && !(pt.root_spec() as int / 8 <= w < pt.root_spec()
                        as int / 8 + 512) ==> final(mem)@[w] == old(mem)@[w]
            }),
    {
        let root = match alloc.alloc_frame(mem) {
            Ok(f) => f,
            Err(_) => {
                return Err(BootError::OutOfFrames);
            },
        };
        let pt = PageTable { root, t1: Vec::new(), t2: Vec::new(), t3: Vec::new() };
        proof {
            reveal(inj_l0);
            reveal(inj_l1);
            reveal(inj_l2);
            reveal(children_l0);
            reveal(children_l1);
            reveal(children_l2);
            reveal(walk_spec);
            assert(pt.all_tables() =~= seq![root]);
            assert forall|i: u64| i < 512 implies !desc_valid(#[trigger] entry_at(mem@, root, i))
                by {
                lemma_entry_addr_ok(root, i, mem@);
                crate::phys::lemma_word_index(entry_addr(root, i), mem@.len() as int);
                assert(entry_at(mem@, root, i) == 0);
                assert(!desc_valid(0)) by (bit_vector);
            }
            assert forall|va: u64| #[trigger]
                walk_spec(mem@, root, va) is None by {
                lemma_idx_bounds(va);
                lemma_entry_addr_ok(root, l0_idx(va), mem@);
                crate::phys::lemma_word_index(entry_addr(root, l0_idx(va)), mem@.len() as int);
                assert(entry_at(mem@, root, l0_idx(va)) == 0);
                assert(!desc_valid(0)) by (bit_vector);
            }
        }
        Ok(pt)
    }

    /// Performs a translation-table walk, translating a virtual
    /// address into a physical address; fails exactly when the walk
    /// meets an invalid descriptor.
    pub fn virt_to_phys(&self, mem: &PhysMem, virt_addr: VirtualAddr) -> (r: Result<u64, ()>)
        requires
            self.wf(mem@),
        ensures
            match walk_spec(mem@, self.root_spec(), virt_addr.0) {
                Some(pa) => r == Ok::<u64, ()>(pa),
                None => r == Err::<u64, ()>(()),
            },
    {
        proof {
            reveal(walk_spec);
            lemma_idx_bounds(virt_addr.0);
        }
        let va = virt_addr.0;
        let i0 = ((va >> 39) & 0x1FF);
        proof {
            lemma_entry_addr_ok(self.root, i0, mem@);
        }
        let d0 = mem.read_word(self.root + 8 * i0);
        if d0 & 1 != 1 {
            return Err(());
        }
        proof {
            reveal(children_l0);
            assert(self.tables1().contains(next_table_addr(entry_at(mem@, self.root_spec(), i0))));
        }
        let t1 = ((d0 >> 12) & 0xF_FFFF_FFFF) << 12;
        let i1 = ((va >> 30) & 0x1FF);
        proof {
            let k = choose|k: int|
                0 <= k < self.tables1().len() && self.tables1()[k] == next_table_addr(
                    entry_at(mem@, self.root_spec(), i0),
                );
            assert(table_ok(t1, mem@));
            lemma_entry_addr_ok(t1, i1, mem@);
        }
        let d1 = mem.read_word(t1 + 8 * i1);
        if d1 & 1 != 1 {
            return Err(());
        }
        if d1 & 2 != 2 {
            return Ok((((d1 >> 30) & 0x3_FFFF) << 30) | (va & 0x3FFF_FFFF));
        }
        proof {
            reveal(children_l0);
            reveal(children_l1);
            let k1 = choose|k: int|
                0 <= k < self.tables1().len() && self.tables1()[k] == next_table_addr(
                    entry_at(mem@, self.root_spec(), i0),
                );
            assert(self.tables2().contains(
                next_table_addr(entry_at(mem@, self.tables1()[k1], i1)),
            ));
        }
        let t2 = ((d1 >> 12) & 0xF_FFFF_FFFF) << 12;
        let i2 = ((va >> 21) & 0x1FF);
        proof {
            let k = choose|k: int|
                0 <= k < self.tables2().len() && self.tables2()[k] == t2;
            assert(table_ok(t2, mem@));
            lemma_entry_addr_ok(t2, i2, mem@);
        }
        let d2 = mem.read_word(t2 + 8 * i2);
        if d2 & 1 != 1 {
            return Err(());
        }
        if d2 & 2 != 2 {
            return Ok((((d2 >> 21) & 0x7FF_FFFF) << 21) | (va & 0x1F_FFFF));
        }
        proof {
            reveal(children_l1);
            reveal(children_l2);
            let k2 = choose|k: int|
                0 <= k < self.tables2().len() && self.tables2()[k] == t2;
            assert(self.tables3().contains(
                next_table_addr(entry_at(mem@, self.tables2()[k2], i2)),
            ));
        }
        let t3 = ((d2 >> 12) & 0xF_FFFF_FFFF) << 12;
        let i3 = ((va >> 12) & 0x1FF);
        proof {
            let k = choose|k: int|
                0 <= k < self.tables3().len() && self.tables3()[k] == t3;
            assert(table_ok(t3, mem@));
            lemma_entry_addr_ok(t3, i3, mem@);
        }
        let d3 = mem.read_word(t3 + 8 * i3);
        if d3 & 1 == 1 && d3 & 2 == 2 {
            Ok((((d3 >> 12) & 0xF_FFFF_FFFF) << 12) | (va & 0xFFF))
        } else {
            Err(())
        }
    }

    /// Ensures a level-1 table hangs under `va`'s level-0 slot,
    /// allocating and installing one if the slot is invalid.  No walk
    /// changes either way.
    #[verifier::rlimit(100)]
    fn ensure_l1(&mut self, mem: &mut PhysMem, alloc: &mut PageFrameAllocator, va: u64) -> (r:
        Result<u64, BootError>)
        requires
            old(self).wf(old(mem)@),
            old(alloc).inv(old(mem)@),
            old(alloc).page_size_spec() == 4096,
            old(self).disjoint_from(old(alloc)),
        ensures
            final(self).root_spec() == old(self).root_spec(),
            final(alloc).page_size_spec() == 4096,
            final(mem)@.len() == old(mem)@.len(),
            final(self).wf(final(mem)@),
            final(alloc).inv(final(mem)@),
            final(self).disjoint_from(final(alloc)),
            final(alloc).num_free_spec() + final(self).num_tables() == old(
                alloc,
            ).num_free_spec() + old(self).num_tables(),
            forall|t: u64|
                old(self).all_tables().contains(t) ==> final(self).all_tables().contains(t),
            forall|va2: u64|
                #[trigger] walk_spec(final(mem)@, old(self).root_spec(), va2) == walk_spec(
                    old(mem)@,
                    old(self).root_spec(),
                    va2,
                ),
            r is Ok <==> (missing_1g(old(mem)@, old(self).root_spec(), va) == 0 || old(
                alloc,
            ).num_free_spec() > 0),
            r is Err ==> *final(self) == *old(self) && final(mem)@ == old(mem)@ && *final(alloc)
                == *old(alloc) && r == Err::<u64, BootError>(BootError::OutOfFrames) && old(
                alloc,
            ).num_free_spec() == 0,
            r is Ok ==> ({
                let t1a = r->Ok_0;
                &&& desc_valid(entry_at(final(mem)@, old(self).root_spec(), l0_idx(va)))
                &&& desc_is_table(entry_at(final(mem)@, old(self).root_spec(), l0_idx(va)))
                &&& next_table_addr(entry_at(final(mem)@, old(self).root_spec(), l0_idx(va)))
                    == t1a
                &&& final(self).tables1().contains(t1a)
                &&& final(self).tables2() == old(self).tables2()
                &&& final(self).tables3() == old(self).tables3()
                &&& (desc_valid(entry_at(old(mem)@, old(self).root_spec(), l0_idx(va)))
                    ==> *final(self) == *old(self) && final(mem)@ == old(mem)@ && *final(alloc)
                    == *old(alloc))
                &&& (!desc_valid(entry_at(old(mem)@, old(self).root_spec(), l0_idx(va))) ==> (
                forall|i: u64| i < 512 ==> #[trigger] entry_at(final(mem)@, t1a, i) == 0)
                    && !old(self).all_tables().contains(t1a) && final(alloc).num_free_spec()
                    == old(alloc).num_free_spec() - 1)
                &&& forall|t: u64, i2: u64|
                    old(self).all_tables().contains(t) && i2 < 512 && !(t == old(
                        self,
                    ).root_spec() && i2 == l0_idx(va)) ==> #[trigger] entry_at(final(mem)@, t, i2)
                        == entry_at(old(mem)@, t, i2)
            }),
    {
        proof {
            lemma_idx_bounds(va);
        }
        let ghost m0 = mem@;
        let ghost a0 = *alloc;
        let ghost pt0 = *self;
        let i0 = (va >> 39) & 0x1FF;
        proof {
            lemma_entry_addr_ok(self.root, i0, mem@);
        }
        let d0 = mem.read_word(self.root + 8 * i0);
        if d0 & 1 == 1 {
            proof {
                reveal(children_l0);
                assert(d0 == entry_at(mem@, self.root_spec(), i0));
                assert(self.tables1().contains(next_table_addr(d0)));
            }
            return Ok(((d0 >> 12) & 0xF_FFFF_FFFF) << 12);
        }
        let f = match alloc.alloc_frame(mem) {
            Ok(f) => f,
            Err(_) => {
                return Err(BootError::OutOfFrames);
            },
        };
        proof {
            assert(a0.free_seq().contains(f)) by {
                assert(a0.free_seq()[0] == f);
            }
            if pt0.all_tables().contains(f) {
                let k = choose|k: int|
                    0 <= k < pt0.all_tables().len() && pt0.all_tables()[k] == f;
                assert(false);
            }
            lemma_after_alloc(
                m0,
                mem@,
                pt0.root_spec(),
                pt0.tables1(),
                pt0.tables2(),
                pt0.tables3(),
                f,
            );
        }
        let ghost m1 = mem@;
        proof {
            lemma_entry_addr_ok(self.root, i0, mem@);
        }
        let v0 = f | 3;
        mem.write_word(self.root + 8 * i0, v0);
        self.t1.push(f);
        proof {
            lemma_table_desc_fields(f);
            assert(v0 == make_table_desc(f));
            lemma_frames_facts(pt0.root_spec(), pt0.tables1(), pt0.tables2(), pt0.tables3());
            assert(pt0.all_tables().contains(pt0.root_spec()));
            assert(entry_at(m1, pt0.root_spec(), i0) == entry_at(m0, pt0.root_spec(), i0));
            lemma_install_l0(
                m1,
                pt0.root_spec(),
                pt0.tables1(),
                pt0.tables2(),
                pt0.tables3(),
                va,
                f,
            );
            assert(!alloc.free_seq().contains(pt0.root_spec())) by {
                if alloc.free_seq().contains(pt0.root_spec()) {
                    let k = choose|k: int|
                        0 <= k < alloc.free_seq().len() && alloc.free_seq()[k]
                            == pt0.root_spec();
                    assert(a0.free_seq()[k + 1] == pt0.root_spec());
                    assert(a0.free_seq().contains(pt0.root_spec()));
                    assert(false);
                }
            }
            lemma_alloc_inv_write(alloc, m1, pt0.root_spec(), l0_idx(va), make_table_desc(f));
            assert forall|i: u64| i < 512 implies #[trigger] entry_at(mem@, f, i) == 0 by {
                lemma_entry_at_update(m1, pt0.root_spec(), l0_idx(va), make_table_desc(f), f, i);
            }
            assert(self.tables1() == pt0.tables1().push(f));
            assert(self.tables1()[pt0.tables1().len() as int] == f);
            assert(self.tables1().contains(f));
            assert(mem@ == m1.update(
                entry_addr(pt0.root_spec(), l0_idx(va)) as int / 8,
                make_table_desc(f),
            ));
            lemma_frames_facts(self.root_spec(), self.tables1(), self.tables2(),
                self.tables3());
            assert forall|t: u64|
                #[trigger] self.all_tables().contains(t) implies !alloc.free_seq().contains(
                t,
            ) by {
                if alloc.free_seq().contains(t) {
                    let k = choose|k: int|
                        0 <= k < alloc.free_seq().len() && alloc.free_seq()[k] == t;
                    assert(a0.free_seq()[k + 1] == t);
                    assert(a0.free_seq().contains(t));
                    assert(t == f || pt0.all_tables().contains(t));
                    if t == f {
                        assert(a0.free_seq()[0] == f);
                        assert(false);
                    }
                }
            }
            assert forall|t: u64, i2: u64|
                pt0.all_tables().contains(t) && i2 < 512 && !(t == pt0.root_spec() && i2
                    == l0_idx(va)) implies #[trigger] entry_at(mem@, t, i2) == entry_at(
                m0,
                t,
                i2,
            ) by {
                assert(self.all_tables().contains(t));
                assert(entry_at(m1, t, i2) == entry_at(m0, t, i2));
            }
        }
        Ok(f)
    }

    /// Maps a single 1 GiB huge page of physical memory starting at
    /// `phys_addr` to `virt_addr`, allocating a level-1 table if the
    /// level-0 slot is empty.
    ///
    /// Succeeds exactly when both addresses are 1 GiB aligned, the
    /// target slot holds no valid descriptor, and the allocator can
    /// supply the missing table; afterwards every address of the
    /// block's 1 GiB group translates to the block with its offset,
    /// and no other translation changes.
    #[verifier::rlimit(100)]
    pub fn map_1gib_page(
        &mut self,
        mem: &mut PhysMem,
        alloc: &mut PageFrameAllocator,
        phys_addr: u64,
        virt_addr: VirtualAddr,
        memory_type: MemoryType,
    ) -> (r: Result<(), BootError>)
        requires
            old(self).wf(old(mem)@),
            old(alloc).inv(old(mem)@),
            old(alloc).page_size_spec() == 4096,
            old(self).disjoint_from(old(alloc)),
            phys_addr < 0x1_0000_0000_0000,
            memory_type.0 < 8,
        ensures
            final(self).root_spec() == old(self).root_spec(),
            final(alloc).page_size_spec() == 4096,
            final(mem)@.len() == old(mem)@.len(),
            final(self).wf(final(mem)@),
            final(alloc).inv(final(mem)@),
            final(self).disjoint_from(final(alloc)),
            final(alloc).num_free_spec() + final(self).num_tables() == old(
                alloc,
            ).num_free_spec() + old(self).num_tables(),
            forall|t: u64|
                old(self).all_tables().contains(t) ==> final(self).all_tables().contains(t),
            r is Ok <==> (phys_addr % GIB == 0 && virt_addr.0 % GIB == 0 && !taken_1g(
                old(mem)@,
                old(self).root_spec(),
                virt_addr.0,
            ) && old(alloc).num_free_spec() >= missing_1g(
                old(mem)@,
                old(self).root_spec(),
                virt_addr.0,
            )),
            r == Err::<(), BootError>(BootError::Misaligned) <==> (phys_addr % GIB != 0
                || virt_addr.0 % GIB != 0),
            r == Err::<(), BootError>(BootError::AlreadyMapped) <==> (phys_addr % GIB == 0
                && virt_addr.0 % GIB == 0 && taken_1g(
                old(mem)@,
                old(self).root_spec(),
                virt_addr.0,
            )),
            r == Err::<(), BootError>(BootError::OutOfFrames) <==> (phys_addr % GIB == 0
                && virt_addr.0 % GIB == 0 && !taken_1g(
                old(mem)@,
                old(self).root_spec(),
                virt_addr.0,
            ) && old(alloc).num_free_spec() < missing_1g(
                old(mem)@,
                old(self).root_spec(),
                virt_addr.0,
            )),
            r is Ok ==> final(alloc).num_free_spec() == old(alloc).num_free_spec() - missing_1g(
                old(mem)@,
                old(self).root_spec(),
                virt_addr.0,
            ),
            r is Ok ==> ({
                let d0 = entry_at(final(mem)@, old(self).root_spec(), l0_idx(virt_addr.0));
                &&& desc_valid(d0)
                &&& desc_is_table(d0)
                &&& entry_at(final(mem)@, next_table_addr(d0), l1_idx(virt_addr.0))
                    == make_block_desc(phys_addr, memory_type.0)
            }),
            r is Ok ==> forall|va2: u64|
                l0_idx(va2) == l0_idx(virt_addr.0) && va2 & VA_BLOCK1G_MASK != virt_addr.0
                    & VA_BLOCK1G_MASK ==> (#[trigger] taken_1g(
                    final(mem)@,
                    old(self).root_spec(),
                    va2,
                ) == taken_1g(old(mem)@, old(self).root_spec(), va2) && missing_1g(
                    final(mem)@,
                    old(self).root_spec(),
                    va2,
                ) == 0),
            r == Err::<(), BootError>(BootError::AlreadyMapped) ==> *final(self) == *old(self)
                && final(mem)@ == old(mem)@ && *final(alloc) == *old(alloc),
            r == Err::<(), BootError>(BootError::Misaligned) ==> *final(self) == *old(self)
                && final(mem)@ == old(mem)@ && *final(alloc) == *old(alloc),
            r is Err ==> forall|va2: u64|
                #[trigger] walk_spec(final(mem)@, old(self).root_spec(), va2) == walk_spec(
                    old(mem)@,
                    old(self).root_spec(),
                    va2,
                ),
            r == Err::<(), BootError>(BootError::OutOfFrames) ==> final(alloc).num_free_spec()
                == 0,
            r is Ok ==> forall|va2: u64|
                #[trigger] walk_spec(final(mem)@, old(self).root_spec(), va2) == (if va2
                    & VA_BLOCK1G_MASK == virt_addr.0 & VA_BLOCK1G_MASK {
                    Some(phys_addr | (va2 & 0x3FFF_FFFF))
                } else {
                    walk_spec(old(mem)@, old(self).root_spec(), va2)
                }),
    {
        let va = virt_addr.0;
        if phys_addr % GIB != 0 || va % GIB != 0 {
            return Err(BootError::Misaligned);
        }
        proof {
            lemma_idx_bounds(va);
        }
        let ghost m0 = mem@;
        let ghost a0 = *alloc;
        let ghost pt0 = *self;
        let t1a = match self.ensure_l1(mem, alloc, va) {
            Ok(t) => t,
            Err(e) => {
                return Err(BootError::OutOfFrames);
            },
        };
        let ghost mmid = mem@;
        let i1 = (va >> 30) & 0x1FF;
        proof {
            assert(self.tables1().contains(t1a));
            let k = choose|k: int| 0 <= k < self.tables1().len() && self.tables1()[k] == t1a;
            assert(table_ok(t1a, mem@));
            lemma_entry_addr_ok(t1a, i1, mem@);
        }
        let d1 = mem.read_word(t1a + 8 * i1);
        if d1 & 1 == 1 {
            proof {
                assert(d1 == entry_at(mmid, t1a, i1));
                lemma_zero_desc_invalid();
                // The level-0 slot must have been valid before, so
                // nothing was installed and the obstacle is original.
                assert(desc_valid(entry_at(m0, pt0.root_spec(), l0_idx(va))));
                assert(taken_1g(m0, pt0.root_spec(), va));
            }
            return Err(BootError::AlreadyMapped);
        }
        let v = phys_addr | ((memory_type.0 as u64) << 2) | 0x401;
        proof {
            lemma_block1g_fields(phys_addr, memory_type.0);
            assert(v == make_block_desc(phys_addr, memory_type.0));
            lemma_write_l1(
                mmid,
                self.root_spec(),
                self.tables1(),
                self.tables2(),
                self.tables3(),
                va,
                v,
            );
            lemma_entry_addr_ok(t1a, i1, mem@);
        }
        mem.write_word(t1a + 8 * i1, v);
        proof {
            assert(mem@ == mmid.update(entry_addr(t1a, l1_idx(va)) as int / 8, v));
            assert(self.all_tables().contains(t1a)) by {
                lemma_frames_facts(
                    self.root_spec(),
                    self.tables1(),
                    self.tables2(),
                    self.tables3(),
                );
            }
            lemma_alloc_inv_write(alloc, mmid, t1a, l1_idx(va), v);
            assert(!taken_1g(m0, pt0.root_spec(), va));
            assert forall|va2: u64|
                #[trigger] walk_spec(mem@, pt0.root_spec(), va2) == (if va2 & VA_BLOCK1G_MASK
                    == va & VA_BLOCK1G_MASK {
                    Some(phys_addr | (va2 & 0x3FFF_FFFF))
                } else {
                    walk_spec(m0, pt0.root_spec(), va2)
                }) by {
                lemma_group_1g(va, va2);
            }
            // The shared level-0 slot and the sibling level-1 slots.
            lemma_frames_distinct(self.root_spec(), self.tables1(), self.tables2(),
                self.tables3());
            assert(self.all_tables()[0] == self.root_spec());
            assert(self.all_tables().contains(self.root_spec()));
            assert(t1a != self.root_spec()) by {
                let k = choose|k: int|
                    0 <= k < self.tables1().len() && self.tables1()[k] == t1a;
            }
            assert(entry_at(mem@, pt0.root_spec(), l0_idx(va)) == entry_at(
                mmid,
                pt0.root_spec(),
                l0_idx(va),
            ));
            assert(entry_at(mem@, t1a, l1_idx(va)) == v);
            lemma_block1g_fields(phys_addr, memory_type.0);
            assert forall|va2: u64|
                l0_idx(va2) == l0_idx(va) && va2 & VA_BLOCK1G_MASK != va
                    & VA_BLOCK1G_MASK implies (#[trigger] taken_1g(mem@, pt0.root_spec(), va2)
                == taken_1g(m0, pt0.root_spec(), va2) && missing_1g(mem@, pt0.root_spec(), va2)
                == 0) by {
                lemma_idx_bounds(va2);
                lemma_group_1g(va, va2);
                assert(l1_idx(va2) != l1_idx(va));
                assert(entry_at(mem@, pt0.root_spec(), l0_idx(va2)) == entry_at(
                    mmid,
                    pt0.root_spec(),
                    l0_idx(va2),
                ));
                assert(entry_at(mem@, t1a, l1_idx(va2)) == entry_at(mmid, t1a, l1_idx(va2)));
                if desc_valid(entry_at(m0, pt0.root_spec(), l0_idx(va))) {
                    assert(mmid == m0);
                } else {
                    assert(entry_at(mmid, t1a, l1_idx(va2)) == 0);
                    lemma_zero_desc_invalid();
                    assert(!taken_1g(m0, pt0.root_spec(), va2));
                }
            }
        }
        Ok(())
    }

    /// Ensures a level-2 table hangs under `va`'s level-1 slot in the
    /// resolved level-1 table `t1a`, allocating and installing one if
    /// the slot is invalid; a block in the way is reported.  No walk
    /// changes either way.
    #[verifier::rlimit(100)]
    fn ensure_l2(
        &mut self,
        mem: &mut PhysMem,
        alloc: &mut PageFrameAllocator,
        va: u64,
        t1a: u64,
    ) -> (r: Result<u64, BootError>)
        requires
            old(self).wf(old(mem)@),
            old(alloc).inv(old(mem)@),
            old(alloc).page_size_spec() == 4096,
            old(self).disjoint_from(old(alloc)),
            desc_valid(entry_at(old(mem)@, old(self).root_spec(), l0_idx(va))),
            next_table_addr(entry_at(old(mem)@, old(self).root_spec(), l0_idx(va))) == t1a,
        ensures
            final(self).root_spec() == old(self).root_spec(),
            final(alloc).page_size_spec() == 4096,
            final(mem)@.len() == old(mem)@.len(),
            final(self).wf(final(mem)@),
            final(alloc).inv(final(mem)@),
            final(self).disjoint_from(final(alloc)),
            final(alloc).num_free_spec() + final(self).num_tables() == old(
                alloc,
            ).num_free_spec() + old(self).num_tables(),
            forall|t: u64|
                old(self).all_tables().contains(t) ==> final(self).all_tables().contains(t),
            forall|va2: u64|
                #[trigger] walk_spec(final(mem)@, old(self).root_spec(), va2) == walk_spec(
                    old(mem)@,
                    old(self).root_spec(),
                    va2,
                ),
            entry_at(final(mem)@, old(self).root_spec(), l0_idx(va)) == entry_at(
                old(mem)@,
                old(self).root_spec(),
                l0_idx(va),
            ),
            r is Ok <==> ({
                let d1 = entry_at(old(mem)@, t1a, l1_idx(va));
                (desc_valid(d1) && desc_is_table(d1)) || (!desc_valid(d1) && old(
                    alloc,
                ).num_free_spec() > 0)
            }),
            r == Err::<u64, BootError>(BootError::AlreadyMapped) <==> ({
                let d1 = entry_at(old(mem)@, t1a, l1_idx(va));
                desc_valid(d1) && !desc_is_table(d1)
            }),
            r is Err ==> *final(self) == *old(self) && final(mem)@ == old(mem)@ && *final(alloc)
                == *old(alloc),
            r == Err::<u64, BootError>(BootError::OutOfFrames) ==> old(alloc).num_free_spec()
                == 0,
            r is Ok ==> ({
                let t2a = r->Ok_0;
                &&& desc_valid(entry_at(final(mem)@, t1a, l1_idx(va)))
                &&& desc_is_table(entry_at(final(mem)@, t1a, l1_idx(va)))
                &&& next_table_addr(entry_at(final(mem)@, t1a, l1_idx(va))) == t2a
                &&& final(self).tables2().contains(t2a)
                &&& final(self).tables1() == old(self).tables1()
                &&& final(self).tables3() == old(self).tables3()
                &&& (desc_valid(entry_at(old(mem)@, t1a, l1_idx(va))) ==> *final(self) == *old(
                    self,
                ) && final(mem)@ == old(mem)@ && *final(alloc) == *old(alloc))
                &&& (!desc_valid(entry_at(old(mem)@, t1a, l1_idx(va))) ==> (forall|i: u64|
                    i < 512 ==> #[trigger] entry_at(final(mem)@, t2a, i) == 0) && !old(
                    self,
                ).all_tables().contains(t2a) && final(alloc).num_free_spec() == old(
                    alloc,
                ).num_free_spec() - 1)
                &&& forall|t: u64, i2: u64|
                    old(self).all_tables().contains(t) && i2 < 512 && !(t == t1a && i2 == l1_idx(
                        va,
                    )) ==> #[trigger] entry_at(final(mem)@, t, i2) == entry_at(old(mem)@, t, i2)
            }),
    {
        proof {
            lemma_idx_bounds(va);
            reveal(children_l0);
            assert(self.tables1().contains(t1a));
            lemma_frames_facts(self.root_spec(), self.tables1(), self.tables2(),
                self.tables3());
            assert(self.all_tables().contains(t1a));
        }
        let ghost m0 = mem@;
        let ghost a0 = *alloc;
        let ghost pt0 = *self;
        let i1 = (va >> 30) & 0x1FF;
        proof {
            let k = choose|k: int| 0 <= k < self.tables1().len() && self.tables1()[k] == t1a;
            assert(table_ok(t1a, mem@));
            lemma_entry_addr_ok(t1a, i1, mem@);
        }
        let d1 = mem.read_word(t1a + 8 * i1);
        if d1 & 1 == 1 {
            if d1 & 2 != 2 {
                return Err(BootError::AlreadyMapped);
            }
            proof {
                reveal(children_l1);
                assert(d1 == entry_at(mem@, t1a, i1));
                let k = choose|k: int|
                    0 <= k < self.tables1().len() && self.tables1()[k] == t1a;
                assert(self.tables2().contains(next_table_addr(d1)));
            }
            return Ok(((d1 >> 12) & 0xF_FFFF_FFFF) << 12);
        }
        let f = match alloc.alloc_frame(mem) {
            Ok(f) => f,
            Err(_) => {
                return Err(BootError::OutOfFrames);
            },
        };
        proof {
            assert(a0.free_seq().contains(f)) by {
                assert(a0.free_seq()[0] == f);
            }
            if pt0.all_tables().contains(f) {
                let k = choose|k: int|
                    0 <= k < pt0.all_tables().len() && pt0.all_tables()[k] == f;
                assert(false);
            }
            lemma_after_alloc(
                m0,
                mem@,
                pt0.root_spec(),
                pt0.tables1(),
                pt0.tables2(),
                pt0.tables3(),
                f,
            );
        }
        let ghost m1 = mem@;
        proof {
            assert(pt0.all_tables().contains(t1a));
            assert(entry_at(m1, t1a, i1) == entry_at(m0, t1a, i1));
            assert(pt0.all_tables().contains(pt0.root_spec()));
            assert(entry_at(m1, pt0.root_spec(), l0_idx(va)) == entry_at(
                m0,
                pt0.root_spec(),
                l0_idx(va),
            ));
            lemma_entry_addr_ok(t1a, i1, mem@);
        }
        let v0 = f | 3;
        mem.write_word(t1a + 8 * i1, v0);
        self.t2.push(f);
        proof {
            lemma_table_desc_fields(f);
            assert(v0 == make_table_desc(f));
            lemma_install_l1(
                m1,
                pt0.root_spec(),
                pt0.tables1(),
                pt0.tables2(),
                pt0.tables3(),
                va,
                f,
            );
            assert(!alloc.free_seq().contains(t1a)) by {
                if alloc.free_seq().contains(t1a) {
                    let k = choose|k: int|
                        0 <= k < alloc.free_seq().len() && alloc.free_seq()[k] == t1a;
                    assert(a0.free_seq()[k + 1] == t1a);
                    assert(a0.free_seq().contains(t1a));
                    assert(false);
                }
            }
            lemma_alloc_inv_write(alloc, m1, t1a, l1_idx(va), make_table_desc(f));
            assert forall|i: u64| i < 512 implies #[trigger] entry_at(mem@, f, i) == 0 by {
                lemma_entry_at_update(m1, t1a, l1_idx(va), make_table_desc(f), f, i);
            }
            assert(self.tables2() == pt0.tables2().push(f));
            assert(self.tables2()[pt0.tables2().len() as int] == f);
            assert(self.tables2().contains(f));
            assert(mem@ == m1.update(entry_addr(t1a, l1_idx(va)) as int / 8, make_table_desc(f)));
            lemma_frames_facts(self.root_spec(), self.tables1(), self.tables2(),
                self.tables3());
            assert forall|t: u64|
                #[trigger] self.all_tables().contains(t) implies !alloc.free_seq().contains(
                t,
            ) by {
                if alloc.free_seq().contains(t) {
                    let k = choose|k: int|
                        0 <= k < alloc.free_seq().len() && alloc.free_seq()[k] == t;
                    assert(a0.free_seq()[k + 1] == t);
                    assert(a0.free_seq().contains(t));
                    assert(t == f || pt0.all_tables().contains(t));
                    if t == f {
                        assert(a0.free_seq()[0] == f);
                        assert(false);
                    }
                }
            }
            // The level-0 slot is in the root, not in `t1a`.
            assert(pt0.root_spec() != t1a);
            lemma_member_table_ok(
                m1,
                pt0.root_spec(),
                pt0.tables1(),
                pt0.tables2(),
                pt0.tables3(),
                pt0.root_spec(),
            );
            lemma_entry_at_update(
                m1,
                t1a,
                l1_idx(va),
                make_table_desc(f),
                pt0.root_spec(),
                l0_idx(va),
            );
            assert forall|t: u64, i2: u64|
                pt0.all_tables().contains(t) && i2 < 512 && !(t == t1a && i2 == l1_idx(
                    va,
                )) implies #[trigger] entry_at(mem@, t, i2) == entry_at(m0, t, i2) by {
                assert(self.all_tables().contains(t));
                assert(entry_at(m1, t, i2) == entry_at(m0, t, i2));
            }
        }
        Ok(f)
    }

    /// Maps a single 2 MiB huge page of physical memory starting at
    /// `phys_addr` to `virt_addr`, allocating intermediate tables as
    /// needed.
    ///
    /// Succeeds exactly when both addresses are 2 MiB aligned, no
    /// larger block bars the way, the target slot holds no valid
    /// descriptor, and the allocator can supply the missing tables;
    /// afterwards every address of the block's 2 MiB group translates
    /// to the block with its offset, and no other translation changes.
    #[verifier::rlimit(100)]
    pub fn map_2mib_page(
        &mut self,
        mem: &mut PhysMem,
        alloc: &mut PageFrameAllocator,
        phys_addr: u64,
        virt_addr: VirtualAddr,
        memory_type: MemoryType,
    ) -> (r: Result<(), BootError>)
        requires
            old(self).wf(old(mem)@),
            old(alloc).inv(old(mem)@),
            old(alloc).page_size_spec() == 4096,
            old(self).disjoint_from(old(alloc)),
            phys_addr < 0x1_0000_0000_0000,
            memory_type.0 < 8,
        ensures
            final(self).root_spec() == old(self).root_spec(),
            final(alloc).page_size_spec() == 4096,
            final(mem)@.len() == old(mem)@.len(),
            final(self).wf(final(mem)@),
            final(alloc).inv(final(mem)@),
            final(self).disjoint_from(final(alloc)),
            final(alloc).num_free_spec() + final(self).num_tables() == old(
                alloc,
            ).num_free_spec() + old(self).num_tables(),
            forall|t: u64|
                old(self).all_tables().contains(t) ==> final(self).all_tables().contains(t),
            r is Ok <==> (phys_addr % 0x20_0000u64 == 0 && virt_addr.0 % 0x20_0000u64 == 0
                && !obstacle_2m(old(mem)@, old(self).root_spec(), virt_addr.0) && old(
                alloc,
            ).num_free_spec() >= missing_2m(old(mem)@, old(self).root_spec(), virt_addr.0)),
            r == Err::<(), BootError>(BootError::Misaligned) <==> (phys_addr % 0x20_0000u64 != 0
                || virt_addr.0 % 0x20_0000u64 != 0),
            r == Err::<(), BootError>(BootError::AlreadyMapped) <==> (phys_addr % 0x20_0000u64
                == 0 && virt_addr.0 % 0x20_0000u64 == 0 && obstacle_2m(
                old(mem)@,
                old(self).root_spec(),
                virt_addr.0,
            )),
            r == Err::<(), BootError>(BootError::OutOfFrames) <==> (phys_addr % 0x20_0000u64
                == 0 && virt_addr.0 % 0x20_0000u64 == 0 && !obstacle_2m(
                old(mem)@,
                old(self).root_spec(),
                virt_addr.0,
            ) && old(alloc).num_free_spec() < missing_2m(
                old(mem)@,
                old(self).root_spec(),
                virt_addr.0,
            )),
            r is Ok ==> final(alloc).num_free_spec() == old(alloc).num_free_spec() - missing_2m(
                old(mem)@,
                old(self).root_spec(),
                virt_addr.0,
            ),
            r is Ok ==> ({
                let d0 = entry_at(final(mem)@, old(self).root_spec(), l0_idx(virt_addr.0));
                let d1 = entry_at(final(mem)@, next_table_addr(d0), l1_idx(virt_addr.0));
                &&& desc_valid(d0)
                &&& desc_is_table(d0)
                &&& desc_valid(d1)
                &&& desc_is_table(d1)
                &&& entry_at(final(mem)@, next_table_addr(d1), l2_idx(virt_addr.0))
                    == make_block_desc(phys_addr, memory_type.0)
            }),
            r is Ok ==> forall|va2: u64|
                va2 & VA_BLOCK1G_MASK == virt_addr.0 & VA_BLOCK1G_MASK && va2 & VA_BLOCK2M_MASK
                    != virt_addr.0 & VA_BLOCK2M_MASK ==> (#[trigger] obstacle_2m(
                    final(mem)@,
                    old(self).root_spec(),
                    va2,
                ) == obstacle_2m(old(mem)@, old(self).root_spec(), va2) && missing_2m(
                    final(mem)@,
                    old(self).root_spec(),
                    va2,
                ) == 0),
            r == Err::<(), BootError>(BootError::AlreadyMapped) ==> *final(self) == *old(self)
                && final(mem)@ == old(mem)@ && *final(alloc) == *old(alloc),
            r == Err::<(), BootError>(BootError::Misaligned) ==> *final(self) == *old(self)
                && final(mem)@ == old(mem)@ && *final(alloc) == *old(alloc),
            r is Err ==> forall|va2: u64|
                #[trigger] walk_spec(final(mem)@, old(self).root_spec(), va2) == walk_spec(
                    old(mem)@,
                    old(self).root_spec(),
                    va2,
                ),
            r is Ok ==> forall|va2: u64|
                #[trigger] walk_spec(final(mem)@, old(self).root_spec(), va2) == (if va2
                    & VA_BLOCK2M_MASK == virt_addr.0 & VA_BLOCK2M_MASK {
                    Some(phys_addr | (va2 & 0x1F_FFFF))
                } else {
                    walk_spec(old(mem)@, old(self).root_spec(), va2)
                }),
    {
        let va = virt_addr.0;
        if phys_addr % 0x20_0000u64 != 0 || va % 0x20_0000u64 != 0 {
            return Err(BootError::Misaligned);
        }
        proof {
            lemma_idx_bounds(va);
        }
        let ghost m0 = mem@;
        let ghost a0 = *alloc;
        let ghost pt0 = *self;
        let t1a = match self.ensure_l1(mem, alloc, va) {
            Ok(t) => t,
            Err(_) => {
                return Err(BootError::OutOfFrames);
            },
        };
        let ghost mmid = mem@;
        let ghost amid = *alloc;
        proof {
            // A fresh level-1 table is all-invalid, so a valid slot
            // can only come from the unchanged path.
            lemma_zero_desc_invalid();
        }
        let t2a = match self.ensure_l2(mem, alloc, va, t1a) {
            Ok(t) => t,
            Err(e) => {
                match e {
                    BootError::AlreadyMapped => {
                        proof {
                            assert(desc_valid(entry_at(m0, pt0.root_spec(), l0_idx(va))));
                            assert(mmid == m0);
                            assert(obstacle_2m(m0, pt0.root_spec(), va));
                        }
                        return Err(BootError::AlreadyMapped);
                    },
                    _ => {
                        proof {
                            if desc_valid(entry_at(m0, pt0.root_spec(), l0_idx(va))) {
                                assert(mmid == m0);
                                assert(!obstacle_2m(m0, pt0.root_spec(), va));
                            } else {
                                assert(missing_2m(m0, pt0.root_spec(), va) == 2);
                                assert(!obstacle_2m(m0, pt0.root_spec(), va));
                            }
                        }
                        return Err(BootError::OutOfFrames);
                    },
                }
            },
        };
        let ghost mmid2 = mem@;
        let i2 = (va >> 21) & 0x1FF;
        proof {
            assert(self.tables2().contains(t2a));
            let k = choose|k: int| 0 <= k < self.tables2().len() && self.tables2()[k] == t2a;
            assert(table_ok(t2a, mem@));
            lemma_entry_addr_ok(t2a, i2, mem@);
        }
        let d2 = mem.read_word(t2a + 8 * i2);
        if d2 & 1 == 1 {
            proof {
                assert(d2 == entry_at(mmid2, t2a, i2));
                // A fresh level-2 table is all-invalid, so both steps
                // took the unchanged path and the obstacle is original.
                assert(desc_valid(entry_at(mmid, t1a, l1_idx(va))));
                assert(mmid2 == mmid);
                assert(desc_valid(entry_at(m0, pt0.root_spec(), l0_idx(va))));
                assert(mmid == m0);
                assert(obstacle_2m(m0, pt0.root_spec(), va));
            }
            return Err(BootError::AlreadyMapped);
        }
        let v = phys_addr | ((memory_type.0 as u64) << 2) | 0x401;
        proof {
            lemma_block2m_fields(phys_addr, memory_type.0);
            assert(v == make_block_desc(phys_addr, memory_type.0));
            lemma_write_l2(
                mmid2,
                self.root_spec(),
                self.tables1(),
                self.tables2(),
                self.tables3(),
                va,
                v,
            );
            lemma_entry_addr_ok(t2a, i2, mem@);
        }
        mem.write_word(t2a + 8 * i2, v);
        proof {
            assert(mem@ == mmid2.update(entry_addr(t2a, l2_idx(va)) as int / 8, v));
            assert(self.all_tables().contains(t2a)) by {
                lemma_frames_facts(
                    self.root_spec(),
                    self.tables1(),
                    self.tables2(),
                    self.tables3(),
                );
            }
            lemma_alloc_inv_write(alloc, mmid2, t2a, l2_idx(va), v);
            if desc_valid(entry_at(m0, pt0.root_spec(), l0_idx(va))) {
                assert(mmid == m0);
                if desc_valid(entry_at(mmid, t1a, l1_idx(va))) {
                    assert(mmid2 == mmid);
                }
            }
            assert(!obstacle_2m(m0, pt0.root_spec(), va));
            assert forall|va2: u64|
                #[trigger] walk_spec(mem@, pt0.root_spec(), va2) == (if va2 & VA_BLOCK2M_MASK
                    == va & VA_BLOCK2M_MASK {
                    Some(phys_addr | (va2 & 0x1F_FFFF))
                } else {
                    walk_spec(m0, pt0.root_spec(), va2)
                }) by {
                lemma_group_2m(va, va2);
            }
            // The shared path down to level 2, and the sibling slots.
            lemma_frames_distinct(self.root_spec(), self.tables1(), self.tables2(),
                self.tables3());
            assert(self.all_tables()[0] == self.root_spec());
            assert(self.all_tables().contains(self.root_spec()));
            assert(self.tables1().contains(t1a));
            assert(self.all_tables().contains(t1a)) by {
                lemma_frames_facts(
                    self.root_spec(),
                    self.tables1(),
                    self.tables2(),
                    self.tables3(),
                );
            }
            assert(t2a != self.root_spec() && t1a != t2a) by {
                let k1 = choose|k: int|
                    0 <= k < self.tables1().len() && self.tables1()[k] == t1a;
                let k2 = choose|k: int|
                    0 <= k < self.tables2().len() && self.tables2()[k] == t2a;
            }
            assert(entry_at(mem@, pt0.root_spec(), l0_idx(va)) == entry_at(
                mmid2,
                pt0.root_spec(),
                l0_idx(va),
            ));
            assert(entry_at(mem@, t1a, l1_idx(va)) == entry_at(mmid2, t1a, l1_idx(va)));
            assert(entry_at(mem@, t2a, l2_idx(va)) == v);
            lemma_block2m_fields(phys_addr, memory_type.0);
            assert forall|va2: u64|
                va2 & VA_BLOCK1G_MASK == va & VA_BLOCK1G_MASK && va2 & VA_BLOCK2M_MASK != va
                    & VA_BLOCK2M_MASK implies (#[trigger] obstacle_2m(
                mem@,
                pt0.root_spec(),
                va2,
            ) == obstacle_2m(m0, pt0.root_spec(), va2) && missing_2m(mem@, pt0.root_spec(), va2)
                == 0) by {
                lemma_idx_bounds(va2);
                lemma_group_1g(va, va2);
                lemma_group_2m(va, va2);
                assert(l0_idx(va2) == l0_idx(va) && l1_idx(va2) == l1_idx(va) && l2_idx(va2)
                    != l2_idx(va));
                assert(entry_at(mem@, pt0.root_spec(), l0_idx(va2)) == entry_at(
                    mmid2,
                    pt0.root_spec(),
                    l0_idx(va2),
                ));
                assert(entry_at(mem@, t1a, l1_idx(va2)) == entry_at(mmid2, t1a, l1_idx(va2)));
                assert(entry_at(mem@, t2a, l2_idx(va2)) == entry_at(mmid2, t2a, l2_idx(va2)));
                if desc_valid(entry_at(m0, pt0.root_spec(), l0_idx(va))) {
                    assert(mmid == m0);
                    if desc_valid(entry_at(mmid, t1a, l1_idx(va))) {
                        assert(mmid2 == mmid);
                    } else {
                        assert(entry_at(mmid2, t2a, l2_idx(va2)) == 0);
                        lemma_zero_desc_invalid();
                        assert(!obstacle_2m(m0, pt0.root_spec(), va2));
                    }
                } else {
                    assert(entry_at(mmid2, t2a, l2_idx(va2)) == 0);
                    lemma_zero_desc_invalid();
                    assert(!obstacle_2m(m0, pt0.root_spec(), va2));
                }
            }
        }
        Ok(())
    }

    /// Ensures a level-3 table hangs under `va`'s level-2 slot in the
    /// resolved level-2 table `t2a`, allocating and installing one if
    /// the slot is invalid; a block in the way is reported.  No walk
    /// changes either way.
    #[verifier::rlimit(100)]
    fn ensure_l3(
        &mut self,
        mem: &mut PhysMem,
        alloc: &mut PageFrameAllocator,
        va: u64,
        t1a: u64,
        t2a: u64,
    ) -> (r: Result<u64, BootError>)
        requires
            old(self).wf(old(mem)@),
            old(alloc).inv(old(mem)@),
            old(alloc).page_size_spec() == 4096,
            old(self).disjoint_from(old(alloc)),
            desc_valid(entry_at(old(mem)@, old(self).root_spec(), l0_idx(va))),
            next_table_addr(entry_at(old(mem)@, old(self).root_spec(), l0_idx(va))) == t1a,
            desc_valid(entry_at(old(mem)@, t1a, l1_idx(va))),
            desc_is_table(entry_at(old(mem)@, t1a, l1_idx(va))),
            next_table_addr(entry_at(old(mem)@, t1a, l1_idx(va))) == t2a,
        ensures
            final(self).root_spec() == old(self).root_spec(),
            final(alloc).page_size_spec() == 4096,
            final(mem)@.len() == old(mem)@.len(),
            final(self).wf(final(mem)@),
            final(alloc).inv(final(mem)@),
            final(self).disjoint_from(final(alloc)),
            final(alloc).num_free_spec() + final(self).num_tables() == old(
                alloc,
            ).num_free_spec() + old(self).num_tables(),
            forall|t: u64|
                old(self).all_tables().contains(t) ==> final(self).all_tables().contains(t),
            forall|va2: u64|
                #[trigger] walk_spec(final(mem)@, old(self).root_spec(), va2) == walk_spec(
                    old(mem)@,
                    old(self).root_spec(),
                    va2,
                ),
            entry_at(final(mem)@, old(self).root_spec(), l0_idx(va)) == entry_at(
                old(mem)@,
                old(self).root_spec(),
                l0_idx(va),
            ),
            entry_at(final(mem)@, t1a, l1_idx(va)) == entry_at(old(mem)@, t1a, l1_idx(va)),
            r is Ok <==> ({
                let d2 = entry_at(old(mem)@, t2a, l2_idx(va));
                (desc_valid(d2) && desc_is_table(d2)) || (!desc_valid(d2) && old(
                    alloc,
                ).num_free_spec() > 0)
            }),
            r == Err::<u64, BootError>(BootError::AlreadyMapped) <==> ({
                let d2 = entry_at(old(mem)@, t2a, l2_idx(va));
                desc_valid(d2) && !desc_is_table(d2)
            }),
            r is Err ==> *final(self) == *old(self) && final(mem)@ == old(mem)@ && *final(alloc)
                == *old(alloc),
            r == Err::<u64, BootError>(BootError::OutOfFrames) ==> old(alloc).num_free_spec()
                == 0,
            r is Ok ==> ({
                let t3a = r->Ok_0;
                &&& desc_valid(entry_at(final(mem)@, t2a, l2_idx(va)))
                &&& desc_is_table(entry_at(final(mem)@, t2a, l2_idx(va)))
                &&& next_table_addr(entry_at(final(mem)@, t2a, l2_idx(va))) == t3a
                &&& final(self).tables3().contains(t3a)
                &&& final(self).tables1() == old(self).tables1()
                &&& final(self).tables2() == old(self).tables2()
                &&& (desc_valid(entry_at(old(mem)@, t2a, l2_idx(va))) ==> *final(self) == *old(
                    self,
                ) && final(mem)@ == old(mem)@ && *final(alloc) == *old(alloc))
                &&& (!desc_valid(entry_at(old(mem)@, t2a, l2_idx(va))) ==> (forall|i: u64|
                    i < 512 ==> #[trigger] entry_at(final(mem)@, t3a, i) == 0) && !old(
                    self,
                ).all_tables().contains(t3a) && final(alloc).num_free_spec() == old(
                    alloc,
                ).num_free_spec() - 1)
                &&& forall|t: u64, i2: u64|
                    old(self).all_tables().contains(t) && i2 < 512 && !(t == t2a && i2 == l2_idx(
                        va,
                    )) ==> #[trigger] entry_at(final(mem)@, t, i2) == entry_at(old(mem)@, t, i2)
            }),
    {
        proof {
            lemma_idx_bounds(va);
            reveal(children_l0);
            reveal(children_l1);
            assert(self.tables1().contains(t1a));
            let k1 = choose|k: int| 0 <= k < self.tables1().len() && self.tables1()[k] == t1a;
            assert(self.tables2().contains(t2a));
            lemma_frames_facts(self.root_spec(), self.tables1(), self.tables2(),
                self.tables3());
            assert(self.all_tables().contains(t2a));
        }
        let ghost m0 = mem@;
        let ghost a0 = *alloc;
        let ghost pt0 = *self;
        let i2 = (va >> 21) & 0x1FF;
        proof {
            let k = choose|k: int| 0 <= k < self.tables2().len() && self.tables2()[k] == t2a;
            assert(table_ok(t2a, mem@));
            lemma_entry_addr_ok(t2a, i2, mem@);
        }
        let d2 = mem.read_word(t2a + 8 * i2);
        if d2 & 1 == 1 {
            if d2 & 2 != 2 {
                return Err(BootError::AlreadyMapped);
            }
            proof {
                reveal(children_l2);
                assert(d2 == entry_at(mem@, t2a, i2));
                let k = choose|k: int|
                    0 <= k < self.tables2().len() && self.tables2()[k] == t2a;
                assert(self.tables3().contains(next_table_addr(d2)));
            }
            return Ok(((d2 >> 12) & 0xF_FFFF_FFFF) << 12);
        }
        let f = match alloc.alloc_frame(mem) {
            Ok(f) => f,
            Err(_) => {
                return Err(BootError::OutOfFrames);
            },
        };
        proof {
            assert(a0.free_seq().contains(f)) by {
                assert(a0.free_seq()[0] == f);
            }
            if pt0.all_tables().contains(f) {
                let k = choose|k: int|
                    0 <= k < pt0.all_tables().len() && pt0.all_tables()[k] == f;
                assert(false);
            }
            lemma_after_alloc(
                m0,
                mem@,
                pt0.root_spec(),
                pt0.tables1(),
                pt0.tables2(),
                pt0.tables3(),
                f,
            );
        }
        let ghost m1 = mem@;
        proof {
            assert(pt0.all_tables().contains(t2a));
            assert(entry_at(m1, t2a, i2) == entry_at(m0, t2a, i2));
            assert(pt0.all_tables().contains(pt0.root_spec()));
            assert(entry_at(m1, pt0.root_spec(), l0_idx(va)) == entry_at(
                m0,
                pt0.root_spec(),
                l0_idx(va),
            ));
            assert(pt0.all_tables().contains(t1a));
            assert(entry_at(m1, t1a, l1_idx(va)) == entry_at(m0, t1a, l1_idx(va)));
            lemma_entry_addr_ok(t2a, i2, mem@);
        }
        let v0 = f | 3;
        mem.write_word(t2a + 8 * i2, v0);
        self.t3.push(f);
        proof {
            lemma_table_desc_fields(f);
            assert(v0 == make_table_desc(f));
            lemma_install_l2(
                m1,
                pt0.root_spec(),
                pt0.tables1(),
                pt0.tables2(),
                pt0.tables3(),
                va,
                f,
            );
            assert(!alloc.free_seq().contains(t2a)) by {
                if alloc.free_seq().contains(t2a) {
                    let k = choose|k: int|
                        0 <= k < alloc.free_seq().len() && alloc.free_seq()[k] == t2a;
                    assert(a0.free_seq()[k + 1] == t2a);
                    assert(a0.free_seq().contains(t2a));
                    assert(false);
                }
            }
            lemma_alloc_inv_write(alloc, m1, t2a, l2_idx(va), make_table_desc(f));
            assert forall|i: u64| i < 512 implies #[trigger] entry_at(mem@, f, i) == 0 by {
                lemma_entry_at_update(m1, t2a, l2_idx(va), make_table_desc(f), f, i);
            }
            assert(self.tables3() == pt0.tables3().push(f));
            assert(self.tables3()[pt0.tables3().len() as int] == f);
            assert(self.tables3().contains(f));
            assert(mem@ == m1.update(entry_addr(t2a, l2_idx(va)) as int / 8, make_table_desc(f)));
            lemma_frames_facts(self.root_spec(), self.tables1(), self.tables2(),
                self.tables3());
            assert forall|t: u64|
                #[trigger] self.all_tables().contains(t) implies !alloc.free_seq().contains(
                t,
            ) by {
                if alloc.free_seq().contains(t) {
                    let k = choose|k: int|
                        0 <= k < alloc.free_seq().len() && alloc.free_seq()[k] == t;
                    assert(a0.free_seq()[k + 1] == t);
                    assert(a0.free_seq().contains(t));
                    assert(t == f || pt0.all_tables().contains(t));
                    if t == f {
                        assert(a0.free_seq()[0] == f);
                        assert(false);
                    }
                }
            }
            assert(pt0.root_spec() != t2a && t1a != t2a);
            lemma_member_table_ok(
                m1,
                pt0.root_spec(),
                pt0.tables1(),
                pt0.tables2(),
                pt0.tables3(),
                pt0.root_spec(),
            );
            lemma_member_table_ok(
                m1,
                pt0.root_spec(),
                pt0.tables1(),
                pt0.tables2(),
                pt0.tables3(),
                t1a,
            );
            lemma_entry_at_update(
                m1,
                t2a,
                l2_idx(va),
                make_table_desc(f),
                pt0.root_spec(),
                l0_idx(va),
            );
            lemma_entry_at_update(m1, t2a, l2_idx(va), make_table_desc(f), t1a, l1_idx(va));
            assert forall|t: u64, i2: u64|
                pt0.all_tables().contains(t) && i2 < 512 && !(t == t2a && i2 == l2_idx(
                    va,
                )) implies #[trigger] entry_at(mem@, t, i2) == entry_at(m0, t, i2) by {
                assert(self.all_tables().contains(t));
                assert(entry_at(m1, t, i2) == entry_at(m0, t, i2));
            }
        }
        Ok(f)
    }

    /// Maps a single 4 KiB page of physical memory starting at
    /// `phys_addr` to `virt_addr`, allocating intermediate tables as
    /// needed.
    ///
    /// Succeeds exactly when both addresses are page aligned, no block
    /// bars the way, the target slot holds no valid descriptor, and
    /// the allocator can supply the missing tables; afterwards every
    /// address of the page's 4 KiB group translates to the page with
    /// its offset, and no other translation changes.
    #[verifier::rlimit(100)]
    pub fn map_page(
        &mut self,
        mem: &mut PhysMem,
        alloc: &mut PageFrameAllocator,
        phys_addr: u64,
        virt_addr: VirtualAddr,
        mem_type: MemoryType,
    ) -> (r: Result<(), BootError>)
        requires
            old(self).wf(old(mem)@),
            old(alloc).inv(old(mem)@),
            old(alloc).page_size_spec() == 4096,
            old(self).disjoint_from(old(alloc)),
            phys_addr < 0x1_0000_0000_0000,
            mem_type.0 < 8,
        ensures
            final(self).root_spec() == old(self).root_spec(),
            final(alloc).page_size_spec() == 4096,
            final(mem)@.len() == old(mem)@.len(),
            final(self).wf(final(mem)@),
            final(alloc).inv(final(mem)@),
            final(self).disjoint_from(final(alloc)),
            final(alloc).num_free_spec() + final(self).num_tables() == old(
                alloc,
            ).num_free_spec() + old(self).num_tables(),
            forall|t: u64|
                old(self).all_tables().contains(t) ==> final(self).all_tables().contains(t),
            r is Ok <==> (phys_addr % 0x1000u64 == 0 && virt_addr.0 % 0x1000u64 == 0
                && !obstacle_4k(old(mem)@, old(self).root_spec(), virt_addr.0) && old(
                alloc,
            ).num_free_spec() >= missing_4k(old(mem)@, old(self).root_spec(), virt_addr.0)),
            r == Err::<(), BootError>(BootError::Misaligned) <==> (phys_addr % 0x1000u64 != 0
                || virt_addr.0 % 0x1000u64 != 0),
            r == Err::<(), BootError>(BootError::AlreadyMapped) <==> (phys_addr % 0x1000u64 == 0
                && virt_addr.0 % 0x1000u64 == 0 && obstacle_4k(
                old(mem)@,
                old(self).root_spec(),
                virt_addr.0,
            )),
            r == Err::<(), BootError>(BootError::OutOfFrames) <==> (phys_addr % 0x1000u64 == 0
                && virt_addr.0 % 0x1000u64 == 0 && !obstacle_4k(
                old(mem)@,
                old(self).root_spec(),
                virt_addr.0,
            ) && old(alloc).num_free_spec() < missing_4k(
                old(mem)@,
                old(self).root_spec(),
                virt_addr.0,
            )),
            r is Ok ==> final(alloc).num_free_spec() == old(alloc).num_free_spec() - missing_4k(
                old(mem)@,
                old(self).root_spec(),
                virt_addr.0,
            ),
            r is Ok ==> ({
                let d0 = entry_at(final(mem)@, old(self).root_spec(), l0_idx(virt_addr.0));
                let d1 = entry_at(final(mem)@, next_table_addr(d0), l1_idx(virt_addr.0));
                let d2 = entry_at(final(mem)@, next_table_addr(d1), l2_idx(virt_addr.0));
                &&& desc_valid(d0)
                &&& desc_is_table(d0)
                &&& desc_valid(d1)
                &&& desc_is_table(d1)
                &&& desc_valid(d2)
                &&& desc_is_table(d2)
                &&& entry_at(final(mem)@, next_table_addr(d2), l3_idx(virt_addr.0))
                    == make_page_desc(phys_addr, mem_type.0)
            }),
            r is Ok ==> forall|va2: u64|
                va2 & VA_BLOCK2M_MASK == virt_addr.0 & VA_BLOCK2M_MASK && va2 & VA_PAGE_MASK
                    != virt_addr.0 & VA_PAGE_MASK ==> (#[trigger] obstacle_4k(
                    final(mem)@,
                    old(self).root_spec(),
                    va2,
                ) == obstacle_4k(old(mem)@, old(self).root_spec(), va2) && missing_4k(
                    final(mem)@,
                    old(self).root_spec(),
                    va2,
                ) == 0),
            r == Err::<(), BootError>(BootError::AlreadyMapped) ==> *final(self) == *old(self)
                && final(mem)@ == old(mem)@ && *final(alloc) == *old(alloc),
            r == Err::<(), BootError>(BootError::Misaligned) ==> *final(self) == *old(self)
                && final(mem)@ == old(mem)@ && *final(alloc) == *old(alloc),
            r is Err ==> forall|va2: u64|
                #[trigger] walk_spec(final(mem)@, old(self).root_spec(), va2) == walk_spec(
                    old(mem)@,
                    old(self).root_spec(),
                    va2,
                ),
            r is Ok ==> forall|va2: u64|
                #[trigger] walk_spec(final(mem)@, old(self).root_spec(), va2) == (if va2
                    & VA_PAGE_MASK == virt_addr.0 & VA_PAGE_MASK {
                    Some(phys_addr | (va2 & 0xFFF))
                } else {
                    walk_spec(old(mem)@, old(self).root_spec(), va2)
                }),
    {
        let va = virt_addr.0;
        if phys_addr % 0x1000u64 != 0 || va % 0x1000u64 != 0 {
            return Err(BootError::Misaligned);
        }
        proof {
            lemma_idx_bounds(va);
        }
        let ghost m0 = mem@;
        let ghost a0 = *alloc;
        let ghost pt0 = *self;
        let t1a = match self.ensure_l1(mem, alloc, va) {
            Ok(t) => t,
            Err(_) => {
                proof {
                    assert(!desc_valid(entry_at(m0, pt0.root_spec(), l0_idx(va))));
                    assert(missing_4k(m0, pt0.root_spec(), va) == 3);
                    assert(!obstacle_4k(m0, pt0.root_spec(), va));
                }
                return Err(BootError::OutOfFrames);
            },
        };
        let ghost mmid = mem@;
        let ghost amid = *alloc;
        proof {
            lemma_zero_desc_invalid();
        }
        let t2a = match self.ensure_l2(mem, alloc, va, t1a) {
            Ok(t) => t,
            Err(e) => {
                match e {
                    BootError::AlreadyMapped => {
                        proof {
                            assert(desc_valid(entry_at(m0, pt0.root_spec(), l0_idx(va))));
                            assert(mmid == m0);
                            assert(obstacle_4k(m0, pt0.root_spec(), va));
                        }
                        return Err(BootError::AlreadyMapped);
                    },
                    _ => {
                        proof {
                            if desc_valid(entry_at(m0, pt0.root_spec(), l0_idx(va))) {
                                assert(mmid == m0);
                                assert(!obstacle_4k(m0, pt0.root_spec(), va));
                            } else {
                                assert(missing_4k(m0, pt0.root_spec(), va) == 3);
                                assert(!obstacle_4k(m0, pt0.root_spec(), va));
                            }
                        }
                        return Err(BootError::OutOfFrames);
                    },
                }
            },
        };
        let ghost mmid2 = mem@;
        let ghost amid2 = *alloc;
        let t3a = match self.ensure_l3(mem, alloc, va, t1a, t2a) {
            Ok(t) => t,
            Err(e) => {
                match e {
                    BootError::AlreadyMapped => {
                        proof {
                            assert(desc_valid(entry_at(mmid, t1a, l1_idx(va))));
                            assert(mmid2 == mmid);
                            assert(desc_valid(entry_at(m0, pt0.root_spec(), l0_idx(va))));
                            assert(mmid == m0);
                            assert(obstacle_4k(m0, pt0.root_spec(), va));
                        }
                        return Err(BootError::AlreadyMapped);
                    },
                    _ => {
                        proof {
                            if desc_valid(entry_at(m0, pt0.root_spec(), l0_idx(va))) {
                                assert(mmid == m0);
                                if desc_valid(entry_at(m0, t1a, l1_idx(va))) {
                                    assert(mmid2 == mmid);
                                    assert(!obstacle_4k(m0, pt0.root_spec(), va));
                                } else {
                                    assert(missing_4k(m0, pt0.root_spec(), va) == 2);
                                    assert(!obstacle_4k(m0, pt0.root_spec(), va));
                                }
                            } else {
                                assert(missing_4k(m0, pt0.root_spec(), va) == 3);
                                assert(!obstacle_4k(m0, pt0.root_spec(), va));
                            }
                        }
                        return Err(BootError::OutOfFrames);
                    },
                }
            },
        };
        let ghost mmid3 = mem@;
        let i3 = (va >> 12) & 0x1FF;
        proof {
            assert(self.tables3().contains(t3a));
            let k = choose|k: int| 0 <= k < self.tables3().len() && self.tables3()[k] == t3a;
            assert(table_ok(t3a, mem@));
            lemma_entry_addr_ok(t3a, i3, mem@);
        }
        let d3 = mem.read_word(t3a + 8 * i3);
        if d3 & 1 == 1 {
            proof {
                assert(d3 == entry_at(mmid3, t3a, i3));
                assert(desc_valid(entry_at(mmid2, t2a, l2_idx(va))));
                assert(mmid3 == mmid2);
                assert(desc_valid(entry_at(mmid, t1a, l1_idx(va))));
                assert(mmid2 == mmid);
                assert(desc_valid(entry_at(m0, pt0.root_spec(), l0_idx(va))));
                assert(mmid == m0);
                assert(obstacle_4k(m0, pt0.root_spec(), va));
            }
            return Err(BootError::AlreadyMapped);
        }
        let v = phys_addr | ((mem_type.0 as u64) << 2) | 0x403;
        proof {
            lemma_page_fields(phys_addr, mem_type.0);
            assert(v == make_page_desc(phys_addr, mem_type.0));
            lemma_write_l3(
                mmid3,
                self.root_spec(),
                self.tables1(),
                self.tables2(),
                self.tables3(),
                va,
                v,
            );
            lemma_entry_addr_ok(t3a, i3, mem@);
        }
        mem.write_word(t3a + 8 * i3, v);
        proof {
            assert(mem@ == mmid3.update(entry_addr(t3a, l3_idx(va)) as int / 8, v));
            assert(self.all_tables().contains(t3a)) by {
                lemma_frames_facts(
                    self.root_spec(),
                    self.tables1(),
                    self.tables2(),
                    self.tables3(),
                );
            }
            lemma_alloc_inv_write(alloc, mmid3, t3a, l3_idx(va), v);
            if desc_valid(entry_at(m0, pt0.root_spec(), l0_idx(va))) {
                assert(mmid == m0);
                if desc_valid(entry_at(mmid, t1a, l1_idx(va))) {
                    assert(mmid2 == mmid);
                    if desc_valid(entry_at(mmid2, t2a, l2_idx(va))) {
                        assert(mmid3 == mmid2);
                    }
                }
            }
            assert(!obstacle_4k(m0, pt0.root_spec(), va));
            assert forall|va2: u64|
                #[trigger] walk_spec(mem@, pt0.root_spec(), va2) == (if va2 & VA_PAGE_MASK == va
                    & VA_PAGE_MASK {
                    Some(phys_addr | (va2 & 0xFFF))
                } else {
                    walk_spec(m0, pt0.root_spec(), va2)
                }) by {
                lemma_group_4k(va, va2);
            }
            // The shared path down to level 3, and the sibling slots.
            lemma_frames_distinct(self.root_spec(), self.tables1(), self.tables2(),
                self.tables3());
            assert(self.all_tables()[0] == self.root_spec());
            assert(self.all_tables().contains(self.root_spec()));
            assert(self.tables1().contains(t1a));
            assert(self.tables2().contains(t2a));
            assert(self.all_tables().contains(t1a) && self.all_tables().contains(t2a)) by {
                lemma_frames_facts(
                    self.root_spec(),
                    self.tables1(),
                    self.tables2(),
                    self.tables3(),
                );
            }
            assert(t3a != self.root_spec() && t1a != t3a && t2a != t3a) by {
                let k1 = choose|k: int|
                    0 <= k < self.tables1().len() && self.tables1()[k] == t1a;
                let k2 = choose|k: int|
                    0 <= k < self.tables2().len() && self.tables2()[k] == t2a;
                let k3 = choose|k: int|
                    0 <= k < self.tables3().len() && self.tables3()[k] == t3a;
            }
            assert(entry_at(mem@, pt0.root_spec(), l0_idx(va)) == entry_at(
                mmid3,
                pt0.root_spec(),
                l0_idx(va),
            ));
            assert(entry_at(mem@, t1a, l1_idx(va)) == entry_at(mmid3, t1a, l1_idx(va)));
            assert(entry_at(mem@, t2a, l2_idx(va)) == entry_at(mmid3, t2a, l2_idx(va)));
            assert(entry_at(mem@, t3a, l3_idx(va)) == v);
            lemma_page_fields(phys_addr, mem_type.0);
            assert forall|va2: u64|
                va2 & VA_BLOCK2M_MASK == va & VA_BLOCK2M_MASK && va2 & VA_PAGE_MASK != va
                    & VA_PAGE_MASK implies (#[trigger] obstacle_4k(mem@, pt0.root_spec(), va2)
                == obstacle_4k(m0, pt0.root_spec(), va2) && missing_4k(mem@, pt0.root_spec(), va2)
                == 0) by {
                lemma_idx_bounds(va2);
                lemma_group_2m(va, va2);
                lemma_group_4k(va, va2);
                assert(l0_idx(va2) == l0_idx(va) && l1_idx(va2) == l1_idx(va) && l2_idx(va2)
                    == l2_idx(va) && l3_idx(va2) != l3_idx(va));
                assert(entry_at(mem@, pt0.root_spec(), l0_idx(va2)) == entry_at(
                    mmid3,
                    pt0.root_spec(),
                    l0_idx(va2),
                ));
                assert(entry_at(mem@, t1a, l1_idx(va2)) == entry_at(mmid3, t1a, l1_idx(va2)));
                assert(entry_at(mem@, t2a, l2_idx(va2)) == entry_at(mmid3, t2a, l2_idx(va2)));
                assert(entry_at(mem@, t3a, l3_idx(va2)) == entry_at(mmid3, t3a, l3_idx(va2)));
                if desc_valid(entry_at(m0, pt0.root_spec(), l0_idx(va))) {
                    assert(mmid == m0);
                    if desc_valid(entry_at(mmid, t1a, l1_idx(va))) {
                        assert(mmid2 == mmid);
                        if desc_valid(entry_at(mmid2, t2a, l2_idx(va))) {
                            assert(mmid3 == mmid2);
                        } else {
                            assert(entry_at(mmid3, t3a, l3_idx(va2)) == 0);
                            lemma_zero_desc_invalid();
                            assert(!obstacle_4k(m0, pt0.root_spec(), va2));
                        }
                    } else {
                        assert(entry_at(mmid3, t3a, l3_idx(va2)) == 0);
                        lemma_zero_desc_invalid();
                        assert(!obstacle_4k(m0, pt0.root_spec(), va2));
                    }
                } else {
                    assert(entry_at(mmid3, t3a, l3_idx(va2)) == 0);
                    lemma_zero_desc_invalid();
                    assert(!obstacle_4k(m0, pt0.root_spec(), va2));
                }
            }
        }
        Ok(())
    }

    /// Unmaps the 1 GiB huge page starting at `virt_addr` by zeroing
    /// its level-1 block descriptor.  Returns `true` exactly when the
    /// address was 1 GiB aligned and a block was mapped there;
    /// afterwards the block's whole group fails to translate and no
    /// other translation changes.  Intermediate tables are not freed;
    /// that is the destructor's job.
    #[verifier::rlimit(100)]
    pub fn unmap_1gib_page(&mut self, mem: &mut PhysMem, virt_addr: VirtualAddr) -> (r: bool)
        requires
            old(self).wf(old(mem)@),
        ensures
            *final(self) == *old(self),
            final(self).wf(final(mem)@),
            final(mem)@.len() == old(mem)@.len(),
            r <==> (virt_addr.0 % GIB == 0 && ({
                let d0 = entry_at(old(mem)@, old(self).root_spec(), l0_idx(virt_addr.0));
                &&& desc_valid(d0)
                &&& desc_valid(entry_at(old(mem)@, next_table_addr(d0), l1_idx(virt_addr.0)))
                &&& !desc_is_table(
                    entry_at(old(mem)@, next_table_addr(d0), l1_idx(virt_addr.0)),
                )
            })),
            !r ==> final(mem)@ == old(mem)@,
            r ==> forall|va2: u64|
                #[trigger] walk_spec(final(mem)@, old(self).root_spec(), va2) == (if va2
                    & VA_BLOCK1G_MASK == virt_addr.0 & VA_BLOCK1G_MASK {
                    None
                } else {
                    walk_spec(old(mem)@, old(self).root_spec(), va2)
                }),
    {
        let va = virt_addr.0;
        if va % GIB != 0 {
            return false;
        }
        proof {
            lemma_idx_bounds(va);
        }
        let ghost m0 = mem@;
        let i0 = (va >> 39) & 0x1FF;
        proof {
            lemma_entry_addr_ok(self.root, i0, mem@);
        }
        let d0 = mem.read_word(self.root + 8 * i0);
        if d0 & 1 != 1 {
            return false;
        }
        let t1a = ((d0 >> 12) & 0xF_FFFF_FFFF) << 12;
        let i1 = (va >> 30) & 0x1FF;
        proof {
            reveal(children_l0);
            assert(d0 == entry_at(mem@, self.root_spec(), i0));
            assert(self.tables1().contains(t1a));
            let k = choose|k: int| 0 <= k < self.tables1().len() && self.tables1()[k] == t1a;
            assert(table_ok(t1a, mem@));
            lemma_entry_addr_ok(t1a, i1, mem@);
        }
        let d1 = mem.read_word(t1a + 8 * i1);
        if d1 & 1 != 1 || d1 & 2 == 2 {
            return false;
        }
        proof {
            lemma_zero_desc_invalid();
            lemma_write_l1(
                m0,
                self.root_spec(),
                self.tables1(),
                self.tables2(),
                self.tables3(),
                va,
                0,
            );
            lemma_entry_addr_ok(t1a, i1, mem@);
        }
        mem.write_word(t1a + 8 * i1, 0);
        proof {
            assert(mem@ == m0.update(entry_addr(t1a, l1_idx(va)) as int / 8, 0));
            assert forall|va2: u64|
                #[trigger] walk_spec(mem@, self.root_spec(), va2) == (if va2 & VA_BLOCK1G_MASK
                    == va & VA_BLOCK1G_MASK {
                    None
                } else {
                    walk_spec(m0, self.root_spec(), va2)
                }) by {
                lemma_group_1g(va, va2);
            }
        }
        true
    }

    /// Every frame this table owns, the level-0 table first.
    pub fn table_frames(&self) -> (r: Vec<u64>)
        ensures
            r@ == self.all_tables(),
    {
        let mut r: Vec<u64> = Vec::new();
        r.push(self.root);
        let mut i: usize = 0;
        while i < self.t1.len()
            invariant
                0 <= i <= self.t1@.len(),
                r@ == seq![self.root_spec()] + self.t1@.take(i as int),
            decreases self.t1@.len() - i,
        {
            r.push(self.t1[i]);
            proof {
                assert(self.t1@.take(i as int + 1) =~= self.t1@.take(i as int).push(
                    self.t1@[i as int],
                ));
                assert(r@ =~= seq![self.root_spec()] + self.t1@.take(i as int + 1));
            }
            i = i + 1;
        }
        proof {
            assert(self.t1@.take(self.t1@.len() as int) =~= self.t1@);
        }
        i = 0;
        while i < self.t2.len()
            invariant
                0 <= i <= self.t2@.len(),
                r@ == seq![self.root_spec()] + self.t1@ + self.t2@.take(i as int),
            decreases self.t2@.len() - i,
        {
            r.push(self.t2[i]);
            proof {
                assert(self.t2@.take(i as int + 1) =~= self.t2@.take(i as int).push(
                    self.t2@[i as int],
                ));
                assert(r@ =~= seq![self.root_spec()] + self.t1@ + self.t2@.take(i as int + 1));
            }
            i = i + 1;
        }
        proof {
            assert(self.t2@.take(self.t2@.len() as int) =~= self.t2@);
        }
        i = 0;
        while i < self.t3.len()
            invariant
                0 <= i <= self.t3@.len(),
                r@ == seq![self.root_spec()] + self.t1@ + self.t2@ + self.t3@.take(i as int),
            decreases self.t3@.len() - i,
        {
            r.push(self.t3[i]);
            proof {
                assert(self.t3@.take(i as int + 1) =~= self.t3@.take(i as int).push(
                    self.t3@[i as int],
                ));
                assert(r@ =~= seq![self.root_spec()] + self.t1@ + self.t2@ + self.t3@.take(
                    i as int + 1,
                ));
            }
            i = i + 1;
        }
        proof {
            assert(self.t3@.take(self.t3@.len() as int) =~= self.t3@);
            assert(r@ =~= self.all_tables());
        }
        r
    }

    /// The drop discipline: returns every owned table frame — and
    /// only those — to the allocator, consuming the table.  Leaf
    /// frames are descriptions of memory owned elsewhere and are not
    /// freed.  Together with the frame-conservation clause of the map
    /// operations, this restores the allocator's free count to what it
    /// was before the table was built.
    #[verifier::rlimit(100)]
    pub fn destroy(self, mem: &mut PhysMem, alloc: &mut PageFrameAllocator)
        requires
            self.wf(old(mem)@),
            old(alloc).inv(old(mem)@),
            old(alloc).page_size_spec() == 4096,
            self.disjoint_from(old(alloc)),
        ensures
            final(alloc).inv(final(mem)@),
            final(alloc).page_size_spec() == 4096,
            final(mem)@.len() == old(mem)@.len(),
            final(alloc).num_free_spec() == old(alloc).num_free_spec() + self.num_tables(),
    {
        proof {
            lemma_frames_facts(self.root_spec(), self.tables1(), self.tables2(),
                self.tables3());
            lemma_frames_distinct(self.root_spec(), self.tables1(), self.tables2(),
                self.tables3());
        }
        let frames = self.table_frames();
        let ghost all = self.all_tables();
        let n = frames.len();
        let mut i: usize = 0;
        while i < n
            invariant
                0 <= i <= n,
                n == all.len(),
                frames@ == all,
                alloc.inv(mem@),
                alloc.page_size_spec() == 4096,
                mem@.len() == old(mem)@.len(),
                alloc.num_free_spec() == old(alloc).num_free_spec() + i,
                all.no_duplicates(),
                forall|k: int| 0 <= k < all.len() ==> table_ok(#[trigger] all[k], old(mem)@),
                // Frames not yet freed are still off the free list.
                forall|k: int|
                    i <= k < all.len() ==> !alloc.free_seq().contains(#[trigger] all[k]),
                // Frames freed so far sit at the head of the list.
                alloc.free_seq() =~= all.take(i as int).reverse() + old(alloc).free_seq(),
            decreases n - i,
        {
            let f = frames[i];
            proof {
                assert(table_ok(f, old(mem)@));
                crate::frame_alloc::lemma_frame_align(f, 4096);
            }
            let ghost prev_free = alloc.free_seq();
            let res = alloc.free_frame(mem, f);
            proof {
                assert(res is Ok);
                assert(all.take(i as int + 1).reverse() =~= seq![all[i as int]] + all.take(
                    i as int,
                ).reverse());
                assert forall|k: int|
                    i + 1 <= k < all.len() implies !alloc.free_seq().contains(
                    #[trigger] all[k],
                ) by {
                    if alloc.free_seq().contains(all[k]) {
                        let j = choose|j: int|
                            0 <= j < alloc.free_seq().len() && alloc.free_seq()[j] == all[k];
                        if j == 0 {
                            assert(all[k] == f);
                            assert(false);
                        } else {
                            assert(alloc.free_seq()[j] == prev_free[j - 1]);
                            assert(prev_free.contains(all[k]));
                            assert(false);
                        }
                    }
                }
            }
            i = i + 1;
        }
    }
}

} // verus!
