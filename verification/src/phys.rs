//! A word-granular model of physical memory.
//!
//! Addresses are byte addresses; storage is an array of 64-bit
//! little-endian words, which is the granularity at which the boot
//! core reads and writes memory (free-list links and translation-table
//! descriptors are single words).  The allocator and the page tables
//! thread a `PhysMem` explicitly, so their effect on memory is part of
//! their contracts.
use vstd::prelude::*;

verus! {

/// The word of `m` holding byte address `addr` (which must be
/// word-aligned and in bounds to be meaningful).
pub open spec fn word_at(m: Seq<u64>, addr: u64) -> u64 {
    m[addr as int / 8]
}

/// Physical memory as a flat array of 64-bit words.
pub struct PhysMem {
    words: Vec<u64>,
}

impl View for PhysMem {
    type V = Seq<u64>;

    closed spec fn view(&self) -> Seq<u64> {
        self.words@
    }
}

impl PhysMem {
    /// Total size in bytes.
    pub open spec fn len_bytes(&self) -> int {
        self@.len() * 8int
    }

    /// Fresh, zero-filled memory of `num_words` words.
    pub fn new(num_words: usize) -> (r: PhysMem)
        ensures
            r@.len() == num_words,
            forall|i: int| 0 <= i < num_words ==> r@[i] == 0,
    {
        let mut words: Vec<u64> = Vec::new();
        let mut i: usize = 0;
        while i < num_words
            invariant
                0 <= i <= num_words,
                words@.len() == i,
                forall|k: int| 0 <= k < i ==> words@[k] == 0,
            decreases num_words - i,
        {
            words.push(0);
            i = i + 1;
        }
        PhysMem { words }
    }

    /// Size in bytes, as a value.
    pub fn byte_len(&self) -> (r: u64)
        requires
            self@.len() * 8 <= u64::MAX,
        ensures
            r == self.len_bytes(),
    {
        (self.words.len() as u64) * 8
    }

    /// Reads the word at byte address `addr`.
    pub fn read_word(&self, addr: u64) -> (r: u64)
        requires
            addr % 8 == 0,
            addr + 8 <= self.len_bytes(),
        ensures
            r == word_at(self@, addr),
    {
        proof {
            lemma_word_index(addr, self@.len() as int);
        }
        let n = self.words.len();
        assert(addr / 8 < n as u64);
        self.words[(addr / 8) as usize]
    }

    /// Writes the word at byte address `addr`.
    pub fn write_word(&mut self, addr: u64, val: u64)
        requires
            addr % 8 == 0,
            addr + 8 <= old(self).len_bytes(),
        ensures
            final(self)@ == old(self)@.update(addr as int / 8, val),
    {
        proof {
            lemma_word_index(addr, self@.len() as int);
        }
        let n = self.words.len();
        assert(addr / 8 < n as u64);
        let i = (addr / 8) as usize;
        self.words[i] = val;
    }

    /// Zero-fills `num_words` words starting at byte address `addr`.
    pub fn zero_words(&mut self, addr: u64, num_words: u64)
        requires
            addr % 8 == 0,
            addr + num_words * 8 <= old(self).len_bytes(),
        ensures
            final(self)@.len() == old(self)@.len(),
            forall|w: int|
                addr as int / 8 <= w < addr as int / 8 + num_words ==> final(self)@[w] == 0,
            forall|w: int|
                0 <= w < old(self)@.len() && !(addr as int / 8 <= w < addr as int / 8 + num_words)
                    ==> final(self)@[w] == old(self)@[w],
    {
        let base = addr / 8;
        let mut j: u64 = 0;
        while j < num_words
            invariant
                0 <= j <= num_words,
                base == addr / 8,
                addr % 8 == 0,
                addr + num_words * 8 <= self.len_bytes(),
                self@.len() == old(self)@.len(),
                forall|w: int| base as int <= w < base as int + j ==> self@[w] == 0,
                forall|w: int|
                    0 <= w < self@.len() && !(base as int <= w < base as int + j) ==> self@[w]
                        == old(self)@[w],
            decreases num_words - j,
        {
            proof {
                assert(base as int + j < self@.len()) by (nonlinear_arith)
                    requires
                        base == addr / 8,
                        addr % 8 == 0,
                        0 <= j < num_words,
                        addr + num_words * 8 <= self@.len() * 8,
                ;
            }
            let n = self.words.len();
            assert(base + j < n as u64);
            let i = (base + j) as usize;
            self.words[i] = 0;
            j = j + 1;
        }
    }
}

impl PhysMem {
    /// The word count fits the machine's address space.
    pub proof fn lemma_len_bound(&self)
        ensures
            self@.len() <= usize::MAX,
    {
        vstd::std_specs::vec::axiom_spec_len(&self.words);
    }
}

/// A word-aligned in-bounds byte address indexes a word of the array.
pub proof fn lemma_word_index(addr: u64, len: int)
    requires
        addr % 8 == 0,
        addr + 8 <= len * 8,
    ensures
        0 <= addr as int / 8 < len,
        8 * (addr as int / 8) == addr,
{
    assert(0 <= addr as int / 8 < len && 8 * (addr as int / 8) == addr) by (nonlinear_arith)
        requires
            addr % 8 == 0,
            addr + 8 <= len * 8,
    ;
}

/// Distinct word-aligned addresses index distinct words.
pub proof fn lemma_word_distinct(a: u64, b: u64)
    requires
        a % 8 == 0,
        b % 8 == 0,
        a != b,
    ensures
        a as int / 8 != b as int / 8,
{
    assert(a as int / 8 != b as int / 8) by (nonlinear_arith)
        requires
            a % 8 == 0,
            b % 8 == 0,
            a != b,
    ;
}

/// Writing one word changes `word_at` only at that address.
pub proof fn lemma_word_at_update(m: Seq<u64>, addr: u64, val: u64, other: u64)
    requires
        addr % 8 == 0,
        other % 8 == 0,
        addr + 8 <= m.len() * 8,
        other + 8 <= m.len() * 8,
    ensures
        word_at(m.update(addr as int / 8, val), other) == if other == addr {
            val
        } else {
            word_at(m, other)
        },
{
    lemma_word_index(addr, m.len() as int);
    lemma_word_index(other, m.len() as int);
    if other != addr {
        lemma_word_distinct(addr, other);
    }
}

} // verus!
