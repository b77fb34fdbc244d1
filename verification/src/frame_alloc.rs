//! The physical page frame allocator: an intrusive LIFO free list.
//!
//! Each free frame stores the address of the next free frame in its
//! first word, so the allocator needs no storage of its own.  The
//! ghost `frames` sequence mirrors the chain of links in memory, head
//! first; the invariant ties the two together, and every operation's
//! contract says exactly how both evolve.
use vstd::prelude::*;

use crate::errors::BootError;
use crate::phys::{lemma_word_at_update, lemma_word_index, word_at, PhysMem};

verus! {

/// A frame address is usable by an allocator with page size `ps` over
/// memory of `words` words: non-null, aligned, in bounds.
pub open spec fn frame_ok(p: u64, ps: u64, words: int) -> bool {
    &&& p != 0
    &&& p % ps == 0
    &&& p + ps <= words * 8
}

/// Page-size alignment implies word alignment, and a non-null aligned
/// frame starts at or above one page.
pub proof fn lemma_frame_align(p: u64, ps: u64)
    requires
        ps >= 8,
        ps % 8 == 0,
        p % ps == 0,
    ensures
        p % 8 == 0,
        p != 0 ==> p >= ps,
{
    vstd::arithmetic::div_mod::lemma_fundamental_div_mod(ps as int, 8);
    let b = ps as int / 8;
    assert(8 * b == ps);
    vstd::arithmetic::div_mod::lemma_mod_mod(p as int, 8, b);
    assert((p as int % (8 * b)) % 8 == p as int % 8);
    if p != 0 {
        assert(p >= ps) by (nonlinear_arith)
            requires
                p % ps == 0,
                p > 0,
                ps > 0,
        ;
    }
}

/// Distinct aligned frames occupy disjoint word ranges.
pub proof fn lemma_frame_words_disjoint(p: u64, q: u64, ps: u64)
    requires
        ps >= 8,
        ps % 8 == 0,
        p % ps == 0,
        q % ps == 0,
        p != q,
    ensures
        q as int / 8 < p as int / 8 || q as int / 8 >= p as int / 8 + ps / 8,
{
    assert(q as int / 8 < p as int / 8 || q as int / 8 >= p as int / 8 + ps / 8)
        by (nonlinear_arith)
        requires
            ps >= 8,
            ps % 8 == 0,
            p % ps == 0,
            q % ps == 0,
            p != q,
    ;
}

/// A duplicate-free list of frames over finite memory is itself
/// finite: at most one frame per memory word, and never the first.
pub proof fn lemma_free_list_bounded(fl: Seq<u64>, words: int, ps: u64)
    requires
        ps >= 8,
        ps % 8 == 0,
        fl.no_duplicates(),
        forall|i: int| 0 <= i < fl.len() ==> frame_ok(#[trigger] fl[i], ps, words),
    ensures
        fl.len() == 0 || fl.len() + 1 <= words,
{
    if fl.len() > 0 {
        let idx = Seq::new(fl.len(), |i: int| fl[i] as int / 8);
        assert forall|i: int, j: int| 0 <= i < j < idx.len() implies idx[i] != idx[j] by {
            lemma_frame_align(fl[i], ps);
            lemma_frame_align(fl[j], ps);
            crate::phys::lemma_word_distinct(fl[i], fl[j]);
        }
        assert(idx.no_duplicates());
        assert forall|i: int| 0 <= i < idx.len() implies 1 <= #[trigger] idx[i] < words by {
            lemma_frame_align(fl[i], ps);
            assert(1 <= fl[i] as int / 8 && fl[i] as int / 8 < words) by (nonlinear_arith)
                requires
                    ps >= 8,
                    fl[i] >= ps,
                    fl[i] + ps <= words * 8,
            ;
        }
        assert(frame_ok(fl[0], ps, words));
        lemma_frame_align(fl[0], ps);
        assert(words >= 2);
        idx.unique_seq_to_set();
        assert(idx.to_set().subset_of(vstd::set_lib::set_int_range(1, words))) by {
            assert forall|x: int| idx.to_set().contains(x) implies vstd::set_lib::set_int_range(
                1,
                words,
            ).contains(x) by {
                let i = choose|i: int| 0 <= i < idx.len() && idx[i] == x;
            }
        }
        vstd::set_lib::lemma_int_range(1, words);
        vstd::set_lib::lemma_len_subset(
            idx.to_set(),
            vstd::set_lib::set_int_range(1, words),
        );
    }
}

/// Pushing a fresh frame onto the front of the chain, writing the old
/// head into its first word, yields a chain with all the free-list
/// properties again.
proof fn lemma_push_free_frame(fl0: Seq<u64>, m0: Seq<u64>, frame_addr: u64, head: u64, ps: u64)
    requires
        ps >= 8,
        ps % 8 == 0,
        forall|i: int| 0 <= i < fl0.len() ==> frame_ok(#[trigger] fl0[i], ps, m0.len() as int),
        fl0.no_duplicates(),
        forall|i: int| 0 <= i < fl0.len() - 1 ==> word_at(m0, #[trigger] fl0[i]) == fl0[i + 1],
        fl0.len() > 0 ==> word_at(m0, fl0[fl0.len() - 1]) == 0,
        head == if fl0.len() == 0 {
            0u64
        } else {
            fl0[0]
        },
        frame_ok(frame_addr, ps, m0.len() as int),
        !fl0.contains(frame_addr),
    ensures
        ({
            let fl = seq![frame_addr] + fl0;
            let m = m0.update(frame_addr as int / 8, head);
            &&& forall|i: int| 0 <= i < fl.len() ==> frame_ok(#[trigger] fl[i], ps, m.len() as int)
            &&& fl.no_duplicates()
            &&& forall|i: int| 0 <= i < fl.len() - 1 ==> word_at(m, #[trigger] fl[i]) == fl[i + 1]
            &&& word_at(m, fl[fl.len() - 1]) == 0
        }),
{
    let fl = seq![frame_addr] + fl0;
    let m = m0.update(frame_addr as int / 8, head);
    assert(fl[0] == frame_addr);
    assert(forall|i: int| 1 <= i < fl.len() ==> fl[i] == fl0[i - 1]);
    assert forall|i: int| 0 <= i < fl.len() implies frame_ok(
        #[trigger] fl[i],
        ps,
        m.len() as int,
    ) by {
        if i >= 1 {
            assert(frame_ok(fl0[i - 1], ps, m0.len() as int));
        }
    }
    assert forall|i: int, j: int| 0 <= i < j < fl.len() implies fl[i] != fl[j] by {
        if i == 0 {
            assert(fl0.contains(fl0[j - 1]));
        } else {
            assert(fl0[i - 1] != fl0[j - 1]);
        }
    }
    assert(fl.no_duplicates());
    lemma_frame_align(frame_addr, ps);
    assert forall|i: int| 0 <= i < fl.len() - 1 implies word_at(m, #[trigger] fl[i]) == fl[i
        + 1] by {
        lemma_frame_align(fl[i], ps);
        lemma_word_at_update(m0, frame_addr, head, fl[i]);
        if i == 0 {
        } else {
            assert(fl0.contains(fl0[i - 1]));
            assert(fl[i] != frame_addr);
            assert(word_at(m0, fl0[i - 1]) == fl0[i]);
        }
    }
    if fl.len() > 1 {
        let last = fl[fl.len() - 1];
        lemma_frame_align(last, ps);
        assert(fl0.contains(fl0[fl0.len() - 1]));
        lemma_word_at_update(m0, frame_addr, head, last);
    } else {
        lemma_word_at_update(m0, frame_addr, head, frame_addr);
    }
}

/// The intrusive free-list allocator.
pub struct PageFrameAllocator {
    freelist_head: u64,
    num_free: u64,
    page_size: u64,
    frames: Ghost<Seq<u64>>,
}

impl PageFrameAllocator {
    /// The free frames, most recently freed first.
    pub closed spec fn free_seq(&self) -> Seq<u64> {
        self.frames@
    }

    /// The head link (null when the list is empty).
    pub closed spec fn head_spec(&self) -> u64 {
        self.freelist_head
    }

    /// The stored free count.
    pub closed spec fn num_free_spec(&self) -> u64 {
        self.num_free
    }

    /// The frame size this allocator was created with.
    pub closed spec fn page_size_spec(&self) -> u64 {
        self.page_size
    }

    /// The allocator invariant over a memory state: the ghost list
    /// mirrors the in-memory chain of links, frames are valid,
    /// distinct, and counted.
    pub open spec fn inv(&self, mem: Seq<u64>) -> bool {
        let fl = self.free_seq();
        let ps = self.page_size_spec();
        &&& ps >= 8
        &&& ps % 8 == 0
        &&& self.num_free_spec() == fl.len()
        &&& self.head_spec() == if fl.len() == 0 {
            0u64
        } else {
            fl[0]
        }
        &&& forall|i: int| 0 <= i < fl.len() ==> frame_ok(#[trigger] fl[i], ps, mem.len() as int)
        &&& fl.no_duplicates()
        &&& forall|i: int| 0 <= i < fl.len() - 1 ==> word_at(mem, #[trigger] fl[i]) == fl[i + 1]
        &&& fl.len() > 0 ==> word_at(mem, fl[fl.len() - 1]) == 0
    }

    /// A new, empty allocator.
    ///
    /// The page size must be a multiple of the word size so that a
    /// link fits at the start of every frame.
    pub fn new(page_size: u64) -> (r: PageFrameAllocator)
        requires
            page_size >= 8,
            page_size % 8 == 0,
        ensures
            r.free_seq() == Seq::<u64>::empty(),
            r.num_free_spec() == 0,
            r.page_size_spec() == page_size,
            forall|m: Seq<u64>| #[trigger] r.inv(m),
    {
        PageFrameAllocator {
            freelist_head: 0,
            num_free: 0,
            page_size,
            frames: Ghost(Seq::empty()),
        }
    }

    /// Number of frames currently in the free list.
    pub fn num_free_frames(&self) -> (r: u64)
        ensures
            r == self.num_free_spec(),
    {
        self.num_free
    }

    /// Returns a frame to the free list (also used to seed the
    /// allocator from free memory ranges).
    ///
    /// The null frame and misaligned addresses are rejected without
    /// any change; a frame handed in must not already be free.
    #[verifier::rlimit(100)]
    pub fn free_frame(&mut self, mem: &mut PhysMem, frame_addr: u64) -> (r: Result<
        (),
        BootError,
    >)
        requires
            old(self).inv(old(mem)@),
            frame_addr != 0 && frame_addr % old(self).page_size_spec() == 0 ==> frame_addr + old(
                self,
            ).page_size_spec() <= old(mem).len_bytes() && !old(self).free_seq().contains(
                frame_addr,
            ),
        ensures
            final(self).page_size_spec() == old(self).page_size_spec(),
            r is Ok <==> frame_addr != 0 && frame_addr % old(self).page_size_spec() == 0,
            r is Err ==> *final(self) == *old(self) && final(mem)@ == old(mem)@ && r == Err::<
                (),
                BootError,
            >(
                if frame_addr == 0 {
                    BootError::NullFrame
                } else {
                    BootError::Misaligned
                },
            ),
            r is Ok ==> ({
                &&& final(self).free_seq() == seq![frame_addr] + old(self).free_seq()
                &&& final(self).num_free_spec() == old(self).num_free_spec() + 1
                &&& final(self).inv(final(mem)@)
                &&& final(mem)@ == old(mem)@.update(frame_addr as int / 8, old(self).head_spec())
            }),
    {
        if frame_addr == 0 {
            return Err(BootError::NullFrame);
        }
        if frame_addr % self.page_size != 0 {
            return Err(BootError::Misaligned);
        }
        let ghost fl0 = self.free_seq();
        let ghost m0 = mem@;
        proof {
            lemma_free_list_bounded(fl0, m0.len() as int, self.page_size_spec());
            mem.lemma_len_bound();
            lemma_frame_align(frame_addr, self.page_size_spec());
        }
        mem.write_word(frame_addr, self.freelist_head);
        self.freelist_head = frame_addr;
        self.num_free = self.num_free + 1;
        proof {
            self.frames@ = seq![frame_addr] + fl0;
        }
        proof {
            lemma_push_free_frame(fl0, m0, frame_addr, old(self).head_spec(), self.page_size_spec());
        }
        Ok(())
    }

    /// Takes the most recently freed frame off the list and zero-fills
    /// it before returning it.
    pub fn alloc_frame(&mut self, mem: &mut PhysMem) -> (r: Result<u64, BootError>)
        requires
            old(self).inv(old(mem)@),
        ensures
            final(self).page_size_spec() == old(self).page_size_spec(),
            r is Ok <==> old(self).free_seq().len() > 0,
            r is Err ==> *final(self) == *old(self) && final(mem)@ == old(mem)@ && r == Err::<
                u64,
                BootError,
            >(BootError::OutOfFrames),
            r is Ok ==> {
                let p = r->Ok_0;
                let ps = old(self).page_size_spec();
                &&& p == old(self).free_seq()[0]
                &&& frame_ok(p, ps, old(mem)@.len() as int)
                &&& final(self).free_seq() == old(self).free_seq().skip(1)
                &&& final(self).num_free_spec() == old(self).num_free_spec() - 1
                &&& final(self).inv(final(mem)@)
                &&& final(mem)@.len() == old(mem)@.len()
                &&& forall|w: int|
                    p as int / 8 <= w < p as int / 8 + ps / 8 ==> final(mem)@[w] == 0
                &&& forall|w: int|
                    0 <= w < old(mem)@.len() && !(p as int / 8 <= w < p as int / 8 + ps / 8)
                        ==> final(mem)@[w] == old(mem)@[w]
            },
    {
        if self.num_free == 0 {
            return Err(BootError::OutOfFrames);
        }
        let ghost fl0 = self.free_seq();
        let ghost m0 = mem@;
        let frame = self.freelist_head;
        proof {
            lemma_frame_align(frame, self.page_size_spec());
        }
        let next = mem.read_word(frame);
        proof {
            if fl0.len() > 1 {
                assert(word_at(m0, fl0[0]) == fl0[1]);
            }
        }
        self.freelist_head = next;
        self.num_free = self.num_free - 1;
        proof {
            self.frames@ = fl0.skip(1);
        }
        proof {
            assert(self.page_size % 8 == 0);
            assert(self.page_size / 8 * 8 == self.page_size);
        }
        mem.zero_words(frame, self.page_size / 8);
        proof {
            let fl = self.free_seq();
            let ps = self.page_size_spec();
            assert(forall|i: int| 0 <= i < fl.len() ==> fl[i] == fl0[i + 1]);
            assert forall|i: int, j: int| 0 <= i < j < fl.len() implies fl[i] != fl[j] by {
                assert(fl0[i + 1] != fl0[j + 1]);
            }
            assert(fl.no_duplicates());
            assert forall|i: int| 0 <= i < fl.len() implies word_at(mem@, #[trigger] fl[i])
                == word_at(m0, fl[i]) by {
                assert(fl0[i + 1] != fl0[0]);
                lemma_frame_words_disjoint(frame, fl[i], ps);
                lemma_frame_align(fl[i], ps);
                lemma_word_index(fl[i], m0.len() as int);
            }
            assert forall|i: int| 0 <= i < fl.len() - 1 implies word_at(mem@, #[trigger] fl[i])
                == fl[i + 1] by {
                assert(word_at(m0, fl0[i + 1]) == fl0[i + 2]);
            }
            if fl.len() > 0 {
                assert(word_at(m0, fl0[fl0.len() - 1]) == 0);
            }
        }
        Ok(frame)
    }
}

} // verus!
