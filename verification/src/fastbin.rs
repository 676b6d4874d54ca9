//! The slab allocator ("Fastbin"): fixed-size-object slots carved from
//! pages that double in size up to a configured maximum, with freed slots
//! recycled through a last-in-first-out free list. A slot is named by a
//! stable index, and the free-slot list is an explicit stack of those
//! indices. The maps in this crate own their tree nodes directly; this
//! component carries the allocation policy itself, with its page and
//! free-list bookkeeping stated exactly.

use vstd::prelude::*;

verus! {

/// Default maximum page size, 64 KiB.
pub const MAXIMUM_PAGE_SIZE: usize = 65536;

/// Default number of objects in the first page.
pub const PAGE_OBJ_CNT: usize = 32;

/// Bytes a slot pointer occupies; object sizes are rounded up to it.
pub const PTR_SIZE: usize = 8;

/// `unrounded` rounded up to the next multiple of the power-of-two
/// `target_alignment`.
pub open spec fn spec_round_up(unrounded: int, target_alignment: int) -> int {
    ((unrounded + target_alignment - 1) / target_alignment) * target_alignment
}

/// The page size the allocator starts from: doubled from 32 until it holds
/// `need` bytes.
pub open spec fn spec_page_size(cur: nat, need: nat) -> nat
    decreases vstd::math::max(need - cur, 0),
{
    if cur >= need {
        cur
    } else if cur == 0 {
        0
    } else {
        spec_page_size(cur * 2, need)
    }
}

/// The fixed-size-object allocator: slot indices stand in for addresses,
/// pages are accounted for by their byte sizes, and freed slots wait on a
/// stack until the next allocation.
pub struct Fastbin {
    obj_size: usize,
    page_size: usize,
    align: usize,
    maximum: usize,
    free_slots: Vec<usize>,
    next_slot: usize,
    page_remaining: usize,
    pages: usize,
}

impl Fastbin {
    /// The free-slot stack, most recently freed last.
    pub closed spec fn free_list(self) -> Seq<usize> {
        self.free_slots@
    }

    /// How many distinct slots have ever been handed out.
    pub closed spec fn total_slots(self) -> nat {
        self.next_slot as nat
    }

    /// The rounded object size.
    pub closed spec fn spec_obj_size(self) -> nat {
        self.obj_size as nat
    }

    /// The byte size of the next page to be obtained.
    pub closed spec fn spec_page_size_now(self) -> nat {
        self.page_size as nat
    }

    /// The configured maximum page size.
    pub closed spec fn spec_maximum(self) -> nat {
        self.maximum as nat
    }

    /// The number of pages obtained so far.
    pub closed spec fn spec_pages(self) -> nat {
        self.pages as nat
    }

    /// The number of slots still to be carved from the current page.
    pub closed spec fn spec_page_remaining(self) -> nat {
        self.page_remaining as nat
    }

    /// Well-formedness: sizes are consistent, every free slot was handed
    /// out before, and no slot is on the free stack twice.
    pub closed spec fn wf(self) -> bool {
        &&& self.align == PTR_SIZE
        &&& self.obj_size >= PTR_SIZE
        &&& self.obj_size % PTR_SIZE == 0
        &&& self.page_size >= self.obj_size + 2 * PTR_SIZE
        &&& self.maximum <= usize::MAX / 2
        &&& self.page_size <= self.maximum || self.page_size <= 2 * self.maximum
        &&& self.pages <= self.next_slot
        &&& forall|i: int| 0 <= i < self.free_slots@.len()
            ==> (#[trigger] self.free_slots@[i]) < self.next_slot
        &&& forall|i: int, j: int| 0 <= i < j < self.free_slots@.len()
            ==> self.free_slots@[i] != self.free_slots@[j]
    }

    /// Creates an allocator for objects of the given byte size, with the
    /// default page parameters.
    pub fn new(obj_size: usize) -> (r: Self)
        requires
            obj_size <= usize::MAX - PTR_SIZE,
            spec_round_up(
                vstd::math::max(PTR_SIZE as int, obj_size as int),
                PTR_SIZE as int,
            ) * PAGE_OBJ_CNT + 2 * PTR_SIZE <= MAXIMUM_PAGE_SIZE,
        ensures
            r.wf(),
            r.free_list() == Seq::<usize>::empty(),
            r.total_slots() == 0,
            r.spec_obj_size() == spec_round_up(
                vstd::math::max(PTR_SIZE as int, obj_size as int),
                PTR_SIZE as int,
            ),
            r.spec_page_size_now() == spec_page_size(
                32,
                spec_round_up(
                    r.spec_obj_size() * PAGE_OBJ_CNT + 2 * PTR_SIZE,
                    PTR_SIZE as int,
                ) as nat,
            ),
            r.spec_maximum() == MAXIMUM_PAGE_SIZE,
            r.spec_align() == PTR_SIZE,
            r.spec_pages() == 0,
            r.spec_page_remaining() == 0,
    {
        Self::new_with_parameter(obj_size, PAGE_OBJ_CNT, MAXIMUM_PAGE_SIZE)
    }

    /// The pointer alignment object sizes are rounded to.
    pub closed spec fn spec_align(self) -> nat {
        self.align as nat
    }

    /// Creates an allocator with explicit first-page object count and
    /// maximum page size.
    pub fn new_with_parameter(obj_size: usize, page_obj_cnt: usize, maximum: usize)
        -> (r: Self)
        requires
            obj_size <= usize::MAX - PTR_SIZE,
            page_obj_cnt >= 1,
            spec_round_up(
                vstd::math::max(PTR_SIZE as int, obj_size as int),
                PTR_SIZE as int,
            ) * page_obj_cnt + 2 * PTR_SIZE <= maximum,
            maximum <= usize::MAX / 2,
        ensures
            r.wf(),
            r.free_list() == Seq::<usize>::empty(),
            r.total_slots() == 0,
            r.spec_obj_size() == spec_round_up(
                vstd::math::max(PTR_SIZE as int, obj_size as int),
                PTR_SIZE as int,
            ),
            r.spec_page_size_now() == spec_page_size(
                32,
                spec_round_up(
                    r.spec_obj_size() * page_obj_cnt + 2 * PTR_SIZE,
                    PTR_SIZE as int,
                ) as nat,
            ),
            r.spec_maximum() == maximum,
            r.spec_align() == PTR_SIZE,
            r.spec_pages() == 0,
            r.spec_page_remaining() == 0,
    {
        let raw = if obj_size < PTR_SIZE {
            PTR_SIZE
        } else {
            obj_size
        };
        let rounded = ((raw + PTR_SIZE - 1) / PTR_SIZE) * PTR_SIZE;
        proof {
            assert(rounded == spec_round_up(
                vstd::math::max(PTR_SIZE as int, obj_size as int),
                PTR_SIZE as int,
            ));
            assert(rounded >= raw) by (nonlinear_arith)
                requires rounded == ((raw + 8nat - 1) / 8int) * 8 && raw >= 1;
            assert(rounded % 8 == 0) by (nonlinear_arith)
                requires rounded == ((raw + 8nat - 1) / 8int) * 8;
        }
        let need_raw = rounded * page_obj_cnt + 2 * PTR_SIZE;
        let need = ((need_raw + PTR_SIZE - 1) / PTR_SIZE) * PTR_SIZE;
        proof {
            let q = rounded as int / 8;
            vstd::arithmetic::div_mod::lemma_fundamental_div_mod(rounded as int, 8);
            assert(rounded as int == 8 * q);
            assert(rounded as int * page_obj_cnt as int + 16
                == 8 * (q * page_obj_cnt as int + 2)) by (nonlinear_arith)
                requires rounded as int == 8 * q;
            vstd::arithmetic::div_mod::lemma_mod_multiples_basic(
                q * page_obj_cnt as int + 2, 8);
            assert(need_raw as int == rounded as int * page_obj_cnt as int + 16);
            assert(need == need_raw) by (nonlinear_arith)
                requires need == ((need_raw + 8nat - 1) / 8int) * 8
                    && (need_raw as int) % 8 == 0;
            assert(need_raw as int >= rounded as int + 16) by (nonlinear_arith)
                requires need_raw as int == rounded as int * page_obj_cnt as int + 16
                    && page_obj_cnt >= 1 && rounded >= 0;
        }
        let mut page_size: usize = 32;
        let ghost need0 = need as nat;
        while page_size < need
            invariant
                32 <= page_size,
                need0 == need,
                need <= maximum,
                maximum <= usize::MAX / 2,
                page_size <= 2 * maximum,
                spec_page_size(page_size as nat, need0)
                    == spec_page_size(32, need0),
            decreases vstd::math::max(need - page_size, 0),
        {
            page_size = page_size * 2;
        }
        let r = Fastbin {
            obj_size: rounded,
            page_size,
            align: PTR_SIZE,
            maximum,
            free_slots: Vec::new(),
            next_slot: 0,
            page_remaining: 0,
            pages: 0,
        };
        proof {
            assert(r.page_size >= r.obj_size + 2 * PTR_SIZE);
            assert(r.wf());
        }
        r
    }

    /// The rounded object size.
    pub fn obj_size(&self) -> (r: usize)
        ensures
            r == self.spec_obj_size(),
    {
        self.obj_size
    }

    /// The byte size of the next page to be obtained.
    pub fn page_size(&self) -> (r: usize)
        ensures
            r == self.spec_page_size_now(),
    {
        self.page_size
    }

    /// The pointer alignment object sizes are rounded to.
    pub fn align(&self) -> (r: usize)
        ensures
            r == self.spec_align(),
    {
        self.align
    }

    /// The configured maximum page size.
    pub fn maximum(&self) -> (r: usize)
        ensures
            r == self.spec_maximum(),
    {
        self.maximum
    }

    /// The number of pages obtained so far.
    pub fn pages(&self) -> (r: usize)
        ensures
            r == self.spec_pages(),
    {
        self.pages
    }

    /// Hands out one slot: the most recently freed slot if any is waiting,
    /// otherwise a fresh slot carved from the current page; an exhausted
    /// page is replaced by a new one, after which the page size doubles,
    /// capped at the maximum.
    pub fn allocate(&mut self) -> (r: usize)
        requires
            old(self).wf(),
            old(self).total_slots() < usize::MAX,
        ensures
            final(self).wf(),
            old(self).free_list().len() > 0 ==> {
                &&& r == old(self).free_list().last()
                &&& final(self).free_list() == old(self).free_list().drop_last()
                &&& final(self).total_slots() == old(self).total_slots()
                &&& final(self).spec_pages() == old(self).spec_pages()
                &&& final(self).spec_page_size_now() == old(self).spec_page_size_now()
                &&& final(self).spec_page_remaining()
                    == old(self).spec_page_remaining()
            },
            old(self).free_list().len() == 0 ==> {
                &&& r == old(self).total_slots()
                &&& final(self).free_list() == old(self).free_list()
                &&& final(self).total_slots() == old(self).total_slots() + 1
            },
            old(self).free_list().len() == 0 && old(self).spec_page_remaining() > 0
                ==> {
                &&& final(self).spec_pages() == old(self).spec_pages()
                &&& final(self).spec_page_size_now() == old(self).spec_page_size_now()
                &&& final(self).spec_page_remaining()
                    == old(self).spec_page_remaining() - 1
            },
            old(self).free_list().len() == 0 && old(self).spec_page_remaining() == 0
                ==> {
                &&& final(self).spec_pages() == old(self).spec_pages() + 1
                &&& final(self).spec_page_size_now() == if old(self)
                    .spec_page_size_now() < old(self).spec_maximum() {
                    2 * old(self).spec_page_size_now()
                } else {
                    old(self).spec_page_size_now()
                }
                &&& final(self).spec_page_remaining() + 1
                    == (old(self).spec_page_size_now() - 2 * PTR_SIZE)
                        / (old(self).spec_obj_size() as int)
            },
            final(self).spec_obj_size() == old(self).spec_obj_size(),
            final(self).spec_maximum() == old(self).spec_maximum(),
            r < final(self).total_slots(),
            !final(self).free_list().contains(r),
    {
        match self.free_slots.pop() {
            Some(slot) => {
                proof {
                    if self.free_slots@.contains(slot) {
                        let i = choose|i: int| 0 <= i < self.free_slots@.len()
                            && self.free_slots@[i] == slot;
                        assert(old(self).free_slots@[i]
                            == old(self).free_slots@[old(self).free_slots@.len() - 1]);
                    }
                }
                slot
            },
            None => {
                if self.page_remaining == 0 {
                    // obtain a new page and resume carving inside it
                    let per_page = (self.page_size - 2 * PTR_SIZE) / self.obj_size;
                    proof {
                        assert(per_page >= 1) by (nonlinear_arith)
                            requires per_page == vstd::prelude::sub(
                                    self.page_size as int, 16) / (self.obj_size as int)
                                && self.page_size >= self.obj_size + 16
                                && self.obj_size >= 8;
                    }
                    self.page_remaining = per_page;
                    self.pages = self.pages + 1;
                    if self.page_size < self.maximum {
                        self.page_size = self.page_size * 2;
                    }
                }
                let slot = self.next_slot;
                self.next_slot = self.next_slot + 1;
                self.page_remaining = self.page_remaining - 1;
                proof {
                    if self.free_slots@.contains(slot) {
                        let i = choose|i: int| 0 <= i < self.free_slots@.len()
                            && self.free_slots@[i] == slot;
                    }
                }
                slot
            },
        }
    }

    /// Returns a slot for reuse: it is pushed onto the free stack and
    /// handed out again by the next allocation.
    pub fn del(&mut self, slot: usize)
        requires
            old(self).wf(),
            slot < old(self).total_slots(),
            !old(self).free_list().contains(slot),
        ensures
            final(self).wf(),
            final(self).free_list() == old(self).free_list().push(slot),
            final(self).total_slots() == old(self).total_slots(),
            final(self).spec_pages() == old(self).spec_pages(),
            final(self).spec_page_size_now() == old(self).spec_page_size_now(),
            final(self).spec_page_remaining() == old(self).spec_page_remaining(),
            final(self).spec_obj_size() == old(self).spec_obj_size(),
    {
        self.free_slots.push(slot);
        proof {
            assert forall|i: int, j: int| 0 <= i < j < self.free_slots@.len()
                implies self.free_slots@[i] != self.free_slots@[j] by {
                if j == self.free_slots@.len() - 1 {
                    if old(self).free_slots@[i] == slot {
                        assert(old(self).free_slots@.contains(slot));
                    }
                }
            }
        }
    }

    /// Releases every page: all slots are forgotten and the allocator is
    /// back to its starting state for its object size.
    pub fn destroy(&mut self)
        requires
            old(self).wf(),
        ensures
            final(self).wf(),
            final(self).free_list() == Seq::<usize>::empty(),
            final(self).total_slots() == 0,
            final(self).spec_pages() == 0,
            final(self).spec_obj_size() == old(self).spec_obj_size(),
    {
        self.free_slots = Vec::new();
        self.next_slot = 0;
        self.page_remaining = 0;
        self.pages = 0;
    }

    /// Moves the allocator out, leaving an empty one of the same object
    /// size behind.
    pub fn move_to(&mut self) -> (r: Self)
        requires
            old(self).wf(),
        ensures
            r == *old(self),
            final(self).wf(),
            final(self).free_list() == Seq::<usize>::empty(),
            final(self).total_slots() == 0,
            final(self).spec_pages() == 0,
            final(self).spec_obj_size() == old(self).spec_obj_size(),
    {
        let mut fs: Vec<usize> = Vec::new();
        core::mem::swap(&mut fs, &mut self.free_slots);
        let taken = Fastbin {
            obj_size: self.obj_size,
            page_size: self.page_size,
            align: self.align,
            maximum: self.maximum,
            free_slots: fs,
            next_slot: self.next_slot,
            page_remaining: self.page_remaining,
            pages: self.pages,
        };
        self.next_slot = 0;
        self.page_remaining = 0;
        self.pages = 0;
        taken
    }
}

} // verus!
