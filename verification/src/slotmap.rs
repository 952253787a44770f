//! The generational slot map container and its keys.

use core::marker::PhantomData;
use std::collections::VecDeque;
use vstd::pervasive::unreached;
use vstd::prelude::*;

use crate::packing::Index;
use crate::packing::Meta;
use crate::packing::INVALID_GENERATION;
use crate::packing::MAX_PAGES;
use crate::packing::PAGE_SIZE;

verus! {

/// Recycling is deferred until this many freed slots are queued; below the
/// threshold, insertion grows by claiming a fresh cell instead.
pub const MIN_FREE_LIST_LEN: usize = 32;

/// The only recoverable error: a stale or out-of-range key was presented.
#[derive(Clone, Copy, PartialEq, Eq, Structural, Debug)]
pub struct NotFound;

/// An opaque, copyable handle to a slot: a packed address plus the generation
/// captured when the key was minted. The phantom type parameter ties a key to
/// the element type of the map that minted it at compile time; it carries no
/// container identity, so a key of one map can be presented to another map of
/// the same element type (an accepted caveat of the design).
pub struct Key<T> {
    index: Index,
    generation: u16,
    _marker: PhantomData<T>,
}

impl<T> Key<T> {
    /// The page number the key addresses.
    pub closed spec fn spec_page(self) -> u32 {
        self.index.spec_page()
    }

    /// The in-page slot position the key addresses.
    pub closed spec fn spec_slot(self) -> u16 {
        self.index.spec_slot()
    }

    /// The generation captured when the key was minted.
    pub closed spec fn spec_gen(self) -> u16 {
        self.generation
    }

    /// A key's address always fits the packed field widths.
    pub proof fn lemma_fields_in_range(self)
        ensures
            self.spec_slot() < PAGE_SIZE,
            self.spec_page() < MAX_PAGES,
    {
        self.index.lemma_fields_in_range();
    }

    pub fn new(index: u16, page: u32, generation: u16) -> (k: Key<T>)
        requires
            index < PAGE_SIZE,
            page < MAX_PAGES,
        ensures
            k.spec_slot() == index,
            k.spec_page() == page,
            k.spec_gen() == generation,
    {
        Key { index: Index::new(index, page), generation, _marker: PhantomData }
    }
}

impl<T> Clone for Key<T> {
    fn clone(&self) -> (k: Key<T>)
        ensures
            k == *self,
    {
        Key { index: self.index, generation: self.generation, _marker: PhantomData }
    }
}

impl<T> Copy for Key<T> {

}

impl<T> Default for Key<T> {
    /// The default key: slot 0 of page 0, with the sentinel generation, so it
    /// never validates against a live slot.
    fn default() -> (k: Key<T>)
        ensures
            k.spec_slot() == 0,
            k.spec_page() == 0,
            k.spec_gen() == INVALID_GENERATION,
    {
        Key { index: Index::new(0, 0), generation: INVALID_GENERATION, _marker: PhantomData }
    }
}

/// One fixed-capacity block of storage: `PAGE_SIZE` value cells, one metadata
/// record per cell, and the high-water count of cells ever claimed by
/// straight-line growth. A cell holds `Some` exactly when its metadata says
/// active, so liveness bookkeeping and value presence cannot disagree.
struct Page<T> {
    data: Vec<Option<T>>,
    meta: Vec<Meta>,
    used: u16,
}

impl<T> Page<T> {
    spec fn wf(self) -> bool {
        &&& self.data@.len() == PAGE_SIZE
        &&& self.meta@.len() == PAGE_SIZE
        &&& self.used <= PAGE_SIZE
        &&& forall|i: int|
            0 <= i < PAGE_SIZE ==> ((#[trigger] self.data@[i]) is Some <==> self.meta@[i].spec_active())
        &&& forall|i: int| 0 <= i < self.used ==> (#[trigger] self.meta@[i]).spec_index() == i
        &&& forall|i: int|
            self.used <= i < PAGE_SIZE ==> !(#[trigger] self.meta@[i]).spec_active()
                && self.meta@[i].spec_generation() == INVALID_GENERATION
        &&& forall|i: int|
            0 <= i < PAGE_SIZE && (#[trigger] self.meta@[i]).spec_generation()
                == INVALID_GENERATION ==> !self.meta@[i].spec_active()
    }

    /// A fresh page: every cell unclaimed, inactive, at the sentinel generation.
    fn new() -> (p: Page<T>)
        ensures
            p.wf(),
            p.used == 0,
    {
        let mut data: Vec<Option<T>> = Vec::new();
        let mut meta: Vec<Meta> = Vec::new();
        let mut i: usize = 0;
        while i < PAGE_SIZE as usize
            invariant
                i <= PAGE_SIZE,
                data@.len() == i,
                meta@.len() == i,
                forall|j: int| 0 <= j < i ==> (#[trigger] data@[j]) is None,
                forall|j: int|
                    0 <= j < i ==> !(#[trigger] meta@[j]).spec_active() && meta@[j].spec_generation()
                        == INVALID_GENERATION,
            decreases PAGE_SIZE - i,
        {
            data.push(None);
            meta.push(Meta::new(false, 0, INVALID_GENERATION));
            i = i + 1;
        }
        Page { data, meta, used: 0 }
    }
}

/// How a slot's generation advances on removal: it increments, wrapping the
/// maximum value to the sentinel `INVALID_GENERATION` instead of overflowing.
pub open spec fn next_generation(g: u16) -> u16 {
    if g == 0xffff {
        INVALID_GENERATION
    } else {
        (g + 1) as u16
    }
}

impl<T> Page<T> {
    /// Claim the next unclaimed cell by straight-line growth, stamping it
    /// active at generation 1.
    fn claim(&mut self, value: T) -> (i: u16)
        requires
            old(self).wf(),
            old(self).used < PAGE_SIZE,
        ensures
            final(self).wf(),
            i == old(self).used,
            final(self).used == old(self).used + 1,
            final(self).meta@[i as int].spec_active(),
            final(self).meta@[i as int].spec_generation() == 1,
            final(self).data@[i as int] == Some(value),
            final(self).meta@[i as int].spec_index() == i,
            forall|j: int|
                0 <= j < PAGE_SIZE && j != i ==> (#[trigger] final(self).meta@[j]) == old(
                    self,
                ).meta@[j] && final(self).data@[j] == old(self).data@[j],
    {
        let i = self.used;
        self.data[i as usize] = Some(value);
        self.meta[i as usize] = Meta::new(true, i, 1);
        self.used = i + 1;
        i
    }

    /// Reactivate a tombstoned cell, keeping its stored generation, and write
    /// the new value into its physical cell.
    fn recycle(&mut self, i: u16, value: T) -> (g: u16)
        requires
            old(self).wf(),
            i < old(self).used,
            !old(self).meta@[i as int].spec_active(),
            old(self).meta@[i as int].spec_generation() != INVALID_GENERATION,
        ensures
            final(self).wf(),
            final(self).used == old(self).used,
            g == old(self).meta@[i as int].spec_generation(),
            g != INVALID_GENERATION,
            final(self).meta@[i as int].spec_active(),
            final(self).meta@[i as int].spec_generation() == g,
            final(self).meta@[i as int].spec_index() == i,
            final(self).data@[i as int] == Some(value),
            forall|j: int|
                0 <= j < PAGE_SIZE && j != i ==> (#[trigger] final(self).meta@[j]) == old(
                    self,
                ).meta@[j] && final(self).data@[j] == old(self).data@[j],
    {
        let g = self.meta[i as usize].generation();
        let phys = self.meta[i as usize].index();
        self.meta[i as usize] = Meta::new(true, phys, g);
        self.data[phys as usize] = Some(value);
        g
    }

    /// Tombstone an active cell: destruct its value, mark it inactive, and
    /// advance its generation. Returns the advanced generation.
    fn tombstone(&mut self, i: u16) -> (ng: u16)
        requires
            old(self).wf(),
            i < PAGE_SIZE,
            old(self).meta@[i as int].spec_active(),
        ensures
            final(self).wf(),
            final(self).used == old(self).used,
            ng == next_generation(old(self).meta@[i as int].spec_generation()),
            !final(self).meta@[i as int].spec_active(),
            final(self).meta@[i as int].spec_generation() == ng,
            final(self).meta@[i as int].spec_index() == i,
            final(self).data@[i as int] is None,
            forall|j: int|
                0 <= j < PAGE_SIZE && j != i ==> (#[trigger] final(self).meta@[j]) == old(
                    self,
                ).meta@[j] && final(self).data@[j] == old(self).data@[j],
    {
        let g = self.meta[i as usize].generation();
        let phys = self.meta[i as usize].index();
        let ng = if g == 0xffff {
            INVALID_GENERATION
        } else {
            g + 1
        };
        self.meta[i as usize] = Meta::new(false, phys, ng);
        self.data[phys as usize] = None;
        ng
    }

    /// Borrow the value of an active cell, through its physical-index
    /// indirection.
    fn value_ref(&self, i: u16) -> (r: &T)
        requires
            self.wf(),
            i < PAGE_SIZE,
            self.meta@[i as int].spec_active(),
        ensures
            Some(*r) == self.data@[i as int],
    {
        let phys = self.meta[i as usize].index();
        match &self.data[phys as usize] {
            Some(v) => v,
            None => unreached(),
        }
    }

    /// Mutably borrow the value of an active cell; only that cell's value can
    /// change through the borrow.
    fn value_mut(&mut self, i: u16) -> (r: &mut T)
        requires
            old(self).wf(),
            i < PAGE_SIZE,
            old(self).meta@[i as int].spec_active(),
        ensures
            Some(*r) == old(self).data@[i as int],
            final(self).wf(),
            final(self).used == old(self).used,
            final(self).meta@ == old(self).meta@,
            final(self).data@ == old(self).data@.update(i as int, Some(*final(r))),
    {
        let phys = self.meta[i as usize].index();
        match self.data[phys as usize].as_mut() {
            Some(v) => v,
            None => unreached(),
        }
    }
}

/// The slot map container: an ordered sequence of pages and a FIFO queue of
/// slot addresses eligible for recycling.
///
/// The container owns every stored value; since each occupied cell holds its
/// value in an `Option`, dropping the container destructs exactly the values
/// that are live at that moment, once each, and touches no unclaimed cell.
pub struct Slotmap<T> {
    pages: Vec<Page<T>>,
    free_list: VecDeque<Index>,
}

impl<T> Slotmap<T> {
    /// The number of pages allocated so far.
    pub closed spec fn page_count(self) -> int {
        self.pages@.len() as int
    }

    /// The high-water mark of page `p`: how many of its cells straight-line
    /// growth has ever claimed.
    pub closed spec fn used_of(self, p: int) -> int {
        self.pages@[p].used as int
    }

    /// The live generation stored for slot `i` of page `p`.
    pub closed spec fn gen_at(self, p: int, i: int) -> u16 {
        self.pages@[p].meta@[i].spec_generation()
    }

    /// Whether slot `i` of page `p` currently holds a live value.
    pub closed spec fn active_at(self, p: int, i: int) -> bool {
        self.pages@[p].meta@[i].spec_active()
    }

    /// The value held by slot `i` of page `p` (meaningful only while active).
    pub closed spec fn value_at(self, p: int, i: int) -> T {
        self.pages@[p].data@[self.pages@[p].meta@[i].spec_index() as int].unwrap()
    }

    /// The FIFO queue of freed slot addresses awaiting recycling, oldest
    /// first.
    pub closed spec fn free_view(self) -> Seq<Index> {
        self.free_list@
    }

    /// How many freed slot addresses await recycling.
    pub open spec fn free_count(self) -> int {
        self.free_view().len() as int
    }

    /// Whether slot `i` of page `p` has ever been claimed.
    pub open spec fn claimed(self, p: int, i: int) -> bool {
        0 <= p < self.page_count() && 0 <= i < self.used_of(p)
    }

    /// A queued address points at a tombstoned, already-claimed slot whose
    /// generation has not wrapped to the sentinel.
    spec fn free_ok(self, idx: Index) -> bool {
        &&& (idx.spec_page() as int) < self.pages@.len()
        &&& (idx.spec_slot() as int) < self.pages@[idx.spec_page() as int].used
        &&& !self.pages@[idx.spec_page() as int].meta@[idx.spec_slot() as int].spec_active()
        &&& self.pages@[idx.spec_page() as int].meta@[idx.spec_slot() as int].spec_generation()
            != INVALID_GENERATION
    }

    /// The container invariant: page counts bounded by the 20-bit encoding,
    /// every page well formed, every page but the last fully claimed, and the
    /// free list holding pairwise distinct, recyclable addresses.
    pub closed spec fn wf(self) -> bool {
        &&& self.pages@.len() <= MAX_PAGES
        &&& forall|p: int| 0 <= p < self.pages@.len() ==> (#[trigger] self.pages@[p]).wf()
        &&& forall|p: int|
            0 <= p < self.pages@.len() - 1 ==> (#[trigger] self.pages@[p]).used == PAGE_SIZE
        &&& forall|j: int|
            0 <= j < self.free_list@.len() ==> self.free_ok(#[trigger] self.free_list@[j])
        &&& forall|j1: int, j2: int|
            #![trigger self.free_list@[j1], self.free_list@[j2]]
            0 <= j1 < j2 < self.free_list@.len() ==> self.free_list@[j1] != self.free_list@[j2]
    }

    /// The sole staleness check: the key's page is in range and its captured
    /// generation equals the slot's live generation.
    pub open spec fn spec_has(self, k: Key<T>) -> bool {
        &&& (k.spec_page() as int) < self.page_count()
        &&& self.gen_at(k.spec_page() as int, k.spec_slot() as int) == k.spec_gen()
    }

    /// A key that validates and whose slot holds a live value. For every key
    /// the map ever mints the two coincide; they can differ only for a key
    /// forged to match a tombstoned slot's generation.
    pub open spec fn spec_live(self, k: Key<T>) -> bool {
        &&& self.spec_has(k)
        &&& self.active_at(k.spec_page() as int, k.spec_slot() as int)
    }

    /// What lookup observes through a key: the slot's value while the key is
    /// live, nothing otherwise.
    pub open spec fn spec_get(self, k: Key<T>) -> Option<T> {
        if self.spec_live(k) {
            Some(self.value_at(k.spec_page() as int, k.spec_slot() as int))
        } else {
            None
        }
    }

    /// Slot `(p, i)` is untouched between two states: same generation, same
    /// liveness, and (while live) the same value.
    pub open spec fn slot_untouched(pre: Slotmap<T>, post: Slotmap<T>, p: int, i: int) -> bool {
        &&& post.gen_at(p, i) == pre.gen_at(p, i)
        &&& post.active_at(p, i) == pre.active_at(p, i)
        &&& (pre.active_at(p, i) ==> post.value_at(p, i) == pre.value_at(p, i))
    }

    /// What one insertion does. The returned key is live and reads back the
    /// inserted value; its slot was not live before; a recycled slot keeps the
    /// generation it already carried (never the sentinel), a freshly claimed
    /// cell starts at generation 1; at most one page is appended, whose other
    /// cells stay unclaimed; and every other slot is untouched.
    pub open spec fn insert_effect(pre: Slotmap<T>, post: Slotmap<T>, k: Key<T>, v: T) -> bool {
        let kp = k.spec_page() as int;
        let ki = k.spec_slot() as int;
        &&& post.wf()
        &&& post.spec_live(k)
        &&& post.spec_get(k) == Some(v)
        &&& k.spec_gen() != INVALID_GENERATION
        &&& !pre.spec_live(k)
        &&& (pre.claimed(kp, ki) ==> {
            &&& !pre.active_at(kp, ki)
            &&& pre.gen_at(kp, ki) == k.spec_gen()
            &&& post.used_of(kp) == pre.used_of(kp)
        })
        &&& (!pre.claimed(kp, ki) ==> k.spec_gen() == 1)
        &&& pre.page_count() <= post.page_count() <= pre.page_count() + 1
        &&& forall|p: int|
            0 <= p < pre.page_count() ==> pre.used_of(p) <= #[trigger] post.used_of(p)
        &&& forall|p: int, i: int|
            0 <= p < pre.page_count() && 0 <= i < PAGE_SIZE && !(p == kp && i == ki)
                ==> #[trigger] Self::slot_untouched(pre, post, p, i)
        &&& forall|p: int, i: int|
            pre.page_count() <= p < post.page_count() && 0 <= i < PAGE_SIZE && !(p == kp && i
                == ki) ==> #[trigger] post.gen_at(p, i) == INVALID_GENERATION && !post.active_at(
                p,
                i,
            )
    }

    /// What removing a live key does: its slot is tombstoned and its
    /// generation advanced, while page layout, high-water marks and every
    /// other slot stay untouched.
    pub open spec fn remove_effect(pre: Slotmap<T>, post: Slotmap<T>, k: Key<T>) -> bool {
        let kp = k.spec_page() as int;
        let ki = k.spec_slot() as int;
        &&& post.wf()
        &&& post.page_count() == pre.page_count()
        &&& forall|p: int|
            0 <= p < pre.page_count() ==> #[trigger] post.used_of(p) == pre.used_of(p)
        &&& !post.active_at(kp, ki)
        &&& post.gen_at(kp, ki) == next_generation(pre.gen_at(kp, ki))
        &&& forall|p: int, i: int|
            0 <= p < pre.page_count() && 0 <= i < PAGE_SIZE && !(p == kp && i == ki)
                ==> #[trigger] Self::slot_untouched(pre, post, p, i)
    }

    /// What writing through a mutable borrow of a live key's value does: only
    /// that slot's value changes; generations, liveness, page layout and
    /// every other slot stay untouched.
    pub open spec fn update_effect(pre: Slotmap<T>, post: Slotmap<T>, k: Key<T>, nv: T) -> bool {
        let kp = k.spec_page() as int;
        let ki = k.spec_slot() as int;
        &&& post.wf()
        &&& post.page_count() == pre.page_count()
        &&& forall|p: int|
            0 <= p < pre.page_count() ==> #[trigger] post.used_of(p) == pre.used_of(p)
        &&& forall|p: int, i: int|
            0 <= p < pre.page_count() && 0 <= i < PAGE_SIZE ==> #[trigger] post.gen_at(p, i)
                == pre.gen_at(p, i) && post.active_at(p, i) == pre.active_at(p, i)
        &&& forall|p: int, i: int|
            0 <= p < pre.page_count() && 0 <= i < PAGE_SIZE && !(p == kp && i == ki)
                && pre.active_at(p, i) ==> #[trigger] post.value_at(p, i) == pre.value_at(p, i)
        &&& post.value_at(kp, ki) == nv
        &&& post.spec_get(k) == Some(nv)
        &&& post.free_view() == pre.free_view()
    }

    /// An empty map: no pages, nothing to recycle, no key validates.
    pub fn new() -> (m: Slotmap<T>)
        ensures
            m.wf(),
            m.page_count() == 0,
            m.free_count() == 0,
            forall|k: Key<T>| !(#[trigger] m.spec_has(k)),
    {
        Slotmap { pages: Vec::new(), free_list: VecDeque::new() }
    }

    /// Insert a value, returning a key for it. While fewer than
    /// `MIN_FREE_LIST_LEN` freed slots await recycling, the next unclaimed
    /// cell of the last page is claimed (allocating a new page first if the
    /// last one is full or none exists); otherwise the oldest freed slot is
    /// recycled, and the key captures that slot's current stored generation.
    ///
    /// The map is bounded by its 20-bit page encoding; the caller keeps it
    /// under `MAX_PAGES` pages, which one insertion exceeds at the earliest
    /// after about 4.29 billion live values.
    pub fn insert(&mut self, value: T) -> (k: Key<T>)
        requires
            old(self).wf(),
            old(self).page_count() < MAX_PAGES,
        ensures
            Self::insert_effect(*old(self), *final(self), k, value),
            old(self).free_count() < MIN_FREE_LIST_LEN ==> {
                &&& final(self).free_view() == old(self).free_view()
                &&& ((old(self).page_count() == 0 || old(self).used_of(
                    old(self).page_count() - 1,
                ) == PAGE_SIZE) ==> {
                    &&& k.spec_page() == old(self).page_count()
                    &&& k.spec_slot() == 0
                    &&& final(self).page_count() == old(self).page_count() + 1
                })
                &&& (!(old(self).page_count() == 0 || old(self).used_of(
                    old(self).page_count() - 1,
                ) == PAGE_SIZE) ==> {
                    &&& k.spec_page() == old(self).page_count() - 1
                    &&& k.spec_slot() == old(self).used_of(old(self).page_count() - 1)
                    &&& final(self).page_count() == old(self).page_count()
                })
            },
            old(self).free_count() >= MIN_FREE_LIST_LEN ==> {
                &&& k.spec_page() == old(self).free_view()[0].spec_page()
                &&& k.spec_slot() == old(self).free_view()[0].spec_slot()
                &&& final(self).free_view() == old(self).free_view().subrange(
                    1,
                    old(self).free_count(),
                )
                &&& final(self).page_count() == old(self).page_count()
            },
    {
        if self.free_list.len() < MIN_FREE_LIST_LEN {
            let n = self.pages.len();
            if n == 0 || self.pages[n - 1].used == PAGE_SIZE {
                self.pages.push(Page::new());
            }
            let ghost mid = *self;
            let pi = self.pages.len() - 1;
            let slot = self.pages[pi].claim(value);
            let k = Key::new(slot, pi as u32, 1);
            proof {
                let pre = *old(self);
                let post = *self;
                let kp = pi as int;
                let ki = slot as int;
                let prelen = pre.page_count();
                assert(forall|p: int|
                    0 <= p < prelen && p != kp ==> post.pages@[p] == #[trigger] pre.pages@[p]);
                assert(post.free_list@ == pre.free_list@);
                assert(post.pages@[kp].meta@[ki].spec_index() == ki);
                assert(post.value_at(kp, ki) == value);
                if kp < prelen {
                    assert(ki == pre.used_of(kp));
                    assert(pre.pages@[kp].meta@[ki].spec_generation() == INVALID_GENERATION);
                }
                assert(!pre.claimed(kp, ki));
                assert(!pre.spec_live(k));
                assert forall|p: int, i: int|
                    0 <= p < prelen && 0 <= i < PAGE_SIZE && !(p == kp && i == ki) implies
                    #[trigger] Self::slot_untouched(pre, post, p, i) by {
                    if p == kp {
                        assert(post.pages@[p].meta@[i] == pre.pages@[p].meta@[i]);
                        assert(post.pages@[p].data@[i] == pre.pages@[p].data@[i]);
                        if pre.active_at(p, i) {
                            assert(i < pre.used_of(p));
                            assert(pre.pages@[p].meta@[i].spec_index() == i);
                        }
                    } else {
                        assert(post.pages@[p] == pre.pages@[p]);
                    }
                }
                assert forall|p: int, i: int|
                    prelen <= p < post.page_count() && 0 <= i < PAGE_SIZE && !(p == kp && i
                        == ki) implies #[trigger] post.gen_at(p, i) == INVALID_GENERATION
                    && !post.active_at(p, i) by {
                    assert(p == kp && mid.pages@[kp].used == 0);
                    assert(post.pages@[p].meta@[i] == mid.pages@[p].meta@[i]);
                }
                assert forall|p: int| 0 <= p < post.pages@.len() implies (#[trigger] post.pages@[p]).wf() by {
                    if p != kp {
                        assert(post.pages@[p] == pre.pages@[p]);
                    }
                }
                assert forall|p: int|
                    0 <= p < post.pages@.len() - 1 implies (#[trigger] post.pages@[p]).used
                    == PAGE_SIZE by {
                    assert(post.pages@[p] == pre.pages@[p]);
                    if p == prelen - 1 {
                        assert(pre.pages@[p].used == PAGE_SIZE);
                    }
                }
                assert forall|j: int| 0 <= j < post.free_list@.len() implies post.free_ok(
                    #[trigger] post.free_list@[j],
                ) by {
                    let e = post.free_list@[j];
                    assert(pre.free_ok(pre.free_list@[j]));
                    e.lemma_fields_in_range();
                    let ep = e.spec_page() as int;
                    let ei = e.spec_slot() as int;
                    if ep == kp {
                        assert(ei < ki);
                        assert(post.pages@[ep].meta@[ei] == mid.pages@[ep].meta@[ei]);
                        assert(mid.pages@[ep] == pre.pages@[ep]);
                    } else {
                        assert(post.pages@[ep] == pre.pages@[ep]);
                    }
                }
                assert(post.wf());
                assert(Self::insert_effect(pre, post, k, value));
            }
            k
        } else {
            let idx = self.free_list.pop_front().unwrap();
            let ghost mid = *self;
            proof {
                assert(old(self).free_ok(old(self).free_list@[0]));
                idx.lemma_fields_in_range();
            }
            let p = idx.page();
            let i = idx.meta_idx();
            let g = self.pages[p as usize].recycle(i, value);
            let k = Key::new(i, p, g);
            proof {
                let pre = *old(self);
                let post = *self;
                let kp = p as int;
                let ki = i as int;
                let prelen = pre.page_count();
                assert(forall|q: int|
                    0 <= q < prelen && q != kp ==> post.pages@[q] == #[trigger] pre.pages@[q]);
                assert(post.free_list@ == pre.free_list@.subrange(1, pre.free_list@.len() as int));
                assert(post.pages@[kp].meta@[ki].spec_index() == ki);
                assert(post.value_at(kp, ki) == value);
                assert(pre.claimed(kp, ki));
                assert(!pre.spec_live(k));
                assert forall|q: int, j: int|
                    0 <= q < prelen && 0 <= j < PAGE_SIZE && !(q == kp && j == ki) implies
                    #[trigger] Self::slot_untouched(pre, post, q, j) by {
                    if q == kp {
                        assert(post.pages@[q].meta@[j] == pre.pages@[q].meta@[j]);
                        assert(post.pages@[q].data@[j] == pre.pages@[q].data@[j]);
                        if pre.active_at(q, j) {
                            assert(j < pre.used_of(q));
                            assert(pre.pages@[q].meta@[j].spec_index() == j);
                        }
                    } else {
                        assert(post.pages@[q] == pre.pages@[q]);
                    }
                }
                assert forall|q: int| 0 <= q < post.pages@.len() implies (#[trigger] post.pages@[q]).wf() by {
                    if q != kp {
                        assert(post.pages@[q] == pre.pages@[q]);
                    }
                }
                assert forall|q: int|
                    0 <= q < post.pages@.len() - 1 implies (#[trigger] post.pages@[q]).used
                    == PAGE_SIZE by {
                    if q != kp {
                        assert(post.pages@[q] == pre.pages@[q]);
                    }
                    assert(pre.pages@[q].used == PAGE_SIZE);
                }
                assert forall|j: int| 0 <= j < post.free_list@.len() implies post.free_ok(
                    #[trigger] post.free_list@[j],
                ) by {
                    let e = post.free_list@[j];
                    assert(e == pre.free_list@[j + 1]);
                    assert(pre.free_ok(pre.free_list@[j + 1]));
                    e.lemma_fields_in_range();
                    let ep = e.spec_page() as int;
                    let ei = e.spec_slot() as int;
                    if ep == kp && ei == ki {
                        e.lemma_address_determined(idx);
                        assert(pre.free_list@[j + 1] == pre.free_list@[0]);
                        assert(false);
                    }
                    if ep == kp {
                        assert(post.pages@[ep].meta@[ei] == pre.pages@[ep].meta@[ei]);
                    } else {
                        assert(post.pages@[ep] == pre.pages@[ep]);
                    }
                }
                assert forall|j1: int, j2: int|
                    0 <= j1 < j2 < post.free_list@.len() implies post.free_list@[j1]
                    != post.free_list@[j2] by {
                    assert(pre.free_list@[j1 + 1] != pre.free_list@[j2 + 1]);
                }
                assert(post.wf());
                assert(Self::insert_effect(pre, post, k, value));
            }
            k
        }
    }

    /// The staleness check of the design: in-range page and matching
    /// generation. It runs before any dereference.
    pub fn has(&self, k: Key<T>) -> (r: bool)
        requires
            self.wf(),
        ensures
            r == self.spec_has(k),
    {
        let page = self.pages.len();
        let kp = k.index.page();
        if (kp as usize) < page {
            let slot = k.index.meta_idx();
            let g = self.pages[kp as usize].meta[slot as usize].generation();
            g == k.generation
        } else {
            false
        }
    }
}

impl<T> Slotmap<T> {
    /// Look up a key's value. Fails with `NotFound` exactly when the key is
    /// not live: its page out of range, its generation stale, or (for a key
    /// never minted by this map) its slot holding no value.
    pub fn try_get(&self, k: Key<T>) -> (r: Result<&T, NotFound>)
        requires
            self.wf(),
        ensures
            match r {
                Ok(v) => self.spec_get(k) == Some(*v),
                Err(e) => self.spec_get(k) is None && e == NotFound,
            },
    {
        if !self.has(k) {
            return Err(NotFound);
        }
        proof {
            k.lemma_fields_in_range();
        }
        let p = k.index.page();
        let i = k.index.meta_idx();
        if !self.pages[p as usize].meta[i as usize].active() {
            return Err(NotFound);
        }
        proof {
            assert(i < self.pages@[p as int].used);
            assert(self.pages@[p as int].meta@[i as int].spec_index() == i as int);
        }
        Ok(self.pages[p as usize].value_ref(i))
    }

    /// Mutably borrow a key's value, failing with `NotFound` exactly when the
    /// key is not live. Writing through the borrow changes that one slot's
    /// value and nothing else.
    pub fn try_get_mut(&mut self, k: Key<T>) -> (r: Result<&mut T, NotFound>)
        requires
            old(self).wf(),
        ensures
            r is Ok ==> old(self).spec_get(k) == Some(*(r->Ok_0)) && Self::update_effect(
                *old(self),
                *final(self),
                k,
                *final(r->Ok_0),
            ),
            r is Err ==> *final(self) == *old(self) && old(self).spec_get(k) is None && r->Err_0
                == NotFound,
    {
        if !self.has(k) {
            return Err(NotFound);
        }
        proof {
            k.lemma_fields_in_range();
        }
        let p = k.index.page();
        let i = k.index.meta_idx();
        if !self.pages[p as usize].meta[i as usize].active() {
            return Err(NotFound);
        }
        proof {
            assert(i < self.pages@[p as int].used);
            assert(self.pages@[p as int].meta@[i as int].spec_index() == i as int);
        }
        Ok(self.pages[p as usize].value_mut(i))
    }

    /// Remove the value a key refers to. A no-op (not an error) if the key is
    /// not live. Otherwise the value is destructed, the slot tombstoned, and
    /// its generation advanced, so this key — and any copy of it — never
    /// validates again. The freed slot is queued for recycling unless its
    /// generation wrapped to the sentinel, in which case it is retired so the
    /// sentinel can never validate a live key.
    pub fn remove(&mut self, k: Key<T>)
        requires
            old(self).wf(),
        ensures
            final(self).wf(),
            old(self).spec_live(k) ==> Self::remove_effect(*old(self), *final(self), k)
                && !final(self).spec_has(k),
            !old(self).spec_live(k) ==> *final(self) == *old(self),
            old(self).spec_live(k) && next_generation(
                old(self).gen_at(k.spec_page() as int, k.spec_slot() as int),
            ) != INVALID_GENERATION ==> {
                &&& final(self).free_view().len() == old(self).free_view().len() + 1
                &&& final(self).free_view().drop_last() == old(self).free_view()
                &&& final(self).free_view().last().spec_page() == k.spec_page()
                &&& final(self).free_view().last().spec_slot() == k.spec_slot()
            },
            old(self).spec_live(k) && next_generation(
                old(self).gen_at(k.spec_page() as int, k.spec_slot() as int),
            ) == INVALID_GENERATION ==> final(self).free_view() == old(self).free_view(),
    {
        if !self.has(k) {
            return ;
        }
        proof {
            k.lemma_fields_in_range();
        }
        let p = k.index.page();
        let i = k.index.meta_idx();
        if !self.pages[p as usize].meta[i as usize].active() {
            return ;
        }
        proof {
            assert(i < self.pages@[p as int].used);
        }
        let ng = self.pages[p as usize].tombstone(i);
        let ghost mid = *self;
        if ng != INVALID_GENERATION {
            self.free_list.push_back(k.index);
        }
        proof {
            let pre = *old(self);
            let post = *self;
            let kp = p as int;
            let ki = i as int;
            let prelen = pre.page_count();
            let g = pre.gen_at(kp, ki);
            assert(forall|q: int|
                0 <= q < prelen && q != kp ==> post.pages@[q] == #[trigger] pre.pages@[q]);
            assert(ng != g);
            assert(!post.spec_has(k));
            assert forall|q: int, j: int|
                0 <= q < prelen && 0 <= j < PAGE_SIZE && !(q == kp && j == ki) implies
                #[trigger] Self::slot_untouched(pre, post, q, j) by {
                if q == kp {
                    assert(post.pages@[q].meta@[j] == pre.pages@[q].meta@[j]);
                    assert(post.pages@[q].data@[j] == pre.pages@[q].data@[j]);
                    if pre.active_at(q, j) {
                        assert(j < pre.used_of(q));
                        assert(pre.pages@[q].meta@[j].spec_index() == j);
                    }
                } else {
                    assert(post.pages@[q] == pre.pages@[q]);
                }
            }
            assert forall|q: int| 0 <= q < post.pages@.len() implies (
            #[trigger] post.pages@[q]).wf() by {
                if q != kp {
                    assert(post.pages@[q] == pre.pages@[q]);
                }
            }
            assert forall|q: int|
                0 <= q < post.pages@.len() - 1 implies (#[trigger] post.pages@[q]).used
                == PAGE_SIZE by {
                if q != kp {
                    assert(post.pages@[q] == pre.pages@[q]);
                }
                assert(pre.pages@[q].used == PAGE_SIZE);
            }
            assert forall|j: int| 0 <= j < post.free_list@.len() implies post.free_ok(
                #[trigger] post.free_list@[j],
            ) by {
                let e = post.free_list@[j];
                e.lemma_fields_in_range();
                let ep = e.spec_page() as int;
                let ei = e.spec_slot() as int;
                if j < pre.free_list@.len() {
                    assert(e == pre.free_list@[j]);
                    assert(pre.free_ok(pre.free_list@[j]));
                    if ep == kp && ei == ki {
                        assert(!pre.active_at(kp, ki));
                        assert(false);
                    }
                    if ep == kp {
                        assert(post.pages@[ep].meta@[ei] == pre.pages@[ep].meta@[ei]);
                    } else {
                        assert(post.pages@[ep] == pre.pages@[ep]);
                    }
                } else {
                    assert(e == k.index);
                    assert(ep == kp && ei == ki);
                }
            }
            assert forall|j1: int, j2: int|
                0 <= j1 < j2 < post.free_list@.len() implies post.free_list@[j1]
                != post.free_list@[j2] by {
                if j2 < pre.free_list@.len() {
                    assert(pre.free_list@[j1] != pre.free_list@[j2]);
                } else if post.free_list@.len() > pre.free_list@.len() {
                    let e = pre.free_list@[j1];
                    assert(pre.free_ok(pre.free_list@[j1]));
                    if e == k.index {
                        assert(!pre.active_at(e.spec_page() as int, e.spec_slot() as int));
                        assert(false);
                    }
                }
            }
            assert(post.wf());
            assert(Self::remove_effect(pre, post, k));
        }
    }
}

/// Round trip: immediately after an insertion, the key it returned reads
/// back exactly the inserted value.
pub proof fn lemma_insert_round_trip<T>(pre: Slotmap<T>, post: Slotmap<T>, k: Key<T>, v: T)
    requires
        Slotmap::insert_effect(pre, post, k, v),
    ensures
        post.spec_live(k),
        post.spec_get(k) == Some(v),
{
}

/// A key live before an insertion stays live across it, with its value
/// unchanged: what a key reads back persists until that key is removed or
/// written through.
pub proof fn lemma_insert_preserves_live_keys<T>(
    pre: Slotmap<T>,
    post: Slotmap<T>,
    k: Key<T>,
    v: T,
    k2: Key<T>,
)
    requires
        pre.wf(),
        Slotmap::insert_effect(pre, post, k, v),
        pre.spec_live(k2),
    ensures
        post.spec_live(k2),
        post.spec_get(k2) == pre.spec_get(k2),
{
    k2.lemma_fields_in_range();
    let p2 = k2.spec_page() as int;
    let i2 = k2.spec_slot() as int;
    let kp = k.spec_page() as int;
    let ki = k.spec_slot() as int;
    assert(pre.pages@[p2].wf());
    assert(i2 < pre.used_of(p2));
    if p2 == kp && i2 == ki {
        assert(pre.claimed(kp, ki));
        assert(!pre.active_at(kp, ki));
        assert(false);
    }
    assert(Slotmap::slot_untouched(pre, post, p2, i2));
}

/// Mutation visibility: after a write through a mutable borrow, lookups with
/// the same key return the newly written value.
pub proof fn lemma_mutation_visible<T>(pre: Slotmap<T>, post: Slotmap<T>, k: Key<T>, v2: T)
    requires
        Slotmap::update_effect(pre, post, k, v2),
    ensures
        post.spec_get(k) == Some(v2),
{
}

/// Writing through one key leaves every live key of any other slot unchanged.
pub proof fn lemma_update_preserves_other_keys<T>(
    pre: Slotmap<T>,
    post: Slotmap<T>,
    k: Key<T>,
    v2: T,
    k2: Key<T>,
)
    requires
        pre.wf(),
        Slotmap::update_effect(pre, post, k, v2),
        pre.spec_live(k2),
        k2.spec_page() != k.spec_page() || k2.spec_slot() != k.spec_slot(),
    ensures
        post.spec_live(k2),
        post.spec_get(k2) == pre.spec_get(k2),
{
    k2.lemma_fields_in_range();
    let p2 = k2.spec_page() as int;
    let i2 = k2.spec_slot() as int;
    assert(post.gen_at(p2, i2) == pre.gen_at(p2, i2));
    assert(post.active_at(p2, i2) == pre.active_at(p2, i2));
    assert(post.value_at(p2, i2) == pre.value_at(p2, i2));
}

/// Removing one key leaves every live key of any other slot unchanged.
pub proof fn lemma_remove_preserves_other_keys<T>(
    pre: Slotmap<T>,
    post: Slotmap<T>,
    k: Key<T>,
    k2: Key<T>,
)
    requires
        pre.wf(),
        Slotmap::remove_effect(pre, post, k),
        pre.spec_live(k2),
        k2.spec_page() != k.spec_page() || k2.spec_slot() != k.spec_slot(),
    ensures
        post.spec_live(k2),
        post.spec_get(k2) == pre.spec_get(k2),
{
    k2.lemma_fields_in_range();
    let p2 = k2.spec_page() as int;
    let i2 = k2.spec_slot() as int;
    assert(Slotmap::slot_untouched(pre, post, p2, i2));
}

/// Staleness: after removing a live key, lookups with it fail, and they keep
/// failing even if the same slot is later reused by an insertion — whose new
/// key necessarily differs from the removed one.
pub proof fn lemma_removed_key_stays_stale<T>(
    pre: Slotmap<T>,
    mid: Slotmap<T>,
    post: Slotmap<T>,
    k: Key<T>,
    k2: Key<T>,
    v: T,
)
    requires
        pre.wf(),
        pre.spec_live(k),
        Slotmap::remove_effect(pre, mid, k),
        Slotmap::insert_effect(mid, post, k2, v),
    ensures
        !mid.spec_has(k),
        mid.spec_get(k) is None,
        !post.spec_has(k),
        post.spec_get(k) is None,
        k2 != k,
{
    k.lemma_fields_in_range();
    k2.lemma_fields_in_range();
    let kp = k.spec_page() as int;
    let ki = k.spec_slot() as int;
    let g = pre.gen_at(kp, ki);
    assert(next_generation(g) != g);
    assert(!mid.spec_has(k));
    assert(pre.pages@[kp].wf());
    assert(ki < pre.used_of(kp));
    assert(mid.used_of(kp) == pre.used_of(kp));
    let tp = k2.spec_page() as int;
    let ti = k2.spec_slot() as int;
    if tp == kp && ti == ki {
        assert(mid.claimed(kp, ki));
        assert(k2.spec_gen() == mid.gen_at(kp, ki));
        assert(post.gen_at(kp, ki) == k2.spec_gen());
        assert(!post.spec_has(k));
    } else {
        assert(Slotmap::slot_untouched(mid, post, kp, ki));
        assert(!post.spec_has(k));
        if k2 == k {
            assert(tp == kp && ti == ki);
            assert(false);
        }
    }
}

/// The sentinel generation never validates a live slot: a key carrying it —
/// the default key among them — always fails lookup.
pub proof fn lemma_sentinel_never_live<T>(m: Slotmap<T>, k: Key<T>)
    requires
        m.wf(),
        k.spec_gen() == INVALID_GENERATION,
    ensures
        !m.spec_live(k),
        m.spec_get(k) is None,
{
    k.lemma_fields_in_range();
    if m.spec_has(k) {
        let kp = k.spec_page() as int;
        let ki = k.spec_slot() as int;
        assert(m.pages@[kp].wf());
        assert(m.pages@[kp].meta@[ki].spec_generation() == INVALID_GENERATION);
        assert(!m.pages@[kp].meta@[ki].spec_active());
    }
}

impl<T> Default for Slotmap<T> {
    /// Same as `Slotmap::new`.
    fn default() -> (m: Slotmap<T>)
        ensures
            m.wf(),
            m.page_count() == 0,
            m.free_count() == 0,
    {
        Slotmap::new()
    }
}

} // verus!
