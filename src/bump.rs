//! The bump allocator: a cursor that only moves forward, reset when the last
//! live allocation is freed.
use vstd::prelude::*;
use vstd::multiset::Multiset;
use crate::layout::{align_up, align_up_spec, disjoint, lemma_align_up, Layout};

verus! {

/// What a bump allocator is, as plain numbers.
pub struct BumpModel {
    pub heap_start: int,
    pub heap_end: int,
    pub next: int,
    pub allocations: int,
    /// The blocks handed out and not freed yet, as `(start, size)`.
    pub live: Multiset<(int, int)>,
}

pub struct BumpAllocator {
    heap_start: usize,
    heap_end: usize,
    next: usize,
    allocations: usize,
    live: Ghost<Multiset<(int, int)>>,
}

impl View for BumpAllocator {
    type V = BumpModel;

    closed spec fn view(&self) -> BumpModel {
        BumpModel {
            heap_start: self.heap_start as int,
            heap_end: self.heap_end as int,
            next: self.next as int,
            allocations: self.allocations as int,
            live: self.live@,
        }
    }
}

impl BumpModel {
    /// The cursor stays inside the heap, the counter counts the live blocks,
    /// and every live block lies below the cursor.
    pub open spec fn wf(&self) -> bool {
        &&& self.heap_start <= self.next <= self.heap_end
        &&& self.allocations == self.live.len()
        &&& self.allocations == 0 ==> self.next == self.heap_start
        &&& forall|b: (int, int)| #[trigger]
            self.live.count(b) > 0 ==> self.heap_start <= b.0 && b.1 >= 0 && b.0 + b.1
                <= self.next
    }

    /// Where an allocation of `layout` would start.
    pub open spec fn alloc_start(&self, layout: Layout) -> int {
        align_up_spec(self.next, layout.align as int)
    }

    /// Whether an allocation of `layout` fits between the cursor and the heap's end.
    pub open spec fn fits(&self, layout: Layout) -> bool {
        self.alloc_start(layout) + layout.size <= self.heap_end
    }
}

/// Once every allocation is freed, the heap is as good as new: a request
/// fits, and lands at the same address, exactly when it would in a fresh heap
/// of the same bounds.
pub proof fn lemma_bump_reset(used: BumpModel, fresh: BumpModel, layout: Layout)
    requires
        used.wf(),
        fresh.wf(),
        used.allocations == 0,
        fresh.allocations == 0,
        used.heap_start == fresh.heap_start,
        used.heap_end == fresh.heap_end,
    ensures
        used.alloc_start(layout) == fresh.alloc_start(layout),
        used.fits(layout) == fresh.fits(layout),
{
}

impl BumpAllocator {
    /// An allocator over an empty heap.
    pub fn new() -> (r: Self)
        ensures
            r@.wf(),
            r@.heap_start == 0,
            r@.heap_end == 0,
            r@.next == 0,
            r@.allocations == 0,
    {
        BumpAllocator {
            heap_start: 0,
            heap_end: 0,
            next: 0,
            allocations: 0,
            live: Ghost(Multiset::empty()),
        }
    }

    /// Hands the allocator the heap `[heap_start, heap_start + heap_size)`.
    pub fn init(&mut self, heap_start: usize, heap_size: usize)
        requires
            old(self)@.wf(),
            old(self)@.allocations == 0,
            heap_start + heap_size <= usize::MAX,
        ensures
            final(self)@.wf(),
            final(self)@.heap_start == heap_start,
            final(self)@.heap_end == heap_start + heap_size,
            final(self)@.next == heap_start,
            final(self)@.allocations == 0,
    {
        self.heap_start = heap_start;
        self.heap_end = heap_start + heap_size;
        self.next = heap_start;
    }

    /// Allocates a block of `layout` at the cursor rounded up to the
    /// alignment, or returns `None` where it does not fit before the heap's end.
    pub fn allocate(&mut self, layout: Layout) -> (r: Option<usize>)
        requires
            old(self)@.wf(),
            layout.wf(),
        ensures
            final(self)@.wf(),
            final(self)@.heap_start == old(self)@.heap_start,
            final(self)@.heap_end == old(self)@.heap_end,
            r.is_some() <==> (old(self)@.fits(layout) && old(self)@.allocations < usize::MAX),
            r.is_some() ==> {
                &&& r.unwrap() == old(self)@.alloc_start(layout)
                &&& r.unwrap() % layout.align == 0
                &&& old(self)@.heap_start <= r.unwrap()
                &&& r.unwrap() + layout.size <= old(self)@.heap_end
                &&& forall|b: (int, int)| #[trigger] old(self)@.live.count(b) > 0
                    ==> disjoint(r.unwrap() as int, layout.size as int, b.0, b.1)
                &&& final(self)@.next == r.unwrap() + layout.size
                &&& final(self)@.allocations == old(self)@.allocations + 1
                &&& final(self)@.live == old(self)@.live.insert((r.unwrap() as int, layout.size as int))
            },
            r.is_none() ==> final(self)@ == old(self)@,
    {
        proof {
            lemma_align_up(self.next as int, layout.align as int);
        }
        let alloc_start = match align_up(self.next, layout.align) {
            Some(a) => a,
            None => return None,
        };
        if alloc_start > usize::MAX - layout.size {
            return None;
        }
        let alloc_end = alloc_start + layout.size;
        if alloc_end > self.heap_end || self.allocations == usize::MAX {
            None
        } else {
            self.next = alloc_end;
            self.allocations = self.allocations + 1;
            self.live = Ghost(self.live@.insert((alloc_start as int, layout.size as int)));
            Some(alloc_start)
        }
    }

    /// Frees a block. The cursor goes back to the heap's start once no block
    /// is live any more.
    pub fn deallocate(&mut self, ptr: usize, layout: Layout)
        requires
            old(self)@.wf(),
            old(self)@.live.count((ptr as int, layout.size as int)) > 0,
        ensures
            final(self)@.wf(),
            final(self)@.heap_start == old(self)@.heap_start,
            final(self)@.heap_end == old(self)@.heap_end,
            final(self)@.allocations == old(self)@.allocations - 1,
            final(self)@.live == old(self)@.live.remove((ptr as int, layout.size as int)),
            final(self)@.next == if final(self)@.allocations == 0 {
                old(self)@.heap_start
            } else {
                old(self)@.next
            },
    {
        self.allocations = self.allocations - 1;
        self.live = Ghost(self.live@.remove((ptr as int, layout.size as int)));
        if self.allocations == 0 {
            self.next = self.heap_start;
        }
    }

    pub fn heap_start(&self) -> (r: usize)
        ensures
            r == self@.heap_start,
    {
        self.heap_start
    }

    pub fn heap_end(&self) -> (r: usize)
        ensures
            r == self@.heap_end,
    {
        self.heap_end
    }

    /// Where the next allocation would start before alignment.
    pub fn next(&self) -> (r: usize)
        ensures
            r == self@.next,
    {
        self.next
    }

    /// The number of live allocations.
    pub fn allocations(&self) -> (r: usize)
        ensures
            r == self@.allocations,
    {
        self.allocations
    }
}

} // verus!
