//! The first-fit linked-list allocator. Free regions are kept in list order,
//! head first; an allocation takes the first region that fits and gives the
//! tail of it back when that tail can hold a list node of its own; a smaller
//! tail goes with the block and stays out of the list.
use vstd::prelude::*;
use crate::layout::{
    align_up, align_up_spec, disjoint, is_pow2, lemma_align_up, lemma_mod_of_multiple,
    lemma_pow2_8, lemma_pow2_divides, Layout, ISIZE_MAX,
};

verus! {

/// The bytes that a free-list node takes inside the region it describes.
pub const NODE_SIZE: usize = 16;

/// The alignment that a free-list node needs.
pub const NODE_ALIGN: usize = 8;

/// A free region of the heap: `size` bytes from `start`.
#[derive(Clone, Copy, Debug, PartialEq, Eq, Structural)]
pub struct ListNode {
    pub start: usize,
    pub size: usize,
}

impl ListNode {
    pub open spec fn end(&self) -> int {
        self.start + self.size
    }

    /// A node that describes `size` bytes from `start`.
    pub fn new(start: usize, size: usize) -> (r: ListNode)
        ensures
            r == (ListNode { start, size }),
    {
        ListNode { start, size }
    }

    pub fn start_addr(&self) -> (r: usize)
        ensures
            r == self.start,
    {
        self.start
    }

    /// The first address past the region.
    pub fn end_addr(&self) -> (r: usize)
        requires
            self.end() <= usize::MAX,
        ensures
            r == self.end(),
    {
        self.start + self.size
    }
}

/// Where an allocation aligned to `align` would start inside `region`.
pub open spec fn fit_start(region: ListNode, align: int) -> int {
    align_up_spec(region.start as int, align)
}

/// An allocation of `size` bytes aligned to `align` fits in `region`.
pub open spec fn fits(region: ListNode, size: int, align: int) -> bool {
    fit_start(region, align) + size <= region.end()
}

/// The request that the allocator serves for `layout`: the alignment raised
/// to a node's, the size rounded up to that alignment and to at least a
/// node's size. `None` where the rounded size would not fit in an `isize`.
pub open spec fn size_align_spec(layout: Layout) -> Option<(int, int)> {
    let align = if layout.align >= NODE_ALIGN { layout.align as int } else { NODE_ALIGN as int };
    if layout.size + align - 1 > ISIZE_MAX {
        None
    } else {
        let padded = align_up_spec(layout.size as int, align);
        Some((if padded >= NODE_SIZE { padded } else { NODE_SIZE as int }, align))
    }
}

/// The index of the first region in `regions` where the request fits.
pub open spec fn is_first_fit(regions: Seq<ListNode>, i: int, size: int, align: int) -> bool {
    &&& 0 <= i < regions.len()
    &&& fits(regions[i], size, align)
    &&& forall|j: int| 0 <= j < i ==> !fits(#[trigger] regions[j], size, align)
}

/// No region of `regions` fits the request.
pub open spec fn none_fits(regions: Seq<ListNode>, size: int, align: int) -> bool {
    forall|j: int| 0 <= j < regions.len() ==> !fits(#[trigger] regions[j], size, align)
}

/// The tail of `region` behind `size` bytes at `start` can hold a node of its
/// own, so it is split off and stays free.
pub open spec fn tail_splits(region: ListNode, start: int, size: int) -> bool {
    region.end() - (start + size) >= NODE_SIZE
}

/// The bytes that the block at `start` takes out of `region` for a request of
/// `size` bytes: the request alone where the tail is split off, else the
/// request with the tail absorbed, up to the region's end.
pub open spec fn taken_size(region: ListNode, start: int, size: int) -> int {
    if tail_splits(region, start, size) {
        size
    } else {
        region.end() - start
    }
}

/// The free list after a request of `size` bytes took region `i` of
/// `regions` at `start`: the region leaves the list, and the tail behind the
/// allocation comes back at the head where it can hold a node.
pub open spec fn list_after_alloc(regions: Seq<ListNode>, i: int, start: int, size: int) -> Seq<ListNode> {
    let end = start + size;
    let rest = regions.remove(i);
    if tail_splits(regions[i], start, size) {
        seq![ListNode { start: end as usize, size: (regions[i].end() - end) as usize }] + rest
    } else {
        rest
    }
}

/// `f` is `o` after the request `(size, align)` was served at `start` from
/// the first region where it fits, which holds the whole block.
pub open spec fn took(o: LinkedListModel, f: LinkedListModel, start: int, size: int, align: int) -> bool {
    &&& f.heap_start == o.heap_start
    &&& f.heap_end == o.heap_end
    &&& exists|i: int| {
        &&& is_first_fit(o.regions, i, size, align)
        &&& start == fit_start(o.regions[i], align)
        &&& o.regions[i].start <= start
        &&& start + size <= o.regions[i].end()
        &&& f.regions == list_after_alloc(o.regions, i, start, size)
        &&& f.live == o.live.insert(start, taken_size(o.regions[i], start, size))
    }
}

/// `f` is `m` after the block at `start` was freed with a request of `size`
/// bytes: those bytes head the list; an absorbed tail stays out of it.
pub open spec fn gave_back(m: LinkedListModel, f: LinkedListModel, start: int, size: int) -> bool {
    &&& f.regions == seq![ListNode { start: start as usize, size: size as usize }] + m.regions
    &&& f.live == m.live.remove(start)
    &&& f.heap_start == m.heap_start
    &&& f.heap_end == m.heap_end
}

/// What a linked-list allocator is: its free list, head first; the blocks
/// that it handed out and that were not freed yet, each by its start with
/// the bytes it takes; and the bounds of the heap it was given.
pub struct LinkedListModel {
    pub regions: Seq<ListNode>,
    pub live: Map<int, int>,
    pub heap_start: int,
    pub heap_end: int,
}

impl LinkedListModel {
    /// Every free region can hold a node; free regions and live blocks lie
    /// inside the heap and never overlap one another.
    pub open spec fn wf(&self) -> bool {
        &&& 0 <= self.heap_start <= self.heap_end <= usize::MAX
        &&& forall|i: int| 0 <= i < self.regions.len() ==> {
            &&& (#[trigger] self.regions[i]).start % NODE_ALIGN == 0
            &&& self.regions[i].size >= NODE_SIZE
            &&& self.heap_start <= self.regions[i].start
            &&& self.regions[i].end() <= self.heap_end
        }
        &&& forall|i: int, j: int|
            0 <= i < self.regions.len() && 0 <= j < self.regions.len() && i != j ==> disjoint(
                #[trigger] self.regions[i].start as int,
                self.regions[i].size as int,
                #[trigger] self.regions[j].start as int,
                self.regions[j].size as int,
            )
        &&& forall|a: int| #[trigger] self.live.contains_key(a) ==> {
            &&& a % NODE_ALIGN as int == 0
            &&& self.live[a] >= NODE_SIZE
            &&& self.heap_start <= a
            &&& a + self.live[a] <= self.heap_end
        }
        &&& forall|a: int, b: int|
            #[trigger] self.live.contains_key(a) && #[trigger] self.live.contains_key(b) && a != b
                ==> disjoint(a, self.live[a], b, self.live[b])
        &&& forall|a: int, i: int|
            #[trigger] self.live.contains_key(a) && 0 <= i < self.regions.len() ==> disjoint(
                a,
                self.live[a],
                #[trigger] self.regions[i].start as int,
                self.regions[i].size as int,
            )
    }

    /// A live block starts at `a` and takes at least `size` bytes.
    pub open spec fn holds(&self, a: int, size: int) -> bool {
        self.live.contains_key(a) && self.live[a] >= size
    }

    /// `[start, start + size)` lies in the heap and overlaps neither a free
    /// region nor a live block.
    pub open spec fn is_untouched(&self, start: int, size: int) -> bool {
        &&& self.heap_start <= start
        &&& start + size <= self.heap_end
        &&& forall|i: int|
            0 <= i < self.regions.len() ==> disjoint(
                start,
                size,
                #[trigger] self.regions[i].start as int,
                self.regions[i].size as int,
            )
        &&& forall|a: int| #[trigger] self.live.contains_key(a) ==> disjoint(start, size, a, self.live[a])
    }
}

/// Freeing a block and asking again for the same layout hands back the same
/// address at once: the freed bytes head the list and fit the request
/// exactly, and taking them leaves the free list as it was before the free.
pub proof fn lemma_linked_list_round_trip(
    before: LinkedListModel,
    allocated: LinkedListModel,
    freed: LinkedListModel,
    layout: Layout,
    start: int,
)
    requires
        before.wf(),
        allocated.wf(),
        layout.wf(),
        size_align_spec(layout).is_some(),
        took(before, allocated, start, size_align_spec(layout).unwrap().0, size_align_spec(layout).unwrap().1),
        gave_back(allocated, freed, start, size_align_spec(layout).unwrap().0),
    ensures
        ({
            let (size, align) = size_align_spec(layout).unwrap();
            &&& is_first_fit(freed.regions, 0, size, align)
            &&& fit_start(freed.regions[0], align) == start
            &&& forall|again: LinkedListModel, s2: int| took(freed, again, s2, size, align)
                ==> s2 == start && again.regions == allocated.regions
                && again.live == allocated.live.insert(start, size)
        }),
{
    let (size, align) = size_align_spec(layout).unwrap();
    lemma_size_align(layout);
    let i = choose|i: int| {
        &&& is_first_fit(before.regions, i, size, align)
        &&& start == fit_start(before.regions[i], align)
        &&& before.regions[i].start <= start
        &&& start + size <= before.regions[i].end()
        &&& allocated.regions == list_after_alloc(before.regions, i, start, size)
        &&& allocated.live == before.live.insert(start, taken_size(before.regions[i], start, size))
    };
    lemma_align_up(before.regions[i].start as int, align);
    assert(allocated.live.contains_key(start));
    let node = freed.regions[0];
    assert(node.start == start && node.size == size);
    lemma_align_up(start, align);
    assert(fit_start(node, align) == start);
    assert(is_first_fit(freed.regions, 0, size, align));
    assert forall|again: LinkedListModel, s2: int| took(freed, again, s2, size, align)
        implies s2 == start && again.regions == allocated.regions
            && again.live == allocated.live.insert(start, size) by {
        let j = choose|j: int| {
            &&& is_first_fit(freed.regions, j, size, align)
            &&& s2 == fit_start(freed.regions[j], align)
            &&& freed.regions[j].start <= s2
            &&& s2 + size <= freed.regions[j].end()
            &&& again.regions == list_after_alloc(freed.regions, j, s2, size)
            &&& again.live == freed.live.insert(s2, taken_size(freed.regions[j], s2, size))
        };
        if j > 0 {
            assert(!fits(freed.regions[0], size, align));
        }
        assert(again.regions =~= allocated.regions);
        assert(again.live =~= allocated.live.insert(start, size));
    }
}

pub struct LinkedListAllocator {
    regions: Vec<ListNode>,
    live: Ghost<Map<int, int>>,
    heap_start: Ghost<int>,
    heap_end: Ghost<int>,
}

impl View for LinkedListAllocator {
    type V = LinkedListModel;

    closed spec fn view(&self) -> LinkedListModel {
        LinkedListModel {
            regions: self.regions@,
            live: self.live@,
            heap_start: self.heap_start@,
            heap_end: self.heap_end@,
        }
    }
}

impl LinkedListAllocator {
    /// An allocator with an empty heap.
    pub fn new() -> (r: Self)
        ensures
            r@.wf(),
            r@.regions.len() == 0,
            r@.live.is_empty(),
            r@.heap_start == 0,
            r@.heap_end == 0,
    {
        LinkedListAllocator {
            regions: Vec::new(),
            live: Ghost(Map::empty()),
            heap_start: Ghost(0),
            heap_end: Ghost(0),
        }
    }

    /// Hands the allocator the heap `[heap_start, heap_start + heap_size)`,
    /// which becomes its one free region.
    pub fn init(&mut self, heap_start: usize, heap_size: usize)
        requires
            old(self)@.regions.len() == 0,
            old(self)@.live.is_empty(),
            heap_start % NODE_ALIGN == 0,
            heap_size >= NODE_SIZE,
            heap_start + heap_size <= usize::MAX,
        ensures
            final(self)@.wf(),
            final(self)@.regions == seq![ListNode { start: heap_start, size: heap_size }],
            final(self)@.live.is_empty(),
            final(self)@.heap_start == heap_start,
            final(self)@.heap_end == heap_start + heap_size,
    {
        self.heap_start = Ghost(heap_start as int);
        self.heap_end = Ghost(heap_start + heap_size);
        proof {
            assert(self@.wf());
            assert(self@.live =~= Map::empty());
        }
        self.add_free_region(heap_start, heap_size);
        proof {
            assert(self@.regions =~= seq![ListNode { start: heap_start, size: heap_size }]);
        }
    }

    /// Puts `[addr, addr + size)` at the head of the free list.
    fn add_free_region(&mut self, addr: usize, size: usize)
        requires
            old(self)@.wf(),
            addr % NODE_ALIGN == 0,
            size >= NODE_SIZE,
            old(self)@.is_untouched(addr as int, size as int),
        ensures
            final(self)@.wf(),
            final(self)@.regions == seq![ListNode { start: addr, size }] + old(self)@.regions,
            final(self)@.live == old(self)@.live,
            final(self)@.heap_start == old(self)@.heap_start,
            final(self)@.heap_end == old(self)@.heap_end,
    {
        let node = ListNode::new(addr, size);
        self.regions.insert(0, node);
        proof {
            let m = self@;
            let o = old(self)@;
            assert(m.regions =~= seq![node] + o.regions);
            assert(m.live == o.live);
            assert forall|i: int| 0 <= i < m.regions.len() implies m.regions[i] == if i == 0 {
                node
            } else {
                o.regions[i - 1]
            } by {}
            assert forall|i: int, j: int|
                0 <= i < m.regions.len() && 0 <= j < m.regions.len() && i != j implies disjoint(
                #[trigger] m.regions[i].start as int,
                m.regions[i].size as int,
                #[trigger] m.regions[j].start as int,
                m.regions[j].size as int,
            ) by {
                if i == 0 {
                    assert(m.regions[j] == o.regions[j - 1]);
                } else if j == 0 {
                    assert(m.regions[i] == o.regions[i - 1]);
                } else {
                    assert(m.regions[i] == o.regions[i - 1]);
                    assert(m.regions[j] == o.regions[j - 1]);
                }
            }
            assert forall|a: int, i: int|
                #[trigger] m.live.contains_key(a) && 0 <= i < m.regions.len() implies disjoint(
                a,
                m.live[a],
                #[trigger] m.regions[i].start as int,
                m.regions[i].size as int,
            ) by {
                assert(o.live.contains_key(a));
                if i > 0 {
                    assert(m.regions[i] == o.regions[i - 1]);
                } else {
                    assert(m.regions[i] == node);
                    assert(disjoint(addr as int, size as int, a, o.live[a]));
                }
            }
            assert forall|i: int| 0 <= i < m.regions.len() implies {
                &&& (#[trigger] m.regions[i]).start % NODE_ALIGN == 0
                &&& m.regions[i].size >= NODE_SIZE
                &&& m.heap_start <= m.regions[i].start
                &&& m.regions[i].end() <= m.heap_end
            } by {
                if i > 0 {
                    assert(m.regions[i] == o.regions[i - 1]);
                }
            }
        }
    }

    /// Removes the first region where the request fits, and returns it with
    /// the address where the allocation starts in it.
    fn find_region(&mut self, size: usize, align: usize) -> (r: Option<(ListNode, usize)>)
        requires
            old(self)@.wf(),
            align > 0,
        ensures
            final(self)@.live == old(self)@.live,
            final(self)@.heap_start == old(self)@.heap_start,
            final(self)@.heap_end == old(self)@.heap_end,
            r.is_none() ==> none_fits(old(self)@.regions, size as int, align as int),
            r.is_none() ==> final(self)@.regions == old(self)@.regions,
            r.is_some() ==> exists|i: int|
                is_first_fit(old(self)@.regions, i, size as int, align as int) && r.unwrap().0
                    == old(self)@.regions[i] && final(self)@.regions == old(self)@.regions.remove(i)
                    && r.unwrap().1 == fit_start(old(self)@.regions[i], align as int),
    {
        let mut i: usize = 0;
        while i < self.regions.len()
            invariant
                self@ == old(self)@,
                old(self)@.wf(),
                align > 0,
                0 <= i <= self.regions.len(),
                forall|j: int| 0 <= j < i ==> !fits(#[trigger] self@.regions[j], size as int, align as int),
            decreases self.regions.len() - i,
        {
            let region = self.regions[i];
            proof {
                assert(self@.regions[i as int] == region);
            }
            match Self::alloc_from_region(&region, size, align) {
                Ok(alloc_start) => {
                    let node = self.regions.remove(i);
                    return Some((node, alloc_start));
                },
                Err(()) => {},
            }
            i = i + 1;
        }
        None
    }

    /// The start of an allocation of `size` bytes aligned to `align` in
    /// `region`, or `Err` where it does not fit.
    fn alloc_from_region(region: &ListNode, size: usize, align: usize) -> (r: Result<usize, ()>)
        requires
            align > 0,
            region.end() <= usize::MAX,
        ensures
            r.is_ok() <==> fits(*region, size as int, align as int),
            r.is_ok() ==> r.unwrap() == fit_start(*region, align as int),
    {
        let alloc_start = match align_up(region.start_addr(), align) {
            Some(a) => a,
            None => return Err(()),
        };
        if alloc_start > usize::MAX - size {
            return Err(());
        }
        let alloc_end = alloc_start + size;
        if alloc_end > region.end_addr() {
            Err(())
        } else {
            Ok(alloc_start)
        }
    }

    /// The request served for `layout`; see `size_align_spec`.
    pub fn size_align(layout: Layout) -> (r: Option<(usize, usize)>)
        requires
            layout.wf(),
        ensures
            r.is_some() == size_align_spec(layout).is_some(),
            r.is_some() ==> r.unwrap().0 == size_align_spec(layout).unwrap().0
                && r.unwrap().1 == size_align_spec(layout).unwrap().1,
    {
        let align = if layout.align >= NODE_ALIGN {
            layout.align
        } else {
            NODE_ALIGN
        };
        if align - 1 > ISIZE_MAX || layout.size > ISIZE_MAX - (align - 1) {
            return None;
        }
        let padded = match align_up(layout.size, align) {
            Some(p) => p,
            None => return None,
        };
        proof {
            lemma_align_up(layout.size as int, align as int);
        }
        let size = if padded >= NODE_SIZE {
            padded
        } else {
            NODE_SIZE
        };
        Some((size, align))
    }

    /// Allocates the request that `layout` comes to (see `size_align_spec`)
    /// from the first free region where it fits, or returns `None` where no
    /// region fits it. A tail too small for a node is absorbed into the block.
    pub fn allocate(&mut self, layout: Layout) -> (r: Option<usize>)
        requires
            old(self)@.wf(),
            layout.wf(),
        ensures
            final(self)@.wf(),
            r.is_none() <==> (size_align_spec(layout).is_none() || none_fits(
                old(self)@.regions,
                size_align_spec(layout).unwrap().0,
                size_align_spec(layout).unwrap().1,
            )),
            r.is_none() ==> final(self)@ == old(self)@,
            r.is_some() ==> ({
                let (size, align) = size_align_spec(layout).unwrap();
                let start = r.unwrap() as int;
                &&& start % layout.align as int == 0
                &&& old(self)@.heap_start <= start
                &&& start + size <= old(self)@.heap_end
                &&& size >= layout.size
                &&& forall|a: int| #[trigger] old(self)@.live.contains_key(a)
                    ==> disjoint(start, size, a, old(self)@.live[a])
                &&& took(old(self)@, final(self)@, start, size, align)
            }),
    {
        let (size, align) = match Self::size_align(layout) {
            Some(p) => p,
            None => return None,
        };
        proof {
            lemma_size_align(layout);
        }
        let ghost o = self@;
        match self.find_region(size, align) {
            Some((region, alloc_start)) => {
                let ghost i = choose|i: int|
                    is_first_fit(o.regions, i, size as int, align as int) && region == o.regions[i]
                        && self@.regions == o.regions.remove(i) && alloc_start == fit_start(
                        o.regions[i],
                        align as int,
                    );
                proof {
                    lemma_align_up(region.start as int, align as int);
                    lemma_take_region(o, i, alloc_start as int, size as int, align as int, layout);
                }
                let alloc_end = alloc_start + size;
                let excess = region.end_addr() - alloc_end;
                if excess >= NODE_SIZE {
                    self.live = Ghost(self.live@.insert(alloc_start as int, size as int));
                    self.add_free_region(alloc_end, excess);
                } else {
                    self.live = Ghost(self.live@.insert(alloc_start as int, region.end() - alloc_start));
                }
                proof {
                    assert(self@.regions =~= list_after_alloc(o.regions, i, alloc_start as int, size as int));
                }
                Some(alloc_start)
            },
            None => None,
        }
    }

    /// Frees a block: the bytes of the request it served go back to the head
    /// of the free list, unmerged with their neighbours; a tail that the
    /// block absorbed stays out of the list.
    pub fn deallocate(&mut self, ptr: usize, layout: Layout)
        requires
            old(self)@.wf(),
            layout.wf(),
            size_align_spec(layout).is_some(),
            old(self)@.live.contains_key(ptr as int),
            old(self)@.live[ptr as int] >= size_align_spec(layout).unwrap().0,
        ensures
            final(self)@.wf(),
            gave_back(old(self)@, final(self)@, ptr as int, size_align_spec(layout).unwrap().0),
    {
        if let Some((size, _)) = Self::size_align(layout) {
            let ghost o = self@;
            let ghost p = ptr as int;
            self.live = Ghost(self.live@.remove(p));
            proof {
                lemma_size_align(layout);
                assert(self@.regions == o.regions);
                assert(self@.live == o.live.remove(p));
                assert(o.live.contains_key(p));
                assert forall|a: int| #[trigger] self@.live.contains_key(a) implies disjoint(
                    p,
                    size as int,
                    a,
                    self@.live[a],
                ) by {
                    assert(o.live.contains_key(a) && a != p);
                }
                assert forall|i: int| 0 <= i < self@.regions.len() implies disjoint(
                    p,
                    size as int,
                    #[trigger] self@.regions[i].start as int,
                    self@.regions[i].size as int,
                ) by {
                    assert(o.live.contains_key(p));
                }
            }
            self.add_free_region(ptr, size);
        }
    }

    /// The free list, head first.
    pub fn free_regions(&self) -> (r: Vec<ListNode>)
        ensures
            r@ == self@.regions,
    {
        self.regions.clone()
    }
}

/// Facts about the request that `size_align` computes.
pub proof fn lemma_size_align(layout: Layout)
    requires
        layout.wf(),
        size_align_spec(layout).is_some(),
    ensures
        ({
            let (size, align) = size_align_spec(layout).unwrap();
            &&& is_pow2(align)
            &&& align >= NODE_ALIGN
            &&& align >= layout.align
            &&& align % layout.align as int == 0
            &&& size % NODE_ALIGN as int == 0
            &&& size >= NODE_SIZE
            &&& size >= layout.size
            &&& size <= usize::MAX
        }),
{
    let (size, align) = size_align_spec(layout).unwrap();
    lemma_pow2_8();
    lemma_align_up(layout.size as int, align);
    if layout.align >= NODE_ALIGN {
        lemma_pow2_divides(8, align);
    } else {
        lemma_pow2_divides(layout.align as int, 8);
    }
    lemma_pow2_divides(layout.align as int, align);
    let padded = align_up_spec(layout.size as int, align);
    lemma_pow2_divides(8, align);
    lemma_mod_of_multiple(padded, 8, align);
}

/// Taking region `i` at `start` for `size` bytes leaves the allocator
/// well formed once the block, with any absorbed tail, is live and a tail
/// that can hold a node is free again.
proof fn lemma_take_region(o: LinkedListModel, i: int, start: int, size: int, align: int, layout: Layout)
    requires
        o.wf(),
        layout.wf(),
        size_align_spec(layout) == Some((size, align)),
        is_first_fit(o.regions, i, size, align),
        start == fit_start(o.regions[i], align),
    ensures
        start % NODE_ALIGN as int == 0,
        start % layout.align as int == 0,
        (start + size) % NODE_ALIGN as int == 0,
        o.regions[i].start <= start,
        start + size <= o.regions[i].end(),
        ({
            let b = taken_size(o.regions[i], start, size);
            let rest = LinkedListModel { regions: o.regions.remove(i), ..o };
            let taken = LinkedListModel { regions: o.regions.remove(i), live: o.live.insert(start, b), ..o };
            &&& rest.wf()
            &&& rest.is_untouched(start, b)
            &&& taken.wf()
            &&& tail_splits(o.regions[i], start, size) ==> taken.is_untouched(start + size, o.regions[i].end() - (start + size))
        }),
{
    lemma_size_align(layout);
    lemma_pow2_8();
    let r = o.regions[i];
    lemma_align_up(r.start as int, align);
    lemma_pow2_divides(8, align);
    lemma_mod_of_multiple(start, 8, align);
    lemma_mod_of_multiple(start, layout.align as int, align);
    assert((start + size) % 8 == 0) by (nonlinear_arith)
        requires start % 8 == 0, size % 8 == 0;
    let b = taken_size(r, start, size);
    let rest = LinkedListModel { regions: o.regions.remove(i), ..o };
    let taken = LinkedListModel { regions: o.regions.remove(i), live: o.live.insert(start, b), ..o };
    assert(r.start <= start && start + b <= r.end() && b >= size);
    assert forall|k: int| 0 <= k < rest.regions.len() implies rest.regions[k] == o.regions[if k < i { k } else { k + 1 }] by {}
    assert forall|k: int| 0 <= k < rest.regions.len() implies disjoint(
        start,
        b,
        #[trigger] rest.regions[k].start as int,
        rest.regions[k].size as int,
    ) by {
        let kk = if k < i { k } else { k + 1 };
        assert(rest.regions[k] == o.regions[kk]);
        assert(disjoint(o.regions[i].start as int, o.regions[i].size as int, o.regions[kk].start as int, o.regions[kk].size as int));
    }
    assert forall|a: int| #[trigger] rest.live.contains_key(a) implies disjoint(start, b, a, rest.live[a]) by {
        assert(disjoint(a, o.live[a], o.regions[i].start as int, o.regions[i].size as int));
    }
    assert forall|k1: int, k2: int|
        0 <= k1 < rest.regions.len() && 0 <= k2 < rest.regions.len() && k1 != k2 implies disjoint(
        #[trigger] rest.regions[k1].start as int,
        rest.regions[k1].size as int,
        #[trigger] rest.regions[k2].start as int,
        rest.regions[k2].size as int,
    ) by {
        let j1 = if k1 < i { k1 } else { k1 + 1 };
        let j2 = if k2 < i { k2 } else { k2 + 1 };
        assert(rest.regions[k1] == o.regions[j1]);
        assert(rest.regions[k2] == o.regions[j2]);
    }
    assert forall|a: int, k: int|
        #[trigger] rest.live.contains_key(a) && 0 <= k < rest.regions.len() implies disjoint(
        a,
        rest.live[a],
        #[trigger] rest.regions[k].start as int,
        rest.regions[k].size as int,
    ) by {
        let kk = if k < i { k } else { k + 1 };
        assert(rest.regions[k] == o.regions[kk]);
    }
    assert(rest.wf());
    assert(!o.live.contains_key(start)) by {
        if o.live.contains_key(start) {
            assert(disjoint(start, o.live[start], o.regions[i].start as int, o.regions[i].size as int));
        }
    }
    assert forall|a: int, k: int|
        #[trigger] taken.live.contains_key(a) && 0 <= k < taken.regions.len() implies disjoint(
        a,
        taken.live[a],
        #[trigger] taken.regions[k].start as int,
        taken.regions[k].size as int,
    ) by {
        if a != start {
            assert(rest.live.contains_key(a));
        }
    }
    assert forall|a: int, c: int|
        #[trigger] taken.live.contains_key(a) && #[trigger] taken.live.contains_key(c) && a != c
            implies disjoint(a, taken.live[a], c, taken.live[c]) by {
        if a == start {
            assert(rest.live.contains_key(c));
        } else if c == start {
            assert(rest.live.contains_key(a));
        } else {
            assert(o.live.contains_key(a) && o.live.contains_key(c));
        }
    }
    assert forall|a: int| #[trigger] taken.live.contains_key(a) implies {
        &&& a % NODE_ALIGN as int == 0
        &&& taken.live[a] >= NODE_SIZE
        &&& taken.heap_start <= a
        &&& a + taken.live[a] <= taken.heap_end
    } by {
        if a != start {
            assert(o.live.contains_key(a));
        }
    }
    assert(taken.wf());
    if tail_splits(r, start, size) {
        let e = start + size;
        let t = r.end() - e;
        assert(b == size);
        assert forall|k: int| 0 <= k < taken.regions.len() implies disjoint(
            e,
            t,
            #[trigger] taken.regions[k].start as int,
            taken.regions[k].size as int,
        ) by {
            let kk = if k < i { k } else { k + 1 };
            assert(taken.regions[k] == o.regions[kk]);
            assert(disjoint(o.regions[i].start as int, o.regions[i].size as int, o.regions[kk].start as int, o.regions[kk].size as int));
        }
        assert forall|a: int| #[trigger] taken.live.contains_key(a) implies disjoint(e, t, a, taken.live[a]) by {
            if a != start {
                assert(rest.live.contains_key(a));
                assert(disjoint(a, o.live[a], o.regions[i].start as int, o.regions[i].size as int));
            }
        }
    }
}

} // verus!
