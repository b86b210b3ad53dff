//! The fixed-size-block allocator: one free list per power-of-two size class
//! from 8 to 2048 bytes, and a linked-list allocator behind them for fresh
//! blocks and for requests above the largest class.
use vstd::prelude::*;
use crate::layout::{disjoint, is_pow2, lemma_mod_of_multiple, lemma_pow2_8, lemma_pow2_divides, Layout};
use crate::linked_list::{
    gave_back, lemma_size_align, none_fits, size_align_spec, took, LinkedListAllocator,
    LinkedListModel, NODE_ALIGN, NODE_SIZE,
};

verus! {

/// The number of size classes.
pub const NUM_CLASSES: usize = 9;

/// The block size, which is also the alignment, of class `i`: 8, 16, ..., 2048.
pub open spec fn block_size(i: int) -> int
    decreases i,
{
    if i <= 0 {
        8
    } else {
        2 * block_size(i - 1)
    }
}

/// The smallest block that can serve `layout`.
pub open spec fn required_size(layout: Layout) -> int {
    if layout.size >= layout.align {
        layout.size as int
    } else {
        layout.align as int
    }
}

/// The class that serves `layout`: the smallest one whose block size is at
/// least `required_size(layout)`, or `None` where even the largest is too small.
pub open spec fn class_of(layout: Layout) -> Option<int> {
    if required_size(layout) <= block_size(NUM_CLASSES - 1) {
        Some(choose|i: int| 0 <= i < NUM_CLASSES && block_size(i) >= required_size(layout)
            && forall|j: int| 0 <= j < i ==> block_size(j) < required_size(layout))
    } else {
        None
    }
}

/// The layout of the fresh blocks of class `i` drawn from the fallback allocator.
pub open spec fn block_layout(i: int) -> Layout {
    Layout { size: block_size(i) as usize, align: block_size(i) as usize }
}

/// What the fallback allocator lends for a block handed out for `layout`.
pub open spec fn backing_layout(layout: Layout) -> Layout {
    match class_of(layout) {
        Some(i) => block_layout(i),
        None => layout,
    }
}

/// The size of the fallback block behind a block handed out for `layout`.
pub open spec fn backing_size(layout: Layout) -> int {
    size_align_spec(backing_layout(layout)).unwrap().0
}

/// What a fixed-size-block allocator is: the free blocks of each class (the
/// head of each list is its last element), the fallback allocator, and the
/// layout of each block handed out and not freed yet, by address.
pub struct FixedSizeBlockModel {
    pub lists: Seq<Seq<usize>>,
    pub fallback: LinkedListModel,
    pub handed: Map<int, Layout>,
}

impl FixedSizeBlockModel {
    /// Every block, free in a class list or handed out, is a live block of
    /// the fallback allocator; no address is in two places; a block on the
    /// list of class `c`, or handed out for a layout of class `c`, is aligned
    /// to `c`'s block size.
    pub open spec fn wf(&self) -> bool {
        &&& self.lists.len() == NUM_CLASSES
        &&& self.fallback.wf()
        &&& forall|c: int, k: int|
            0 <= c < NUM_CLASSES && 0 <= k < self.lists[c].len() ==> {
                &&& self.fallback.holds(#[trigger] self.lists[c][k] as int, size_align_spec(block_layout(c)).unwrap().0)
                &&& self.lists[c][k] as int % block_size(c) == 0
                &&& !self.handed.contains_key(self.lists[c][k] as int)
            }
        &&& forall|c1: int, k1: int, c2: int, k2: int|
            0 <= c1 < NUM_CLASSES && 0 <= k1 < self.lists[c1].len() && 0 <= c2 < NUM_CLASSES && 0
                <= k2 < self.lists[c2].len() && (c1 != c2 || k1 != k2) ==> #[trigger] self.lists[c1][k1]
                != #[trigger] self.lists[c2][k2]
        &&& forall|a: int| #[trigger] self.handed.contains_key(a) ==> {
            &&& self.handed[a].wf()
            &&& size_align_spec(backing_layout(self.handed[a])).is_some()
            &&& self.fallback.holds(a, backing_size(self.handed[a]))
            &&& a % self.handed[a].align as int == 0
            &&& (class_of(self.handed[a]) matches Some(c) ==> a % block_size(c) == 0)
        }
    }
}

/// `f` is `m` after the fallback allocator was asked for `request` on behalf
/// of a block handed out for `layout`, with result `r`.
pub open spec fn served_by_fallback(
    m: FixedSizeBlockModel,
    f: FixedSizeBlockModel,
    r: Option<usize>,
    request: Layout,
    layout: Layout,
) -> bool {
    &&& f.lists == m.lists
    &&& r.is_none() <==> (size_align_spec(request).is_none() || none_fits(
        m.fallback.regions,
        size_align_spec(request).unwrap().0,
        size_align_spec(request).unwrap().1,
    ))
    &&& r.is_none() ==> f == m
    &&& r.is_some() ==> {
        &&& took(
            m.fallback,
            f.fallback,
            r.unwrap() as int,
            size_align_spec(request).unwrap().0,
            size_align_spec(request).unwrap().1,
        )
        &&& f.handed == m.handed.insert(r.unwrap() as int, layout)
    }
}

/// Freeing a block and asking again for the same layout hands back the same
/// address at once and restores the allocator as it was before the free: a
/// block of a class is found at the head of its class's list, and a larger
/// one heads the fallback allocator's free list, where it fits exactly.
pub proof fn lemma_fixed_size_round_trip(
    allocated: FixedSizeBlockModel,
    freed: FixedSizeBlockModel,
    layout: Layout,
    ptr: usize,
)
    requires
        allocated.wf(),
        allocated.handed.contains_key(ptr as int),
        allocated.handed[ptr as int] == layout,
        freed.handed == allocated.handed.remove(ptr as int),
        match class_of(layout) {
            Some(i) => {
                &&& freed.lists == allocated.lists.update(i, allocated.lists[i].push(ptr))
                &&& freed.fallback == allocated.fallback
            },
            None => {
                &&& freed.lists == allocated.lists
                &&& gave_back(allocated.fallback, freed.fallback, ptr as int, size_align_spec(layout).unwrap().0)
            },
        },
    ensures
        match class_of(layout) {
            Some(i) => {
                &&& freed.lists[i].len() > 0
                &&& freed.lists[i].last() == ptr
                &&& freed.lists.update(i, freed.lists[i].drop_last()) == allocated.lists
                &&& freed.handed.insert(ptr as int, layout) == allocated.handed
            },
            None => {
                let (size, align) = size_align_spec(layout).unwrap();
                &&& crate::linked_list::is_first_fit(freed.fallback.regions, 0, size, align)
                &&& crate::linked_list::fit_start(freed.fallback.regions[0], align) == ptr as int
                &&& forall|again: LinkedListModel, s2: int| took(freed.fallback, again, s2, size, align)
                    ==> s2 == ptr as int && again.regions == allocated.fallback.regions
                    && again.live == allocated.fallback.live.insert(ptr as int, size)
            },
        },
{
    lemma_backing(layout);
    match class_of(layout) {
        Some(i) => {
            assert(freed.lists[i] =~= allocated.lists[i].push(ptr));
            assert(freed.lists[i].drop_last() =~= allocated.lists[i]);
            assert(freed.lists.update(i, freed.lists[i].drop_last()) =~= allocated.lists);
            assert(freed.handed.insert(ptr as int, layout) =~= allocated.handed);
        },
        None => {
            let (size, align) = size_align_spec(layout).unwrap();
            lemma_size_align(layout);
            assert(allocated.fallback.holds(ptr as int, size));
            let node = freed.fallback.regions[0];
            assert(node.start == ptr && node.size == size);
            assert(ptr as int % 8 == 0);
            assert(ptr as int % align == 0) by {
                if layout.align >= NODE_ALIGN {
                    assert(align == layout.align);
                } else {
                    assert(align == 8);
                }
            }
            crate::layout::lemma_align_up(ptr as int, align);
            assert(crate::linked_list::fit_start(node, align) == ptr as int);
            assert forall|again: LinkedListModel, s2: int| took(freed.fallback, again, s2, size, align)
                implies s2 == ptr as int && again.regions == allocated.fallback.regions
                    && again.live == allocated.fallback.live.insert(ptr as int, size) by {
                let j = choose|j: int| {
                    &&& crate::linked_list::is_first_fit(freed.fallback.regions, j, size, align)
                    &&& s2 == crate::linked_list::fit_start(freed.fallback.regions[j], align)
                    &&& freed.fallback.regions[j].start <= s2
                    &&& s2 + size <= freed.fallback.regions[j].end()
                    &&& again.regions == crate::linked_list::list_after_alloc(freed.fallback.regions, j, s2, size)
                    &&& again.live == freed.fallback.live.insert(s2, crate::linked_list::taken_size(freed.fallback.regions[j], s2, size))
                };
                if j > 0 {
                    assert(!crate::linked_list::fits(freed.fallback.regions[0], size, align));
                }
                assert(again.regions =~= allocated.fallback.regions);
                assert(again.live =~= allocated.fallback.live.insert(ptr as int, size));
            }
        },
    }
}

pub struct FixedSizeBlockAllocator {
    list_heads: Vec<Vec<usize>>,
    fallback_allocator: LinkedListAllocator,
    handed: Ghost<Map<int, Layout>>,
}

impl View for FixedSizeBlockAllocator {
    type V = FixedSizeBlockModel;

    closed spec fn view(&self) -> FixedSizeBlockModel {
        FixedSizeBlockModel {
            lists: self.list_heads@.map_values(|l: Vec<usize>| l@),
            fallback: self.fallback_allocator@,
            handed: self.handed@,
        }
    }
}

/// Each class's block size is a power of two, twice the one before.
pub proof fn lemma_block_size(i: int)
    requires
        0 <= i,
    ensures
        is_pow2(block_size(i)),
        block_size(i) >= 8,
        i > 0 ==> block_size(i) == 2 * block_size(i - 1),
    decreases i,
{
    if i == 0 {
        lemma_pow2_8();
    } else {
        lemma_block_size(i - 1);
        assert(block_size(i) / 2 == block_size(i - 1));
    }
}

/// The largest block size is 2048.
pub proof fn lemma_largest_block()
    ensures
        block_size(NUM_CLASSES - 1) == 2048,
{
    reveal_with_fuel(block_size, 9);
}

/// What the fallback allocator lends for a block handed out for `layout`
/// is a valid request, as large as `layout` and aligned at least as strictly.
pub proof fn lemma_backing(layout: Layout)
    requires
        layout.wf(),
        class_of(layout).is_some() || size_align_spec(layout).is_some(),
    ensures
        backing_layout(layout).wf(),
        size_align_spec(backing_layout(layout)).is_some(),
        backing_size(layout) >= layout.size,
        backing_size(layout) >= NODE_SIZE,
        backing_layout(layout).align as int % layout.align as int == 0,
        size_align_spec(backing_layout(layout)).unwrap().1 % layout.align as int == 0,
        class_of(layout) matches Some(c) ==> {
            &&& 0 <= c < NUM_CLASSES
            &&& block_size(c) >= required_size(layout)
            &&& backing_layout(layout) == block_layout(c)
            &&& size_align_spec(block_layout(c)).unwrap().1 == block_size(c)
        },
{
    match class_of(layout) {
        Some(c) => {
            lemma_largest_block();
            let k = choose|i: int| 0 <= i < NUM_CLASSES && block_size(i) >= required_size(layout)
                && forall|j: int| 0 <= j < i ==> block_size(j) < required_size(layout);
            assert(k == c);
            lemma_block_size(c);
            lemma_block_size_mono(c, NUM_CLASSES - 1);
            let b = block_layout(c);
            assert(b.wf());
            lemma_size_align(b);
            lemma_pow2_divides(layout.align as int, block_size(c));
        },
        None => {
            lemma_size_align(layout);
            vstd::arithmetic::div_mod::lemma_mod_self_0(layout.align as int);
        },
    }
}

/// Block sizes grow with the class.
pub proof fn lemma_block_size_mono(i: int, j: int)
    requires
        0 <= i <= j,
    ensures
        block_size(i) <= block_size(j),
    decreases j - i,
{
    if i < j {
        lemma_block_size_mono(i, j - 1);
        lemma_block_size(j);
    }
}

impl FixedSizeBlockAllocator {
    /// The class whose block size is the smallest at least the larger of
    /// `layout`'s size and alignment, or `None` where that is above 2048.
    pub fn list_index(layout: &Layout) -> (r: Option<usize>)
        ensures
            r.is_some() <==> required_size(*layout) <= block_size(NUM_CLASSES - 1),
            r.is_some() ==> r.unwrap() < NUM_CLASSES,
            r.is_some() ==> block_size(r.unwrap() as int) >= required_size(*layout),
            r.is_some() ==> forall|j: int| 0 <= j < r.unwrap() ==> block_size(j) < required_size(*layout),
            r.is_some() ==> class_of(*layout) == Some(r.unwrap() as int),
            r.is_none() ==> class_of(*layout).is_none(),
    {
        let required = if layout.size >= layout.align {
            layout.size
        } else {
            layout.align
        };
        let mut i: usize = 0;
        let mut s: usize = 8;
        while i < NUM_CLASSES
            invariant
                0 <= i <= NUM_CLASSES,
                required == required_size(*layout),
                i < NUM_CLASSES ==> s == block_size(i as int),
                forall|j: int| 0 <= j < i ==> block_size(j) < required,
            decreases NUM_CLASSES - i,
        {
            if s >= required {
                proof {
                    Self::lemma_class_unique(*layout, i as int);
                    lemma_block_size_mono(i as int, NUM_CLASSES - 1);
                }
                return Some(i);
            }
            proof {
                lemma_block_size(i as int + 1);
                lemma_largest_block();
                if i + 1 < NUM_CLASSES {
                    lemma_block_size_mono(i as int + 1, NUM_CLASSES - 1);
                }
            }
            i = i + 1;
            if i < NUM_CLASSES {
                s = s * 2;
            }
        }
        None
    }


    /// An allocator with empty class lists and an empty fallback allocator.
    pub fn new() -> (r: Self)
        ensures
            r@.wf(),
            forall|c: int| 0 <= c < NUM_CLASSES ==> r@.lists[c].len() == 0,
            r@.fallback.regions.len() == 0,
            r@.fallback.live.is_empty(),
            r@.handed.is_empty(),
    {
        let mut list_heads: Vec<Vec<usize>> = Vec::new();
        let mut i: usize = 0;
        while i < NUM_CLASSES
            invariant
                0 <= i <= NUM_CLASSES,
                list_heads@.len() == i,
                forall|c: int| 0 <= c < i ==> (#[trigger] list_heads@[c])@.len() == 0,
            decreases NUM_CLASSES - i,
        {
            list_heads.push(Vec::new());
            i = i + 1;
        }
        let r = FixedSizeBlockAllocator {
            list_heads,
            fallback_allocator: LinkedListAllocator::new(),
            handed: Ghost(Map::empty()),
        };
        proof {
            assert forall|c: int| 0 <= c < NUM_CLASSES implies r@.lists[c].len() == 0 by {
                assert(r@.lists[c] == r.list_heads@[c]@);
            }
        }
        r
    }

    /// Hands the fallback allocator the heap `[heap_start, heap_start + heap_size)`.
    pub fn init(&mut self, heap_start: usize, heap_size: usize)
        requires
            old(self)@.wf(),
            old(self)@.fallback.regions.len() == 0,
            old(self)@.fallback.live.is_empty(),
            heap_start % NODE_ALIGN == 0,
            heap_size >= NODE_SIZE,
            heap_start + heap_size <= usize::MAX,
        ensures
            final(self)@.wf(),
            final(self)@.lists == old(self)@.lists,
            final(self)@.handed == old(self)@.handed,
            final(self)@.fallback.regions == seq![
                crate::linked_list::ListNode { start: heap_start, size: heap_size },
            ],
            final(self)@.fallback.live.is_empty(),
            final(self)@.fallback.heap_start == heap_start,
            final(self)@.fallback.heap_end == heap_start + heap_size,
    {
        let ghost m = self@;
        self.fallback_allocator.init(heap_start, heap_size);
        proof {
            let f = self@;
            // with no live fallback block there is no free or handed-out block
            assert forall|c: int| 0 <= c < NUM_CLASSES implies #[trigger] m.lists[c].len() == 0 by {
                if m.lists[c].len() > 0 {
                    assert(m.fallback.holds(m.lists[c][0] as int, size_align_spec(block_layout(c)).unwrap().0));
                }
            }
            assert forall|a: int| !#[trigger] m.handed.contains_key(a) by {
                if m.handed.contains_key(a) {
                    assert(m.fallback.holds(a, backing_size(m.handed[a])));
                }
            }
            assert(f.lists == m.lists);
        }
    }

    /// The block size of class `index`.
    pub fn block_size_of(index: usize) -> (r: usize)
        requires
            index < NUM_CLASSES,
        ensures
            r == block_size(index as int),
    {
        let mut s: usize = 8;
        let mut i: usize = 0;
        while i < index
            invariant
                0 <= i <= index < NUM_CLASSES,
                s == block_size(i as int),
            decreases index - i,
        {
            proof {
                lemma_block_size(i as int + 1);
                lemma_largest_block();
                lemma_block_size_mono(i as int + 1, NUM_CLASSES - 1);
            }
            s = s * 2;
            i = i + 1;
        }
        s
    }

    /// Serves `layout` from the fallback allocator.
    fn fallback_alloc(&mut self, layout: Layout) -> (r: Option<usize>)
        requires
            old(self)@.fallback.wf(),
            layout.wf(),
        ensures
            final(self).list_heads == old(self).list_heads,
            final(self).handed == old(self).handed,
            final(self)@.fallback.wf(),
            r.is_none() <==> (size_align_spec(layout).is_none() || none_fits(
                old(self)@.fallback.regions,
                size_align_spec(layout).unwrap().0,
                size_align_spec(layout).unwrap().1,
            )),
            r.is_none() ==> final(self)@.fallback == old(self)@.fallback,
            r.is_some() ==> ({
                let (size, align) = size_align_spec(layout).unwrap();
                let start = r.unwrap() as int;
                &&& start % layout.align as int == 0
                &&& forall|a: int| #[trigger] old(self)@.fallback.live.contains_key(a)
                    ==> disjoint(start, size, a, old(self)@.fallback.live[a])
                &&& took(old(self)@.fallback, final(self)@.fallback, start, size, align)
            }),
    {
        self.fallback_allocator.allocate(layout)
    }


    /// Serves `layout`. A request of a class pops the head of that class's
    /// list, or, where the list is empty, draws one block of the class's size
    /// and alignment from the fallback allocator; a larger request goes to the
    /// fallback allocator as it is. `None` where the fallback allocator cannot
    /// serve what it is asked.
    pub fn allocate(&mut self, layout: Layout) -> (r: Option<usize>)
        requires
            old(self)@.wf(),
            layout.wf(),
        ensures
            final(self)@.wf(),
            match class_of(layout) {
                Some(i) => if old(self)@.lists[i].len() > 0 {
                    &&& r == Some(old(self)@.lists[i].last())
                    &&& final(self)@.lists == old(self)@.lists.update(i, old(self)@.lists[i].drop_last())
                    &&& final(self)@.fallback == old(self)@.fallback
                    &&& final(self)@.handed == old(self)@.handed.insert(r.unwrap() as int, layout)
                } else {
                    served_by_fallback(old(self)@, final(self)@, r, block_layout(i), layout)
                },
                None => served_by_fallback(old(self)@, final(self)@, r, layout, layout),
            },
            r.is_some() ==> r.unwrap() as int % layout.align as int == 0,
            final(self)@.fallback.heap_start == old(self)@.fallback.heap_start,
            final(self)@.fallback.heap_end == old(self)@.fallback.heap_end,
            r.is_some() ==> old(self)@.fallback.heap_start <= r.unwrap()
                && r.unwrap() + layout.size <= old(self)@.fallback.heap_end,
            r.is_some() ==> final(self)@.fallback.holds(r.unwrap() as int, backing_size(layout))
                && backing_size(layout) >= layout.size,
            r.is_some() ==> !old(self)@.handed.contains_key(r.unwrap() as int),
            r.is_some() ==> forall|a: int| #[trigger] old(self)@.handed.contains_key(a) ==> disjoint(
                r.unwrap() as int,
                layout.size as int,
                a,
                old(self)@.handed[a].size as int,
            ),
    {
        let ghost m = self@;
        match Self::list_index(&layout) {
            Some(index) => {
                if self.list_heads[index].len() > 0 {
                    let popped = self.list_heads[index].pop();
                    match popped {
                        Some(node) => {
                            proof {
                                assert(self@.lists =~= m.lists.update(
                                    index as int,
                                    m.lists[index as int].drop_last(),
                                ));
                                self.lemma_popped(m, layout, index as int, node);
                            }
                            self.handed = Ghost(self.handed@.insert(node as int, layout));
                            Some(node)
                        },
                        None => None,
                    }
                } else {
                    let block_size = Self::block_size_of(index);
                    let block_layout = Layout { size: block_size, align: block_size };
                    proof {
                        lemma_backing(layout);
                    }
                    let r = self.fallback_alloc(block_layout);
                    proof {
                        self.lemma_from_fallback(m, layout, r);
                    }
                    if let Some(a) = r {
                        self.handed = Ghost(self.handed@.insert(a as int, layout));
                    }
                    r
                }
            },
            None => {
                proof {
                    if size_align_spec(layout).is_some() {
                        lemma_backing(layout);
                    }
                }
                let r = self.fallback_alloc(layout);
                proof {
                    if r.is_some() {
                        self.lemma_from_fallback(m, layout, r);
                    }
                }
                if let Some(a) = r {
                    self.handed = Ghost(self.handed@.insert(a as int, layout));
                }
                r
            },
        }
    }

    /// After the head of class `i`'s list was popped, handing it out for
    /// `layout` keeps the allocator well formed and overlaps no handed-out block.
    proof fn lemma_popped(&self, m: FixedSizeBlockModel, layout: Layout, i: int, node: usize)
        requires
            m.wf(),
            layout.wf(),
            class_of(layout) == Some(i),
            m.lists[i].len() > 0,
            node == m.lists[i].last(),
            self@.lists == m.lists.update(i, m.lists[i].drop_last()),
            self@.fallback == m.fallback,
            self@.handed == m.handed,
        ensures
            (FixedSizeBlockModel { handed: m.handed.insert(node as int, layout), ..self@ }).wf(),
            self@.fallback.holds(node as int, backing_size(layout)),
            backing_size(layout) >= layout.size,
            node as int % layout.align as int == 0,
            !m.handed.contains_key(node as int),
            forall|a: int| #[trigger] m.handed.contains_key(a) ==> disjoint(
                node as int,
                layout.size as int,
                a,
                m.handed[a].size as int,
            ),
    {
        lemma_backing(layout);
        let k = m.lists[i].len() - 1;
        assert(m.lists[i][k] == node);
        assert(m.fallback.holds(m.lists[i][k] as int, size_align_spec(block_layout(i)).unwrap().0));
        let f = FixedSizeBlockModel { handed: m.handed.insert(node as int, layout), ..self@ };
        lemma_mod_of_multiple(node as int, layout.align as int, block_size(i));
        assert forall|c: int, j: int| 0 <= c < NUM_CLASSES && 0 <= j < f.lists[c].len() implies f.lists[c][j] == m.lists[c][j] by {}
        assert forall|c: int, j: int| 0 <= c < NUM_CLASSES && 0 <= j < f.lists[c].len() implies {
            &&& f.fallback.holds(#[trigger] f.lists[c][j] as int, size_align_spec(block_layout(c)).unwrap().0)
            &&& f.lists[c][j] as int % block_size(c) == 0
            &&& !f.handed.contains_key(f.lists[c][j] as int)
        } by {
            assert(f.lists[c][j] == m.lists[c][j]);
            assert(c != i || j != k);
        }
        assert forall|a: int| #[trigger] f.handed.contains_key(a) implies {
            &&& f.handed[a].wf()
            &&& size_align_spec(backing_layout(f.handed[a])).is_some()
            &&& f.fallback.holds(a, backing_size(f.handed[a]))
            &&& a % f.handed[a].align as int == 0
            &&& (class_of(f.handed[a]) matches Some(c) ==> a % block_size(c) == 0)
        } by {
            if a != node as int {
                assert(m.handed.contains_key(a));
            }
        }
        assert forall|a: int| #[trigger] m.handed.contains_key(a) implies disjoint(
            node as int,
            layout.size as int,
            a,
            m.handed[a].size as int,
        ) by {
            let ha = m.handed[a];
            lemma_backing(ha);
            assert(m.fallback.holds(a, backing_size(ha)));
            assert(m.fallback.holds(node as int, backing_size(layout)));
            assert(a != node as int);
        }
    }

    /// Handing out for `layout` the block `r` that the fallback allocator
    /// just served keeps the allocator well formed and overlaps no
    /// handed-out block.
    proof fn lemma_from_fallback(&self, m: FixedSizeBlockModel, layout: Layout, r: Option<usize>)
        requires
            m.wf(),
            layout.wf(),
            size_align_spec(layout).is_some(),
            self@.lists == m.lists,
            self@.handed == m.handed,
            self@.fallback.wf(),
            r.is_none() ==> self@.fallback == m.fallback,
            r.is_some() ==> ({
                let (size, align) = size_align_spec(backing_layout(layout)).unwrap();
                let start = r.unwrap() as int;
                &&& start % backing_layout(layout).align as int == 0
                &&& forall|a: int| #[trigger] m.fallback.live.contains_key(a)
                    ==> disjoint(start, size, a, m.fallback.live[a])
                &&& took(m.fallback, self@.fallback, start, size, align)
            }),
        ensures
            r.is_none() ==> self@ == m,
            r.is_some() ==> (FixedSizeBlockModel {
                handed: m.handed.insert(r.unwrap() as int, layout),
                ..self@
            }).wf(),
            r.is_some() ==> r.unwrap() as int % layout.align as int == 0,
            r.is_some() ==> self@.fallback.holds(r.unwrap() as int, backing_size(layout)),
            r.is_some() ==> backing_size(layout) >= layout.size,
            r.is_some() ==> !m.handed.contains_key(r.unwrap() as int),
            r.is_some() ==> forall|a: int| #[trigger] m.handed.contains_key(a) ==> disjoint(
                r.unwrap() as int,
                layout.size as int,
                a,
                m.handed[a].size as int,
            ),
    {
        lemma_size_align(layout);
        lemma_backing(layout);
        if let Some(x) = r {
            let start = x as int;
            let bsz = backing_size(layout);
            let f = FixedSizeBlockModel { handed: m.handed.insert(start, layout), ..self@ };
            let (sz, al) = size_align_spec(backing_layout(layout)).unwrap();
            let i = choose|i: int| {
                &&& crate::linked_list::is_first_fit(m.fallback.regions, i, sz, al)
                &&& start == crate::linked_list::fit_start(m.fallback.regions[i], al)
                &&& m.fallback.regions[i].start <= start
                &&& start + sz <= m.fallback.regions[i].end()
                &&& self@.fallback.regions == crate::linked_list::list_after_alloc(m.fallback.regions, i, start, sz)
                &&& self@.fallback.live == m.fallback.live.insert(start, crate::linked_list::taken_size(m.fallback.regions[i], start, sz))
            };
            assert(sz == bsz);
            assert(self@.fallback.holds(start, bsz));
            lemma_mod_of_multiple(start, layout.align as int, backing_layout(layout).align as int);
            if let Some(c) = class_of(layout) {
                assert(backing_layout(layout).align as int == block_size(c));
            }
            assert forall|a: int| #[trigger] m.handed.contains_key(a) implies a != start && disjoint(
                start,
                layout.size as int,
                a,
                m.handed[a].size as int,
            ) by {
                let ha = m.handed[a];
                lemma_backing(ha);
                assert(m.fallback.holds(a, backing_size(ha)));
                assert(disjoint(start, bsz, a, backing_size(ha)));
            }
            assert forall|c: int, j: int| 0 <= c < NUM_CLASSES && 0 <= j < f.lists[c].len() implies {
                &&& f.fallback.holds(#[trigger] f.lists[c][j] as int, size_align_spec(block_layout(c)).unwrap().0)
                &&& f.lists[c][j] as int % block_size(c) == 0
                &&& !f.handed.contains_key(f.lists[c][j] as int)
            } by {
                let e = m.lists[c][j] as int;
                let be = size_align_spec(block_layout(c)).unwrap().0;
                assert(m.fallback.holds(e, be));
                lemma_block_size(c);
                lemma_largest_block();
                lemma_block_size_mono(c, NUM_CLASSES - 1);
                assert(block_layout(c).wf());
                lemma_size_align(block_layout(c));
                assert(disjoint(start, bsz, e, be));
                assert(e != start);
            }
            assert forall|a: int| #[trigger] f.handed.contains_key(a) implies {
                &&& f.handed[a].wf()
                &&& size_align_spec(backing_layout(f.handed[a])).is_some()
                &&& f.fallback.holds(a, backing_size(f.handed[a]))
                &&& a % f.handed[a].align as int == 0
                &&& (class_of(f.handed[a]) matches Some(c) ==> a % block_size(c) == 0)
            } by {
                if a != start {
                    assert(m.handed.contains_key(a));
                }
            }
            assert(f.wf());
        } else {
            assert(self@ =~= m);
        }
    }


    /// Frees a block handed out for `layout`. A block of a class is pushed
    /// on that class's list; a larger one goes back to the fallback allocator.
    pub fn deallocate(&mut self, ptr: usize, layout: Layout)
        requires
            old(self)@.wf(),
            old(self)@.handed.contains_key(ptr as int),
            old(self)@.handed[ptr as int] == layout,
        ensures
            final(self)@.wf(),
            final(self)@.handed == old(self)@.handed.remove(ptr as int),
            match class_of(layout) {
                Some(i) => {
                    &&& final(self)@.lists == old(self)@.lists.update(i, old(self)@.lists[i].push(ptr))
                    &&& final(self)@.fallback == old(self)@.fallback
                },
                None => {
                    &&& final(self)@.lists == old(self)@.lists
                    &&& gave_back(old(self)@.fallback, final(self)@.fallback, ptr as int, size_align_spec(layout).unwrap().0)
                },
            },
    {
        let ghost m = self@;
        proof {
            lemma_backing(layout);
        }
        match Self::list_index(&layout) {
            Some(index) => {
                self.list_heads[index].push(ptr);
                self.handed = Ghost(self.handed@.remove(ptr as int));
                proof {
                    let i = index as int;
                    assert(self@.lists =~= m.lists.update(i, m.lists[i].push(ptr)));
                    let f = self@;
                    let k = m.lists[i].len() as int;
                    assert forall|c: int, j: int| 0 <= c < NUM_CLASSES && 0 <= j < f.lists[c].len() implies
                        f.lists[c][j] == if c == i && j == k { ptr } else { m.lists[c][j] } by {}
                    assert forall|c: int, j: int| 0 <= c < NUM_CLASSES && 0 <= j < f.lists[c].len() implies {
                        &&& f.fallback.holds(#[trigger] f.lists[c][j] as int, size_align_spec(block_layout(c)).unwrap().0)
                        &&& f.lists[c][j] as int % block_size(c) == 0
                        &&& !f.handed.contains_key(f.lists[c][j] as int)
                    } by {
                        if c != i || j != k {
                            assert(f.lists[c][j] == m.lists[c][j]);
                        }
                    }
                    assert forall|c1: int, k1: int, c2: int, k2: int|
                        0 <= c1 < NUM_CLASSES && 0 <= k1 < f.lists[c1].len() && 0 <= c2 < NUM_CLASSES && 0
                            <= k2 < f.lists[c2].len() && (c1 != c2 || k1 != k2) implies #[trigger] f.lists[c1][k1]
                            != #[trigger] f.lists[c2][k2] by {
                        if c1 == i && k1 == k {
                            assert(f.lists[c2][k2] == m.lists[c2][k2]);
                        } else if c2 == i && k2 == k {
                            assert(f.lists[c1][k1] == m.lists[c1][k1]);
                        } else {
                            assert(f.lists[c1][k1] == m.lists[c1][k1]);
                            assert(f.lists[c2][k2] == m.lists[c2][k2]);
                        }
                    }
                    assert forall|a: int| #[trigger] f.handed.contains_key(a) implies {
                        &&& f.handed[a].wf()
                        &&& size_align_spec(backing_layout(f.handed[a])).is_some()
                        &&& f.fallback.holds(a, backing_size(f.handed[a]))
                        &&& a % f.handed[a].align as int == 0
                        &&& (class_of(f.handed[a]) matches Some(c) ==> a % block_size(c) == 0)
                    } by {
                        assert(m.handed.contains_key(a));
                    }
                }
            },
            None => {
                proof {
                    assert(m.fallback.holds(ptr as int, backing_size(layout)));
                }
                self.fallback_allocator.deallocate(ptr, layout);
                self.handed = Ghost(self.handed@.remove(ptr as int));
                proof {
                    let f = self@;
                    let gone = (ptr as int, size_align_spec(layout).unwrap().0);
                    assert(f.lists == m.lists);
                    assert forall|c: int, j: int| 0 <= c < NUM_CLASSES && 0 <= j < f.lists[c].len() implies {
                        &&& f.fallback.holds(#[trigger] f.lists[c][j] as int, size_align_spec(block_layout(c)).unwrap().0)
                        &&& f.lists[c][j] as int % block_size(c) == 0
                        &&& !f.handed.contains_key(f.lists[c][j] as int)
                    } by {
                        assert(m.fallback.holds(m.lists[c][j] as int, size_align_spec(block_layout(c)).unwrap().0));
                        assert(m.lists[c][j] as int != ptr as int);
                    }
                    assert forall|a: int| #[trigger] f.handed.contains_key(a) implies {
                        &&& f.handed[a].wf()
                        &&& size_align_spec(backing_layout(f.handed[a])).is_some()
                        &&& f.fallback.holds(a, backing_size(f.handed[a]))
                        &&& a % f.handed[a].align as int == 0
                        &&& (class_of(f.handed[a]) matches Some(c) ==> a % block_size(c) == 0)
                    } by {
                        assert(m.handed.contains_key(a));
                        assert(a != ptr as int);
                    }
                }
            },
        }
    }

    /// The number of free blocks on the list of class `index`.
    pub fn list_len(&self, index: usize) -> (r: usize)
        requires
            self@.wf(),
            index < NUM_CLASSES,
        ensures
            r == self@.lists[index as int].len(),
    {
        self.list_heads[index].len()
    }

    /// The free list of the fallback allocator, head first.
    pub fn fallback_regions(&self) -> (r: Vec<crate::linked_list::ListNode>)
        ensures
            r@ == self@.fallback.regions,
    {
        self.fallback_allocator.free_regions()
    }

    proof fn lemma_class_unique(layout: Layout, i: int)
        requires
            0 <= i < NUM_CLASSES,
            block_size(i) >= required_size(layout),
            forall|j: int| 0 <= j < i ==> block_size(j) < required_size(layout),
        ensures
            class_of(layout) == Some(i),
    {
        lemma_block_size_mono(i, NUM_CLASSES - 1);
        let k = choose|k: int| 0 <= k < NUM_CLASSES && block_size(k) >= required_size(layout)
            && forall|j: int| 0 <= j < k ==> block_size(j) < required_size(layout);
        assert(k == i) by {
            if k < i {
                assert(block_size(k) < required_size(layout));
            } else if k > i {
                assert(block_size(i) < required_size(layout));
            }
        }
    }
}

} // verus!
