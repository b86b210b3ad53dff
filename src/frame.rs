//! Physical memory: the firmware's memory map, the frame allocator that hands
//! out its usable frames in ascending order, and the memory accounting.
use vstd::prelude::*;
use crate::layout::align_up_spec;
use crate::paging::PAGE_SIZE;

verus! {

/// What a region of the firmware's memory map holds.
#[derive(Clone, Copy, Debug, PartialEq, Eq, Structural)]
pub enum MemoryRegionKind {
    /// Free memory that the kernel may use.
    Usable,
    /// Memory that the bootloader used, for the kernel image, the page
    /// tables and the boot information among others.
    Bootloader,
    /// Memory that the UEFI firmware marked with this type.
    UnknownUefi(u32),
    /// Memory that the BIOS marked with this type.
    UnknownBios(u32),
}

/// A region of physical memory, from `start` up to and without `end`.
#[derive(Clone, Copy, Debug, PartialEq, Eq, Structural)]
pub struct MemoryRegion {
    pub start: u64,
    pub end: u64,
    pub kind: MemoryRegionKind,
}

/// The first frame boundary at or after the start of `r`.
pub open spec fn first_frame(r: MemoryRegion) -> int {
    align_up_spec(r.start as int, PAGE_SIZE as int)
}

/// The number of whole frames inside `r`.
pub open spec fn region_frame_count(r: MemoryRegion) -> int {
    if r.end <= first_frame(r) {
        0
    } else {
        (r.end - first_frame(r)) / PAGE_SIZE as int
    }
}

/// The start addresses of the whole frames inside `r`, in ascending order.
pub open spec fn region_frames(r: MemoryRegion) -> Seq<u64> {
    Seq::new(region_frame_count(r) as nat, |k: int| (first_frame(r) + k * PAGE_SIZE) as u64)
}

/// The start addresses of the usable frames of `regions`, region by region.
pub open spec fn usable_frames(regions: Seq<MemoryRegion>) -> Seq<u64>
    decreases regions.len(),
{
    if regions.len() == 0 {
        Seq::empty()
    } else {
        let last = regions.last();
        usable_frames(regions.drop_last()) + if last.kind == MemoryRegionKind::Usable {
            region_frames(last)
        } else {
            Seq::empty()
        }
    }
}

/// The memory map as firmware gives it: regions in ascending order that do
/// not overlap.
pub open spec fn regions_wf(regions: Seq<MemoryRegion>) -> bool {
    &&& forall|i: int| 0 <= i < regions.len() ==> (#[trigger] regions[i]).start <= regions[i].end
    &&& forall|i: int, j: int| 0 <= i < j < regions.len() ==> (#[trigger] regions[i]).end <= (#[trigger] regions[j]).start
}

/// Hands out the frames of the usable regions of the memory map, one by one
/// and in ascending order. Frames are never given back.
pub struct BootInfoFrameAllocator {
    memory_regions: Vec<MemoryRegion>,
    next: usize,
}

impl BootInfoFrameAllocator {
    pub closed spec fn regions(&self) -> Seq<MemoryRegion> {
        self.memory_regions@
    }

    /// The number of frames handed out so far.
    pub closed spec fn cursor(&self) -> nat {
        self.next as nat
    }

    /// An allocator that has handed out nothing yet.
    pub fn init(memory_regions: Vec<MemoryRegion>) -> (r: Self)
        ensures
            r.regions() == memory_regions@,
            r.cursor() == 0,
    {
        BootInfoFrameAllocator { memory_regions, next: 0 }
    }

    /// The start address of the `n`th usable frame, if there is one.
    fn usable_frame(&self, n: usize) -> (r: Option<u64>)
        ensures
            r.is_some() <==> n < usable_frames(self.regions()).len(),
            r.is_some() ==> r.unwrap() == usable_frames(self.regions())[n as int],
    {
        let ghost rs = self.memory_regions@;
        let mut skipped: usize = 0;
        let mut i: usize = 0;
        while i < self.memory_regions.len()
            invariant
                rs == self.memory_regions@,
                0 <= i <= rs.len(),
                skipped == usable_frames(rs.take(i as int)).len(),
                skipped <= n,
            decreases rs.len() - i,
        {
            let r = self.memory_regions[i];
            proof {
                assert(rs.take(i as int + 1).drop_last() =~= rs.take(i as int));
                assert(rs.take(i as int + 1).last() == r);
            }
            let first = if r.start % PAGE_SIZE == 0 {
                Some(r.start)
            } else if r.start - r.start % PAGE_SIZE <= u64::MAX - PAGE_SIZE {
                Some(r.start - r.start % PAGE_SIZE + PAGE_SIZE)
            } else {
                None
            };
            proof {
                crate::layout::lemma_align_up(r.start as int, PAGE_SIZE as int);
                assert(first.is_some() ==> first.unwrap() == first_frame(r));
                assert(first.is_none() ==> region_frame_count(r) == 0);
            }
            if let Some(fs) = first {
                if r.kind == MemoryRegionKind::Usable && fs < r.end {
                    let count = (r.end - fs) / PAGE_SIZE;
                    let k = n - skipped;
                    if (k as u64) < count {
                        let k64 = k as u64;
                        proof {
                            assert(k64 * PAGE_SIZE + PAGE_SIZE <= r.end - fs) by (nonlinear_arith)
                                requires k64 < count, count == (r.end - fs) / 4096, fs < r.end;
                            lemma_prefix_frames(rs, i as int + 1);
                            assert(usable_frames(rs.take(i as int + 1))[n as int] == region_frames(r)[k as int]);
                        }
                        return Some(fs + k64 * PAGE_SIZE);
                    }
                    skipped = skipped + count as usize;
                }
            }
            i = i + 1;
        }
        proof {
            assert(rs.take(i as int) =~= rs);
        }
        None
    }

    /// Hands out the next usable frame, or `None` once all are handed out.
    pub fn allocate_frame(&mut self) -> (r: Option<u64>)
        ensures
            final(self).regions() == old(self).regions(),
            r.is_some() <==> old(self).cursor() < usable_frames(old(self).regions()).len()
                && old(self).cursor() < usize::MAX,
            r.is_some() ==> r.unwrap() == usable_frames(old(self).regions())[old(self).cursor() as int]
                && final(self).cursor() == old(self).cursor() + 1,
            r.is_none() ==> final(self).cursor() == old(self).cursor(),
    {
        if self.next == usize::MAX {
            // the cursor cannot count further
            return None;
        }
        let frame = self.usable_frame(self.next);
        if frame.is_some() {
            self.next = self.next + 1;
        }
        frame
    }
}

/// The usable frames of a prefix of the map come first among those of the
/// whole map.
proof fn lemma_prefix_frames(rs: Seq<MemoryRegion>, i: int)
    requires
        0 <= i <= rs.len(),
    ensures
        usable_frames(rs.take(i)).len() <= usable_frames(rs).len(),
        forall|j: int| 0 <= j < usable_frames(rs.take(i)).len() ==> usable_frames(rs.take(i))[j] == #[trigger] usable_frames(rs)[j],
    decreases rs.len() - i,
{
    if i < rs.len() {
        lemma_prefix_frames(rs, i + 1);
        assert(rs.take(i + 1).drop_last() =~= rs.take(i));
    } else {
        assert(rs.take(i) =~= rs);
    }
}

/// The `k`th frame of a region starts `k` frames after its first frame
/// boundary, and lies whole inside the region.
proof fn lemma_region_frame(r: MemoryRegion, k: int)
    requires
        0 <= k < region_frame_count(r),
    ensures
        region_frames(r)[k] == first_frame(r) + k * PAGE_SIZE,
        r.start <= region_frames(r)[k],
        region_frames(r)[k] + PAGE_SIZE <= r.end,
        region_frames(r)[k] % PAGE_SIZE == 0,
{
    crate::layout::lemma_align_up(r.start as int, 4096);
    let f = first_frame(r);
    let q = f / 4096;
    assert(f == q * 4096) by (nonlinear_arith)
        requires f % 4096 == 0, q == f / 4096;
    let a = f + k * 4096;
    assert(a == (q + k) * 4096) by (nonlinear_arith)
        requires f == q * 4096, a == f + k * 4096;
    vstd::arithmetic::div_mod::lemma_mod_multiples_basic(q + k, 4096);
    assert(k * 4096 + 4096 <= r.end - f) by (nonlinear_arith)
        requires 0 <= k, k < (r.end - f) / 4096, r.end > f;
}

/// Every usable frame is aligned and lies whole inside a usable region of
/// the map.
pub proof fn lemma_frame_in_usable_region(regions: Seq<MemoryRegion>, j: int)
    requires
        regions_wf(regions),
        0 <= j < usable_frames(regions).len(),
    ensures
        usable_frames(regions)[j] % PAGE_SIZE == 0,
        exists|k: int| {
            &&& 0 <= k < regions.len()
            &&& regions[k].kind == MemoryRegionKind::Usable
            &&& regions[k].start <= usable_frames(regions)[j]
            &&& usable_frames(regions)[j] + PAGE_SIZE <= regions[k].end
        },
    decreases regions.len(),
{
    let dl = regions.drop_last();
    let last = regions.last();
    assert(regions_wf(dl)) by {
        assert forall|i: int, i2: int| 0 <= i < i2 < dl.len() implies (#[trigger] dl[i]).end <= (#[trigger] dl[i2]).start by {
            assert(dl[i] == regions[i] && dl[i2] == regions[i2]);
        }
    }
    let pre = usable_frames(dl);
    if j < pre.len() {
        lemma_frame_in_usable_region(dl, j);
        let k = choose|k: int| {
            &&& 0 <= k < dl.len()
            &&& dl[k].kind == MemoryRegionKind::Usable
            &&& dl[k].start <= usable_frames(dl)[j]
            &&& usable_frames(dl)[j] + PAGE_SIZE <= dl[k].end
        };
        assert(regions[k] == dl[k]);
    } else {
        let k = regions.len() - 1;
        assert(last.kind == MemoryRegionKind::Usable);
        assert(regions[k] == last);
        lemma_region_frame(last, j - pre.len());
    }
}

/// The usable frames come in strictly ascending order, so no frame comes
/// twice.
pub proof fn lemma_frames_ascending(regions: Seq<MemoryRegion>, i: int, j: int)
    requires
        regions_wf(regions),
        0 <= i < j < usable_frames(regions).len(),
    ensures
        usable_frames(regions)[i] < usable_frames(regions)[j],
    decreases regions.len(),
{
    let dl = regions.drop_last();
    let last = regions.last();
    assert(regions_wf(dl)) by {
        assert forall|a: int, b: int| 0 <= a < b < dl.len() implies (#[trigger] dl[a]).end <= (#[trigger] dl[b]).start by {
            assert(dl[a] == regions[a] && dl[b] == regions[b]);
        }
    }
    let pre = usable_frames(dl);
    if j < pre.len() {
        lemma_frames_ascending(dl, i, j);
    } else if i >= pre.len() {
        lemma_region_frame(last, i - pre.len());
        lemma_region_frame(last, j - pre.len());
    } else {
        lemma_frame_in_usable_region(dl, i);
        let k = choose|k: int| {
            &&& 0 <= k < dl.len()
            &&& dl[k].kind == MemoryRegionKind::Usable
            &&& dl[k].start <= usable_frames(dl)[i]
            &&& usable_frames(dl)[i] + PAGE_SIZE <= dl[k].end
        };
        assert(regions[k] == dl[k]);
        assert(regions[k].end <= regions[regions.len() - 1].start);
        lemma_region_frame(last, j - pre.len());
    }
}

/// The bytes of the regions of `regions` that are usable or that the
/// bootloader used.
pub open spec fn counted_memory(regions: Seq<MemoryRegion>) -> int
    decreases regions.len(),
{
    if regions.len() == 0 {
        0
    } else {
        let last = regions.last();
        counted_memory(regions.drop_last()) + if last.kind == MemoryRegionKind::Usable || last.kind
            == MemoryRegionKind::Bootloader {
            last.end - last.start
        } else {
            0
        }
    }
}

/// Over a well-formed map the counted bytes do not pass the end of the
/// last region.
proof fn lemma_counted_memory_bound(regions: Seq<MemoryRegion>)
    requires
        regions_wf(regions),
    ensures
        0 <= counted_memory(regions),
        regions.len() > 0 ==> counted_memory(regions) <= regions.last().end,
    decreases regions.len(),
{
    if regions.len() > 0 {
        let dl = regions.drop_last();
        assert(regions_wf(dl)) by {
            assert forall|a: int, b: int| 0 <= a < b < dl.len() implies (#[trigger] dl[a]).end <= (#[trigger] dl[b]).start by {
                assert(dl[a] == regions[a] && dl[b] == regions[b]);
            }
        }
        lemma_counted_memory_bound(dl);
        if dl.len() > 0 {
            assert(dl.last() == regions[regions.len() - 2]);
        }
    }
}

/// The memory of the machine: how much there is and how much is in use.
pub struct Memory {
    pub total_memory: u64,
    pub used_memory: u64,
}

impl Memory {
    /// The accounting for the memory map `regions`, with nothing in use:
    /// the total counts the usable regions and those the bootloader used.
    pub fn new(regions: &Vec<MemoryRegion>) -> (r: Memory)
        requires
            regions_wf(regions@),
        ensures
            r.total_memory == counted_memory(regions@),
            r.used_memory == 0,
    {
        let ghost rs = regions@;
        let mut total: u64 = 0;
        let mut i: usize = 0;
        while i < regions.len()
            invariant
                rs == regions@,
                regions_wf(rs),
                0 <= i <= rs.len(),
                total == counted_memory(rs.take(i as int)),
            decreases rs.len() - i,
        {
            let m = regions[i];
            proof {
                let t = rs.take(i as int + 1);
                assert(t.drop_last() =~= rs.take(i as int));
                assert(t.last() == m);
                assert(regions_wf(t)) by {
                    assert forall|a: int, b: int| 0 <= a < b < t.len() implies (#[trigger] t[a]).end <= (#[trigger] t[b]).start by {
                        assert(t[a] == rs[a] && t[b] == rs[b]);
                    }
                }
                lemma_counted_memory_bound(t);
            }
            if m.kind == MemoryRegionKind::Usable || m.kind == MemoryRegionKind::Bootloader {
                total = total + (m.end - m.start);
            }
            i = i + 1;
        }
        proof {
            assert(rs.take(i as int) =~= rs);
        }
        Memory { total_memory: total, used_memory: 0 }
    }

    /// Counts `amount` more bytes as in use.
    pub fn add_to_used_mem(&mut self, amount: u64)
        requires
            old(self).used_memory + amount <= u64::MAX,
        ensures
            final(self).used_memory == old(self).used_memory + amount,
            final(self).total_memory == old(self).total_memory,
    {
        self.used_memory = self.used_memory + amount;
    }

    /// Counts `amount` fewer bytes as in use.
    pub fn takeaway_from_used_mem(&mut self, amount: u64)
        requires
            old(self).used_memory >= amount,
        ensures
            final(self).used_memory == old(self).used_memory - amount,
            final(self).total_memory == old(self).total_memory,
    {
        self.used_memory = self.used_memory - amount;
    }
}

/// A frame allocator without frames.
pub struct EmptyFrameAllocator;

impl EmptyFrameAllocator {
    /// Hands out nothing.
    pub fn allocate_frame(&mut self) -> (r: Option<u64>)
        ensures
            r.is_none(),
    {
        None
    }
}

} // verus!
