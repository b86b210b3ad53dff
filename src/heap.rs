//! Setting up the kernel heap: each page of its virtual window gets a frame
//! of its own before the first allocation.
use vstd::prelude::*;
use crate::frame::{usable_frames, BootInfoFrameAllocator};
use crate::paging::{MappingError, PageEntry, PageTable, PAGE_SIZE, PRESENT, WRITABLE};

verus! {

/// Where the kernel heap starts in the virtual address space.
pub const HEAP_START: u64 = 0x4444_4444_0000;

/// The size of the kernel heap: 16 MiB.
pub const HEAP_SIZE: u64 = 0x100_0000;

/// The frames that `frames` can still hand out.
pub open spec fn frames_left(frames: BootInfoFrameAllocator) -> int {
    let len = usable_frames(frames.regions()).len();
    let limit = if len < usize::MAX { len as int } else { usize::MAX as int };
    if frames.cursor() >= limit {
        0
    } else {
        limit - frames.cursor()
    }
}

/// The flags of the heap's pages.
pub open spec fn heap_flags() -> u64 {
    PRESENT | WRITABLE
}

/// `f` is `m` with the `n` pages from `first` mapped, in order, to the
/// usable frames of `fs` from index `c` on.
pub open spec fn maps_frames(m: Map<u64, PageEntry>, f: Map<u64, PageEntry>, first: int, n: int, fs: Seq<u64>, c: int) -> bool {
    &&& forall|q: u64| #[trigger] f.contains_key(q) <==> (m.contains_key(q) || first <= q < first + n)
    &&& forall|q: u64| first <= q < first + n ==> #[trigger] f[q] == PageEntry {
        frame: fs[c + (q - first)] / PAGE_SIZE,
        flags: heap_flags(),
    }
    &&& forall|q: u64| !(first <= q < first + n) && m.contains_key(q) ==> #[trigger] f[q] == m[q]
}

/// None of the `n` pages from `first` has a translation in `m`.
pub open spec fn pages_unmapped(m: Map<u64, PageEntry>, first: int, n: int) -> bool {
    forall|k: int| 0 <= k < n ==> !m.contains_key(#[trigger] (first + k) as u64)
}

/// Maps each page of the heap window `[heap_start, heap_start + heap_size)`
/// to the next frame of `frames`, page by page. Fails where the frames run
/// out or where a page of the window already has a translation, at the
/// first page where that happens.
pub fn init_heap(table: &mut PageTable, frames: &mut BootInfoFrameAllocator, heap_start: u64, heap_size: u64) -> (r: Result<(), MappingError>)
    requires
        old(table).wf(),
        heap_size >= 1,
        heap_start + heap_size - 1 <= u64::MAX,
    ensures
        final(table).wf(),
        final(frames).regions() == old(frames).regions(),
        ({
            let first = heap_start as int / PAGE_SIZE as int;
            let n = (heap_start + heap_size - 1) / PAGE_SIZE as int - first + 1;
            let left = frames_left(*old(frames));
            &&& r.is_ok() <==> pages_unmapped(old(table)@, first, n) && left >= n
            &&& r.is_ok() ==> {
                &&& maps_frames(old(table)@, final(table)@, first, n, usable_frames(old(frames).regions()), old(frames).cursor() as int)
                &&& final(frames).cursor() == old(frames).cursor() + n
            }
            &&& r == Err::<(), MappingError>(MappingError::PhysicalMemoryExhausted) <==> left < n && pages_unmapped(old(table)@, first, left)
            &&& r == Err::<(), MappingError>(MappingError::DoubleMapping) <==> exists|k: int| 0 <= k < n && k < left
                && old(table)@.contains_key((first + k) as u64) && pages_unmapped(old(table)@, first, k)
        }),
{
    let first = heap_start / PAGE_SIZE;
    let last = (heap_start + (heap_size - 1)) / PAGE_SIZE;
    let n = last - first + 1;
    let ghost m = table@;
    let ghost fs = usable_frames(frames.regions());
    let ghost c = frames.cursor();
    let ghost left = frames_left(*frames);
    let flags = PRESENT | WRITABLE;
    let mut k: u64 = 0;
    while k < n
        invariant
            table.wf(),
            n == last - first + 1,
            first == heap_start as int / PAGE_SIZE as int,
            last == (heap_start + heap_size - 1) / PAGE_SIZE as int,
            last as int <= u64::MAX as int / PAGE_SIZE as int,
            first <= last,
            flags == heap_flags(),
            fs == usable_frames(frames.regions()),
            left == frames_left(*old(frames)),
            frames.regions() == old(frames).regions(),
            m == old(table)@,
            c == old(frames).cursor(),
            0 <= k <= n,
            k <= left,
            frames.cursor() == c + k,
            pages_unmapped(m, first as int, k as int),
            maps_frames(m, table@, first as int, k as int, fs, c as int),
        decreases n - k,
    {
        let frame = match frames.allocate_frame() {
            Some(f) => f,
            None => {
                proof {
                    let fi = first as int;
                    assert(left == k);
                    assert(forall|j: int| 0 <= j < n && j < left ==> !m.contains_key(#[trigger] (fi + j) as u64));
                }
                return Err(MappingError::PhysicalMemoryExhausted);
            },
        };
        let page = first + k;
        proof {
            assert(!table@.contains_key(page) <==> !m.contains_key(page));
        }
        match table.map_to(page, frame / PAGE_SIZE, flags) {
            Ok(()) => {},
            Err(e) => {
                proof {
                    let fi = first as int;
                    let ki = k as int;
                    assert(m.contains_key((fi + ki) as u64));
                    assert(ki < left);
                    assert(!pages_unmapped(m, fi, left));
                    assert(!pages_unmapped(m, fi, n as int));
                    assert(0 <= ki < n && ki < left && m.contains_key((fi + ki) as u64) && pages_unmapped(m, fi, ki));
                }
                return Err(e);
            },
        }
        proof {
            assert forall|j: int| 0 <= j < k + 1 implies !m.contains_key(#[trigger] (first + j) as u64) by {
                if j < k {
                    assert(!m.contains_key((first + j) as u64));
                }
            }
        }
        k = k + 1;
    }
    Ok(())
}

} // verus!
