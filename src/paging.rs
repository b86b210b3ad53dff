//! Page mapping: a table from virtual pages to physical frames, and the
//! search for a run of free pages in a window of the address space, into
//! which a physical range (device registers, firmware tables) is mapped.
use vstd::prelude::*;
use std::collections::BTreeMap;

verus! {

broadcast use vstd::std_specs::btree::group_btree_axioms;

/// The size of a page and of a frame, in bytes.
pub const PAGE_SIZE: u64 = 4096;

/// The entry is in use.
pub const PRESENT: u64 = 1;

/// The page may be written.
pub const WRITABLE: u64 = 2;

/// The page may be reached from user mode.
pub const USER_ACCESSIBLE: u64 = 4;

/// What the table holds for one page: the number of its frame (the frame's
/// address divided by the page size) and its flags.
#[derive(Clone, Copy, Debug, PartialEq, Eq, Structural)]
pub struct PageEntry {
    pub frame: u64,
    pub flags: u64,
}

/// Why a change to the page table was refused.
#[derive(Clone, Copy, Debug, PartialEq, Eq, Structural)]
pub enum MappingError {
    /// The page already has a translation.
    DoubleMapping,
    /// The page has no translation.
    NotMapped,
    /// No run of free pages long enough was found in the window.
    VirtualAddressSpaceExhausted,
    /// The range to map ends past the end of the physical address space.
    AllocationTooLarge,
    /// The frame allocator has no frame left.
    PhysicalMemoryExhausted,
}

/// The translations of virtual pages, by page number (the page's address
/// divided by the page size).
pub struct PageTable {
    entries: BTreeMap<u64, PageEntry>,
}

impl View for PageTable {
    type V = Map<u64, PageEntry>;

    closed spec fn view(&self) -> Map<u64, PageEntry> {
        self.entries@
    }
}

/// The largest frame number: the frames of a 64-bit physical address space.
pub const MAX_FRAME: u64 = 0xf_ffff_ffff_ffff;

impl PageTable {
    /// Every translation leads to a frame of the physical address space.
    pub open spec fn wf(&self) -> bool {
        forall|p: u64| #[trigger] self@.contains_key(p) ==> self@[p].frame <= MAX_FRAME
    }

    /// A table without translations.
    pub fn new() -> (r: Self)
        ensures
            r.wf(),
            r@ == Map::<u64, PageEntry>::empty(),
    {
        PageTable { entries: BTreeMap::new() }
    }

    /// Installs the translation of `page` to `frame`, or refuses where
    /// `page` already has one: an existing translation is never overwritten.
    pub fn map_to(&mut self, page: u64, frame: u64, flags: u64) -> (r: Result<(), MappingError>)
        requires
            old(self).wf(),
            frame <= MAX_FRAME,
        ensures
            final(self).wf(),
            r.is_ok() <==> !old(self)@.contains_key(page),
            r.is_ok() ==> final(self)@ == old(self)@.insert(page, PageEntry { frame, flags }),
            r.is_err() ==> r == Err::<(), MappingError>(MappingError::DoubleMapping) && final(self)@ == old(self)@,
    {
        if self.entries.contains_key(&page) {
            return Err(MappingError::DoubleMapping);
        }
        self.entries.insert(page, PageEntry { frame, flags });
        proof {
            assert forall|p: u64| #[trigger] self@.contains_key(p) implies self@[p].frame <= MAX_FRAME by {
                if p != page {
                    assert(old(self)@.contains_key(p));
                }
            }
        }
        Ok(())
    }

    /// Removes the translation of `page` and returns the frame it led to.
    pub fn unmap(&mut self, page: u64) -> (r: Result<u64, MappingError>)
        requires
            old(self).wf(),
        ensures
            final(self).wf(),
            r.is_ok() <==> old(self)@.contains_key(page),
            r.is_ok() ==> r == Ok::<u64, MappingError>(old(self)@[page].frame) && final(self)@ == old(self)@.remove(page),
            r.is_err() ==> r == Err::<u64, MappingError>(MappingError::NotMapped) && final(self)@ == old(self)@,
    {
        let r = self.entries.remove(&page);
        proof {
            assert forall|p: u64| #[trigger] self@.contains_key(p) implies self@[p].frame <= MAX_FRAME by {
                assert(old(self)@.contains_key(p));
            }
        }
        match r {
            Some(e) => Ok(e.frame),
            None => Err(MappingError::NotMapped),
        }
    }

    /// What the table holds for `page`, if anything.
    pub fn entry(&self, page: u64) -> (r: Option<PageEntry>)
        ensures
            r.is_some() <==> self@.contains_key(page),
            r.is_some() ==> r.unwrap() == self@[page],
    {
        match self.entries.get(&page) {
            Some(e) => Some(*e),
            None => None,
        }
    }

    /// The physical address that the virtual address `addr` translates to.
    pub fn translate_addr(&self, addr: u64) -> (r: Option<u64>)
        requires
            self.wf(),
        ensures
            r.is_some() <==> self@.contains_key(addr / PAGE_SIZE),
            r.is_some() ==> r.unwrap() == self@[addr / PAGE_SIZE].frame * PAGE_SIZE as int + addr % PAGE_SIZE,
    {
        match self.entries.get(&(addr / PAGE_SIZE)) {
            Some(e) => {
                assert(self@.contains_key(addr / PAGE_SIZE));
                assert(self@[addr / PAGE_SIZE] == *e);
                assert(e.frame * PAGE_SIZE + addr % PAGE_SIZE <= u64::MAX) by (nonlinear_arith)
                    requires e.frame <= MAX_FRAME;
                Some(e.frame * PAGE_SIZE + addr % PAGE_SIZE)
            },
            None => None,
        }
    }
}

/// A run of virtual pages by page number, from `start` up to and without `end`.
#[derive(Clone, Copy, Debug, PartialEq, Eq, Structural)]
pub struct PageRange {
    pub start: u64,
    pub end: u64,
}

impl PageRange {
    /// The range lies within the page numbers of a 64-bit address space.
    pub open spec fn wf(&self) -> bool {
        self.start <= self.end <= MAX_FRAME as int + 1
    }
}

/// The window of the higher half of the address space in which physical
/// ranges are mapped: from address `0xFFFF_8000_0000_0000` up to the page that
/// holds the last address, without that page.
pub const MAPPING_WINDOW_START: u64 = 0xf_fff8_0000_0000;

pub const MAPPING_WINDOW_END: u64 = 0xf_ffff_ffff_ffff;

/// Page `p` can take a new translation: it has none, and it is not the page
/// of the null address.
pub open spec fn is_available(m: Map<u64, PageEntry>, p: int) -> bool {
    p != 0 && !m.contains_key(p as u64)
}

/// The `n` pages from `p` can all take a new translation.
pub open spec fn run_free(m: Map<u64, PageEntry>, p: int, n: int) -> bool {
    forall|k: int| 0 <= k < n ==> is_available(m, #[trigger] (p + k))
}

/// `p` starts the first run of `n` available pages inside `region`.
pub open spec fn is_first_run(m: Map<u64, PageEntry>, region: PageRange, n: int, p: int) -> bool {
    &&& region.start <= p
    &&& p + n <= region.end
    &&& run_free(m, p, n)
    &&& forall|q: int| region.start <= q < p ==> !run_free(m, q, n)
}

/// No run of `n` available pages lies inside `region`.
pub open spec fn no_run(m: Map<u64, PageEntry>, region: PageRange, n: int) -> bool {
    forall|q: int| region.start <= q && q + n <= region.end ==> !run_free(m, q, n)
}

/// The flags of the pages that `map_pages_from` maps.
pub open spec fn mmio_flags() -> u64 {
    PRESENT | WRITABLE | USER_ACCESSIBLE
}

/// `f` is `m` with the `n` pages from `p` mapped to the frames from `frame` on.
pub open spec fn maps_run(m: Map<u64, PageEntry>, f: Map<u64, PageEntry>, p: int, frame: int, n: int, flags: u64) -> bool {
    &&& forall|q: u64| #[trigger] f.contains_key(q) <==> (m.contains_key(q) || p <= q < p + n)
    &&& forall|q: u64| p <= q < p + n ==> #[trigger] f[q] == PageEntry { frame: (frame + (q - p)) as u64, flags }
    &&& forall|q: u64| !(p <= q < p + n) && m.contains_key(q) ==> #[trigger] f[q] == m[q]
}

/// The number of the first page of the first run of `num_pages` pages
/// inside `region` that can all take a new translation, or `None` where
/// the region holds no such run.
pub fn search_free_addr_from(table: &PageTable, num_pages: u64, region: PageRange) -> (r: Option<u64>)
    requires
        table.wf(),
        region.wf(),
        num_pages >= 1,
    ensures
        r.is_some() ==> is_first_run(table@, region, num_pages as int, r.unwrap() as int),
        r.is_none() ==> no_run(table@, region, num_pages as int),
{
    let mut cnt: u64 = 0;
    let mut page: u64 = region.start;
    while page < region.end
        invariant
            table.wf(),
            region.wf(),
            num_pages >= 1,
            region.start <= page <= region.end,
            cnt < num_pages,
            page - cnt >= region.start,
            run_free(table@, page - cnt, cnt as int),
            page - cnt > region.start ==> !is_available(table@, page - cnt - 1),
            forall|q: int| region.start <= q && q + num_pages <= page ==> !run_free(table@, q, num_pages as int),
        decreases region.end - page,
    {
        if available(table, page) {
            cnt = cnt + 1;
            if cnt >= num_pages {
                let start = page + 1 - cnt;
                proof {
                    assert forall|k: int| 0 <= k < num_pages implies is_available(table@, #[trigger] (start + k)) by {
                        if k < num_pages - 1 {
                            assert(is_available(table@, (page - (cnt - 1)) + k));
                        }
                    }
                    assert forall|q: int| region.start <= q < start implies !run_free(table@, q, num_pages as int) by {
                        assert(q + num_pages <= page);
                    }
                }
                return Some(start);
            }
            proof {
                assert forall|k: int| 0 <= k < cnt implies is_available(table@, #[trigger] ((page + 1 - cnt) + k)) by {
                    if k < cnt - 1 {
                        assert(is_available(table@, (page - (cnt - 1)) + k));
                    }
                }
                assert forall|q: int| region.start <= q && q + num_pages <= page + 1 implies !run_free(table@, q, num_pages as int) by {
                    if q + num_pages == page + 1 {
                        let gap = page - (cnt - 1) - 1;
                        assert(!is_available(table@, gap));
                        assert(!is_available(table@, q + (gap - q)));
                    }
                }
            }
        } else {
            proof {
                assert forall|q: int| region.start <= q && q + num_pages <= page + 1 implies !run_free(table@, q, num_pages as int) by {
                    if q + num_pages == page + 1 {
                        assert(!is_available(table@, q + (num_pages - 1)));
                    }
                }
            }
            cnt = 0;
        }
        page = page + 1;
    }
    None
}

/// Whether page `page` can take a new translation.
fn available(table: &PageTable, page: u64) -> (r: bool)
    requires
        table.wf(),
        page <= MAX_FRAME,
    ensures
        r == is_available(table@, page as int),
{
    let addr = page * PAGE_SIZE;
    table.translate_addr(addr).is_none() && addr != 0
}

/// The range of `size` bytes from `start` ends inside the address space.
pub open spec fn range_fits(start: int, size: int) -> bool {
    start + size <= u64::MAX as int + 1
}

/// The number of frames that hold the bytes of the range of `size` bytes
/// from `start`; an empty range counts the frame of `start`.
pub open spec fn pages_spanned(start: int, size: int) -> int {
    if size == 0 {
        1
    } else {
        (start + size - 1) / PAGE_SIZE as int - start / PAGE_SIZE as int + 1
    }
}

/// The number of frames that hold the bytes of the range of `size` bytes
/// from `start`, or `None` where the range ends past the address space.
pub fn frames_spanned(start: u64, size: u64) -> (r: Option<u64>)
    ensures
        r.is_some() <==> range_fits(start as int, size as int),
        r.is_some() ==> r.unwrap() == pages_spanned(start as int, size as int),
{
    if size == 0 {
        return Some(1);
    }
    if size - 1 > u64::MAX - start {
        return None;
    }
    Some((start + (size - 1)) / PAGE_SIZE - start / PAGE_SIZE + 1)
}

/// Maps the physical range of `object_size` bytes from `start` into the
/// first run of free pages of `region` that covers its frames, and returns
/// the virtual address of `start`.
pub fn map_pages_from(table: &mut PageTable, start: u64, object_size: u64, region: PageRange) -> (r: Result<u64, MappingError>)
    requires
        old(table).wf(),
        region.wf(),
    ensures
        final(table).wf(),
        !range_fits(start as int, object_size as int) ==> r == Err::<u64, MappingError>(MappingError::AllocationTooLarge) && final(table)@ == old(table)@,
        range_fits(start as int, object_size as int) ==> ({
            let first = start as int / PAGE_SIZE as int;
            let n = pages_spanned(start as int, object_size as int);
            &&& r.is_err() <==> no_run(old(table)@, region, n)
            &&& r.is_err() ==> r == Err::<u64, MappingError>(MappingError::VirtualAddressSpaceExhausted) && final(table)@ == old(table)@
            &&& r.is_ok() ==> exists|p: int| {
                &&& is_first_run(old(table)@, region, n, p)
                &&& r == Ok::<u64, MappingError>((p * PAGE_SIZE + start as int % PAGE_SIZE as int) as u64)
                &&& maps_run(old(table)@, final(table)@, p, first, n, mmio_flags())
            }
        }),
{
    let num_pages = match frames_spanned(start, object_size) {
        Some(n) => n,
        None => return Err(MappingError::AllocationTooLarge),
    };
    let start_frame = start / PAGE_SIZE;
    let virt = match search_free_addr_from(table, num_pages, region) {
        Some(v) => v,
        None => return Err(MappingError::VirtualAddressSpaceExhausted),
    };
    let ghost m = table@;
    let flags = PRESENT | WRITABLE | USER_ACCESSIBLE;
    let mut i: u64 = 0;
    while i < num_pages
        invariant
            table.wf(),
            region.wf(),
            is_first_run(m, region, num_pages as int, virt as int),
            0 <= i <= num_pages,
            start_frame + num_pages - 1 <= MAX_FRAME,
            flags == mmio_flags(),
            maps_run(m, table@, virt as int, start_frame as int, i as int, flags),
        decreases num_pages - i,
    {
        proof {
            assert(is_available(m, virt + i));
            assert(!table@.contains_key((virt + i) as u64));
        }
        let mapped = table.map_to(virt + i, start_frame + i, flags);
        match mapped {
            Ok(()) => {},
            Err(e) => return Err(e),
        }
        i = i + 1;
    }
    assert(virt * PAGE_SIZE + start % PAGE_SIZE <= u64::MAX) by (nonlinear_arith)
        requires virt < MAX_FRAME + 1;
    Ok(virt * PAGE_SIZE + start % PAGE_SIZE)
}

/// Maps the physical range of `size` bytes from `phys` into the mapping
/// window of the higher half, and returns the virtual address of `phys`.
pub fn map_address(table: &mut PageTable, phys: u64, size: u64) -> (r: Result<u64, MappingError>)
    requires
        old(table).wf(),
    ensures
        final(table).wf(),
        !range_fits(phys as int, size as int) ==> r == Err::<u64, MappingError>(MappingError::AllocationTooLarge) && final(table)@ == old(table)@,
        range_fits(phys as int, size as int) ==> ({
            let region = PageRange { start: MAPPING_WINDOW_START, end: MAPPING_WINDOW_END };
            let first = phys as int / PAGE_SIZE as int;
            let n = pages_spanned(phys as int, size as int);
            &&& r.is_err() <==> no_run(old(table)@, region, n)
            &&& r.is_err() ==> r == Err::<u64, MappingError>(MappingError::VirtualAddressSpaceExhausted) && final(table)@ == old(table)@
            &&& r.is_ok() ==> exists|p: int| {
                &&& is_first_run(old(table)@, region, n, p)
                &&& r == Ok::<u64, MappingError>((p * PAGE_SIZE + phys as int % PAGE_SIZE as int) as u64)
                &&& maps_run(old(table)@, final(table)@, p, first, n, mmio_flags())
            }
        }),
{
    map_pages_from(table, phys, size, PageRange { start: MAPPING_WINDOW_START, end: MAPPING_WINDOW_END })
}

} // verus!
