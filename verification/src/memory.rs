//! Physical memory: the boot memory map and the list of free pages.
use vstd::prelude::*;

verus! {

/// Page size of the x86_64 architecture, in bytes.
pub const PAGE_SIZE: u64 = 4096;

/// What a region of physical memory is used for.
#[derive(Clone, Copy)]
pub enum MemoryRegionKind {
    /// Free memory for the kernel to use.
    Usable,
    /// Memory the bootloader uses, the kernel and its stack among it.
    Bootloader,
    /// A region that UEFI reported with this memory type.
    UnknownUefi(u32),
    /// A region that the BIOS reported with this memory type.
    UnknownBios(u32),
}

/// A region `start..end` of physical memory.
#[derive(Clone, Copy)]
pub struct MemoryRegion {
    pub start: u64,
    pub end: u64,
    pub kind: MemoryRegionKind,
}

/// Whether the kernel may use the region.
pub open spec fn usable(r: MemoryRegion) -> bool {
    r.kind is Usable
}

/// How many whole pages of `page_size` bytes fit in the region.
pub open spec fn page_count(r: MemoryRegion, page_size: u64) -> nat {
    if r.start <= r.end {
        ((r.end - r.start) as nat / page_size as nat) as nat
    } else {
        0
    }
}

/// The virtual addresses of the region's whole pages, lowest first, with
/// physical memory mapped at `offset`.
pub open spec fn region_pages(r: MemoryRegion, page_size: u64, offset: u64) -> Seq<u64> {
    Seq::new(page_count(r, page_size), |k: int| (r.start + k * page_size + offset) as u64)
}

/// The pages of all usable regions, region after region.
pub open spec fn usable_pages(regions: Seq<MemoryRegion>, page_size: u64, offset: u64) -> Seq<u64>
    decreases regions.len(),
{
    if regions.len() == 0 {
        seq![]
    } else {
        usable_pages(regions.drop_last(), page_size, offset) + if usable(regions.last()) {
            region_pages(regions.last(), page_size, offset)
        } else {
            seq![]
        }
    }
}

/// Number of whole pages in the usable regions.
pub open spec fn total_pages(regions: Seq<MemoryRegion>, page_size: u64) -> nat
    decreases regions.len(),
{
    if regions.len() == 0 {
        0
    } else {
        total_pages(regions.drop_last(), page_size) + if usable(regions.last()) {
            page_count(regions.last(), page_size)
        } else {
            0
        }
    }
}

/// Whether walking the region page by page stays within `u64`: the address
/// after the last page, plus a page, and the virtual address of the last
/// page are representable.
pub open spec fn walk_fits(r: MemoryRegion, page_size: u64, offset: u64) -> bool {
    let n = page_count(r, page_size);
    &&& r.start + (n + 1) * page_size <= u64::MAX
    &&& n > 0 ==> r.start + (n - 1) * page_size + offset <= u64::MAX
}

/// The memory map and the constants of physical memory.
pub struct MemoryManager {
    page_size: u64,
    phys_mem_offset: u64,
    mem_map: Option<Vec<MemoryRegion>>,
}

impl MemoryManager {
    pub closed spec fn page_size(&self) -> u64 {
        self.page_size
    }

    pub closed spec fn phys_mem_offset(&self) -> u64 {
        self.phys_mem_offset
    }

    /// The memory map, once known.
    pub closed spec fn regions(&self) -> Option<Seq<MemoryRegion>> {
        match self.mem_map {
            Some(m) => Some(m@),
            None => None,
        }
    }

    /// The page size in bytes.
    pub fn get_page_size(&self) -> (ps: u64)
        ensures
            ps == self.page_size(),
    {
        self.page_size
    }

    /// Before the memory map is known: all zero.
    pub fn new() -> (mm: Self)
        ensures
            mm.page_size() == 0,
            mm.phys_mem_offset() == 0,
            mm.regions() == None::<Seq<MemoryRegion>>,
    {
        MemoryManager { page_size: 0, phys_mem_offset: 0, mem_map: None }
    }
}

/// The free pages, as a stack: the page handed out next is the last.
pub struct PMMListEntry {
    pages: Vec<u64>,
    free_pages: usize,
}

impl PMMListEntry {
    /// The free pages; the last one is the head of the list.
    pub closed spec fn stack(&self) -> Seq<u64> {
        self.pages@
    }

    /// The count of free pages taken at initialisation.
    pub closed spec fn free_pages(&self) -> usize {
        self.free_pages
    }

    /// An empty list with a count of zero.
    pub fn new() -> (pmm: Self)
        ensures
            pmm.stack() == Seq::<u64>::empty(),
            pmm.free_pages() == 0,
    {
        PMMListEntry { pages: Vec::new(), free_pages: 0 }
    }

    /// The recorded count of free pages.
    pub fn free_page_count(&self) -> (n: usize)
        ensures
            n == self.free_pages(),
    {
        self.free_pages
    }

    /// How many pages are still in the list.
    pub fn len(&self) -> (n: usize)
        ensures
            n == self.stack().len(),
    {
        self.pages.len()
    }
}

/// Number of whole pages of `page_size` bytes in the usable regions.
pub fn calculate_free_pages(mem_map: &[MemoryRegion], page_size: u64) -> (n: u64)
    requires
        page_size > 0,
        forall|i: int| 0 <= i < mem_map@.len() && usable(#[trigger] mem_map@[i]) ==> mem_map@[i].start <= mem_map@[i].end,
        total_pages(mem_map@, page_size) <= u64::MAX,
    ensures
        n == total_pages(mem_map@, page_size),
{
    let mut sum_free_pages: u64 = 0;
    let mut i: usize = 0;
    while i < mem_map.len()
        invariant
            i <= mem_map@.len(),
            page_size > 0,
            forall|i: int| 0 <= i < mem_map@.len() && usable(#[trigger] mem_map@[i]) ==> mem_map@[i].start <= mem_map@[i].end,
            total_pages(mem_map@, page_size) <= u64::MAX,
            sum_free_pages == total_pages(mem_map@.subrange(0, i as int), page_size),
        decreases mem_map.len() - i,
    {
        let region = mem_map[i];
        proof {
            assert(mem_map@.subrange(0, i + 1).drop_last() =~= mem_map@.subrange(0, i as int));
            lemma_total_pages_prefix(mem_map@, page_size, i + 1);
        }
        match region.kind {
            MemoryRegionKind::Usable => {
                sum_free_pages += (region.end - region.start) / page_size;
            },
            _ => {},
        }
        i = i + 1;
    }
    assert(mem_map@.subrange(0, mem_map.len() as int) =~= mem_map@);
    sum_free_pages
}

/// The page total of a prefix of the map is at most that of the map.
proof fn lemma_total_pages_prefix(regions: Seq<MemoryRegion>, page_size: u64, n: int)
    requires
        0 <= n <= regions.len(),
    ensures
        total_pages(regions.subrange(0, n), page_size) <= total_pages(regions, page_size),
    decreases regions.len(),
{
    if n < regions.len() {
        assert(regions.drop_last().subrange(0, n) =~= regions.subrange(0, n));
        lemma_total_pages_prefix(regions.drop_last(), page_size, n);
    } else {
        assert(regions.subrange(0, n) =~= regions);
    }
}

/// Records the memory map and makes `pmm` the list of all whole pages of
/// the usable regions, walked region by region from the lowest page up, so
/// that the last page of the last usable region is handed out first. Pages
/// are listed by their virtual address, `phys_mem_offset` above the physical.
pub fn init(
    memory: &mut MemoryManager,
    pmm: &mut PMMListEntry,
    mem_map: Vec<MemoryRegion>,
    phys_mem_offset: u64,
    page_size: u64,
)
    requires
        page_size > 0,
        forall|i: int| 0 <= i < mem_map@.len() && usable(#[trigger] mem_map@[i]) ==> walk_fits(mem_map@[i], page_size, phys_mem_offset),
        total_pages(mem_map@, page_size) <= usize::MAX,
    ensures
        final(memory).page_size() == page_size,
        final(memory).phys_mem_offset() == phys_mem_offset,
        final(memory).regions() == Some(mem_map@),
        final(pmm).stack() == usable_pages(mem_map@, page_size, phys_mem_offset),
        final(pmm).free_pages() == total_pages(mem_map@, page_size),
{
    let mut pages: Vec<u64> = Vec::new();
    let mut count: usize = 0;
    let mut i: usize = 0;
    while i < mem_map.len()
        invariant
            i <= mem_map@.len(),
            page_size > 0,
            forall|i: int| 0 <= i < mem_map@.len() && usable(#[trigger] mem_map@[i]) ==> walk_fits(mem_map@[i], page_size, phys_mem_offset),
            total_pages(mem_map@, page_size) <= usize::MAX,
            pages@ == usable_pages(mem_map@.subrange(0, i as int), page_size, phys_mem_offset),
            count == total_pages(mem_map@.subrange(0, i as int), page_size),
        decreases mem_map.len() - i,
    {
        let region = mem_map[i];
        proof {
            assert(mem_map@.subrange(0, i + 1).drop_last() =~= mem_map@.subrange(0, i as int));
            lemma_total_pages_prefix(mem_map@, page_size, i + 1);
        }
        match region.kind {
            MemoryRegionKind::Usable => {
                let ghost before = pages@;
                let ghost n = page_count(region, page_size);
                let ghost c0 = count as int;
                assert(c0 + n == total_pages(mem_map@.subrange(0, i + 1), page_size));
                let mut current = region.start;
                let mut k: usize = 0;
                proof {
                    assert(region.start + page_size <= u64::MAX) by (nonlinear_arith)
                        requires region.start + (n + 1) * page_size <= u64::MAX, page_size > 0;
                }
                while current + page_size <= region.end
                    invariant
                        page_size > 0,
                        walk_fits(region, page_size, phys_mem_offset),
                        n == page_count(region, page_size),
                        k <= n,
                        current == region.start + k * page_size,
                        current + page_size <= u64::MAX,
                        count == c0 + k,
                        c0 >= 0,
                        c0 + n <= usize::MAX,
                        pages@ == before + region_pages(region, page_size, phys_mem_offset).subrange(0, k as int),
                    decreases region.end - current,
                {
                    proof {
                        lemma_page_walk(region, page_size, k as int);
                        assert(k < n);
                        assert(current + phys_mem_offset <= u64::MAX) by (nonlinear_arith)
                            requires region.start + (n - 1) * page_size + phys_mem_offset <= u64::MAX,
                                k <= n - 1, current == region.start + k * page_size, page_size > 0;
                        assert(region.start + (k + 1 + 1) * page_size <= u64::MAX) by (nonlinear_arith)
                            requires region.start + (n + 1) * page_size <= u64::MAX, k + 1 <= n, page_size > 0;
                    }
                    let virt_adress = current + phys_mem_offset;
                    pages.push(virt_adress);
                    count += 1;
                    current += page_size;
                    k = k + 1;
                    proof {
                        assert(region_pages(region, page_size, phys_mem_offset).subrange(0, k as int) =~=
                            region_pages(region, page_size, phys_mem_offset).subrange(0, k - 1).push(virt_adress));
                        assert(current == region.start + k * page_size) by (nonlinear_arith)
                            requires current == region.start + (k - 1) * page_size + page_size;
                        assert(current + page_size <= u64::MAX) by (nonlinear_arith)
                            requires current == region.start + k * page_size,
                                region.start + (k + 1) * page_size <= u64::MAX;
                    }
                }
                proof {
                    lemma_page_walk(region, page_size, k as int);
                    assert(region_pages(region, page_size, phys_mem_offset).subrange(0, k as int) =~=
                        region_pages(region, page_size, phys_mem_offset));
                }
            },
            _ => {},
        }
        i = i + 1;
    }
    assert(mem_map@.subrange(0, mem_map.len() as int) =~= mem_map@);
    memory.phys_mem_offset = phys_mem_offset;
    memory.page_size = page_size;
    memory.mem_map = Some(mem_map);
    pmm.pages = pages;
    pmm.free_pages = count;
}

/// Whether the map can be counted and walked: the page size is non-zero and
/// every usable region ends after it starts and can be walked within `u64`,
/// and the page total fits both a `usize` and a `u64`.
pub fn can_init(mem_map: &[MemoryRegion], phys_mem_offset: u64, page_size: u64) -> (ok: bool)
    ensures
        ok == (page_size > 0
            && (forall|i: int| 0 <= i < mem_map@.len() && usable(#[trigger] mem_map@[i]) ==>
                mem_map@[i].start <= mem_map@[i].end && walk_fits(mem_map@[i], page_size, phys_mem_offset))
            && total_pages(mem_map@, page_size) <= usize::MAX
            && total_pages(mem_map@, page_size) <= u64::MAX),
{
    if page_size == 0 {
        return false;
    }
    let mut total: u64 = 0;
    let mut i: usize = 0;
    while i < mem_map.len()
        invariant
            i <= mem_map@.len(),
            page_size > 0,
            forall|j: int| 0 <= j < i && usable(#[trigger] mem_map@[j]) ==>
                mem_map@[j].start <= mem_map@[j].end && walk_fits(mem_map@[j], page_size, phys_mem_offset),
            total == total_pages(mem_map@.subrange(0, i as int), page_size),
            total <= usize::MAX,
        decreases mem_map.len() - i,
    {
        let region = mem_map[i];
        proof {
            assert(mem_map@.subrange(0, i + 1).drop_last() =~= mem_map@.subrange(0, i as int));
        }
        match region.kind {
            MemoryRegionKind::Usable => {
                if region.start > region.end {
                    return false;
                }
                let n = (region.end - region.start) / page_size;
                assert(n == page_count(region, page_size));
                assert(n * page_size <= region.end - region.start) by (nonlinear_arith)
                    requires n == (region.end - region.start) as int / (page_size as int), page_size > 0,
                        region.start <= region.end;
                // the address after the last page plus a page
                let after = region.start + n * page_size;
                if after > u64::MAX - page_size {
                    assert(region.start + (n + 1) * page_size > u64::MAX) by (nonlinear_arith)
                        requires after == region.start + n * page_size, after > u64::MAX - page_size;
                    return false;
                }
                assert(region.start + (n + 1) * page_size <= u64::MAX) by (nonlinear_arith)
                    requires after == region.start + n * page_size, after <= u64::MAX - page_size;
                if n > 0 {
                    assert(after >= page_size) by (nonlinear_arith)
                        requires after == region.start + n * page_size, n >= 1, page_size > 0;
                    let last = after - page_size;
                    assert(last == region.start + (n - 1) * page_size) by (nonlinear_arith)
                        requires after == region.start + n * page_size, last == after - page_size;
                    if last > u64::MAX - phys_mem_offset {
                        return false;
                    }
                }
                if total > u64::MAX - n || total + n > usize::MAX as u64 {
                    proof {
                        lemma_total_pages_prefix(mem_map@, page_size, i + 1);
                    }
                    return false;
                }
                total = total + n;
            },
            _ => {},
        }
        i = i + 1;
    }
    assert(mem_map@.subrange(0, mem_map.len() as int) =~= mem_map@);
    true
}

/// The walk of a region goes on exactly while a whole page is left.
proof fn lemma_page_walk(r: MemoryRegion, page_size: u64, k: int)
    requires
        page_size > 0,
        0 <= k <= page_count(r, page_size),
    ensures
        (r.start + k * page_size + page_size <= r.end) == (k < page_count(r, page_size)),
{
    let n = page_count(r, page_size);
    if r.start <= r.end {
        let d = (r.end - r.start) as int;
        vstd::arithmetic::div_mod::lemma_fundamental_div_mod(d, page_size as int);
        assert((k * page_size + page_size <= d) == (k < n)) by (nonlinear_arith)
            requires n == d / (page_size as int), d == page_size * (d / (page_size as int)) + d % (page_size as int),
                0 <= d % (page_size as int) < page_size, page_size > 0, 0 <= k <= n;
    } else {
        assert(k == 0);
    }
}

/// Hands out the head of the free list. The count of free pages is not
/// lowered, so once it is non-zero a page is handed out on every call and
/// the list must not run dry.
pub fn alloc_page(pmm: &mut PMMListEntry) -> (page: Option<u64>)
    requires
        old(pmm).free_pages() == 0 || old(pmm).stack().len() > 0,
    ensures
        old(pmm).free_pages() == 0 ==> page is None && final(pmm).stack() == old(pmm).stack(),
        old(pmm).free_pages() != 0 ==> {
            &&& page == Some(old(pmm).stack().last())
            &&& final(pmm).stack() == old(pmm).stack().drop_last()
        },
        final(pmm).free_pages() == old(pmm).free_pages(),
{
    if pmm.free_pages == 0 {
        return None;
    }
    let head = pmm.pages.pop();
    match head {
        Some(adress) => Some(adress),
        None => None,
    }
}

/// Releasing a page: the address must be page aligned; nothing else happens.
pub fn free_page(memory: &MemoryManager, adress: u64)
    requires
        memory.page_size() > 0,
        adress % memory.page_size() == 0,
{
}

/// A region holds `page_count` whole pages and no more: they fit between
/// its start and its end, and one more page would not.
pub proof fn lemma_page_count_fits(r: MemoryRegion, page_size: u64)
    requires
        page_size > 0,
        r.start <= r.end,
    ensures
        page_count(r, page_size) * page_size <= r.end - r.start < (page_count(r, page_size) + 1) * page_size,
{
    let d = (r.end - r.start) as int;
    let n = page_count(r, page_size) as int;
    vstd::arithmetic::div_mod::lemma_fundamental_div_mod(d, page_size as int);
    assert(n * page_size <= d < (n + 1) * page_size) by (nonlinear_arith)
        requires n == d / (page_size as int), d == page_size * (d / (page_size as int)) + d % (page_size as int),
            0 <= d % (page_size as int) < page_size;
}

/// The count that `init` records is the number of pages it lists.
pub proof fn lemma_count_matches_list(regions: Seq<MemoryRegion>, page_size: u64, offset: u64)
    ensures
        usable_pages(regions, page_size, offset).len() == total_pages(regions, page_size),
    decreases regions.len(),
{
    if regions.len() > 0 {
        lemma_count_matches_list(regions.drop_last(), page_size, offset);
    }
}

/// Every listed page is a whole page of a usable region: its physical
/// address `p` has `start <= p` and `p + page_size <= end`.
pub proof fn lemma_pages_in_usable_regions(regions: Seq<MemoryRegion>, page_size: u64, offset: u64, i: int)
    requires
        page_size > 0,
        0 <= i < usable_pages(regions, page_size, offset).len(),
        forall|j: int| 0 <= j < regions.len() && usable(#[trigger] regions[j]) ==> walk_fits(regions[j], page_size, offset),
    ensures
        exists|j: int| #![trigger regions[j]] 0 <= j < regions.len() && usable(regions[j])
            && regions[j].start <= usable_pages(regions, page_size, offset)[i] - offset
            && usable_pages(regions, page_size, offset)[i] - offset + page_size <= regions[j].end,
    decreases regions.len(),
{
    let rest = regions.drop_last();
    let before = usable_pages(rest, page_size, offset);
    if i < before.len() {
        assert forall|j: int| 0 <= j < rest.len() && usable(#[trigger] rest[j]) implies walk_fits(rest[j], page_size, offset) by {
            assert(rest[j] == regions[j]);
        }
        lemma_pages_in_usable_regions(rest, page_size, offset, i);
        let j = choose|j: int| #![trigger rest[j]] 0 <= j < rest.len() && usable(rest[j])
            && rest[j].start <= before[i] - offset && before[i] - offset + page_size <= rest[j].end;
        assert(regions[j] == rest[j]);
    } else {
        let r = regions.last();
        let k = i - before.len();
        let n = page_count(r, page_size);
        assert(usable(r) && 0 <= k < n);
        assert(regions[regions.len() - 1] == r);
        assert(walk_fits(r, page_size, offset));
        assert(r.start + k * page_size + offset <= u64::MAX) by (nonlinear_arith)
            requires r.start + (n - 1) * page_size + offset <= u64::MAX, 0 <= k <= n - 1, page_size > 0;
        lemma_page_walk(r, page_size, k);
        assert(0 <= k * page_size) by (nonlinear_arith) requires k >= 0, page_size > 0;
        assert(usable_pages(regions, page_size, offset)[i] == (r.start + k * page_size + offset) as u64);
    }
}

/// When the regions come in address order without overlapping, `init`
/// lists every page once, in increasing address order; `alloc_page` then
/// hands them out from the highest down.
pub proof fn lemma_pages_increasing(regions: Seq<MemoryRegion>, page_size: u64, offset: u64)
    requires
        page_size > 0,
        forall|j: int| 0 <= j < regions.len() && usable(#[trigger] regions[j]) ==> walk_fits(regions[j], page_size, offset),
        forall|i: int, j: int| 0 <= i < j < regions.len() ==> #[trigger] regions[i].end <= #[trigger] regions[j].start,
    ensures
        forall|a: int, b: int| 0 <= a < b < usable_pages(regions, page_size, offset).len()
            ==> #[trigger] usable_pages(regions, page_size, offset)[a] < #[trigger] usable_pages(regions, page_size, offset)[b],
    decreases regions.len(),
{
    if regions.len() > 0 {
        let rest = regions.drop_last();
        let r = regions.last();
        assert forall|j: int| 0 <= j < rest.len() && usable(#[trigger] rest[j]) implies walk_fits(rest[j], page_size, offset) by {
            assert(rest[j] == regions[j]);
        }
        assert forall|i: int, j: int| 0 <= i < j < rest.len() implies #[trigger] rest[i].end <= #[trigger] rest[j].start by {
            assert(rest[i] == regions[i] && rest[j] == regions[j]);
        }
        lemma_pages_increasing(rest, page_size, offset);
        let before = usable_pages(rest, page_size, offset);
        if usable(r) {
            let tail = region_pages(r, page_size, offset);
            let n = page_count(r, page_size);
            let all = usable_pages(regions, page_size, offset);
            assert(all == before + tail);
            assert(regions[regions.len() - 1] == r);
            assert(walk_fits(r, page_size, offset));
            assert forall|b: int| 0 <= b < n implies #[trigger] tail[b] == r.start + b * page_size + offset by {
                assert(r.start + b * page_size + offset <= u64::MAX) by (nonlinear_arith)
                    requires r.start + (n - 1) * page_size + offset <= u64::MAX, 0 <= b <= n - 1, page_size > 0;
                assert(0 <= b * page_size) by (nonlinear_arith) requires b >= 0, page_size > 0;
            }
            assert forall|a: int, b: int| 0 <= a < b < all.len() implies #[trigger] all[a] < #[trigger] all[b] by {
                if b < before.len() {
                    assert(all[a] == before[a] && all[b] == before[b]);
                } else if a >= before.len() {
                    let ka = a - before.len();
                    let kb = b - before.len();
                    assert(all[a] == tail[ka] && all[b] == tail[kb]);
                    assert(ka * page_size < kb * page_size) by (nonlinear_arith)
                        requires 0 <= ka < kb, page_size > 0;
                } else {
                    let kb = b - before.len();
                    assert(all[a] == before[a] && all[b] == tail[kb]);
                    lemma_pages_in_usable_regions(rest, page_size, offset, a);
                    let j = choose|j: int| #![trigger rest[j]] 0 <= j < rest.len() && usable(rest[j])
                        && rest[j].start <= before[a] - offset && before[a] - offset + page_size <= rest[j].end;
                    assert(rest[j] == regions[j]);
                    assert(regions[j].end <= regions[regions.len() - 1].start);
                    assert(0 <= kb * page_size) by (nonlinear_arith) requires kb >= 0, page_size > 0;
                }
            }
        } else {
            assert(usable_pages(regions, page_size, offset) =~= before);
        }
    }
}

} // verus!
