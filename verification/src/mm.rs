use vstd::prelude::*;
use crate::entry::{
    lemma_region_flags, lemma_region_flags_xd_keyed, region_flags, word_address, word_present,
    EXECUTE_DISABLE, FLAGS_MASK, HUGE_PAGE, MAX_PHYSICAL_ADDRESS, PageTableEntryFlags,
};
use crate::page::{idx_at, lemma_vpn_bound, vpn, Page, PageIter, PageSize};
use crate::supply::BumpAllocator;
use crate::table::{page_count, range_mapped, range_unmapped, any_replaced, Pml4};
use vstd::pervasive::unreached;

verus! {

/// Protection key of the safe kernel region.
pub const SAFE_MEM_REGION: u8 = 1;

/// Protection key of the unsafe kernel region.
pub const UNSAFE_MEM_REGION: u8 = 2;

/// Protection key of the shared region.
pub const SHARED_MEM_REGION: u8 = 3;

/// PKRU bits that open the unsafe region's key.
pub const UNSAFE_PERMISSION_IN: u32 = 0xC;

/// PKRU bits that close the unsafe region's key.
pub const UNSAFE_PERMISSION_OUT: u32 = !UNSAFE_PERMISSION_IN;

/// No pre-existing huge or large leaf blocks a 4 KiB walk anywhere in the
/// `count` slots starting at `n0`: the condition under which a batched
/// 4 KiB map may pass through.
pub open spec fn base_range_open(root: Pml4, n0: int, count: int) -> bool {
    &&& forall|m: int|
        n0 / 0x40000 <= m <= (n0 + count - 1) / 0x40000 && word_present(
            #[trigger] root.word2(m),
        ) ==> !word_huge_at2(root, m)
    &&& forall|m: int|
        n0 / 512 <= m <= (n0 + count - 1) / 512 && word_present(#[trigger] root.word1(m))
            ==> !word_huge_at1(root, m)
}

/// The huge bit of the level-2 word the walk reaches for slot `m`.
pub open spec fn word_huge_at2(root: Pml4, m: int) -> bool {
    crate::entry::word_huge(root.word2(m))
}

/// The huge bit of the level-1 word the walk reaches for slot `m`.
pub open spec fn word_huge_at1(root: Pml4, m: int) -> bool {
    crate::entry::word_huge(root.word1(m))
}

/// The size of a base page, as the C interface reports it.
pub fn getpagesize() -> (r: i32)
    ensures
        r == 4096,
{
    4096
}

/// How a fault was resolved: a fresh frame was mapped under the faulting
/// address (to be zeroed first when the runtime asks for zeroed pages),
/// the address was already backed, or the fault is fatal and the caller
/// must emit its diagnostic and halt.
#[derive(Clone, Copy, PartialEq, Eq, Structural, Debug)]
pub enum FaultOutcome {
    /// A frame was installed; it must be presented zeroed when `zeroed`.
    Mapped { zeroed: bool },
    /// A translation already existed; nothing was changed.
    AlreadyBacked,
    /// The address lies outside the faulting task's heap.
    Fatal,
}

/// The kernel's one address space with its two range suppliers and the
/// region bookkeeping of the boot path.
pub struct Mm {
    /// The root of the page-table hierarchy.
    pub root: Pml4,
    /// Supplier of physical frames.
    pub physicalmem: BumpAllocator,
    /// Supplier of virtual ranges.
    pub virtualmem: BumpAllocator,
    /// First byte of the 2 MiB pages that map the kernel image.
    pub kernel_start_address: u64,
    /// First byte after the kernel image's 2 MiB pages.
    pub kernel_end_address: u64,
    /// First byte of the kernel heap.
    pub heap_start_address: u64,
    /// First byte after the mapped kernel heap.
    pub heap_end_address: u64,
    /// First byte of the task heap.
    pub user_heap_start_address: u64,
    /// First byte after the task heap.
    pub user_heap_end_address: u64,
    /// Size of the task heap in bytes.
    pub user_heap_size: u64,
    /// Whether the runtime on top asked for zeroed pages.
    pub zeroed_pages: bool,
    /// Whether the processor supports 1 GiB pages.
    pub has_1gib_pages: bool,
}

impl Mm {
    /// The hierarchy and both suppliers are well formed, the physical arena
    /// stays below the architecture's physical address width, and the
    /// virtual arena stays inside the low canonical half, away from the
    /// self-reference slot.
    pub open spec fn wf(self) -> bool {
        &&& self.root.wf()
        &&& self.physicalmem.wf()
        &&& self.virtualmem.wf()
        &&& self.physicalmem.arena_end <= MAX_PHYSICAL_ADDRESS
        &&& 0x1000 <= u64::MAX - self.physicalmem.arena_end
        &&& self.virtualmem.arena_end <= 0x8000_0000_0000
    }

    /// Everything except the hierarchy and the two suppliers is unchanged.
    pub open spec fn same_config(self, other: Mm) -> bool {
        &&& self.kernel_start_address == other.kernel_start_address
        &&& self.kernel_end_address == other.kernel_end_address
        &&& self.heap_start_address == other.heap_start_address
        &&& self.heap_end_address == other.heap_end_address
        &&& self.user_heap_start_address == other.user_heap_start_address
        &&& self.user_heap_end_address == other.user_heap_end_address
        &&& self.user_heap_size == other.user_heap_size
        &&& self.zeroed_pages == other.zeroed_pages
        &&& self.has_1gib_pages == other.has_1gib_pages
    }

    /// A fresh address space over the given arenas. The first physical
    /// frame of the arena is taken for the root table itself.
    pub fn new(phys_start: u64, phys_end: u64, virt_start: u64, virt_end: u64,
        has_1gib_pages: bool) -> (r: Mm)
        requires
            phys_start % 0x1000 == 0,
            phys_start + 0x1000 <= phys_end,
            phys_end <= MAX_PHYSICAL_ADDRESS,
            0x1000 <= u64::MAX - phys_end,
            virt_start % 0x1000 == 0,
            virt_start <= virt_end,
            virt_end <= 0x8000_0000_0000,
        ensures
            r.wf(),
            r.physicalmem.arena_start == phys_start,
            r.physicalmem.next == phys_start + 0x1000,
            r.physicalmem.arena_end == phys_end,
            r.virtualmem.arena_start == virt_start,
            r.virtualmem.next == virt_start,
            r.virtualmem.arena_end == virt_end,
            forall|i: int| 0 <= i < 511 ==> r.root.word3(i) == 0,
            forall|n: int| 0 <= n < 0x40000 ==> r.root.word2(n) == 0,
            forall|n: int| 0 <= n < 0x800_0000 ==> r.root.word1(n) == 0,
            forall|n: int| 0 <= n < 0x10_0000_0000 ==> r.root.word0(n) == 0,
            r.has_1gib_pages == has_1gib_pages,
            r.zeroed_pages == false,
            r.kernel_start_address == 0 && r.kernel_end_address == 0,
            r.heap_start_address == 0 && r.heap_end_address == 0,
            r.user_heap_start_address == 0 && r.user_heap_end_address == 0,
            r.user_heap_size == 0,
    {
        let mut physicalmem = BumpAllocator::new(phys_start, phys_end);
        let root_frame = match physicalmem.allocate(0x1000) {
            Ok(f) => f,
            Err(_) => unreached(),
        };
        let root = Pml4::new(root_frame);
        Mm {
            root,
            physicalmem,
            virtualmem: BumpAllocator::new(virt_start, virt_end),
            kernel_start_address: 0,
            kernel_end_address: 0,
            heap_start_address: 0,
            heap_end_address: 0,
            user_heap_start_address: 0,
            user_heap_end_address: 0,
            user_heap_size: 0,
            zeroed_pages: false,
            has_1gib_pages,
        }
    }

    /// Takes a fresh physical run and a fresh virtual range of `size`
    /// bytes each and maps the one onto the other with 4 KiB pages
    /// carrying `flags`. Returns the start of the virtual range.
    fn region_allocate(&mut self, size: u64, flags: u64) -> (r: u64)
        requires
            old(self).wf(),
            size % 0x1000 == 0,
            size >= 0x1000,
            flags & HUGE_PAGE == 0,
            old(self).virtualmem.free_bytes() >= size,
            old(self).physicalmem.free_bytes() >= size + 0x3000 * (size as int / 0x1000),
            base_range_open(
                old(self).root,
                vpn(old(self).virtualmem.next),
                size as int / 0x1000,
            ),
        ensures
            final(self).wf(),
            final(self).same_config(*old(self)),
            r == old(self).virtualmem.next,
            final(self).virtualmem.arena_start == old(self).virtualmem.arena_start,
            final(self).virtualmem.arena_end == old(self).virtualmem.arena_end,
            final(self).virtualmem.freed == old(self).virtualmem.freed,
            final(self).virtualmem.next == r + size,
            final(self).physicalmem.arena_start == old(self).physicalmem.arena_start,
            final(self).physicalmem.arena_end == old(self).physicalmem.arena_end,
            final(self).physicalmem.freed == old(self).physicalmem.freed,
            old(self).physicalmem.next + size <= final(self).physicalmem.next
                <= old(self).physicalmem.next + size + 0x3000 * (size as int / 0x1000),
            range_mapped(
                old(self).root,
                final(self).root,
                PageSize::Base,
                vpn(r),
                size as int / 0x1000,
                old(self).physicalmem.next as int,
                flags,
            ),
            final(self).root.word3(511) == old(self).root.word3(511),
    {
        let ghost count = size as int / 0x1000;
        proof {
            vstd::arithmetic::div_mod::lemma_fundamental_div_mod(size as int, 0x1000);
            assert(count * 0x1000 == size);
            assert(count >= 1);
        }
        let physical_address = match self.physicalmem.allocate(size) {
            Ok(a) => a,
            Err(_) => unreached(),
        };
        let virtual_address = match self.virtualmem.allocate(size) {
            Ok(a) => a,
            Err(_) => unreached(),
        };
        proof {
            lemma_vpn_bound(virtual_address);
            lemma_vpn_bound((virtual_address + size - 0x1000) as u64);
            crate::page::lemma_vpn_diff(
                virtual_address,
                (virtual_address + size - 0x1000) as u64,
            );
            vstd::arithmetic::div_mod::lemma_hoist_over_denominator(
                size as int - 0x1000,
                1,
                0x1000,
            );
            assert((size as int - 0x1000) / 0x1000 + 1 == count);
            vstd::arithmetic::div_mod::lemma_div_is_ordered(
                vpn(virtual_address),
                0x7_FFFF_FFFF,
                0x800_0000,
            );
            vstd::arithmetic::div_mod::lemma_div_is_ordered(
                vpn((virtual_address + size - 0x1000) as u64),
                0x7_FFFF_FFFF,
                0x800_0000,
            );
        }
        let first = Page::including_address(virtual_address, PageSize::Base);
        let last = Page::including_address(virtual_address + size - 0x1000, PageSize::Base);
        let range = Page::range(first, last);
        let _ = self.root.map_pages(range, physical_address, flags, true,
            &mut self.physicalmem);
        virtual_address
    }

    /// Maps `sz` bytes, rounded up to whole pages, of fresh memory into the
    /// safe region: writable, protection key of the safe region, and
    /// execute-disabled on request. Returns the virtual address.
    pub fn allocate(&mut self, sz: u64, execute_disable: bool) -> (r: u64)
        requires
            old(self).wf(),
            1 <= sz <= u64::MAX - 0xFFF,
            old(self).virtualmem.free_bytes() >= crate::supply::spec_align_up(sz as int, 0x1000),
            old(self).physicalmem.free_bytes() >= 4 * crate::supply::spec_align_up(
                sz as int,
                0x1000,
            ),
            base_range_open(
                old(self).root,
                vpn(old(self).virtualmem.next),
                crate::supply::spec_align_up(sz as int, 0x1000) / 0x1000,
            ),
        ensures
            final(self).wf(),
            final(self).same_config(*old(self)),
            r == old(self).virtualmem.next,
            range_mapped(
                old(self).root,
                final(self).root,
                PageSize::Base,
                vpn(r),
                crate::supply::spec_align_up(sz as int, 0x1000) / 0x1000,
                old(self).physicalmem.next as int,
                region_flags(SAFE_MEM_REGION as u64, execute_disable, false),
            ),
            final(self).root.word3(511) == old(self).root.word3(511),
            final(self).virtualmem.next == r + crate::supply::spec_align_up(sz as int, 0x1000),
    {
        let size = align_up_page(sz);
        let mut flags = PageTableEntryFlags::empty().normal().writable().pkey(
            SAFE_MEM_REGION as u64,
        );
        if execute_disable {
            flags = flags.execute_disable();
        }
        proof {
            lemma_region_flags(SAFE_MEM_REGION as u64, execute_disable, false);
            lemma_flags_budget(size);
        }
        self.region_allocate(size, flags.bits)
    }

    /// Maps fresh memory into the unsafe region (its own protection key).
    pub fn unsafe_allocate(&mut self, sz: u64, execute_disable: bool) -> (r: u64)
        requires
            old(self).wf(),
            1 <= sz <= u64::MAX - 0xFFF,
            old(self).virtualmem.free_bytes() >= crate::supply::spec_align_up(sz as int, 0x1000),
            old(self).physicalmem.free_bytes() >= 4 * crate::supply::spec_align_up(
                sz as int,
                0x1000,
            ),
            base_range_open(
                old(self).root,
                vpn(old(self).virtualmem.next),
                crate::supply::spec_align_up(sz as int, 0x1000) / 0x1000,
            ),
        ensures
            final(self).wf(),
            final(self).same_config(*old(self)),
            r == old(self).virtualmem.next,
            range_mapped(
                old(self).root,
                final(self).root,
                PageSize::Base,
                vpn(r),
                crate::supply::spec_align_up(sz as int, 0x1000) / 0x1000,
                old(self).physicalmem.next as int,
                region_flags(UNSAFE_MEM_REGION as u64, execute_disable, false),
            ),
            final(self).root.word3(511) == old(self).root.word3(511),
            final(self).virtualmem.next == r + crate::supply::spec_align_up(sz as int, 0x1000),
    {
        let size = align_up_page(sz);
        let mut flags = PageTableEntryFlags::empty().normal().writable().pkey(
            UNSAFE_MEM_REGION as u64,
        );
        if execute_disable {
            flags = flags.execute_disable();
        }
        proof {
            lemma_region_flags(UNSAFE_MEM_REGION as u64, execute_disable, false);
            lemma_flags_budget(size);
        }
        self.region_allocate(size, flags.bits)
    }

    /// Maps fresh memory into the shared region (its own protection key).
    pub fn shared_allocate(&mut self, sz: u64, execute_disable: bool) -> (r: u64)
        requires
            old(self).wf(),
            1 <= sz <= u64::MAX - 0xFFF,
            old(self).virtualmem.free_bytes() >= crate::supply::spec_align_up(sz as int, 0x1000),
            old(self).physicalmem.free_bytes() >= 4 * crate::supply::spec_align_up(
                sz as int,
                0x1000,
            ),
            base_range_open(
                old(self).root,
                vpn(old(self).virtualmem.next),
                crate::supply::spec_align_up(sz as int, 0x1000) / 0x1000,
            ),
        ensures
            final(self).wf(),
            final(self).same_config(*old(self)),
            r == old(self).virtualmem.next,
            range_mapped(
                old(self).root,
                final(self).root,
                PageSize::Base,
                vpn(r),
                crate::supply::spec_align_up(sz as int, 0x1000) / 0x1000,
                old(self).physicalmem.next as int,
                region_flags(SHARED_MEM_REGION as u64, execute_disable, false),
            ),
            final(self).root.word3(511) == old(self).root.word3(511),
            final(self).virtualmem.next == r + crate::supply::spec_align_up(sz as int, 0x1000),
    {
        let size = align_up_page(sz);
        let mut flags = PageTableEntryFlags::empty().normal().writable().pkey(
            SHARED_MEM_REGION as u64,
        );
        if execute_disable {
            flags = flags.execute_disable();
        }
        proof {
            lemma_region_flags(SHARED_MEM_REGION as u64, execute_disable, false);
            lemma_flags_budget(size);
        }
        self.region_allocate(size, flags.bits)
    }

    /// Maps fresh memory reachable from ring 3, under the default key.
    pub fn user_allocate(&mut self, sz: u64, execute_disable: bool) -> (r: u64)
        requires
            old(self).wf(),
            1 <= sz <= u64::MAX - 0xFFF,
            old(self).virtualmem.free_bytes() >= crate::supply::spec_align_up(sz as int, 0x1000),
            old(self).physicalmem.free_bytes() >= 4 * crate::supply::spec_align_up(
                sz as int,
                0x1000,
            ),
            base_range_open(
                old(self).root,
                vpn(old(self).virtualmem.next),
                crate::supply::spec_align_up(sz as int, 0x1000) / 0x1000,
            ),
        ensures
            final(self).wf(),
            final(self).same_config(*old(self)),
            r == old(self).virtualmem.next,
            range_mapped(
                old(self).root,
                final(self).root,
                PageSize::Base,
                vpn(r),
                crate::supply::spec_align_up(sz as int, 0x1000) / 0x1000,
                old(self).physicalmem.next as int,
                region_flags(0, execute_disable, true),
            ),
            final(self).root.word3(511) == old(self).root.word3(511),
            final(self).virtualmem.next == r + crate::supply::spec_align_up(sz as int, 0x1000),
    {
        let size = align_up_page(sz);
        let mut flags = PageTableEntryFlags::empty().normal().writable().user_accessible();
        if execute_disable {
            flags = flags.execute_disable();
        }
        proof {
            lemma_region_flags(0, execute_disable, true);
            lemma_flags_budget(size);
        }
        self.region_allocate(size, flags.bits)
    }

    /// Maps fresh memory for device access: writable, execute-disabled,
    /// default key.
    pub fn allocate_iomem(&mut self, sz: u64) -> (r: u64)
        requires
            old(self).wf(),
            1 <= sz <= u64::MAX - 0xFFF,
            old(self).virtualmem.free_bytes() >= crate::supply::spec_align_up(sz as int, 0x1000),
            old(self).physicalmem.free_bytes() >= 4 * crate::supply::spec_align_up(
                sz as int,
                0x1000,
            ),
            base_range_open(
                old(self).root,
                vpn(old(self).virtualmem.next),
                crate::supply::spec_align_up(sz as int, 0x1000) / 0x1000,
            ),
        ensures
            final(self).wf(),
            final(self).same_config(*old(self)),
            r == old(self).virtualmem.next,
            range_mapped(
                old(self).root,
                final(self).root,
                PageSize::Base,
                vpn(r),
                crate::supply::spec_align_up(sz as int, 0x1000) / 0x1000,
                old(self).physicalmem.next as int,
                region_flags(0, true, false),
            ),
            final(self).root.word3(511) == old(self).root.word3(511),
            final(self).virtualmem.next == r + crate::supply::spec_align_up(sz as int, 0x1000),
    {
        let size = align_up_page(sz);
        let flags = PageTableEntryFlags::empty().normal().writable().execute_disable();
        proof {
            lemma_region_flags(0, true, false);
            lemma_flags_budget(size);
        }
        self.region_allocate(size, flags.bits)
    }

    /// Hands a mapped region back to the two suppliers: the backing
    /// physical address is read out of the leaf entry of the region's
    /// first page. The region must still be mapped; unmapping is the
    /// caller's business, before or after.
    pub fn deallocate(&mut self, virtual_address: u64, sz: u64)
        requires
            old(self).wf(),
            1 <= sz <= u64::MAX - 0xFFF,
            crate::page::spec_is_valid_address(virtual_address),
            word_present(
                old(self).root.word0(
                    vpn((virtual_address - virtual_address % 0x1000) as u64),
                ),
            ),
        ensures
            final(self).wf(),
            final(self).same_config(*old(self)),
            final(self).root == old(self).root,
            final(self).physicalmem.next == old(self).physicalmem.next,
            final(self).virtualmem.next == old(self).virtualmem.next,
            final(self).physicalmem.arena_start == old(self).physicalmem.arena_start,
            final(self).physicalmem.arena_end == old(self).physicalmem.arena_end,
            final(self).virtualmem.arena_start == old(self).virtualmem.arena_start,
            final(self).virtualmem.arena_end == old(self).virtualmem.arena_end,
            final(self).virtualmem.freed == ({
                let size = crate::supply::spec_align_up(sz as int, 0x1000);
                if old(self).virtualmem.freed + size <= u64::MAX {
                    (old(self).virtualmem.freed + size) as u64
                } else {
                    u64::MAX
                }
            }),
            final(self).physicalmem.freed == ({
                let size = crate::supply::spec_align_up(sz as int, 0x1000);
                if old(self).physicalmem.freed + size <= u64::MAX {
                    (old(self).physicalmem.freed + size) as u64
                } else {
                    u64::MAX
                }
            }),
            final(self).virtualmem.last_freed_address == virtual_address,
            final(self).physicalmem.last_freed_address == word_address(
                old(self).root.word0(vpn((virtual_address - virtual_address % 0x1000) as u64)),
            ),
    {
        let size = align_up_page(sz);
        let page = Page::including_address(virtual_address, PageSize::Base);
        let entry = match self.root.get_page_table_entry(page) {
            Some(e) => e,
            None => unreached(),
        };
        self.virtualmem.deallocate(virtual_address, size);
        let frame = entry.address();
        self.physicalmem.deallocate(frame, size);
    }

    /// The numbers of both suppliers, for the caller to print: physical
    /// arena first, virtual arena second.
    pub fn print_information(&self) -> (r: ((u64, u64, u64, u64), (u64, u64, u64, u64)))
        ensures
            r.0 == (self.physicalmem.arena_start, self.physicalmem.next,
            self.physicalmem.arena_end, self.physicalmem.freed),
            r.1 == (self.virtualmem.arena_start, self.virtualmem.next,
            self.virtualmem.arena_end, self.virtualmem.freed),
    {
        (self.physicalmem.information(), self.virtualmem.information())
    }

    /// Physical and virtual address of the first 2 MiB page that maps the
    /// kernel.
    pub fn kernel_start_address(&self) -> (r: u64)
        ensures
            r == self.kernel_start_address,
    {
        self.kernel_start_address
    }

    /// Physical and virtual address of the first page after the kernel.
    pub fn kernel_end_address(&self) -> (r: u64)
        ensures
            r == self.kernel_end_address,
    {
        self.kernel_end_address
    }

    /// Start address of the task heap.
    pub fn task_heap_start(&self) -> (r: u64)
        ensures
            r == self.user_heap_start_address,
    {
        self.user_heap_start_address
    }

    /// End address of the task heap.
    pub fn task_heap_end(&self) -> (r: u64)
        ensures
            r == self.user_heap_end_address,
    {
        self.user_heap_end_address
    }

    /// Sets up the memory subsystem at boot: computes the 2 MiB bounds of
    /// the kernel image, identity-maps the low memory and the two fixed
    /// data sections, reserves worst-case page-table space, and maps the
    /// kernel heap (a small first part, then the rest) with 2 MiB pages
    /// keyed to the unsafe region. Returns false when the machine has too
    /// little memory for kernel, reservations and heap.
    #[verifier::rlimit(100)]
    #[verifier::spinoff_prover]
    pub fn init(&mut self, base_address: u64, image_size: u64, total_memory: u64) -> (r: bool)
        requires
            old(self).wf(),
            base_address + image_size <= u64::MAX - 0x20_0000,
            total_memory <= MAX_PHYSICAL_ADDRESS,
            base_range_open(old(self).root, 0, 512),
            forall|m: int|
                0 <= m < 0x40000 && word_present(#[trigger] old(self).root.word2(m))
                    ==> !word_huge_at2(old(self).root, m),
            old(self).physicalmem.free_bytes() >= 0x3000 * 512 + 0x6000,
            old(self).virtualmem.arena_start >= 0x80_0000,
            old(self).virtualmem.free_bytes() >= 0xA0_0000,
        ensures
            final(self).wf(),
            final(self).kernel_start_address == base_address - base_address % 0x20_0000,
            final(self).kernel_end_address == crate::supply::spec_align_up(
                base_address + image_size,
                0x20_0000,
            ),
            final(self).root.word3(511) == old(self).root.word3(511),
            final(self).root.word0(0) == crate::entry::word_rekeyed(
                crate::entry::word_set(0, crate::entry::DIRTY | region_flags(
                    SAFE_MEM_REGION as u64,
                    true,
                    false,
                )),
                0,
            ),
            forall|m: int|
                1 <= m < 512 ==> #[trigger] final(self).root.word0(m) == crate::entry::word_set(
                    (m * 0x1000) as u64,
                    crate::entry::DIRTY | region_flags(SAFE_MEM_REGION as u64, true, false),
                ),
            r == init_memory_sufficient(base_address, image_size, total_memory),
            total_memory >= spec_kernel_end(base_address, image_size) + spec_reserved_space(
                total_memory,
            ) + 0x20_0000 ==> final(self).root.word1(2) == crate::entry::word_set(
                0x40_0000,
                crate::entry::DIRTY | HUGE_PAGE | region_flags(SAFE_MEM_REGION as u64, true,
                false),
            ),
            total_memory >= spec_kernel_end(base_address, image_size) + spec_reserved_space(
                total_memory,
            ) + 0x20_0000 ==> final(self).root.word1(3) == crate::entry::word_set(
                0x60_0000,
                crate::entry::DIRTY | HUGE_PAGE | region_flags(UNSAFE_MEM_REGION as u64, true,
                false),
            ),
            r ==> {
                &&& final(self).heap_start_address == crate::supply::spec_align_up(
                    old(self).virtualmem.next as int,
                    0x20_0000,
                )
                &&& final(self).heap_start_address <= final(self).heap_end_address
                    <= final(self).heap_start_address + 0x80_0000
                &&& final(self).heap_end_address % 0x20_0000 == 0
                &&& forall|s: int|
                    vpn(final(self).heap_start_address) / 512 <= s < vpn(
                        final(self).heap_end_address,
                    ) / 512 ==> exists|p: u64|
                        #[trigger] final(self).root.word1(s) == crate::entry::word_set(
                            p,
                            crate::entry::DIRTY | HUGE_PAGE | heap_flags(true),
                        ) && p % 0x20_0000 == 0 && p < MAX_PHYSICAL_ADDRESS
            },
    {
        let kernel_start = (base_address / 0x20_0000) * 0x20_0000;
        let kernel_end = ((base_address + image_size + 0x1F_FFFF) / 0x20_0000) * 0x20_0000;
        proof {
            lemma_large_align(base_address, image_size);
        }
        self.kernel_start_address = kernel_start;
        self.kernel_end_address = kernel_end;
        self.init_pages_before_kernel();
        // worst-case space for the page tables that backing all of memory
        // with 4 KiB pages would take
        let npages = total_memory / 0x1000;
        let npage_3tables = npages / 512 + 1;
        let npage_2tables = npage_3tables / 512 + 1;
        let npage_1tables = npage_2tables / 512 + 1;
        proof {
            lemma_reserved_bounds(total_memory);
        }
        let reserved_space = (npage_3tables + npage_2tables + npage_1tables) * 0x1000
            + 0x20_0000;
        proof {
            assert(reserved_space == spec_reserved_space(total_memory));
            assert(kernel_end == spec_kernel_end(base_address, image_size));
        }
        if total_memory < kernel_end || total_memory - kernel_end < reserved_space
            + 0x20_0000 {
            proof {
                assert(!init_memory_sufficient(base_address, image_size, total_memory));
            }
            return false;
        }
        proof {
            lemma_data_section_facts(0x40_0000);
            lemma_data_section_facts(0x60_0000);
            vstd::arithmetic::div_mod::lemma_basic_div(0x400, 0x40000);
            vstd::arithmetic::div_mod::lemma_basic_div(0x600, 0x40000);
        }
        let ghost after_low = *self;
        self.allocate_safe_data();
        proof {
            assert(crate::entry::word_links(self.root.word2(0)));
        }
        self.allocate_unsafe_data();
        let ghost after_boot = *self;
        proof {
            assert(0x400int / 512 == 2 && 0x600int / 512 == 3) by (nonlinear_arith);
            assert forall|m: int| 0 <= m < 512 implies self.root.word0(m)
                == after_low.root.word0(m) by {
                vstd::arithmetic::div_mod::lemma_basic_div(m, 512);
                vstd::arithmetic::div_mod::lemma_basic_div(m, 0x40000);
            }
            assert(self.root.word1(2) == crate::entry::word_set(
                0x40_0000,
                crate::entry::DIRTY | HUGE_PAGE | region_flags(SAFE_MEM_REGION as u64, true,
                false),
            ));
            assert(self.root.word1(3) == crate::entry::word_set(
                0x60_0000,
                crate::entry::DIRTY | HUGE_PAGE | region_flags(UNSAFE_MEM_REGION as u64, true,
                false),
            ));
        }
        // at first, only a small part of the heap is mapped; the rest
        // follows once the first pages can already be used
        let virt_size: u64 = 4 * 0x20_0000;
        let avail_raw = total_memory - kernel_end - reserved_space;
        let avail = (avail_raw / 0x20_0000) * 0x20_0000;
        if avail < virt_size {
            proof {
                assert(!init_memory_sufficient(base_address, image_size, total_memory));
            }
            return false;
        }
        proof {
            assert(init_memory_sufficient(base_address, image_size, total_memory));
        }
        self.user_heap_size = avail - virt_size;
        let virt_addr = match self.virtualmem.allocate_aligned(virt_size, 0x20_0000) {
            Ok(v) => v,
            Err(_) => unreached(),
        };
        proof {
            lemma_data_section_facts(0x60_0000);
            lemma_data_section_facts(0x40_0000);
            lemma_low_identity_facts();
            crate::page::lemma_vpn_bound(virt_addr);
            crate::page::lemma_vpn_align(virt_addr);
            assert forall|m: int|
                0 <= m < 0x40000 && word_present(#[trigger] self.root.word2(m)) implies
                !word_huge_at2(self.root, m) by {
                if m == 0 {
                    assert(crate::entry::word_links(self.root.word2(0)));
                } else {
                    assert(self.root.word2(m) == old(self).root.word2(m));
                }
            }
        }
        let mut counter: u64 = 0;
        if self.has_1gib_pages && virt_size > 0x4000_0000 {
            counter = self.map_heap(virt_addr, 0x4000_0000, true, PageSize::Huge);
        }
        if counter == 0 {
            counter = self.map_heap(virt_addr, 0x20_0000, true, PageSize::Large);
        }
        self.heap_start_address = virt_addr;
        let ghost after_first = *self;
        let ghost s0 = vpn(virt_addr) / 512;
        let ghost mut covered: int = counter as int / 0x20_0000;
        let mut map_addr = virt_addr + counter;
        let mut map_size = virt_size - counter;
        proof {
            vstd::arithmetic::div_mod::lemma_fundamental_div_mod(counter as int, 0x20_0000);
            assert(covered * 0x20_0000 == counter);
            crate::page::lemma_vpn_add_multiple(virt_addr, counter);
            assert(vpn(map_addr) == vpn(virt_addr) + covered * 512) by (nonlinear_arith)
                requires
                    vpn(map_addr) == vpn(virt_addr) + counter as int / 0x1000,
                    counter == covered * 0x20_0000,
                    counter as int / 0x1000 == covered * 512,
            ;
            assert(counter as int / 0x1000 == covered * 512) by {
                vstd::arithmetic::div_mod::lemma_div_by_multiple(covered * 512, 0x1000);
                assert(covered * 0x20_0000 == (covered * 512) * 0x1000) by (nonlinear_arith);
            }
            assert(forall|s: int|
                s0 <= s < s0 + covered ==> exists|p: u64|
                    #[trigger] self.root.word1(s) == crate::entry::word_set(
                        p,
                        crate::entry::DIRTY | HUGE_PAGE | heap_flags(true),
                    ) && p % 0x20_0000 == 0 && p < MAX_PHYSICAL_ADDRESS);
            assert(map_addr % 0x20_0000 == 0) by {
                vstd::arithmetic::div_mod::lemma_add_mod_noop(
                    virt_addr as int,
                    counter as int,
                    0x20_0000,
                );
                vstd::arithmetic::div_mod::lemma_small_mod(0nat, 0x20_0000);
                vstd::arithmetic::div_mod::lemma_mod_multiples_basic(covered, 0x20_0000);
            }
        }
        if self.has_1gib_pages && map_size > 0x4000_0000 && (map_addr & !0x3FFF_FFFFu64) == 0 {
            let huge_counter = self.map_heap(map_addr, map_size, true, PageSize::Huge);
            map_size = map_size - huge_counter;
            map_addr = map_addr + huge_counter;
        }
        if map_size > 0x20_0000 {
            proof {
                crate::page::lemma_vpn_bound(virt_addr);
                crate::page::lemma_vpn_bound(map_addr);
                crate::page::lemma_vpn_align(virt_addr);
                crate::page::lemma_vpn_align(map_addr);
                assert(map_addr as int % 0x20_0000 == 0) by {
                    vstd::arithmetic::div_mod::lemma_add_mod_noop(
                        virt_addr as int,
                        counter as int,
                        0x20_0000,
                    );
                    vstd::arithmetic::div_mod::lemma_small_mod(0nat, 0x20_0000);
                    vstd::arithmetic::div_mod::lemma_mod_multiples_basic(covered, 0x20_0000);
                    assert(counter as int % 0x20_0000 == 0);
                }
                assert forall|m: int|
                    0 <= m < 0x40000 && word_present(#[trigger] self.root.word2(m)) implies
                    !word_huge_at2(self.root, m) by {
                    if covered > 0 && vpn(virt_addr) / 0x40000 <= m <= (vpn(virt_addr) + (
                    covered - 1) * 512) / 0x40000 {
                        assert(crate::entry::word_links(self.root.word2(m)));
                    } else {
                        assert(self.root.word2(m) == after_first.root.word2(m));
                    }
                }
            }
            let ghost before_second = *self;
            let large_counter = self.map_heap(map_addr, map_size, true, PageSize::Large);
            proof {
                let k2 = large_counter as int / 0x20_0000;
                vstd::arithmetic::div_mod::lemma_fundamental_div_mod(
                    large_counter as int,
                    0x20_0000,
                );
                assert(k2 * 0x20_0000 == large_counter);
                crate::page::lemma_vpn_align(map_addr);
                vstd::arithmetic::div_mod::lemma_hoist_over_denominator(
                    0,
                    s0 + covered,
                    512,
                );
                assert(vpn(map_addr) / 512 == s0 + covered) by {
                    crate::page::lemma_vpn_align(virt_addr);
                    vstd::arithmetic::div_mod::lemma_fundamental_div_mod(
                        vpn(virt_addr),
                        512,
                    );
                    vstd::arithmetic::div_mod::lemma_fundamental_div_mod_converse_div(
                        vpn(map_addr),
                        512,
                        s0 + covered,
                        0,
                    );
                    assert(vpn(map_addr) == (s0 + covered) * 512 + 0) by (nonlinear_arith)
                        requires
                            vpn(map_addr) == vpn(virt_addr) + covered * 512,
                            vpn(virt_addr) == 512 * s0 + 0,
                    ;
                }
                assert forall|s: int| s0 <= s < s0 + covered + k2 implies exists|p: u64|
                    #[trigger] self.root.word1(s) == crate::entry::word_set(
                        p,
                        crate::entry::DIRTY | HUGE_PAGE | heap_flags(true),
                    ) && p % 0x20_0000 == 0 && p < MAX_PHYSICAL_ADDRESS by {
                    if s < s0 + covered {
                        let p = choose|p: u64|
                            #[trigger] before_second.root.word1(s) == crate::entry::word_set(
                                p,
                                crate::entry::DIRTY | HUGE_PAGE | heap_flags(true),
                            ) && p % 0x20_0000 == 0 && p < MAX_PHYSICAL_ADDRESS;
                        assert(self.root.word1(s) == before_second.root.word1(s));
                        assert(self.root.word1(s) == crate::entry::word_set(
                            p,
                            crate::entry::DIRTY | HUGE_PAGE | heap_flags(true),
                        ) && p % 0x20_0000 == 0 && p < MAX_PHYSICAL_ADDRESS);
                    }
                }
                covered = covered + k2;
                crate::page::lemma_vpn_add_multiple(map_addr, large_counter);
                assert(vpn((map_addr + large_counter) as u64) == vpn(virt_addr) + covered
                    * 512) by (nonlinear_arith)
                    requires
                        vpn((map_addr + large_counter) as u64) == vpn(map_addr)
                            + large_counter as int / 0x1000,
                        vpn(map_addr) == vpn(virt_addr) + (covered - k2) * 512,
                        large_counter as int / 0x1000 == k2 * 512,
                ;
                assert(large_counter as int / 0x1000 == k2 * 512) by {
                    vstd::arithmetic::div_mod::lemma_div_by_multiple(k2 * 512, 0x1000);
                    assert(k2 * 0x20_0000 == (k2 * 512) * 0x1000) by (nonlinear_arith);
                }
                assert((map_addr + large_counter) % 0x20_0000 == 0) by {
                    vstd::arithmetic::div_mod::lemma_add_mod_noop(
                        map_addr as int,
                        large_counter as int,
                        0x20_0000,
                    );
                    vstd::arithmetic::div_mod::lemma_small_mod(0nat, 0x20_0000);
                    vstd::arithmetic::div_mod::lemma_mod_multiples_basic(k2, 0x20_0000);
                }
            }
            map_size = map_size - large_counter;
            map_addr = map_addr + large_counter;
        }
        self.heap_end_address = map_addr;
        proof {
            crate::page::lemma_vpn_align(virt_addr);
            vstd::arithmetic::div_mod::lemma_fundamental_div_mod(vpn(virt_addr), 512);
            assert(vpn(map_addr) == (s0 + covered) * 512 + 0) by (nonlinear_arith)
                requires
                    vpn(map_addr) == vpn(virt_addr) + covered * 512,
                    vpn(virt_addr) == 512 * s0 + 0,
            ;
            vstd::arithmetic::div_mod::lemma_fundamental_div_mod_converse_div(
                vpn(map_addr),
                512,
                s0 + covered,
                0,
            );
            assert(vpn(map_addr) / 512 == s0 + covered);
            assert(vpn(virt_addr) >= 0x800) by {
                crate::page::lemma_vpn_ge(virt_addr);
            }
            vstd::arithmetic::div_mod::lemma_div_is_ordered(0x800, vpn(virt_addr), 512);
            vstd::arithmetic::div_mod::lemma_div_is_ordered(0x800, vpn(virt_addr), 0x40000);
            assert forall|m: int| 0 <= m < 512 implies self.root.word0(m)
                == after_boot.root.word0(m) by {
                vstd::arithmetic::div_mod::lemma_basic_div(m, 512);
                vstd::arithmetic::div_mod::lemma_basic_div(m, 0x40000);
            }
            assert(self.root.word1(2) == after_boot.root.word1(2));
            assert(self.root.word1(3) == after_boot.root.word1(3));
        }
        true
    }

    /// Maps the task heap: a fresh virtual range of `user_heap_size`
    /// bytes, backed chunk by chunk with 2 MiB pages under the default
    /// key. Returns whether the whole heap could be backed; a partial map
    /// means the frame supplier ran dry, which the caller treats as fatal.
    #[verifier::rlimit(100)]
    #[verifier::spinoff_prover]
    pub fn init_user_allocator(&mut self) -> (r: bool)
        requires
            old(self).wf(),
            old(self).user_heap_size % 0x20_0000 == 0,
            old(self).virtualmem.free_bytes() >= old(self).user_heap_size + 0x20_0000,
            forall|m: int|
                0 <= m < 0x40000 && word_present(#[trigger] old(self).root.word2(m))
                    ==> !word_huge_at2(old(self).root, m),
        ensures
            final(self).wf(),
            final(self).root.word3(511) == old(self).root.word3(511),
            old(self).physicalmem.free_bytes() >= (old(self).user_heap_size as int
                / 0x20_0000) * (2 * 0x20_0000 + 0x2000) + 2 * 0x20_0000 + 0x3000 ==> r,
            !r ==> crate::supply::spec_align_up(
                final(self).physicalmem.next as int,
                0x20_0000,
            ) + 0x20_0000 + 0x3000 > final(self).physicalmem.arena_end,
            r ==> {
                &&& final(self).user_heap_start_address == crate::supply::spec_align_up(
                    old(self).virtualmem.next as int,
                    0x20_0000,
                )
                &&& final(self).user_heap_end_address == final(self).user_heap_start_address
                    + old(self).user_heap_size
                &&& heap_range_mapped(
                    old(self).root,
                    final(self).root,
                    PageSize::Large,
                    vpn(final(self).user_heap_start_address),
                    old(self).user_heap_size as int / 0x20_0000,
                    heap_flags(false),
                )
            },
    {
        let user_heap_size = self.user_heap_size;
        proof {
            crate::supply::lemma_align_up_formula(self.virtualmem.next as int, 0x20_0000);
        }
        let user_heap_start = match self.virtualmem.allocate_aligned(
            user_heap_size,
            0x20_0000,
        ) {
            Ok(v) => v,
            Err(_) => unreached(),
        };
        let ghost phys_before = self.physicalmem;
        let map_count = self.map_heap(user_heap_start, user_heap_size, false,
            PageSize::Large);
        if map_count != user_heap_size {
            proof {
                lemma_user_heap_budget(
                    phys_before,
                    self.physicalmem,
                    user_heap_size,
                    map_count,
                );
            }
            return false;
        }
        self.user_heap_start_address = user_heap_start;
        self.user_heap_end_address = user_heap_start + user_heap_size;
        proof {
            vstd::arithmetic::div_mod::lemma_fundamental_div_mod(
                user_heap_size as int,
                0x20_0000,
            );
            vstd::arithmetic::div_mod::lemma_div_pos_is_pos(user_heap_size as int, 0x20_0000);
            assert(user_heap_size == (user_heap_size as int / 0x20_0000) * 0x20_0000);
            assert(heap_range_mapped(
                old(self).root,
                self.root,
                PageSize::Large,
                vpn(user_heap_start),
                user_heap_size as int / 0x20_0000,
                heap_flags(false),
            ));
        }
        true
    }

    /// Maps heap chunks of one large size at `virt_addr`, each backed by a
    /// freshly supplied aligned frame, until `align_down(size, chunk)`
    /// bytes are mapped or the frame supplier runs dry. The kernel heap is
    /// keyed to the unsafe region; a task heap keeps the default key.
    /// Returns the number of bytes mapped; fewer than asked means the
    /// supplier could not fit another aligned chunk together with the
    /// table frames mapping it may take — checked before anything is
    /// drawn, so a refused chunk costs nothing.
    #[verifier::rlimit(100)]
    #[verifier::spinoff_prover]
    pub fn map_heap(&mut self, virt_addr: u64, size: u64, is_kernel: bool,
        page_size: PageSize) -> (r: u64)
        requires
            old(self).wf(),
            page_size == PageSize::Large || page_size == PageSize::Huge,
            virt_addr % page_size.spec_size() == 0,
            virt_addr + size <= 0x8000_0000_0000,
            page_size == PageSize::Large ==> forall|m: int|
                vpn(virt_addr) / 0x40000 <= m < 0x40000 && word_present(
                    #[trigger] old(self).root.word2(m),
                ) ==> !word_huge_at2(old(self).root, m),
        ensures
            final(self).wf(),
            final(self).same_config(*old(self)),
            final(self).virtualmem == old(self).virtualmem,
            final(self).physicalmem.arena_start == old(self).physicalmem.arena_start,
            final(self).physicalmem.arena_end == old(self).physicalmem.arena_end,
            final(self).physicalmem.freed == old(self).physicalmem.freed,
            old(self).physicalmem.next <= final(self).physicalmem.next,
            final(self).physicalmem.next <= old(self).physicalmem.next + (r as int
                / (page_size.spec_size() as int)) * (2 * page_size.spec_size() + 0x2000),
            r % page_size.spec_size() == 0,
            r <= size - size % page_size.spec_size(),
            r < size - size % page_size.spec_size() ==> crate::supply::spec_align_up(
                final(self).physicalmem.next as int,
                page_size.spec_size() as int,
            ) + page_size.spec_size() + 0x3000 > final(self).physicalmem.arena_end,
            heap_range_mapped(
                old(self).root,
                final(self).root,
                page_size,
                vpn(virt_addr),
                r as int / (page_size.spec_size() as int),
                heap_flags(is_kernel),
            ),
            final(self).root.word3(511) == old(self).root.word3(511),
    {
        let chunk = page_size.size();
        proof {
            assert(size % chunk <= size) by (nonlinear_arith)
                requires
                    chunk > 0,
            ;
            vstd::arithmetic::div_mod::lemma_fundamental_div_mod(size as int, chunk as int);
            vstd::arithmetic::div_mod::lemma_mod_multiples_basic(
                size as int / chunk as int,
                chunk as int,
            );
            assert((chunk as int) * (size as int / chunk as int) == (size as int / chunk
                as int) * (chunk as int)) by (nonlinear_arith);
        }
        let limit = size - size % chunk;
        let mut flags = PageTableEntryFlags::empty().normal().writable().execute_disable();
        if is_kernel {
            flags = flags.pkey(UNSAFE_MEM_REGION as u64);
        }
        proof {
            lemma_region_flags(0, true, false);
            lemma_region_flags_xd_keyed(UNSAFE_MEM_REGION as u64);
            crate::page::lemma_vpn_bound(virt_addr);
            crate::page::lemma_vpn_align(virt_addr);
        }
        let ghost pre = *self;
        let ghost n0 = vpn(virt_addr);
        let ghost st = page_size.spec_stride();
        let ghost s0 = n0 / st;
        let mut i: u64 = 0;
        let ghost mut chunks: int = 0;
        while i < limit
            invariant
                pre == *old(self),
                page_size == PageSize::Large || page_size == PageSize::Huge,
                chunk == page_size.spec_size(),
                st == page_size.spec_stride(),
                chunk == st * 0x1000,
                limit == size - size % chunk,
                limit % chunk == 0,
                virt_addr as int % (chunk as int) == 0,
                virt_addr + size <= 0x8000_0000_0000,
                n0 == vpn(virt_addr),
                0 <= n0 <= 0x8_0000_0000,
                n0 % st == 0,
                s0 == n0 / st,
                flags.bits == heap_flags(is_kernel),
                flags.bits & HUGE_PAGE == 0,
                page_size == PageSize::Large ==> forall|m: int|
                    vpn(virt_addr) / 0x40000 <= m < 0x40000 && word_present(
                        #[trigger] pre.root.word2(m),
                    ) ==> !word_huge_at2(pre.root, m),
                0 <= i <= limit,
                i % chunk == 0,
                chunks == i as int / (chunk as int),
                i == chunks * chunk,
                self.wf(),
                self.same_config(*old(self)),
                self.virtualmem == old(self).virtualmem,
                self.physicalmem.arena_start == old(self).physicalmem.arena_start,
                self.physicalmem.arena_end == old(self).physicalmem.arena_end,
                self.physicalmem.freed == old(self).physicalmem.freed,
                old(self).physicalmem.next <= self.physicalmem.next,
                self.physicalmem.next <= old(self).physicalmem.next + chunks * (2 * chunk
                    + 0x2000),
                heap_range_mapped(pre.root, self.root, page_size, n0, chunks, flags.bits),
                self.root.word3(511) == old(self).root.word3(511),
            decreases limit - i,
        {
            proof {
                vstd::arithmetic::div_mod::lemma_mod_pos_bound(size as int, chunk as int);
            }
            let pad = (chunk - self.physicalmem.next % chunk) % chunk;
            proof {
                assert(self.physicalmem.next + pad == crate::supply::spec_align_up(
                    self.physicalmem.next as int,
                    chunk as int,
                ));
            }
            if self.physicalmem.arena_end - self.physicalmem.next < pad + chunk + 0x3000 {
                return i;
            }
            let ghost before_alloc = self.physicalmem;
            let frame = match self.physicalmem.allocate_aligned(chunk, chunk) {
                Ok(f) => f,
                Err(_) => unreached(),
            };
            proof {
                crate::supply::lemma_aligned_gap(
                    before_alloc.next as int,
                    frame as int,
                    chunk as int,
                );
                lemma_heap_chunk_facts(virt_addr, i, chunk, limit, size);
            }
            let page = Page::including_address(virt_addr + i, page_size);
            let ghost cur = *self;
            let _ = self.root.map_page(page, frame, flags.bits, &mut self.physicalmem);
            i = i + chunk;
            proof {
                let prev = chunks;
                chunks = chunks + 1;
                vstd::arithmetic::div_mod::lemma_hoist_over_denominator(
                    (i - chunk) as int,
                    1,
                    chunk as nat,
                );
                assert(i == chunks * chunk) by (nonlinear_arith)
                    requires
                        i == prev * chunk + chunk,
                        chunks == prev + 1,
                ;
                vstd::arithmetic::div_mod::lemma_mod_multiples_basic(chunks, chunk as int);
                assert(chunks * chunk % (chunk as int) == 0);
                let base_next = old(self).physicalmem.next;
                let now_next = self.physicalmem.next;
                assert(now_next <= base_next + chunks * (2 * chunk + 0x2000))
                    by (nonlinear_arith)
                    requires
                        now_next <= before_alloc.next + (2 * chunk + 0x2000),
                        before_alloc.next <= base_next + prev * (2 * chunk + 0x2000),
                        chunks == prev + 1,
                        chunk > 0,
                ;
                lemma_heap_map_step(
                    pre.root,
                    cur.root,
                    self.root,
                    page_size,
                    n0,
                    prev,
                    frame,
                    flags.bits,
                );
            }
        }
        proof {
            assert(chunks == limit as int / (chunk as int)) by {
                vstd::arithmetic::div_mod::lemma_div_by_multiple(chunks, chunk as int);
            }
        }
        i
    }

    /// Maps `npages` 4 KiB pages starting at `viraddr` onto the physical
    /// run starting at `phyaddr`, with the recognized bits of `bits` as
    /// flags. Returns zero and whether the caller owes the other CPUs a
    /// TLB shootdown (requested by `do_ipi` and owed only when an existing
    /// entry was replaced).
    pub fn __page_map(&mut self, viraddr: u64, phyaddr: u64, npages: u64, bits: u64,
        do_ipi: u8) -> (r: (i32, bool))
        requires
            old(self).wf(),
            npages >= 1,
            crate::page::spec_is_valid_address(viraddr),
            crate::page::spec_is_valid_address((viraddr + (npages - 1) * 0x1000) as u64),
            viraddr + npages * 0x1000 <= u64::MAX,
            viraddr + (npages - 1) * 0x1000 < 0x8000_0000_0000 || viraddr
                >= 0xFFFF_8000_0000_0000,
            idx_at(3, vpn((viraddr + (npages - 1) * 0x1000) as u64)) != 511,
            bits & HUGE_PAGE == 0,
            phyaddr % 0x1000 == 0,
            phyaddr + npages * 0x1000 <= MAX_PHYSICAL_ADDRESS,
            base_range_open(
                old(self).root,
                vpn((viraddr - viraddr % 0x1000) as u64),
                npages as int,
            ),
            old(self).physicalmem.free_bytes() >= 0x3000 * npages,
        ensures
            final(self).wf(),
            final(self).same_config(*old(self)),
            final(self).virtualmem == old(self).virtualmem,
            final(self).physicalmem.arena_start == old(self).physicalmem.arena_start,
            final(self).physicalmem.arena_end == old(self).physicalmem.arena_end,
            final(self).physicalmem.freed == old(self).physicalmem.freed,
            old(self).physicalmem.next <= final(self).physicalmem.next,
            r.0 == 0,
            range_mapped(
                old(self).root,
                final(self).root,
                PageSize::Base,
                vpn((viraddr - viraddr % 0x1000) as u64),
                npages as int,
                phyaddr as int,
                bits & FLAGS_MASK,
            ),
            final(self).root.word3(511) == old(self).root.word3(511),
            r.1 == (do_ipi > 0 && any_replaced(
                old(self).root,
                PageSize::Base,
                vpn((viraddr - viraddr % 0x1000) as u64),
                npages as int,
            )),
    {
        proof {
            crate::entry::lemma_truncate_bits(bits);
            crate::page::lemma_align_down(viraddr);
            crate::page::lemma_align_down((viraddr + (npages - 1) * 0x1000) as u64);
        }
        let flags = PageTableEntryFlags::from_bits_truncate(bits);
        let range = get_page_range(viraddr, npages);
        proof {
            lemma_vpn_bound(viraddr);
            lemma_vpn_bound((viraddr + (npages - 1) * 0x1000) as u64);
            lemma_range_page_facts(viraddr, npages);
        }
        let flush_others = self.root.map_pages(range, phyaddr, flags.bits, do_ipi > 0,
            &mut self.physicalmem);
        (0, flush_others)
    }

    /// Unmaps `npages` 4 KiB pages starting at `viraddr`. The caller owes
    /// the other CPUs a TLB shootdown whenever any pages were given.
    pub fn page_unmap(&mut self, viraddr: u64, npages: u64) -> (r: i32)
        requires
            old(self).wf(),
            npages >= 1 ==> crate::page::spec_is_valid_address(viraddr),
            npages >= 1 ==> crate::page::spec_is_valid_address(
                (viraddr + (npages - 1) * 0x1000) as u64,
            ),
            npages >= 1 ==> viraddr + npages * 0x1000 <= u64::MAX,
            npages >= 1 ==> (viraddr + (npages - 1) * 0x1000 < 0x8000_0000_0000 || viraddr
                >= 0xFFFF_8000_0000_0000),
            npages >= 1 ==> idx_at(3, vpn((viraddr + (npages - 1) * 0x1000) as u64)) != 511,
            npages >= 1 ==> forall|i: int|
                idx_at(3, vpn((viraddr - viraddr % 0x1000) as u64)) <= i <= idx_at(
                    3,
                    vpn((viraddr + (npages - 1) * 0x1000) as u64),
                ) ==> word_present(#[trigger] old(self).root.word3(i)),
            npages >= 1 ==> forall|m: int|
                vpn((viraddr - viraddr % 0x1000) as u64) / 0x40000 <= m <= vpn(
                    (viraddr + (npages - 1) * 0x1000) as u64,
                ) / 0x40000 ==> crate::entry::word_links(#[trigger] old(self).root.word2(m)),
            npages >= 1 ==> forall|m: int|
                vpn((viraddr - viraddr % 0x1000) as u64) / 512 <= m <= vpn(
                    (viraddr + (npages - 1) * 0x1000) as u64,
                ) / 512 ==> crate::entry::word_links(#[trigger] old(self).root.word1(m)),
        ensures
            final(self).wf(),
            final(self).same_config(*old(self)),
            final(self).virtualmem == old(self).virtualmem,
            final(self).physicalmem == old(self).physicalmem,
            r == 0,
            npages >= 1 ==> range_unmapped(
                old(self).root,
                final(self).root,
                PageSize::Base,
                vpn((viraddr - viraddr % 0x1000) as u64),
                npages as int,
            ),
            npages == 0 ==> final(self).root == old(self).root,
            final(self).root.word3(511) == old(self).root.word3(511),
    {
        if npages > 0 {
            proof {
                crate::page::lemma_align_down(viraddr);
                crate::page::lemma_align_down((viraddr + (npages - 1) * 0x1000) as u64);
            }
            let range = get_page_range(viraddr, npages);
            proof {
                lemma_vpn_bound(viraddr);
                lemma_vpn_bound((viraddr + (npages - 1) * 0x1000) as u64);
                lemma_range_page_facts(viraddr, npages);
            }
            self.root.unmap_pages(range);
        }
        0
    }

    /// Adds a read-only, execute-disable mapping over the command line so
    /// the kernel can read it in place: the pages covering
    /// `[cmdline, cmdline + cmdsize)` are identity-mapped. Does nothing
    /// when the command line is empty.
    pub fn map_cmdline(&mut self, cmdline: u64, cmdsize: u64) -> (flush_others: bool)
        requires
            old(self).wf(),
            cmdsize > 0 ==> crate::page::spec_is_valid_address(cmdline),
            cmdsize > 0 ==> crate::page::spec_is_valid_address((cmdline + cmdsize - 1) as u64),
            cmdsize > 0 ==> cmdline + cmdsize + 0x1000 <= u64::MAX,
            cmdsize > 0 ==> (cmdline + cmdsize - 1 < 0x8000_0000_0000 || cmdline
                >= 0xFFFF_8000_0000_0000),
            cmdsize > 0 ==> idx_at(3, vpn((cmdline + cmdsize - 1) as u64)) != 511,
            cmdsize > 0 ==> cmdline + cmdsize <= MAX_PHYSICAL_ADDRESS,
            cmdsize > 0 ==> base_range_open(
                old(self).root,
                vpn((cmdline - cmdline % 0x1000) as u64),
                vpn((cmdline + cmdsize - 1) as u64) - vpn((cmdline - cmdline % 0x1000) as u64)
                    + 1,
            ),
            cmdsize > 0 ==> old(self).physicalmem.free_bytes() >= 0x3000 * (vpn(
                (cmdline + cmdsize - 1) as u64,
            ) - vpn((cmdline - cmdline % 0x1000) as u64) + 1),
        ensures
            final(self).wf(),
            final(self).same_config(*old(self)),
            final(self).virtualmem == old(self).virtualmem,
            cmdsize == 0 ==> *final(self) == *old(self),
            cmdsize == 0 ==> !flush_others,
            cmdsize > 0 ==> flush_others == any_replaced(
                old(self).root,
                PageSize::Base,
                vpn((cmdline - cmdline % 0x1000) as u64),
                vpn((cmdline + cmdsize - 1) as u64) - vpn((cmdline - cmdline % 0x1000) as u64)
                    + 1,
            ),
            cmdsize > 0 ==> range_mapped(
                old(self).root,
                final(self).root,
                PageSize::Base,
                vpn((cmdline - cmdline % 0x1000) as u64),
                vpn((cmdline + cmdsize - 1) as u64) - vpn((cmdline - cmdline % 0x1000) as u64)
                    + 1,
                (cmdline - cmdline % 0x1000) as int,
                EXECUTE_DISABLE,
            ),
            final(self).root.word3(511) == old(self).root.word3(511),
    {
        if cmdsize > 0 {
            proof {
                crate::page::lemma_align_down(cmdline);
                crate::page::lemma_align_down((cmdline + cmdsize - 1) as u64);
                lemma_vpn_bound(cmdline);
                lemma_vpn_bound((cmdline + cmdsize - 1) as u64);
                crate::page::lemma_vpn_diff(
                    (cmdline - cmdline % 0x1000) as u64,
                    ((cmdline + cmdsize - 1) - (cmdline + cmdsize - 1) % 0x1000) as u64,
                );
                crate::entry::lemma_xd_flag();
            }
            let first = Page::including_address(cmdline, PageSize::Base);
            let last = Page::including_address(cmdline + cmdsize - 1, PageSize::Base);
            let range = Page::range(first, last);
            let flags = PageTableEntryFlags::empty().execute_disable();
            let physical_address = cmdline & !0xFFFu64;
            proof {
                lemma_cmdline_page_facts(cmdline, cmdsize);
            }
            self.root.map_pages(range, physical_address, flags.bits, true,
                &mut self.physicalmem)
        } else {
            false
        }
    }

    /// Records whether the runtime on top needs zeroed pages from the
    /// fault handler. The interrupt gate itself is the platform's to
    /// install.
    pub fn page_init(&mut self, zero_page_hint: bool) -> (r: i32)
        ensures
            r == 0,
            final(self).zeroed_pages == zero_page_hint,
            final(self).root == old(self).root,
            final(self).physicalmem == old(self).physicalmem,
            final(self).virtualmem == old(self).virtualmem,
            final(self).kernel_start_address == old(self).kernel_start_address,
            final(self).kernel_end_address == old(self).kernel_end_address,
            final(self).heap_start_address == old(self).heap_start_address,
            final(self).heap_end_address == old(self).heap_end_address,
            final(self).user_heap_start_address == old(self).user_heap_start_address,
            final(self).user_heap_end_address == old(self).user_heap_end_address,
            final(self).user_heap_size == old(self).user_heap_size,
            final(self).has_1gib_pages == old(self).has_1gib_pages,
    {
        self.zeroed_pages = zero_page_hint;
        0
    }

    /// Translates a virtual address to the physical address its mapping
    /// refers to, or `None` when the walk finds nothing. Addresses inside
    /// the kernel image are looked up as 2 MiB pages, every other address
    /// as a 4 KiB page.
    pub fn try_virt_to_phys(&self, addr: u64) -> (r: Option<u64>)
        requires
            self.wf(),
            crate::page::spec_is_valid_address(addr),
        ensures
            self.kernel_start_address <= addr <= self.kernel_end_address ==> r == ({
                let w = self.root.word1(vpn((addr - addr % 0x20_0000) as u64) / 512);
                if word_present(w) {
                    Some(word_address(w) | (addr & 0x1F_FFFF))
                } else {
                    None::<u64>
                }
            }),
            !(self.kernel_start_address <= addr <= self.kernel_end_address) ==> r == ({
                let w = self.root.word0(vpn((addr - addr % 0x1000) as u64));
                if word_present(w) {
                    Some(word_address(w) | (addr & 0xFFF))
                } else {
                    None::<u64>
                }
            }),
    {
        if self.kernel_start_address <= addr && addr <= self.kernel_end_address {
            let page = Page::including_address(addr, PageSize::Large);
            match self.root.get_page_table_entry(page) {
                Some(entry) => Some(entry.address() | (addr & 0x1F_FFFF)),
                None => None,
            }
        } else {
            let page = Page::including_address(addr, PageSize::Base);
            match self.root.get_page_table_entry(page) {
                Some(entry) => Some(entry.address() | (addr & 0xFFF)),
                None => None,
            }
        }
    }

    /// Translates a virtual address that is known to be mapped; the walk
    /// must find a present entry.
    pub fn virt_to_phys(&self, addr: u64) -> (r: u64)
        requires
            self.wf(),
            crate::page::spec_is_valid_address(addr),
            self.kernel_start_address <= addr <= self.kernel_end_address ==> word_present(
                self.root.word1(vpn((addr - addr % 0x20_0000) as u64) / 512),
            ),
            !(self.kernel_start_address <= addr <= self.kernel_end_address) ==> word_present(
                self.root.word0(vpn((addr - addr % 0x1000) as u64)),
            ),
        ensures
            self.kernel_start_address <= addr <= self.kernel_end_address ==> r == (word_address(
                self.root.word1(vpn((addr - addr % 0x20_0000) as u64) / 512),
            ) | (addr & 0x1F_FFFF)),
            !(self.kernel_start_address <= addr <= self.kernel_end_address) ==> r == (
            word_address(self.root.word0(vpn((addr - addr % 0x1000) as u64))) | (addr & 0xFFF)),
    {
        match self.try_virt_to_phys(addr) {
            Some(p) => p,
            None => unreached(),
        }
    }

    /// Rewrites the protection key of the `npages` present 4 KiB leaf
    /// entries starting at the page containing `virtual_address`.
    #[verifier::rlimit(100)]
    pub fn set_pkey_on_page_table_entry(&mut self, virtual_address: u64, npages: u64, key: u8)
        requires
            old(self).wf(),
            (key as u64) < 16,
            npages >= 1,
            crate::page::spec_is_valid_address(virtual_address),
            crate::page::spec_is_valid_address(
                (virtual_address + (npages - 1) * 0x1000) as u64,
            ),
            virtual_address + npages * 0x1000 <= u64::MAX,
            virtual_address + (npages - 1) * 0x1000 < 0x8000_0000_0000 || virtual_address
                >= 0xFFFF_8000_0000_0000,
            idx_at(3, vpn((virtual_address + (npages - 1) * 0x1000) as u64)) != 511,
            forall|i: int|
                idx_at(3, vpn((virtual_address - virtual_address % 0x1000) as u64)) <= i
                    <= idx_at(3, vpn((virtual_address + (npages - 1) * 0x1000) as u64))
                    ==> word_present(#[trigger] old(self).root.word3(i)),
            forall|m: int|
                vpn((virtual_address - virtual_address % 0x1000) as u64) / 0x40000 <= m <= vpn(
                    (virtual_address + (npages - 1) * 0x1000) as u64,
                ) / 0x40000 ==> crate::entry::word_links(#[trigger] old(self).root.word2(m)),
            forall|m: int|
                vpn((virtual_address - virtual_address % 0x1000) as u64) / 512 <= m <= vpn(
                    (virtual_address + (npages - 1) * 0x1000) as u64,
                ) / 512 ==> crate::entry::word_links(#[trigger] old(self).root.word1(m)),
            forall|m: int|
                vpn((virtual_address - virtual_address % 0x1000) as u64) <= m < vpn(
                    (virtual_address - virtual_address % 0x1000) as u64,
                ) + npages ==> word_present(#[trigger] old(self).root.word0(m)),
        ensures
            final(self).wf(),
            final(self).same_config(*old(self)),
            final(self).virtualmem == old(self).virtualmem,
            final(self).physicalmem == old(self).physicalmem,
            crate::table::range_rekeyed(
                old(self).root,
                final(self).root,
                vpn((virtual_address - virtual_address % 0x1000) as u64),
                npages as int,
                key as u64,
            ),
            final(self).root.word3(511) == old(self).root.word3(511),
    {
        proof {
            crate::page::lemma_align_down(virtual_address);
            crate::page::lemma_align_down((virtual_address + (npages - 1) * 0x1000) as u64);
            lemma_vpn_bound(virtual_address);
            lemma_vpn_bound((virtual_address + (npages - 1) * 0x1000) as u64);
            lemma_range_page_facts(virtual_address, npages);
        }
        let ghost pre = self.root;
        let ghost n0 = vpn((virtual_address - virtual_address % 0x1000) as u64);
        let ghost nl = n0 + npages - 1;
        let mut iter = get_page_range(virtual_address, npages);
        let ghost first = iter.current;
        let ghost lastp = iter.last;
        let ghost mut k: int = 0;
        while iter.current.virtual_address <= iter.last.virtual_address
            invariant
                pre == old(self).root,
                (key as u64) < 16,
                npages >= 1,
                n0 == vpn(first.virtual_address),
                nl == n0 + npages - 1,
                0 <= n0,
                nl < 0x10_0000_0000,
                idx_at(3, nl) <= 511 && idx_at(3, nl) != 511,
                first.size == PageSize::Base,
                lastp.size == PageSize::Base,
                first.wf(),
                lastp.wf(),
                lastp.virtual_address == first.virtual_address + (npages - 1) * 0x1000,
                lastp.virtual_address + 0x1000 <= u64::MAX,
                lastp.virtual_address < 0x8000_0000_0000 ==> lastp.virtual_address + 0x1000
                    <= 0x8000_0000_0000,
                lastp.virtual_address < 0x8000_0000_0000 || first.virtual_address
                    >= 0xFFFF_8000_0000_0000,
                vpn(lastp.virtual_address) == nl,
                forall|i: int|
                    idx_at(3, n0) <= i <= idx_at(3, nl) ==> word_present(
                        #[trigger] pre.word3(i),
                    ),
                forall|m: int|
                    n0 / 0x40000 <= m <= nl / 0x40000 ==> crate::entry::word_links(
                        #[trigger] pre.word2(m),
                    ),
                forall|m: int|
                    n0 / 512 <= m <= nl / 512 ==> crate::entry::word_links(
                        #[trigger] pre.word1(m),
                    ),
                forall|m: int|
                    n0 <= m < n0 + npages ==> word_present(#[trigger] pre.word0(m)),
                0 <= k <= npages,
                iter.last == lastp,
                iter.current.size == PageSize::Base,
                iter.current.virtual_address == first.virtual_address + k * 0x1000,
                vpn(iter.current.virtual_address) == n0 + k,
                (iter.current.virtual_address <= lastp.virtual_address) <==> (k < npages),
                self.root.wf(),
                self.physicalmem == old(self).physicalmem,
                self.virtualmem == old(self).virtualmem,
                self.same_config(*old(self)),
                self.physicalmem.wf(),
                self.virtualmem.wf(),
                self.physicalmem.arena_end <= MAX_PHYSICAL_ADDRESS,
                0x1000 <= u64::MAX - self.physicalmem.arena_end,
                self.virtualmem.arena_end <= 0x8000_0000_0000,
                crate::table::range_rekeyed(pre, self.root, n0, k, key as u64),
            decreases npages - k,
        {
            let page = match iter.next() {
                Some(p) => p,
                None => unreached(),
            };
            let ghost vk = n0 + k;
            proof {
                assert(k < npages);
                lemma_vpn_bound(page.virtual_address);
                crate::table::lemma_pml4_range_digits(vk, n0, nl);
                assert(word_present(self.root.word3(idx_at(3, vk)))) by {
                    assert(self.root.word3(idx_at(3, vk)) == pre.word3(idx_at(3, vk)));
                }
                assert(crate::entry::word_links(self.root.word2(vk / 0x40000))) by {
                    assert(self.root.word2(vk / 0x40000) == pre.word2(vk / 0x40000));
                }
                assert(crate::entry::word_links(self.root.word1(vk / 512))) by {
                    assert(self.root.word1(vk / 512) == pre.word1(vk / 512));
                }
                assert(word_present(self.root.word0(vk))) by {
                    assert(self.root.word0(vk) == pre.word0(vk));
                }
            }
            let ghost cur = self.root;
            self.root.set_pkey(page, key as u64);
            proof {
                let prev = k;
                k = k + 1;
                assert(iter.current.virtual_address == first.virtual_address + k * 0x1000)
                    by (nonlinear_arith)
                    requires
                        iter.current.virtual_address == (first.virtual_address + prev
                            * 0x1000) + 0x1000,
                        k == prev + 1,
                ;
                crate::page::lemma_vpn_add(
                    (first.virtual_address + prev * 0x1000) as u64,
                    0x1000,
                );
                assert((iter.current.virtual_address <= lastp.virtual_address) <==> (k
                    < npages)) by (nonlinear_arith)
                    requires
                        iter.current.virtual_address == first.virtual_address + k * 0x1000,
                        lastp.virtual_address == first.virtual_address + (npages - 1) * 0x1000,
                ;
                assert forall|m: int| n0 <= m < n0 + k implies #[trigger] self.root.word0(m)
                    == crate::entry::word_rekeyed(pre.word0(m), key as u64) by {
                    if m < n0 + prev {
                        assert(cur.word0(m) == crate::entry::word_rekeyed(
                            pre.word0(m),
                            key as u64,
                        ));
                        assert(self.root.word0(m) == cur.word0(m));
                    } else {
                        assert(m == vk);
                        assert(cur.word0(vk) == pre.word0(vk));
                    }
                }
                assert forall|m: int| 0 <= m < 0x10_0000_0000 && !(n0 <= m < n0 + k) implies
                    self.root.word0(m) == pre.word0(m) by {
                    assert(self.root.word0(m) == cur.word0(m));
                }
                assert forall|m: int| 0 <= m < 0x800_0000 implies self.root.word1(m)
                    == pre.word1(m) by {
                    assert(self.root.word1(m) == cur.word1(m));
                }
                assert forall|m: int| 0 <= m < 0x40000 implies self.root.word2(m)
                    == pre.word2(m) by {
                    assert(self.root.word2(m) == cur.word2(m));
                }
            }
        }
        proof {
            assert(k == npages);
        }
    }

    /// Identity-maps the low 2 MiB with 4 KiB pages, writable,
    /// execute-disabled and tagged with the safe region's key, then strips
    /// the key from the very first page, so that a null dereference is a
    /// protection fault rather than a benign translation.
    pub fn init_pages_before_kernel(&mut self)
        requires
            old(self).wf(),
            base_range_open(old(self).root, 0, 512),
            old(self).physicalmem.free_bytes() >= 0x3000 * 512,
        ensures
            final(self).wf(),
            final(self).same_config(*old(self)),
            final(self).virtualmem == old(self).virtualmem,
            final(self).physicalmem.arena_start == old(self).physicalmem.arena_start,
            final(self).physicalmem.arena_end == old(self).physicalmem.arena_end,
            final(self).physicalmem.freed == old(self).physicalmem.freed,
            old(self).physicalmem.next <= final(self).physicalmem.next <= old(
                self,
            ).physicalmem.next + 0x3000 * 512,
            final(self).root.word0(0) == crate::entry::word_rekeyed(
                crate::entry::word_set(0, crate::entry::DIRTY | region_flags(
                    SAFE_MEM_REGION as u64,
                    true,
                    false,
                )),
                0,
            ),
            forall|m: int|
                1 <= m < 512 ==> #[trigger] final(self).root.word0(m) == crate::entry::word_set(
                    (m * 0x1000) as u64,
                    crate::entry::DIRTY | region_flags(SAFE_MEM_REGION as u64, true, false),
                ),
            forall|m: int|
                512 <= m < 0x10_0000_0000 ==> #[trigger] final(self).root.word0(m) == old(
                    self,
                ).root.word0(m),
            crate::entry::word_links(final(self).root.word1(0)),
            forall|m: int|
                1 <= m < 0x800_0000 ==> #[trigger] final(self).root.word1(m) == old(
                    self,
                ).root.word1(m),
            crate::entry::word_links(final(self).root.word2(0)),
            forall|m: int|
                1 <= m < 0x40000 ==> #[trigger] final(self).root.word2(m) == old(
                    self,
                ).root.word2(m),
            forall|i: int|
                1 <= i < 512 ==> #[trigger] final(self).root.word3(i) == old(self).root.word3(
                    i,
                ),
            final(self).root.word3(511) == old(self).root.word3(511),
    {
        let flags = PageTableEntryFlags::empty().normal().writable().execute_disable().pkey(
            SAFE_MEM_REGION as u64,
        );
        proof {
            lemma_low_identity_facts();
            lemma_region_flags_xd_keyed(SAFE_MEM_REGION as u64);
        }
        let range = get_page_range(0, 512);
        let _ = self.root.map_pages(range, 0, flags.bits, true, &mut self.physicalmem);
        proof {
            crate::entry::lemma_word_set_bits(0, crate::entry::DIRTY | flags.bits);
            crate::entry::lemma_flag_bits(flags.bits);
        }
        self.set_pkey_on_page_table_entry(0, 1, 0);
    }

    /// Identity-maps the 2 MiB page that holds the safe data section,
    /// writable, execute-disabled, under the safe region's key.
    pub fn allocate_safe_data(&mut self)
        requires
            old(self).wf(),
            word_present(old(self).root.word2(0)) ==> !crate::entry::word_huge(
                old(self).root.word2(0),
            ),
            old(self).physicalmem.free_bytes() >= 0x3000,
        ensures
            final(self).wf(),
            final(self).same_config(*old(self)),
            final(self).virtualmem == old(self).virtualmem,
            final(self).physicalmem.arena_start == old(self).physicalmem.arena_start,
            final(self).physicalmem.arena_end == old(self).physicalmem.arena_end,
            final(self).physicalmem.freed == old(self).physicalmem.freed,
            old(self).physicalmem.next <= final(self).physicalmem.next <= old(
                self,
            ).physicalmem.next + 0x3000,
            range_mapped(
                old(self).root,
                final(self).root,
                PageSize::Large,
                vpn(0x40_0000),
                1,
                0x40_0000,
                region_flags(SAFE_MEM_REGION as u64, true, false),
            ),
            final(self).root.word3(511) == old(self).root.word3(511),
    {
        let flags = PageTableEntryFlags::empty().normal().writable().execute_disable().pkey(
            SAFE_MEM_REGION as u64,
        );
        proof {
            lemma_data_section_facts(0x40_0000);
            lemma_region_flags_xd_keyed(SAFE_MEM_REGION as u64);
        }
        let page = Page::including_address(0x40_0000, PageSize::Large);
        let range = Page::range(page, page);
        let _ = self.root.map_pages(range, 0x40_0000, flags.bits, true, &mut self.physicalmem);
    }

    /// Identity-maps the 2 MiB page that holds the unsafe data section,
    /// writable, execute-disabled, under the unsafe region's key.
    pub fn allocate_unsafe_data(&mut self)
        requires
            old(self).wf(),
            word_present(old(self).root.word2(0)) ==> !crate::entry::word_huge(
                old(self).root.word2(0),
            ),
            old(self).physicalmem.free_bytes() >= 0x3000,
        ensures
            final(self).wf(),
            final(self).same_config(*old(self)),
            final(self).virtualmem == old(self).virtualmem,
            final(self).physicalmem.arena_start == old(self).physicalmem.arena_start,
            final(self).physicalmem.arena_end == old(self).physicalmem.arena_end,
            final(self).physicalmem.freed == old(self).physicalmem.freed,
            old(self).physicalmem.next <= final(self).physicalmem.next <= old(
                self,
            ).physicalmem.next + 0x3000,
            range_mapped(
                old(self).root,
                final(self).root,
                PageSize::Large,
                vpn(0x60_0000),
                1,
                0x60_0000,
                region_flags(UNSAFE_MEM_REGION as u64, true, false),
            ),
            final(self).root.word3(511) == old(self).root.word3(511),
    {
        let flags = PageTableEntryFlags::empty().normal().writable().execute_disable().pkey(
            UNSAFE_MEM_REGION as u64,
        );
        proof {
            lemma_data_section_facts(0x60_0000);
            lemma_region_flags_xd_keyed(UNSAFE_MEM_REGION as u64);
        }
        let page = Page::including_address(0x60_0000, PageSize::Large);
        let range = Page::range(page, page);
        let _ = self.root.map_pages(range, 0x60_0000, flags.bits, true, &mut self.physicalmem);
    }

    /// Resolves a page fault at `virtual_address` for a task whose heap,
    /// if it has one, spans `heap`. A fault inside the heap is backed
    /// lazily with one fresh frame, mapped writable and execute-disabled;
    /// everything else is fatal and left to the caller's diagnostics.
    pub fn page_fault_handler(&mut self, virtual_address: u64, heap: Option<(u64, u64)>)
        -> (r: FaultOutcome)
        requires
            old(self).wf(),
            heap matches Some((start, end)) && start <= virtual_address < end ==> {
                &&& crate::page::spec_is_valid_address(virtual_address)
                &&& idx_at(3, vpn((virtual_address - virtual_address % 0x1000) as u64)) != 511
                &&& base_range_open(
                    old(self).root,
                    vpn((virtual_address - virtual_address % 0x1000) as u64),
                    1,
                )
                &&& old(self).physicalmem.free_bytes() >= 0x4000
            },
        ensures
            final(self).wf(),
            final(self).same_config(*old(self)),
            final(self).virtualmem == old(self).virtualmem,
            !(heap matches Some((start, end)) && start <= virtual_address < end) ==> r
                == FaultOutcome::Fatal && *final(self) == *old(self),
            heap matches Some((start, end)) && start <= virtual_address < end ==> {
                let n = vpn((virtual_address - virtual_address % 0x1000) as u64);
                if word_present(old(self).root.word0(n)) {
                    r == FaultOutcome::AlreadyBacked && *final(self) == *old(self)
                } else {
                    &&& r == (FaultOutcome::Mapped { zeroed: old(self).zeroed_pages })
                    &&& crate::table::map_page_post(
                        old(self).root,
                        final(self).root,
                        PageSize::Base,
                        n,
                        old(self).physicalmem.next,
                        region_flags(0, true, false),
                    )
                    &&& final(self).root.word3(511) == old(self).root.word3(511)
                }
            },
    {
        if let Some((start, end)) = heap {
            if start <= virtual_address && virtual_address < end {
                let page = Page::including_address(virtual_address, PageSize::Base);
                proof {
                    lemma_vpn_bound(page.virtual_address);
                }
                match self.root.get_page_table_entry(page) {
                    Some(_) => FaultOutcome::AlreadyBacked,
                    None => {
                        let frame = match self.physicalmem.allocate(0x1000) {
                            Ok(f) => f,
                            Err(_) => unreached(),
                        };
                        let flags =
                            PageTableEntryFlags::empty().normal().writable().execute_disable();
                        proof {
                            lemma_region_flags(0, true, false);
                        }
                        let _ = self.root.map_page(page, frame, flags.bits,
                            &mut self.physicalmem);
                        FaultOutcome::Mapped { zeroed: self.zeroed_pages }
                    },
                }
            } else {
                FaultOutcome::Fatal
            }
        } else {
            FaultOutcome::Fatal
        }
    }
}

/// The inclusive range of 4 KiB pages that covers `npages` pages from the
/// page containing `viraddr` on.
pub fn get_page_range(viraddr: u64, npages: u64) -> (r: PageIter)
    requires
        npages >= 1,
        crate::page::spec_is_valid_address(viraddr),
        crate::page::spec_is_valid_address((viraddr + (npages - 1) * 0x1000) as u64),
        viraddr + npages * 0x1000 <= u64::MAX,
    ensures
        r.current.size == PageSize::Base,
        r.last.size == PageSize::Base,
        r.current.virtual_address == viraddr - viraddr % 0x1000,
        r.last.virtual_address == (viraddr + (npages - 1) * 0x1000) - (viraddr + (npages - 1)
            * 0x1000) % 0x1000,
        r.current.virtual_address <= r.last.virtual_address,
        r.current.wf(),
        r.last.wf(),
{
    let last_address = viraddr + (npages - 1) * 0x1000;
    let first_page = Page::including_address(viraddr, PageSize::Base);
    let last_page = Page::including_address(last_address, PageSize::Base);
    proof {
        vstd::arithmetic::div_mod::lemma_fundamental_div_mod(viraddr as int, 0x1000);
        vstd::arithmetic::div_mod::lemma_fundamental_div_mod(last_address as int, 0x1000);
        vstd::arithmetic::div_mod::lemma_div_is_ordered(
            viraddr as int,
            last_address as int,
            0x1000,
        );
        vstd::arithmetic::mul::lemma_mul_inequality(
            viraddr as int / 0x1000,
            last_address as int / 0x1000,
            0x1000,
        );
    }
    Page::range(first_page, last_page)
}

/// The page range covering `npages` pages from `viraddr` steps through
/// whole pages: its bounds are page aligned, one canonical half holds it,
/// and counting its pages gives back `npages`.
proof fn lemma_range_page_facts(viraddr: u64, npages: u64)
    requires
        npages >= 1,
        crate::page::spec_is_valid_address(viraddr),
        crate::page::spec_is_valid_address((viraddr + (npages - 1) * 0x1000) as u64),
        viraddr + npages * 0x1000 <= u64::MAX,
        viraddr + (npages - 1) * 0x1000 < 0x8000_0000_0000 || viraddr >= 0xFFFF_8000_0000_0000,
    ensures
        ({
            let fa = (viraddr - viraddr % 0x1000) as u64;
            let la = ((viraddr + (npages - 1) * 0x1000) - (viraddr + (npages - 1) * 0x1000)
                % 0x1000) as u64;
            &&& la == fa + (npages - 1) * 0x1000
            &&& page_count(
                Page { virtual_address: fa, size: PageSize::Base },
                Page { virtual_address: la, size: PageSize::Base },
            ) == npages
            &&& la + 0x1000 <= u64::MAX
            &&& (la < 0x8000_0000_0000 || fa >= 0xFFFF_8000_0000_0000)
            &&& vpn(fa) == vpn(viraddr)
            &&& vpn(la) == vpn((viraddr + (npages - 1) * 0x1000) as u64)
            &&& vpn(la) == vpn(fa) + (npages - 1)
        }),
{
    let last_address = (viraddr + (npages - 1) * 0x1000) as u64;
    crate::page::lemma_align_down(viraddr);
    crate::page::lemma_align_down(last_address);
    vstd::arithmetic::div_mod::lemma_mod_multiples_vanish(
        npages as int - 1,
        viraddr as int,
        0x1000,
    );
    assert(0x1000 * (npages - 1) + viraddr == viraddr + (npages - 1) * 0x1000)
        by (nonlinear_arith);
    assert(last_address % 0x1000 == viraddr % 0x1000);
    let fa = (viraddr - viraddr % 0x1000) as u64;
    let la = (last_address - last_address % 0x1000) as u64;
    assert(la == fa + (npages - 1) * 0x1000);
    vstd::arithmetic::div_mod::lemma_div_by_multiple(npages as int - 1, 0x1000);
    assert((la - fa) / 0x1000 == npages - 1);
    crate::page::lemma_vpn_diff(fa, la);
}

/// The page range covering the command line: its page count is the
/// difference of the bounding slot numbers plus one, and its bounds
/// behave like any whole-page range.
proof fn lemma_cmdline_page_facts(cmdline: u64, cmdsize: u64)
    requires
        cmdsize > 0,
        crate::page::spec_is_valid_address(cmdline),
        crate::page::spec_is_valid_address((cmdline + cmdsize - 1) as u64),
        cmdline + cmdsize + 0x1000 <= u64::MAX,
        cmdline + cmdsize - 1 < 0x8000_0000_0000 || cmdline >= 0xFFFF_8000_0000_0000,
    ensures
        ({
            let fa = (cmdline - cmdline % 0x1000) as u64;
            let la = ((cmdline + cmdsize - 1) - (cmdline + cmdsize - 1) % 0x1000) as u64;
            let count = vpn((cmdline + cmdsize - 1) as u64) - vpn(fa) + 1;
            &&& fa <= la
            &&& count == page_count(
                Page { virtual_address: fa, size: PageSize::Base },
                Page { virtual_address: la, size: PageSize::Base },
            )
            &&& count >= 1
            &&& la + 0x1000 <= u64::MAX
            &&& (la < 0x8000_0000_0000 || fa >= 0xFFFF_8000_0000_0000)
            &&& vpn(la) == vpn((cmdline + cmdsize - 1) as u64)
            &&& fa + count * 0x1000 == la + 0x1000
        }),
{
    let last_address = (cmdline + cmdsize - 1) as u64;
    crate::page::lemma_align_down(cmdline);
    crate::page::lemma_align_down(last_address);
    let fa = (cmdline - cmdline % 0x1000) as u64;
    let la = (last_address - last_address % 0x1000) as u64;
    vstd::arithmetic::div_mod::lemma_fundamental_div_mod(cmdline as int, 0x1000);
    vstd::arithmetic::div_mod::lemma_fundamental_div_mod(last_address as int, 0x1000);
    vstd::arithmetic::div_mod::lemma_div_is_ordered(
        cmdline as int,
        last_address as int,
        0x1000,
    );
    vstd::arithmetic::mul::lemma_mul_inequality(
        cmdline as int / 0x1000,
        last_address as int / 0x1000,
        0x1000,
    );
    assert(fa <= la);
    crate::page::lemma_vpn_diff(fa, la);
    vstd::arithmetic::div_mod::lemma_sub_mod_noop(la as int, fa as int, 0x1000);
    vstd::arithmetic::div_mod::lemma_small_mod(0nat, 0x1000);
    vstd::arithmetic::div_mod::lemma_fundamental_div_mod(la - fa, 0x1000);
    let count = vpn(last_address) - vpn(fa) + 1;
    assert(vpn(la) == vpn(last_address));
    assert(count == (la - fa) / 0x1000 + 1);
    assert((la - fa) / 0x1000 * 0x1000 == la - fa);
    assert(fa + count * 0x1000 == la + 0x1000) by (nonlinear_arith)
        requires
            count == (la - fa) / 0x1000 + 1,
            (la - fa) / 0x1000 * 0x1000 == la - fa,
    ;
}

/// The flag word a heap chunk is mapped with: writable and
/// execute-disabled, keyed to the unsafe region for the kernel heap and
/// left under the default key for a task heap.
pub open spec fn heap_flags(is_kernel: bool) -> u64 {
    if is_kernel {
        region_flags(UNSAFE_MEM_REGION as u64, true, false)
    } else {
        region_flags(0, true, false)
    }
}

/// What mapping `count` heap chunks of one large size does to the
/// hierarchy: each chunk's leaf slot holds a freshly supplied aligned
/// frame under the heap flags, every other slot of that level keeps its
/// word, and the levels above gained only links.
pub open spec fn heap_range_mapped(pre: Pml4, post: Pml4, page_size: PageSize, n0: int,
    count: int, flags: u64) -> bool {
    let st = page_size.spec_stride();
    let last = n0 + (count - 1) * st;
    if count <= 0 {
        crate::table::views_equal(pre, post)
    } else {
        &&& (page_size == PageSize::Large ==> {
            &&& forall|s: int|
                n0 / 512 <= s < n0 / 512 + count ==> exists|p: u64|
                    #[trigger] post.word1(s) == crate::entry::word_set(
                        p,
                        crate::entry::DIRTY | HUGE_PAGE | flags,
                    ) && p % 0x20_0000 == 0 && p < MAX_PHYSICAL_ADDRESS
            &&& forall|m: int|
                0 <= m < 0x800_0000 && !(n0 / 512 <= m < n0 / 512 + count) ==> post.word1(m)
                    == pre.word1(m)
            &&& forall|m: int|
                n0 / 0x40000 <= m <= last / 0x40000 ==> crate::entry::word_links(
                    #[trigger] post.word2(m),
                ) && (word_present(pre.word2(m)) ==> post.word2(m) == pre.word2(m)) && (
                !word_present(pre.word2(m)) ==> crate::entry::is_fresh_link(post.word2(m)))
            &&& forall|m: int|
                0 <= m < 0x40000 && !(n0 / 0x40000 <= m <= last / 0x40000) ==> post.word2(m)
                    == pre.word2(m)
            &&& forall|m: int|
                0 <= m < 0x10_0000_0000 && n0 / 512 <= m / 512 < n0 / 512 + count
                    ==> post.word0(m) == 0
            &&& forall|m: int|
                0 <= m < 0x10_0000_0000 && !(n0 / 512 <= m / 512 < n0 / 512 + count)
                    ==> post.word0(m) == pre.word0(m)
        })
        &&& (page_size == PageSize::Huge ==> {
            &&& forall|s: int|
                n0 / 0x40000 <= s < n0 / 0x40000 + count ==> exists|p: u64|
                    #[trigger] post.word2(s) == crate::entry::word_set(
                        p,
                        crate::entry::DIRTY | HUGE_PAGE | flags,
                    ) && p % 0x4000_0000 == 0 && p < MAX_PHYSICAL_ADDRESS
            &&& forall|m: int|
                0 <= m < 0x40000 && !(n0 / 0x40000 <= m < n0 / 0x40000 + count)
                    ==> post.word2(m) == pre.word2(m)
            &&& forall|m: int|
                0 <= m < 0x10_0000_0000 && n0 / 0x40000 <= m / 0x40000 < n0 / 0x40000 + count
                    ==> post.word0(m) == 0
            &&& forall|m: int|
                0 <= m < 0x10_0000_0000 && !(n0 / 0x40000 <= m / 0x40000 < n0 / 0x40000
                    + count) ==> post.word0(m) == pre.word0(m)
        })
        &&& forall|i: int|
            idx_at(3, n0) <= i <= idx_at(3, last) ==> word_present(#[trigger] post.word3(i))
                && (word_present(pre.word3(i)) ==> post.word3(i) == pre.word3(i)) && (
            !word_present(pre.word3(i)) ==> crate::entry::is_fresh_link(post.word3(i)))
        &&& forall|i: int|
            0 <= i < 512 && !(idx_at(3, n0) <= i <= idx_at(3, last)) ==> post.word3(i)
                == pre.word3(i)
    }
}

/// The arithmetic of one heap chunk: where its page sits, that the page
/// is aligned and canonical, and how its slot number steps from the
/// range's first slot.
proof fn lemma_heap_chunk_facts(virt_addr: u64, i: u64, chunk: u64, limit: u64, size: u64)
    requires
        chunk == 0x20_0000 || chunk == 0x4000_0000,
        virt_addr as int % (chunk as int) == 0,
        i % chunk == 0,
        i < limit,
        limit == size - size % chunk,
        virt_addr + size <= 0x8000_0000_0000,
    ensures
        crate::page::spec_is_valid_address((virt_addr + i) as u64),
        (virt_addr + i) as int % (chunk as int) == 0,
        (virt_addr + i) % 0x1000 == 0,
        vpn((virt_addr + i) as u64) == vpn(virt_addr) + (i as int / chunk as int) * (chunk
            as int / 0x1000),
        vpn((virt_addr + i) as u64) < 0x8_0000_0000,
        idx_at(3, vpn((virt_addr + i) as u64)) != 511,
        (virt_addr + i) + chunk <= 0x8000_0000_0000,
        i + chunk <= limit,
    decreases 0int,
{
    vstd::arithmetic::div_mod::lemma_mod_pos_bound(size as int, chunk as int);
    vstd::arithmetic::div_mod::lemma_fundamental_div_mod(i as int, chunk as int);
    let q = i as int / chunk as int;
    vstd::arithmetic::div_mod::lemma_mod_multiples_vanish(q, virt_addr as int, chunk as int);
    assert((chunk as int) * q + virt_addr == virt_addr + i) by (nonlinear_arith)
        requires
            i == (chunk as int) * q + 0,
    ;
    assert((virt_addr + i) as int % (chunk as int) == 0);
    assert((virt_addr + i) % 0x1000 == 0) by {
        vstd::arithmetic::div_mod::lemma_mod_mod(
            (virt_addr + i) as int,
            0x1000,
            chunk as int / 0x1000,
        );
    }
    assert(virt_addr % 0x1000 == 0) by {
        vstd::arithmetic::div_mod::lemma_mod_mod(
            virt_addr as int,
            0x1000,
            chunk as int / 0x1000,
        );
    }
    crate::page::lemma_vpn_diff(virt_addr, (virt_addr + i) as u64);
    crate::page::lemma_vpn_bound((virt_addr + i) as u64);
    crate::page::lemma_vpn_bound(virt_addr);
    assert(i as int / 0x1000 == q * (chunk as int / 0x1000)) by (nonlinear_arith)
        requires
            i == (chunk as int) * q + 0,
            chunk == 0x20_0000 || chunk == 0x4000_0000,
    ;
    assert((virt_addr + i) as u64 >> 12 == (virt_addr + i) as u64 / 0x1000) by (bit_vector);
    assert(((virt_addr + i) - virt_addr) as u64 == i) by (nonlinear_arith);
    vstd::arithmetic::div_mod::lemma_div_is_ordered(
        vpn((virt_addr + i) as u64),
        0x7_FFFF_FFFF,
        0x800_0000,
    );
    assert(i + chunk <= limit) by {
        vstd::arithmetic::div_mod::lemma_fundamental_div_mod(limit as int, chunk as int);
        vstd::arithmetic::div_mod::lemma_div_by_multiple(
            limit as int / chunk as int,
            chunk as int,
        );
        assert(i + chunk <= limit) by (nonlinear_arith)
            requires
                i == (chunk as int) * q + 0,
                limit == (chunk as int) * (limit as int / chunk as int) + 0,
                i < limit,
                chunk > 0,
        ;
    }
}

/// One heap chunk has just been mapped at the end of a partially mapped
/// heap range: the count of mapped chunks grows by one.
#[verifier::rlimit(60)]
proof fn lemma_heap_map_step(pre: Pml4, cur: Pml4, post: Pml4, page_size: PageSize, n0: int,
    count: int, frame: u64, flags: u64)
    requires
        page_size == PageSize::Large || page_size == PageSize::Huge,
        0 <= count,
        0 <= n0,
        n0 % page_size.spec_stride() == 0,
        n0 + (count + 1) * page_size.spec_stride() <= 0x8_0000_0000,
        page_size == PageSize::Large ==> frame % 0x20_0000 == 0,
        page_size == PageSize::Huge ==> frame % 0x4000_0000 == 0,
        frame < MAX_PHYSICAL_ADDRESS,
        heap_range_mapped(pre, cur, page_size, n0, count, flags),
        crate::table::map_page_post(
            cur,
            post,
            page_size,
            n0 + count * page_size.spec_stride(),
            frame,
            flags,
        ),
    ensures
        heap_range_mapped(pre, post, page_size, n0, count + 1, flags),
{
    let st = page_size.spec_stride();
    let vk = n0 + count * st;
    let k = count + 1;
    crate::table::lemma_pml4_slot_digits(vk);
    crate::table::lemma_pml4_slot_digits(n0);
    vstd::arithmetic::div_mod::lemma_div_is_ordered(n0, vk, 512);
    vstd::arithmetic::div_mod::lemma_div_is_ordered(n0, vk, 0x40000);
    vstd::arithmetic::div_mod::lemma_div_is_ordered(n0, vk, 0x800_0000);
    let lastdone = n0 + (count - 1) * st;
    assert(lastdone == vk - st) by (nonlinear_arith)
        requires
            lastdone == n0 + (count - 1) * st,
            vk == n0 + count * st,
    ;
    assert(0 <= vk) by (nonlinear_arith)
        requires
            vk == n0 + count * st,
            n0 >= 0,
            count >= 0,
            st > 0,
    ;
    if count > 0 {
        vstd::arithmetic::div_mod::lemma_div_is_ordered(lastdone, vk, 0x40000);
        vstd::arithmetic::div_mod::lemma_div_is_ordered(lastdone, vk, 0x800_0000);
        vstd::arithmetic::div_mod::lemma_div_is_ordered(n0, lastdone, 0x40000);
        vstd::arithmetic::div_mod::lemma_div_is_ordered(n0, lastdone, 0x800_0000);
        crate::page::lemma_div_step(lastdone, vk, 0x40000);
        crate::page::lemma_div_step(lastdone, vk, 0x800_0000);
    }
    if page_size == PageSize::Large {
        vstd::arithmetic::div_mod::lemma_hoist_over_denominator(n0, count, 512);
        assert(vk / 512 == n0 / 512 + count);
        assert forall|s: int| n0 / 512 <= s < n0 / 512 + k implies exists|p: u64|
            #[trigger] post.word1(s) == crate::entry::word_set(
                p,
                crate::entry::DIRTY | HUGE_PAGE | flags,
            ) && p % 0x20_0000 == 0 && p < MAX_PHYSICAL_ADDRESS by {
            if s < n0 / 512 + count {
                let p = choose|p: u64|
                    #[trigger] cur.word1(s) == crate::entry::word_set(
                        p,
                        crate::entry::DIRTY | HUGE_PAGE | flags,
                    ) && p % 0x20_0000 == 0 && p < MAX_PHYSICAL_ADDRESS;
                assert(post.word1(s) == cur.word1(s));
                assert(post.word1(s) == crate::entry::word_set(
                    p,
                    crate::entry::DIRTY | HUGE_PAGE | flags,
                ) && p % 0x20_0000 == 0 && p < MAX_PHYSICAL_ADDRESS);
            } else {
                assert(post.word1(vk / 512) == crate::entry::word_set(
                    frame,
                    crate::entry::DIRTY | HUGE_PAGE | flags,
                ));
                assert(post.word1(s) == crate::entry::word_set(
                    frame,
                    crate::entry::DIRTY | HUGE_PAGE | flags,
                ) && frame % 0x20_0000 == 0 && frame < MAX_PHYSICAL_ADDRESS);
            }
        }
        assert forall|m: int| 0 <= m < 0x800_0000 && !(n0 / 512 <= m < n0 / 512 + k) implies
            post.word1(m) == pre.word1(m) by {
            assert(post.word1(m) == cur.word1(m));
        }
        assert forall|m: int| n0 / 0x40000 <= m <= vk / 0x40000 implies
            crate::entry::word_links(#[trigger] post.word2(m)) && (word_present(pre.word2(m))
            ==> post.word2(m) == pre.word2(m)) by {
            if m == vk / 0x40000 {
                if count > 0 && m <= lastdone / 0x40000 {
                    assert(crate::entry::word_links(cur.word2(m)));
                } else {
                    assert(cur.word2(m) == pre.word2(m));
                }
            } else {
                assert(m < vk / 0x40000);
                assert(count > 0);
                assert(m <= lastdone / 0x40000);
                assert(crate::entry::word_links(cur.word2(m)));
                assert(post.word2(m) == cur.word2(m));
            }
        }
        assert forall|m: int| 0 <= m < 0x40000 && !(n0 / 0x40000 <= m <= vk / 0x40000) implies
            post.word2(m) == pre.word2(m) by {
            assert(post.word2(m) == cur.word2(m));
            if count > 0 {
                assert(!(n0 / 0x40000 <= m <= lastdone / 0x40000));
            }
        }
        assert forall|m: int| 0 <= m < 0x10_0000_0000 && n0 / 512 <= m / 512 < n0 / 512 + k
            implies post.word0(m) == 0 by {
            crate::table::lemma_pml4_slot_digits(m);
            if m / 512 < n0 / 512 + count {
                assert(cur.word0(m) == 0);
                assert(post.word0(m) == cur.word0(m));
            } else {
                assert(m / 512 == vk / 512);
                assert(post.word0(m) == 0);
            }
        }
        assert forall|m: int| 0 <= m < 0x10_0000_0000 && !(n0 / 512 <= m / 512 < n0 / 512 + k)
            implies post.word0(m) == pre.word0(m) by {
            crate::table::lemma_pml4_slot_digits(m);
            assert(post.word0(m) == cur.word0(m));
        }
    }
    if page_size == PageSize::Huge {
        vstd::arithmetic::div_mod::lemma_hoist_over_denominator(n0, count, 0x40000);
        assert(vk / 0x40000 == n0 / 0x40000 + count);
        assert forall|s: int| n0 / 0x40000 <= s < n0 / 0x40000 + k implies exists|p: u64|
            #[trigger] post.word2(s) == crate::entry::word_set(
                p,
                crate::entry::DIRTY | HUGE_PAGE | flags,
            ) && p % 0x4000_0000 == 0 && p < MAX_PHYSICAL_ADDRESS by {
            if s < n0 / 0x40000 + count {
                let p = choose|p: u64|
                    #[trigger] cur.word2(s) == crate::entry::word_set(
                        p,
                        crate::entry::DIRTY | HUGE_PAGE | flags,
                    ) && p % 0x4000_0000 == 0 && p < MAX_PHYSICAL_ADDRESS;
                assert(post.word2(s) == cur.word2(s));
                assert(post.word2(s) == crate::entry::word_set(
                    p,
                    crate::entry::DIRTY | HUGE_PAGE | flags,
                ) && p % 0x4000_0000 == 0 && p < MAX_PHYSICAL_ADDRESS);
            } else {
                assert(post.word2(vk / 0x40000) == crate::entry::word_set(
                    frame,
                    crate::entry::DIRTY | HUGE_PAGE | flags,
                ));
                assert(post.word2(s) == crate::entry::word_set(
                    frame,
                    crate::entry::DIRTY | HUGE_PAGE | flags,
                ) && frame % 0x4000_0000 == 0 && frame < MAX_PHYSICAL_ADDRESS);
            }
        }
        assert forall|m: int| 0 <= m < 0x40000 && !(n0 / 0x40000 <= m < n0 / 0x40000 + k)
            implies post.word2(m) == pre.word2(m) by {
            assert(post.word2(m) == cur.word2(m));
        }
        assert forall|m: int| 0 <= m < 0x10_0000_0000 && n0 / 0x40000 <= m / 0x40000 < n0
            / 0x40000 + k implies post.word0(m) == 0 by {
            crate::table::lemma_pml4_slot_digits(m);
            vstd::arithmetic::div_mod::lemma_div_pos_is_pos(m, 0x40000);
            if m / 0x40000 < n0 / 0x40000 + count {
                assert(cur.word0(m) == 0);
                assert(post.word0(m) == cur.word0(m));
            } else {
                assert(m / 0x40000 == vk / 0x40000);
                assert(post.word0(m) == 0);
            }
        }
        assert forall|m: int| 0 <= m < 0x10_0000_0000 && !(n0 / 0x40000 <= m / 0x40000 < n0
            / 0x40000 + k) implies post.word0(m) == pre.word0(m) by {
            crate::table::lemma_pml4_slot_digits(m);
            vstd::arithmetic::div_mod::lemma_div_pos_is_pos(m, 0x40000);
            assert(post.word0(m) == cur.word0(m));
        }
    }
    assert forall|i: int| idx_at(3, n0) <= i <= idx_at(3, vk) implies word_present(
        #[trigger] post.word3(i),
    ) && (word_present(pre.word3(i)) ==> post.word3(i) == pre.word3(i)) by {
        if i == idx_at(3, vk) {
            if count > 0 && i <= idx_at(3, lastdone) {
                assert(word_present(cur.word3(i)));
                assert(word_present(pre.word3(i)) ==> cur.word3(i) == pre.word3(i));
            } else {
                assert(cur.word3(i) == pre.word3(i));
            }
        } else {
            assert(i < idx_at(3, vk));
            assert(count > 0);
            assert(i <= idx_at(3, lastdone));
            assert(word_present(cur.word3(i)));
            assert(post.word3(i) == cur.word3(i));
        }
    }
    assert forall|i: int| 0 <= i < 512 && !(idx_at(3, n0) <= i <= idx_at(3, vk)) implies
        post.word3(i) == pre.word3(i) by {
        assert(post.word3(i) == cur.word3(i));
        if count > 0 {
            assert(!(idx_at(3, n0) <= i <= idx_at(3, lastdone)));
        }
    }
}

/// The 2 MiB-aligned end of the kernel image.
pub open spec fn spec_kernel_end(base_address: u64, image_size: u64) -> int {
    crate::supply::spec_align_up(base_address + image_size, 0x20_0000)
}

/// The worst-case space reserved for page tables: enough tables to back
/// all of memory with 4 KiB pages, plus one large page of headroom.
pub open spec fn spec_reserved_space(total_memory: u64) -> int {
    let npages = total_memory as int / 0x1000;
    let npage_3tables = npages / 512 + 1;
    let npage_2tables = npage_3tables / 512 + 1;
    let npage_1tables = npage_2tables / 512 + 1;
    (npage_3tables + npage_2tables + npage_1tables) * 0x1000 + 0x20_0000
}

/// Whether the machine's memory covers the kernel image, the worst-case
/// page-table reservation and at least the kernel heap: the exact test
/// under which boot-time initialization goes through.
pub open spec fn init_memory_sufficient(base_address: u64, image_size: u64,
    total_memory: u64) -> bool {
    let kernel_end = spec_kernel_end(base_address, image_size);
    let reserved = spec_reserved_space(total_memory);
    &&& total_memory >= kernel_end + reserved + 0x20_0000
    &&& ((total_memory - kernel_end - reserved) / 0x20_0000) * 0x20_0000 >= 0x80_0000
}

/// The alignment arithmetic of the kernel image bounds: aligning the base
/// down and the image end up to 2 MiB boundaries.
proof fn lemma_large_align(base_address: u64, image_size: u64)
    requires
        base_address + image_size <= u64::MAX - 0x20_0000,
    ensures
        (base_address / 0x20_0000) * 0x20_0000 == base_address - base_address % 0x20_0000,
        ((base_address + image_size + 0x1F_FFFF) / 0x20_0000) * 0x20_0000
            == crate::supply::spec_align_up(base_address + image_size, 0x20_0000),
        crate::supply::spec_align_up(base_address + image_size, 0x20_0000) <= base_address
            + image_size + 0x20_0000,
        (base_address / 0x20_0000) * 0x20_0000 <= base_address,
{
    vstd::arithmetic::div_mod::lemma_fundamental_div_mod(base_address as int, 0x20_0000);
    vstd::arithmetic::div_mod::lemma_mod_pos_bound(base_address as int, 0x20_0000);
    crate::supply::lemma_align_up_formula(base_address + image_size, 0x20_0000);
}

/// The worst-case page-table reservation stays within sane bounds for any
/// physical memory the architecture can address.
proof fn lemma_reserved_bounds(total_memory: u64)
    requires
        total_memory <= MAX_PHYSICAL_ADDRESS,
    ensures
        0 <= total_memory as int / 0x1000 <= 0x10_0000_0000_0000,
        0 <= total_memory as int / 0x1000 / 512,
        total_memory as int / 0x1000 / 512 + 1 <= 0x800_0000_0001,
        0 <= (total_memory as int / 0x1000 / 512 + 1) / 512,
        (total_memory as int / 0x1000 / 512 + 1) / 512 + 1 <= 0x4_0000_0001,
        0 <= ((total_memory as int / 0x1000 / 512 + 1) / 512 + 1) / 512,
        ((total_memory as int / 0x1000 / 512 + 1) / 512 + 1) / 512 + 1 <= 0x200_0001,
{
    let npages = total_memory as int / 0x1000;
    vstd::arithmetic::div_mod::lemma_div_pos_is_pos(total_memory as int, 0x1000);
    vstd::arithmetic::div_mod::lemma_div_is_ordered(
        total_memory as int,
        0x10_0000_0000_0000,
        0x1000,
    );
    assert(npages <= 0x10_0000_0000_0000);
    vstd::arithmetic::div_mod::lemma_div_pos_is_pos(npages, 512);
    vstd::arithmetic::div_mod::lemma_div_is_ordered(npages, 0x10_0000_0000_0000, 512);
    assert(0x10_0000_0000_0000int / 512 == 0x800_0000_0000) by (nonlinear_arith);
    let n3 = npages / 512 + 1;
    assert(n3 <= 0x800_0000_0001);
    vstd::arithmetic::div_mod::lemma_div_pos_is_pos(n3, 512);
    vstd::arithmetic::div_mod::lemma_div_is_ordered(n3, 0x800_0000_0001, 512);
    assert(0x800_0000_0001int / 512 == 0x4_0000_0000) by (nonlinear_arith);
    let n2 = n3 / 512 + 1;
    assert(n2 <= 0x4_0000_0001);
    vstd::arithmetic::div_mod::lemma_div_pos_is_pos(n2, 512);
    vstd::arithmetic::div_mod::lemma_div_is_ordered(n2, 0x4_0000_0001, 512);
    assert(0x4_0000_0001int / 512 == 0x200_0000) by (nonlinear_arith);
}

/// When a batched heap map came back short, the supplier it drew from did
/// not have room for the whole heap in the first place: its free bytes were
/// below the worst-case budget of one aligned chunk plus table frames per
/// 2 MiB of heap.
proof fn lemma_user_heap_budget(before: BumpAllocator, after: BumpAllocator, size: u64,
    mapped: u64)
    requires
        before.wf(),
        after.wf(),
        before.arena_end == after.arena_end,
        size % 0x20_0000 == 0,
        mapped % 0x20_0000 == 0,
        mapped <= size,
        mapped != size,
        after.next <= before.next + (mapped as int / 0x20_0000) * (2 * 0x20_0000 + 0x2000),
        crate::supply::spec_align_up(after.next as int, 0x20_0000) + 0x20_0000 + 0x3000
            > after.arena_end,
    ensures
        before.free_bytes() < (size as int / 0x20_0000) * (2 * 0x20_0000 + 0x2000) + 2
            * 0x20_0000 + 0x3000,
{
    let c = 0x20_0000;
    let kk = mapped as int / c;
    let kcount = size as int / c;
    vstd::arithmetic::div_mod::lemma_fundamental_div_mod(mapped as int, c);
    vstd::arithmetic::div_mod::lemma_fundamental_div_mod(size as int, c);
    assert(kk < kcount) by (nonlinear_arith)
        requires
            mapped == c * kk + 0,
            size == c * kcount + 0,
            mapped < size,
            c == 0x20_0000,
    ;
    crate::supply::lemma_aligned_gap(
        after.next as int,
        crate::supply::spec_align_up(after.next as int, c),
        c,
    );
    assert(after.arena_end - after.next < 2 * c + 0x2000);
    vstd::arithmetic::mul::lemma_mul_inequality(kk + 1, kcount, 2 * c + 0x2000);
    assert(kk * (2 * c + 0x2000) + (2 * c + 0x2000) == (kk + 1) * (2 * c + 0x2000))
        by (nonlinear_arith)
        requires
            c == 0x20_0000,
    ;
    assert(before.free_bytes() < (kk + 1) * (2 * c + 0x2000));
}

/// The slot numbers and digits of the identity-mapped low 2 MiB.
proof fn lemma_low_identity_facts()
    ensures
        vpn(0) == 0,
        vpn(0x1ff000) == 0x1ff,
        idx_at(3, 0) == 0,
        idx_at(3, 0x1ff) == 0,
        0x1ffint / 512 == 0,
        0x1ffint / 0x40000 == 0,
        crate::page::spec_is_valid_address(0),
        crate::page::spec_is_valid_address(0x1ff000),
{
    assert((0u64 >> 12) & 0xF_FFFF_FFFF == 0) by (bit_vector);
    assert((0x1ff000u64 >> 12) & 0xF_FFFF_FFFF == 0x1ff) by (bit_vector);
}

/// The slot numbers and digits of the two fixed 2 MiB data sections.
proof fn lemma_data_section_facts(base: u64)
    requires
        base == 0x40_0000 || base == 0x60_0000,
    ensures
        crate::page::spec_is_valid_address(base),
        base % 0x20_0000 == 0,
        base == 0x40_0000 ==> vpn(base) == 0x400,
        base == 0x60_0000 ==> vpn(base) == 0x600,
        vpn(base) / 0x40000 == 0,
        idx_at(3, vpn(base)) == 0,
        vpn(base) % 512 == 0,
{
    assert((0x40_0000u64 >> 12) & 0xF_FFFF_FFFF == 0x400 && 0x40_0000u64 >> 12 == 0x400)
        by (bit_vector);
    assert((0x60_0000u64 >> 12) & 0xF_FFFF_FFFF == 0x600 && 0x60_0000u64 >> 12 == 0x600)
        by (bit_vector);
    vstd::arithmetic::div_mod::lemma_basic_div(0x400, 0x40000);
    vstd::arithmetic::div_mod::lemma_basic_div(0x600, 0x40000);
    vstd::arithmetic::div_mod::lemma_basic_div(0x400, 0x800_0000);
    vstd::arithmetic::div_mod::lemma_basic_div(0x600, 0x800_0000);
    assert(0x400int % 512 == 0 && 0x600int % 512 == 0) by (nonlinear_arith);
}

/// `x` rounded up to the next 4 KiB boundary.
pub fn align_up_page(x: u64) -> (r: u64)
    requires
        x <= u64::MAX - 0xFFF,
    ensures
        r == crate::supply::spec_align_up(x as int, 0x1000),
        r % 0x1000 == 0,
        x <= r < x + 0x1000,
        x >= 1 ==> r >= 0x1000,
{
    proof {
        crate::supply::lemma_align_up_page(x as int);
    }
    ((x + 0xFFF) / 0x1000) * 0x1000
}

/// The physical budget of a whole-page allocation covers the pages and
/// three table frames for each.
proof fn lemma_flags_budget(size: u64)
    requires
        size % 0x1000 == 0,
    ensures
        size + 0x3000 * (size as int / 0x1000) <= 4 * size,
{
    vstd::arithmetic::div_mod::lemma_fundamental_div_mod(size as int, 0x1000);
    let q = size as int / 0x1000;
    assert(0x3000 * q <= 3 * (q * 0x1000)) by (nonlinear_arith);
}

} // verus!
