use vstd::prelude::*;
use crate::entry::HUGE_PAGE;

verus! {

/// Number of offset bits of a virtual address for a 4 KiB page.
pub const PAGE_BITS: u64 = 12;

/// Number of bits of the index into each table (PML4, PDPT, PDT, PGT).
pub const PAGE_MAP_BITS: u64 = 9;

/// A mask of `PAGE_MAP_BITS` set bits, to cut a table index out of an address.
pub const PAGE_MAP_MASK: u64 = 0x1FF;

/// Size in bytes of a 4 KiB page.
pub const BASE_PAGE_BYTES: u64 = 0x1000;

/// Size in bytes of a 2 MiB page.
pub const LARGE_PAGE_BYTES: u64 = 0x20_0000;

/// Size in bytes of a 1 GiB page.
pub const HUGE_PAGE_BYTES: u64 = 0x4000_0000;

/// Number of 4 KiB page slots the four-level hierarchy can address.
pub const TOTAL_BASE_PAGES: u64 = 0x10_0000_0000;

/// The three page sizes the four-level hierarchy supports.
#[derive(Clone, Copy, PartialEq, Eq, Structural, Debug)]
pub enum PageSize {
    /// A 4 KiB page, mapped in the PGT.
    Base,
    /// A 2 MiB page, mapped in the PDT.
    Large,
    /// A 1 GiB page, mapped in the PDPT.
    Huge,
}

impl PageSize {
    /// The page size in bytes.
    pub open spec fn spec_size(self) -> u64 {
        match self {
            PageSize::Base => BASE_PAGE_BYTES,
            PageSize::Large => LARGE_PAGE_BYTES,
            PageSize::Huge => HUGE_PAGE_BYTES,
        }
    }

    /// The page size in bytes.
    pub fn size(self) -> (r: u64)
        ensures
            r == self.spec_size(),
    {
        match self {
            PageSize::Base => BASE_PAGE_BYTES,
            PageSize::Large => LARGE_PAGE_BYTES,
            PageSize::Huge => HUGE_PAGE_BYTES,
        }
    }

    /// The table level at which a page of this size is mapped
    /// (0 for the PGT through 3 for the PML4).
    pub open spec fn spec_map_level(self) -> u64 {
        match self {
            PageSize::Base => 0,
            PageSize::Large => 1,
            PageSize::Huge => 2,
        }
    }

    /// The table level at which a page of this size is mapped.
    pub fn map_level(self) -> (r: u64)
        ensures
            r == self.spec_map_level(),
    {
        match self {
            PageSize::Base => 0,
            PageSize::Large => 1,
            PageSize::Huge => 2,
        }
    }

    /// How many 4 KiB page slots one page of this size spans.
    pub open spec fn spec_stride(self) -> int {
        match self {
            PageSize::Base => 1,
            PageSize::Large => 512,
            PageSize::Huge => 0x40000,
        }
    }

    /// Any extra flag that must be set to map a page of this size.
    pub open spec fn spec_extra_flag(self) -> u64 {
        match self {
            PageSize::Base => 0,
            PageSize::Large => HUGE_PAGE,
            PageSize::Huge => HUGE_PAGE,
        }
    }

    /// Any extra flag that must be set to map a page of this size.
    pub fn extra_flag(self) -> (r: u64)
        ensures
            r == self.spec_extra_flag(),
    {
        match self {
            PageSize::Base => 0,
            PageSize::Large => HUGE_PAGE,
            PageSize::Huge => HUGE_PAGE,
        }
    }
}

/// Whether the virtual address is canonical: bits 48..=63 replicate bit 47,
/// so the address lies below `0x8000_0000_0000` or at or above
/// `0xFFFF_8000_0000_0000`.
pub open spec fn spec_is_valid_address(virtual_address: u64) -> bool {
    virtual_address < 0x8000_0000_0000 || virtual_address >= 0xFFFF_8000_0000_0000
}

/// The number of the 4 KiB page slot a virtual address falls in: the 36 bits
/// of the address that select the four table indices.
pub open spec fn vpn(virtual_address: u64) -> int {
    ((virtual_address >> 12) & 0xF_FFFF_FFFF) as int
}

/// The index a page slot number selects in the table at `level`.
pub open spec fn idx_at(level: int, n: int) -> int {
    if level == 0 {
        n % 512
    } else if level == 1 {
        (n / 512) % 512
    } else if level == 2 {
        (n / 0x40000) % 512
    } else {
        (n / 0x800_0000) % 512
    }
}

/// The shifted-and-masked index computations agree with the arithmetic digits
/// of the 36-bit page slot number.
pub proof fn lemma_idx_bits(v: u64)
    by (bit_vector)
    ensures
        (v >> 12) & 0x1ff == ((v >> 12) & 0xF_FFFF_FFFF) % 512,
        ((v >> 12) >> 9) & 0x1ff == (((v >> 12) & 0xF_FFFF_FFFF) / 512) % 512,
        ((v >> 12) >> 18) & 0x1ff == (((v >> 12) & 0xF_FFFF_FFFF) / 0x40000) % 512,
        ((v >> 12) >> 27) & 0x1ff == (((v >> 12) & 0xF_FFFF_FFFF) / 0x800_0000) % 512,
        (v >> 12) & 0xF_FFFF_FFFF < 0x10_0000_0000,
        v < 0x8000_0000_0000 ==> (v >> 12) & 0xF_FFFF_FFFF < 0x8_0000_0000,
        v <= 0x8000_0000_0000 ==> (v >> 12) & 0xF_FFFF_FFFF <= 0x8_0000_0000,
        (v >> 12) & 0x1ff < 512,
        ((v >> 12) >> 9) & 0x1ff < 512,
        ((v >> 12) >> 18) & 0x1ff < 512,
        ((v >> 12) >> 27) & 0x1ff < 512,
{
}

/// Rounding an address down to a page boundary subtracts the offset, keeps
/// the result in the same canonical half, and aligns it.
pub proof fn lemma_align_down(v: u64)
    by (bit_vector)
    ensures
        v & !0xfffu64 == v - v % 0x1000,
        v & !0x1f_ffffu64 == v - v % 0x20_0000,
        v & !0x3fff_ffffu64 == v - v % 0x4000_0000,
        v >= 0xFFFF_8000_0000_0000 ==> v & !0x3fff_ffffu64 >= 0xFFFF_8000_0000_0000,
        v >= 0xFFFF_8000_0000_0000 ==> v & !0x1f_ffffu64 >= 0xFFFF_8000_0000_0000,
        v >= 0xFFFF_8000_0000_0000 ==> v & !0xfffu64 >= 0xFFFF_8000_0000_0000,
        v & !0xfffu64 <= v && v & !0x1f_ffffu64 <= v && v & !0x3fff_ffffu64 <= v,
        (v & !0xfffu64) % 0x1000 == 0,
        (v & !0x1f_ffffu64) % 0x20_0000 == 0,
        (v & !0x3fff_ffffu64) % 0x4000_0000 == 0,
        (v & !0xfffu64) >> 12 == v >> 12,
{
}

/// How a slot number splits into a digit below a two-level radix: reducing
/// modulo `a * b` keeps the low digit intact and turns the high digits into
/// the middle one.
pub proof fn lemma_digits(n: int, a: int, b: int)
    requires
        0 <= n,
        0 < a,
        0 < b,
    ensures
        (n % (a * b)) % a == n % a,
        (n % (a * b)) / a == (n / a) % b,
        0 <= n % (a * b) < a * b,
        0 <= n % a < a,
        0 <= (n / a) % b < b,
{
    vstd::arithmetic::div_mod::lemma_mod_breakdown(n, a, b);
    vstd::arithmetic::div_mod::lemma_mod_pos_bound(n, a);
    vstd::arithmetic::div_mod::lemma_div_pos_is_pos(n, a);
    vstd::arithmetic::div_mod::lemma_mod_pos_bound(n / a, b);
    vstd::arithmetic::div_mod::lemma_mod_pos_bound(n, a * b);
    let r = n % a;
    let q = (n / a) % b;
    assert(n % (a * b) == a * q + r);
    assert(a * q + r == q * a + r) by (nonlinear_arith);
    vstd::arithmetic::div_mod::lemma_fundamental_div_mod_converse_div(n % (a * b), a, q, r);
    vstd::arithmetic::div_mod::lemma_mod_mod(n, a, b);
}

/// Dividing by two radices in turn is dividing by their product.
pub proof fn lemma_div_chain(n: int, a: int, b: int)
    requires
        0 <= n,
        0 < a,
        0 < b,
    ensures
        (n / a) / b == n / (a * b),
        0 <= n / a,
{
    vstd::arithmetic::div_mod::lemma_div_denominator(n, a, b);
    vstd::arithmetic::div_mod::lemma_div_pos_is_pos(n, a);
}

/// Stepping a page-aligned address by one page size advances its slot
/// number by the page's stride, as long as the step stays inside one
/// canonical half of the address space.
pub proof fn lemma_vpn_add(v: u64, s: u64)
    by (bit_vector)
    requires
        s == 0x1000 || s == 0x20_0000 || s == 0x4000_0000,
        v + s <= u64::MAX,
        (v < 0x8000_0000_0000 && v + s <= 0x8000_0000_0000) || v >= 0xFFFF_8000_0000_0000,
    ensures
        (((v + s) as u64 >> 12) & 0xF_FFFF_FFFF) == ((v >> 12) & 0xF_FFFF_FFFF) + (s >> 12),
        s >> 12 == s / 0x1000,
{
}

/// Stepping a page-aligned low-half address forward by a whole number of
/// pages advances its slot number by that number of pages.
pub proof fn lemma_vpn_add_multiple(v: u64, d: u64)
    by (bit_vector)
    requires
        v % 0x1000 == 0,
        d % 0x1000 == 0,
        v + d <= 0x8000_0000_0000,
    ensures
        (((v + d) as u64 >> 12) & 0xF_FFFF_FFFF) == ((v >> 12) & 0xF_FFFF_FFFF) + (d >> 12),
        d >> 12 == d / 0x1000,
{
}

/// Within one canonical half, the distance between two page-aligned
/// addresses reappears as the distance between their slot numbers.
pub proof fn lemma_vpn_diff(v1: u64, v2: u64)
    by (bit_vector)
    requires
        v1 <= v2,
        v1 % 0x1000 == 0,
        v2 % 0x1000 == 0,
        v2 < 0x8000_0000_0000 || v1 >= 0xFFFF_8000_0000_0000,
        v1 < 0x8000_0000_0000 || v1 >= 0xFFFF_8000_0000_0000,
    ensures
        ((v2 >> 12) & 0xF_FFFF_FFFF) - ((v1 >> 12) & 0xF_FFFF_FFFF) == (v2 - v1) as u64 >> 12,
        (v2 - v1) as u64 >> 12 == (v2 - v1) as u64 / 0x1000,
{
}

/// An address aligned to a large or huge page has a slot number aligned to
/// that page's stride.
pub proof fn lemma_vpn_align(v: u64)
    by (bit_vector)
    ensures
        v % 0x20_0000 == 0 ==> ((v >> 12) & 0xF_FFFF_FFFF) % 512 == 0,
        v % 0x4000_0000 == 0 ==> ((v >> 12) & 0xF_FFFF_FFFF) % 0x40000 == 0,
{
}

/// A low-half address at or above the fixed boot mappings has its slot
/// number at or above theirs.
pub proof fn lemma_vpn_ge(v: u64)
    by (bit_vector)
    ensures
        0x80_0000 <= v < 0x8000_0000_0000 ==> ((v >> 12) & 0xF_FFFF_FFFF) >= 0x800,
{
}

/// A page slot number always lies inside the 36 bits the hierarchy decodes.
pub proof fn lemma_vpn_bound(v: u64)
    ensures
        0 <= vpn(v) < 0x10_0000_0000,
        v < 0x8000_0000_0000 ==> vpn(v) < 0x8_0000_0000,
        v <= 0x8000_0000_0000 ==> vpn(v) <= 0x8_0000_0000,
{
    lemma_idx_bits(v);
}

/// Moving at most one divisor forward moves the quotient at most one step.
pub proof fn lemma_div_step(a: int, b: int, d: int)
    requires
        0 <= a <= b,
        b - a <= d,
        0 < d,
    ensures
        b / d <= a / d + 1,
        a / d <= b / d,
{
    vstd::arithmetic::div_mod::lemma_hoist_over_denominator(a, 1, d as nat);
    vstd::arithmetic::div_mod::lemma_div_is_ordered(b, a + d, d);
    vstd::arithmetic::div_mod::lemma_div_is_ordered(a, b, d);
}

/// Two slot numbers with the same quotient and remainder by `a` are equal.
pub proof fn lemma_digit_recompose(m: int, n: int, a: int)
    requires
        0 < a,
        m / a == n / a,
        m % a == n % a,
    ensures
        m == n,
{
    vstd::arithmetic::div_mod::lemma_fundamental_div_mod(m, a);
    vstd::arithmetic::div_mod::lemma_fundamental_div_mod(n, a);
}

/// A memory page of one of the three supported sizes.
#[derive(Clone, Copy)]
pub struct Page {
    /// Virtual memory address of this page, always rounded to a boundary of
    /// the page's own size.
    pub virtual_address: u64,
    /// The size of this page.
    pub size: PageSize,
}

impl Page {
    /// A page is well formed when its address is canonical and aligned to the
    /// page's own size.
    pub open spec fn wf(self) -> bool {
        &&& spec_is_valid_address(self.virtual_address)
        &&& self.virtual_address % self.size.spec_size() == 0
    }

    /// The number of the first 4 KiB slot this page covers.
    pub open spec fn base_vpn(self) -> int {
        vpn(self.virtual_address)
    }

    /// Returns whether the given virtual address is a valid one in the
    /// x86-64 memory model: 48-bit addressing splits the space into a low and
    /// a high canonical half, and everything between is rejected.
    pub fn is_valid_address(virtual_address: u64) -> (r: bool)
        ensures
            r == spec_is_valid_address(virtual_address),
    {
        virtual_address < 0x8000_0000_0000 || virtual_address >= 0xFFFF_8000_0000_0000
    }

    /// Returns the page of the given size that includes the given virtual
    /// address; the address is rounded down to a page-size boundary.
    pub fn including_address(virtual_address: u64, size: PageSize) -> (r: Page)
        requires
            spec_is_valid_address(virtual_address),
        ensures
            r.size == size,
            r.virtual_address == virtual_address - virtual_address % size.spec_size(),
            r.wf(),
    {
        proof {
            lemma_align_down(virtual_address);
        }
        let mask: u64 = match size {
            PageSize::Base => !0xfffu64,
            PageSize::Large => !0x1f_ffffu64,
            PageSize::Huge => !0x3fff_ffffu64,
        };
        Page { virtual_address: virtual_address & mask, size }
    }

    /// Returns an iterator over the pages from `first` to `last`, inclusive.
    pub fn range(first: Page, last: Page) -> (r: PageIter)
        requires
            first.virtual_address <= last.virtual_address,
            first.size == last.size,
        ensures
            r.current == first,
            r.last == last,
    {
        PageIter { current: first, last }
    }

    /// Returns the index of this page in the table at the given level. The
    /// level must not lie below the level the page's size is mapped at.
    pub fn table_index(&self, level: u64) -> (r: usize)
        requires
            self.size.spec_map_level() <= level <= 3,
        ensures
            r == idx_at(level as int, self.base_vpn()),
            r < 512,
    {
        proof {
            lemma_idx_bits(self.virtual_address);
        }
        let slot_bits: u64 = self.virtual_address >> PAGE_BITS;
        let shifted: u64 = if level == 0 {
            slot_bits
        } else if level == 1 {
            slot_bits >> 9
        } else if level == 2 {
            slot_bits >> 18
        } else {
            slot_bits >> 27
        };
        (shifted & 0x1FF) as usize
    }
}

/// An iterator to walk through a range of pages of one size.
pub struct PageIter {
    /// The next page the iterator will yield.
    pub current: Page,
    /// The last page of the range, inclusive.
    pub last: Page,
}

impl PageIter {
    /// Yields the next page of the range, or `None` when the range is
    /// exhausted. The range must not touch the very top of the address
    /// space, so that stepping past its last page cannot wrap around.
    pub fn next(&mut self) -> (r: Option<Page>)
        requires
            old(self).current.size == old(self).last.size,
            old(self).current.virtual_address <= old(self).last.virtual_address
                ==> old(self).last.virtual_address + old(self).last.size.spec_size()
                    <= u64::MAX,
        ensures
            final(self).last == old(self).last,
            final(self).current.size == old(self).current.size,
            old(self).current.virtual_address <= old(self).last.virtual_address ==> {
                &&& r == Some(old(self).current)
                &&& final(self).current.virtual_address == old(self).current.virtual_address
                    + old(self).current.size.spec_size()
            },
            old(self).current.virtual_address > old(self).last.virtual_address ==> {
                &&& r is None
                &&& final(self).current == old(self).current
            },
    {
        if self.current.virtual_address <= self.last.virtual_address {
            let p = self.current;
            self.current.virtual_address = self.current.virtual_address + self.current.size.size();
            Some(p)
        } else {
            None
        }
    }
}

} // verus!
