use vstd::prelude::*;
use crate::entry::{
    PageTableEntry, DIRTY, HUGE_PAGE, KEY_MASK, KEY_SHIFT, MAX_PHYSICAL_ADDRESS, WRITABLE,
    is_fresh_link, lemma_flag_bits, lookup_result, word_huge, word_links, word_present,
    word_rekeyed, word_set,
};
use crate::page::{
    idx_at, lemma_digits, lemma_digit_recompose, lemma_div_chain, lemma_vpn_add,
    lemma_vpn_align, lemma_vpn_bound, lemma_vpn_diff, vpn, Page, PageIter, PageSize,
};
use crate::supply::BumpAllocator;
use vstd::pervasive::unreached;

verus! {

/// A page table of the lowest level (PGT): 512 entries, each mapping a
/// 4 KiB page.
pub struct Pgt {
    /// The 512 entry words of the table.
    pub entries: Vec<PageTableEntry>,
}

impl Pgt {
    /// The table carries exactly 512 entries.
    pub open spec fn wf(self) -> bool {
        self.entries.len() == 512
    }

    /// The raw entry word in slot `i`.
    pub open spec fn word(self, i: int) -> u64 {
        self.entries@[i].physical_address_and_flags
    }

    /// A fresh table with every entry marked unused.
    pub fn new() -> (r: Pgt)
        ensures
            r.wf(),
            forall|i: int| 0 <= i < 512 ==> r.word(i) == 0,
    {
        let mut entries: Vec<PageTableEntry> = Vec::new();
        let mut j: usize = 0;
        while j < 512
            invariant
                entries.len() == j,
                j <= 512,
                forall|i: int| 0 <= i < j ==> entries@[i].physical_address_and_flags == 0,
            decreases 512 - j,
        {
            entries.push(PageTableEntry { physical_address_and_flags: 0 });
            j = j + 1;
        }
        Pgt { entries }
    }

    /// Maps a single page in this table to the given physical address.
    /// Returns whether an existing entry was updated, so the caller can
    /// flush TLBs.
    pub fn map_page_in_this_table(&mut self, page: Page, physical_address: u64, flags: u64)
        -> (replaced: bool)
        requires
            old(self).wf(),
            page.size == PageSize::Base,
            flags & HUGE_PAGE != 0 ==> physical_address % 0x20_0000 == 0,
            flags & HUGE_PAGE == 0 ==> physical_address % 0x1000 == 0,
            physical_address < MAX_PHYSICAL_ADDRESS,
        ensures
            final(self).wf(),
            final(self).word(idx_at(0, page.base_vpn()))
                == word_set(physical_address, DIRTY | flags),
            forall|i: int| 0 <= i < 512 && i != idx_at(0, page.base_vpn())
                ==> final(self).word(i) == old(self).word(i),
            replaced == word_present(old(self).word(idx_at(0, page.base_vpn()))),
    {
        proof {
            lemma_flag_bits(flags);
        }
        let index = page.table_index(0);
        let mut e: PageTableEntry = self.entries[index];
        let flush = e.is_present();
        e.set(physical_address, DIRTY | flags);
        self.entries.set(index, e);
        flush
    }

    /// Unmaps a single page in this table by zeroing its entry.
    pub fn unmap_page_in_this_table(&mut self, page: Page)
        requires
            old(self).wf(),
            page.size == PageSize::Base,
        ensures
            final(self).wf(),
            final(self).word(idx_at(0, page.base_vpn())) == 0,
            forall|i: int| 0 <= i < 512 && i != idx_at(0, page.base_vpn())
                ==> final(self).word(i) == old(self).word(i),
    {
        let index = page.table_index(0);
        let mut e: PageTableEntry = self.entries[index];
        e.zero();
        self.entries.set(index, e);
    }

    /// Returns the entry for the given page if it is present, otherwise
    /// `None`.
    pub fn get_page_table_entry(&self, page: Page) -> (r: Option<PageTableEntry>)
        requires
            self.wf(),
            page.size == PageSize::Base,
        ensures
            r == lookup_result(self.word(idx_at(0, page.base_vpn()))),
    {
        let index = page.table_index(0);
        let e: PageTableEntry = self.entries[index];
        if e.is_present() {
            Some(e)
        } else {
            None
        }
    }

    /// Rewrites the protection-key field of the present entry for the given
    /// page.
    pub fn set_pkey_in_this_table(&mut self, page: Page, key: u64)
        requires
            old(self).wf(),
            page.size == PageSize::Base,
            key < 16,
            word_present(old(self).word(idx_at(0, page.base_vpn()))),
        ensures
            final(self).wf(),
            final(self).word(idx_at(0, page.base_vpn()))
                == word_rekeyed(old(self).word(idx_at(0, page.base_vpn())), key),
            forall|i: int| 0 <= i < 512 && i != idx_at(0, page.base_vpn())
                ==> final(self).word(i) == old(self).word(i),
    {
        let index = page.table_index(0);
        let e: PageTableEntry = self.entries[index];
        let reworded = PageTableEntry {
            physical_address_and_flags: (e.physical_address_and_flags & !KEY_MASK)
                | (key << KEY_SHIFT),
        };
        self.entries.set(index, reworded);
    }
}

/// A page directory table (PDT, level 1). Each present entry either maps a
/// 2 MiB page directly (`HUGE_PAGE` set) or links a PGT below it; the linked
/// tables are owned alongside the raw words, mirroring in ownership the walk
/// the hardware takes through entry addresses.
pub struct Pdt {
    /// The 512 entry words of the table.
    pub entries: Vec<PageTableEntry>,
    /// For every slot whose word links a child table, that owned child.
    pub children: Vec<Option<Pgt>>,
}

impl Pdt {
    /// 512 slots; a child table exists exactly under every present,
    /// non-huge word, and every child is itself well formed.
    pub open spec fn wf(self) -> bool {
        &&& self.entries.len() == 512
        &&& self.children.len() == 512
        &&& forall|i: int|
            0 <= i < 512 ==> ((#[trigger] self.children@[i]) is Some <==> word_links(
                self.word1(i),
            ))
        &&& forall|i: int|
            0 <= i < 512 && (#[trigger] self.children@[i]) is Some
                ==> self.children@[i]->Some_0.wf()
    }

    /// The raw entry word in slot `i` of this table.
    pub open spec fn word1(self, i: int) -> u64 {
        self.entries@[i].physical_address_and_flags
    }

    /// The level-0 word the walk below this table reaches for local slot
    /// number `n` (`0 <= n < 0x40000`): the child's word where a child table
    /// exists, the zero word everywhere else.
    pub open spec fn word0(self, n: int) -> u64 {
        if self.children@[n / 512] is Some {
            self.children@[n / 512]->Some_0.word(n % 512)
        } else {
            0
        }
    }

    /// A fresh table with every entry marked unused.
    pub fn new() -> (r: Pdt)
        ensures
            r.wf(),
            forall|i: int| 0 <= i < 512 ==> r.word1(i) == 0,
            forall|n: int| 0 <= n < 0x40000 ==> r.word0(n) == 0,
    {
        let mut entries: Vec<PageTableEntry> = Vec::new();
        let mut children: Vec<Option<Pgt>> = Vec::new();
        let mut j: usize = 0;
        while j < 512
            invariant
                entries.len() == j,
                children.len() == j,
                j <= 512,
                forall|i: int| 0 <= i < j ==> entries@[i].physical_address_and_flags == 0,
                forall|i: int| 0 <= i < j ==> (#[trigger] children@[i]) is None,
            decreases 512 - j,
        {
            entries.push(PageTableEntry { physical_address_and_flags: 0 });
            children.push(None);
            j = j + 1;
        }
        let r = Pdt { entries, children };
        proof {
            crate::entry::lemma_zero_word();
            assert forall|n: int| 0 <= n < 0x40000 implies r.word0(n) == 0 by {
                lemma_digits(n, 512, 512);
            }
        }
        r
    }

    /// Maps a single 2 MiB page at this level, or walks down to map a 4 KiB
    /// page, creating the child table on demand. Returns whether an existing
    /// entry was updated.
    pub fn map_page(&mut self, page: Page, physical_address: u64, flags: u64,
        phys: &mut BumpAllocator) -> (replaced: bool)
        requires
            old(self).wf(),
            old(phys).wf(),
            old(phys).arena_end <= MAX_PHYSICAL_ADDRESS,
            0x1000 <= u64::MAX - old(phys).arena_end,
            page.size == PageSize::Base || page.size == PageSize::Large,
            page.size == PageSize::Large ==> physical_address % 0x20_0000 == 0,
            flags & HUGE_PAGE != 0 ==> physical_address % 0x20_0000 == 0,
            flags & HUGE_PAGE == 0 && page.size == PageSize::Base
                ==> physical_address % 0x1000 == 0,
            physical_address < MAX_PHYSICAL_ADDRESS,
            page.size == PageSize::Base && word_present(
                old(self).word1(idx_at(1, page.base_vpn())),
            ) ==> !word_huge(old(self).word1(idx_at(1, page.base_vpn()))),
            page.size == PageSize::Base && !word_present(
                old(self).word1(idx_at(1, page.base_vpn())),
            ) ==> old(phys).free_bytes() >= 0x1000,
        ensures
            final(self).wf(),
            final(phys).wf(),
            final(phys).arena_start == old(phys).arena_start,
            final(phys).arena_end == old(phys).arena_end,
            final(phys).freed == old(phys).freed,
            old(phys).next <= final(phys).next <= old(phys).next + 0x1000,
            page.size == PageSize::Large ==> {
                &&& final(self).word1(idx_at(1, page.base_vpn())) == word_set(
                    physical_address,
                    DIRTY | HUGE_PAGE | flags,
                )
                &&& forall|j: int|
                    0 <= j < 512 && j != idx_at(1, page.base_vpn())
                        ==> final(self).word1(j) == old(self).word1(j)
                &&& forall|m: int|
                    0 <= m < 0x40000 && m / 512 != idx_at(1, page.base_vpn())
                        ==> final(self).word0(m) == old(self).word0(m)
                &&& forall|m: int|
                    0 <= m < 0x40000 && m / 512 == idx_at(1, page.base_vpn())
                        ==> final(self).word0(m) == 0
                &&& replaced == word_present(old(self).word1(idx_at(1, page.base_vpn())))
                &&& *final(phys) == *old(phys)
            },
            page.size == PageSize::Base ==> {
                &&& final(self).word0(page.base_vpn() % 0x40000) == word_set(
                    physical_address,
                    DIRTY | flags,
                )
                &&& forall|m: int|
                    0 <= m < 0x40000 && m != page.base_vpn() % 0x40000
                        ==> final(self).word0(m) == old(self).word0(m)
                &&& word_links(final(self).word1(idx_at(1, page.base_vpn())))
                &&& (word_present(old(self).word1(idx_at(1, page.base_vpn())))
                    ==> final(self).word1(idx_at(1, page.base_vpn()))
                        == old(self).word1(idx_at(1, page.base_vpn()))
                    && *final(phys) == *old(phys))
                &&& (!word_present(old(self).word1(idx_at(1, page.base_vpn())))
                    ==> is_fresh_link(final(self).word1(idx_at(1, page.base_vpn()))))
                &&& forall|j: int|
                    0 <= j < 512 && j != idx_at(1, page.base_vpn())
                        ==> final(self).word1(j) == old(self).word1(j)
                &&& replaced == word_present(old(self).word0(page.base_vpn() % 0x40000))
            },
    {
        proof {
            lemma_flag_bits(flags);
            crate::entry::lemma_zero_word();
            lemma_digits(page.base_vpn(), 512, 512);
            crate::entry::lemma_word_set_bits(physical_address, DIRTY | HUGE_PAGE | flags);
            crate::entry::lemma_word_set_bits(physical_address, DIRTY | flags);
        }
        let index = page.table_index(1);
        if matches!(page.size, PageSize::Large) {
            let mut e: PageTableEntry = self.entries[index];
            let flush = e.is_present();
            e.set(physical_address, DIRTY | HUGE_PAGE | flags);
            self.entries.set(index, e);
            self.children.set(index, None);
            proof {
                assert forall|m: int| 0 <= m < 0x40000 implies 0 <= m / 512 < 512 && (m / 512
                    != idx_at(1, page.base_vpn()) ==> self.word0(m) == old(self).word0(m)) && (m
                    / 512 == idx_at(1, page.base_vpn()) ==> self.word0(m) == 0) by {
                    lemma_digits(m, 512, 512);
                }
            }
            flush
        } else {
            let ghost n = page.base_vpn() % 0x40000;
            let e0: PageTableEntry = self.entries[index];
            if !e0.is_present() {
                let frame = match phys.allocate(0x1000) {
                    Ok(f) => f,
                    Err(_) => unreached(),
                };
                proof {
                    crate::entry::lemma_word_set_bits(frame, WRITABLE);
                }
                let mut e: PageTableEntry = self.entries[index];
                e.set(frame, WRITABLE);
                self.entries.set(index, e);
                self.children.set(index, Some(Pgt::new()));
            }
            let ghost mid = *self;
            proof {
                assert(mid.children@[index as int] is Some);
                assert forall|m: int| 0 <= m < 0x40000 implies 0 <= m / 512 < 512
                    && mid.word0(m) == old(self).word0(m) by {
                    lemma_digits(m, 512, 512);
                }
            }
            let mut child: Pgt = match self.children.remove(index) {
                Some(c) => c,
                None => unreached(),
            };
            let replaced = child.map_page_in_this_table(page, physical_address, flags);
            self.children.insert(index, Some(child));
            proof {
                assert(self.children@ =~= mid.children@.update(
                    index as int,
                    Some(child),
                ));
                assert(self.word0(n) == word_set(physical_address, DIRTY | flags));
                assert forall|m: int| 0 <= m < 0x40000 && m != n implies self.word0(m)
                    == mid.word0(m) by {
                    lemma_digits(m, 512, 512);
                    if m / 512 == index as int && m % 512 == n % 512 {
                        lemma_digit_recompose(m, n, 512);
                    }
                }
            }
            replaced
        }
    }

    /// Unmaps a single 2 MiB page at this level, or walks down to unmap a
    /// 4 KiB page. The walk to a 4 KiB page must find its child table.
    pub fn unmap_page(&mut self, page: Page)
        requires
            old(self).wf(),
            page.size == PageSize::Base || page.size == PageSize::Large,
            page.size == PageSize::Base ==> word_links(
                old(self).word1(idx_at(1, page.base_vpn())),
            ),
        ensures
            final(self).wf(),
            page.size == PageSize::Large ==> {
                &&& final(self).word1(idx_at(1, page.base_vpn())) == 0
                &&& forall|j: int|
                    0 <= j < 512 && j != idx_at(1, page.base_vpn())
                        ==> final(self).word1(j) == old(self).word1(j)
                &&& forall|m: int|
                    0 <= m < 0x40000 && m / 512 != idx_at(1, page.base_vpn())
                        ==> final(self).word0(m) == old(self).word0(m)
                &&& forall|m: int|
                    0 <= m < 0x40000 && m / 512 == idx_at(1, page.base_vpn())
                        ==> final(self).word0(m) == 0
            },
            page.size == PageSize::Base ==> {
                &&& final(self).word0(page.base_vpn() % 0x40000) == 0
                &&& forall|m: int|
                    0 <= m < 0x40000 && m != page.base_vpn() % 0x40000
                        ==> final(self).word0(m) == old(self).word0(m)
                &&& forall|j: int| 0 <= j < 512 ==> final(self).word1(j) == old(self).word1(j)
            },
    {
        proof {
            crate::entry::lemma_zero_word();
            lemma_digits(page.base_vpn(), 512, 512);
        }
        let index = page.table_index(1);
        if matches!(page.size, PageSize::Large) {
            let mut e: PageTableEntry = self.entries[index];
            e.zero();
            self.entries.set(index, e);
            self.children.set(index, None);
            proof {
                assert forall|m: int| 0 <= m < 0x40000 implies 0 <= m / 512 < 512 && (m / 512
                    != idx_at(1, page.base_vpn()) ==> self.word0(m) == old(self).word0(m)) && (m
                    / 512 == idx_at(1, page.base_vpn()) ==> self.word0(m) == 0) by {
                    lemma_digits(m, 512, 512);
                }
            }
        } else {
            let ghost n = page.base_vpn() % 0x40000;
            let mut child: Pgt = match self.children.remove(index) {
                Some(c) => c,
                None => unreached(),
            };
            child.unmap_page_in_this_table(page);
            self.children.insert(index, Some(child));
            proof {
                assert(self.children@ =~= old(self).children@.update(index as int, Some(child)));
                assert forall|m: int| 0 <= m < 0x40000 && m != n implies self.word0(m) == old(
                    self,
                ).word0(m) by {
                    lemma_digits(m, 512, 512);
                    if m / 512 == index as int && m % 512 == n % 512 {
                        lemma_digit_recompose(m, n, 512);
                    }
                }
            }
        }
    }

    /// Returns the raw entry for a 2 MiB page at this level, or the leaf
    /// entry a walk for a 4 KiB page reaches, if that entry is present.
    pub fn get_page_table_entry(&self, page: Page) -> (r: Option<PageTableEntry>)
        requires
            self.wf(),
            page.size == PageSize::Base || page.size == PageSize::Large,
        ensures
            page.size == PageSize::Large ==> r == lookup_result(
                self.word1(idx_at(1, page.base_vpn())),
            ),
            page.size == PageSize::Base ==> r == lookup_result(
                self.word0(page.base_vpn() % 0x40000),
            ),
    {
        proof {
            crate::entry::lemma_zero_word();
            lemma_digits(page.base_vpn(), 512, 512);
        }
        let index = page.table_index(1);
        let e: PageTableEntry = self.entries[index];
        if matches!(page.size, PageSize::Large) {
            if e.is_present() {
                Some(e)
            } else {
                None
            }
        } else {
            if e.is_present() {
                match &self.children[index] {
                    Some(c) => c.get_page_table_entry(page),
                    None => None,
                }
            } else {
                None
            }
        }
    }

    /// Rewrites the protection-key field of the present entry the walk for
    /// the given page reaches.
    pub fn set_pkey(&mut self, page: Page, key: u64)
        requires
            old(self).wf(),
            page.size == PageSize::Base || page.size == PageSize::Large,
            key < 16,
            page.size == PageSize::Large ==> word_present(
                old(self).word1(idx_at(1, page.base_vpn())),
            ),
            page.size == PageSize::Base ==> word_links(
                old(self).word1(idx_at(1, page.base_vpn())),
            ) && word_present(old(self).word0(page.base_vpn() % 0x40000)),
        ensures
            final(self).wf(),
            page.size == PageSize::Large ==> {
                &&& final(self).word1(idx_at(1, page.base_vpn())) == word_rekeyed(
                    old(self).word1(idx_at(1, page.base_vpn())),
                    key,
                )
                &&& forall|j: int|
                    0 <= j < 512 && j != idx_at(1, page.base_vpn())
                        ==> final(self).word1(j) == old(self).word1(j)
                &&& forall|m: int|
                    0 <= m < 0x40000 ==> final(self).word0(m) == old(self).word0(m)
            },
            page.size == PageSize::Base ==> {
                &&& final(self).word0(page.base_vpn() % 0x40000) == word_rekeyed(
                    old(self).word0(page.base_vpn() % 0x40000),
                    key,
                )
                &&& forall|m: int|
                    0 <= m < 0x40000 && m != page.base_vpn() % 0x40000
                        ==> final(self).word0(m) == old(self).word0(m)
                &&& forall|j: int| 0 <= j < 512 ==> final(self).word1(j) == old(self).word1(j)
            },
    {
        proof {
            lemma_digits(page.base_vpn(), 512, 512);
            crate::entry::lemma_rekey_bits(
                old(self).word1(idx_at(1, page.base_vpn())),
                key,
            );
        }
        let index = page.table_index(1);
        if matches!(page.size, PageSize::Large) {
            let e: PageTableEntry = self.entries[index];
            let reworded = PageTableEntry {
                physical_address_and_flags: (e.physical_address_and_flags & !KEY_MASK)
                    | (key << KEY_SHIFT),
            };
            self.entries.set(index, reworded);
            proof {
                assert forall|m: int| 0 <= m < 0x40000 implies 0 <= m / 512 < 512
                    && self.word0(m) == old(self).word0(m) by {
                    lemma_digits(m, 512, 512);
                }
            }
        } else {
            let ghost n = page.base_vpn() % 0x40000;
            let mut child: Pgt = match self.children.remove(index) {
                Some(c) => c,
                None => unreached(),
            };
            child.set_pkey_in_this_table(page, key);
            self.children.insert(index, Some(child));
            proof {
                assert(self.children@ =~= old(self).children@.update(index as int, Some(child)));
                assert forall|m: int| 0 <= m < 0x40000 && m != n implies self.word0(m) == old(
                    self,
                ).word0(m) by {
                    lemma_digits(m, 512, 512);
                    if m / 512 == index as int && m % 512 == n % 512 {
                        lemma_digit_recompose(m, n, 512);
                    }
                }
            }
        }
    }
}

/// The digit splits a PDPT needs for the page it is asked to walk for:
/// how the covering slot numbers at levels one and zero relate to the
/// page's table indices.
proof fn lemma_pdpt_page_digits(n: int)
    requires
        0 <= n,
    ensures
        ((n / 512) % 0x40000) / 512 == idx_at(2, n),
        ((n / 512) % 0x40000) % 512 == idx_at(1, n),
        0 <= (n / 512) % 0x40000 < 0x40000,
        (n % 0x800_0000) / 0x40000 == idx_at(2, n),
        (n % 0x800_0000) % 0x40000 == n % 0x40000,
        0 <= n % 0x800_0000 < 0x800_0000,
        (n % 0x800_0000) / 512 == (n / 512) % 0x40000,
        0 <= idx_at(2, n) < 512,
{
    vstd::arithmetic::div_mod::lemma_div_pos_is_pos(n, 512);
    lemma_digits(n / 512, 512, 512);
    lemma_div_chain(n, 512, 512);
    lemma_digits(n, 0x40000, 512);
    lemma_digits(n, 512, 0x40000);
    lemma_digits(n % 0x800_0000, 512, 512);
    vstd::arithmetic::div_mod::lemma_mod_mod(n, 0x40000, 512);
    vstd::arithmetic::div_mod::lemma_mod_pos_bound(n, 0x800_0000);
    lemma_digits(n % 0x800_0000, 0x40000, 512);
    vstd::arithmetic::div_mod::lemma_mod_mod(n, 512, 0x40000);
}

/// The digit splits for a local level-zero slot number of a PDPT: which
/// child it falls under, and how its level-one covering slot decomposes.
proof fn lemma_pdpt_slot_digits(m: int)
    requires
        0 <= m < 0x800_0000,
    ensures
        0 <= m / 0x40000 < 512,
        0 <= m % 0x40000 < 0x40000,
        (m % 0x40000) / 512 == (m / 512) % 512,
        (m % 0x40000) % 512 == m % 512,
        m / 0x40000 == (m / 512) / 512,
        0 <= m / 512 < 0x40000,
{
    lemma_digits(m, 512, 512);
    lemma_digits(m, 0x40000, 512);
    lemma_div_chain(m, 512, 512);
    vstd::arithmetic::div_mod::lemma_small_mod(m as nat, 0x800_0000);
    vstd::arithmetic::div_mod::lemma_fundamental_div_mod(m / 512, 512);
    vstd::arithmetic::div_mod::lemma_mod_pos_bound(m / 512, 512);
    assert(m / 512 == 512 * ((m / 512) / 512) + (m / 512) % 512);
}

/// A page directory pointer table (PDPT, level 2). Each present entry
/// either maps a 1 GiB page directly (`HUGE_PAGE` set) or links a PDT.
pub struct Pdpt {
    /// The 512 entry words of the table.
    pub entries: Vec<PageTableEntry>,
    /// For every slot whose word links a child table, that owned child.
    pub children: Vec<Option<Pdt>>,
}

impl Pdpt {
    /// 512 slots; a child table exists exactly under every present,
    /// non-huge word, and every child is itself well formed.
    pub open spec fn wf(self) -> bool {
        &&& self.entries.len() == 512
        &&& self.children.len() == 512
        &&& forall|i: int|
            0 <= i < 512 ==> ((#[trigger] self.children@[i]) is Some <==> word_links(
                self.word2(i),
            ))
        &&& forall|i: int|
            0 <= i < 512 && (#[trigger] self.children@[i]) is Some
                ==> self.children@[i]->Some_0.wf()
    }

    /// The raw entry word in slot `i` of this table.
    pub open spec fn word2(self, i: int) -> u64 {
        self.entries@[i].physical_address_and_flags
    }

    /// The level-1 word the walk below this table reaches for local slot
    /// number `n` (`0 <= n < 0x40000`).
    pub open spec fn word1(self, n: int) -> u64 {
        if self.children@[n / 512] is Some {
            self.children@[n / 512]->Some_0.word1(n % 512)
        } else {
            0
        }
    }

    /// The level-0 word the walk below this table reaches for local slot
    /// number `n` (`0 <= n < 0x800_0000`).
    pub open spec fn word0(self, n: int) -> u64 {
        if self.children@[n / 0x40000] is Some {
            self.children@[n / 0x40000]->Some_0.word0(n % 0x40000)
        } else {
            0
        }
    }

    /// A fresh table with every entry marked unused.
    pub fn new() -> (r: Pdpt)
        ensures
            r.wf(),
            forall|i: int| 0 <= i < 512 ==> r.word2(i) == 0,
            forall|n: int| 0 <= n < 0x40000 ==> r.word1(n) == 0,
            forall|n: int| 0 <= n < 0x800_0000 ==> r.word0(n) == 0,
    {
        let mut entries: Vec<PageTableEntry> = Vec::new();
        let mut children: Vec<Option<Pdt>> = Vec::new();
        let mut j: usize = 0;
        while j < 512
            invariant
                entries.len() == j,
                children.len() == j,
                j <= 512,
                forall|i: int| 0 <= i < j ==> entries@[i].physical_address_and_flags == 0,
                forall|i: int| 0 <= i < j ==> (#[trigger] children@[i]) is None,
            decreases 512 - j,
        {
            entries.push(PageTableEntry { physical_address_and_flags: 0 });
            children.push(None);
            j = j + 1;
        }
        let r = Pdpt { entries, children };
        proof {
            crate::entry::lemma_zero_word();
            assert forall|n: int| 0 <= n < 0x40000 implies r.word1(n) == 0 by {
                lemma_digits(n, 512, 512);
            }
            assert forall|n: int| 0 <= n < 0x800_0000 implies r.word0(n) == 0 by {
                lemma_pdpt_slot_digits(n);
            }
        }
        r
    }

    /// Maps a single 1 GiB page at this level, or walks down to map a
    /// smaller page, creating child tables on demand. Returns whether an
    /// existing entry was updated.
    pub fn map_page(&mut self, page: Page, physical_address: u64, flags: u64,
        phys: &mut BumpAllocator) -> (replaced: bool)
        requires
            old(self).wf(),
            old(phys).wf(),
            old(phys).arena_end <= MAX_PHYSICAL_ADDRESS,
            0x1000 <= u64::MAX - old(phys).arena_end,
            page.size == PageSize::Huge ==> physical_address % 0x4000_0000 == 0,
            page.size == PageSize::Large ==> physical_address % 0x20_0000 == 0,
            flags & HUGE_PAGE != 0 ==> physical_address % 0x20_0000 == 0,
            flags & HUGE_PAGE == 0 && page.size == PageSize::Base
                ==> physical_address % 0x1000 == 0,
            physical_address < MAX_PHYSICAL_ADDRESS,
            page.size != PageSize::Huge && word_present(
                old(self).word2(idx_at(2, page.base_vpn())),
            ) ==> !word_huge(old(self).word2(idx_at(2, page.base_vpn()))),
            page.size == PageSize::Base && word_present(
                old(self).word1((page.base_vpn() / 512) % 0x40000),
            ) ==> !word_huge(old(self).word1((page.base_vpn() / 512) % 0x40000)),
            page.size == PageSize::Large && !word_present(
                old(self).word2(idx_at(2, page.base_vpn())),
            ) ==> old(phys).free_bytes() >= 0x1000,
            page.size == PageSize::Base && !word_present(
                old(self).word2(idx_at(2, page.base_vpn())),
            ) ==> old(phys).free_bytes() >= 0x2000,
            page.size == PageSize::Base && word_present(
                old(self).word2(idx_at(2, page.base_vpn())),
            ) && !word_present(old(self).word1((page.base_vpn() / 512) % 0x40000))
                ==> old(phys).free_bytes() >= 0x1000,
        ensures
            final(self).wf(),
            final(phys).wf(),
            final(phys).arena_start == old(phys).arena_start,
            final(phys).arena_end == old(phys).arena_end,
            final(phys).freed == old(phys).freed,
            old(phys).next <= final(phys).next <= old(phys).next + 0x2000,
            page.size == PageSize::Huge ==> {
                &&& final(self).word2(idx_at(2, page.base_vpn())) == word_set(
                    physical_address,
                    DIRTY | HUGE_PAGE | flags,
                )
                &&& forall|j: int|
                    0 <= j < 512 && j != idx_at(2, page.base_vpn())
                        ==> final(self).word2(j) == old(self).word2(j)
                &&& forall|m: int|
                    0 <= m < 0x40000 && m / 512 != idx_at(2, page.base_vpn())
                        ==> final(self).word1(m) == old(self).word1(m)
                &&& forall|m: int|
                    0 <= m < 0x40000 && m / 512 == idx_at(2, page.base_vpn())
                        ==> final(self).word1(m) == 0
                &&& forall|m: int|
                    0 <= m < 0x800_0000 && m / 0x40000 != idx_at(2, page.base_vpn())
                        ==> final(self).word0(m) == old(self).word0(m)
                &&& forall|m: int|
                    0 <= m < 0x800_0000 && m / 0x40000 == idx_at(2, page.base_vpn())
                        ==> final(self).word0(m) == 0
                &&& replaced == word_present(old(self).word2(idx_at(2, page.base_vpn())))
                &&& *final(phys) == *old(phys)
            },
            page.size == PageSize::Large ==> {
                &&& final(self).word1((page.base_vpn() / 512) % 0x40000) == word_set(
                    physical_address,
                    DIRTY | HUGE_PAGE | flags,
                )
                &&& forall|m: int|
                    0 <= m < 0x40000 && m != (page.base_vpn() / 512) % 0x40000
                        ==> final(self).word1(m) == old(self).word1(m)
                &&& forall|m: int|
                    0 <= m < 0x800_0000 && m / 512 != (page.base_vpn() / 512) % 0x40000
                        ==> final(self).word0(m) == old(self).word0(m)
                &&& forall|m: int|
                    0 <= m < 0x800_0000 && m / 512 == (page.base_vpn() / 512) % 0x40000
                        ==> final(self).word0(m) == 0
                &&& replaced == word_present(old(self).word1((page.base_vpn() / 512) % 0x40000))
            },
            page.size == PageSize::Base ==> {
                &&& final(self).word0(page.base_vpn() % 0x800_0000) == word_set(
                    physical_address,
                    DIRTY | flags,
                )
                &&& forall|m: int|
                    0 <= m < 0x800_0000 && m != page.base_vpn() % 0x800_0000
                        ==> final(self).word0(m) == old(self).word0(m)
                &&& word_links(final(self).word1((page.base_vpn() / 512) % 0x40000))
                &&& (word_present(old(self).word1((page.base_vpn() / 512) % 0x40000))
                    ==> final(self).word1((page.base_vpn() / 512) % 0x40000)
                        == old(self).word1((page.base_vpn() / 512) % 0x40000))
                &&& (!word_present(old(self).word1((page.base_vpn() / 512) % 0x40000))
                    ==> is_fresh_link(final(self).word1((page.base_vpn() / 512) % 0x40000)))
                &&& forall|m: int|
                    0 <= m < 0x40000 && m != (page.base_vpn() / 512) % 0x40000
                        ==> final(self).word1(m) == old(self).word1(m)
                &&& replaced == word_present(old(self).word0(page.base_vpn() % 0x800_0000))
            },
            page.size != PageSize::Huge ==> {
                &&& word_links(final(self).word2(idx_at(2, page.base_vpn())))
                &&& (word_present(old(self).word2(idx_at(2, page.base_vpn())))
                    ==> final(self).word2(idx_at(2, page.base_vpn()))
                        == old(self).word2(idx_at(2, page.base_vpn())))
                &&& (!word_present(old(self).word2(idx_at(2, page.base_vpn())))
                    ==> is_fresh_link(final(self).word2(idx_at(2, page.base_vpn()))))
                &&& forall|j: int|
                    0 <= j < 512 && j != idx_at(2, page.base_vpn())
                        ==> final(self).word2(j) == old(self).word2(j)
            },
    {
        proof {
            lemma_flag_bits(flags);
            crate::entry::lemma_zero_word();
            lemma_pdpt_page_digits(page.base_vpn());
            crate::entry::lemma_word_set_bits(physical_address, DIRTY | HUGE_PAGE | flags);
            crate::entry::lemma_word_set_bits(physical_address, DIRTY | flags);
        }
        let index = page.table_index(2);
        if matches!(page.size, PageSize::Huge) {
            let mut e: PageTableEntry = self.entries[index];
            let flush = e.is_present();
            e.set(physical_address, DIRTY | HUGE_PAGE | flags);
            self.entries.set(index, e);
            self.children.set(index, None);
            proof {
                assert forall|m: int| 0 <= m < 0x40000 implies 0 <= m / 512 < 512 && (m / 512
                    != idx_at(2, page.base_vpn()) ==> self.word1(m) == old(self).word1(m)) && (m
                    / 512 == idx_at(2, page.base_vpn()) ==> self.word1(m) == 0) by {
                    lemma_digits(m, 512, 512);
                }
                assert forall|m: int| 0 <= m < 0x800_0000 implies 0 <= m / 0x40000 < 512 && (m
                    / 0x40000 != idx_at(2, page.base_vpn()) ==> self.word0(m) == old(
                    self,
                ).word0(m)) && (m / 0x40000 == idx_at(2, page.base_vpn()) ==> self.word0(m)
                    == 0) by {
                    lemma_pdpt_slot_digits(m);
                }
            }
            flush
        } else {
            let ghost n1 = (page.base_vpn() / 512) % 0x40000;
            let ghost n0 = page.base_vpn() % 0x800_0000;
            let e0: PageTableEntry = self.entries[index];
            if !e0.is_present() {
                let frame = match phys.allocate(0x1000) {
                    Ok(f) => f,
                    Err(_) => unreached(),
                };
                proof {
                    crate::entry::lemma_word_set_bits(frame, WRITABLE);
                }
                let mut e: PageTableEntry = self.entries[index];
                e.set(frame, WRITABLE);
                self.entries.set(index, e);
                self.children.set(index, Some(Pdt::new()));
            }
            let ghost mid = *self;
            proof {
                assert(mid.children@[index as int] is Some);
                assert forall|m: int| 0 <= m < 0x40000 implies 0 <= m / 512 < 512
                    && mid.word1(m) == old(self).word1(m) by {
                    lemma_digits(m, 512, 512);
                }
                assert forall|m: int| 0 <= m < 0x800_0000 implies 0 <= m / 0x40000 < 512
                    && mid.word0(m) == old(self).word0(m) by {
                    lemma_pdpt_slot_digits(m);
                }
            }
            let mut child: Pdt = match self.children.remove(index) {
                Some(c) => c,
                None => unreached(),
            };
            let replaced = child.map_page(page, physical_address, flags, phys);
            self.children.insert(index, Some(child));
            proof {
                assert(self.children@ =~= mid.children@.update(index as int, Some(child)));
                assert forall|m: int| 0 <= m < 0x40000 && m != n1 implies (self.word1(m)
                    == mid.word1(m) || (page.size == PageSize::Base && m / 512 == index as int
                    && self.word1(m) == mid.word1(m))) && self.word1(m) == mid.word1(m) by {
                    lemma_digits(m, 512, 512);
                    if m / 512 == index as int && m % 512 == n1 % 512 {
                        lemma_digit_recompose(m, n1, 512);
                    }
                }
                assert forall|m: int| 0 <= m < 0x800_0000 implies 0 <= m / 0x40000 < 512
                    && ((m / 0x40000 != index as int) ==> self.word0(m) == mid.word0(m)) by {
                    lemma_pdpt_slot_digits(m);
                }
                if page.size == PageSize::Large {
                    assert forall|m: int| 0 <= m < 0x800_0000 && m / 0x40000 == index as int
                        implies (m / 512 != n1 ==> self.word0(m) == mid.word0(m)) && (m / 512
                        == n1 ==> self.word0(m) == 0) by {
                        lemma_pdpt_slot_digits(m);
                        if (m % 0x40000) / 512 == n1 % 512 {
                            lemma_digit_recompose(m / 512, n1, 512);
                        } else {
                            if m / 512 == n1 {
                                lemma_digit_recompose(m / 512, n1, 512);
                            }
                        }
                    }
                    assert(self.word1(n1) == word_set(physical_address, DIRTY | HUGE_PAGE
                        | flags));
                } else {
                    assert(self.word0(n0) == word_set(physical_address, DIRTY | flags));
                    assert forall|m: int| 0 <= m < 0x800_0000 && m != n0 && m / 0x40000
                        == index as int implies self.word0(m) == mid.word0(m) by {
                        lemma_pdpt_slot_digits(m);
                        if m % 0x40000 == n0 % 0x40000 {
                            lemma_digit_recompose(m, n0, 0x40000);
                        }
                    }
                    assert(self.word1(n1) == child.word1(n1 % 512));
                }
            }
            replaced
        }
    }

    /// Unmaps a single 1 GiB page at this level, or walks down to unmap a
    /// smaller page. The walk must find its child tables.
    pub fn unmap_page(&mut self, page: Page)
        requires
            old(self).wf(),
            page.size != PageSize::Huge ==> word_links(
                old(self).word2(idx_at(2, page.base_vpn())),
            ),
            page.size == PageSize::Base ==> word_links(
                old(self).word1((page.base_vpn() / 512) % 0x40000),
            ),
        ensures
            final(self).wf(),
            page.size == PageSize::Huge ==> {
                &&& final(self).word2(idx_at(2, page.base_vpn())) == 0
                &&& forall|j: int|
                    0 <= j < 512 && j != idx_at(2, page.base_vpn())
                        ==> final(self).word2(j) == old(self).word2(j)
                &&& forall|m: int|
                    0 <= m < 0x40000 && m / 512 != idx_at(2, page.base_vpn())
                        ==> final(self).word1(m) == old(self).word1(m)
                &&& forall|m: int|
                    0 <= m < 0x40000 && m / 512 == idx_at(2, page.base_vpn())
                        ==> final(self).word1(m) == 0
                &&& forall|m: int|
                    0 <= m < 0x800_0000 && m / 0x40000 != idx_at(2, page.base_vpn())
                        ==> final(self).word0(m) == old(self).word0(m)
                &&& forall|m: int|
                    0 <= m < 0x800_0000 && m / 0x40000 == idx_at(2, page.base_vpn())
                        ==> final(self).word0(m) == 0
            },
            page.size == PageSize::Large ==> {
                &&& final(self).word1((page.base_vpn() / 512) % 0x40000) == 0
                &&& forall|m: int|
                    0 <= m < 0x40000 && m != (page.base_vpn() / 512) % 0x40000
                        ==> final(self).word1(m) == old(self).word1(m)
                &&& forall|m: int|
                    0 <= m < 0x800_0000 && m / 512 != (page.base_vpn() / 512) % 0x40000
                        ==> final(self).word0(m) == old(self).word0(m)
                &&& forall|m: int|
                    0 <= m < 0x800_0000 && m / 512 == (page.base_vpn() / 512) % 0x40000
                        ==> final(self).word0(m) == 0
            },
            page.size == PageSize::Base ==> {
                &&& final(self).word0(page.base_vpn() % 0x800_0000) == 0
                &&& forall|m: int|
                    0 <= m < 0x800_0000 && m != page.base_vpn() % 0x800_0000
                        ==> final(self).word0(m) == old(self).word0(m)
                &&& forall|m: int| 0 <= m < 0x40000 ==> final(self).word1(m) == old(self).word1(m)
            },
            page.size != PageSize::Huge ==> forall|j: int|
                0 <= j < 512 ==> final(self).word2(j) == old(self).word2(j),
    {
        proof {
            crate::entry::lemma_zero_word();
            lemma_pdpt_page_digits(page.base_vpn());
        }
        let index = page.table_index(2);
        if matches!(page.size, PageSize::Huge) {
            let mut e: PageTableEntry = self.entries[index];
            e.zero();
            self.entries.set(index, e);
            self.children.set(index, None);
            proof {
                assert forall|m: int| 0 <= m < 0x40000 implies 0 <= m / 512 < 512 && (m / 512
                    != idx_at(2, page.base_vpn()) ==> self.word1(m) == old(self).word1(m)) && (m
                    / 512 == idx_at(2, page.base_vpn()) ==> self.word1(m) == 0) by {
                    lemma_digits(m, 512, 512);
                }
                assert forall|m: int| 0 <= m < 0x800_0000 implies 0 <= m / 0x40000 < 512 && (m
                    / 0x40000 != idx_at(2, page.base_vpn()) ==> self.word0(m) == old(
                    self,
                ).word0(m)) && (m / 0x40000 == idx_at(2, page.base_vpn()) ==> self.word0(m)
                    == 0) by {
                    lemma_pdpt_slot_digits(m);
                }
            }
        } else {
            let ghost n1 = (page.base_vpn() / 512) % 0x40000;
            let ghost n0 = page.base_vpn() % 0x800_0000;
            let mut child: Pdt = match self.children.remove(index) {
                Some(c) => c,
                None => unreached(),
            };
            child.unmap_page(page);
            self.children.insert(index, Some(child));
            proof {
                assert(self.children@ =~= old(self).children@.update(index as int, Some(child)));
                assert forall|m: int| 0 <= m < 0x40000 && m != n1 implies self.word1(m) == old(
                    self,
                ).word1(m) by {
                    lemma_digits(m, 512, 512);
                    if m / 512 == index as int && m % 512 == n1 % 512 {
                        lemma_digit_recompose(m, n1, 512);
                    }
                }
                assert forall|m: int| 0 <= m < 0x800_0000 implies 0 <= m / 0x40000 < 512
                    && ((m / 0x40000 != index as int) ==> self.word0(m) == old(self).word0(m))
                    by {
                    lemma_pdpt_slot_digits(m);
                }
                if page.size == PageSize::Large {
                    assert forall|m: int| 0 <= m < 0x800_0000 && m / 0x40000 == index as int
                        implies (m / 512 != n1 ==> self.word0(m) == old(self).word0(m)) && (m
                        / 512 == n1 ==> self.word0(m) == 0) by {
                        lemma_pdpt_slot_digits(m);
                        if m / 512 == n1 || (m % 0x40000) / 512 == n1 % 512 {
                            lemma_digit_recompose(m / 512, n1, 512);
                        }
                    }
                } else {
                    assert forall|m: int| 0 <= m < 0x800_0000 && m != n0 && m / 0x40000
                        == index as int implies self.word0(m) == old(self).word0(m) by {
                        lemma_pdpt_slot_digits(m);
                        if m % 0x40000 == n0 % 0x40000 {
                            lemma_digit_recompose(m, n0, 0x40000);
                        }
                    }
                }
            }
        }
    }

    /// Returns the raw entry for a 1 GiB page at this level, or the entry a
    /// walk for a smaller page reaches, if that entry is present.
    pub fn get_page_table_entry(&self, page: Page) -> (r: Option<PageTableEntry>)
        requires
            self.wf(),
        ensures
            page.size == PageSize::Huge ==> r == lookup_result(
                self.word2(idx_at(2, page.base_vpn())),
            ),
            page.size == PageSize::Large ==> r == lookup_result(
                self.word1((page.base_vpn() / 512) % 0x40000),
            ),
            page.size == PageSize::Base ==> r == lookup_result(
                self.word0(page.base_vpn() % 0x800_0000),
            ),
    {
        proof {
            crate::entry::lemma_zero_word();
            lemma_pdpt_page_digits(page.base_vpn());
        }
        let index = page.table_index(2);
        let e: PageTableEntry = self.entries[index];
        if matches!(page.size, PageSize::Huge) {
            if e.is_present() {
                Some(e)
            } else {
                None
            }
        } else {
            if e.is_present() {
                match &self.children[index] {
                    Some(c) => c.get_page_table_entry(page),
                    None => None,
                }
            } else {
                None
            }
        }
    }

    /// Rewrites the protection-key field of the present entry the walk for
    /// the given page reaches.
    pub fn set_pkey(&mut self, page: Page, key: u64)
        requires
            old(self).wf(),
            key < 16,
            page.size == PageSize::Huge ==> word_present(
                old(self).word2(idx_at(2, page.base_vpn())),
            ),
            page.size != PageSize::Huge ==> word_links(
                old(self).word2(idx_at(2, page.base_vpn())),
            ),
            page.size == PageSize::Large ==> word_present(
                old(self).word1((page.base_vpn() / 512) % 0x40000),
            ),
            page.size == PageSize::Base ==> word_links(
                old(self).word1((page.base_vpn() / 512) % 0x40000),
            ) && word_present(old(self).word0(page.base_vpn() % 0x800_0000)),
        ensures
            final(self).wf(),
            page.size == PageSize::Huge ==> {
                &&& final(self).word2(idx_at(2, page.base_vpn())) == word_rekeyed(
                    old(self).word2(idx_at(2, page.base_vpn())),
                    key,
                )
                &&& forall|j: int|
                    0 <= j < 512 && j != idx_at(2, page.base_vpn())
                        ==> final(self).word2(j) == old(self).word2(j)
                &&& forall|m: int|
                    0 <= m < 0x40000 ==> final(self).word1(m) == old(self).word1(m)
                &&& forall|m: int|
                    0 <= m < 0x800_0000 ==> final(self).word0(m) == old(self).word0(m)
            },
            page.size == PageSize::Large ==> {
                &&& final(self).word1((page.base_vpn() / 512) % 0x40000) == word_rekeyed(
                    old(self).word1((page.base_vpn() / 512) % 0x40000),
                    key,
                )
                &&& forall|m: int|
                    0 <= m < 0x40000 && m != (page.base_vpn() / 512) % 0x40000
                        ==> final(self).word1(m) == old(self).word1(m)
                &&& forall|m: int|
                    0 <= m < 0x800_0000 ==> final(self).word0(m) == old(self).word0(m)
            },
            page.size == PageSize::Base ==> {
                &&& final(self).word0(page.base_vpn() % 0x800_0000) == word_rekeyed(
                    old(self).word0(page.base_vpn() % 0x800_0000),
                    key,
                )
                &&& forall|m: int|
                    0 <= m < 0x800_0000 && m != page.base_vpn() % 0x800_0000
                        ==> final(self).word0(m) == old(self).word0(m)
                &&& forall|m: int| 0 <= m < 0x40000 ==> final(self).word1(m) == old(self).word1(m)
            },
            page.size != PageSize::Huge ==> forall|j: int|
                0 <= j < 512 ==> final(self).word2(j) == old(self).word2(j),
    {
        proof {
            lemma_pdpt_page_digits(page.base_vpn());
            crate::entry::lemma_rekey_bits(old(self).word2(idx_at(2, page.base_vpn())), key);
        }
        let index = page.table_index(2);
        if matches!(page.size, PageSize::Huge) {
            let e: PageTableEntry = self.entries[index];
            let reworded = PageTableEntry {
                physical_address_and_flags: (e.physical_address_and_flags & !KEY_MASK)
                    | (key << KEY_SHIFT),
            };
            self.entries.set(index, reworded);
            proof {
                assert forall|m: int| 0 <= m < 0x40000 implies 0 <= m / 512 < 512
                    && self.word1(m) == old(self).word1(m) by {
                    lemma_digits(m, 512, 512);
                }
                assert forall|m: int| 0 <= m < 0x800_0000 implies 0 <= m / 0x40000 < 512
                    && self.word0(m) == old(self).word0(m) by {
                    lemma_pdpt_slot_digits(m);
                }
            }
        } else {
            let ghost n1 = (page.base_vpn() / 512) % 0x40000;
            let ghost n0 = page.base_vpn() % 0x800_0000;
            let mut child: Pdt = match self.children.remove(index) {
                Some(c) => c,
                None => unreached(),
            };
            child.set_pkey(page, key);
            self.children.insert(index, Some(child));
            proof {
                assert(self.children@ =~= old(self).children@.update(index as int, Some(child)));
                assert forall|m: int| 0 <= m < 0x40000 && m != n1 implies self.word1(m) == old(
                    self,
                ).word1(m) by {
                    lemma_digits(m, 512, 512);
                    if m / 512 == index as int && m % 512 == n1 % 512 {
                        lemma_digit_recompose(m, n1, 512);
                    }
                }
                assert forall|m: int| 0 <= m < 0x800_0000 implies 0 <= m / 0x40000 < 512
                    && ((m / 0x40000 != index as int) ==> self.word0(m) == old(self).word0(m))
                    by {
                    lemma_pdpt_slot_digits(m);
                }
                if page.size == PageSize::Base {
                    assert forall|m: int| 0 <= m < 0x800_0000 && m != n0 && m / 0x40000
                        == index as int implies self.word0(m) == old(self).word0(m) by {
                        lemma_pdpt_slot_digits(m);
                        if m % 0x40000 == n0 % 0x40000 {
                            lemma_digit_recompose(m, n0, 0x40000);
                        }
                    }
                } else {
                    assert forall|m: int| 0 <= m < 0x800_0000 && m / 0x40000 == index as int
                        implies self.word0(m) == old(self).word0(m) by {
                        lemma_pdpt_slot_digits(m);
                    }
                }
            }
        }
    }
}

/// The number of pages in an inclusive range of pages of one size.
pub open spec fn page_count(first: Page, last: Page) -> int {
    (last.virtual_address - first.virtual_address) / (first.size.spec_size() as int) + 1
}

/// The slot, at the level a page of size `size` is mapped at, of the page
/// whose first 4 KiB slot is `n`.
pub open spec fn leaf_slot(size: PageSize, n: int) -> int {
    match size {
        PageSize::Base => n,
        PageSize::Large => n / 512,
        PageSize::Huge => n / 0x40000,
    }
}

/// The word held at leaf level `size` for leaf slot `s`.
pub open spec fn leaf_word_at(t: Pml4, size: PageSize, s: int) -> u64 {
    match size {
        PageSize::Base => t.word0(s),
        PageSize::Large => t.word1(s),
        PageSize::Huge => t.word2(s),
    }
}

/// Whether any of the first `k` pages of a range was already present in
/// table `t`: the condition under which a batched map owes a TLB shootdown.
pub open spec fn any_replaced(t: Pml4, size: PageSize, n0: int, k: int) -> bool {
    exists|j: int|
        0 <= j < k && word_present(#[trigger] leaf_word_at(t, size, leaf_slot(size, n0) + j))
}

/// What mapping one page whose first 4 KiB slot is `n` does to the
/// hierarchy's views: exactly the shape `map_page` ensures.
pub open spec fn map_page_post(pre: Pml4, post: Pml4, size: PageSize, n: int, pa: u64,
    flags: u64) -> bool {
    &&& forall|j: int| 0 <= j < 512 && j != idx_at(3, n) ==> post.word3(j) == pre.word3(j)
    &&& word_present(post.word3(idx_at(3, n)))
    &&& (word_present(pre.word3(idx_at(3, n))) ==> post.word3(idx_at(3, n)) == pre.word3(
        idx_at(3, n),
    ))
    &&& (!word_present(pre.word3(idx_at(3, n))) ==> is_fresh_link(post.word3(idx_at(3, n))))
    &&& (size == PageSize::Huge ==> {
        &&& post.word2(n / 0x40000) == word_set(pa, DIRTY | HUGE_PAGE | flags)
        &&& forall|m: int|
            0 <= m < 0x40000 && m != n / 0x40000 ==> post.word2(m) == pre.word2(m)
        &&& forall|m: int|
            0 <= m < 0x800_0000 && m / 512 != n / 0x40000 ==> post.word1(m) == pre.word1(m)
        &&& forall|m: int| 0 <= m < 0x800_0000 && m / 512 == n / 0x40000 ==> post.word1(m) == 0
        &&& forall|m: int|
            0 <= m < 0x10_0000_0000 && m / 0x40000 != n / 0x40000 ==> post.word0(m)
                == pre.word0(m)
        &&& forall|m: int|
            0 <= m < 0x10_0000_0000 && m / 0x40000 == n / 0x40000 ==> post.word0(m) == 0
    })
    &&& (size == PageSize::Large ==> {
        &&& post.word1(n / 512) == word_set(pa, DIRTY | HUGE_PAGE | flags)
        &&& forall|m: int| 0 <= m < 0x800_0000 && m != n / 512 ==> post.word1(m) == pre.word1(m)
        &&& forall|m: int|
            0 <= m < 0x10_0000_0000 && m / 512 != n / 512 ==> post.word0(m) == pre.word0(m)
        &&& forall|m: int| 0 <= m < 0x10_0000_0000 && m / 512 == n / 512 ==> post.word0(m) == 0
    })
    &&& (size == PageSize::Base ==> {
        &&& post.word0(n) == word_set(pa, DIRTY | flags)
        &&& forall|m: int|
            0 <= m < 0x10_0000_0000 && m != n ==> post.word0(m) == pre.word0(m)
        &&& word_links(post.word1(n / 512))
        &&& (word_present(pre.word1(n / 512)) ==> post.word1(n / 512) == pre.word1(n / 512))
        &&& (!word_present(pre.word1(n / 512)) ==> is_fresh_link(post.word1(n / 512)))
        &&& forall|m: int| 0 <= m < 0x800_0000 && m != n / 512 ==> post.word1(m) == pre.word1(m)
    })
    &&& (size != PageSize::Huge ==> {
        &&& word_links(post.word2(n / 0x40000))
        &&& (word_present(pre.word2(n / 0x40000)) ==> post.word2(n / 0x40000) == pre.word2(
            n / 0x40000,
        ))
        &&& (!word_present(pre.word2(n / 0x40000)) ==> is_fresh_link(post.word2(n / 0x40000)))
        &&& forall|m: int|
            0 <= m < 0x40000 && m != n / 0x40000 ==> post.word2(m) == pre.word2(m)
    })
}

/// What a batched map of `count` pages of one size, starting at 4 KiB slot
/// `n0` and physical address `pa`, does to the hierarchy: the leaf words of
/// the range are written in sequence; every other word at the leaf level
/// keeps its value; at each level above, the slots covering the range hold
/// links that were created on demand and kept where they existed, and every
/// slot outside the covered interval keeps its word. Under a new large or
/// huge leaf the views of the lower levels read as zero.
/// Two hierarchies whose walks read the same word at every level and slot.
pub open spec fn views_equal(a: Pml4, b: Pml4) -> bool {
    &&& forall|i: int| 0 <= i < 512 ==> a.word3(i) == b.word3(i)
    &&& forall|m: int| 0 <= m < 0x40000 ==> a.word2(m) == b.word2(m)
    &&& forall|m: int| 0 <= m < 0x800_0000 ==> a.word1(m) == b.word1(m)
    &&& forall|m: int| 0 <= m < 0x10_0000_0000 ==> a.word0(m) == b.word0(m)
}

pub open spec fn range_mapped(pre: Pml4, post: Pml4, size: PageSize, n0: int, count: int,
    pa: int, flags: u64) -> bool {
    if count <= 0 {
        views_equal(pre, post)
    } else {
        range_mapped_pos(pre, post, size, n0, count, pa, flags)
    }
}

pub open spec fn range_mapped_pos(pre: Pml4, post: Pml4, size: PageSize, n0: int, count: int,
    pa: int, flags: u64) -> bool {
    let last = n0 + (count - 1) * size.spec_stride();
    &&& (size == PageSize::Base ==> {
        &&& forall|m: int|
            n0 <= m < n0 + count ==> #[trigger] post.word0(m) == word_set(
                (pa + (m - n0) * 0x1000) as u64,
                DIRTY | flags,
            )
        &&& forall|m: int|
            0 <= m < 0x10_0000_0000 && !(n0 <= m < n0 + count) ==> post.word0(m) == pre.word0(
                m,
            )
        &&& forall|m: int|
            n0 / 512 <= m <= last / 512 ==> word_links(#[trigger] post.word1(m)) && (
            word_present(pre.word1(m)) ==> post.word1(m) == pre.word1(m)) && (!word_present(
                pre.word1(m),
            ) ==> is_fresh_link(post.word1(m)))
        &&& forall|m: int|
            0 <= m < 0x800_0000 && !(n0 / 512 <= m <= last / 512) ==> post.word1(m)
                == pre.word1(m)
    })
    &&& (size == PageSize::Large ==> {
        &&& forall|m: int|
            n0 / 512 <= m < n0 / 512 + count ==> #[trigger] post.word1(m) == word_set(
                (pa + (m - n0 / 512) * 0x20_0000) as u64,
                DIRTY | HUGE_PAGE | flags,
            )
        &&& forall|m: int|
            0 <= m < 0x800_0000 && !(n0 / 512 <= m < n0 / 512 + count) ==> post.word1(m)
                == pre.word1(m)
        &&& forall|m: int|
            0 <= m < 0x10_0000_0000 && n0 / 512 <= m / 512 < n0 / 512 + count
                ==> post.word0(m) == 0
        &&& forall|m: int|
            0 <= m < 0x10_0000_0000 && !(n0 / 512 <= m / 512 < n0 / 512 + count)
                ==> post.word0(m) == pre.word0(m)
    })
    &&& (size == PageSize::Huge ==> {
        &&& forall|m: int|
            n0 / 0x40000 <= m < n0 / 0x40000 + count ==> #[trigger] post.word2(m) == word_set(
                (pa + (m - n0 / 0x40000) * 0x4000_0000) as u64,
                DIRTY | HUGE_PAGE | flags,
            )
        &&& forall|m: int|
            0 <= m < 0x40000 && !(n0 / 0x40000 <= m < n0 / 0x40000 + count) ==> post.word2(m)
                == pre.word2(m)
        &&& forall|m: int|
            0 <= m < 0x800_0000 && n0 / 0x40000 <= m / 512 < n0 / 0x40000 + count
                ==> post.word1(m) == 0
        &&& forall|m: int|
            0 <= m < 0x800_0000 && !(n0 / 0x40000 <= m / 512 < n0 / 0x40000 + count)
                ==> post.word1(m) == pre.word1(m)
        &&& forall|m: int|
            0 <= m < 0x10_0000_0000 && n0 / 0x40000 <= m / 0x40000 < n0 / 0x40000 + count
                ==> post.word0(m) == 0
        &&& forall|m: int|
            0 <= m < 0x10_0000_0000 && !(n0 / 0x40000 <= m / 0x40000 < n0 / 0x40000 + count)
                ==> post.word0(m) == pre.word0(m)
    })
    &&& (size != PageSize::Huge ==> {
        &&& forall|m: int|
            n0 / 0x40000 <= m <= last / 0x40000 ==> word_links(#[trigger] post.word2(m)) && (
            word_present(pre.word2(m)) ==> post.word2(m) == pre.word2(m)) && (!word_present(
                pre.word2(m),
            ) ==> is_fresh_link(post.word2(m)))
        &&& forall|m: int|
            0 <= m < 0x40000 && !(n0 / 0x40000 <= m <= last / 0x40000) ==> post.word2(m)
                == pre.word2(m)
    })
    &&& forall|i: int|
        idx_at(3, n0) <= i <= idx_at(3, last) ==> word_present(#[trigger] post.word3(i)) && (
        word_present(pre.word3(i)) ==> post.word3(i) == pre.word3(i)) && (!word_present(
            pre.word3(i),
        ) ==> is_fresh_link(post.word3(i)))
    &&& forall|i: int|
        0 <= i < 512 && !(idx_at(3, n0) <= i <= idx_at(3, last)) ==> post.word3(i)
            == pre.word3(i)
}

/// The digit splits a PML4 needs for the page it is asked to walk for: how
/// the global slot numbers at every level relate to the page's table
/// indices and to the local slot numbers of the covering PDPT.
proof fn lemma_pml4_page_digits(n: int)
    requires
        0 <= n < 0x10_0000_0000,
    ensures
        (n / 0x40000) / 512 == idx_at(3, n),
        (n / 0x40000) % 512 == idx_at(2, n),
        (n / 512) / 0x40000 == idx_at(3, n),
        n / 0x800_0000 == idx_at(3, n),
        0 <= idx_at(3, n) < 512,
        0 <= n / 0x40000 < 0x40000,
        0 <= n / 512 < 0x800_0000,
        0 <= n % 0x800_0000 < 0x800_0000,
        (n % 0x800_0000) / 512 == (n / 512) % 0x40000,
        (n % 0x800_0000) / 0x40000 == idx_at(2, n),
        (n % 0x800_0000) % 0x40000 == n % 0x40000,
        0 <= (n / 512) % 0x40000 < 0x40000,
    decreases 0int,
{
    lemma_pml4_slot_digits(n);
    vstd::arithmetic::div_mod::lemma_mod_pos_bound(n / 512, 0x40000);
}

/// Below a level-1 slot whose word is not present, the walk reads only
/// zero words: an absent link hides everything beneath it.
pub proof fn lemma_absent_link_no_leaf(t: Pml4, m: int)
    requires
        t.wf(),
        0 <= m < 0x10_0000_0000,
        !word_present(t.word1(m / 512)),
    ensures
        t.word0(m) == 0,
{
    lemma_pml4_slot_digits(m);
    let mm = m % 0x800_0000;
    lemma_pdpt_slot_digits(mm);
    if t.children@[m / 0x800_0000] is Some {
        let pdpt = t.children@[m / 0x800_0000]->Some_0;
        assert(t.word1(m / 512) == pdpt.word1(mm / 512));
        if pdpt.children@[mm / 0x40000] is Some {
            let pdt = pdpt.children@[mm / 0x40000]->Some_0;
            assert(pdpt.word1(mm / 512) == pdt.word1((m % 0x40000) / 512));
            assert(!word_links(pdt.word1((m % 0x40000) / 512)));
            assert(pdt.children@[(m % 0x40000) / 512] is None);
            assert(pdt.word0(m % 0x40000) == 0);
            assert(t.word0(m) == 0);
        } else {
            assert(pdpt.word0(mm) == 0);
        }
    } else {
        assert(t.word0(m) == 0);
    }
}

/// A slot inside a range orders its covering slots at every level between
/// those of the range's bounds.
pub proof fn lemma_pml4_range_digits(vk: int, n0: int, nl: int)
    requires
        0 <= n0 <= vk <= nl < 0x10_0000_0000,
    ensures
        idx_at(3, n0) <= idx_at(3, vk) <= idx_at(3, nl),
        n0 / 0x40000 <= vk / 0x40000 <= nl / 0x40000,
        n0 / 512 <= vk / 512 <= nl / 512,
        0 <= vk / 0x800_0000 < 512,
        0 <= vk / 0x40000 < 0x40000,
        0 <= vk / 512 < 0x800_0000,
        idx_at(3, vk) == vk / 0x800_0000,
{
    lemma_pml4_slot_digits(vk);
    vstd::arithmetic::div_mod::lemma_div_is_ordered(n0, vk, 0x800_0000);
    vstd::arithmetic::div_mod::lemma_div_is_ordered(vk, nl, 0x800_0000);
    vstd::arithmetic::div_mod::lemma_div_is_ordered(n0, vk, 0x40000);
    vstd::arithmetic::div_mod::lemma_div_is_ordered(vk, nl, 0x40000);
    vstd::arithmetic::div_mod::lemma_div_is_ordered(n0, vk, 512);
    vstd::arithmetic::div_mod::lemma_div_is_ordered(vk, nl, 512);
}

/// The digit splits for a global level-zero slot number: which PDPT child
/// it falls under and how its covering slots at the higher levels
/// decompose.
pub proof fn lemma_pml4_slot_digits(m: int)
    requires
        0 <= m < 0x10_0000_0000,
    ensures
        0 <= m / 0x800_0000 < 512,
        0 <= m % 0x800_0000 < 0x800_0000,
        (m % 0x800_0000) / 0x40000 == (m / 0x40000) % 512,
        (m % 0x800_0000) / 512 == (m / 512) % 0x40000,
        (m % 0x800_0000) % 0x40000 == m % 0x40000,
        m / 0x800_0000 == (m / 0x40000) / 512,
        m / 0x800_0000 == (m / 512) / 0x40000,
        0 <= m / 0x40000 < 0x40000,
        0 <= m / 512 < 0x800_0000,
{
    lemma_digits(m, 0x40000, 512);
    lemma_digits(m, 512, 0x40000);
    lemma_div_chain(m, 0x40000, 512);
    lemma_div_chain(m, 512, 0x40000);
    vstd::arithmetic::div_mod::lemma_mod_pos_bound(m, 0x800_0000);
    vstd::arithmetic::div_mod::lemma_fundamental_div_mod(m / 0x40000, 512);
    vstd::arithmetic::div_mod::lemma_mod_pos_bound(m / 0x40000, 512);
    vstd::arithmetic::div_mod::lemma_div_pos_is_pos(m, 0x40000);
    vstd::arithmetic::div_mod::lemma_fundamental_div_mod(m / 512, 0x40000);
    vstd::arithmetic::div_mod::lemma_mod_pos_bound(m / 512, 0x40000);
    vstd::arithmetic::div_mod::lemma_div_pos_is_pos(m, 512);
    vstd::arithmetic::div_mod::lemma_div_is_ordered(0, m, 0x800_0000);
}

/// The page map level four (PML4), the root of the hierarchy. Slot 511 is
/// reserved for the recursive self-reference that makes every table of the
/// live hierarchy addressable, and is never handed to a walk.
pub struct Pml4 {
    /// The 512 entry words of the root table.
    pub entries: Vec<PageTableEntry>,
    /// For every slot whose word links a child table, that owned child.
    pub children: Vec<Option<Pdpt>>,
}

impl Pml4 {
    /// 512 slots; below slot 511 a child table exists exactly under every
    /// present word; no present word carries `HUGE_PAGE`; slot 511 holds
    /// the self-reference and never a child of the walkable hierarchy.
    pub open spec fn wf(self) -> bool {
        &&& self.entries.len() == 512
        &&& self.children.len() == 512
        &&& forall|i: int|
            0 <= i < 511 ==> ((#[trigger] self.children@[i]) is Some <==> word_present(
                self.word3(i),
            ))
        &&& forall|i: int|
            0 <= i < 512 && (#[trigger] self.children@[i]) is Some
                ==> self.children@[i]->Some_0.wf()
        &&& forall|i: int| 0 <= i < 512 ==> !word_huge(#[trigger] self.word3(i))
        &&& self.children@[511] is None
        &&& word_present(self.word3(511))
    }

    /// The raw entry word in slot `i` of the root table.
    pub open spec fn word3(self, i: int) -> u64 {
        self.entries@[i].physical_address_and_flags
    }

    /// The level-2 word the walk reaches for global slot number `n`
    /// (`0 <= n < 0x40000`).
    pub open spec fn word2(self, n: int) -> u64 {
        if self.children@[n / 512] is Some {
            self.children@[n / 512]->Some_0.word2(n % 512)
        } else {
            0
        }
    }

    /// The level-1 word the walk reaches for global slot number `n`
    /// (`0 <= n < 0x800_0000`).
    pub open spec fn word1(self, n: int) -> u64 {
        if self.children@[n / 0x40000] is Some {
            self.children@[n / 0x40000]->Some_0.word1(n % 0x40000)
        } else {
            0
        }
    }

    /// The level-0 word the walk reaches for global slot number `n`
    /// (`0 <= n < 0x10_0000_0000`).
    pub open spec fn word0(self, n: int) -> u64 {
        if self.children@[n / 0x800_0000] is Some {
            self.children@[n / 0x800_0000]->Some_0.word0(n % 0x800_0000)
        } else {
            0
        }
    }

    /// A fresh root table: every slot empty except slot 511, which holds
    /// the recursive self-reference to the root's own frame.
    pub fn new(root_frame: u64) -> (r: Pml4)
        requires
            root_frame % 0x1000 == 0,
            root_frame < MAX_PHYSICAL_ADDRESS,
        ensures
            r.wf(),
            r.word3(511) == word_set(root_frame, WRITABLE),
            forall|i: int| 0 <= i < 511 ==> r.word3(i) == 0,
            forall|n: int| 0 <= n < 0x40000 ==> r.word2(n) == 0,
            forall|n: int| 0 <= n < 0x800_0000 ==> r.word1(n) == 0,
            forall|n: int| 0 <= n < 0x10_0000_0000 ==> r.word0(n) == 0,
    {
        let mut entries: Vec<PageTableEntry> = Vec::new();
        let mut children: Vec<Option<Pdpt>> = Vec::new();
        let mut j: usize = 0;
        while j < 512
            invariant
                entries.len() == j,
                children.len() == j,
                j <= 512,
                forall|i: int| 0 <= i < j ==> entries@[i].physical_address_and_flags == 0,
                forall|i: int| 0 <= i < j ==> (#[trigger] children@[i]) is None,
            decreases 512 - j,
        {
            entries.push(PageTableEntry { physical_address_and_flags: 0 });
            children.push(None);
            j = j + 1;
        }
        let mut self_reference: PageTableEntry = entries[511];
        proof {
            crate::entry::lemma_zero_word();
            lemma_flag_bits(0);
            crate::entry::lemma_word_set_bits(root_frame, WRITABLE);
        }
        self_reference.set(root_frame, WRITABLE);
        entries.set(511, self_reference);
        let r = Pml4 { entries, children };
        proof {
            assert forall|n: int| 0 <= n < 0x40000 implies r.word2(n) == 0 by {
                lemma_digits(n, 512, 512);
            }
            assert forall|n: int| 0 <= n < 0x800_0000 implies r.word1(n) == 0 by {
                lemma_pdpt_slot_digits(n);
            }
            assert forall|n: int| 0 <= n < 0x10_0000_0000 implies r.word0(n) == 0 by {
                lemma_pml4_slot_digits(n);
            }
        }
        r
    }

    /// How many intermediate tables a walk that installs `page` would have
    /// to create: one 4 KiB frame for every absent link on the way down to
    /// the page's own level.
    pub open spec fn tables_needed(self, page: Page) -> int {
        let n = page.base_vpn();
        let t3: int = if word_present(self.word3(idx_at(3, n))) {
            0
        } else {
            1
        };
        let t2: int = if word_present(self.word2(n / 0x40000)) {
            0
        } else {
            1
        };
        let t1: int = if word_present(self.word1(n / 512)) {
            0
        } else {
            1
        };
        match page.size {
            PageSize::Huge => t3,
            PageSize::Large => t3 + t2,
            PageSize::Base => t3 + t2 + t1,
        }
    }

    /// Maps a single page to the given physical address, creating every
    /// missing intermediate table on the way down. Returns whether an
    /// existing entry was updated, so the caller can flush TLBs. Slot 511
    /// of the root, the self-reference, is never touched.
    pub fn map_page(&mut self, page: Page, physical_address: u64, flags: u64,
        phys: &mut BumpAllocator) -> (replaced: bool)
        requires
            old(self).wf(),
            old(phys).wf(),
            old(phys).arena_end <= MAX_PHYSICAL_ADDRESS,
            0x1000 <= u64::MAX - old(phys).arena_end,
            idx_at(3, page.base_vpn()) != 511,
            page.size == PageSize::Huge ==> physical_address % 0x4000_0000 == 0,
            page.size == PageSize::Large ==> physical_address % 0x20_0000 == 0,
            flags & HUGE_PAGE != 0 ==> physical_address % 0x20_0000 == 0,
            flags & HUGE_PAGE == 0 && page.size == PageSize::Base
                ==> physical_address % 0x1000 == 0,
            physical_address < MAX_PHYSICAL_ADDRESS,
            page.size != PageSize::Huge && word_present(
                old(self).word2(page.base_vpn() / 0x40000),
            ) ==> !word_huge(old(self).word2(page.base_vpn() / 0x40000)),
            page.size == PageSize::Base && word_present(old(self).word1(page.base_vpn() / 512))
                ==> !word_huge(old(self).word1(page.base_vpn() / 512)),
            old(phys).free_bytes() >= 0x1000 * old(self).tables_needed(page),
        ensures
            final(self).wf(),
            final(phys).wf(),
            final(phys).arena_start == old(phys).arena_start,
            final(phys).arena_end == old(phys).arena_end,
            final(phys).freed == old(phys).freed,
            old(phys).next <= final(phys).next <= old(phys).next + 0x3000,
            final(self).word3(511) == old(self).word3(511),
            forall|j: int|
                0 <= j < 512 && j != idx_at(3, page.base_vpn())
                    ==> final(self).word3(j) == old(self).word3(j),
            word_present(final(self).word3(idx_at(3, page.base_vpn()))),
            word_present(old(self).word3(idx_at(3, page.base_vpn())))
                ==> final(self).word3(idx_at(3, page.base_vpn()))
                    == old(self).word3(idx_at(3, page.base_vpn())),
            !word_present(old(self).word3(idx_at(3, page.base_vpn())))
                ==> is_fresh_link(final(self).word3(idx_at(3, page.base_vpn()))),
            page.size == PageSize::Huge ==> {
                &&& final(self).word2(page.base_vpn() / 0x40000) == word_set(
                    physical_address,
                    DIRTY | HUGE_PAGE | flags,
                )
                &&& forall|m: int|
                    0 <= m < 0x40000 && m != page.base_vpn() / 0x40000
                        ==> final(self).word2(m) == old(self).word2(m)
                &&& forall|m: int|
                    0 <= m < 0x800_0000 && m / 512 != page.base_vpn() / 0x40000
                        ==> final(self).word1(m) == old(self).word1(m)
                &&& forall|m: int|
                    0 <= m < 0x800_0000 && m / 512 == page.base_vpn() / 0x40000
                        ==> final(self).word1(m) == 0
                &&& forall|m: int|
                    0 <= m < 0x10_0000_0000 && m / 0x40000 != page.base_vpn() / 0x40000
                        ==> final(self).word0(m) == old(self).word0(m)
                &&& forall|m: int|
                    0 <= m < 0x10_0000_0000 && m / 0x40000 == page.base_vpn() / 0x40000
                        ==> final(self).word0(m) == 0
                &&& replaced == word_present(old(self).word2(page.base_vpn() / 0x40000))
            },
            page.size == PageSize::Large ==> {
                &&& final(self).word1(page.base_vpn() / 512) == word_set(
                    physical_address,
                    DIRTY | HUGE_PAGE | flags,
                )
                &&& forall|m: int|
                    0 <= m < 0x800_0000 && m != page.base_vpn() / 512
                        ==> final(self).word1(m) == old(self).word1(m)
                &&& forall|m: int|
                    0 <= m < 0x10_0000_0000 && m / 512 != page.base_vpn() / 512
                        ==> final(self).word0(m) == old(self).word0(m)
                &&& forall|m: int|
                    0 <= m < 0x10_0000_0000 && m / 512 == page.base_vpn() / 512
                        ==> final(self).word0(m) == 0
                &&& replaced == word_present(old(self).word1(page.base_vpn() / 512))
            },
            page.size == PageSize::Base ==> {
                &&& final(self).word0(page.base_vpn()) == word_set(
                    physical_address,
                    DIRTY | flags,
                )
                &&& forall|m: int|
                    0 <= m < 0x10_0000_0000 && m != page.base_vpn()
                        ==> final(self).word0(m) == old(self).word0(m)
                &&& word_links(final(self).word1(page.base_vpn() / 512))
                &&& (word_present(old(self).word1(page.base_vpn() / 512))
                    ==> final(self).word1(page.base_vpn() / 512)
                        == old(self).word1(page.base_vpn() / 512))
                &&& (!word_present(old(self).word1(page.base_vpn() / 512))
                    ==> is_fresh_link(final(self).word1(page.base_vpn() / 512)))
                &&& forall|m: int|
                    0 <= m < 0x800_0000 && m != page.base_vpn() / 512
                        ==> final(self).word1(m) == old(self).word1(m)
                &&& replaced == word_present(old(self).word0(page.base_vpn()))
            },
            page.size != PageSize::Huge ==> {
                &&& word_links(final(self).word2(page.base_vpn() / 0x40000))
                &&& (word_present(old(self).word2(page.base_vpn() / 0x40000))
                    ==> final(self).word2(page.base_vpn() / 0x40000)
                        == old(self).word2(page.base_vpn() / 0x40000))
                &&& (!word_present(old(self).word2(page.base_vpn() / 0x40000))
                    ==> is_fresh_link(final(self).word2(page.base_vpn() / 0x40000)))
                &&& forall|m: int|
                    0 <= m < 0x40000 && m != page.base_vpn() / 0x40000
                        ==> final(self).word2(m) == old(self).word2(m)
            },
    {
        proof {
            lemma_flag_bits(flags);
            crate::entry::lemma_zero_word();
            lemma_vpn_bound(page.virtual_address);
            lemma_pml4_page_digits(page.base_vpn());
            lemma_pdpt_page_digits(page.base_vpn());
        }
        let index = page.table_index(3);
        let ghost n = page.base_vpn();
        let e0: PageTableEntry = self.entries[index];
        if !e0.is_present() {
            let frame = match phys.allocate(0x1000) {
                Ok(f) => f,
                Err(_) => unreached(),
            };
            proof {
                crate::entry::lemma_word_set_bits(frame, WRITABLE);
            }
            let mut e: PageTableEntry = self.entries[index];
            e.set(frame, WRITABLE);
            self.entries.set(index, e);
            self.children.set(index, Some(Pdpt::new()));
        }
        let ghost mid = *self;
        proof {
            assert forall|i: int| 0 <= i < 512 implies !word_huge(mid.word3(i)) && (i < 511
                ==> (mid.children@[i] is Some <==> word_present(mid.word3(i)))) && (
            mid.children@[i] is Some ==> mid.children@[i]->Some_0.wf()) by {
                if i != index as int {
                    assert(mid.word3(i) == old(self).word3(i));
                    assert(mid.children@[i] == old(self).children@[i]);
                    assert(!word_huge(old(self).word3(i)));
                }
            }
            assert(mid.children@[index as int] is Some);
            assert forall|m: int| 0 <= m < 0x40000 implies 0 <= m / 512 < 512 && mid.word2(m)
                == old(self).word2(m) by {
                lemma_digits(m, 512, 512);
            }
            assert forall|m: int| 0 <= m < 0x800_0000 implies 0 <= m / 0x40000 < 512
                && mid.word1(m) == old(self).word1(m) by {
                lemma_pdpt_slot_digits(m);
            }
            assert forall|m: int| 0 <= m < 0x10_0000_0000 implies 0 <= m / 0x800_0000 < 512
                && mid.word0(m) == old(self).word0(m) by {
                lemma_pml4_slot_digits(m);
            }
        }
        let mut child: Pdpt = match self.children.remove(index) {
            Some(c) => c,
            None => unreached(),
        };
        let ghost child_before = child;
        let replaced = child.map_page(page, physical_address, flags, phys);
        self.children.insert(index, Some(child));
        proof {
            assert(self.children@ =~= mid.children@.update(index as int, Some(child)));
            assert(self.word2(n / 0x40000) == child.word2(idx_at(2, n)));
            assert(mid.word2(n / 0x40000) == child_before.word2(idx_at(2, n)));
            assert(mid.word2(n / 0x40000) == old(self).word2(n / 0x40000));
            if page.size != PageSize::Huge {
                assert(self.word1(n / 512) == child.word1((n / 512) % 0x40000));
                assert(mid.word1(n / 512) == child_before.word1((n / 512) % 0x40000));
                assert(mid.word1(n / 512) == old(self).word1(n / 512));
            }
            assert forall|m: int| 0 <= m < 0x40000 && m != n / 0x40000 implies self.word2(m)
                == mid.word2(m) by {
                lemma_digits(m, 512, 512);
                if m / 512 == index as int && m % 512 == idx_at(2, n) {
                    lemma_digit_recompose(m, n / 0x40000, 512);
                }
            }
            if page.size != PageSize::Huge {
                assert forall|m: int| 0 <= m < 0x800_0000 && m != n / 512 implies (m / 0x40000
                    != index as int ==> self.word1(m) == mid.word1(m)) && (m / 0x40000
                    == index as int ==> self.word1(m) == mid.word1(m)) by {
                    lemma_pdpt_slot_digits(m);
                    if m / 0x40000 == index as int && m % 0x40000 == (n / 512) % 0x40000 {
                        lemma_digit_recompose(m, n / 512, 0x40000);
                    }
                }
            }
            if page.size == PageSize::Huge {
                assert forall|m: int| 0 <= m < 0x800_0000 && m / 0x40000 == index as int
                    implies (m / 512 != n / 0x40000 ==> self.word1(m) == mid.word1(m)) && (m
                    / 512 == n / 0x40000 ==> self.word1(m) == 0) by {
                    lemma_pdpt_slot_digits(m);
                    if m / 512 == n / 0x40000 || (m % 0x40000) / 512 == idx_at(2, n) {
                        lemma_digit_recompose(m / 512, n / 0x40000, 512);
                    }
                }
                assert forall|m: int| 0 <= m < 0x10_0000_0000 && m / 0x800_0000 == index as int
                    implies (m / 0x40000 != n / 0x40000 ==> self.word0(m) == mid.word0(m)) && (m
                    / 0x40000 == n / 0x40000 ==> self.word0(m) == 0) by {
                    lemma_pml4_slot_digits(m);
                    if m / 0x40000 == n / 0x40000 || (m % 0x800_0000) / 0x40000 == idx_at(2, n) {
                        lemma_digit_recompose(m / 0x40000, n / 0x40000, 512);
                    }
                }
                assert forall|m: int| 0 <= m < 0x10_0000_0000 && m / 0x800_0000 != index as int
                    implies self.word0(m) == mid.word0(m) by {
                    lemma_pml4_slot_digits(m);
                }
                assert(self.word2(n / 0x40000) == word_set(physical_address, DIRTY | HUGE_PAGE
                    | flags));
            } else if page.size == PageSize::Large {
                assert forall|m: int| 0 <= m < 0x10_0000_0000 && m / 0x800_0000 == index as int
                    implies (m / 512 != n / 512 ==> self.word0(m) == mid.word0(m)) && (m / 512
                    == n / 512 ==> self.word0(m) == 0) by {
                    lemma_pml4_slot_digits(m);
                    if m / 512 == n / 512 || (m % 0x800_0000) / 512 == (n / 512) % 0x40000 {
                        lemma_digit_recompose(m / 512, n / 512, 0x40000);
                    }
                }
                assert forall|m: int| 0 <= m < 0x10_0000_0000 && m / 0x800_0000 != index as int
                    implies self.word0(m) == mid.word0(m) by {
                    lemma_pml4_slot_digits(m);
                }
                assert(self.word1(n / 512) == word_set(physical_address, DIRTY | HUGE_PAGE
                    | flags));
            } else {
                assert forall|m: int| 0 <= m < 0x10_0000_0000 && m != n implies self.word0(m)
                    == mid.word0(m) by {
                    lemma_pml4_slot_digits(m);
                    if m / 0x800_0000 == index as int && m % 0x800_0000 == n % 0x800_0000 {
                        lemma_digit_recompose(m, n, 0x800_0000);
                    }
                }
                assert(self.word0(n) == word_set(physical_address, DIRTY | flags));
            }
            assert forall|i: int| 0 <= i < 512 implies !word_huge(self.word3(i)) && (i < 511
                ==> (self.children@[i] is Some <==> word_present(self.word3(i)))) && (
            self.children@[i] is Some ==> self.children@[i]->Some_0.wf()) by {
                assert(self.word3(i) == mid.word3(i));
                if i != index as int {
                    assert(self.children@[i] == mid.children@[i]);
                    assert(!word_huge(mid.word3(i)));
                }
            }
        }
        replaced
    }

    /// Unmaps a single page, walking down to the level its size is mapped
    /// at. The walk must find present links all the way; the root entry
    /// itself is left in place.
    pub fn unmap_page(&mut self, page: Page)
        requires
            old(self).wf(),
            idx_at(3, page.base_vpn()) != 511,
            word_present(old(self).word3(idx_at(3, page.base_vpn()))),
            page.size != PageSize::Huge ==> word_links(
                old(self).word2(page.base_vpn() / 0x40000),
            ),
            page.size == PageSize::Base ==> word_links(old(self).word1(page.base_vpn() / 512)),
        ensures
            final(self).wf(),
            forall|j: int| 0 <= j < 512 ==> final(self).word3(j) == old(self).word3(j),
            page.size == PageSize::Huge ==> {
                &&& final(self).word2(page.base_vpn() / 0x40000) == 0
                &&& forall|m: int|
                    0 <= m < 0x40000 && m != page.base_vpn() / 0x40000
                        ==> final(self).word2(m) == old(self).word2(m)
                &&& forall|m: int|
                    0 <= m < 0x800_0000 && m / 512 != page.base_vpn() / 0x40000
                        ==> final(self).word1(m) == old(self).word1(m)
                &&& forall|m: int|
                    0 <= m < 0x800_0000 && m / 512 == page.base_vpn() / 0x40000
                        ==> final(self).word1(m) == 0
                &&& forall|m: int|
                    0 <= m < 0x10_0000_0000 && m / 0x40000 != page.base_vpn() / 0x40000
                        ==> final(self).word0(m) == old(self).word0(m)
                &&& forall|m: int|
                    0 <= m < 0x10_0000_0000 && m / 0x40000 == page.base_vpn() / 0x40000
                        ==> final(self).word0(m) == 0
            },
            page.size == PageSize::Large ==> {
                &&& final(self).word1(page.base_vpn() / 512) == 0
                &&& forall|m: int|
                    0 <= m < 0x800_0000 && m != page.base_vpn() / 512
                        ==> final(self).word1(m) == old(self).word1(m)
                &&& forall|m: int|
                    0 <= m < 0x10_0000_0000 && m / 512 != page.base_vpn() / 512
                        ==> final(self).word0(m) == old(self).word0(m)
                &&& forall|m: int|
                    0 <= m < 0x10_0000_0000 && m / 512 == page.base_vpn() / 512
                        ==> final(self).word0(m) == 0
            },
            page.size == PageSize::Base ==> {
                &&& final(self).word0(page.base_vpn()) == 0
                &&& forall|m: int|
                    0 <= m < 0x10_0000_0000 && m != page.base_vpn()
                        ==> final(self).word0(m) == old(self).word0(m)
                &&& forall|m: int|
                    0 <= m < 0x800_0000 ==> final(self).word1(m) == old(self).word1(m)
            },
            page.size != PageSize::Huge ==> forall|m: int|
                0 <= m < 0x40000 ==> final(self).word2(m) == old(self).word2(m),
    {
        proof {
            crate::entry::lemma_zero_word();
            lemma_vpn_bound(page.virtual_address);
            lemma_pml4_page_digits(page.base_vpn());
            lemma_pdpt_page_digits(page.base_vpn());
        }
        let index = page.table_index(3);
        let ghost n = page.base_vpn();
        let mut child: Pdpt = match self.children.remove(index) {
            Some(c) => c,
            None => unreached(),
        };
        child.unmap_page(page);
        self.children.insert(index, Some(child));
        proof {
            assert(self.children@ =~= old(self).children@.update(index as int, Some(child)));
            if page.size != PageSize::Huge {
                assert forall|m: int| 0 <= m < 0x40000 implies self.word2(m) == old(
                    self,
                ).word2(m) by {
                    lemma_digits(m, 512, 512);
                }
                assert forall|m: int| 0 <= m < 0x800_0000 && m != n / 512 implies self.word1(m)
                    == old(self).word1(m) by {
                    lemma_pdpt_slot_digits(m);
                    if m / 0x40000 == index as int && m % 0x40000 == (n / 512) % 0x40000 {
                        lemma_digit_recompose(m, n / 512, 0x40000);
                    }
                }
            }
            if page.size == PageSize::Huge {
                assert forall|m: int| 0 <= m < 0x40000 && m != n / 0x40000 implies self.word2(m)
                    == old(self).word2(m) by {
                    lemma_digits(m, 512, 512);
                    if m / 512 == index as int && m % 512 == idx_at(2, n) {
                        lemma_digit_recompose(m, n / 0x40000, 512);
                    }
                }
                assert forall|m: int| 0 <= m < 0x800_0000 && m / 0x40000 == index as int
                    implies (m / 512 != n / 0x40000 ==> self.word1(m) == old(self).word1(m))
                    && (m / 512 == n / 0x40000 ==> self.word1(m) == 0) by {
                    lemma_pdpt_slot_digits(m);
                    if m / 512 == n / 0x40000 || (m % 0x40000) / 512 == idx_at(2, n) {
                        lemma_digit_recompose(m / 512, n / 0x40000, 512);
                    }
                }
                assert forall|m: int| 0 <= m < 0x800_0000 && m / 0x40000 != index as int
                    implies self.word1(m) == old(self).word1(m) by {
                    lemma_pdpt_slot_digits(m);
                }
                assert forall|m: int| 0 <= m < 0x10_0000_0000 && m / 0x800_0000 == index as int
                    implies (m / 0x40000 != n / 0x40000 ==> self.word0(m) == old(
                    self,
                ).word0(m)) && (m / 0x40000 == n / 0x40000 ==> self.word0(m) == 0) by {
                    lemma_pml4_slot_digits(m);
                    if m / 0x40000 == n / 0x40000 || (m % 0x800_0000) / 0x40000 == idx_at(2, n) {
                        lemma_digit_recompose(m / 0x40000, n / 0x40000, 512);
                    }
                }
                assert forall|m: int| 0 <= m < 0x10_0000_0000 && m / 0x800_0000 != index as int
                    implies self.word0(m) == old(self).word0(m) by {
                    lemma_pml4_slot_digits(m);
                }
            } else if page.size == PageSize::Large {
                assert forall|m: int| 0 <= m < 0x10_0000_0000 && m / 0x800_0000 == index as int
                    implies (m / 512 != n / 512 ==> self.word0(m) == old(self).word0(m)) && (m
                    / 512 == n / 512 ==> self.word0(m) == 0) by {
                    lemma_pml4_slot_digits(m);
                    if m / 512 == n / 512 || (m % 0x800_0000) / 512 == (n / 512) % 0x40000 {
                        lemma_digit_recompose(m / 512, n / 512, 0x40000);
                    }
                }
                assert forall|m: int| 0 <= m < 0x10_0000_0000 && m / 0x800_0000 != index as int
                    implies self.word0(m) == old(self).word0(m) by {
                    lemma_pml4_slot_digits(m);
                }
            } else {
                assert forall|m: int| 0 <= m < 0x10_0000_0000 && m != n implies self.word0(m)
                    == old(self).word0(m) by {
                    lemma_pml4_slot_digits(m);
                    if m / 0x800_0000 == index as int && m % 0x800_0000 == n % 0x800_0000 {
                        lemma_digit_recompose(m, n, 0x800_0000);
                    }
                }
            }
            assert forall|i: int| 0 <= i < 512 implies !word_huge(self.word3(i)) && (i < 511
                ==> (self.children@[i] is Some <==> word_present(self.word3(i)))) && (
            self.children@[i] is Some ==> self.children@[i]->Some_0.wf()) by {
                assert(self.word3(i) == old(self).word3(i));
                if i != index as int {
                    assert(self.children@[i] == old(self).children@[i]);
                }
                assert(!word_huge(old(self).word3(i)));
            }
        }
    }

    /// Returns the entry the walk for the given page reaches at the level
    /// the page's size is mapped at, if that entry is present.
    pub fn get_page_table_entry(&self, page: Page) -> (r: Option<PageTableEntry>)
        requires
            self.wf(),
        ensures
            page.size == PageSize::Huge ==> r == lookup_result(
                self.word2(page.base_vpn() / 0x40000),
            ),
            page.size == PageSize::Large ==> r == lookup_result(
                self.word1(page.base_vpn() / 512),
            ),
            page.size == PageSize::Base ==> r == lookup_result(self.word0(page.base_vpn())),
    {
        proof {
            crate::entry::lemma_zero_word();
            lemma_vpn_bound(page.virtual_address);
            lemma_pml4_page_digits(page.base_vpn());
            lemma_pdpt_page_digits(page.base_vpn());
        }
        let index = page.table_index(3);
        let e: PageTableEntry = self.entries[index];
        if e.is_present() {
            match &self.children[index] {
                Some(c) => c.get_page_table_entry(page),
                None => None,
            }
        } else {
            None
        }
    }

    /// Rewrites the protection-key field of the present leaf entry the walk
    /// for the given page reaches.
    pub fn set_pkey(&mut self, page: Page, key: u64)
        requires
            old(self).wf(),
            key < 16,
            idx_at(3, page.base_vpn()) != 511,
            word_present(old(self).word3(idx_at(3, page.base_vpn()))),
            page.size == PageSize::Huge ==> word_present(
                old(self).word2(page.base_vpn() / 0x40000),
            ),
            page.size != PageSize::Huge ==> word_links(
                old(self).word2(page.base_vpn() / 0x40000),
            ),
            page.size == PageSize::Large ==> word_present(
                old(self).word1(page.base_vpn() / 512),
            ),
            page.size == PageSize::Base ==> word_links(old(self).word1(page.base_vpn() / 512))
                && word_present(old(self).word0(page.base_vpn())),
        ensures
            final(self).wf(),
            forall|j: int| 0 <= j < 512 ==> final(self).word3(j) == old(self).word3(j),
            page.size == PageSize::Huge ==> {
                &&& final(self).word2(page.base_vpn() / 0x40000) == word_rekeyed(
                    old(self).word2(page.base_vpn() / 0x40000),
                    key,
                )
                &&& forall|m: int|
                    0 <= m < 0x40000 && m != page.base_vpn() / 0x40000
                        ==> final(self).word2(m) == old(self).word2(m)
                &&& forall|m: int|
                    0 <= m < 0x800_0000 ==> final(self).word1(m) == old(self).word1(m)
                &&& forall|m: int|
                    0 <= m < 0x10_0000_0000 ==> final(self).word0(m) == old(self).word0(m)
            },
            page.size == PageSize::Large ==> {
                &&& final(self).word1(page.base_vpn() / 512) == word_rekeyed(
                    old(self).word1(page.base_vpn() / 512),
                    key,
                )
                &&& forall|m: int|
                    0 <= m < 0x800_0000 && m != page.base_vpn() / 512
                        ==> final(self).word1(m) == old(self).word1(m)
                &&& forall|m: int|
                    0 <= m < 0x10_0000_0000 ==> final(self).word0(m) == old(self).word0(m)
            },
            page.size == PageSize::Base ==> {
                &&& final(self).word0(page.base_vpn()) == word_rekeyed(
                    old(self).word0(page.base_vpn()),
                    key,
                )
                &&& forall|m: int|
                    0 <= m < 0x10_0000_0000 && m != page.base_vpn()
                        ==> final(self).word0(m) == old(self).word0(m)
                &&& forall|m: int|
                    0 <= m < 0x800_0000 ==> final(self).word1(m) == old(self).word1(m)
            },
            page.size != PageSize::Huge ==> forall|m: int|
                0 <= m < 0x40000 ==> final(self).word2(m) == old(self).word2(m),
    {
        proof {
            crate::entry::lemma_zero_word();
            lemma_vpn_bound(page.virtual_address);
            lemma_pml4_page_digits(page.base_vpn());
            lemma_pdpt_page_digits(page.base_vpn());
        }
        let index = page.table_index(3);
        let ghost n = page.base_vpn();
        let mut child: Pdpt = match self.children.remove(index) {
            Some(c) => c,
            None => unreached(),
        };
        child.set_pkey(page, key);
        self.children.insert(index, Some(child));
        proof {
            assert(self.children@ =~= old(self).children@.update(index as int, Some(child)));
            if page.size == PageSize::Huge {
                assert forall|m: int| 0 <= m < 0x40000 && m != n / 0x40000 implies self.word2(m)
                    == old(self).word2(m) by {
                    lemma_digits(m, 512, 512);
                    if m / 512 == index as int && m % 512 == idx_at(2, n) {
                        lemma_digit_recompose(m, n / 0x40000, 512);
                    }
                }
            } else {
                assert forall|m: int| 0 <= m < 0x40000 implies self.word2(m) == old(
                    self,
                ).word2(m) by {
                    lemma_digits(m, 512, 512);
                }
            }
            if page.size == PageSize::Large {
                assert forall|m: int| 0 <= m < 0x800_0000 && m != n / 512 implies self.word1(m)
                    == old(self).word1(m) by {
                    lemma_pdpt_slot_digits(m);
                    if m / 0x40000 == index as int && m % 0x40000 == (n / 512) % 0x40000 {
                        lemma_digit_recompose(m, n / 512, 0x40000);
                    }
                }
            } else {
                assert forall|m: int| 0 <= m < 0x800_0000 implies self.word1(m) == old(
                    self,
                ).word1(m) by {
                    lemma_pdpt_slot_digits(m);
                }
            }
            if page.size == PageSize::Base {
                assert forall|m: int| 0 <= m < 0x10_0000_0000 && m != n implies self.word0(m)
                    == old(self).word0(m) by {
                    lemma_pml4_slot_digits(m);
                    if m / 0x800_0000 == index as int && m % 0x800_0000 == n % 0x800_0000 {
                        lemma_digit_recompose(m, n, 0x800_0000);
                    }
                }
            } else {
                assert forall|m: int| 0 <= m < 0x10_0000_0000 implies self.word0(m) == old(
                    self,
                ).word0(m) by {
                    lemma_pml4_slot_digits(m);
                }
            }
            assert forall|i: int| 0 <= i < 512 implies !word_huge(self.word3(i)) && (i < 511
                ==> (self.children@[i] is Some <==> word_present(self.word3(i)))) && (
            self.children@[i] is Some ==> self.children@[i]->Some_0.wf()) by {
                assert(self.word3(i) == old(self).word3(i));
                if i != index as int {
                    assert(self.children@[i] == old(self).children@[i]);
                }
                assert(!word_huge(old(self).word3(i)));
            }
        }
    }

    /// Maps a continuous range of pages of one size to a continuous run of
    /// physical memory, accumulating whether any page replaced an existing
    /// entry. Returns whether the caller owes the other CPUs a TLB
    /// shootdown: true exactly when `do_ipi` was requested and some entry
    /// was replaced.
    #[verifier::rlimit(100)]
    pub fn map_pages(&mut self, range: PageIter, physical_address: u64, flags: u64,
        do_ipi: bool, phys: &mut BumpAllocator) -> (flush_others: bool)
        requires
            old(self).wf(),
            old(phys).wf(),
            old(phys).arena_end <= MAX_PHYSICAL_ADDRESS,
            0x1000 <= u64::MAX - old(phys).arena_end,
            range.current.size == range.last.size,
            range.current.wf(),
            range.last.wf(),
            range.current.virtual_address <= range.last.virtual_address,
            range.last.virtual_address + range.last.size.spec_size() <= u64::MAX,
            range.last.virtual_address < 0x8000_0000_0000 || range.current.virtual_address
                >= 0xFFFF_8000_0000_0000,
            idx_at(3, vpn(range.last.virtual_address)) != 511,
            range.current.size == PageSize::Base ==> flags & HUGE_PAGE == 0
                && physical_address % 0x1000 == 0,
            range.current.size == PageSize::Large ==> physical_address % 0x20_0000 == 0,
            range.current.size == PageSize::Huge ==> physical_address % 0x4000_0000 == 0,
            flags & HUGE_PAGE != 0 ==> physical_address % 0x20_0000 == 0,
            physical_address + page_count(range.current, range.last)
                * range.current.size.spec_size() <= MAX_PHYSICAL_ADDRESS,
            range.current.size != PageSize::Huge ==> forall|m: int|
                vpn(range.current.virtual_address) / 0x40000 <= m <= vpn(
                    range.last.virtual_address,
                ) / 0x40000 && word_present(#[trigger] old(self).word2(m)) ==> !word_huge(
                    old(self).word2(m),
                ),
            range.current.size == PageSize::Base ==> forall|m: int|
                vpn(range.current.virtual_address) / 512 <= m <= vpn(
                    range.last.virtual_address,
                ) / 512 && word_present(#[trigger] old(self).word1(m)) ==> !word_huge(
                    old(self).word1(m),
                ),
            old(phys).free_bytes() >= 0x3000 * page_count(range.current, range.last),
        ensures
            final(self).wf(),
            final(phys).wf(),
            final(phys).arena_start == old(phys).arena_start,
            final(phys).arena_end == old(phys).arena_end,
            final(phys).freed == old(phys).freed,
            old(phys).next <= final(phys).next <= old(phys).next + 0x3000 * page_count(
                range.current,
                range.last,
            ),
            range_mapped(
                *old(self),
                *final(self),
                range.current.size,
                vpn(range.current.virtual_address),
                page_count(range.current, range.last),
                physical_address as int,
                flags,
            ),
            final(self).word3(511) == old(self).word3(511),
            flush_others == (do_ipi && any_replaced(
                *old(self),
                range.current.size,
                vpn(range.current.virtual_address),
                page_count(range.current, range.last),
            )),
    {
        let ghost pre = *self;
        let ghost first = range.current;
        let ghost lastp = range.last;
        let ghost size = range.current.size;
        let ghost bytes = size.spec_size() as int;
        let ghost st = size.spec_stride();
        let ghost n0 = vpn(first.virtual_address);
        let ghost nl = vpn(lastp.virtual_address);
        let ghost count = page_count(first, lastp);
        proof {
            lemma_vpn_bound(first.virtual_address);
            lemma_vpn_bound(lastp.virtual_address);
            lemma_vpn_align(first.virtual_address);
            lemma_vpn_align(lastp.virtual_address);
            vstd::arithmetic::div_mod::lemma_sub_mod_noop(
                lastp.virtual_address as int,
                first.virtual_address as int,
                bytes,
            );
            let diff = lastp.virtual_address - first.virtual_address;
            vstd::arithmetic::div_mod::lemma_small_mod(0nat, bytes as nat);
            vstd::arithmetic::div_mod::lemma_fundamental_div_mod(diff, bytes);
            assert(diff % bytes == 0);
            let quotient = diff / bytes;
            assert(diff == (count - 1) * bytes) by (nonlinear_arith)
                requires
                    diff == bytes * quotient + diff % bytes,
                    diff % bytes == 0,
                    count == quotient + 1,
            ;
            lemma_vpn_diff(first.virtual_address, lastp.virtual_address);
            assert((count - 1) * bytes == ((count - 1) * st) * 0x1000) by (nonlinear_arith)
                requires
                    bytes == st * 0x1000,
            ;
            vstd::arithmetic::div_mod::lemma_div_by_multiple((count - 1) * st, 0x1000);
            assert(nl == n0 + (count - 1) * st);
            assert(bytes == st * 0x1000);
            assert(n0 % st == 0) by {
                if size == PageSize::Base {
                    assert(n0 % 1 == 0) by (nonlinear_arith);
                }
            }
            assert(idx_at(3, nl) <= 510) by {
                vstd::arithmetic::div_mod::lemma_mod_pos_bound(nl / 0x800_0000, 512);
                lemma_pml4_slot_digits(nl);
            }
            assert(lastp.virtual_address < 0x8000_0000_0000 ==> lastp.virtual_address + bytes
                <= 0x8000_0000_0000) by {
                let v = lastp.virtual_address as int;
                vstd::arithmetic::div_mod::lemma_fundamental_div_mod(v, bytes);
                let q = v / bytes;
                if v < 0x8000_0000_0000 {
                    assert(v + bytes <= 0x8000_0000_0000) by (nonlinear_arith)
                        requires
                            v == bytes * q + 0,
                            v < 0x8000_0000_0000,
                            bytes == 0x1000 || bytes == 0x20_0000 || bytes == 0x4000_0000,
                    ;
                }
            }
        }
        let mut iter = range;
        let mut current_physical_address = physical_address;
        let mut send_ipi = false;
        let ghost mut k: int = 0;
        while iter.current.virtual_address <= iter.last.virtual_address
            invariant
                pre == *old(self),
                count >= 1,
                count == page_count(first, lastp),
                first == range.current,
                lastp == range.last,
                size == first.size,
                lastp.size == size,
                bytes == size.spec_size(),
                st == size.spec_stride(),
                bytes == st * 0x1000,
                n0 == vpn(first.virtual_address),
                nl == vpn(lastp.virtual_address),
                0 <= n0,
                nl < 0x10_0000_0000,
                nl == n0 + (count - 1) * st,
                n0 % st == 0,
                idx_at(3, nl) <= 510,
                first.virtual_address as int % bytes == 0,
                lastp.virtual_address == first.virtual_address + (count - 1) * bytes,
                lastp.virtual_address + bytes <= u64::MAX,
                lastp.virtual_address < 0x8000_0000_0000 ==> lastp.virtual_address + bytes
                    <= 0x8000_0000_0000,
                lastp.virtual_address < 0x8000_0000_0000 || first.virtual_address
                    >= 0xFFFF_8000_0000_0000,
                size == PageSize::Base ==> flags & HUGE_PAGE == 0 && physical_address % 0x1000
                    == 0,
                size == PageSize::Large ==> physical_address % 0x20_0000 == 0,
                size == PageSize::Huge ==> physical_address % 0x4000_0000 == 0,
                flags & HUGE_PAGE != 0 ==> physical_address % 0x20_0000 == 0,
                physical_address + count * bytes <= MAX_PHYSICAL_ADDRESS,
                phys.arena_end <= MAX_PHYSICAL_ADDRESS,
                0x1000 <= u64::MAX - phys.arena_end,
                size != PageSize::Huge ==> forall|m: int|
                    n0 / 0x40000 <= m <= nl / 0x40000 && word_present(
                        #[trigger] pre.word2(m),
                    ) ==> !word_huge(pre.word2(m)),
                size == PageSize::Base ==> forall|m: int|
                    n0 / 512 <= m <= nl / 512 && word_present(#[trigger] pre.word1(m))
                        ==> !word_huge(pre.word1(m)),
                0 <= k <= count,
                iter.last == lastp,
                iter.current.size == size,
                iter.current.virtual_address == first.virtual_address + k * bytes,
                vpn(iter.current.virtual_address) == n0 + k * st,
                (iter.current.virtual_address <= lastp.virtual_address) <==> (k < count),
                current_physical_address == physical_address + k * bytes,
                self.wf(),
                phys.wf(),
                phys.arena_start == old(phys).arena_start,
                phys.arena_end == old(phys).arena_end,
                phys.freed == old(phys).freed,
                old(phys).next <= phys.next,
                phys.next <= old(phys).next + 0x3000 * k,
                phys.free_bytes() >= 0x3000 * (count - k),
                range_mapped(pre, *self, size, n0, k, physical_address as int, flags),
                send_ipi == any_replaced(pre, size, n0, k),
            decreases count - k,
        {
            let page = match iter.next() {
                Some(p) => p,
                None => unreached(),
            };
            let ghost vk = n0 + k * st;
            proof {
                assert(k < count);
                assert(vk + st <= nl + st) by (nonlinear_arith)
                    requires
                        vk == n0 + k * st,
                        nl == n0 + (count - 1) * st,
                        k < count,
                        st > 0,
                ;
                assert(page.virtual_address as int % (size.spec_size() as int) == 0) by {
                    assert(page.virtual_address == first.virtual_address + k * bytes);
                    vstd::arithmetic::div_mod::lemma_mod_multiples_vanish(
                        k,
                        first.virtual_address as int,
                        bytes,
                    );
                    assert(bytes * k + first.virtual_address == first.virtual_address + k
                        * bytes) by (nonlinear_arith);
                }
                assert(current_physical_address as int % (size.spec_size() as int) == 0) by {
                    vstd::arithmetic::div_mod::lemma_mod_multiples_vanish(
                        k,
                        physical_address as int,
                        bytes,
                    );
                    assert(bytes * k + physical_address == physical_address + k * bytes)
                        by (nonlinear_arith);
                    if size == PageSize::Base {
                        vstd::arithmetic::div_mod::lemma_mod_mod(
                            current_physical_address as int,
                            0x1000,
                            st,
                        );
                    }
                }
                if size != PageSize::Base {
                    vstd::arithmetic::div_mod::lemma_mod_mod(
                        current_physical_address as int,
                        0x20_0000,
                        (size.spec_size() as int) / 0x20_0000,
                    );
                }
                assert(current_physical_address + bytes <= physical_address + count * bytes)
                    by (nonlinear_arith)
                    requires
                        current_physical_address == physical_address + k * bytes,
                        k < count,
                        bytes > 0,
                ;
                lemma_vpn_bound(page.virtual_address);
                lemma_pml4_slot_digits(vk);
                lemma_pml4_slot_digits(nl);
                vstd::arithmetic::div_mod::lemma_div_is_ordered(vk, nl, 0x800_0000);
                vstd::arithmetic::div_mod::lemma_div_is_ordered(n0, vk, 0x800_0000);
                vstd::arithmetic::div_mod::lemma_div_is_ordered(vk, nl, 0x40000);
                vstd::arithmetic::div_mod::lemma_div_is_ordered(n0, vk, 0x40000);
                vstd::arithmetic::div_mod::lemma_div_is_ordered(vk, nl, 512);
                vstd::arithmetic::div_mod::lemma_div_is_ordered(n0, vk, 512);
                vstd::arithmetic::div_mod::lemma_div_pos_is_pos(n0, 512);
                vstd::arithmetic::div_mod::lemma_div_pos_is_pos(n0, 0x40000);
                assert(n0 <= vk) by (nonlinear_arith)
                    requires
                        vk == n0 + k * st,
                        k >= 0,
                        st > 0,
                ;
                assert(vk == page.base_vpn());
                assert(leaf_slot(size, n0) + k == leaf_slot(size, vk)) by {
                    if size == PageSize::Large {
                        vstd::arithmetic::div_mod::lemma_hoist_over_denominator(n0, k, 512);
                    }
                    if size == PageSize::Huge {
                        vstd::arithmetic::div_mod::lemma_hoist_over_denominator(n0, k, 0x40000);
                    }
                }
                // the walk for this page is not blocked by a huge leaf: the
                // covering slots were either checked by the caller or turned
                // into links by the pages mapped so far
                if size != PageSize::Huge {
                    let c2 = vk / 0x40000;
                    if k > 0 && c2 <= (n0 + (k - 1) * st) / 0x40000 {
                        assert(word_links(self.word2(c2)));
                    } else {
                        assert(self.word2(c2) == pre.word2(c2));
                    }
                }
                if size == PageSize::Base {
                    let c1 = vk / 512;
                    if k > 0 && c1 <= (n0 + (k - 1) * st) / 512 {
                        assert(word_links(self.word1(c1)));
                    } else {
                        assert(self.word1(c1) == pre.word1(c1));
                    }
                }
                assert(self.tables_needed(page) <= 3);
            }
            let ghost cur = *self;
            let ghost pa_k = current_physical_address;
            let replaced = self.map_page(page, current_physical_address, flags, phys);
            current_physical_address = current_physical_address + page.size.size();
            send_ipi = send_ipi || replaced;
            proof {
                let prev = k;
                k = k + 1;
                assert(iter.current.virtual_address == first.virtual_address + k * bytes)
                    by (nonlinear_arith)
                    requires
                        iter.current.virtual_address == (first.virtual_address + prev * bytes)
                            + bytes,
                        k == prev + 1,
                ;
                assert(current_physical_address == physical_address + k * bytes)
                    by (nonlinear_arith)
                    requires
                        current_physical_address == (physical_address + prev * bytes) + bytes,
                        k == prev + 1,
                ;
                assert(0x3000 * k == 0x3000 * prev + 0x3000);
                assert(0x3000 * (count - prev) == 0x3000 * (count - k) + 0x3000);
                lemma_vpn_add((first.virtual_address + prev * bytes) as u64, size.spec_size());
                assert(vpn(iter.current.virtual_address) == n0 + k * st) by (nonlinear_arith)
                    requires
                        vpn(iter.current.virtual_address) == (n0 + prev * st) + st,
                        k == prev + 1,
                ;
                assert((iter.current.virtual_address <= lastp.virtual_address) <==> (k < count))
                    by (nonlinear_arith)
                    requires
                        iter.current.virtual_address == first.virtual_address + k * bytes,
                        lastp.virtual_address == first.virtual_address + (count - 1) * bytes,
                        bytes > 0,
                ;
                // the pages not yet visited were untouched, so the replaced
                // bit of this step speaks of the original state
                assert(leaf_word_at(cur, size, leaf_slot(size, vk)) == leaf_word_at(
                    pre,
                    size,
                    leaf_slot(size, vk),
                )) by {
                    if prev > 0 {
                        if size == PageSize::Base {
                            assert(!(n0 <= vk < n0 + prev));
                        } else if size == PageSize::Large {
                            assert(!(n0 / 512 <= leaf_slot(size, vk) < n0 / 512 + prev));
                        } else {
                            assert(!(n0 / 0x40000 <= leaf_slot(size, vk) < n0 / 0x40000
                                + prev));
                        }
                    }
                }
                assert(send_ipi == any_replaced(pre, size, n0, k)) by {
                    if send_ipi {
                        if any_replaced(pre, size, n0, prev) {
                            let j = choose|j: int|
                                0 <= j < prev && word_present(
                                    #[trigger] leaf_word_at(pre, size, leaf_slot(size, n0) + j),
                                );
                            assert(0 <= j < k && word_present(
                                leaf_word_at(pre, size, leaf_slot(size, n0) + j),
                            ));
                        } else {
                            assert(word_present(
                                leaf_word_at(pre, size, leaf_slot(size, n0) + prev),
                            ));
                        }
                    } else {
                        assert forall|j: int| 0 <= j < k implies !word_present(
                            #[trigger] leaf_word_at(pre, size, leaf_slot(size, n0) + j),
                        ) by {
                            if j < prev {
                                assert(!any_replaced(pre, size, n0, prev));
                            }
                        }
                    }
                }
                assert(map_page_post(cur, *self, size, vk, pa_k, flags));
                assert(vk <= nl);
                lemma_range_map_step(
                    pre,
                    cur,
                    *self,
                    size,
                    n0,
                    prev,
                    physical_address as int,
                    pa_k,
                    flags,
                    nl,
                );
            }
        }
        proof {
            assert(k == count);
        }
        do_ipi && send_ipi
    }

    /// Unmaps a continuous range of pages of one size. The caller owes the
    /// other CPUs a TLB shootdown after every batched unmap.
    #[verifier::rlimit(100)]
    #[verifier::spinoff_prover]
    pub fn unmap_pages(&mut self, range: PageIter)
        requires
            old(self).wf(),
            range.current.size == range.last.size,
            range.current.wf(),
            range.last.wf(),
            range.current.virtual_address <= range.last.virtual_address,
            range.last.virtual_address + range.last.size.spec_size() <= u64::MAX,
            range.last.virtual_address < 0x8000_0000_0000 || range.current.virtual_address
                >= 0xFFFF_8000_0000_0000,
            idx_at(3, vpn(range.last.virtual_address)) != 511,
            forall|i: int|
                idx_at(3, vpn(range.current.virtual_address)) <= i <= idx_at(
                    3,
                    vpn(range.last.virtual_address),
                ) ==> word_present(#[trigger] old(self).word3(i)),
            range.current.size != PageSize::Huge ==> forall|m: int|
                vpn(range.current.virtual_address) / 0x40000 <= m <= vpn(
                    range.last.virtual_address,
                ) / 0x40000 ==> word_links(#[trigger] old(self).word2(m)),
            range.current.size == PageSize::Base ==> forall|m: int|
                vpn(range.current.virtual_address) / 512 <= m <= vpn(
                    range.last.virtual_address,
                ) / 512 ==> word_links(#[trigger] old(self).word1(m)),
        ensures
            final(self).wf(),
            range_unmapped(
                *old(self),
                *final(self),
                range.current.size,
                vpn(range.current.virtual_address),
                page_count(range.current, range.last),
            ),
            final(self).word3(511) == old(self).word3(511),
    {
        let ghost pre = *self;
        let ghost first = range.current;
        let ghost lastp = range.last;
        let ghost size = range.current.size;
        let ghost bytes = size.spec_size() as int;
        let ghost st = size.spec_stride();
        let ghost n0 = vpn(first.virtual_address);
        let ghost nl = vpn(lastp.virtual_address);
        let ghost count = page_count(first, lastp);
        proof {
            lemma_vpn_bound(first.virtual_address);
            lemma_vpn_bound(lastp.virtual_address);
            lemma_vpn_align(first.virtual_address);
            lemma_vpn_align(lastp.virtual_address);
            vstd::arithmetic::div_mod::lemma_sub_mod_noop(
                lastp.virtual_address as int,
                first.virtual_address as int,
                bytes,
            );
            let diff = lastp.virtual_address - first.virtual_address;
            vstd::arithmetic::div_mod::lemma_small_mod(0nat, bytes as nat);
            vstd::arithmetic::div_mod::lemma_fundamental_div_mod(diff, bytes);
            assert(diff % bytes == 0);
            let quotient = diff / bytes;
            assert(diff == (count - 1) * bytes) by (nonlinear_arith)
                requires
                    diff == bytes * quotient + diff % bytes,
                    diff % bytes == 0,
                    count == quotient + 1,
            ;
            lemma_vpn_diff(first.virtual_address, lastp.virtual_address);
            assert((count - 1) * bytes == ((count - 1) * st) * 0x1000) by (nonlinear_arith)
                requires
                    bytes == st * 0x1000,
            ;
            vstd::arithmetic::div_mod::lemma_div_by_multiple((count - 1) * st, 0x1000);
            assert(nl == n0 + (count - 1) * st);
            assert(bytes == st * 0x1000);
            assert(n0 % st == 0) by {
                if size == PageSize::Base {
                    assert(n0 % 1 == 0) by (nonlinear_arith);
                }
            }
            assert(idx_at(3, nl) <= 510) by {
                vstd::arithmetic::div_mod::lemma_mod_pos_bound(nl / 0x800_0000, 512);
                lemma_pml4_slot_digits(nl);
            }
            assert(lastp.virtual_address < 0x8000_0000_0000 ==> lastp.virtual_address + bytes
                <= 0x8000_0000_0000) by {
                let v = lastp.virtual_address as int;
                vstd::arithmetic::div_mod::lemma_fundamental_div_mod(v, bytes);
                let q = v / bytes;
                if v < 0x8000_0000_0000 {
                    assert(v + bytes <= 0x8000_0000_0000) by (nonlinear_arith)
                        requires
                            v == bytes * q + 0,
                            v < 0x8000_0000_0000,
                            bytes == 0x1000 || bytes == 0x20_0000 || bytes == 0x4000_0000,
                    ;
                }
            }
        }
        let mut iter = range;
        let ghost mut k: int = 0;
        while iter.current.virtual_address <= iter.last.virtual_address
            invariant
                pre == *old(self),
                count >= 1,
                count == page_count(first, lastp),
                first == range.current,
                lastp == range.last,
                size == first.size,
                lastp.size == size,
                bytes == size.spec_size(),
                st == size.spec_stride(),
                bytes == st * 0x1000,
                n0 == vpn(first.virtual_address),
                nl == vpn(lastp.virtual_address),
                0 <= n0,
                nl < 0x10_0000_0000,
                nl == n0 + (count - 1) * st,
                n0 % st == 0,
                idx_at(3, nl) <= 510,
                first.virtual_address as int % bytes == 0,
                lastp.virtual_address == first.virtual_address + (count - 1) * bytes,
                lastp.virtual_address + bytes <= u64::MAX,
                lastp.virtual_address < 0x8000_0000_0000 ==> lastp.virtual_address + bytes
                    <= 0x8000_0000_0000,
                lastp.virtual_address < 0x8000_0000_0000 || first.virtual_address
                    >= 0xFFFF_8000_0000_0000,
                forall|i: int|
                    idx_at(3, n0) <= i <= idx_at(3, nl) ==> word_present(
                        #[trigger] pre.word3(i),
                    ),
                size != PageSize::Huge ==> forall|m: int|
                    n0 / 0x40000 <= m <= nl / 0x40000 ==> word_links(#[trigger] pre.word2(m)),
                size == PageSize::Base ==> forall|m: int|
                    n0 / 512 <= m <= nl / 512 ==> word_links(#[trigger] pre.word1(m)),
                0 <= k <= count,
                iter.last == lastp,
                iter.current.size == size,
                iter.current.virtual_address == first.virtual_address + k * bytes,
                vpn(iter.current.virtual_address) == n0 + k * st,
                (iter.current.virtual_address <= lastp.virtual_address) <==> (k < count),
                self.wf(),
                range_unmapped(pre, *self, size, n0, k),
            decreases count - k,
        {
            let page = match iter.next() {
                Some(p) => p,
                None => unreached(),
            };
            let ghost vk = n0 + k * st;
            proof {
                assert(k < count);
                assert(vk + st <= nl + st) by (nonlinear_arith)
                    requires
                        vk == n0 + k * st,
                        nl == n0 + (count - 1) * st,
                        k < count,
                        st > 0,
                ;
                assert(n0 <= vk) by (nonlinear_arith)
                    requires
                        vk == n0 + k * st,
                        k >= 0,
                        st > 0,
                ;
                lemma_vpn_bound(page.virtual_address);
                lemma_pml4_slot_digits(vk);
                lemma_pml4_slot_digits(nl);
                vstd::arithmetic::div_mod::lemma_div_is_ordered(vk, nl, 0x800_0000);
                vstd::arithmetic::div_mod::lemma_div_is_ordered(n0, vk, 0x800_0000);
                vstd::arithmetic::div_mod::lemma_div_is_ordered(vk, nl, 0x40000);
                vstd::arithmetic::div_mod::lemma_div_is_ordered(n0, vk, 0x40000);
                vstd::arithmetic::div_mod::lemma_div_is_ordered(vk, nl, 512);
                vstd::arithmetic::div_mod::lemma_div_is_ordered(n0, vk, 512);
                assert(vk == page.base_vpn());
                assert(word_present(self.word3(idx_at(3, vk)))) by {
                    assert(self.word3(idx_at(3, vk)) == pre.word3(idx_at(3, vk)));
                }
                if size != PageSize::Huge {
                    assert(word_links(self.word2(vk / 0x40000))) by {
                        assert(self.word2(vk / 0x40000) == pre.word2(vk / 0x40000));
                    }
                }
                if size == PageSize::Base {
                    assert(word_links(self.word1(vk / 512))) by {
                        assert(self.word1(vk / 512) == pre.word1(vk / 512));
                    }
                }
            }
            let ghost cur = *self;
            self.unmap_page(page);
            proof {
                let prev = k;
                k = k + 1;
                assert(iter.current.virtual_address == first.virtual_address + k * bytes)
                    by (nonlinear_arith)
                    requires
                        iter.current.virtual_address == (first.virtual_address + prev * bytes)
                            + bytes,
                        k == prev + 1,
                ;
                lemma_vpn_add((first.virtual_address + prev * bytes) as u64, size.spec_size());
                assert(vpn(iter.current.virtual_address) == n0 + k * st) by (nonlinear_arith)
                    requires
                        vpn(iter.current.virtual_address) == (n0 + prev * st) + st,
                        k == prev + 1,
                ;
                assert((iter.current.virtual_address <= lastp.virtual_address) <==> (k < count))
                    by (nonlinear_arith)
                    requires
                        iter.current.virtual_address == first.virtual_address + k * bytes,
                        lastp.virtual_address == first.virtual_address + (count - 1) * bytes,
                        bytes > 0,
                ;
                assert(unmap_page_post(cur, *self, size, vk));
                lemma_range_unmap_step(pre, cur, *self, size, n0, prev, nl);
            }
        }
        proof {
            assert(k == count);
        }
    }
}

/// One page has just been unmapped at the end of a partially unmapped
/// range: the view of the whole hierarchy moves from `count` pages done to
/// `count + 1`.
#[verifier::rlimit(60)]
proof fn lemma_range_unmap_step(pre: Pml4, cur: Pml4, post: Pml4, size: PageSize, n0: int,
    count: int, nl: int)
    requires
        0 <= count,
        0 <= n0,
        n0 % size.spec_stride() == 0,
        n0 + count * size.spec_stride() <= nl,
        nl < 0x10_0000_0000,
        range_unmapped(pre, cur, size, n0, count),
        unmap_page_post(cur, post, size, n0 + count * size.spec_stride()),
    ensures
        range_unmapped(pre, post, size, n0, count + 1),
{
    let st = size.spec_stride();
    let vk = n0 + count * st;
    let k = count + 1;
    lemma_pml4_slot_digits(vk);
    lemma_pml4_slot_digits(n0);
    vstd::arithmetic::div_mod::lemma_div_is_ordered(n0, vk, 512);
    vstd::arithmetic::div_mod::lemma_div_is_ordered(n0, vk, 0x40000);
    if size == PageSize::Large {
        vstd::arithmetic::div_mod::lemma_hoist_over_denominator(n0, count, 512);
        assert(vk / 512 == n0 / 512 + count);
    }
    if size == PageSize::Huge {
        vstd::arithmetic::div_mod::lemma_hoist_over_denominator(n0, count, 0x40000);
        assert(vk / 0x40000 == n0 / 0x40000 + count);
    }
    assert forall|i: int| 0 <= i < 512 implies post.word3(i) == pre.word3(i) by {
        assert(post.word3(i) == cur.word3(i));
    }
    if size == PageSize::Base {
        assert forall|m: int| n0 <= m < n0 + k implies #[trigger] post.word0(m) == 0 by {
            if m < n0 + count {
                assert(cur.word0(m) == 0);
                assert(post.word0(m) == cur.word0(m));
            }
        }
        assert forall|m: int| 0 <= m < 0x10_0000_0000 && !(n0 <= m < n0 + k) implies
            post.word0(m) == pre.word0(m) by {
            assert(post.word0(m) == cur.word0(m));
        }
        assert forall|m: int| 0 <= m < 0x800_0000 implies post.word1(m) == pre.word1(m) by {
            assert(post.word1(m) == cur.word1(m));
        }
    }
    if size == PageSize::Large {
        assert forall|m: int| n0 / 512 <= m < n0 / 512 + k implies #[trigger] post.word1(m)
            == 0 by {
            if m < n0 / 512 + count {
                assert(cur.word1(m) == 0);
                assert(post.word1(m) == cur.word1(m));
            }
        }
        assert forall|m: int| 0 <= m < 0x800_0000 && !(n0 / 512 <= m < n0 / 512 + k) implies
            post.word1(m) == pre.word1(m) by {
            assert(post.word1(m) == cur.word1(m));
        }
        assert forall|m: int| 0 <= m < 0x10_0000_0000 && n0 / 512 <= m / 512 < n0 / 512 + k
            implies post.word0(m) == 0 by {
            lemma_pml4_slot_digits(m);
            if m / 512 < n0 / 512 + count {
                assert(cur.word0(m) == 0);
                assert(post.word0(m) == cur.word0(m));
            } else {
                assert(m / 512 == vk / 512);
            }
        }
        assert forall|m: int| 0 <= m < 0x10_0000_0000 && !(n0 / 512 <= m / 512 < n0 / 512 + k)
            implies post.word0(m) == pre.word0(m) by {
            lemma_pml4_slot_digits(m);
            assert(post.word0(m) == cur.word0(m));
        }
    }
    if size == PageSize::Huge {
        assert forall|m: int| n0 / 0x40000 <= m < n0 / 0x40000 + k implies
            #[trigger] post.word2(m) == 0 by {
            if m < n0 / 0x40000 + count {
                assert(cur.word2(m) == 0);
                assert(post.word2(m) == cur.word2(m));
            }
        }
        assert forall|m: int| 0 <= m < 0x40000 && !(n0 / 0x40000 <= m < n0 / 0x40000 + k)
            implies post.word2(m) == pre.word2(m) by {
            assert(post.word2(m) == cur.word2(m));
        }
        assert forall|m: int| 0 <= m < 0x800_0000 && n0 / 0x40000 <= m / 512 < n0 / 0x40000 + k
            implies post.word1(m) == 0 by {
            lemma_pdpt_slot_digits(m);
            vstd::arithmetic::div_mod::lemma_div_pos_is_pos(m, 512);
            if m / 512 < n0 / 0x40000 + count {
                assert(cur.word1(m) == 0);
                assert(post.word1(m) == cur.word1(m));
            } else {
                assert(m / 512 == vk / 0x40000);
            }
        }
        assert forall|m: int| 0 <= m < 0x800_0000 && !(n0 / 0x40000 <= m / 512 < n0 / 0x40000
            + k) implies post.word1(m) == pre.word1(m) by {
            lemma_pdpt_slot_digits(m);
            vstd::arithmetic::div_mod::lemma_div_pos_is_pos(m, 512);
            assert(post.word1(m) == cur.word1(m));
        }
        assert forall|m: int| 0 <= m < 0x10_0000_0000 && n0 / 0x40000 <= m / 0x40000 < n0
            / 0x40000 + k implies post.word0(m) == 0 by {
            lemma_pml4_slot_digits(m);
            vstd::arithmetic::div_mod::lemma_div_pos_is_pos(m, 0x40000);
            if m / 0x40000 < n0 / 0x40000 + count {
                assert(cur.word0(m) == 0);
                assert(post.word0(m) == cur.word0(m));
            } else {
                assert(m / 0x40000 == vk / 0x40000);
            }
        }
        assert forall|m: int| 0 <= m < 0x10_0000_0000 && !(n0 / 0x40000 <= m / 0x40000 < n0
            / 0x40000 + k) implies post.word0(m) == pre.word0(m) by {
            lemma_pml4_slot_digits(m);
            vstd::arithmetic::div_mod::lemma_div_pos_is_pos(m, 0x40000);
            assert(post.word0(m) == cur.word0(m));
        }
    }
    if size != PageSize::Huge {
        assert forall|m: int| 0 <= m < 0x40000 implies post.word2(m) == pre.word2(m) by {
            assert(post.word2(m) == cur.word2(m));
        }
    }
}

/// What unmapping one page whose first 4 KiB slot is `n` does to the
/// hierarchy's views: exactly the shape `unmap_page` ensures.
pub open spec fn unmap_page_post(pre: Pml4, post: Pml4, size: PageSize, n: int) -> bool {
    &&& forall|j: int| 0 <= j < 512 ==> post.word3(j) == pre.word3(j)
    &&& (size == PageSize::Huge ==> {
        &&& post.word2(n / 0x40000) == 0
        &&& forall|m: int|
            0 <= m < 0x40000 && m != n / 0x40000 ==> post.word2(m) == pre.word2(m)
        &&& forall|m: int|
            0 <= m < 0x800_0000 && m / 512 != n / 0x40000 ==> post.word1(m) == pre.word1(m)
        &&& forall|m: int| 0 <= m < 0x800_0000 && m / 512 == n / 0x40000 ==> post.word1(m) == 0
        &&& forall|m: int|
            0 <= m < 0x10_0000_0000 && m / 0x40000 != n / 0x40000 ==> post.word0(m)
                == pre.word0(m)
        &&& forall|m: int|
            0 <= m < 0x10_0000_0000 && m / 0x40000 == n / 0x40000 ==> post.word0(m) == 0
    })
    &&& (size == PageSize::Large ==> {
        &&& post.word1(n / 512) == 0
        &&& forall|m: int| 0 <= m < 0x800_0000 && m != n / 512 ==> post.word1(m) == pre.word1(m)
        &&& forall|m: int|
            0 <= m < 0x10_0000_0000 && m / 512 != n / 512 ==> post.word0(m) == pre.word0(m)
        &&& forall|m: int| 0 <= m < 0x10_0000_0000 && m / 512 == n / 512 ==> post.word0(m) == 0
    })
    &&& (size == PageSize::Base ==> {
        &&& post.word0(n) == 0
        &&& forall|m: int|
            0 <= m < 0x10_0000_0000 && m != n ==> post.word0(m) == pre.word0(m)
        &&& forall|m: int| 0 <= m < 0x800_0000 ==> post.word1(m) == pre.word1(m)
    })
    &&& (size != PageSize::Huge ==> forall|m: int|
        0 <= m < 0x40000 ==> post.word2(m) == pre.word2(m))
}

/// What a batched unmap of `count` pages of one size, starting at 4 KiB
/// slot `n0`, does to the hierarchy: the leaf words of the range are
/// zeroed, everything else at the leaf level keeps its value, the levels
/// above the leaf level keep every word, and the views below a removed
/// large or huge leaf read as zero.
pub open spec fn range_unmapped(pre: Pml4, post: Pml4, size: PageSize, n0: int,
    count: int) -> bool {
    if count <= 0 {
        views_equal(pre, post)
    } else {
        &&& forall|i: int| 0 <= i < 512 ==> post.word3(i) == pre.word3(i)
        &&& (size == PageSize::Base ==> {
            &&& forall|m: int| n0 <= m < n0 + count ==> #[trigger] post.word0(m) == 0
            &&& forall|m: int|
                0 <= m < 0x10_0000_0000 && !(n0 <= m < n0 + count) ==> post.word0(m)
                    == pre.word0(m)
            &&& forall|m: int| 0 <= m < 0x800_0000 ==> post.word1(m) == pre.word1(m)
        })
        &&& (size == PageSize::Large ==> {
            &&& forall|m: int|
                n0 / 512 <= m < n0 / 512 + count ==> #[trigger] post.word1(m) == 0
            &&& forall|m: int|
                0 <= m < 0x800_0000 && !(n0 / 512 <= m < n0 / 512 + count) ==> post.word1(m)
                    == pre.word1(m)
            &&& forall|m: int|
                0 <= m < 0x10_0000_0000 && n0 / 512 <= m / 512 < n0 / 512 + count
                    ==> post.word0(m) == 0
            &&& forall|m: int|
                0 <= m < 0x10_0000_0000 && !(n0 / 512 <= m / 512 < n0 / 512 + count)
                    ==> post.word0(m) == pre.word0(m)
        })
        &&& (size == PageSize::Huge ==> {
            &&& forall|m: int|
                n0 / 0x40000 <= m < n0 / 0x40000 + count ==> #[trigger] post.word2(m) == 0
            &&& forall|m: int|
                0 <= m < 0x40000 && !(n0 / 0x40000 <= m < n0 / 0x40000 + count)
                    ==> post.word2(m) == pre.word2(m)
            &&& forall|m: int|
                0 <= m < 0x800_0000 && n0 / 0x40000 <= m / 512 < n0 / 0x40000 + count
                    ==> post.word1(m) == 0
            &&& forall|m: int|
                0 <= m < 0x800_0000 && !(n0 / 0x40000 <= m / 512 < n0 / 0x40000 + count)
                    ==> post.word1(m) == pre.word1(m)
            &&& forall|m: int|
                0 <= m < 0x10_0000_0000 && n0 / 0x40000 <= m / 0x40000 < n0 / 0x40000 + count
                    ==> post.word0(m) == 0
            &&& forall|m: int|
                0 <= m < 0x10_0000_0000 && !(n0 / 0x40000 <= m / 0x40000 < n0 / 0x40000
                    + count) ==> post.word0(m) == pre.word0(m)
        })
        &&& (size != PageSize::Huge ==> forall|m: int|
            0 <= m < 0x40000 ==> post.word2(m) == pre.word2(m))
    }
}

/// What rewriting the protection key of `count` 4 KiB leaf entries,
/// starting at slot `n0`, does to the hierarchy: only those leaf words
/// change, each to its rekeyed form.
pub open spec fn range_rekeyed(pre: Pml4, post: Pml4, n0: int, count: int, key: u64) -> bool {
    if count <= 0 {
        views_equal(pre, post)
    } else {
        &&& forall|m: int|
            n0 <= m < n0 + count ==> #[trigger] post.word0(m) == word_rekeyed(
                pre.word0(m),
                key,
            )
        &&& forall|m: int|
            0 <= m < 0x10_0000_0000 && !(n0 <= m < n0 + count) ==> post.word0(m) == pre.word0(
                m,
            )
        &&& forall|m: int| 0 <= m < 0x800_0000 ==> post.word1(m) == pre.word1(m)
        &&& forall|m: int| 0 <= m < 0x40000 ==> post.word2(m) == pre.word2(m)
        &&& forall|i: int| 0 <= i < 512 ==> post.word3(i) == pre.word3(i)
    }
}

/// One page has just been mapped at the end of a partially mapped range:
/// the view of the whole hierarchy moves from `count` pages done to
/// `count + 1`. `cur` is the hierarchy before this page, `post` after it;
/// the freshly mapped page starts at slot `vk == n0 + count * stride` and
/// was mapped to physical address `pa_k == pa + count * bytes`.
#[verifier::rlimit(60)]
proof fn lemma_range_map_step(pre: Pml4, cur: Pml4, post: Pml4, size: PageSize, n0: int,
    count: int, pa: int, pa_k: u64, flags: u64, nl: int)
    requires
        0 <= count,
        0 <= n0,
        n0 % size.spec_stride() == 0,
        n0 + count * size.spec_stride() <= nl,
        nl < 0x10_0000_0000,
        pa_k == pa + count * (size.spec_stride() * 0x1000),
        0 <= pa,
        pa_k + size.spec_stride() * 0x1000 <= MAX_PHYSICAL_ADDRESS,
        range_mapped(pre, cur, size, n0, count, pa, flags),
        map_page_post(cur, post, size, n0 + count * size.spec_stride(), pa_k, flags),
    ensures
        range_mapped(pre, post, size, n0, count + 1, pa, flags),
{
    let st = size.spec_stride();
    let vk = n0 + count * st;
    let k = count + 1;
    lemma_pml4_slot_digits(vk);
    lemma_pml4_slot_digits(n0);
    vstd::arithmetic::div_mod::lemma_div_is_ordered(n0, vk, 512);
    vstd::arithmetic::div_mod::lemma_div_is_ordered(n0, vk, 0x40000);
    vstd::arithmetic::div_mod::lemma_div_is_ordered(n0, vk, 0x800_0000);
    let lastdone = n0 + (count - 1) * st;
    assert(lastdone == vk - st) by (nonlinear_arith)
        requires
            lastdone == n0 + (count - 1) * st,
            vk == n0 + count * st,
    ;
    if count > 0 {
        vstd::arithmetic::div_mod::lemma_div_is_ordered(n0, lastdone, 512);
        vstd::arithmetic::div_mod::lemma_div_is_ordered(n0, lastdone, 0x40000);
        vstd::arithmetic::div_mod::lemma_div_is_ordered(n0, lastdone, 0x800_0000);
        vstd::arithmetic::div_mod::lemma_div_is_ordered(lastdone, vk, 512);
        vstd::arithmetic::div_mod::lemma_div_is_ordered(lastdone, vk, 0x40000);
        vstd::arithmetic::div_mod::lemma_div_is_ordered(lastdone, vk, 0x800_0000);
        if st <= 512 {
            crate::page::lemma_div_step(lastdone, vk, 512);
        }
        crate::page::lemma_div_step(lastdone, vk, 0x40000);
        crate::page::lemma_div_step(lastdone, vk, 0x800_0000);
    }
    if size == PageSize::Large {
        vstd::arithmetic::div_mod::lemma_hoist_over_denominator(n0, count, 512);
        vstd::arithmetic::div_mod::lemma_hoist_over_denominator(n0, count - 1, 512);
        assert(vk / 512 == n0 / 512 + count);
    }
    if size == PageSize::Huge {
        vstd::arithmetic::div_mod::lemma_hoist_over_denominator(n0, count, 0x40000);
        vstd::arithmetic::div_mod::lemma_hoist_over_denominator(n0, count - 1, 0x40000);
        assert(vk / 0x40000 == n0 / 0x40000 + count);
    }
    assert(pa_k == pa + count * st * 0x1000) by (nonlinear_arith)
        requires
            pa_k == pa + count * (st * 0x1000),
    ;
    if size == PageSize::Base {
        assert forall|m: int| n0 <= m < n0 + k implies #[trigger] post.word0(m) == word_set(
            (pa + (m - n0) * 0x1000) as u64,
            DIRTY | flags,
        ) by {
            if m < n0 + count {
                assert(cur.word0(m) == word_set((pa + (m - n0) * 0x1000) as u64, DIRTY | flags));
                assert(post.word0(m) == cur.word0(m));
            } else {
                assert(m == vk);
                assert(pa + (vk - n0) * 0x1000 == pa_k) by (nonlinear_arith)
                    requires
                        pa_k == pa + count * (1int * 0x1000),
                        vk == n0 + count * 1,
                ;
                assert(post.word0(vk) == word_set(pa_k, DIRTY | flags));
            }
        }
        assert forall|m: int| 0 <= m < 0x10_0000_0000 && !(n0 <= m < n0 + k) implies
            post.word0(m) == pre.word0(m) by {
            assert(post.word0(m) == cur.word0(m));
        }
        assert forall|m: int| n0 / 512 <= m <= vk / 512 implies word_links(
            #[trigger] post.word1(m),
        ) && (word_present(pre.word1(m)) ==> post.word1(m) == pre.word1(m)) by {
            if m == vk / 512 {
                if count > 0 && m <= lastdone / 512 {
                    assert(word_links(cur.word1(m)));
                } else {
                    assert(cur.word1(m) == pre.word1(m));
                }
            } else {
                assert(m < vk / 512);
                assert(count > 0);
                assert(m <= lastdone / 512);
                assert(word_links(cur.word1(m)));
                assert(post.word1(m) == cur.word1(m));
            }
        }
        assert forall|m: int| 0 <= m < 0x800_0000 && !(n0 / 512 <= m <= vk / 512) implies
            post.word1(m) == pre.word1(m) by {
            assert(post.word1(m) == cur.word1(m));
            if count > 0 {
                assert(!(n0 / 512 <= m <= lastdone / 512));
            }
        }
    }
    if size == PageSize::Large {
        assert forall|m: int| n0 / 512 <= m < n0 / 512 + k implies #[trigger] post.word1(m)
            == word_set((pa + (m - n0 / 512) * 0x20_0000) as u64, DIRTY | HUGE_PAGE | flags) by {
            if m < n0 / 512 + count {
                assert(cur.word1(m) == word_set(
                    (pa + (m - n0 / 512) * 0x20_0000) as u64,
                    DIRTY | HUGE_PAGE | flags,
                ));
                assert(post.word1(m) == cur.word1(m));
            } else {
                assert(m == vk / 512);
                assert(pa + (m - n0 / 512) * 0x20_0000 == pa_k) by (nonlinear_arith)
                    requires
                        pa_k == pa + count * (512int * 0x1000),
                        m == n0 / 512 + count,
                ;
                assert(post.word1(vk / 512) == word_set(pa_k, DIRTY | HUGE_PAGE | flags));
            }
        }
        assert forall|m: int| 0 <= m < 0x800_0000 && !(n0 / 512 <= m < n0 / 512 + k) implies
            post.word1(m) == pre.word1(m) by {
            assert(post.word1(m) == cur.word1(m));
        }
        assert forall|m: int| 0 <= m < 0x10_0000_0000 && n0 / 512 <= m / 512 < n0 / 512 + k
            implies post.word0(m) == 0 by {
            lemma_pml4_slot_digits(m);
            if m / 512 < n0 / 512 + count {
                assert(cur.word0(m) == 0);
                assert(post.word0(m) == cur.word0(m));
            } else {
                assert(m / 512 == vk / 512);
                assert(post.word0(m) == 0);
            }
        }
        assert forall|m: int| 0 <= m < 0x10_0000_0000 && !(n0 / 512 <= m / 512 < n0 / 512 + k)
            implies post.word0(m) == pre.word0(m) by {
            lemma_pml4_slot_digits(m);
            assert(post.word0(m) == cur.word0(m));
        }
    }
    if size == PageSize::Huge {
        assert forall|m: int| n0 / 0x40000 <= m < n0 / 0x40000 + k implies #[trigger] post.word2(
            m,
        ) == word_set((pa + (m - n0 / 0x40000) * 0x4000_0000) as u64, DIRTY | HUGE_PAGE | flags)
            by {
            if m < n0 / 0x40000 + count {
                assert(cur.word2(m) == word_set(
                    (pa + (m - n0 / 0x40000) * 0x4000_0000) as u64,
                    DIRTY | HUGE_PAGE | flags,
                ));
                assert(post.word2(m) == cur.word2(m));
            } else {
                assert(m == vk / 0x40000);
                assert(pa + (m - n0 / 0x40000) * 0x4000_0000 == pa_k) by (nonlinear_arith)
                    requires
                        pa_k == pa + count * (0x40000int * 0x1000),
                        m == n0 / 0x40000 + count,
                ;
                assert(post.word2(vk / 0x40000) == word_set(pa_k, DIRTY | HUGE_PAGE | flags));
            }
        }
        assert forall|m: int| 0 <= m < 0x40000 && !(n0 / 0x40000 <= m < n0 / 0x40000 + k)
            implies post.word2(m) == pre.word2(m) by {
            assert(post.word2(m) == cur.word2(m));
        }
        assert forall|m: int| 0 <= m < 0x800_0000 && n0 / 0x40000 <= m / 512 < n0 / 0x40000 + k
            implies post.word1(m) == 0 by {
            lemma_pdpt_slot_digits(m);
            vstd::arithmetic::div_mod::lemma_div_pos_is_pos(m, 512);
            if m / 512 < n0 / 0x40000 + count {
                assert(cur.word1(m) == 0);
                assert(post.word1(m) == cur.word1(m));
            } else {
                assert(m / 512 == vk / 0x40000);
                assert(post.word1(m) == 0);
            }
        }
        assert forall|m: int| 0 <= m < 0x800_0000 && !(n0 / 0x40000 <= m / 512 < n0 / 0x40000
            + k) implies post.word1(m) == pre.word1(m) by {
            lemma_pdpt_slot_digits(m);
            vstd::arithmetic::div_mod::lemma_div_pos_is_pos(m, 512);
            assert(post.word1(m) == cur.word1(m));
        }
        assert forall|m: int| 0 <= m < 0x10_0000_0000 && n0 / 0x40000 <= m / 0x40000 < n0
            / 0x40000 + k implies post.word0(m) == 0 by {
            lemma_pml4_slot_digits(m);
            vstd::arithmetic::div_mod::lemma_div_pos_is_pos(m, 0x40000);
            if m / 0x40000 < n0 / 0x40000 + count {
                assert(cur.word0(m) == 0);
                assert(post.word0(m) == cur.word0(m));
            } else {
                assert(m / 0x40000 == vk / 0x40000);
                assert(post.word0(m) == 0);
            }
        }
        assert forall|m: int| 0 <= m < 0x10_0000_0000 && !(n0 / 0x40000 <= m / 0x40000 < n0
            / 0x40000 + k) implies post.word0(m) == pre.word0(m) by {
            lemma_pml4_slot_digits(m);
            vstd::arithmetic::div_mod::lemma_div_pos_is_pos(m, 0x40000);
            assert(post.word0(m) == cur.word0(m));
        }
    }
    if size != PageSize::Huge {
        assert forall|m: int| n0 / 0x40000 <= m <= vk / 0x40000 implies word_links(
            #[trigger] post.word2(m),
        ) && (word_present(pre.word2(m)) ==> post.word2(m) == pre.word2(m)) by {
            if m == vk / 0x40000 {
                if count > 0 && m <= lastdone / 0x40000 {
                    assert(word_links(cur.word2(m)));
                } else {
                    assert(cur.word2(m) == pre.word2(m));
                }
            } else {
                assert(m < vk / 0x40000);
                assert(count > 0);
                assert(m <= lastdone / 0x40000);
                assert(word_links(cur.word2(m)));
                assert(post.word2(m) == cur.word2(m));
            }
        }
        assert forall|m: int| 0 <= m < 0x40000 && !(n0 / 0x40000 <= m <= vk / 0x40000) implies
            post.word2(m) == pre.word2(m) by {
            assert(post.word2(m) == cur.word2(m));
            if count > 0 {
                assert(!(n0 / 0x40000 <= m <= lastdone / 0x40000));
            }
        }
    }
    assert forall|i: int| idx_at(3, n0) <= i <= idx_at(3, vk) implies word_present(
        #[trigger] post.word3(i),
    ) && (word_present(pre.word3(i)) ==> post.word3(i) == pre.word3(i)) by {
        if i == idx_at(3, vk) {
            if count > 0 && i <= idx_at(3, lastdone) {
                assert(word_present(cur.word3(i)));
                assert(word_present(pre.word3(i)) ==> cur.word3(i) == pre.word3(i));
            } else {
                assert(cur.word3(i) == pre.word3(i));
            }
        } else {
            assert(i < idx_at(3, vk));
            assert(count > 0);
            assert(i <= idx_at(3, lastdone));
            assert(word_present(cur.word3(i)));
            assert(post.word3(i) == cur.word3(i));
        }
    }
    assert forall|i: int| 0 <= i < 512 && !(idx_at(3, n0) <= i <= idx_at(3, vk)) implies
        post.word3(i) == pre.word3(i) by {
        assert(post.word3(i) == cur.word3(i));
        if count > 0 {
            assert(!(idx_at(3, n0) <= i <= idx_at(3, lastdone)));
        }
    }
}

} // verus!
