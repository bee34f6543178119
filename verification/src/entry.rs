use vstd::prelude::*;

verus! {

// Bit layout of a page-table entry, as the processor defines it
// (Intel SDM Vol. 3A, tables 4-14 through 4-19).

/// Set if the entry is valid and points to a page or table.
pub const PRESENT: u64 = 0x1;
/// Set if memory referenced by the entry shall be writable.
pub const WRITABLE: u64 = 0x2;
/// Set if memory referenced by the entry shall be accessible from ring 3.
pub const USER_ACCESSIBLE: u64 = 0x4;
/// Set if write-through caching shall be enabled for the referenced memory.
pub const WRITE_THROUGH: u64 = 0x8;
/// Set if caching shall be disabled for the referenced memory.
pub const CACHE_DISABLE: u64 = 0x10;
/// Set by software when the entry has been used for a translation.
pub const ACCESSED: u64 = 0x20;
/// Set by software when the referenced memory has been written.
pub const DIRTY: u64 = 0x40;
/// In a PDPT or PDT entry: the entry maps a 1 GiB or 2 MiB page directly.
pub const HUGE_PAGE: u64 = 0x80;
/// The translation is global and survives a CR3 reload.
pub const GLOBAL: u64 = 0x100;
/// Code execution from the referenced memory is disallowed.
pub const EXECUTE_DISABLE: u64 = 0x8000_0000_0000_0000;

/// Bits 59..=62 hold the 4-bit protection key of a leaf entry.
pub const KEY_MASK: u64 = 0x7800_0000_0000_0000;
/// Shift distance of the protection-key field.
pub const KEY_SHIFT: u64 = 59;

/// Every flag bit an entry may carry, protection key included.
pub const FLAGS_MASK: u64 = PRESENT | WRITABLE | USER_ACCESSIBLE | WRITE_THROUGH
    | CACHE_DISABLE | ACCESSED | DIRTY | HUGE_PAGE | GLOBAL | EXECUTE_DISABLE | KEY_MASK;

/// The bits of an entry that its `address` method keeps: everything except
/// the low twelve flag bits and the execute-disable bit.
pub const ADDRESS_MASK: u64 = 0x7FFF_FFFF_FFFF_F000;

/// One more than the largest physical address the architecture can express
/// (52 address bits).
pub const MAX_PHYSICAL_ADDRESS: u64 = 0x10_0000_0000_0000;

/// Whether the entry word marks a valid (present) translation.
pub open spec fn word_present(w: u64) -> bool {
    w & PRESENT != 0
}

/// Whether the entry word maps a large or huge page directly.
pub open spec fn word_huge(w: u64) -> bool {
    w & HUGE_PAGE != 0
}

/// The address field of the entry word, as its `address` method returns it.
pub open spec fn word_address(w: u64) -> u64 {
    w & ADDRESS_MASK
}

/// The protection key held in bits 59..=62 of the entry word.
pub open spec fn word_key(w: u64) -> u64 {
    (w & KEY_MASK) >> KEY_SHIFT
}

/// A present entry that refers to a child table rather than mapping a page.
pub open spec fn word_links(w: u64) -> bool {
    word_present(w) && !word_huge(w)
}

/// The word of a link the walker itself created: some aligned frame with
/// exactly the writable flag beside the automatic present and accessed
/// bits — kernel-only, executable, key zero.
pub open spec fn is_fresh_link(w: u64) -> bool {
    exists|f: u64|
        w == #[trigger] word_set(f, WRITABLE) && f % 0x1000 == 0 && f < MAX_PHYSICAL_ADDRESS
}

/// A fresh link carries exactly the present, writable and accessed bits in
/// its low flag byte, no user or global access, no protection key, and no
/// execute-disable bit.
pub proof fn lemma_fresh_link_bits(w: u64)
    requires
        is_fresh_link(w),
    ensures
        w & 0xFFF == (PRESENT | WRITABLE | ACCESSED),
        word_key(w) == 0,
        w & EXECUTE_DISABLE == 0,
        w & USER_ACCESSIBLE == 0,
        word_links(w),
{
    let f = choose|f: u64|
        w == #[trigger] word_set(f, WRITABLE) && f % 0x1000 == 0 && f < MAX_PHYSICAL_ADDRESS;
    assert(word_set(f, WRITABLE) & 0xFFF == (PRESENT | WRITABLE | ACCESSED) && word_key(
        word_set(f, WRITABLE),
    ) == 0 && word_set(f, WRITABLE) & EXECUTE_DISABLE == 0 && word_set(f, WRITABLE)
        & USER_ACCESSIBLE == 0 && word_links(word_set(f, WRITABLE))) by (bit_vector)
        requires
            f % 0x1000 == 0,
            f < MAX_PHYSICAL_ADDRESS,
    ;
}

/// The word `set` writes for a given physical address and flag set.
pub open spec fn word_set(physical_address: u64, flags: u64) -> u64 {
    physical_address | PRESENT | ACCESSED | flags
}

/// The entry word with its protection-key field replaced by `key`.
pub open spec fn word_rekeyed(w: u64, key: u64) -> u64 {
    (w & !KEY_MASK) | (key << KEY_SHIFT)
}

/// The entry a lookup yields for a raw word: the entry itself when the word
/// is present, nothing otherwise.
pub open spec fn lookup_result(w: u64) -> Option<PageTableEntry> {
    if word_present(w) {
        Some(PageTableEntry { physical_address_and_flags: w })
    } else {
        None
    }
}

/// Joining `DIRTY` into a flag set does not decide the `HUGE_PAGE` bit, and
/// joining `DIRTY | HUGE_PAGE` always sets it.
pub proof fn lemma_flag_bits(flags: u64)
    by (bit_vector)
    ensures
        (0x40u64 | flags) & 0x80 == flags & 0x80,
        (0x40u64 | 0x80u64 | flags) & 0x80 != 0,
        (0x2u64 & 0x80) == 0,
{
}

/// The zero word is neither present nor huge.
pub proof fn lemma_zero_word()
    by (bit_vector)
    ensures
        !word_present(0),
        !word_huge(0),
{
}

/// A word written by `set` is always present; when the physical address is
/// page aligned, the `HUGE_PAGE` bit of the word is exactly the one the
/// flags carry; and 2 MiB alignment implies 4 KiB alignment.
pub proof fn lemma_word_set_bits(physical_address: u64, flags: u64)
    by (bit_vector)
    ensures
        word_present(word_set(physical_address, flags)),
        physical_address % 0x1000 == 0 ==> word_huge(word_set(physical_address, flags)) == (
        flags & HUGE_PAGE != 0),
        physical_address % 0x20_0000 == 0 ==> physical_address % 0x1000 == 0,
{
}

/// Rewriting the protection-key field leaves the present and huge bits of a
/// word untouched.
pub proof fn lemma_rekey_bits(w: u64, key: u64)
    by (bit_vector)
    ensures
        word_present(word_rekeyed(w, key)) == word_present(w),
        word_huge(word_rekeyed(w, key)) == word_huge(w),
{
}

/// The flag word a region of a given protection domain is mapped with:
/// writable, tagged with the domain's protection key, optionally
/// execute-disabled and optionally reachable from ring 3.
pub open spec fn region_flags(key: u64, execute_disable: bool, user: bool) -> u64 {
    WRITABLE | (key << KEY_SHIFT) | (if execute_disable {
        EXECUTE_DISABLE
    } else {
        0
    }) | (if user {
        USER_ACCESSIBLE
    } else {
        0
    })
}

/// The flag builder, starting from the empty set, reaches exactly
/// `region_flags`, and such a word never carries `HUGE_PAGE`.
pub proof fn lemma_region_flags(key: u64, execute_disable: bool, user: bool)
    ensures
        region_flags(key, execute_disable, user) & HUGE_PAGE == 0,
        !user && !execute_disable ==> region_flags(key, execute_disable, user) == ((((0 & !(
        WRITE_THROUGH | CACHE_DISABLE)) | WRITABLE) & !KEY_MASK) | (key << KEY_SHIFT)),
        !user && execute_disable ==> region_flags(key, execute_disable, user) == (((((0 & !(
        WRITE_THROUGH | CACHE_DISABLE)) | WRITABLE) & !KEY_MASK) | (key << KEY_SHIFT))
            | EXECUTE_DISABLE),
        key == 0 && !user && execute_disable ==> region_flags(key, execute_disable, user) == (((
        0 & !(WRITE_THROUGH | CACHE_DISABLE)) | WRITABLE) | EXECUTE_DISABLE),
        key == 0 && user && !execute_disable ==> region_flags(key, execute_disable, user) == (((
        0 & !(WRITE_THROUGH | CACHE_DISABLE)) | WRITABLE) | USER_ACCESSIBLE),
        key == 0 && user && execute_disable ==> region_flags(key, execute_disable, user) == ((((
        0 & !(WRITE_THROUGH | CACHE_DISABLE)) | WRITABLE) | USER_ACCESSIBLE)
            | EXECUTE_DISABLE),
{
    let xd: u64 = if execute_disable {
        EXECUTE_DISABLE
    } else {
        0
    };
    let us: u64 = if user {
        USER_ACCESSIBLE
    } else {
        0
    };
    assert(region_flags(key, execute_disable, user) == (WRITABLE | (key << KEY_SHIFT) | xd
        | us));
    assert(((WRITABLE | (key << KEY_SHIFT) | xd | us) & HUGE_PAGE) == 0) by (bit_vector)
        requires
            xd == EXECUTE_DISABLE || xd == 0,
            us == USER_ACCESSIBLE || us == 0,
    ;
    assert(((((0 & !(WRITE_THROUGH | CACHE_DISABLE)) | WRITABLE) & !KEY_MASK) | (key
        << KEY_SHIFT)) == (WRITABLE | (key << KEY_SHIFT) | 0 | 0)) by (bit_vector);
    assert((((((0 & !(WRITE_THROUGH | CACHE_DISABLE)) | WRITABLE) & !KEY_MASK) | (key
        << KEY_SHIFT)) | EXECUTE_DISABLE) == (WRITABLE | (key << KEY_SHIFT) | EXECUTE_DISABLE
        | 0)) by (bit_vector);
    assert((((0 & !(WRITE_THROUGH | CACHE_DISABLE)) | WRITABLE) | EXECUTE_DISABLE) == (WRITABLE
        | (0u64 << KEY_SHIFT) | EXECUTE_DISABLE | 0)) by (bit_vector);
    assert((((0 & !(WRITE_THROUGH | CACHE_DISABLE)) | WRITABLE) | USER_ACCESSIBLE) == (WRITABLE
        | (0u64 << KEY_SHIFT) | 0 | USER_ACCESSIBLE)) by (bit_vector);
    assert(((((0 & !(WRITE_THROUGH | CACHE_DISABLE)) | WRITABLE) | USER_ACCESSIBLE)
        | EXECUTE_DISABLE) == (WRITABLE | (0u64 << KEY_SHIFT) | EXECUTE_DISABLE
        | USER_ACCESSIBLE)) by (bit_vector);
}

/// The flag builder that picks the protection key last, after setting
/// execute-disable, also reaches exactly `region_flags`.
pub proof fn lemma_region_flags_xd_keyed(key: u64)
    ensures
        region_flags(key, true, false) == (((((0 & !(WRITE_THROUGH | CACHE_DISABLE)) | WRITABLE)
            | EXECUTE_DISABLE) & !KEY_MASK) | (key << KEY_SHIFT)),
        region_flags(key, true, false) & HUGE_PAGE == 0,
{
    assert(region_flags(key, true, false) == (WRITABLE | (key << KEY_SHIFT) | EXECUTE_DISABLE
        | 0));
    assert((((((0 & !(WRITE_THROUGH | CACHE_DISABLE)) | WRITABLE) | EXECUTE_DISABLE)
        & !KEY_MASK) | (key << KEY_SHIFT)) == (WRITABLE | (key << KEY_SHIFT) | EXECUTE_DISABLE
        | 0)) by (bit_vector);
    assert(((WRITABLE | (key << KEY_SHIFT) | EXECUTE_DISABLE | 0) & HUGE_PAGE) == 0)
        by (bit_vector);
}

/// Truncating raw bits to the recognized flags decides the `HUGE_PAGE`
/// bit the same way the raw bits do.
pub proof fn lemma_truncate_bits(bits: u64)
    by (bit_vector)
    ensures
        (bits & FLAGS_MASK) & HUGE_PAGE == bits & HUGE_PAGE,
{
}

/// The lone execute-disable flag is its own flag word and carries no
/// `HUGE_PAGE` bit.
pub proof fn lemma_xd_flag()
    by (bit_vector)
    ensures
        0u64 | EXECUTE_DISABLE == EXECUTE_DISABLE,
        EXECUTE_DISABLE & HUGE_PAGE == 0,
{
}

/// A set of flag bits for a page-table entry, assembled step by step the
/// way the mapping paths choose their attributes.
#[derive(Clone, Copy)]
pub struct PageTableEntryFlags {
    /// The raw flag bits.
    pub bits: u64,
}

impl PageTableEntryFlags {
    /// No flags at all.
    pub fn empty() -> (r: PageTableEntryFlags)
        ensures
            r.bits == 0,
    {
        PageTableEntryFlags { bits: 0 }
    }

    /// Ordinary write-back cached memory: clears write-through and
    /// cache-disable.
    pub fn normal(self) -> (r: PageTableEntryFlags)
        ensures
            r.bits == self.bits & !(WRITE_THROUGH | CACHE_DISABLE),
    {
        PageTableEntryFlags { bits: self.bits & !(WRITE_THROUGH | CACHE_DISABLE) }
    }

    /// The referenced memory shall be writable.
    pub fn writable(self) -> (r: PageTableEntryFlags)
        ensures
            r.bits == self.bits | WRITABLE,
    {
        PageTableEntryFlags { bits: self.bits | WRITABLE }
    }

    /// Code shall not be executed from the referenced memory.
    pub fn execute_disable(self) -> (r: PageTableEntryFlags)
        ensures
            r.bits == self.bits | EXECUTE_DISABLE,
    {
        PageTableEntryFlags { bits: self.bits | EXECUTE_DISABLE }
    }

    /// The referenced memory shall be reachable from ring 3.
    pub fn user_accessible(self) -> (r: PageTableEntryFlags)
        ensures
            r.bits == self.bits | USER_ACCESSIBLE,
    {
        PageTableEntryFlags { bits: self.bits | USER_ACCESSIBLE }
    }

    /// Tag the mapping with a protection key.
    pub fn pkey(self, key: u64) -> (r: PageTableEntryFlags)
        requires
            key < 16,
        ensures
            r.bits == (self.bits & !KEY_MASK) | (key << KEY_SHIFT),
    {
        PageTableEntryFlags { bits: (self.bits & !KEY_MASK) | (key << KEY_SHIFT) }
    }

    /// Keep only the bits that mean something in a page-table entry,
    /// protection key included.
    pub fn from_bits_truncate(bits: u64) -> (r: PageTableEntryFlags)
        ensures
            r.bits == bits & FLAGS_MASK,
    {
        PageTableEntryFlags { bits: bits & FLAGS_MASK }
    }
}

/// An entry in any of the four tables (PML4, PDPT, PDT, PGT).
#[derive(Clone, Copy)]
pub struct PageTableEntry {
    /// Physical memory address this entry refers to, combined with flag bits.
    pub physical_address_and_flags: u64,
}

impl PageTableEntry {
    /// Return the stored physical address.
    pub fn address(&self) -> (r: u64)
        ensures
            r == word_address(self.physical_address_and_flags),
    {
        self.physical_address_and_flags & ADDRESS_MASK
    }

    /// Zero this entry to mark it as unused.
    pub fn zero(&mut self)
        ensures
            final(self).physical_address_and_flags == 0,
    {
        self.physical_address_and_flags = 0;
    }

    /// Returns whether this entry is valid (present).
    pub fn is_present(&self) -> (r: bool)
        ensures
            r == word_present(self.physical_address_and_flags),
    {
        self.physical_address_and_flags & PRESENT != 0
    }

    /// Mark this as a valid (present) entry and set address translation and
    /// flags. The physical address must be aligned to the entry's native page
    /// size (2 MiB is the permissive floor when the flags carry `HUGE_PAGE`,
    /// since the entry alone does not tell 2 MiB from 1 GiB) and must fit in
    /// the architecture's physical address width.
    pub fn set(&mut self, physical_address: u64, flags: u64)
        requires
            flags & HUGE_PAGE != 0 ==> physical_address % 0x20_0000 == 0,
            flags & HUGE_PAGE == 0 ==> physical_address % 0x1000 == 0,
            physical_address < MAX_PHYSICAL_ADDRESS,
        ensures
            final(self).physical_address_and_flags == word_set(physical_address, flags),
    {
        self.physical_address_and_flags = physical_address | PRESENT | ACCESSED | flags;
    }
}

} // verus!
