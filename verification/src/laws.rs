use vstd::prelude::*;
use crate::entry::{
    lookup_result, word_address, word_present, word_set, ACCESSED, ADDRESS_MASK, DIRTY,
    MAX_PHYSICAL_ADDRESS, PRESENT,
};
use crate::mpk::{spec_pkru_with_perm, MpkPerm};
use crate::page::{idx_at, spec_is_valid_address, vpn, PageSize};
use crate::table::{
    lemma_absent_link_no_leaf, map_page_post, unmap_page_post, Pml4,
};

verus! {

/// A freshly written leaf word carries exactly the frame it was given in
/// its address field, every flag bit it was given, and the present,
/// accessed and dirty bits.
proof fn lemma_word_set_fields(pa: u64, flags: u64)
    by (bit_vector)
    requires
        pa % 0x1000 == 0,
        pa < MAX_PHYSICAL_ADDRESS,
        flags & ADDRESS_MASK == 0,
    ensures
        word_present(word_set(pa, DIRTY | flags)),
        word_address(word_set(pa, DIRTY | flags)) == pa,
        word_set(pa, DIRTY | flags) & flags == flags,
        word_set(pa, DIRTY | flags) & (PRESENT | ACCESSED | DIRTY) == (PRESENT | ACCESSED
            | DIRTY),
{
}

/// After a 4 KiB page is mapped to an aligned frame with flags that stay
/// out of the entry's address field, the lookup that follows finds a
/// present entry whose address is exactly that frame, with every given
/// flag bit and the present, accessed and dirty bits set.
pub proof fn lemma_map_then_lookup(pre: Pml4, post: Pml4, n: int, pa: u64, flags: u64)
    requires
        0 <= n < 0x10_0000_0000,
        pa % 0x1000 == 0,
        pa < MAX_PHYSICAL_ADDRESS,
        flags & ADDRESS_MASK == 0,
        map_page_post(pre, post, PageSize::Base, n, pa, flags),
    ensures
        lookup_result(post.word0(n)) matches Some(e) && word_address(
            e.physical_address_and_flags,
        ) == pa,
        post.word0(n) & flags == flags,
        post.word0(n) & (PRESENT | ACCESSED | DIRTY) == (PRESENT | ACCESSED | DIRTY),
{
    lemma_word_set_fields(pa, flags);
}

/// Mapping a 4 KiB page and then unmapping it leaves nothing behind: the
/// lookup that follows finds no entry.
pub proof fn lemma_map_then_unmap(pre: Pml4, mid: Pml4, post: Pml4, n: int, pa: u64,
    flags: u64)
    requires
        0 <= n < 0x10_0000_0000,
        map_page_post(pre, mid, PageSize::Base, n, pa, flags),
        unmap_page_post(mid, post, PageSize::Base, n),
    ensures
        post.word0(n) == 0,
        lookup_result(post.word0(n)) is None,
{
    crate::entry::lemma_zero_word();
}

/// After a 4 KiB page is mapped to an aligned frame, translating any
/// address inside the page yields the frame's address plus the address's
/// offset in the page.
pub proof fn lemma_map_then_translate(pre: Pml4, post: Pml4, v: u64, pa: u64, flags: u64)
    requires
        spec_is_valid_address(v),
        pa % 0x1000 == 0,
        pa < MAX_PHYSICAL_ADDRESS,
        flags & ADDRESS_MASK == 0,
        map_page_post(
            pre,
            post,
            PageSize::Base,
            vpn((v - v % 0x1000) as u64),
            pa,
            flags,
        ),
    ensures
        word_address(post.word0(vpn((v - v % 0x1000) as u64))) | (v & 0xFFF) == pa + (v
            % 0x1000),
{
    crate::page::lemma_vpn_bound((v - v % 0x1000) as u64);
    lemma_word_set_fields(pa, flags);
    assert(pa % 0x1000 == 0 ==> pa | (v & 0xFFF) == pa + (v % 0x1000)) by (bit_vector);
}

/// The link installed for a freshly created table carries exactly the
/// present, writable and accessed bits: kernel-only, executable (never
/// execute-disabled, which the hardware walk would OR in), default key.
pub proof fn lemma_new_link_flags(pre: Pml4, post: Pml4, n: int, pa: u64, flags: u64)
    requires
        0 <= n < 0x10_0000_0000,
        !word_present(pre.word1(n / 512)),
        map_page_post(pre, post, PageSize::Base, n, pa, flags),
    ensures
        post.word1(n / 512) & 0xFFF == (PRESENT | crate::entry::WRITABLE | ACCESSED),
        crate::entry::word_key(post.word1(n / 512)) == 0,
        post.word1(n / 512) & crate::entry::EXECUTE_DISABLE == 0,
        post.word1(n / 512) & crate::entry::USER_ACCESSIBLE == 0,
{
    crate::entry::lemma_fresh_link_bits(post.word1(n / 512));
}

/// When the walk for a 4 KiB page had to create its lowest table, every
/// other slot of that fresh table still reads as empty afterwards: a new
/// intermediate table is zeroed apart from the entry just installed.
pub proof fn lemma_new_table_zeroed(pre: Pml4, post: Pml4, n: int, pa: u64, flags: u64)
    requires
        pre.wf(),
        0 <= n < 0x10_0000_0000,
        !word_present(pre.word1(n / 512)),
        map_page_post(pre, post, PageSize::Base, n, pa, flags),
    ensures
        forall|m: int|
            0 <= m < 0x10_0000_0000 && m != n && m / 512 == n / 512 ==> post.word0(m) == 0,
{
    assert forall|m: int| 0 <= m < 0x10_0000_0000 && m != n && m / 512 == n / 512 implies
        post.word0(m) == 0 by {
        lemma_absent_link_no_leaf(pre, m);
    }
}

/// No single-page operation ever touches the recursive self-reference in
/// slot 511 of the root: mapping away from that slot leaves its word
/// untouched, and unmapping never writes the root at all.
pub proof fn lemma_self_reference_preserved(pre: Pml4, post: Pml4, size: PageSize, n: int,
    pa: u64, flags: u64)
    requires
        0 <= n < 0x10_0000_0000,
        idx_at(3, n) != 511,
        map_page_post(pre, post, size, n, pa, flags),
    ensures
        post.word3(511) == pre.word3(511),
{
}

/// An address is canonical exactly when its bits 48 through 63 replicate
/// bit 47: the valid-address test accepts the two canonical halves and
/// rejects the gap between them.
pub proof fn lemma_canonical_is_bit47_replication(v: u64)
    ensures
        spec_is_valid_address(v) <==> (v >> 47 == 0 || v >> 47 == 0x1FFFF),
{
    assert((v < 0x8000_0000_0000 || v >= 0xFFFF_8000_0000_0000) <==> (v >> 47 == 0 || v >> 47
        == 0x1FFFF)) by (bit_vector);
}

/// Denying a key through the PKRU register sets its access-disable bit,
/// allowing it read-only sets only its write-disable bit, and either way
/// every other key's field is untouched.
pub proof fn lemma_pkru_fields(pkru: u32, key: u64)
    requires
        key < 16,
    ensures
        spec_pkru_with_perm(pkru, key, MpkPerm::MpkNone) & (1u32 << (2 * key)) != 0,
        spec_pkru_with_perm(pkru, key, MpkPerm::MpkRo) & (2u32 << (2 * key)) != 0,
        spec_pkru_with_perm(pkru, key, MpkPerm::MpkRo) & (1u32 << (2 * key)) == 0,
        spec_pkru_with_perm(pkru, key, MpkPerm::MpkRw) & (3u32 << (2 * key)) == 0,
        forall|other: u64, p: MpkPerm|
            other < 16 && other != key ==> #[trigger] (spec_pkru_with_perm(pkru, key, p) & (
            3u32 << (2 * other))) == pkru & (3u32 << (2 * other)),
{
    assert((pkru & !(3u32 << (2 * key)) | (3u32 << (2 * key))) & (1u32 << (2 * key)) != 0
        && (pkru & !(3u32 << (2 * key)) | (2u32 << (2 * key))) & (2u32 << (2 * key)) != 0
        && (pkru & !(3u32 << (2 * key)) | (2u32 << (2 * key))) & (1u32 << (2 * key)) == 0
        && (pkru & !(3u32 << (2 * key))) & (3u32 << (2 * key)) == 0) by (bit_vector)
        requires
            key < 16,
    ;
    assert forall|other: u64, p: MpkPerm| other < 16 && other != key implies #[trigger] (
    spec_pkru_with_perm(pkru, key, p) & (3u32 << (2 * other))) == pkru & (3u32 << (2 * other))
        by {
        let cleared = pkru & !(3u32 << (2 * key));
        assert(cleared & (3u32 << (2 * other)) == pkru & (3u32 << (2 * other)) && (cleared
            | (2u32 << (2 * key))) & (3u32 << (2 * other)) == pkru & (3u32 << (2 * other)) && (
        cleared | (3u32 << (2 * key))) & (3u32 << (2 * other)) == pkru & (3u32 << (2 * other)))
            by (bit_vector)
            requires
                key < 16,
                other < 16,
                other != key,
                cleared == pkru & !(3u32 << (2 * key)),
        ;
    }
}

} // verus!
