use vstd::prelude::*;
use crate::mm::Mm;
use crate::page::{idx_at, vpn};
use crate::entry::word_present;

verus! {

/// The permission a protection key grants through the PKRU register.
#[derive(Clone, Copy, PartialEq, Eq, Structural, Debug)]
pub enum MpkPerm {
    /// Read and write allowed.
    MpkRw,
    /// Read only: the write-disable bit is set.
    MpkRo,
    /// No access: both bits are set.
    MpkNone,
}

/// The PKRU word after setting one key's two-bit field: bit `2k` disables
/// access, bit `2k + 1` disables writes.
pub open spec fn spec_pkru_with_perm(pkru: u32, key: u64, perm: MpkPerm) -> u32 {
    let cleared = pkru & !(3u32 << (2 * key));
    match perm {
        MpkPerm::MpkRw => cleared,
        MpkPerm::MpkRo => cleared | (2u32 << (2 * key)),
        MpkPerm::MpkNone => cleared | (3u32 << (2 * key)),
    }
}

/// Computes the PKRU value that grants `perm` for `key` while keeping
/// every other key's field. Writing the register is the platform layer's
/// last step.
pub fn mpk_set_perm(pkru: u32, key: u64, perm: MpkPerm) -> (r: u32)
    requires
        key < 16,
    ensures
        r == spec_pkru_with_perm(pkru, key, perm),
{
    let cleared = pkru & !(3u32 << (2 * key) as u32);
    match perm {
        MpkPerm::MpkRw => cleared,
        MpkPerm::MpkRo => cleared | (2u32 << (2 * key) as u32),
        MpkPerm::MpkNone => cleared | (3u32 << (2 * key) as u32),
    }
}

/// Rewrites the protection key of every page of `[virtual_address,
/// virtual_address + size)`; the range must be backed by present 4 KiB
/// mappings. Keys are checked against the register at access time, so no
/// TLB flush is owed.
pub fn mpk_mem_set_key(mm: &mut Mm, virtual_address: u64, size: u64, key: u8)
    requires
        old(mm).wf(),
        (key as u64) < 16,
        size >= 1,
        size % 0x1000 == 0,
        crate::page::spec_is_valid_address(virtual_address),
        crate::page::spec_is_valid_address((virtual_address + size - 0x1000) as u64),
        virtual_address + size <= u64::MAX,
        virtual_address + size - 0x1000 < 0x8000_0000_0000 || virtual_address
            >= 0xFFFF_8000_0000_0000,
        idx_at(3, vpn((virtual_address + size - 0x1000) as u64)) != 511,
        forall|i: int|
            idx_at(3, vpn((virtual_address - virtual_address % 0x1000) as u64)) <= i <= idx_at(
                3,
                vpn((virtual_address + size - 0x1000) as u64),
            ) ==> word_present(#[trigger] old(mm).root.word3(i)),
        forall|m: int|
            vpn((virtual_address - virtual_address % 0x1000) as u64) / 0x40000 <= m <= vpn(
                (virtual_address + size - 0x1000) as u64,
            ) / 0x40000 ==> crate::entry::word_links(#[trigger] old(mm).root.word2(m)),
        forall|m: int|
            vpn((virtual_address - virtual_address % 0x1000) as u64) / 512 <= m <= vpn(
                (virtual_address + size - 0x1000) as u64,
            ) / 512 ==> crate::entry::word_links(#[trigger] old(mm).root.word1(m)),
        forall|m: int|
            vpn((virtual_address - virtual_address % 0x1000) as u64) <= m < vpn(
                (virtual_address - virtual_address % 0x1000) as u64,
            ) + size / 0x1000 ==> word_present(#[trigger] old(mm).root.word0(m)),
    ensures
        final(mm).wf(),
        final(mm).same_config(*old(mm)),
        final(mm).physicalmem == old(mm).physicalmem,
        final(mm).virtualmem == old(mm).virtualmem,
        crate::table::range_rekeyed(
            old(mm).root,
            final(mm).root,
            vpn((virtual_address - virtual_address % 0x1000) as u64),
            size as int / 0x1000,
            key as u64,
        ),
        final(mm).root.word3(511) == old(mm).root.word3(511),
{
    let npages = size / 0x1000;
    proof {
        vstd::arithmetic::div_mod::lemma_fundamental_div_mod(size as int, 0x1000);
        assert(npages * 0x1000 == size);
        assert(npages >= 1);
    }
    mm.set_pkey_on_page_table_entry(virtual_address, npages, key);
}

} // verus!
