use libos_mm::entry::{PageTableEntry, PageTableEntryFlags};
use libos_mm::fault::PageFaultError;
use libos_mm::gdt::Gdt;
use libos_mm::mm::{getpagesize, FaultOutcome, Mm};
use libos_mm::mpk::{mpk_set_perm, MpkPerm};
use libos_mm::page::{Page, PageSize};
use libos_mm::sem;
use libos_mm::supply::BumpAllocator;
use libos_mm::has_ipdevice;

fn fresh_mm() -> Mm {
    // a 64 MiB physical arena and a virtual arena high above the fixed
    // boot mappings
    Mm::new(0x10_0000, 0x410_0000, 0x1_0000_0000, 0x1_1000_0000, false)
}

#[test]
fn page_size_constants() {
    assert_eq!(getpagesize(), 4096);
    assert_eq!(PageSize::Base.size(), 0x1000);
    assert_eq!(PageSize::Large.size(), 0x20_0000);
    assert_eq!(PageSize::Huge.size(), 0x4000_0000);
    assert_eq!(PageSize::Base.map_level(), 0);
    assert_eq!(PageSize::Large.map_level(), 1);
    assert_eq!(PageSize::Huge.map_level(), 2);
}

#[test]
fn entry_set_and_address() {
    let mut e = PageTableEntry { physical_address_and_flags: 0 };
    assert!(!e.is_present());
    e.set(0x20_0000, 0x2);
    assert!(e.is_present());
    assert_eq!(e.address(), 0x20_0000);
    // present, writable, accessed
    assert_eq!(e.physical_address_and_flags, 0x20_0000 | 0x1 | 0x20 | 0x2);
    e.zero();
    assert_eq!(e.physical_address_and_flags, 0);
}

#[test]
fn including_address_rounds_down() {
    let p = Page::including_address(0x1_0000_0ABC, PageSize::Base);
    assert_eq!(p.virtual_address, 0x1_0000_0000);
    let q = Page::including_address(0x2_0010_1234, PageSize::Large);
    assert_eq!(q.virtual_address, 0x2_0000_0000);
    assert!(Page::is_valid_address(0x7FFF_FFFF_FFFF));
    assert!(!Page::is_valid_address(0x8000_0000_0000));
    assert!(!Page::is_valid_address(0xFFFF_7FFF_FFFF_FFFF));
    assert!(Page::is_valid_address(0xFFFF_8000_0000_0000));
}

#[test]
fn map_base_page_and_translate() {
    let mut mm = fresh_mm();
    // map one 4 KiB page at 0x1_0000_0000 onto 0x20_0000, writable
    let (ret, flush) = mm.__page_map(0x1_0000_0000, 0x20_0000, 1, 0x2, 1);
    assert_eq!(ret, 0);
    assert!(!flush, "a fresh slot must not owe a shootdown");
    assert_eq!(mm.try_virt_to_phys(0x1_0000_0ABC), Some(0x20_0ABC));
}

#[test]
fn map_replacing_entry_owes_shootdown() {
    let mut mm = fresh_mm();
    let _ = mm.__page_map(0x1_0000_0000, 0x20_0000, 1, 0x2, 1);
    let (_, flush) = mm.__page_map(0x1_0000_0000, 0x21_0000, 1, 0x2, 1);
    assert!(flush, "replacing a present entry with do_ipi owes a shootdown");
    assert_eq!(mm.try_virt_to_phys(0x1_0000_0ABC), Some(0x21_0ABC));
    // without the request, no shootdown is owed even on replacement
    let (_, flush2) = mm.__page_map(0x1_0000_0000, 0x22_0000, 1, 0x2, 0);
    assert!(!flush2);
}

#[test]
fn unmap_leaves_nothing() {
    let mut mm = fresh_mm();
    let _ = mm.__page_map(0x1_0000_0000, 0x20_0000, 2, 0x2, 1);
    assert_eq!(mm.page_unmap(0x1_0000_0000, 2), 0);
    let page = Page::including_address(0x1_0000_0000, PageSize::Base);
    assert!(mm.root.get_page_table_entry(page).is_none());
    assert_eq!(mm.try_virt_to_phys(0x1_0000_0ABC), None);
}

#[test]
fn map_large_page_and_translate() {
    let mut mm = fresh_mm();
    let page = Page::including_address(0x2_0000_0000, PageSize::Large);
    // writable plus the huge-page bit, as a 2 MiB mapping carries it
    let range = Page::range(page, page);
    let _ = mm.root.map_pages(range, 0x40_0000, 0x2, true, &mut mm.physicalmem);
    // look up through the large-page walk by marking the kernel range
    mm.kernel_start_address = 0x2_0000_0000;
    mm.kernel_end_address = 0x2_0020_0000;
    assert_eq!(mm.try_virt_to_phys(0x2_0010_0000), Some(0x50_0000));
    let e = mm.root.get_page_table_entry(page).expect("large page must be present");
    assert_eq!(e.physical_address_and_flags & 0x80, 0x80, "the PDT entry carries HUGE");
}

#[test]
fn lazy_heap_fault_backs_page_once() {
    let mut mm = fresh_mm();
    let heap = Some((0xA000_0000u64, 0xA001_0000u64));
    let first = mm.page_fault_handler(0xA000_1234, heap);
    assert_eq!(first, FaultOutcome::Mapped { zeroed: false });
    let second = mm.page_fault_handler(0xA000_1234, heap);
    assert_eq!(second, FaultOutcome::AlreadyBacked);
    // the installed frame is writable and execute-disabled
    let page = Page::including_address(0xA000_1234, PageSize::Base);
    let e = mm.root.get_page_table_entry(page).expect("fault must have backed the page");
    assert_eq!(e.physical_address_and_flags & 0x2, 0x2);
    assert_eq!(e.physical_address_and_flags >> 63, 1);
}

#[test]
fn fault_outside_heap_is_fatal() {
    let mut mm = fresh_mm();
    let heap = Some((0xA000_0000u64, 0xA001_0000u64));
    assert_eq!(mm.page_fault_handler(0xB000_0000, heap), FaultOutcome::Fatal);
    assert_eq!(mm.page_fault_handler(0xA000_1234, None), FaultOutcome::Fatal);
}

#[test]
fn region_allocate_tags_keys() {
    let mut mm = fresh_mm();
    let v = mm.allocate(0x1800, true);
    assert_eq!(v, 0x1_0000_0000);
    let page = Page::including_address(v, PageSize::Base);
    let e = mm.root.get_page_table_entry(page).unwrap();
    // key 1, writable, execute-disable
    assert_eq!((e.physical_address_and_flags >> 59) & 0xF, 1);
    assert_eq!(e.physical_address_and_flags & 0x2, 0x2);
    assert_eq!(e.physical_address_and_flags >> 63, 1);
    let v2 = mm.unsafe_allocate(0x1000, false);
    let e2 = mm.root.get_page_table_entry(
        Page::including_address(v2, PageSize::Base),
    ).unwrap();
    assert_eq!((e2.physical_address_and_flags >> 59) & 0xF, 2);
    assert_eq!(e2.physical_address_and_flags >> 63, 0);
    let v3 = mm.shared_allocate(0x1000, true);
    let e3 = mm.root.get_page_table_entry(
        Page::including_address(v3, PageSize::Base),
    ).unwrap();
    assert_eq!((e3.physical_address_and_flags >> 59) & 0xF, 3);
    let v4 = mm.user_allocate(0x1000, true);
    let e4 = mm.root.get_page_table_entry(
        Page::including_address(v4, PageSize::Base),
    ).unwrap();
    assert_eq!((e4.physical_address_and_flags >> 59) & 0xF, 0);
    assert_eq!(e4.physical_address_and_flags & 0x4, 0x4, "user region is ring 3 reachable");
    let v5 = mm.allocate_iomem(0x1000);
    let e5 = mm.root.get_page_table_entry(
        Page::including_address(v5, PageSize::Base),
    ).unwrap();
    assert_eq!((e5.physical_address_and_flags >> 59) & 0xF, 0);
    assert_eq!(e5.physical_address_and_flags >> 63, 1);
}

#[test]
fn deallocate_accounts_freed_bytes() {
    let mut mm = fresh_mm();
    let v = mm.allocate(0x2000, true);
    mm.deallocate(v, 0x1801);
    let (phys, virt) = mm.print_information();
    // the handed-back size is rounded up to whole pages
    assert_eq!(phys.3, 0x2000);
    assert_eq!(virt.3, 0x2000);
    // the virtual range went back under its own address, the physical one
    // under the frame address read from the leaf entry (which keeps the
    // region's key bits)
    assert_eq!(mm.virtualmem.last_freed_address, v);
    assert_eq!(mm.physicalmem.last_freed_address, 0x10_1000 | (1u64 << 59));
}

#[test]
fn fresh_links_are_writable_kernel_only() {
    let mut mm = fresh_mm();
    let _ = mm.__page_map(0x1_0000_0000, 0x20_0000, 1, 0x2, 0);
    // the walk created three tables; the root's slot 0 links the first of
    // them with exactly PRESENT | WRITABLE | ACCESSED — no user bit, no
    // execute-disable, no key
    let link = mm.root.entries[0].physical_address_and_flags;
    assert_eq!(link, 0x10_1000 | 0x23);
}

#[test]
fn bump_allocator_hands_out_disjoint_aligned_ranges() {
    let mut b = BumpAllocator::new(0x10_0000, 0x20_0000);
    let a1 = b.allocate(0x1000).unwrap();
    assert_eq!(a1, 0x10_0000);
    let a2 = b.allocate_aligned(0x2000, 0x4000).unwrap();
    assert_eq!(a2 % 0x4000, 0);
    assert!(a2 >= a1 + 0x1000);
    assert!(b.allocate(0x10_0000).is_err());
}

#[test]
fn boot_mappings_rekey_null_page() {
    let mut mm = fresh_mm();
    mm.init_pages_before_kernel();
    let e0 = mm.root.get_page_table_entry(
        Page::including_address(0, PageSize::Base),
    ).unwrap();
    // the null page keeps the default key so a stray access traps as a
    // protection fault
    assert_eq!((e0.physical_address_and_flags >> 59) & 0xF, 0);
    let e1 = mm.root.get_page_table_entry(
        Page::including_address(0x1000, PageSize::Base),
    ).unwrap();
    assert_eq!((e1.physical_address_and_flags >> 59) & 0xF, 1);
    assert_eq!(e1.address(), 0x1000 | (1 << 59), "address keeps the key bits");
}

#[test]
fn init_maps_kernel_heap() {
    let mut mm = Mm::new(0x10_0000, 0x4010_0000, 0x1_0000_0000, 0x1_4000_0000, false);
    let ok = mm.init(0x20_0000, 0x10_0000, 0x4000_0000);
    assert!(ok);
    assert_eq!(mm.kernel_start_address, 0x20_0000);
    assert_eq!(mm.kernel_end_address, 0x40_0000);
    assert_eq!(mm.heap_start_address, 0x1_0000_0000);
    assert_eq!(mm.heap_end_address, mm.heap_start_address + 0x80_0000);
    assert!(mm.user_heap_size > 0);
    assert!(mm.init_user_allocator());
    assert_eq!(
        mm.user_heap_end_address - mm.user_heap_start_address,
        mm.user_heap_size,
    );
}

#[test]
fn init_refuses_tiny_memory() {
    let mut mm = fresh_mm();
    let ok = mm.init(0x20_0000, 0x10_0000, 0x80_0000);
    assert!(!ok);
}

#[test]
fn fault_error_decoding() {
    let e = PageFaultError { bits: 0x8 };
    assert_eq!(e.mode(), "user");
    assert_eq!(e.cause(), "not present");
    assert_eq!(e.operation(), "read");
    let w = PageFaultError { bits: 0x4 | 0x2 };
    assert_eq!(w.mode(), "supervisor");
    assert_eq!(w.operation(), "write");
    assert_eq!(w.cause(), "protection");
    let f = PageFaultError { bits: 0x20 | 0x10 };
    assert_eq!(f.access(), "instruction");
    assert_eq!(f.operation(), "fetch");
    assert_eq!(f.reserved_remark(), "reserved bit");
}

#[test]
fn pkru_permission_fields() {
    // deny key 15 entirely: both bits of the top field
    assert_eq!(mpk_set_perm(0, 15, MpkPerm::MpkNone), 0xC000_0000);
    // read-only sets only the write-disable bit
    assert_eq!(mpk_set_perm(0, 15, MpkPerm::MpkRo), 0x8000_0000);
    // granting access again clears the field and keeps the others
    assert_eq!(mpk_set_perm(0xC000_000C, 15, MpkPerm::MpkRw), 0xC);
}

#[test]
fn semaphore_status_codes() {
    assert_eq!(sem::__sys_sem_init(0, 3), -22);
    assert_eq!(sem::__sys_sem_init(0x1000, 3), 0);
    assert_eq!(sem::__sys_sem_destroy(0), -22);
    assert_eq!(sem::__sys_sem_destroy(0x1000), 0);
    assert_eq!(sem::__sys_sem_post(0), -22);
    assert_eq!(sem::__sys_sem_post(0x1000), 0);
    assert_eq!(sem::__sys_sem_trywait(0x1000, false), -125);
    assert_eq!(sem::__sys_sem_trywait(0x1000, true), 0);
    assert_eq!(sem::__sys_sem_timedwait(0x1000, false), -62);
    assert_eq!(sem::sem_wakeup_time(100, 2), Some(2100));
    assert_eq!(sem::sem_wakeup_time(100, 0), None);
}

#[test]
fn gdt_layout_and_selectors() {
    let gdt = Gdt::init();
    assert_eq!(gdt.entries.len(), 8192);
    let null_lower = gdt.entries[0].lower;
    let null_upper = gdt.entries[0].upper;
    let code_upper = gdt.entries[1].upper;
    let data_upper = gdt.entries[2].upper;
    assert_eq!(null_lower, 0);
    assert_eq!(null_upper, 0);
    assert_eq!(code_upper, 0x0020_9A00, "64-bit ring 0 code segment");
    assert_eq!(data_upper, 0x0000_9200, "ring 0 data segment");
    assert_eq!(Gdt::tss_gdt_index(0), 3);
    assert_eq!(Gdt::tss_gdt_index(2), 7);
    let (_descriptor, selector) = Gdt::add_current_core(1, 0x5000);
    assert_eq!(selector, 5 << 3);
}

#[test]
fn ip_device_detection() {
    assert!(!has_ipdevice([255, 255, 255, 255]));
    assert!(has_ipdevice([10, 0, 2, 15]));
}

#[test]
fn flag_builder_composes() {
    let f = PageTableEntryFlags::empty().normal().writable().pkey(2).execute_disable();
    assert_eq!(f.bits, 0x2 | (2u64 << 59) | (1u64 << 63));
    let t = PageTableEntryFlags::from_bits_truncate(0xFFFF_FFFF_FFFF_FFFF);
    assert_eq!(t.bits & 0x600, 0, "bits outside the recognized mask are dropped");
    assert_eq!(t.bits & 0x1, 1);
}

#[test]
fn cmdline_mapping_is_read_only() {
    let mut mm = fresh_mm();
    let flush = mm.map_cmdline(0x9000_0100, 0x40);
    assert!(!flush, "a fresh command-line mapping owes no shootdown");
    let e = mm.root.get_page_table_entry(
        Page::including_address(0x9000_0100, PageSize::Base),
    ).unwrap();
    assert_eq!(e.physical_address_and_flags & 0x2, 0, "command line is not writable");
    assert_eq!(e.physical_address_and_flags >> 63, 1);
    assert_eq!(e.address(), 0x9000_0000);
}
