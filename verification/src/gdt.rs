use vstd::prelude::*;
use x86::segmentation::{BuildDescriptor, CodeSegmentType, DataSegmentType, DescriptorBuilder,
    GateDescriptorBuilder, SegmentDescriptorBuilder};

verus! {

/// Index of the mandatory null descriptor.
pub const GDT_NULL: u16 = 0;

/// Index of the 64-bit kernel code segment.
pub const GDT_KERNEL_CODE: u16 = 1;

/// Index of the kernel data segment.
pub const GDT_KERNEL_DATA: u16 = 2;

/// First index used for the per-core task state segments.
pub const GDT_FIRST_TSS: u16 = 3;

/// The table is allocated large enough for the maximum number of entries.
pub const GDT_ENTRIES: usize = 8192;

/// Size in bytes of a kernel boot stack.
pub const KERNEL_STACK_SIZE: u64 = 0x8000;

/// Size in bytes of an ordinary task stack.
pub const DEFAULT_STACK_SIZE: u64 = 0x40000;

/// Size in bytes of a 64-bit task state segment.
pub const TSS_BYTES: u64 = 0x68;

#[verifier::external_type_specification]
pub struct ExDescriptor(x86::segmentation::Descriptor);

#[verifier::external_type_specification]
#[verifier::external_body]
pub struct ExDescriptor64(x86::bits64::segmentation::Descriptor64);

/// Relies on x86's `Descriptor::NULL`: both words of the null descriptor
/// are zero.
#[verifier::external_body]
fn descriptor_null() -> (r: x86::segmentation::Descriptor)
    ensures
        r.lower == 0,
        r.upper == 0,
{
    x86::segmentation::Descriptor::NULL
}

/// Relies on x86's descriptor builder: a 64-bit execute/read code segment
/// descriptor with base and limit zero, present, privilege level zero and
/// the long-mode bit set assembles to the canonical word below.
#[verifier::external_body]
fn kernel_code_descriptor() -> (r: x86::segmentation::Descriptor)
    ensures
        r.lower == 0,
        r.upper == 0x0020_9A00,
{
    DescriptorBuilder::code_descriptor(0, 0, CodeSegmentType::ExecuteRead)
        .present()
        .dpl(x86::Ring::Ring0)
        .l()
        .finish()
}

/// Relies on x86's descriptor builder: a read/write data segment
/// descriptor with base and limit zero, present, privilege level zero.
#[verifier::external_body]
fn kernel_data_descriptor() -> (r: x86::segmentation::Descriptor)
    ensures
        r.lower == 0,
        r.upper == 0x0000_9200,
{
    DescriptorBuilder::data_descriptor(0, 0, DataSegmentType::ReadWrite)
        .present()
        .dpl(x86::Ring::Ring0)
        .finish()
}

/// Relies on x86's descriptor builder for an available 64-bit TSS
/// descriptor at privilege level zero; the two-word system descriptor is
/// handed back opaquely for the platform layer to install.
#[verifier::external_body]
fn tss_descriptor(base: u64, limit: u64) -> (r: x86::bits64::segmentation::Descriptor64)
{
    let b: DescriptorBuilder = GateDescriptorBuilder::<u64>::tss_descriptor(base, limit, true);
    b.present().dpl(x86::Ring::Ring0).finish()
}

/// Relies on x86's `SegmentSelector::new` and `bits`: a selector is the
/// table index shifted left by three with the requested privilege level in
/// the low bits.
#[verifier::external_body]
fn segment_selector_bits(index: u16, ring0: bool) -> (r: u16)
    ensures
        ring0 ==> r == index << 3,
        !ring0 ==> r == (index << 3) | 3,
{
    let ring = if ring0 {
        x86::Ring::Ring0
    } else {
        x86::Ring::Ring3
    };
    x86::segmentation::SegmentSelector::new(index, ring).bits()
}

/// The global descriptor table as the kernel composes it: the raw entries,
/// ready for the platform layer to point GDTR at.
pub struct Gdt {
    /// The descriptor slots; two consecutive slots hold a TSS descriptor.
    pub entries: Vec<x86::segmentation::Descriptor>,
}

impl Gdt {
    /// The fixed descriptors of every boot: a null descriptor, then the
    /// 64-bit kernel code and kernel data segments; everything else empty.
    pub fn init() -> (r: Gdt)
        ensures
            r.entries.len() == GDT_ENTRIES,
            r.entries@[GDT_NULL as int].lower == 0 && r.entries@[GDT_NULL as int].upper == 0,
            r.entries@[GDT_KERNEL_CODE as int].lower == 0,
            r.entries@[GDT_KERNEL_CODE as int].upper == 0x0020_9A00,
            r.entries@[GDT_KERNEL_DATA as int].lower == 0,
            r.entries@[GDT_KERNEL_DATA as int].upper == 0x0000_9200,
            forall|i: int|
                3 <= i < GDT_ENTRIES ==> (#[trigger] r.entries@[i]).lower == 0
                    && r.entries@[i].upper == 0,
    {
        let mut entries: Vec<x86::segmentation::Descriptor> = Vec::new();
        let mut j: usize = 0;
        while j < GDT_ENTRIES
            invariant
                entries.len() == j,
                j <= GDT_ENTRIES,
                forall|i: int|
                    0 <= i < j ==> (#[trigger] entries@[i]).lower == 0 && entries@[i].upper
                        == 0,
            decreases GDT_ENTRIES - j,
        {
            entries.push(descriptor_null());
            j = j + 1;
        }
        entries.set(GDT_KERNEL_CODE as usize, kernel_code_descriptor());
        entries.set(GDT_KERNEL_DATA as usize, kernel_data_descriptor());
        Gdt { entries }
    }

    /// The descriptor-table slot a core's TSS occupies (it spans two
    /// slots).
    pub fn tss_gdt_index(core_id: u32) -> (r: u64)
        ensures
            r == GDT_FIRST_TSS + core_id * 2,
    {
        GDT_FIRST_TSS as u64 + (core_id as u64) * 2
    }

    /// The TSS descriptor and segment selector for one core, ready to be
    /// installed at `tss_gdt_index(core_id)`: the descriptor covers the
    /// core's task state segment, and the selector addresses it at
    /// privilege level zero.
    pub fn add_current_core(core_id: u32, tss_base: u64)
        -> (r: (x86::bits64::segmentation::Descriptor64, u16))
        requires
            core_id < 4094,
            tss_base + TSS_BYTES <= u64::MAX,
        ensures
            r.1 == ((GDT_FIRST_TSS + core_id * 2) as u16) << 3,
    {
        let index = Self::tss_gdt_index(core_id);
        let descriptor = tss_descriptor(tss_base, tss_base + TSS_BYTES - 1);
        let selector = segment_selector_bits(index as u16, true);
        (descriptor, selector)
    }
}

/// The top-of-stack value loaded into a task state segment: the last
/// sixteen-byte aligned slot of the stack.
pub fn stack_top(stack_base: u64, stack_size: u64) -> (r: u64)
    requires
        stack_size >= 0x10,
        stack_base + stack_size <= u64::MAX,
    ensures
        r == stack_base + stack_size - 0x10,
{
    stack_base + stack_size - 0x10
}

/// The stack size the scheduler gives a task when its kernel stack is
/// reloaded: the boot stack for the idle task, the ordinary size for
/// every other task.
pub fn set_current_kernel_stack(is_idle_task: bool) -> (r: u64)
    ensures
        is_idle_task ==> r == KERNEL_STACK_SIZE,
        !is_idle_task ==> r == DEFAULT_STACK_SIZE,
{
    if is_idle_task {
        KERNEL_STACK_SIZE
    } else {
        DEFAULT_STACK_SIZE
    }
}

} // verus!
