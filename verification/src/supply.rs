use vstd::prelude::*;

verus! {

/// Failure of a range supplier.
#[derive(Clone, Copy, PartialEq, Eq, Structural, Debug)]
pub enum AllocError {
    /// The arena has no room left for the request.
    OutOfMemory,
}

/// `x` rounded up to the next multiple of `a`.
pub open spec fn spec_align_up(x: int, a: int) -> int {
    x + ((a - x % a) % a)
}

/// Rounding up to a multiple of `a` lands on a multiple of `a`, stays a
/// multiple of `b` when both the start and `a` are, and moves less than `a`.
proof fn lemma_align_up_properties(w: int, a: int, b: int)
    requires
        0 < b,
        0 < a,
        a % b == 0,
        w % b == 0,
        0 <= w,
    ensures
        spec_align_up(w, a) % a == 0,
        spec_align_up(w, a) % b == 0,
        w <= spec_align_up(w, a) < w + a,
{
    let k = a / b;
    vstd::arithmetic::div_mod::lemma_fundamental_div_mod(a, b);
    assert(a == b * k);
    let m = w % a;
    let q = w / a;
    vstd::arithmetic::div_mod::lemma_fundamental_div_mod(w, a);
    vstd::arithmetic::div_mod::lemma_mod_pos_bound(w, a);
    vstd::arithmetic::div_mod::lemma_mod_mod(w, b, k);
    assert(m % b == 0);
    let pad = (a - m) % a;
    if m == 0 {
        assert(a % a == 0) by {
            vstd::arithmetic::div_mod::lemma_mod_self_0(a);
        }
        assert(pad == 0);
        assert(spec_align_up(w, a) == w);
    } else {
        vstd::arithmetic::div_mod::lemma_small_mod((a - m) as nat, a as nat);
        assert(pad == a - m);
        assert(w + pad == (q + 1) * a) by (nonlinear_arith)
            requires
                w == a * q + m,
                pad == a - m,
        ;
        vstd::arithmetic::div_mod::lemma_mod_multiples_basic(q + 1, a);
        assert(spec_align_up(w, a) % a == 0);
        vstd::arithmetic::div_mod::lemma_small_mod(0nat, b as nat);
        vstd::arithmetic::div_mod::lemma_sub_mod_noop(a, m, b);
        assert(((a % b) - (m % b)) % b == (a - m) % b);
        assert(pad % b == 0);
    }
    vstd::arithmetic::div_mod::lemma_add_mod_noop(w, pad, b);
    assert(spec_align_up(w, a) % b == 0);
}

/// Rounding up to a page boundary is the familiar add-then-divide formula.
pub proof fn lemma_align_up_page(x: int)
    requires
        0 <= x,
    ensures
        spec_align_up(x, 0x1000) == ((x + 0xFFF) / 0x1000) * 0x1000,
        spec_align_up(x, 0x1000) % 0x1000 == 0,
        x <= spec_align_up(x, 0x1000) < x + 0x1000,
        x >= 1 ==> spec_align_up(x, 0x1000) >= 0x1000,
{
    lemma_align_up_formula(x, 0x1000);
}

/// The same formula at any positive alignment.
pub proof fn lemma_align_up_formula(x: int, a: int)
    requires
        0 <= x,
        0 < a,
    ensures
        spec_align_up(x, a) == ((x + a - 1) / a) * a,
        spec_align_up(x, a) % a == 0,
        x <= spec_align_up(x, a) < x + a,
        x >= 1 ==> spec_align_up(x, a) >= a,
{
    let q = x / a;
    let r = x % a;
    vstd::arithmetic::div_mod::lemma_fundamental_div_mod(x, a);
    vstd::arithmetic::div_mod::lemma_mod_pos_bound(x, a);
    vstd::arithmetic::div_mod::lemma_hoist_over_denominator(r + a - 1, q, a as nat);
    assert((r + a - 1) + q * a == x + a - 1);
    assert((x + a - 1) / a == (r + a - 1) / a + q);
    if r == 0 {
        vstd::arithmetic::div_mod::lemma_basic_div(r + a - 1, a);
        vstd::arithmetic::div_mod::lemma_mod_self_0(a);
        assert(spec_align_up(x, a) == x);
        assert((x + a - 1) / a == q);
        assert(q * a == x) by (nonlinear_arith)
            requires
                x == a * q + 0,
        ;
        if x >= 1 {
            assert(x >= a) by (nonlinear_arith)
                requires
                    x == a * q + 0,
                    x >= 1,
                    a > 0,
                    q >= 0,
            ;
        }
        vstd::arithmetic::div_mod::lemma_div_pos_is_pos(x, a);
    } else {
        vstd::arithmetic::div_mod::lemma_hoist_over_denominator(r - 1, 1, a as nat);
        vstd::arithmetic::div_mod::lemma_basic_div(r - 1, a);
        assert((r + a - 1) / a == 1);
        assert((x + a - 1) / a == q + 1);
        vstd::arithmetic::div_mod::lemma_small_mod((a - r) as nat, a as nat);
        assert(spec_align_up(x, a) == x + a - r);
        assert((q + 1) * a == x + a - r) by (nonlinear_arith)
            requires
                x == a * q + r,
        ;
        vstd::arithmetic::div_mod::lemma_mod_multiples_basic(q + 1, a);
    }
}

/// Between a 4 KiB-aligned watermark and its next multiple of a whole-page
/// alignment lies at least one page of slack, unless they coincide.
pub proof fn lemma_aligned_gap(next: int, a: int, chunk: int)
    requires
        next % 0x1000 == 0,
        chunk % 0x1000 == 0,
        chunk >= 0x1000,
        0 <= next,
        a == spec_align_up(next, chunk),
    ensures
        a <= next + chunk - 0x1000,
{
    lemma_align_up_properties(next, chunk, 0x1000);
    let d = next + chunk - a;
    assert(d % 0x1000 == 0) by {
        vstd::arithmetic::div_mod::lemma_sub_mod_noop(next + chunk, a, 0x1000);
        vstd::arithmetic::div_mod::lemma_add_mod_noop(next, chunk, 0x1000);
        vstd::arithmetic::div_mod::lemma_small_mod(0nat, 0x1000);
    }
    vstd::arithmetic::div_mod::lemma_fundamental_div_mod(d, 0x1000);
    vstd::arithmetic::div_mod::lemma_div_pos_is_pos(d, 0x1000);
    assert(d >= 0x1000) by (nonlinear_arith)
        requires
            d == 0x1000 * (d / 0x1000) + 0,
            d > 0,
            d / 0x1000 >= 0,
    ;
}

/// A supplier of aligned address ranges, watermark based: every range it
/// hands out lies above every range handed out before, so all outstanding
/// allocations are disjoint by construction. Freed ranges are accounted for
/// but not reused.
pub struct BumpAllocator {
    /// First byte of the arena.
    pub arena_start: u64,
    /// First byte that has never been handed out (the watermark).
    pub next: u64,
    /// First byte past the arena.
    pub arena_end: u64,
    /// Total bytes handed back through `deallocate`.
    pub freed: u64,
    /// The start of the range most recently handed back.
    pub last_freed_address: u64,
}

impl BumpAllocator {
    /// The watermark stays inside the arena and on a 4 KiB boundary.
    pub open spec fn wf(self) -> bool {
        &&& self.arena_start <= self.next <= self.arena_end
        &&& self.next % 0x1000 == 0
    }

    /// Bytes not yet handed out.
    pub open spec fn free_bytes(self) -> int {
        self.arena_end - self.next
    }

    /// Whether a request of `size` bytes at alignment `align` fits.
    pub open spec fn fits(self, size: int, align: int) -> bool {
        spec_align_up(self.next as int, align) + size <= self.arena_end
    }

    /// A fresh supplier over `[arena_start, arena_end)`.
    pub fn new(arena_start: u64, arena_end: u64) -> (r: BumpAllocator)
        requires
            arena_start <= arena_end,
            arena_start % 0x1000 == 0,
        ensures
            r.wf(),
            r.arena_start == arena_start,
            r.next == arena_start,
            r.arena_end == arena_end,
            r.freed == 0,
            r.last_freed_address == 0,
    {
        BumpAllocator {
            arena_start,
            next: arena_start,
            arena_end,
            freed: 0,
            last_freed_address: 0,
        }
    }

    /// Hand out `size` bytes aligned to `alignment`. The start of the range
    /// is the watermark rounded up to the alignment; on success the
    /// watermark moves past the range, so the range is disjoint from every
    /// earlier one. Fails exactly when the arena has no room for the
    /// aligned range.
    pub fn allocate_aligned(&mut self, size: u64, alignment: u64) -> (r: Result<u64, AllocError>)
        requires
            old(self).wf(),
            size % 0x1000 == 0,
            alignment % 0x1000 == 0,
            alignment > 0,
            alignment <= u64::MAX - old(self).arena_end,
        ensures
            final(self).arena_start == old(self).arena_start,
            final(self).arena_end == old(self).arena_end,
            final(self).freed == old(self).freed,
            final(self).wf(),
            r is Ok <==> old(self).fits(size as int, alignment as int),
            r matches Ok(a) ==> {
                &&& a == spec_align_up(old(self).next as int, alignment as int)
                &&& a % alignment == 0
                &&& old(self).next <= a
                &&& a + size <= old(self).arena_end
                &&& final(self).next == a + size
            },
            r is Err ==> final(self).next == old(self).next,
    {
        let ghost watermark: u64 = self.next;
        proof {
            lemma_align_up_properties(watermark as int, alignment as int, 0x1000);
        }
        let pad: u64 = (alignment - self.next % alignment) % alignment;
        let aligned: u64 = self.next + pad;
        proof {
            assert(aligned == spec_align_up(watermark as int, alignment as int));
        }
        if aligned <= self.arena_end && size <= self.arena_end - aligned {
            self.next = aligned + size;
            Ok(aligned)
        } else {
            Err(AllocError::OutOfMemory)
        }
    }

    /// Hand out `size` bytes at the default 4 KiB page alignment.
    pub fn allocate(&mut self, size: u64) -> (r: Result<u64, AllocError>)
        requires
            old(self).wf(),
            size % 0x1000 == 0,
            0x1000 <= u64::MAX - old(self).arena_end,
        ensures
            final(self).arena_start == old(self).arena_start,
            final(self).arena_end == old(self).arena_end,
            final(self).freed == old(self).freed,
            final(self).wf(),
            r is Ok <==> old(self).free_bytes() >= size,
            r matches Ok(a) ==> {
                &&& a == old(self).next
                &&& a % 0x1000 == 0
                &&& a + size <= old(self).arena_end
                &&& final(self).next == a + size
            },
            r is Err ==> final(self).next == old(self).next,
    {
        proof {
            let watermark: u64 = self.next;
            assert(watermark % 0x1000 == 0 ==> (0x1000 - watermark % 0x1000) % 0x1000 == 0)
                by (nonlinear_arith);
            assert(spec_align_up(watermark as int, 0x1000) == watermark);
        }
        self.allocate_aligned(size, 0x1000)
    }

    /// Hand a range back. The watermark design reclaims nothing; the bytes
    /// are only accounted for, saturating at the counter's maximum.
    pub fn deallocate(&mut self, address: u64, size: u64)
        ensures
            final(self).arena_start == old(self).arena_start,
            final(self).next == old(self).next,
            final(self).arena_end == old(self).arena_end,
            final(self).freed == if old(self).freed + size <= u64::MAX {
                (old(self).freed + size) as u64
            } else {
                u64::MAX
            },
            final(self).last_freed_address == address,
    {
        self.last_freed_address = address;
        if size <= u64::MAX - self.freed {
            self.freed = self.freed + size;
        } else {
            self.freed = u64::MAX;
        }
    }

    /// The numbers `print_information` reports: arena bounds, watermark and
    /// freed-byte count.
    pub fn information(&self) -> (r: (u64, u64, u64, u64))
        ensures
            r == (self.arena_start, self.next, self.arena_end, self.freed),
    {
        (self.arena_start, self.next, self.arena_end, self.freed)
    }
}

} // verus!
