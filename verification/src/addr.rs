//! Physical and virtual addresses and page numbers for Sv39 paging.
//!
//! All values are 64-bit machine words of the rv64 target. A physical
//! address has 56 bits, a physical page number 44; a virtual address has
//! 39 bits, a virtual page number 27. A virtual page number decomposes
//! into three 9-bit level indexes, high bits first.
use vstd::prelude::*;

verus! {

pub const PAGE_SIZE: u64 = 4096;
pub const PAGE_SIZE_BITS: u64 = 12;
pub const PAGE_OFFSET_MASK: u64 = 0xfff;

/// Highest virtual page: the trampoline's fixed address.
pub const TRAMPOLINE: u64 = 0xffff_ffff_ffff_f000;

/// The trap context page sits just below the trampoline.
pub const TRAP_CONTEXT: u64 = TRAMPOLINE - PAGE_SIZE;

/// End of usable physical memory.
pub const MEMORY_END: u64 = 0x90000000;

/// Timer ticks per second of the platform clock.
pub const TIME_FREQUENCY: u64 = 12500000;

pub const RISCV_PA_WIDTH: u64 = 56;
pub const RISCV_PPN_WIDTH: u64 = 44;
pub const RISCV_VA_WIDTH: u64 = 39;
pub const RISCV_VPN_WIDTH: u64 = 27;

/// Low 56 bits: the range of a physical address.
pub const RISCV_PA_MASK: u64 = 0x00ff_ffff_ffff_ffff;

/// Low 44 bits: the range of a physical page number.
pub const RISCV_PPN_MASK: u64 = 0xfff_ffff_ffff;

/// Low 39 bits: the range of a virtual address.
pub const RISCV_VA_MASK: u64 = 0x7f_ffff_ffff;

/// Low 27 bits: the range of a virtual page number.
pub const RISCV_VPN_MASK: u64 = 0x7ff_ffff;

/// One more than the largest physical address.
pub open spec fn pa_limit() -> int {
    0x100_0000_0000_0000
}

/// One more than the largest virtual address.
pub open spec fn va_limit() -> int {
    0x80_0000_0000
}

/// One more than the largest virtual page number.
pub open spec fn vpn_limit() -> int {
    0x800_0000
}

/// One more than the largest physical page number.
pub open spec fn ppn_limit() -> int {
    0x1000_0000_0000
}

#[derive(Clone, Copy, PartialEq, Eq, Structural, Debug)]
pub struct PhysAddr(pub u64);

#[derive(Clone, Copy, PartialEq, Eq, Structural, Debug)]
pub struct PhysPageNumber(pub u64);

#[derive(Clone, Copy, PartialEq, Eq, Structural, Debug)]
pub struct VirtAddr(pub u64);

#[derive(Clone, Copy, PartialEq, Eq, Structural, Debug)]
pub struct VirtPageNumber(pub u64);

impl PhysAddr {
    /// Keeps the low 56 bits of `val`.
    pub fn new(val: u64) -> (r: Self)
        ensures
            r.0 == val % (pa_limit() as u64),
            r.0 <= val,
    {
        proof {
            assert(val & 0x00ff_ffff_ffff_ffffu64 == val % 0x100_0000_0000_0000u64 && val
                & 0x00ff_ffff_ffff_ffffu64 <= val) by (bit_vector);
        }
        Self(val & RISCV_PA_MASK)
    }

    /// Offset of the address within its page.
    pub fn page_offset(&self) -> (r: u64)
        ensures
            r == self.0 % (PAGE_SIZE as u64),
    {
        proof {
            let v = self.0;
            assert(v & 0xfffu64 == v % 4096u64) by (bit_vector);
        }
        self.0 & PAGE_OFFSET_MASK
    }

    /// Page number of the page holding this address.
    pub fn floor(&self) -> (r: PhysPageNumber)
        ensures
            r.0 == self.0 / (PAGE_SIZE as u64),
    {
        PhysPageNumber(self.0 / PAGE_SIZE)
    }

    /// Page number of the first page boundary at or above this address.
    pub fn ceil(&self) -> (r: PhysPageNumber)
        requires
            self.0 < pa_limit(),
        ensures
            r.0 == (self.0 + PAGE_SIZE - 1) / (PAGE_SIZE as int),
    {
        PhysPageNumber((self.0 + PAGE_SIZE - 1) / PAGE_SIZE)
    }
}

impl VirtAddr {
    /// Keeps the low 39 bits of `val`.
    pub fn new(val: u64) -> (r: Self)
        ensures
            r.0 == val % (va_limit() as u64),
            r.0 <= val,
            r.0 < va_limit(),
    {
        proof {
            assert(val & 0x7f_ffff_ffffu64 == val % 0x80_0000_0000u64 && val & 0x7f_ffff_ffffu64
                <= val && val & 0x7f_ffff_ffffu64 < 0x80_0000_0000u64) by (bit_vector);
        }
        Self(val & RISCV_VA_MASK)
    }

    /// Offset of the address within its page.
    pub fn page_offset(&self) -> (r: u64)
        ensures
            r == self.0 % (PAGE_SIZE as u64),
    {
        proof {
            let v = self.0;
            assert(v & 0xfffu64 == v % 4096u64) by (bit_vector);
        }
        self.0 & PAGE_OFFSET_MASK
    }

    /// Page number of the page holding this address.
    pub fn floor(&self) -> (r: VirtPageNumber)
        ensures
            r.0 == self.0 / (PAGE_SIZE as u64),
    {
        VirtPageNumber(self.0 / PAGE_SIZE)
    }

    /// Page number of the first page boundary at or above this address.
    pub fn ceil(&self) -> (r: VirtPageNumber)
        requires
            self.0 < va_limit(),
        ensures
            r.0 == (self.0 + PAGE_SIZE - 1) / (PAGE_SIZE as int),
    {
        VirtPageNumber((self.0 + PAGE_SIZE - 1) / PAGE_SIZE)
    }

    /// Base address of a virtual page: the page number shifted up.
    pub fn from_vpn(vpn: VirtPageNumber) -> (r: Self)
        requires
            vpn.0 < vpn_limit(),
        ensures
            r.0 == vpn.0 * (PAGE_SIZE as int),
    {
        proof {
            let v = vpn.0;
            assert(v < 0x800_0000u64 ==> (v << 12u64) == v * 4096) by (bit_vector);
        }
        Self(vpn.0 << PAGE_SIZE_BITS)
    }
}

impl PhysPageNumber {
    /// Base physical address of the page.
    pub fn get_base_address(&self) -> (r: u64)
        requires
            self.0 < ppn_limit(),
        ensures
            r == self.0 * (PAGE_SIZE as int),
    {
        proof {
            let v = self.0;
            assert(v < 0x1000_0000_0000u64 ==> (v << 12u64) == v * 4096) by (bit_vector);
        }
        self.0 << PAGE_SIZE_BITS
    }

    /// Physical address at `page_offset` within the page.
    pub fn as_phys_addr(&self, page_offset: u64) -> (r: PhysAddr)
        requires
            self.0 < ppn_limit(),
            page_offset < PAGE_SIZE,
        ensures
            r.0 == self.0 * (PAGE_SIZE as int) + page_offset,
    {
        let base = self.get_base_address();
        PhysAddr(base + page_offset)
    }
}

impl VirtPageNumber {
    /// The three 9-bit page-table indexes of this page number, high bits
    /// first: `[L2, L1, L0]`.
    pub fn level_indexes(&self) -> (r: [u64; 3])
        ensures
            r[0] == (self.0 as int / 0x40000) % 512,
            r[1] == (self.0 as int / 0x200) % 512,
            r[2] == self.0 as int % 512,
            r[0] < 512 && r[1] < 512 && r[2] < 512,
    {
        let v = self.0;
        proof {
            assert(((v >> 18u64) & 511) == (v / 0x40000u64) % 512 && ((v >> 9u64) & 511) == (v
                / 0x200u64) % 512 && (v & 511) == v % 512) by (bit_vector);
        }
        [(v >> 18) & 511, (v >> 9) & 511, v & 511]
    }

    /// Advance to the next page number.
    pub fn step(&mut self)
        requires
            old(self).0 < u64::MAX,
        ensures
            final(self).0 == old(self).0 + 1,
    {
        self.0 = self.0 + 1;
    }
}

/// The three level indexes, concatenated high to low, recover the low 27
/// bits of the page number.
pub proof fn lemma_level_indexes_recompose(vpn: VirtPageNumber)
    ensures
        ((vpn.0 as int / 0x40000) % 512) * 0x40000 + ((vpn.0 as int / 0x200) % 512) * 0x200 + (
        vpn.0 as int % 512) == vpn.0 as int % vpn_limit(),
{
    let v = vpn.0;
    assert(((v / 0x40000u64) % 512) * 0x40000 + ((v / 0x200u64) % 512) * 0x200 + (v % 512) == v
        % 0x800_0000u64) by (bit_vector);
}

/// A page-aligned physical address is exactly its page number times the
/// page size.
pub proof fn lemma_aligned_floor_roundtrip(pa: PhysAddr)
    requires
        pa.0 % (PAGE_SIZE as u64) == 0,
    ensures
        (pa.0 as int / PAGE_SIZE as int) * (PAGE_SIZE as int) == pa.0 as int,
{
    assert((pa.0 as int / 4096) * 4096 == pa.0 as int - pa.0 as int % 4096);
}

/// Stepping through page numbers one at a time.
pub trait StepByOne {
    fn step_one(&mut self);
}

impl StepByOne for VirtPageNumber {
    fn step_one(&mut self) {
        if self.0 < u64::MAX {
            self.0 = self.0 + 1;
        }
    }
}

/// A half-open range of virtual page numbers.
#[derive(Clone, Copy, PartialEq, Eq, Structural, Debug)]
pub struct SimpleRange {
    pub l: VirtPageNumber,
    pub r: VirtPageNumber,
}

pub type VPNRange = SimpleRange;

impl SimpleRange {
    pub fn new(start: VirtPageNumber, end: VirtPageNumber) -> (r: Self)
        ensures
            r.l == start,
            r.r == end,
    {
        Self { l: start, r: end }
    }

    pub fn get_start(&self) -> (r: VirtPageNumber)
        ensures
            r == self.l,
    {
        self.l
    }

    pub fn get_end(&self) -> (r: VirtPageNumber)
        ensures
            r == self.r,
    {
        self.r
    }

    pub open spec fn spec_start(self) -> u64 {
        self.l.0
    }

    pub open spec fn spec_end(self) -> u64 {
        self.r.0
    }

    /// Whether `vpn` lies in the half-open range.
    pub open spec fn contains_vpn(self, vpn: int) -> bool {
        self.l.0 <= vpn < self.r.0
    }
}

/// Walks a `SimpleRange` from start to end, one page at a time.
pub struct SimpleRangeIterator {
    pub current: VirtPageNumber,
    pub end: VirtPageNumber,
}

impl SimpleRangeIterator {
    pub fn new(l: VirtPageNumber, r: VirtPageNumber) -> (it: Self)
        ensures
            it.current == l,
            it.end == r,
    {
        Self { current: l, end: r }
    }

    pub open spec fn spec_current(self) -> VirtPageNumber {
        self.current
    }

    pub open spec fn spec_end(self) -> VirtPageNumber {
        self.end
    }

    /// The next page number, or `None` once the end is reached.
    pub fn next(&mut self) -> (r: Option<VirtPageNumber>)
        requires
            old(self).current.0 <= old(self).end.0,
        ensures
            final(self).end == old(self).end,
            old(self).current.0 == old(self).end.0 ==> r is None && *final(self) == *old(self),
            old(self).current.0 < old(self).end.0 ==> r == Some(old(self).current) && final(self).current.0
                == old(self).current.0 + 1,
    {
        if self.current.0 == self.end.0 {
            None
        } else {
            let t = self.current;
            self.current.step();
            Some(t)
        }
    }
}

} // verus!
