//! Physical and virtual address arithmetic: page alignment and the four
//! page-table index fields of a virtual address.

use vstd::prelude::*;

verus! {

use vstd::arithmetic::div_mod::{
    lemma_fundamental_div_mod,
    lemma_mod_bound,
    lemma_div_pos_is_pos,
};

/// Size of one physical frame and one virtual page, in bytes.
pub const PAGE_SIZE: u64 = 4096;

/// Number of 64-bit entries in one page table.
pub const ENTRY_COUNT: u64 = 512;

/// `addr` rounded down to a multiple of `align`.
pub open spec fn spec_align_down(addr: int, align: int) -> int
    recommends
        align > 0,
{
    addr - (addr % align)
}

/// `addr` rounded up to a multiple of `align`.
pub open spec fn spec_align_up(addr: int, align: int) -> int
    recommends
        align > 0,
{
    if addr % align == 0 {
        addr
    } else {
        addr - (addr % align) + align
    }
}

/// The remainder of a nonnegative value never exceeds the value.
proof fn lemma_mod_le_self(addr: int, align: int)
    requires
        0 <= addr,
        0 < align,
    ensures
        0 <= addr % align <= addr,
        addr - addr % align >= 0,
{
    lemma_fundamental_div_mod(addr, align);
    lemma_mod_bound(addr, align);
    lemma_div_pos_is_pos(addr, align);
    assert(align * (addr / align) >= 0) by (nonlinear_arith)
        requires
            align > 0,
            addr / align >= 0,
    ;
}

/// Rounds `addr` up to the next multiple of `align`.
pub fn align_up(addr: usize, align: usize) -> (r: usize)
    requires
        align > 0,
        addr + align <= usize::MAX,
    ensures
        r == spec_align_up(addr as int, align as int),
{
    proof {
        lemma_mod_le_self(addr as int, align as int);
    }
    let remainder: usize = addr % align;
    if remainder == 0 {
        addr
    } else {
        addr - remainder + align
    }
}

/// Rounds `addr` down to the previous multiple of `align`.
pub fn align_down(addr: u64, align: u64) -> (r: u64)
    requires
        align > 0,
    ensures
        r == spec_align_down(addr as int, align as int),
{
    proof {
        lemma_mod_le_self(addr as int, align as int);
    }
    addr - (addr % align)
}

/// True when `addr` is a multiple of the page size.
pub open spec fn page_aligned(addr: u64) -> bool {
    addr % PAGE_SIZE == 0
}

/// The page number holding `addr`: its index in the space of 4 KiB pages.
pub open spec fn spec_page_number(addr: u64) -> u64 {
    (addr / PAGE_SIZE) as u64
}

/// Page number of the page containing `addr`.
pub fn page_number(addr: u64) -> (r: u64)
    ensures
        r == spec_page_number(addr),
{
    addr / PAGE_SIZE
}

/// Level-4 index of a page number: bits 27..36.
pub open spec fn l4_index(pn: u64) -> int {
    (pn / 0x8000000) as int % 512
}

/// Level-3 index of a page number: bits 18..27.
pub open spec fn l3_index(pn: u64) -> int {
    (pn / 0x40000) as int % 512
}

/// Level-2 index of a page number: bits 9..18.
pub open spec fn l2_index(pn: u64) -> int {
    (pn / 0x200) as int % 512
}

/// Level-1 index of a page number: bits 0..9.
pub open spec fn l1_index(pn: u64) -> int {
    pn as int % 512
}

/// The four page-table indices of `pn`, highest level first.
pub fn page_indices(pn: u64) -> (r: (usize, usize, usize, usize))
    ensures
        r.0 == l4_index(pn),
        r.1 == l3_index(pn),
        r.2 == l2_index(pn),
        r.3 == l1_index(pn),
{
    let i4: usize = ((pn / 0x8000000) % 512) as usize;
    let i3: usize = ((pn / 0x40000) % 512) as usize;
    let i2: usize = ((pn / 0x200) % 512) as usize;
    let i1: usize = (pn % 512) as usize;
    proof {
        lemma_mod_bound((pn / 0x8000000) as int, 512);
        lemma_mod_bound((pn / 0x40000) as int, 512);
        lemma_mod_bound((pn / 0x200) as int, 512);
        lemma_mod_bound(pn as int, 512);
    }
    (i4, i3, i2, i1)
}

} // verus!
