//! ELF64 program loading: validating an image, mapping its `PT_LOAD`
//! segments into a target address space, copying the file bytes,
//! zero-filling the BSS and applying `R_X86_64_RELATIVE` relocations.
//!
//! The image is a plain byte slice; everything the loader does to memory
//! goes through the verified page tables and data frames, so the contract
//! can say exactly which byte every loaded virtual address holds.

use vstd::prelude::*;

verus! {

use vstd::arithmetic::div_mod::{
    lemma_fundamental_div_mod,
    lemma_fundamental_div_mod_converse,
    lemma_mod_bound,
};
use crate::addr::PAGE_SIZE;
use crate::frame::{PhysFrameAllocator, count_free};
use crate::mem::{PhysMemory, byte_at, frame_base, has_frame, read_virt, write_virt_byte};
use crate::page_table::{
    ADDR_MASK,
    MapError,
    walk,
    no_huge_entries,
    entry_flags,
    PageTables,
    PRESENT,
    WRITABLE,
    USER_ACCESSIBLE,
    NO_EXECUTE,
    normal_pn,
    spec_translate,
    tables_linked,
    lemma_translate_addr_bound,
    lemma_index_bounds,
};

/// How loading an image can fail.
#[derive(Clone, Copy, Debug, PartialEq, Eq, Structural)]
pub enum ElfError {
    /// The four magic bytes are missing.
    BadMagic,
    /// Not a little-endian ELF64 executable for x86_64, or a malformed
    /// header table.
    UnsupportedClass,
    /// A relocation of a kind other than `R_X86_64_RELATIVE`, or one
    /// aimed at unmapped memory.
    BadRelocation,
    /// A segment would map a page that is already mapped — another
    /// segment's page or the kernel half.
    SegmentOverlap,
    /// The frame allocator ran out of frames.
    FrameAllocationFailed,
}

/// The 16-bit little-endian value at `off`.
pub open spec fn le16(b: Seq<u8>, off: int) -> int {
    b[off] + 0x100 * b[off + 1]
}

/// The 32-bit little-endian value at `off`.
pub open spec fn le32(b: Seq<u8>, off: int) -> int {
    le16(b, off) + 0x10000 * le16(b, off + 2)
}

/// The 64-bit little-endian value at `off`.
pub open spec fn le64(b: Seq<u8>, off: int) -> int {
    le32(b, off) + 0x1_0000_0000 * le32(b, off + 4)
}

/// Reads the 16-bit little-endian value at `off`.
pub fn read_u16(b: &Vec<u8>, off: usize) -> (r: u16)
    requires
        off + 2 <= b@.len(),
    ensures
        r == le16(b@, off as int),
{
    let n = b.len();
    (b[off] as u16) + 0x100 * (b[off + 1] as u16)
}

/// Reads the 32-bit little-endian value at `off`.
pub fn read_u32(b: &Vec<u8>, off: usize) -> (r: u32)
    requires
        off + 4 <= b@.len(),
    ensures
        r == le32(b@, off as int),
{
    let n = b.len();
    (read_u16(b, off) as u32) + 0x10000 * (read_u16(b, off + 2) as u32)
}

/// Reads the 64-bit little-endian value at `off`.
pub fn read_u64(b: &Vec<u8>, off: usize) -> (r: u64)
    requires
        off + 8 <= b@.len(),
    ensures
        r == le64(b@, off as int),
{
    let n = b.len();
    (read_u32(b, off) as u64) + 0x1_0000_0000 * (read_u32(b, off + 4) as u64)
}

/// Copies an image into an owned, aligned buffer.
pub fn align_bin(bin: &Vec<u8>) -> (r: Vec<u8>)
    ensures
        r@ == bin@,
{
    let mut v: Vec<u8> = Vec::new();
    let n = bin.len();
    let mut i: usize = 0;
    while i < n
        invariant
            i <= n,
            n == bin@.len(),
            v@ == bin@.subrange(0, i as int),
        decreases n - i,
    {
        v.push(bin[i]);
        i = i + 1;
    }
    proof {
        assert(v@ =~= bin@);
    }
    v
}

/// The well-formedness carried through every loader step.
pub open spec fn loader_inv(
    pt: PageTables,
    fa: PhysFrameAllocator,
    mem: PhysMemory,
    root: u64,
) -> bool {
    &&& pt.wf()
    &&& fa.wf()
    &&& mem.wf()
    &&& pt.is_root(root)
    &&& tables_linked(pt.tables@, fa)
    &&& mem_linked(mem.frames@, fa)
}

/// Every data frame inside the allocator's range is marked allocated, so
/// a fresh frame never collides with an existing data frame.
pub open spec fn mem_linked(ms: Seq<crate::mem::DataFrame>, fa: PhysFrameAllocator) -> bool {
    forall|i: int|
        0 <= i < ms.len() && fa.in_range((#[trigger] ms[i]).addr) ==> fa.bits()[fa.index_of(
            ms[i].addr,
        )]
}

/// The first page of the segment at `vaddr`.
pub open spec fn seg_first_page(vaddr: u64) -> int {
    vaddr as int / PAGE_SIZE as int
}

/// The last page of the segment at `vaddr` spanning `memsz` bytes.
pub open spec fn seg_last_page(vaddr: u64, memsz: u64) -> int {
    (vaddr + memsz - 1) / PAGE_SIZE as int
}

/// Page `p` lies in the segment's page run.
pub open spec fn in_seg_run(vaddr: u64, memsz: u64, p: u64) -> bool {
    seg_first_page(vaddr) <= p <= seg_last_page(vaddr, memsz)
}

/// What the memory holds at `va` after a segment load: the file byte for
/// the file-backed prefix, zero for the BSS tail.
pub open spec fn segment_byte(b: Seq<u8>, off: int, filesz: int, j: int) -> u8 {
    if j < filesz {
        b[off + j]
    } else {
        0
    }
}

/// Maps the pages of `[vaddr, vaddr + memsz)` to fresh zeroed frames and
/// copies the file bytes in.  Afterwards every byte of the segment reads
/// back exactly; every virtual address that read a byte before reads the
/// same byte; and every byte of a pre-existing data frame is untouched.
#[verifier::rlimit(100)]
pub fn load_segment(
    pt: &mut PageTables,
    fa: &mut PhysFrameAllocator,
    mem: &mut PhysMemory,
    root: u64,
    bin: &Vec<u8>,
    off: u64,
    filesz: u64,
    vaddr: u64,
    memsz: u64,
    flags: u64,
) -> (r: Result<(), ElfError>)
    requires
        loader_inv(*old(pt), *old(fa), *old(mem), root),
        off + filesz <= bin@.len(),
        filesz <= memsz,
        0 < memsz,
        vaddr + memsz <= 0x8000_0000_0000,
        flags & PRESENT == PRESENT,
        flags & crate::page_table::HUGE_PAGE == 0,
        flags & crate::page_table::ADDR_MASK == 0,
    ensures
        loader_inv(*final(pt), *final(fa), *final(mem), root),
        final(fa).usable_memory_region == old(fa).usable_memory_region,
        count_free(final(fa).bits(), 0) >= count_free(old(fa).bits(), 0) - (4 * (memsz as int
            / PAGE_SIZE as int) + 8),
        forall|a: u64|
            #[trigger] crate::page_table::has_table(old(pt).tables@, a) ==> crate::page_table::has_table(
                final(pt).tables@,
                a,
            ) && crate::page_table::table_level(final(pt).tables@, a)
                == crate::page_table::table_level(old(pt).tables@, a),
        // existing translations and existing bytes survive
        forall|r2: u64, q: u64|
            #[trigger] spec_translate(old(pt).tables@, r2, q) is Some ==> spec_translate(
                final(pt).tables@,
                r2,
                q,
            ) == spec_translate(old(pt).tables@, r2, q) && walk(final(pt).tables@, r2, q)
                == walk(old(pt).tables@, r2, q),
        // pages off the segment's run are exactly as before
        forall|q: u64|
            normal_pn(q) && !in_seg_run(vaddr, memsz, q) ==> #[trigger] spec_translate(
                final(pt).tables@,
                root,
                q,
            ) == spec_translate(old(pt).tables@, root, q),
        no_huge_entries(old(pt).tables@) ==> no_huge_entries(final(pt).tables@),
        forall|pa: u64|
            has_frame(old(mem).frames@, frame_base(pa)) ==> #[trigger] byte_at(
                final(mem).frames@,
                pa,
            ) == byte_at(old(mem).frames@, pa),
        forall|a: u64|
            #[trigger] has_frame(old(mem).frames@, a) ==> has_frame(final(mem).frames@, a),
        // an overlap error names its cause
        (r == Err::<(), ElfError>(ElfError::SegmentOverlap) ==> (exists|p: u64|
            in_seg_run(vaddr, memsz, p) && #[trigger] spec_translate(
                old(pt).tables@,
                root,
                p,
            ) is Some) || !no_huge_entries(old(pt).tables@)),
        // success is owed when the run is free, no huge entry lurks and
        // the allocator can cover the pages and their tables
        ((forall|p: u64|
            in_seg_run(vaddr, memsz, p) ==> #[trigger] spec_translate(
                old(pt).tables@,
                root,
                p,
            ) is None) && no_huge_entries(old(pt).tables@) && count_free(
            old(fa).bits(),
            0,
        ) >= 4 * (memsz as int / PAGE_SIZE as int) + 8 ==> r is Ok),
        (match r {
            Ok(()) => (forall|p: u64|
                in_seg_run(vaddr, memsz, p) ==> ((#[trigger] spec_translate(
                    final(pt).tables@,
                    root,
                    p,
                )) matches Some(f) && has_frame(final(mem).frames@, f) && !has_frame(
                    old(mem).frames@,
                    f,
                ) && entry_flags(walk(final(pt).tables@, root, p)) == flags)) && (forall|p1: u64, p2: u64|
                in_seg_run(vaddr, memsz, p1) && in_seg_run(vaddr, memsz, p2) && p1 != p2
                    ==> #[trigger] spec_translate(final(pt).tables@, root, p1) != #[trigger]
                    spec_translate(final(pt).tables@, root, p2)) && (forall|j: u64|
                j < memsz ==> #[trigger] read_virt(
                    final(pt).tables@,
                    final(mem).frames@,
                    root,
                    (vaddr + j) as u64,
                ) == Some(segment_byte(bin@, off as int, filesz as int, j as int))) && (forall|
                j: u64,
            |
                j < memsz ==> ((#[trigger] spec_translate(
                    final(pt).tables@,
                    root,
                    ((vaddr + j) as u64 / PAGE_SIZE) as u64,
                )) matches Some(f) && has_frame(final(mem).frames@, f))),
            Err(ElfError::FrameAllocationFailed) => count_free(old(fa).bits(), 0) < 4 * (
            memsz as int / PAGE_SIZE as int) + 8,
            Err(ElfError::SegmentOverlap) => true,
            Err(_) => false,
        }),
{
    let ghost pt0 = *pt;
    let ghost fa0 = *fa;
    let ghost mem0 = *mem;
    let first_pn = vaddr / PAGE_SIZE;
    let last = vaddr + (memsz - 1);
    let last_pn = last / PAGE_SIZE;
    proof {
        lemma_fundamental_div_mod(vaddr as int, PAGE_SIZE as int);
        lemma_fundamental_div_mod(last as int, PAGE_SIZE as int);
        lemma_mod_bound(vaddr as int, PAGE_SIZE as int);
        lemma_mod_bound(last as int, PAGE_SIZE as int);
        lemma_pn_in_low_half(last);
    }
    // map every page of the segment to a fresh zeroed frame
    let mut pn = first_pn;
    #[verifier::loop_isolation(true)]
    while pn <= last_pn
        invariant
            loader_inv(*pt, *fa, *mem, root),
            pt0 == *old(pt),
            fa0 == *old(fa),
            mem0 == *old(mem),
            fa.usable_memory_region == fa0.usable_memory_region,
            forall|a: u64|
                #[trigger] crate::page_table::has_table(pt0.tables@, a)
                    ==> crate::page_table::has_table(pt.tables@, a)
                    && crate::page_table::table_level(pt.tables@, a)
                    == crate::page_table::table_level(pt0.tables@, a),
            first_pn <= pn <= last_pn + 1,
            last_pn < 0x8_0000_0000,
            0 < memsz,
            vaddr + memsz <= 0x8000_0000_0000,
            first_pn == vaddr / PAGE_SIZE,
            last_pn == (vaddr + (memsz - 1)) as u64 / PAGE_SIZE,
            flags & PRESENT == PRESENT,
            flags & crate::page_table::HUGE_PAGE == 0,
            flags & crate::page_table::ADDR_MASK == 0,
            count_free(fa.bits(), 0) >= count_free(fa0.bits(), 0) - 4 * (pn - first_pn),
            no_huge_entries(pt0.tables@) ==> no_huge_entries(pt.tables@),
            forall|r2: u64, q: u64|
                #[trigger] spec_translate(pt0.tables@, r2, q) is Some ==> spec_translate(
                    pt.tables@,
                    r2,
                    q,
                ) == spec_translate(pt0.tables@, r2, q) && walk(pt.tables@, r2, q) == walk(
                    pt0.tables@,
                    r2,
                    q,
                ),
            // the pages still to map and everything off the run are as before
            forall|p: u64|
                pn <= p <= last_pn ==> #[trigger] spec_translate(pt.tables@, root, p)
                    == spec_translate(pt0.tables@, root, p),
            forall|q: u64|
                normal_pn(q) && !(first_pn <= q <= last_pn) ==> #[trigger] spec_translate(
                    pt.tables@,
                    root,
                    q,
                ) == spec_translate(pt0.tables@, root, q),
            // mapped pages carry exactly the asked-for flags
            forall|p: u64|
                first_pn <= p < pn ==> #[trigger] entry_flags(walk(pt.tables@, root, p))
                    == flags,
            forall|pa: u64|
                has_frame(mem0.frames@, frame_base(pa)) ==> #[trigger] byte_at(
                    mem.frames@,
                    pa,
                ) == byte_at(mem0.frames@, pa),
            forall|a: u64|
                #[trigger] has_frame(mem0.frames@, a) ==> has_frame(mem.frames@, a),
            // pages mapped so far: fresh frames backed by zeroed memory
            forall|p: u64|
                first_pn <= p < pn ==> ((#[trigger] spec_translate(pt.tables@, root, p))
                    matches Some(f) && has_frame(mem.frames@, f) && !has_frame(mem0.frames@, f)
                    && (forall|o: u64|
                        o < PAGE_SIZE ==> #[trigger] byte_at(mem.frames@, (f + o) as u64) == 0)),
            // and pairwise distinct
            forall|p1: u64, p2: u64|
                first_pn <= p1 < pn && first_pn <= p2 < pn && p1 != p2 ==> #[trigger]
                spec_translate(pt.tables@, root, p1) != #[trigger] spec_translate(
                    pt.tables@,
                    root,
                    p2,
                ),
        decreases last_pn + 1 - pn,
    {
        let ghost pt_prev = *pt;
        let ghost mem_prev = *mem;
        let ghost fa_prev = *fa;
        proof {
            lemma_pn_in_low_half_range(pn, last_pn);
        }
        let frame = match fa.allocate_frame() {
            Some(f) => f,
            None => {
                proof {
                    lemma_count_lower(
                        fa0.bits(),
                        fa_prev.bits(),
                        pn as int - first_pn as int,
                        memsz as int,
                        vaddr as int,
                        first_pn as int,
                        last_pn as int,
                    );
                    lemma_seg_pages_bound(vaddr, memsz, first_pn, last_pn);
                }
                return Err(ElfError::FrameAllocationFailed);
            },
        };
        proof {
            // the fresh frame is not an existing data frame
            assert(!has_frame(mem_prev.frames@, frame)) by {
                if has_frame(mem_prev.frames@, frame) {
                    let i = crate::mem::frame_index(mem_prev.frames@, frame);
                    assert(0 <= i < mem_prev.frames@.len() && mem_prev.frames@[i].addr == frame);
                    assert(fa_prev.bits()[fa_prev.index_of(frame)]);
                }
            }
            // and the allocator state is linked to the mutated structures
            assert(tables_linked(pt.tables@, *fa)) by {
                assert forall|i: int|
                    0 <= i < pt.tables@.len() && fa.in_range(
                        (#[trigger] pt.tables@[i]).addr,
                    ) implies fa.bits()[fa.index_of(pt.tables@[i].addr)] by {
                    if fa_prev.in_range(pt.tables@[i].addr) {
                        assert(fa_prev.bits()[fa_prev.index_of(pt.tables@[i].addr)]);
                    }
                }
            }
            assert(mem_linked(mem.frames@, *fa)) by {
                assert forall|i: int|
                    0 <= i < mem.frames@.len() && fa.in_range(
                        (#[trigger] mem.frames@[i]).addr,
                    ) implies fa.bits()[fa.index_of(mem.frames@[i].addr)] by {
                    if fa_prev.in_range(mem.frames@[i].addr) {
                        assert(fa_prev.bits()[fa_prev.index_of(mem.frames@[i].addr)]);
                    }
                }
            }
        }
        match pt.map_to(fa, root, pn, frame, flags) {
            Ok(()) => {},
            Err(MapError::FrameAllocationFailed) => {
                proof {
                    lemma_count_lower(
                        fa0.bits(),
                        fa_prev.bits(),
                        pn as int - first_pn as int,
                        memsz as int,
                        vaddr as int,
                        first_pn as int,
                        last_pn as int,
                    );
                    lemma_seg_pages_bound(vaddr, memsz, first_pn, last_pn);
                }
                return Err(ElfError::FrameAllocationFailed);
            },
            Err(e) => {
                proof {
                    lemma_seg_pages_bound(vaddr, memsz, first_pn, last_pn);
                    if e == MapError::AlreadyMapped {
                        // the page was mapped before this segment began
                        assert(spec_translate(pt.tables@, root, pn) is Some);
                        assert(spec_translate(pt0.tables@, root, pn) is Some);
                        assert(in_seg_run(vaddr, memsz, pn));
                    } else {
                        // a huge entry lurked in the store from the start
                        assert(e == MapError::ParentEntryHugePage);
                        if no_huge_entries(pt0.tables@) {
                            crate::page_table::lemma_no_huge_no_hits(pt.tables@, root, pn);
                        }
                    }
                }
                return Err(ElfError::SegmentOverlap);
            },
        }
        proof {
            lemma_translate_addr_bound(pt.tables@, root, pn);
        }
        mem.add_frame(frame);
        proof {
            // the new page reads zero everywhere
            assert forall|o: u64| o < PAGE_SIZE implies #[trigger] byte_at(
                mem.frames@,
                (frame + o) as u64,
            ) == 0 by {
                lemma_frame_base_of(frame, o);
            }
            // older pages keep their fresh zero frames and distinctness
            assert forall|p: u64| first_pn <= p < pn + 1 implies (#[trigger] spec_translate(
                pt.tables@,
                root,
                p,
            )) matches Some(f) && has_frame(mem.frames@, f) && !has_frame(mem0.frames@, f) && (
            forall|o: u64| o < PAGE_SIZE ==> #[trigger] byte_at(mem.frames@, (f + o) as u64)
                == 0) by {
                if p < pn {
                    assert(spec_translate(pt_prev.tables@, root, p) is Some);
                    assert(spec_translate(pt.tables@, root, p) == spec_translate(
                        pt_prev.tables@,
                        root,
                        p,
                    ));
                    let f = spec_translate(pt_prev.tables@, root, p)->Some_0;
                    assert(f != frame);
                    assert forall|o: u64| o < PAGE_SIZE implies #[trigger] byte_at(
                        mem.frames@,
                        (f + o) as u64,
                    ) == 0 by {
                        lemma_frame_base_of(frame, 0);
                        lemma_translate_addr_bound(pt_prev.tables@, root, p);
                        lemma_frame_base_of(f, o);
                        assert(byte_at(mem_prev.frames@, (f + o) as u64) == 0);
                    }
                } else {
                    assert(spec_translate(pt.tables@, root, pn) == Some(frame));
                }
            }
            assert forall|p1: u64, p2: u64|
                first_pn <= p1 < pn + 1 && first_pn <= p2 < pn + 1 && p1 != p2 implies #[trigger]
            spec_translate(pt.tables@, root, p1) != #[trigger] spec_translate(
                pt.tables@,
                root,
                p2,
            ) by {
                if p1 < pn && p2 < pn {
                    assert(spec_translate(pt.tables@, root, p1) == spec_translate(
                        pt_prev.tables@,
                        root,
                        p1,
                    ));
                    assert(spec_translate(pt.tables@, root, p2) == spec_translate(
                        pt_prev.tables@,
                        root,
                        p2,
                    ));
                } else if p1 == pn {
                    assert(spec_translate(pt.tables@, root, p2) == spec_translate(
                        pt_prev.tables@,
                        root,
                        p2,
                    ));
                    assert((spec_translate(pt_prev.tables@, root, p2))
                        matches Some(f) && has_frame(mem_prev.frames@, f));
                } else {
                    assert(spec_translate(pt.tables@, root, p1) == spec_translate(
                        pt_prev.tables@,
                        root,
                        p1,
                    ));
                    assert((spec_translate(pt_prev.tables@, root, p1))
                        matches Some(f) && has_frame(mem_prev.frames@, f));
                }
            }
            // old translations and old bytes survive this page
            assert forall|pa: u64|
                has_frame(mem0.frames@, frame_base(pa)) implies #[trigger] byte_at(
                mem.frames@,
                pa,
            ) == byte_at(mem0.frames@, pa) by {
                assert(has_frame(mem_prev.frames@, frame_base(pa)));
                assert(frame_base(pa) != frame);
            }
            assert forall|a: u64| #[trigger]
                crate::page_table::has_table(pt0.tables@, a) implies crate::page_table::has_table(
                pt.tables@,
                a,
            ) && crate::page_table::table_level(pt.tables@, a)
                == crate::page_table::table_level(pt0.tables@, a) by {
                assert(crate::page_table::has_table(pt_prev.tables@, a)
                    && crate::page_table::table_level(pt_prev.tables@, a)
                    == crate::page_table::table_level(pt0.tables@, a));
            }
            // the rest of the run and everything off the run are untouched
            assert forall|p: u64|
                pn + 1 <= p <= last_pn implies #[trigger] spec_translate(pt.tables@, root, p)
                == spec_translate(pt0.tables@, root, p) by {
                lemma_pn_in_low_half_range(p, last_pn);
                assert(spec_translate(pt.tables@, root, p) == spec_translate(
                    pt_prev.tables@,
                    root,
                    p,
                ));
            }
            assert forall|q: u64|
                normal_pn(q) && !(first_pn <= q <= last_pn) implies #[trigger] spec_translate(
                pt.tables@,
                root,
                q,
            ) == spec_translate(pt0.tables@, root, q) by {
                assert(spec_translate(pt.tables@, root, q) == spec_translate(
                    pt_prev.tables@,
                    root,
                    q,
                ));
            }
            // the fresh page carries the asked-for flags; older ones keep
            // theirs since their translations survive unchanged
            assert forall|p: u64|
                first_pn <= p < pn + 1 implies #[trigger] entry_flags(walk(pt.tables@, root, p))
                == flags by {
                if p < pn {
                    assert(spec_translate(pt_prev.tables@, root, p) is Some);
                    assert(walk(pt.tables@, root, p) == walk(pt_prev.tables@, root, p));
                } else {
                    assert(walk(pt.tables@, root, pn) == frame | flags);
                    crate::page_table::lemma_entry_flags_of(frame, flags);
                }
            }
            // allocator linkage for the data frames
            assert forall|i: int|
                0 <= i < mem.frames@.len() && fa.in_range(
                    (#[trigger] mem.frames@[i]).addr,
                ) implies fa.bits()[fa.index_of(mem.frames@[i].addr)] by {
                if i < mem_prev.frames@.len() {
                    assert(mem.frames@[i].addr == mem_prev.frames@[i].addr);
                    if fa_prev.in_range(mem_prev.frames@[i].addr) {
                        assert(fa_prev.bits()[fa_prev.index_of(mem_prev.frames@[i].addr)]);
                    } else {
                        assert(!fa.in_range(mem_prev.frames@[i].addr));
                    }
                } else {
                    assert(mem.frames@[i].addr == frame);
                }
            }
        }
        pn = pn + 1;
    }
    // copy the file bytes; the tail past `filesz` stays zero
    let ghost pt_m = *pt;
    let ghost mem_m = *mem;
    let ghost fa_m = *fa;
    proof {
        // initially every byte of the segment reads zero
        assert forall|i: u64| i < memsz implies #[trigger] read_virt(
            pt.tables@,
            mem.frames@,
            root,
            (vaddr + i) as u64,
        ) == Some(0u8) by {
            lemma_segment_page(vaddr, memsz, i, first_pn, last_pn);
            lemma_mod_bound((vaddr + i) as int, PAGE_SIZE as int);
            let vai = (vaddr + i) as u64;
            let pni = (vai / PAGE_SIZE) as u64;
            assert((spec_translate(pt.tables@, root, pni)) matches Some(f) && has_frame(
                mem.frames@,
                f,
            ));
            let fi = spec_translate(pt.tables@, root, pni)->Some_0;
            assert(byte_at(mem.frames@, (fi + (vai % PAGE_SIZE)) as u64) == 0);
        }
    }
    let blen = bin.len();
    let mut j: u64 = 0;
    #[verifier::loop_isolation(true)]
    while j < filesz
        invariant
            loader_inv(*pt, *fa, *mem, root),
            *pt == pt_m,
            *fa == fa_m,
            j <= filesz,
            blen == bin@.len(),
            off + filesz <= blen,
            filesz <= memsz,
            0 < memsz,
            vaddr + memsz <= 0x8000_0000_0000,
            first_pn == vaddr / PAGE_SIZE,
            last_pn == (vaddr + (memsz - 1)) as u64 / PAGE_SIZE,
            forall|a: u64|
                #[trigger] has_frame(mem.frames@, a) == has_frame(mem_m.frames@, a),
            forall|pa: u64|
                has_frame(mem0.frames@, frame_base(pa)) ==> #[trigger] byte_at(
                    mem.frames@,
                    pa,
                ) == byte_at(mem0.frames@, pa),
            forall|p: u64|
                first_pn <= p <= last_pn ==> ((#[trigger] spec_translate(pt.tables@, root, p))
                    matches Some(f) && has_frame(mem.frames@, f) && !has_frame(mem0.frames@, f)),
            forall|p1: u64, p2: u64|
                first_pn <= p1 <= last_pn && first_pn <= p2 <= last_pn && p1 != p2 ==> #[trigger]
                spec_translate(pt.tables@, root, p1) != #[trigger] spec_translate(
                    pt.tables@,
                    root,
                    p2,
                ),
            forall|i: u64|
                i < memsz ==> #[trigger] read_virt(
                    pt.tables@,
                    mem.frames@,
                    root,
                    (vaddr + i) as u64,
                ) == Some(
                    (if i < j {
                        segment_byte(bin@, off as int, filesz as int, i as int)
                    } else {
                        0u8
                    }),
                ),
        decreases filesz - j,
    {
        let ghost mem_prev = *mem;
        let va = vaddr + j;
        let idx = (off + j) as usize;
        let v = bin[idx];
        proof {
            lemma_segment_page(vaddr, memsz, j, first_pn, last_pn);
            lemma_translate_addr_bound(pt.tables@, root, (va / PAGE_SIZE) as u64);
        }
        write_virt_byte(pt, mem, root, va, v);
        proof {
            assert(mem_linked(mem.frames@, *fa)) by {
                assert forall|i: int|
                    0 <= i < mem.frames@.len() && fa.in_range(
                        (#[trigger] mem.frames@[i]).addr,
                    ) implies fa.bits()[fa.index_of(mem.frames@[i].addr)] by {
                    assert(mem.frames@[i].addr == mem_prev.frames@[i].addr);
                }
            }
            let pnj = (va / PAGE_SIZE) as u64;
            let fj = spec_translate(pt.tables@, root, pnj)->Some_0;
            let paj = (fj + (va % PAGE_SIZE)) as u64;
            assert forall|i: u64| i < memsz implies #[trigger] read_virt(
                pt.tables@,
                mem.frames@,
                root,
                (vaddr + i) as u64,
            ) == Some(
                (if i < j + 1 {
                    segment_byte(bin@, off as int, filesz as int, i as int)
                } else {
                    0u8
                }),
            ) by {
                let vai = (vaddr + i) as u64;
                lemma_segment_page(vaddr, memsz, i, first_pn, last_pn);
                let pni = (vai / PAGE_SIZE) as u64;
                assert((spec_translate(pt.tables@, root, pni)) matches Some(f2) && has_frame(
                    mem.frames@,
                    f2,
                ));
                lemma_mod_bound(vai as int, PAGE_SIZE as int);
                let fi = spec_translate(pt.tables@, root, pni)->Some_0;
                if i != j {
                    // a different byte: its physical address differs
                    assert((fi + (vai % PAGE_SIZE)) as u64 != paj) by {
                        lemma_translate_addr_bound(pt.tables@, root, pni);
                        lemma_translate_addr_bound(pt.tables@, root, pnj);
                        if pni == pnj {
                            assert(fi == fj);
                            assert(vai % PAGE_SIZE != va % PAGE_SIZE) by {
                                lemma_same_page_distinct_offsets(vai, va);
                            }
                        } else {
                            assert(spec_translate(pt.tables@, root, pni) != spec_translate(
                                pt.tables@,
                                root,
                                pnj,
                            ));
                            assert(fi != fj);
                            lemma_frame_base_of(fi, vai % PAGE_SIZE);
                            lemma_frame_base_of(fj, va % PAGE_SIZE);
                        }
                    }
                    assert(byte_at(mem.frames@, (fi + (vai % PAGE_SIZE)) as u64) == byte_at(
                        mem_prev.frames@,
                        (fi + (vai % PAGE_SIZE)) as u64,
                    ));
                    assert(read_virt(pt.tables@, mem_prev.frames@, root, vai) == Some(
                        (if i < j {
                            segment_byte(bin@, off as int, filesz as int, i as int)
                        } else {
                            0u8
                        }),
                    ));
                    assert(read_virt(pt.tables@, mem.frames@, root, vai) == read_virt(
                        pt.tables@,
                        mem_prev.frames@,
                        root,
                        vai,
                    ));
                } else {
                    assert(read_virt(pt.tables@, mem.frames@, root, va) == Some(v));
                    assert(v == bin@[off as int + j as int]);
                }
            }
        }
        j = j + 1;
    }
    proof {
        assert forall|i: u64| i < memsz implies #[trigger] read_virt(
            pt.tables@,
            mem.frames@,
            root,
            (vaddr + i) as u64,
        ) == Some(segment_byte(bin@, off as int, filesz as int, i as int)) by {
            if i >= filesz {
                assert(segment_byte(bin@, off as int, filesz as int, i as int) == 0);
            }
        }
        assert forall|i: u64|
            i < memsz implies ((#[trigger] spec_translate(
            pt.tables@,
            root,
            ((vaddr + i) as u64 / PAGE_SIZE) as u64,
        )) matches Some(f) && has_frame(mem.frames@, f)) by {
            lemma_segment_page(vaddr, memsz, i, first_pn, last_pn);
        }
        // the run's pages in the ensured form
        assert(seg_first_page(vaddr) == first_pn as int);
        assert(seg_last_page(vaddr, memsz) == last_pn as int);
        assert forall|p: u64|
            in_seg_run(vaddr, memsz, p) implies ((#[trigger] spec_translate(
            pt.tables@,
            root,
            p,
        )) matches Some(f) && has_frame(mem.frames@, f) && !has_frame(mem0.frames@, f)
            && entry_flags(walk(pt.tables@, root, p)) == flags) by {
            assert(first_pn <= p <= last_pn);
        }
        assert forall|p1: u64, p2: u64|
            in_seg_run(vaddr, memsz, p1) && in_seg_run(vaddr, memsz, p2) && p1
                != p2 implies #[trigger] spec_translate(pt.tables@, root, p1) != #[trigger]
            spec_translate(pt.tables@, root, p2) by {}
        // the allocator consumed at most four frames per page
        lemma_seg_pages_bound(vaddr, memsz, first_pn, last_pn);
    }
    Ok(())
}

/// A page number below the lower half's page count is a normal page.
pub proof fn lemma_pn_below_bound_is_normal(pn: u64)
    requires
        pn < 0x8_0000_0000,
    ensures
        normal_pn(pn),
{
    lemma_pn_in_low_half_range(pn, pn);
}

/// A page whose start lies below a lower-half bound is a normal page.
pub proof fn lemma_low_pn_is_normal(pn: u64, end: u64)
    requires
        pn * PAGE_SIZE < end,
        end <= 0x8000_0000_0000,
    ensures
        normal_pn(pn),
{
    assert(pn < 0x8_0000_0000) by (nonlinear_arith)
        requires
            pn * 4096 < 0x8000_0000_0000,
    ;
    lemma_pn_in_low_half_range(pn, pn);
}

/// A page number at or below a bound in the low half is a normal page.
proof fn lemma_pn_in_low_half_range(pn: u64, last_pn: u64)
    requires
        pn <= last_pn,
        last_pn < 0x8_0000_0000,
    ensures
        normal_pn(pn),
{
    lemma_fundamental_div_mod(pn as int, 0x8000000);
    lemma_mod_bound(pn as int, 0x8000000);
    let d = pn as int / 0x8000000;
    assert(0 <= d < 256);
    lemma_fundamental_div_mod_converse(d, 512, 0, d);
}

/// The last page of an image below 2^46 has a page number below 2^35.
proof fn lemma_pn_in_low_half(last: u64)
    requires
        last < 0x8000_0000_0000,
    ensures
        last / PAGE_SIZE < 0x8_0000_0000,
{
    lemma_fundamental_div_mod(last as int, PAGE_SIZE as int);
    lemma_mod_bound(last as int, PAGE_SIZE as int);
}

/// An offset into a page-aligned frame lands inside that frame.
proof fn lemma_frame_base_of(f: u64, o: u64)
    requires
        f % PAGE_SIZE == 0,
        f < 0x10_0000_0000_0000,
        o < PAGE_SIZE,
    ensures
        frame_base((f + o) as u64) == f,
        (f + o) as u64 as int % PAGE_SIZE as int == o,
{
    lemma_fundamental_div_mod(f as int, PAGE_SIZE as int);
    lemma_fundamental_div_mod_converse(
        f as int + o as int,
        PAGE_SIZE as int,
        f as int / PAGE_SIZE as int,
        o as int,
    );
}

/// Byte `i` of the segment lies on one of its pages, with the page number
/// and offset arithmetic spelled out.
proof fn lemma_segment_page(vaddr: u64, memsz: u64, i: u64, first_pn: u64, last_pn: u64)
    requires
        0 < memsz,
        i < memsz,
        vaddr + memsz <= 0x8000_0000_0000,
        first_pn == vaddr / PAGE_SIZE,
        last_pn == (vaddr + memsz - 1) as u64 / PAGE_SIZE,
    ensures
        first_pn <= (vaddr + i) as u64 / PAGE_SIZE <= last_pn,
        normal_pn(((vaddr + i) as u64 / PAGE_SIZE) as u64),
{
    let va = vaddr + i;
    vstd::arithmetic::div_mod::lemma_div_is_ordered(vaddr as int, va, PAGE_SIZE as int);
    vstd::arithmetic::div_mod::lemma_div_is_ordered(va, vaddr + memsz - 1, PAGE_SIZE as int);
    lemma_pn_in_low_half((vaddr + memsz - 1) as u64);
    lemma_pn_in_low_half_range((va / PAGE_SIZE as int) as u64, last_pn);
}

/// Two distinct addresses on the same page have distinct offsets.
proof fn lemma_same_page_distinct_offsets(a: u64, b: u64)
    requires
        a != b,
        a / PAGE_SIZE == b / PAGE_SIZE,
    ensures
        a % PAGE_SIZE != b % PAGE_SIZE,
{
    lemma_fundamental_div_mod(a as int, PAGE_SIZE as int);
    lemma_fundamental_div_mod(b as int, PAGE_SIZE as int);
}

/// Every page of a user-half segment run is a normal page.
proof fn lemma_run_page_normal(va: u64, memsz: u64, p: u64)
    requires
        0 < memsz,
        va + memsz <= 0x8000_0000_0000,
        in_seg_run(va, memsz, p),
    ensures
        normal_pn(p),
{
    lemma_pn_in_low_half((va + memsz - 1) as u64);
    lemma_pn_in_low_half_range(p, ((va + memsz - 1) as u64 / PAGE_SIZE) as u64);
}

/// The page run of a segment is at most one page longer than its byte
/// count covers.
proof fn lemma_seg_pages_bound(vaddr: u64, memsz: u64, first_pn: u64, last_pn: u64)
    requires
        0 < memsz,
        first_pn == vaddr / PAGE_SIZE,
        last_pn == (vaddr + memsz - 1) as u64 / PAGE_SIZE,
        vaddr + memsz <= 0x8000_0000_0000,
    ensures
        last_pn as int - first_pn as int <= memsz as int / PAGE_SIZE as int + 1,
{
    let p = PAGE_SIZE as int;
    lemma_fundamental_div_mod(vaddr as int, p);
    lemma_fundamental_div_mod(vaddr as int + memsz as int - 1, p);
    lemma_fundamental_div_mod(memsz as int, p);
    lemma_mod_bound(vaddr as int, p);
    lemma_mod_bound(vaddr as int + memsz as int - 1, p);
    lemma_mod_bound(memsz as int, p);
    let d = last_pn as int - first_pn as int;
    assert(p * d <= memsz + p - 1) by (nonlinear_arith)
        requires
            p * (last_pn as int) == vaddr + memsz - 1 - ((vaddr as int + memsz as int - 1) % p),
            p * (first_pn as int) == vaddr - (vaddr as int % p),
            0 <= (vaddr as int + memsz as int - 1) % p < p,
            0 <= vaddr as int % p < p,
            d == last_pn as int - first_pn as int,
    ;
    assert(d <= memsz as int / p + 1) by (nonlinear_arith)
        requires
            p * d <= memsz + p - 1,
            memsz == p * (memsz as int / p) + memsz as int % p,
            0 <= memsz as int % p < p,
            p == 4096,
            d == last_pn as int - first_pn as int,
    ;
}

/// Arithmetic for the failure bound: with `k` pages mapped at four frames
/// each and fewer than three frames left, the allocator began with fewer
/// than four frames per segment page plus eight.
proof fn lemma_count_lower(
    bits0: Seq<bool>,
    bits_now: Seq<bool>,
    k: int,
    memsz: int,
    vaddr: int,
    first_pn: int,
    last_pn: int,
)
    requires
        count_free(bits_now, 0) >= count_free(bits0, 0) - 4 * k,
        count_free(bits_now, 0) <= 3,
        0 <= k,
        0 < memsz,
        first_pn == vaddr / PAGE_SIZE as int,
        last_pn == (vaddr + memsz - 1) / PAGE_SIZE as int,
        0 <= vaddr,
        k <= last_pn - first_pn,
    ensures
        count_free(bits0, 0) < 4 * (memsz / PAGE_SIZE as int) + 8,
{
    let p = PAGE_SIZE as int;
    lemma_fundamental_div_mod(vaddr, p);
    lemma_fundamental_div_mod(vaddr + memsz - 1, p);
    lemma_fundamental_div_mod(memsz, p);
    lemma_mod_bound(vaddr, p);
    lemma_mod_bound(vaddr + memsz - 1, p);
    lemma_mod_bound(memsz, p);
    let d = last_pn - first_pn;
    assert(p * d <= memsz + p - 1) by (nonlinear_arith)
        requires
            p * last_pn == vaddr + memsz - 1 - ((vaddr + memsz - 1) % p),
            p * first_pn == vaddr - (vaddr % p),
            0 <= (vaddr + memsz - 1) % p < p,
            0 <= vaddr % p < p,
            d == last_pn - first_pn,
    ;
    assert(d <= memsz / p + 1) by (nonlinear_arith)
        requires
            p * d <= memsz + p - 1,
            memsz == p * (memsz / p) + memsz % p,
            0 <= memsz % p < p,
            p == 4096,
            d == last_pn - first_pn,
    ;
}


/// Virtual base a binary is loaded at when no offset is given.
pub const DEFAULT_LOAD_OFFSET: u64 = 0x81_FF00_0000;

/// The four magic bytes are in place.
pub open spec fn magic_ok(b: Seq<u8>) -> bool {
    b.len() >= 4 && b[0] == 0x7f && b[1] == 0x45 && b[2] == 0x4c && b[3] == 0x46
}

/// A little-endian ELF64 executable or shared object for x86_64.
pub open spec fn class_ok(b: Seq<u8>) -> bool {
    &&& b.len() >= 64
    &&& b[4] == 2
    &&& b[5] == 1
    &&& le16(b, 18) == 0x3e
    &&& (le16(b, 16) == 2 || le16(b, 16) == 3)
}

/// Entry point recorded in the header.
pub open spec fn elf_entry(b: Seq<u8>) -> int {
    le64(b, 24)
}

/// Number of program headers.
pub open spec fn ph_count(b: Seq<u8>) -> int {
    le16(b, 56)
}

/// Offset in the image of program header `i`.
pub open spec fn ph_base(b: Seq<u8>, i: int) -> int {
    le64(b, 32) + 56 * i
}

/// Type field of program header `i`; loadable segments have type 1.
pub open spec fn ph_type(b: Seq<u8>, i: int) -> int {
    le32(b, ph_base(b, i))
}

/// Flag bits of program header `i`: 1 executable, 2 writable, 4 readable.
pub open spec fn ph_flags(b: Seq<u8>, i: int) -> int {
    le32(b, ph_base(b, i) + 4)
}

/// File offset of segment `i`.
pub open spec fn ph_offset(b: Seq<u8>, i: int) -> int {
    le64(b, ph_base(b, i) + 8)
}

/// Virtual address of segment `i`, relative to the load base.
pub open spec fn ph_vaddr(b: Seq<u8>, i: int) -> int {
    le64(b, ph_base(b, i) + 16)
}

/// Bytes of segment `i` backed by the file.
pub open spec fn ph_filesz(b: Seq<u8>, i: int) -> int {
    le64(b, ph_base(b, i) + 32)
}

/// Bytes of segment `i` in memory; the tail past `ph_filesz` is the BSS.
pub open spec fn ph_memsz(b: Seq<u8>, i: int) -> int {
    le64(b, ph_base(b, i) + 40)
}

/// Program header `i` asks to be loaded.
pub open spec fn is_load(b: Seq<u8>, i: int) -> bool {
    ph_type(b, i) == 1 && ph_memsz(b, i) > 0
}

/// The page-table flags a segment is mapped with: present and
/// user-accessible, writable when the segment is, and no-execute when it
/// is not executable.
pub open spec fn spec_segment_flags(pf: int) -> u64 {
    if pf % 2 == 1 {
        // executable
        if pf / 2 % 2 == 1 {
            PRESENT | USER_ACCESSIBLE | WRITABLE
        } else {
            PRESENT | USER_ACCESSIBLE
        }
    } else {
        if pf / 2 % 2 == 1 {
            PRESENT | USER_ACCESSIBLE | WRITABLE | NO_EXECUTE
        } else {
            PRESENT | USER_ACCESSIBLE | NO_EXECUTE
        }
    }
}

/// Number of section headers, or zero when the table is absent.
pub open spec fn sh_count(b: Seq<u8>) -> int {
    if le64(b, 40) == 0 {
        0
    } else {
        le16(b, 60)
    }
}

/// Offset in the image of section header `i`.
pub open spec fn sh_base(b: Seq<u8>, i: int) -> int {
    le64(b, 40) + 64 * i
}

/// Section `si` is a relocation section.
pub open spec fn sh_is_rela(b: Seq<u8>, si: int) -> bool {
    le32(b, sh_base(b, si) + 4) == 4
}

/// How many relocation entries section `si` holds.
pub open spec fn rela_count(b: Seq<u8>, si: int) -> int {
    le64(b, sh_base(b, si) + 32) / 24
}

/// The type field of relocation entry `k` of section `si`.
pub open spec fn rela_type(b: Seq<u8>, si: int, k: int) -> int {
    le64(b, le64(b, sh_base(b, si) + 24) + 24 * k + 8) % 0x1_0000_0000
}

/// The image carries no relocation section.
pub open spec fn no_relas(b: Seq<u8>) -> bool {
    forall|i: int| 0 <= i < sh_count(b) ==> le32(b, #[trigger] sh_base(b, i) + 4) != 4
}

/// The absolute virtual address of segment `m` under a load base.
pub open spec fn seg_va(b: Seq<u8>, m: int, vbase: u64) -> u64 {
    (vbase + ph_vaddr(b, m)) as u64
}

/// Segment `m` stays inside the user half under the load base.
pub open spec fn seg_in_half(b: Seq<u8>, m: int, vbase: u64) -> bool {
    vbase + ph_vaddr(b, m) + ph_memsz(b, m) <= 0x8000_0000_0000
}

/// No two loadable segments share a page under the load base.
pub open spec fn segs_disjoint(b: Seq<u8>, vbase: u64) -> bool {
    forall|m1: int, m2: int|
        0 <= m1 < ph_count(b) && 0 <= m2 < ph_count(b) && m1 != m2 && #[trigger] is_load(b, m1)
            && #[trigger] is_load(b, m2) ==> seg_last_page(
            seg_va(b, m1, vbase),
            ph_memsz(b, m1) as u64,
        ) < seg_first_page(seg_va(b, m2, vbase)) || seg_last_page(
            seg_va(b, m2, vbase),
            ph_memsz(b, m2) as u64,
        ) < seg_first_page(seg_va(b, m1, vbase))
}

/// Every page of every loadable segment is unmapped under `root`.
pub open spec fn segs_free(b: Seq<u8>, vbase: u64, ts: Seq<crate::page_table::PageTable>, root: u64) -> bool {
    forall|m: int, p: u64|
        0 <= m < ph_count(b) && #[trigger] is_load(b, m) && in_seg_run(
            seg_va(b, m, vbase),
            ph_memsz(b, m) as u64,
            p,
        ) ==> #[trigger] spec_translate(ts, root, p) is None
}

/// The frames the first `n` program headers can consume: four per page
/// and eight more per loadable segment.
pub open spec fn load_budget(b: Seq<u8>, n: int) -> int
    decreases n,
{
    if n <= 0 {
        0
    } else {
        load_budget(b, n - 1) + if is_load(b, n - 1) {
            4 * (ph_memsz(b, n - 1) / PAGE_SIZE as int) + 8
        } else {
            0
        }
    }
}

/// The budget grows with the header count.
proof fn lemma_load_budget_monotone(b: Seq<u8>, i: int, n: int)
    requires
        0 <= i <= n,
    ensures
        load_budget(b, i) <= load_budget(b, n),
        load_budget(b, i) >= 0,
    decreases n - i,
{
    lemma_load_budget_at_least_zero(b, i);
    if i < n {
        lemma_load_budget_monotone(b, i + 1, n);
        lemma_load_budget_at_least_zero(b, i + 1);
    }
}

/// The budget is never negative.
pub proof fn lemma_load_budget_at_least_zero(b: Seq<u8>, n: int)
    ensures
        load_budget(b, n) >= 0,
    decreases n,
{
    if n > 0 {
        lemma_load_budget_at_least_zero(b, n - 1);
        vstd::arithmetic::div_mod::lemma_div_pos_is_pos(ph_memsz(b, n - 1), PAGE_SIZE as int);
        lemma_le64_nonneg(b, ph_base(b, n - 1) + 40);
    }
}

/// Little-endian fields never read negative.
proof fn lemma_le64_nonneg(b: Seq<u8>, off: int)
    ensures
        le64(b, off) >= 0,
        le16(b, off) >= 0,
{
}

/// Every loadable segment's pages land in the private level-4 slots of a
/// fresh address space: past the shared identity slot, below the kernel
/// half.
pub open spec fn segs_in_private_slots(b: Seq<u8>, vbase: u64) -> bool {
    forall|m: int, p: u64|
        0 <= m < ph_count(b) && #[trigger] is_load(b, m) && #[trigger] in_seg_run(
            seg_va(b, m, vbase),
            ph_memsz(b, m) as u64,
            p,
        ) ==> 1 <= crate::addr::l4_index(p) < 256
}

/// Everything the loader needs to owe success on an image's segments:
/// they stay in the user half, share no page, land on unmapped pages, no
/// huge entry lurks, and the allocator covers the budget.
pub open spec fn image_loadable(
    b: Seq<u8>,
    vbase: u64,
    ts: Seq<crate::page_table::PageTable>,
    root: u64,
    fa: PhysFrameAllocator,
) -> bool {
    &&& forall|m: int| 0 <= m < ph_count(b) && #[trigger] is_load(b, m) ==> seg_in_half(b, m, vbase)
    &&& segs_disjoint(b, vbase)
    &&& segs_free(b, vbase, ts, root)
    &&& no_huge_entries(ts)
    &&& count_free(fa.bits(), 0) >= load_budget(b, ph_count(b))
}

/// The header tables and every loadable segment lie inside the image and
/// are shaped as the loader expects.
pub open spec fn layout_ok(b: Seq<u8>) -> bool {
    &&& le16(b, 54) == 56
    &&& le64(b, 32) + 56 * ph_count(b) <= b.len()
    &&& forall|i: int|
        0 <= i < ph_count(b) && #[trigger] is_load(b, i) ==> ph_filesz(b, i) <= ph_memsz(b, i)
            && ph_offset(b, i) + ph_filesz(b, i) <= b.len()
    &&& (sh_count(b) > 0 ==> le16(b, 58) == 64 && le64(b, 40) + 64 * sh_count(b) <= b.len())
}

/// Loads an ELF image into the address space rooted at `root`, with every
/// segment placed at `vbase` plus its virtual address, and returns the
/// relocated entry point.  The segment contract: with no relocation
/// sections, every byte of every loadable segment afterwards reads back
/// as the file byte, or zero in the BSS tail.
/// A loaded ELF executable's placement: the virtual base every segment
/// and the entry point are offset by.
pub struct ElfMemory {
    /// Virtual base the image is loaded at.
    pub vbase: u64,
}

impl ElfMemory {
    /// A placement at the given virtual base.
    pub fn new(vbase: u64) -> (r: ElfMemory)
        ensures
            r.vbase == vbase,
    {
        ElfMemory { vbase }
    }

    /// The loaded image's base address.
    pub fn vbase(&self) -> (r: &u64)
        ensures
            r == self.vbase,
    {
        &self.vbase
    }

    /// Loads an image at this placement.
    pub fn load(
        &self,
        pt: &mut PageTables,
        fa: &mut PhysFrameAllocator,
        mem: &mut PhysMemory,
        root: u64,
        bin: &Vec<u8>,
    ) -> (r: Result<u64, ElfError>)
        requires
            loader_inv(*old(pt), *old(fa), *old(mem), root),
            self.vbase < 0x8000_0000_0000,
        ensures
            loader_inv(*final(pt), *final(fa), *final(mem), root),
            (r matches Ok(e) ==> e == elf_entry(bin@) + self.vbase),
            (magic_ok(bin@) && class_ok(bin@) && layout_ok(bin@) && elf_entry(bin@) + self.vbase
                <= u64::MAX && no_relas(bin@) && image_loadable(
                bin@,
                self.vbase,
                old(pt).tables@,
                root,
                *old(fa),
            ) ==> r is Ok),
    {
        load_elf(pt, fa, mem, root, bin, self.vbase)
    }
}

/// The shape of a validated image: the header fields the loader uses.
pub struct ElfShape {
    /// Offset of the program header table.
    pub phoff: u64,
    /// Number of program headers.
    pub phnum: u16,
    /// Entry point recorded in the header.
    pub entry: u64,
    /// Offset of the section header table, zero when absent.
    pub shoff: u64,
    /// Number of section headers, zero when the table is absent.
    pub shnum: u16,
}

/// Validates magic, class and table layout and reads the header fields.
fn validate_elf(bin: &Vec<u8>, vbase: u64) -> (r: Result<ElfShape, ElfError>)
    ensures
        (r is Err ==> r == Err::<ElfShape, ElfError>(ElfError::BadMagic) || r == Err::<
            ElfShape,
            ElfError,
        >(ElfError::UnsupportedClass)),
        (r == Err::<ElfShape, ElfError>(ElfError::BadMagic) <==> !magic_ok(bin@)),
        (magic_ok(bin@) ==> (r is Ok <==> class_ok(bin@) && layout_ok(bin@) && elf_entry(bin@)
            + vbase <= u64::MAX)),
        (r matches Ok(sh) ==> {
            &&& sh.phoff == le64(bin@, 32)
            &&& sh.phnum == ph_count(bin@)
            &&& sh.entry == elf_entry(bin@)
            &&& sh.shoff == le64(bin@, 40)
            &&& sh.shnum == sh_count(bin@)
            &&& class_ok(bin@)
            &&& layout_ok(bin@)
            &&& sh.entry + vbase <= u64::MAX
            &&& sh.phoff + 56 * (sh.phnum as int) <= bin@.len()
            &&& (sh.shnum > 0 ==> sh.shoff + 64 * (sh.shnum as int) <= bin@.len() && sh.shoff
                != 0)
        }),
{
    let ghost b = bin@;
    let blen = bin.len();
    if blen < 4 || bin[0] != 0x7f || bin[1] != 0x45 || bin[2] != 0x4c || bin[3] != 0x46 {
        return Err(ElfError::BadMagic);
    }
    if blen < 64 {
        return Err(ElfError::UnsupportedClass);
    }
    if bin[4] != 2 || bin[5] != 1 || read_u16(bin, 18) != 0x3e {
        return Err(ElfError::UnsupportedClass);
    }
    let etype = read_u16(bin, 16);
    if etype != 2 && etype != 3 {
        return Err(ElfError::UnsupportedClass);
    }
    let phoff = read_u64(bin, 32);
    let phentsize = read_u16(bin, 54);
    let phnum = read_u16(bin, 56);
    if phentsize != 56 {
        return Err(ElfError::UnsupportedClass);
    }
    if phoff > blen as u64 || (phnum as u64) * 56 > blen as u64 - phoff {
        return Err(ElfError::UnsupportedClass);
    }
    let entry = read_u64(bin, 24);
    if entry > u64::MAX - vbase {
        return Err(ElfError::UnsupportedClass);
    }
    // every loadable segment lies inside the image
    let mut i: u16 = 0;
    while i < phnum
        invariant
            blen == b.len(),
            blen >= 64,
            i <= phnum,
            phnum == le16(b, 56),
            phoff == le64(b, 32),
            phoff + 56 * (phnum as int) <= blen,
            forall|m: int|
                0 <= m < i && #[trigger] is_load(b, m) ==> ph_filesz(b, m) <= ph_memsz(b, m)
                    && ph_offset(b, m) + ph_filesz(b, m) <= blen,
        decreases phnum - i,
    {
        let base = (phoff + 56 * (i as u64)) as usize;
        let ptype = read_u32(bin, base);
        if ptype == 1 {
            let memsz = read_u64(bin, base + 40);
            if memsz > 0 {
                let filesz = read_u64(bin, base + 32);
                let offset = read_u64(bin, base + 8);
                if filesz > memsz || offset > blen as u64 || filesz > blen as u64 - offset {
                    proof {
                        assert(is_load(b, i as int));
                        assert(!layout_ok(b));
                    }
                    return Err(ElfError::UnsupportedClass);
                }
            }
        }
        i = i + 1;
    }
    let shoff = read_u64(bin, 40);
    let shnum: u16 = if shoff == 0 {
        0
    } else {
        read_u16(bin, 60)
    };
    if shnum > 0 {
        let shentsize = read_u16(bin, 58);
        if shentsize != 64 {
            return Err(ElfError::UnsupportedClass);
        }
        if shoff > blen as u64 || (shnum as u64) * 64 > blen as u64 - shoff {
            return Err(ElfError::UnsupportedClass);
        }
    }
    proof {
        assert(layout_ok(b));
    }
    Ok(ElfShape { phoff, phnum, entry, shoff, shnum })
}

/// Maps and fills every loadable segment of a validated image.
#[verifier::rlimit(100)]
fn load_segments(
    pt: &mut PageTables,
    fa: &mut PhysFrameAllocator,
    mem: &mut PhysMemory,
    root: u64,
    bin: &Vec<u8>,
    vbase: u64,
    shape: &ElfShape,
) -> (r: Result<(), ElfError>)
    requires
        loader_inv(*old(pt), *old(fa), *old(mem), root),
        vbase < 0x8000_0000_0000,
        shape.phoff == le64(bin@, 32),
        shape.phnum == ph_count(bin@),
        shape.phoff + 56 * (shape.phnum as int) <= bin@.len(),
        bin@.len() >= 64,
        layout_ok(bin@),
    ensures
        loader_inv(*final(pt), *final(fa), *final(mem), root),
        final(fa).usable_memory_region == old(fa).usable_memory_region,
        forall|a: u64|
            #[trigger] crate::page_table::has_table(old(pt).tables@, a)
                ==> crate::page_table::has_table(final(pt).tables@, a)
                && crate::page_table::table_level(final(pt).tables@, a)
                == crate::page_table::table_level(old(pt).tables@, a),
        forall|r2: u64, q: u64|
            #[trigger] spec_translate(old(pt).tables@, r2, q) is Some ==> spec_translate(
                final(pt).tables@,
                r2,
                q,
            ) == spec_translate(old(pt).tables@, r2, q),
        forall|pa: u64|
            has_frame(old(mem).frames@, frame_base(pa)) ==> #[trigger] byte_at(
                final(mem).frames@,
                pa,
            ) == byte_at(old(mem).frames@, pa),
        forall|a: u64|
            #[trigger] has_frame(old(mem).frames@, a) ==> has_frame(final(mem).frames@, a),
        no_huge_entries(old(pt).tables@) ==> no_huge_entries(final(pt).tables@),
        (r is Ok ==> forall|m: int, j: u64|
            0 <= m < ph_count(bin@) && #[trigger] is_load(bin@, m) && j < ph_memsz(bin@, m)
                && ph_vaddr(bin@, m) + vbase + ph_memsz(bin@, m) <= 0x8000_0000_0000
                ==> read_virt(
                final(pt).tables@,
                final(mem).frames@,
                root,
                (vbase + ph_vaddr(bin@, m) + j) as u64,
            ) == Some(
                #[trigger] segment_byte(bin@, ph_offset(bin@, m), ph_filesz(bin@, m), j as int),
            )),
        // installed mappings carry exactly the flag translation of the
        // segment's protection word
        (r is Ok ==> forall|m: int, p: u64|
            0 <= m < ph_count(bin@) && #[trigger] is_load(bin@, m) && seg_in_half(bin@, m, vbase)
                && #[trigger] in_seg_run(seg_va(bin@, m, vbase), ph_memsz(bin@, m) as u64, p)
                ==> entry_flags(walk(final(pt).tables@, root, p)) == spec_segment_flags(
                ph_flags(bin@, m),
            )),
        // success is owed to a loadable image
        (image_loadable(bin@, vbase, old(pt).tables@, root, *old(fa)) ==> r is Ok),
        (r matches Err(e) ==> e == ElfError::SegmentOverlap || e
            == ElfError::FrameAllocationFailed),
{
    let ghost b = bin@;
    let ghost pt0 = *pt;
    let ghost mem0 = *mem;
    let ghost fa0 = *fa;
    let blen = bin.len();
    let phoff = shape.phoff;
    let phnum = shape.phnum;
    let mut i: u16 = 0;
    while i < phnum
        invariant
            loader_inv(*pt, *fa, *mem, root),
            pt0 == *old(pt),
            mem0 == *old(mem),
            fa0 == *old(fa),
            fa.usable_memory_region == fa0.usable_memory_region,
            blen == b.len(),
            b == bin@,
            blen >= 64,
            i <= phnum,
            vbase < 0x8000_0000_0000,
            phnum == ph_count(b),
            phoff == le64(b, 32),
            phoff + 56 * (phnum as int) <= blen,
            layout_ok(b),
            forall|a: u64|
                #[trigger] crate::page_table::has_table(pt0.tables@, a)
                    ==> crate::page_table::has_table(pt.tables@, a)
                    && crate::page_table::table_level(pt.tables@, a)
                    == crate::page_table::table_level(pt0.tables@, a),
            no_huge_entries(pt0.tables@) ==> no_huge_entries(pt.tables@),
            forall|r2: u64, q: u64|
                #[trigger] spec_translate(pt0.tables@, r2, q) is Some ==> spec_translate(
                    pt.tables@,
                    r2,
                    q,
                ) == spec_translate(pt0.tables@, r2, q) && walk(pt.tables@, r2, q) == walk(
                    pt0.tables@,
                    r2,
                    q,
                ),
            // under the loadable hypothesis the budget and the remaining
            // segments' pages are intact
            image_loadable(b, vbase, pt0.tables@, root, fa0) ==> count_free(fa.bits(), 0)
                >= count_free(fa0.bits(), 0) - load_budget(b, i as int) && (forall|
                m: int,
                p: u64,
            |
                i <= m < ph_count(b) && #[trigger] is_load(b, m) && in_seg_run(
                    seg_va(b, m, vbase),
                    ph_memsz(b, m) as u64,
                    p,
                ) ==> #[trigger] spec_translate(pt.tables@, root, p) is None),
            // loaded segments carry their flag translation
            forall|m: int, p: u64|
                0 <= m < i && #[trigger] is_load(b, m) && seg_in_half(b, m, vbase)
                    && #[trigger] in_seg_run(seg_va(b, m, vbase), ph_memsz(b, m) as u64, p)
                    ==> spec_translate(pt.tables@, root, p) is Some && entry_flags(
                    walk(pt.tables@, root, p),
                ) == spec_segment_flags(ph_flags(b, m)),
            forall|pa: u64|
                has_frame(mem0.frames@, frame_base(pa)) ==> #[trigger] byte_at(
                    mem.frames@,
                    pa,
                ) == byte_at(mem0.frames@, pa),
            forall|a: u64|
                #[trigger] has_frame(mem0.frames@, a) ==> has_frame(mem.frames@, a),
            forall|m: int, j: u64|
                0 <= m < i && #[trigger] is_load(b, m) && j < ph_memsz(b, m) && ph_vaddr(b, m)
                    + vbase + ph_memsz(b, m) <= 0x8000_0000_0000 ==> read_virt(
                    pt.tables@,
                    mem.frames@,
                    root,
                    (vbase + ph_vaddr(b, m) + j) as u64,
                ) == Some(
                    #[trigger] segment_byte(b, ph_offset(b, m), ph_filesz(b, m), j as int),
                ),
            forall|m: int, j: u64|
                0 <= m < i && #[trigger] is_load(b, m) && j < ph_memsz(b, m) && ph_vaddr(b, m)
                    + vbase + ph_memsz(b, m) <= 0x8000_0000_0000 ==> ((#[trigger] spec_translate(
                    pt.tables@,
                    root,
                    (((vbase + ph_vaddr(b, m) + j) as u64) / PAGE_SIZE) as u64,
                )) matches Some(f) && has_frame(mem.frames@, f)),
        decreases phnum - i,
    {
        let ghost pt_prev = *pt;
        let ghost mem_prev = *mem;
        let base = (phoff + 56 * (i as u64)) as usize;
        let ptype = read_u32(bin, base);
        if ptype == 1 {
            let memsz = read_u64(bin, base + 40);
            if memsz > 0 {
                let filesz = read_u64(bin, base + 32);
                let offset = read_u64(bin, base + 8);
                let vaddr = read_u64(bin, base + 16);
                let pflags = read_u32(bin, base + 4);
                proof {
                    assert(is_load(b, i as int));
                    assert(offset == ph_offset(b, i as int));
                    assert(filesz == ph_filesz(b, i as int));
                    assert(memsz == ph_memsz(b, i as int));
                    assert(vaddr == ph_vaddr(b, i as int));
                    assert(ph_offset(b, i as int) + ph_filesz(b, i as int) <= blen);
                }
                if vaddr > u64::MAX - vbase {
                    proof {
                        if image_loadable(b, vbase, pt0.tables@, root, fa0) {
                            assert(seg_in_half(b, i as int, vbase));
                            assert(false);
                        }
                    }
                    return Err(ElfError::SegmentOverlap);
                }
                let va = vbase + vaddr;
                if memsz > 0x8000_0000_0000 || va > 0x8000_0000_0000 - memsz {
                    // the segment would reach into the kernel half
                    proof {
                        if image_loadable(b, vbase, pt0.tables@, root, fa0) {
                            assert(seg_in_half(b, i as int, vbase));
                            assert(false);
                        }
                    }
                    return Err(ElfError::SegmentOverlap);
                }
                let flags = segment_flags(pflags);
                proof {
                    assert(pflags == ph_flags(b, i as int));
                }
                let ghost fa_at = *fa;
                match load_segment(pt, fa, mem, root, bin, offset, filesz, va, memsz, flags) {
                    Ok(()) => {},
                    Err(ElfError::FrameAllocationFailed) => {
                        proof {
                            if image_loadable(b, vbase, pt0.tables@, root, fa0) {
                                lemma_load_budget_monotone(b, i as int + 1, ph_count(b));
                                assert(load_budget(b, i as int + 1) == load_budget(b, i as int)
                                    + 4 * (ph_memsz(b, i as int) / PAGE_SIZE as int) + 8);
                                assert(count_free(fa_at.bits(), 0) >= 4 * (memsz as int
                                    / PAGE_SIZE as int) + 8);
                                assert(false);
                            }
                        }
                        return Err(ElfError::FrameAllocationFailed);
                    },
                    Err(_) => {
                        proof {
                            if image_loadable(b, vbase, pt0.tables@, root, fa0) {
                                assert(seg_va(b, i as int, vbase) == va);
                                assert(false);
                            }
                        }
                        return Err(ElfError::SegmentOverlap);
                    },
                }
                proof {
                    assert(seg_va(b, i as int, vbase) == va);
                    assert forall|a: u64| #[trigger]
                        crate::page_table::has_table(pt0.tables@, a) implies
                        crate::page_table::has_table(pt.tables@, a)
                        && crate::page_table::table_level(pt.tables@, a)
                        == crate::page_table::table_level(pt0.tables@, a) by {
                        assert(crate::page_table::has_table(pt_prev.tables@, a)
                            && crate::page_table::table_level(pt_prev.tables@, a)
                            == crate::page_table::table_level(pt0.tables@, a));
                    }
                    // the walk of every surviving translation is intact
                    assert forall|r2: u64, q: u64| #[trigger]
                        spec_translate(pt0.tables@, r2, q) is Some implies spec_translate(
                        pt.tables@,
                        r2,
                        q,
                    ) == spec_translate(pt0.tables@, r2, q) && walk(pt.tables@, r2, q) == walk(
                        pt0.tables@,
                        r2,
                        q,
                    ) by {
                        assert(spec_translate(pt_prev.tables@, r2, q) == spec_translate(
                            pt0.tables@,
                            r2,
                            q,
                        ) && walk(pt_prev.tables@, r2, q) == walk(pt0.tables@, r2, q));
                        assert(spec_translate(pt_prev.tables@, r2, q) is Some);
                    }
                    // under the loadable hypothesis: budget and untouched
                    // remaining segments
                    if image_loadable(b, vbase, pt0.tables@, root, fa0) {
                        lemma_load_budget_monotone(b, i as int + 1, ph_count(b));
                        assert(load_budget(b, i as int + 1) == load_budget(b, i as int) + 4 * (
                        ph_memsz(b, i as int) / PAGE_SIZE as int) + 8);
                        assert forall|m: int, p: u64|
                            i + 1 <= m < ph_count(b) && #[trigger] is_load(b, m) && in_seg_run(
                                seg_va(b, m, vbase),
                                ph_memsz(b, m) as u64,
                                p,
                            ) implies #[trigger] spec_translate(pt.tables@, root, p)
                            is None by {
                            assert(seg_in_half(b, m, vbase));
                            lemma_run_page_normal(
                                seg_va(b, m, vbase),
                                ph_memsz(b, m) as u64,
                                p,
                            );
                            assert(is_load(b, i as int) && is_load(b, m) && m != i);
                            assert(!in_seg_run(va, memsz, p));
                            assert(spec_translate(pt.tables@, root, p) == spec_translate(
                                pt_prev.tables@,
                                root,
                                p,
                            ));
                        }
                    }
                    // flag translation of the loaded segments
                    assert forall|m: int, p: u64|
                        0 <= m < i + 1 && #[trigger] is_load(b, m) && seg_in_half(b, m, vbase)
                            && #[trigger] in_seg_run(
                            seg_va(b, m, vbase),
                            ph_memsz(b, m) as u64,
                            p,
                        ) implies spec_translate(pt.tables@, root, p) is Some && entry_flags(
                        walk(pt.tables@, root, p),
                    ) == spec_segment_flags(ph_flags(b, m)) by {
                        if m < i {
                            assert(spec_translate(pt_prev.tables@, root, p) is Some);
                            assert(spec_translate(pt.tables@, root, p) == spec_translate(
                                pt_prev.tables@,
                                root,
                                p,
                            ) && walk(pt.tables@, root, p) == walk(pt_prev.tables@, root, p));
                        } else {
                            assert(m == i);
                            assert(in_seg_run(va, memsz, p));
                        }
                    }
                    assert forall|m: int, j: u64|
                        0 <= m < i + 1 && #[trigger] is_load(b, m) && j < ph_memsz(b, m)
                            && ph_vaddr(b, m) + vbase + ph_memsz(b, m)
                            <= 0x8000_0000_0000 implies read_virt(
                        pt.tables@,
                        mem.frames@,
                        root,
                        (vbase + ph_vaddr(b, m) + j) as u64,
                    ) == Some(
                        #[trigger] segment_byte(b, ph_offset(b, m), ph_filesz(b, m), j as int),
                    ) by {
                        if m < i {
                            let vam = (vbase + ph_vaddr(b, m) + j) as u64;
                            assert(read_virt(pt_prev.tables@, mem_prev.frames@, root, vam)
                                == Some(
                                segment_byte(b, ph_offset(b, m), ph_filesz(b, m), j as int),
                            ));
                            let pnm = (vam / PAGE_SIZE) as u64;
                            assert((spec_translate(pt_prev.tables@, root, pnm)) matches Some(fm)
                                && has_frame(mem_prev.frames@, fm));
                            assert(spec_translate(pt.tables@, root, pnm) == spec_translate(
                                pt_prev.tables@,
                                root,
                                pnm,
                            ));
                            proof_read_survives(
                                pt_prev.tables@,
                                pt.tables@,
                                mem_prev.frames@,
                                mem.frames@,
                                root,
                                vam,
                            );
                        } else {
                            assert(m == i);
                        }
                    }
                    assert forall|m: int, j: u64|
                        0 <= m < i + 1 && #[trigger] is_load(b, m) && j < ph_memsz(b, m)
                            && ph_vaddr(b, m) + vbase + ph_memsz(b, m)
                            <= 0x8000_0000_0000 implies ((#[trigger] spec_translate(
                        pt.tables@,
                        root,
                        (((vbase + ph_vaddr(b, m) + j) as u64) / PAGE_SIZE) as u64,
                    )) matches Some(f) && has_frame(mem.frames@, f)) by {
                        let vam = (vbase + ph_vaddr(b, m) + j) as u64;
                        let pnm = (vam / PAGE_SIZE) as u64;
                        if m < i {
                            assert((spec_translate(pt_prev.tables@, root, pnm)) matches Some(fm)
                                && has_frame(mem_prev.frames@, fm));
                            assert(spec_translate(pt.tables@, root, pnm) == spec_translate(
                                pt_prev.tables@,
                                root,
                                pnm,
                            ));
                        } else {
                            assert(m == i);
                        }
                    }
                }
            }
        }
        i = i + 1;
    }
    Ok(())
}

/// An unchanged translation into a preserved data frame reads the same
/// value.
proof fn proof_read_survives(
    ts_a: Seq<crate::page_table::PageTable>,
    ts_b: Seq<crate::page_table::PageTable>,
    ms_a: Seq<crate::mem::DataFrame>,
    ms_b: Seq<crate::mem::DataFrame>,
    root: u64,
    va: u64,
)
    requires
        spec_translate(ts_b, root, (va / PAGE_SIZE) as u64) == spec_translate(
            ts_a,
            root,
            (va / PAGE_SIZE) as u64,
        ),
        forall|pa: u64|
            has_frame(ms_a, frame_base(pa)) ==> #[trigger] byte_at(ms_b, pa) == byte_at(
                ms_a,
                pa,
            ),
        (spec_translate(ts_a, root, (va / PAGE_SIZE) as u64)) matches Some(f) && has_frame(
            ms_a,
            f,
        ),
    ensures
        read_virt(ts_b, ms_b, root, va) == read_virt(ts_a, ms_a, root, va),
{
    let f = spec_translate(ts_a, root, (va / PAGE_SIZE) as u64)->Some_0;
    lemma_translate_addr_bound(ts_a, root, (va / PAGE_SIZE) as u64);
    lemma_mod_bound(va as int, PAGE_SIZE as int);
    lemma_frame_base_of(f, va % PAGE_SIZE);
    assert(has_frame(ms_a, frame_base((f + (va % PAGE_SIZE)) as u64)));
}

/// Applies the `R_X86_64_RELATIVE` relocations of a validated image; any
/// other relocation kind, or one aimed at unmapped memory, is refused.
/// An image without relocation sections is left untouched.
#[verifier::rlimit(100)]
/// Offset in the image of relocation entry `k` of section `si`.
pub open spec fn rela_entry_base(b: Seq<u8>, si: int, k: int) -> int {
    le64(b, sh_base(b, si) + 24) + 24 * k
}

/// The place field of relocation entry `k` of section `si`: where the
/// word goes, relative to the load base.
pub open spec fn rela_offset(b: Seq<u8>, si: int, k: int) -> int {
    le64(b, rela_entry_base(b, si, k))
}

/// The addend field of relocation entry `k` of section `si`.
pub open spec fn rela_addend(b: Seq<u8>, si: int, k: int) -> int {
    le64(b, rela_entry_base(b, si, k) + 16)
}

/// No two relocation entries aim at overlapping words.
pub open spec fn rela_windows_disjoint(b: Seq<u8>) -> bool {
    forall|s1: int, k1: int, s2: int, k2: int|
        #![trigger rela_offset(b, s1, k1), rela_offset(b, s2, k2)]
        0 <= s1 < sh_count(b) && sh_is_rela(b, s1) && 0 <= k1 < rela_count(b, s1) && 0 <= s2
            < sh_count(b) && sh_is_rela(b, s2) && 0 <= k2 < rela_count(b, s2) && !(s1 == s2 && k1
            == k2) ==> rela_offset(b, s1, k1) + 8 <= rela_offset(b, s2, k2) || rela_offset(
            b,
            s2,
            k2,
        ) + 8 <= rela_offset(b, s1, k1)
}

/// The mapping is unaliased: distinct mapped pages hold distinct frames.
pub open spec fn translate_injective(ts: Seq<crate::page_table::PageTable>, root: u64) -> bool {
    forall|p1: u64, p2: u64|
        (#[trigger] spec_translate(ts, root, p1)) is Some && (#[trigger] spec_translate(
            ts,
            root,
            p2,
        )) is Some && spec_translate(ts, root, p1) == spec_translate(ts, root, p2) ==> p1 == p2
}

/// Relocation entry `(si, k)` has been applied: its eight target bytes
/// read back as the load base plus the addend, little-endian.
pub open spec fn rela_applied(
    ts: Seq<crate::page_table::PageTable>,
    ms: Seq<crate::mem::DataFrame>,
    root: u64,
    b: Seq<u8>,
    vbase: u64,
    si: int,
    k: int,
) -> bool {
    &&& rela_offset(b, si, k) <= u64::MAX - vbase - 8
    &&& rela_addend(b, si, k) <= u64::MAX - vbase
    &&& forall|m: int|
        0 <= m < 8 ==> #[trigger] crate::mem::read_virt(
            ts,
            ms,
            root,
            (vbase + rela_offset(b, si, k) + m) as u64,
        ) == Some(
            ((((vbase + rela_addend(b, si, k)) as u64) >> ((8 * m) as u64)) & 0xFF) as u8,
        )
}

/// In an unaliased mapping, distinct mapped virtual addresses resolve to
/// distinct physical bytes.
proof fn lemma_distinct_va_distinct_pa(
    ts: Seq<crate::page_table::PageTable>,
    root: u64,
    va1: u64,
    va2: u64,
)
    requires
        translate_injective(ts, root),
        va1 != va2,
        spec_translate(ts, root, (va1 / PAGE_SIZE) as u64) is Some,
        spec_translate(ts, root, (va2 / PAGE_SIZE) as u64) is Some,
    ensures
        (spec_translate(ts, root, (va1 / PAGE_SIZE) as u64)->Some_0 + va1 % PAGE_SIZE) as u64
            != (spec_translate(ts, root, (va2 / PAGE_SIZE) as u64)->Some_0 + va2
            % PAGE_SIZE) as u64,
{
    let p1 = (va1 / PAGE_SIZE) as u64;
    let p2 = (va2 / PAGE_SIZE) as u64;
    let f1 = spec_translate(ts, root, p1)->Some_0;
    let f2 = spec_translate(ts, root, p2)->Some_0;
    lemma_translate_addr_bound(ts, root, p1);
    lemma_translate_addr_bound(ts, root, p2);
    lemma_mod_bound(va1 as int, PAGE_SIZE as int);
    lemma_mod_bound(va2 as int, PAGE_SIZE as int);
    lemma_fundamental_div_mod(va1 as int, PAGE_SIZE as int);
    lemma_fundamental_div_mod(va2 as int, PAGE_SIZE as int);
    if p1 == p2 {
        assert(va1 % PAGE_SIZE != va2 % PAGE_SIZE);
    } else {
        assert(f1 != f2);
        lemma_fundamental_div_mod(f1 as int, PAGE_SIZE as int);
        lemma_fundamental_div_mod(f2 as int, PAGE_SIZE as int);
        assert(f1 + va1 % PAGE_SIZE != f2 + va2 % PAGE_SIZE) by (nonlinear_arith)
            requires
                f1 as int == PAGE_SIZE as int * (f1 as int / PAGE_SIZE as int),
                f2 as int == PAGE_SIZE as int * (f2 as int / PAGE_SIZE as int),
                f1 != f2,
                0 <= (va1 as int % PAGE_SIZE as int),
                (va1 as int % PAGE_SIZE as int) < PAGE_SIZE as int,
                0 <= (va2 as int % PAGE_SIZE as int),
                (va2 as int % PAGE_SIZE as int) < PAGE_SIZE as int,
                PAGE_SIZE == 4096,
        ;
    }
}

/// An applied relocation survives a write at any byte outside its word.
proof fn lemma_rela_applied_preserved(
    ts: Seq<crate::page_table::PageTable>,
    ms_old: Seq<crate::mem::DataFrame>,
    ms_new: Seq<crate::mem::DataFrame>,
    root: u64,
    b: Seq<u8>,
    vbase: u64,
    s2: int,
    k2: int,
    va_w: u64,
)
    requires
        translate_injective(ts, root),
        rela_applied(ts, ms_old, root, b, vbase, s2, k2),
        forall|m2: int|
            0 <= m2 < 8 ==> va_w != #[trigger] ((vbase + rela_offset(b, s2, k2) + m2) as u64),
        spec_translate(ts, root, (va_w / PAGE_SIZE) as u64) is Some,
        forall|q: u64|
            q != (spec_translate(ts, root, (va_w / PAGE_SIZE) as u64)->Some_0 + va_w
                % PAGE_SIZE) as u64 ==> #[trigger] byte_at(ms_new, q) == byte_at(ms_old, q),
    ensures
        rela_applied(ts, ms_new, root, b, vbase, s2, k2),
{
    assert forall|m2: int| 0 <= m2 < 8 implies #[trigger] crate::mem::read_virt(
        ts,
        ms_new,
        root,
        (vbase + rela_offset(b, s2, k2) + m2) as u64,
    ) == Some(
        ((((vbase + rela_addend(b, s2, k2)) as u64) >> ((8 * m2) as u64)) & 0xFF) as u8,
    ) by {
        let va_r = (vbase + rela_offset(b, s2, k2) + m2) as u64;
        assert(crate::mem::read_virt(ts, ms_old, root, va_r) == Some(
            ((((vbase + rela_addend(b, s2, k2)) as u64) >> ((8 * m2) as u64)) & 0xFF) as u8,
        ));
        lemma_distinct_va_distinct_pa(ts, root, va_r, va_w);
    }
}

fn apply_relocations(
    pt: &PageTables,
    fa: &PhysFrameAllocator,
    mem: &mut PhysMemory,
    root: u64,
    bin: &Vec<u8>,
    vbase: u64,
    shape: &ElfShape,
) -> (r: Result<(), ElfError>)
    requires
        pt.wf(),
        old(mem).wf(),
        mem_linked(old(mem).frames@, *fa),
        vbase < 0x8000_0000_0000,
        bin@.len() >= 64,
        shape.shoff == le64(bin@, 40),
        shape.shnum == sh_count(bin@),
        shape.shnum > 0 ==> shape.shoff + 64 * (shape.shnum as int) <= bin@.len() && shape.shoff
            != 0,
    ensures
        final(mem).wf(),
        mem_linked(final(mem).frames@, *fa),
        forall|a: u64|
            #[trigger] has_frame(final(mem).frames@, a) == has_frame(old(mem).frames@, a),
        (no_relas(bin@) ==> *final(mem) == *old(mem)),
        (no_relas(bin@) ==> r is Ok),
        // only relative relocations pass
        (r is Ok ==> forall|si: int, k: int|
            0 <= si < sh_count(bin@) && #[trigger] sh_is_rela(bin@, si) && 0 <= k < rela_count(
                bin@,
                si,
            ) ==> #[trigger] rela_type(bin@, si, k) == 8),
        // with disjoint words and an unaliased mapping, every entry's
        // word reads back as the load base plus the addend
        (r is Ok && rela_windows_disjoint(bin@) && translate_injective(pt.tables@, root)
            ==> forall|si: int, k: int|
            0 <= si < sh_count(bin@) && sh_is_rela(bin@, si) && 0 <= k < rela_count(bin@, si)
                ==> #[trigger] rela_applied(pt.tables@, final(mem).frames@, root, bin@, vbase, si, k)),
        (r matches Err(e) ==> e == ElfError::BadRelocation),
{
    let ghost b = bin@;
    let ghost mem0 = *mem;
    let ghost h = rela_windows_disjoint(b) && translate_injective(pt.tables@, root);
    let blen = bin.len();
    let shoff = shape.shoff;
    let shnum = shape.shnum;
    if shnum == 0 {
        return Ok(());
    }
    let mut si: u16 = 0;
    while si < shnum
        invariant
            pt.wf(),
            mem.wf(),
            mem_linked(mem.frames@, *fa),
            mem0 == *old(mem),
            blen == b.len(),
            b == bin@,
            blen >= 64,
            si <= shnum,
            vbase < 0x8000_0000_0000,
            shoff == le64(b, 40),
            shoff != 0,
            shnum == sh_count(b),
            shoff + 64 * (shnum as int) <= blen,
            forall|a: u64|
                #[trigger] has_frame(mem.frames@, a) == has_frame(mem0.frames@, a),
            no_relas(b) ==> *mem == mem0,
            h == (rela_windows_disjoint(b) && translate_injective(pt.tables@, root)),
            forall|s2: int, k: int|
                0 <= s2 < si && #[trigger] sh_is_rela(b, s2) && 0 <= k < rela_count(b, s2)
                    ==> #[trigger] rela_type(b, s2, k) == 8,
            h ==> forall|s2: int, k2: int|
                0 <= s2 < si && sh_is_rela(b, s2) && 0 <= k2 < rela_count(b, s2)
                    ==> #[trigger] rela_applied(pt.tables@, mem.frames@, root, b, vbase, s2, k2),
        decreases shnum - si,
    {
        let sbase = (shoff + 64 * (si as u64)) as usize;
        let stype = read_u32(bin, sbase + 4);
        if stype == 4 {
            proof {
                assert(le32(b, sh_base(b, si as int) + 4) == 4);
                assert(!no_relas(b));
            }
            let soff = read_u64(bin, sbase + 24);
            let ssize = read_u64(bin, sbase + 32);
            let sentsize = read_u64(bin, sbase + 56);
            if sentsize != 24 || ssize % 24 != 0 || soff > blen as u64 || ssize > blen as u64
                - soff {
                // a malformed relocation table is a bad relocation
                return Err(ElfError::BadRelocation);
            }
            let nrel = ssize / 24;
            let mut k: u64 = 0;
            while k < nrel
                invariant
                    pt.wf(),
                    mem.wf(),
                    mem_linked(mem.frames@, *fa),
                    mem0 == *old(mem),
                    blen == b.len(),
                    b == bin@,
                    k <= nrel,
                    vbase < 0x8000_0000_0000,
                    soff + ssize <= blen,
                    nrel == ssize / 24,
                    ssize % 24 == 0,
                    soff == le64(b, sh_base(b, si as int) + 24),
                    nrel == rela_count(b, si as int),
                    forall|a: u64|
                        #[trigger] has_frame(mem.frames@, a) == has_frame(mem0.frames@, a),
                    forall|s2: int, k2: int|
                        0 <= s2 < si && #[trigger] sh_is_rela(b, s2) && 0 <= k2 < rela_count(
                            b,
                            s2,
                        ) ==> #[trigger] rela_type(b, s2, k2) == 8,
                    forall|k2: int|
                        0 <= k2 < k ==> #[trigger] rela_type(b, si as int, k2) == 8,
                    h == (rela_windows_disjoint(b) && translate_injective(pt.tables@, root)),
                    sh_is_rela(b, si as int),
                    h ==> forall|s2: int, k2: int|
                        (0 <= s2 < si && sh_is_rela(b, s2) && 0 <= k2 < rela_count(b, s2)) || (s2
                            == si && 0 <= k2 < k) ==> #[trigger] rela_applied(
                            pt.tables@,
                            mem.frames@,
                            root,
                            b,
                            vbase,
                            s2,
                            k2,
                        ),
                decreases nrel - k,
            {
                proof {
                    lemma_rela_bounds(soff as int, ssize as int, k as int, blen as int);
                }
                let rbase = (soff + 24 * k) as usize;
                let roff = read_u64(bin, rbase);
                let rinfo = read_u64(bin, rbase + 8);
                let addend = read_u64(bin, rbase + 16);
                if rinfo & 0xFFFF_FFFF != 8 {
                    return Err(ElfError::BadRelocation);
                }
                proof {
                    assert(rinfo & 0xFFFF_FFFF == rinfo % 0x1_0000_0000) by (bit_vector);
                    assert(rela_type(b, si as int, k as int) == 8);
                }
                if roff > u64::MAX - vbase - 8 || addend > u64::MAX - vbase {
                    return Err(ElfError::BadRelocation);
                }
                proof {
                    assert(rela_entry_base(b, si as int, k as int) == soff + 24 * k);
                    assert(roff == rela_offset(b, si as int, k as int));
                    assert(addend == rela_addend(b, si as int, k as int));
                }
                let target = vbase + roff;
                let value = vbase + addend;
                let mut m: u64 = 0;
                while m < 8
                    invariant
                        pt.wf(),
                        mem.wf(),
                        mem_linked(mem.frames@, *fa),
                        mem0 == *old(mem),
                        m <= 8,
                        target <= u64::MAX - 8,
                        target == vbase + roff,
                        value == vbase + addend,
                        roff <= u64::MAX - vbase - 8,
                        addend <= u64::MAX - vbase,
                        roff == rela_offset(b, si as int, k as int),
                        addend == rela_addend(b, si as int, k as int),
                        k < nrel,
                        nrel == rela_count(b, si as int),
                        sh_is_rela(b, si as int),
                        si < shnum,
                        shnum == sh_count(b),
                        b == bin@,
                        h == (rela_windows_disjoint(b) && translate_injective(pt.tables@, root)),
                        forall|a: u64|
                            #[trigger] has_frame(mem.frames@, a) == has_frame(mem0.frames@, a),
                        h ==> forall|s2: int, k2: int|
                            (0 <= s2 < si && sh_is_rela(b, s2) && 0 <= k2 < rela_count(b, s2)) || (
                            s2 == si && 0 <= k2 < k) ==> #[trigger] rela_applied(
                                pt.tables@,
                                mem.frames@,
                                root,
                                b,
                                vbase,
                                s2,
                                k2,
                            ),
                        h ==> forall|m2: int|
                            0 <= m2 < m ==> #[trigger] crate::mem::read_virt(
                                pt.tables@,
                                mem.frames@,
                                root,
                                (target + m2) as u64,
                            ) == Some((((value) >> ((8 * m2) as u64)) & 0xFF) as u8),
                    decreases 8 - m,
                {
                    let ghost mem_w = *mem;
                    proof {
                        assert(((value >> (8 * m)) & 0xFF) < 256) by (bit_vector);
                    }
                    let byte = ((value >> (8 * m)) & 0xFF) as u8;
                    let tva = target + m;
                    proof {
                        lemma_reloc_target(pt.tables@, mem.frames@, root, tva);
                    }
                    let ok = write_virt_byte_checked(pt, mem, root, tva, byte);
                    if !ok {
                        return Err(ElfError::BadRelocation);
                    }
                    proof {
                        assert forall|i2: int|
                            0 <= i2 < mem.frames@.len() && fa.in_range(
                                (#[trigger] mem.frames@[i2]).addr,
                            ) implies fa.bits()[fa.index_of(mem.frames@[i2].addr)] by {
                            assert(mem.frames@[i2].addr == mem_w.frames@[i2].addr);
                        }
                        if h {
                            // entries already applied survive this byte
                            assert forall|s2: int, k2: int|
                                (0 <= s2 < si && sh_is_rela(b, s2) && 0 <= k2 < rela_count(
                                    b,
                                    s2,
                                )) || (s2 == si && 0 <= k2 < k) implies #[trigger] rela_applied(
                                pt.tables@,
                                mem.frames@,
                                root,
                                b,
                                vbase,
                                s2,
                                k2,
                            ) by {
                                assert(rela_applied(
                                    pt.tables@,
                                    mem_w.frames@,
                                    root,
                                    b,
                                    vbase,
                                    s2,
                                    k2,
                                ));
                                assert(rela_offset(b, s2, k2) + 8 <= rela_offset(
                                    b,
                                    si as int,
                                    k as int,
                                ) || rela_offset(b, si as int, k as int) + 8 <= rela_offset(
                                    b,
                                    s2,
                                    k2,
                                ));
                                assert forall|m2: int|
                                    0 <= m2 < 8 implies tva != #[trigger] ((vbase + rela_offset(
                                    b,
                                    s2,
                                    k2,
                                ) + m2) as u64) by {}
                                lemma_rela_applied_preserved(
                                    pt.tables@,
                                    mem_w.frames@,
                                    mem.frames@,
                                    root,
                                    b,
                                    vbase,
                                    s2,
                                    k2,
                                    tva,
                                );
                            }
                            // the bytes of this word written so far stand
                            assert forall|m2: int|
                                0 <= m2 < m + 1 implies #[trigger] crate::mem::read_virt(
                                pt.tables@,
                                mem.frames@,
                                root,
                                (target + m2) as u64,
                            ) == Some((((value) >> ((8 * m2) as u64)) & 0xFF) as u8) by {
                                if m2 < m {
                                    let va_r = (target + m2) as u64;
                                    assert(crate::mem::read_virt(
                                        pt.tables@,
                                        mem_w.frames@,
                                        root,
                                        va_r,
                                    ) == Some((((value) >> ((8 * m2) as u64)) & 0xFF) as u8));
                                    lemma_distinct_va_distinct_pa(pt.tables@, root, va_r, tva);
                                } else {
                                    assert((8 * m2) as u64 == 8 * m);
                                    assert(crate::mem::read_virt(
                                        pt.tables@,
                                        mem.frames@,
                                        root,
                                        tva,
                                    ) == Some(byte));
                                }
                            }
                        }
                    }
                    m = m + 1;
                }
                proof {
                    if h {
                        assert(rela_applied(
                            pt.tables@,
                            mem.frames@,
                            root,
                            b,
                            vbase,
                            si as int,
                            k as int,
                        )) by {
                            assert forall|m2: int|
                                0 <= m2 < 8 implies #[trigger] crate::mem::read_virt(
                                pt.tables@,
                                mem.frames@,
                                root,
                                (vbase + rela_offset(b, si as int, k as int) + m2) as u64,
                            ) == Some(
                                ((((vbase + rela_addend(b, si as int, k as int)) as u64) >> ((8
                                    * m2) as u64)) & 0xFF) as u8,
                            ) by {
                                assert((vbase + rela_offset(b, si as int, k as int)
                                    + m2) as u64 == (target + m2) as u64);
                                assert((vbase + rela_addend(b, si as int, k as int)) as u64
                                    == value);
                            }
                        }
                    }
                }
                k = k + 1;
            }
            proof {
                assert forall|s2: int, k2: int|
                    0 <= s2 < si + 1 && #[trigger] sh_is_rela(b, s2) && 0 <= k2 < rela_count(
                        b,
                        s2,
                    ) implies #[trigger] rela_type(b, s2, k2) == 8 by {}
            }
        }
        si = si + 1;
    }
    Ok(())
}

/// Writes a byte through a virtual address when the page is mapped and
/// backed by a data frame; reports failure otherwise.
fn write_virt_byte_checked(
    pt: &PageTables,
    mem: &mut PhysMemory,
    root: u64,
    va: u64,
    v: u8,
) -> (r: bool)
    requires
        pt.wf(),
        old(mem).wf(),
    ensures
        final(mem).wf(),
        final(mem).frames@.len() == old(mem).frames@.len(),
        forall|i: int|
            0 <= i < old(mem).frames@.len() ==> (#[trigger] final(mem).frames@[i]).addr == old(
                mem,
            ).frames@[i].addr,
        forall|a: u64|
            #[trigger] has_frame(final(mem).frames@, a) == has_frame(old(mem).frames@, a),
        !r ==> *final(mem) == *old(mem),
        r ==> crate::mem::read_virt(pt.tables@, final(mem).frames@, root, va) == Some(v),
        r ==> spec_translate(pt.tables@, root, (va / PAGE_SIZE) as u64) is Some,
        (spec_translate(pt.tables@, root, (va / PAGE_SIZE) as u64) matches Some(f) ==> forall|
            q: u64,
        |
            q != (f + va % PAGE_SIZE) as u64 ==> #[trigger] byte_at(final(mem).frames@, q)
                == byte_at(old(mem).frames@, q)),
{
    let pn = va / PAGE_SIZE;
    proof {
        lemma_mod_bound(va as int, PAGE_SIZE as int);
        lemma_translate_addr_bound(pt.tables@, root, pn);
    }
    match pt.translate(root, pn) {
        Some(f) => {
            let pa = f + (va % PAGE_SIZE);
            let base = pa - (pa % PAGE_SIZE);
            proof {
                lemma_frame_base_of(f, va % PAGE_SIZE);
            }
            if mem.has_frame_at(base) {
                mem.write_byte(pa, v);
                true
            } else {
                false
            }
        },
        None => false,
    }
}

/// Loads an ELF image into the address space rooted at `root`, every
/// segment placed at `vbase` plus its virtual address, and returns the
/// relocated entry point.  With no relocation sections, every byte of
/// every loadable segment afterwards reads back as the file byte, or
/// zero in the BSS tail.
pub fn load_elf(
    pt: &mut PageTables,
    fa: &mut PhysFrameAllocator,
    mem: &mut PhysMemory,
    root: u64,
    bin: &Vec<u8>,
    vbase: u64,
) -> (r: Result<u64, ElfError>)
    requires
        loader_inv(*old(pt), *old(fa), *old(mem), root),
        vbase < 0x8000_0000_0000,
    ensures
        loader_inv(*final(pt), *final(fa), *final(mem), root),
        final(fa).usable_memory_region == old(fa).usable_memory_region,
        forall|a: u64|
            #[trigger] crate::page_table::has_table(old(pt).tables@, a)
                ==> crate::page_table::has_table(final(pt).tables@, a)
                && crate::page_table::table_level(final(pt).tables@, a)
                == crate::page_table::table_level(old(pt).tables@, a),
        forall|r2: u64, q: u64|
            #[trigger] spec_translate(old(pt).tables@, r2, q) is Some ==> spec_translate(
                final(pt).tables@,
                r2,
                q,
            ) == spec_translate(old(pt).tables@, r2, q),
        no_huge_entries(old(pt).tables@) ==> no_huge_entries(final(pt).tables@),
        // without relocation sections, bytes outside the segments survive
        (no_relas(bin@) ==> forall|pa: u64|
            has_frame(old(mem).frames@, frame_base(pa)) ==> #[trigger] byte_at(
                final(mem).frames@,
                pa,
            ) == byte_at(old(mem).frames@, pa)),
        // success is owed to a well-formed, loadable, relocation-free image
        (magic_ok(bin@) && class_ok(bin@) && layout_ok(bin@) && elf_entry(bin@) + vbase
            <= u64::MAX && no_relas(bin@) && image_loadable(
            bin@,
            vbase,
            old(pt).tables@,
            root,
            *old(fa),
        ) ==> r is Ok),
        (r == Err::<u64, ElfError>(ElfError::BadMagic) <==> !magic_ok(bin@)),
        (magic_ok(bin@) && !(class_ok(bin@) && layout_ok(bin@) && elf_entry(bin@) + vbase
            <= u64::MAX) ==> r == Err::<u64, ElfError>(ElfError::UnsupportedClass)),
        (r == Err::<u64, ElfError>(ElfError::UnsupportedClass) ==> !(class_ok(bin@) && layout_ok(
            bin@,
        ) && elf_entry(bin@) + vbase <= u64::MAX)),
        (match r {
            Ok(e) => {
                &&& e == elf_entry(bin@) + vbase
                &&& (forall|si: int, k: int|
                    0 <= si < sh_count(bin@) && #[trigger] sh_is_rela(bin@, si) && 0 <= k
                        < rela_count(bin@, si) ==> #[trigger] rela_type(bin@, si, k) == 8)
                // with disjoint words and an unaliased mapping, every
                // relocated word reads back as the base plus the addend
                &&& (rela_windows_disjoint(bin@) && translate_injective(final(pt).tables@, root)
                    ==> forall|si: int, k: int|
                    0 <= si < sh_count(bin@) && sh_is_rela(bin@, si) && 0 <= k < rela_count(
                        bin@,
                        si,
                    ) ==> #[trigger] rela_applied(
                        final(pt).tables@,
                        final(mem).frames@,
                        root,
                        bin@,
                        vbase,
                        si,
                        k,
                    ))
                &&& (forall|m: int, p: u64|
                    0 <= m < ph_count(bin@) && #[trigger] is_load(bin@, m) && seg_in_half(
                        bin@,
                        m,
                        vbase,
                    ) && #[trigger] in_seg_run(
                        seg_va(bin@, m, vbase),
                        ph_memsz(bin@, m) as u64,
                        p,
                    ) ==> entry_flags(walk(final(pt).tables@, root, p)) == spec_segment_flags(
                        ph_flags(bin@, m),
                    ))
                &&& (no_relas(bin@) ==> forall|m: int, j: u64|
                    0 <= m < ph_count(bin@) && #[trigger] is_load(bin@, m) && j < ph_memsz(
                        bin@,
                        m,
                    ) && ph_vaddr(bin@, m) + vbase + ph_memsz(bin@, m) <= 0x8000_0000_0000
                        ==> read_virt(
                        final(pt).tables@,
                        final(mem).frames@,
                        root,
                        (vbase + ph_vaddr(bin@, m) + j) as u64,
                    ) == Some(
                        #[trigger] segment_byte(
                            bin@,
                            ph_offset(bin@, m),
                            ph_filesz(bin@, m),
                            j as int,
                        ),
                    ))
            },
            Err(_) => true,
        }),
{
    let shape = match validate_elf(bin, vbase) {
        Ok(sh) => sh,
        Err(e) => {
            return Err(e);
        },
    };
    let ghost pt_a = *pt;
    let ghost mem_a = *mem;
    match load_segments(pt, fa, mem, root, bin, vbase, &shape) {
        Ok(()) => {},
        Err(e) => {
            return Err(e);
        },
    }
    let ghost pt_b = *pt;
    let ghost mem_b = *mem;
    match apply_relocations(pt, fa, mem, root, bin, vbase, &shape) {
        Ok(()) => {},
        Err(e) => {
            return Err(e);
        },
    }
    proof {
        if no_relas(bin@) {
            assert(*mem == mem_b);
        }
    }
    Ok(vbase + shape.entry)
}


/// The allocator region is unchanged.
pub open spec fn fa0_region(fa: PhysFrameAllocator, fa0: PhysFrameAllocator) -> bool {
    fa.usable_memory_region == fa0.usable_memory_region
}

/// The page-table flags for an ELF segment with flag bits `pf`.
fn segment_flags(pf: u32) -> (r: u64)
    ensures
        r == spec_segment_flags(pf as int),
        r & PRESENT == PRESENT,
        r & crate::page_table::HUGE_PAGE == 0,
        r & crate::page_table::ADDR_MASK == 0,
{
    let w = pf & 2 == 2;
    let x = pf & 1 == 1;
    proof {
        assert((pf & 2 == 2) == (pf as int / 2 % 2 == 1)) by (bit_vector);
        assert((pf & 1 == 1) == (pf as int % 2 == 1)) by (bit_vector);
        assert((PRESENT | USER_ACCESSIBLE) & PRESENT == PRESENT) by (bit_vector);
        assert((PRESENT | USER_ACCESSIBLE) & crate::page_table::HUGE_PAGE == 0) by (bit_vector);
        assert((PRESENT | USER_ACCESSIBLE) & ADDR_MASK == 0) by (bit_vector);
        assert((PRESENT | USER_ACCESSIBLE | WRITABLE) & PRESENT == PRESENT) by (bit_vector);
        assert((PRESENT | USER_ACCESSIBLE | WRITABLE) & crate::page_table::HUGE_PAGE == 0) by (bit_vector);
        assert((PRESENT | USER_ACCESSIBLE | WRITABLE) & ADDR_MASK == 0) by (bit_vector);
        assert((PRESENT | USER_ACCESSIBLE | NO_EXECUTE) & PRESENT == PRESENT) by (bit_vector);
        assert((PRESENT | USER_ACCESSIBLE | NO_EXECUTE) & crate::page_table::HUGE_PAGE == 0) by (bit_vector);
        assert((PRESENT | USER_ACCESSIBLE | NO_EXECUTE) & ADDR_MASK == 0) by (bit_vector);
        assert((PRESENT | USER_ACCESSIBLE | WRITABLE | NO_EXECUTE) & PRESENT == PRESENT)
            by (bit_vector);
        assert((PRESENT | USER_ACCESSIBLE | WRITABLE | NO_EXECUTE) & crate::page_table::HUGE_PAGE == 0)
            by (bit_vector);
        assert((PRESENT | USER_ACCESSIBLE | WRITABLE | NO_EXECUTE) & ADDR_MASK == 0)
            by (bit_vector);
    }
    if x {
        if w {
            PRESENT | USER_ACCESSIBLE | WRITABLE
        } else {
            PRESENT | USER_ACCESSIBLE
        }
    } else {
        if w {
            PRESENT | USER_ACCESSIBLE | WRITABLE | NO_EXECUTE
        } else {
            PRESENT | USER_ACCESSIBLE | NO_EXECUTE
        }
    }
}

/// Relocation entry `k` lies inside the image.
proof fn lemma_rela_bounds(soff: int, ssize: int, k: int, blen: int)
    requires
        0 <= soff,
        0 <= ssize,
        soff + ssize <= blen,
        ssize % 24 == 0,
        0 <= k < ssize / 24,
    ensures
        soff + 24 * k + 24 <= blen,
{
    lemma_fundamental_div_mod(ssize, 24);
    assert(24 * k + 24 <= 24 * (ssize / 24)) by (nonlinear_arith)
        requires
            k < ssize / 24,
    ;
}

/// Helper facts for a relocation target byte.
proof fn lemma_reloc_target(
    ts: Seq<crate::page_table::PageTable>,
    ms: Seq<crate::mem::DataFrame>,
    root: u64,
    tva: u64,
)
    ensures
        (match spec_translate(ts, root, (tva / PAGE_SIZE) as u64) {
            Some(f) => f % PAGE_SIZE == 0 && f < 0x10_0000_0000_0000,
            None => true,
        }),
{
    lemma_translate_addr_bound(ts, root, (tva / PAGE_SIZE) as u64);
}

} // verus!
