//! Virtual-memory utilities over the active address space: allocating
//! and freeing runs of pages, finding free address ranges, the kernel
//! heap mapping, and the per-task memory map driving page-fault
//! decisions.

use vstd::prelude::*;

verus! {

use crate::addr::PAGE_SIZE;
use crate::frame::PhysFrameAllocator;
use crate::mem::{PhysMemory, has_frame, frame_base, byte_at};
use crate::page_table::{
    MapError,
    PageTables,
    PRESENT,
    WRITABLE,
    USER_ACCESSIBLE,
    NO_EXECUTE,
    normal_pn,
    spec_translate,
};
use crate::elf::{loader_inv, mem_linked, ElfError};
use crate::frame::count_free;

/// Pages may be read.
pub const PROT_READ: u64 = 1;

/// Pages may be written.
pub const PROT_WRITE: u64 = 2;

/// Pages may be executed.
pub const PROT_EXEC: u64 = 4;

/// The mapping is private to the task.
pub const MAP_PRIVATE: u64 = 1;

/// The mapping is shared.
pub const MAP_SHARED: u64 = 2;

/// The address is not a hint.
pub const MAP_FIXED: u64 = 4;

/// The mapping has no file behind it.
pub const MAP_ANONYMOUS: u64 = 8;

/// The page-table flag bits of a protection word: writable when it asks
/// to write, and no-execute unless it asks to execute.
pub open spec fn spec_prot_flags(prot: u64) -> u64 {
    if prot & PROT_EXEC == PROT_EXEC {
        if prot & PROT_WRITE == PROT_WRITE {
            WRITABLE
        } else {
            0
        }
    } else {
        if prot & PROT_WRITE == PROT_WRITE {
            WRITABLE | NO_EXECUTE
        } else {
            NO_EXECUTE
        }
    }
}

/// Turns a protection word into page-table flag bits.
pub fn page_flags_from_prot(prot: u64) -> (r: u64)
    ensures
        r == spec_prot_flags(prot),
{
    let mut flags: u64 = 0;
    if prot & PROT_EXEC != PROT_EXEC {
        flags = flags | NO_EXECUTE;
        proof {
            assert(0u64 | NO_EXECUTE == NO_EXECUTE) by (bit_vector);
        }
    }
    if prot & PROT_WRITE == PROT_WRITE {
        flags = flags | WRITABLE;
        proof {
            assert(0u64 | WRITABLE == WRITABLE) by (bit_vector);
            assert(NO_EXECUTE | WRITABLE == WRITABLE | NO_EXECUTE) by (bit_vector);
        }
    }
    flags
}

/// Whether a page is free in the given address space and not the null
/// page.
pub fn available(pt: &PageTables, root: u64, va: u64) -> (r: bool)
    requires
        pt.wf(),
    ensures
        r == (spec_translate(pt.tables@, root, (va / PAGE_SIZE) as u64) is None && va != 0),
{
    pt.translate(root, va / PAGE_SIZE).is_none() && va != 0
}

/// A window of `num_pages` pages starting at `s` holds a mapped page.
pub open spec fn window_blocked(
    ts: Seq<crate::page_table::PageTable>,
    root: u64,
    s: u64,
    num_pages: u64,
) -> bool {
    exists|k: u64|
        k < num_pages && #[trigger] spec_translate(ts, root, (s / PAGE_SIZE + k) as u64) is Some
}

/// Scans the space below `limit` for `num_pages` consecutive free pages
/// and returns the first address of such a run; when it reports none,
/// every aligned nonzero candidate below the limit runs into a mapping.
pub fn search_free_addr(pt: &PageTables, root: u64, num_pages: u64, limit: u64) -> (r: Option<u64>)
    requires
        pt.wf(),
        0 < num_pages,
        num_pages < 0x8_0000_0000,
        limit <= 0x8000_0000_0000,
        limit % PAGE_SIZE == 0,
    ensures
        (match r {
            Some(va) => {
                &&& va % PAGE_SIZE == 0
                &&& va != 0
                &&& va + num_pages * PAGE_SIZE <= limit
                &&& forall|k: u64|
                    k < num_pages ==> #[trigger] spec_translate(
                        pt.tables@,
                        root,
                        (va / PAGE_SIZE + k) as u64,
                    ) is None
            },
            None => forall|s: u64|
                s % PAGE_SIZE == 0 && 0 < s && s + num_pages * PAGE_SIZE <= limit
                    ==> #[trigger] window_blocked(pt.tables@, root, s, num_pages),
        }),
{
    let mut start: u64 = 0;
    let mut cnt: u64 = 0;
    let mut addr: u64 = 0;
    while addr < limit
        invariant
            pt.wf(),
            0 < num_pages,
            num_pages < 0x8_0000_0000,
            limit <= 0x8000_0000_0000,
            limit % PAGE_SIZE == 0,
            addr % PAGE_SIZE == 0,
            addr <= limit,
            cnt < num_pages,
            start % PAGE_SIZE == 0,
            cnt > 0 ==> start != 0 && start + cnt * PAGE_SIZE == addr && forall|k: u64|
                k < cnt ==> #[trigger] spec_translate(
                    pt.tables@,
                    root,
                    (start / PAGE_SIZE + k) as u64,
                ) is None,
            cnt == 0 ==> start == addr || start + cnt * PAGE_SIZE == addr,
            // every candidate before the current run is blocked
            forall|s: u64|
                s % PAGE_SIZE == 0 && 0 < s && s < (if cnt > 0 {
                    start
                } else {
                    addr
                }) ==> #[trigger] window_blocked(pt.tables@, root, s, num_pages),
        decreases limit - addr,
    {
        let ghost run_start: u64 = if cnt > 0 {
            start
        } else {
            addr
        };
        if available(pt, root, addr) {
            if cnt == 0 {
                start = addr;
            }
            cnt = cnt + 1;
            proof {
                lemma_run_extends(pt.tables@, root, start, cnt, addr);
            }
            if cnt >= num_pages {
                proof {
                    vstd::arithmetic::div_mod::lemma_fundamental_div_mod(
                        addr as int,
                        PAGE_SIZE as int,
                    );
                    vstd::arithmetic::div_mod::lemma_fundamental_div_mod(
                        limit as int,
                        PAGE_SIZE as int,
                    );
                    assert(start + num_pages * PAGE_SIZE <= limit) by (nonlinear_arith)
                        requires
                            start + cnt * PAGE_SIZE == addr + PAGE_SIZE,
                            cnt == num_pages,
                            addr < limit,
                            addr as int == PAGE_SIZE as int * (addr as int / PAGE_SIZE as int),
                            limit as int == PAGE_SIZE as int * (limit as int / PAGE_SIZE as int),
                            PAGE_SIZE == 4096,
                    ;
                }
                return Some(start);
            }
        } else {
            proof {
                // the candidates of the broken run all meet this page
                assert forall|s: u64|
                    s % PAGE_SIZE == 0 && 0 < s && s < addr + PAGE_SIZE implies #[trigger]
                window_blocked(pt.tables@, root, s, num_pages) by {
                    if s >= run_start {
                        lemma_window_hits_page(
                            pt.tables@,
                            root,
                            s,
                            addr,
                            cnt,
                            num_pages,
                            run_start,
                        );
                    }
                }
            }
            cnt = 0;
        }
        proof {
            crate::frame::lemma_region_step((addr / PAGE_SIZE) as int, limit as int);
            vstd::arithmetic::div_mod::lemma_fundamental_div_mod(addr as int, PAGE_SIZE as int);
        }
        if cnt == 0 {
            start = addr + PAGE_SIZE;
        }
        addr = addr + PAGE_SIZE;
    }
    proof {
        assert forall|s: u64|
            s % PAGE_SIZE == 0 && 0 < s && s + num_pages * PAGE_SIZE <= limit implies #[trigger]
        window_blocked(pt.tables@, root, s, num_pages) by {
            let run_start: u64 = if cnt > 0 {
                start
            } else {
                addr
            };
            if s >= run_start {
                // the tail run is too short for any candidate inside it
                assert(s + num_pages * PAGE_SIZE > limit) by (nonlinear_arith)
                    requires
                        s >= run_start,
                        run_start + cnt * PAGE_SIZE == addr || run_start == addr,
                        addr == limit,
                        cnt < num_pages,
                        PAGE_SIZE == 4096,
                ;
            }
        }
    }
    None
}

/// A candidate window inside the broken run reaches the mapped page that
/// broke it.
proof fn lemma_window_hits_page(
    ts: Seq<crate::page_table::PageTable>,
    root: u64,
    s: u64,
    addr: u64,
    cnt: u64,
    num_pages: u64,
    run_start: u64,
)
    requires
        s % PAGE_SIZE == 0,
        addr % PAGE_SIZE == 0,
        0 < s,
        run_start <= s < addr + PAGE_SIZE,
        cnt < num_pages,
        run_start + cnt * PAGE_SIZE == addr,
        spec_translate(ts, root, (addr / PAGE_SIZE) as u64) is Some || addr == 0,
    ensures
        window_blocked(ts, root, s, num_pages),
{
    vstd::arithmetic::div_mod::lemma_fundamental_div_mod(s as int, PAGE_SIZE as int);
    vstd::arithmetic::div_mod::lemma_fundamental_div_mod(addr as int, PAGE_SIZE as int);
    vstd::arithmetic::div_mod::lemma_fundamental_div_mod(
        addr as int - s as int,
        PAGE_SIZE as int,
    );
    let ghost kd = (addr as int - s as int) / PAGE_SIZE as int;
    assert(s as int / PAGE_SIZE as int + kd == addr as int / PAGE_SIZE as int && kd
        < num_pages && 0 <= kd) by (nonlinear_arith)
        requires
            s % PAGE_SIZE == 0,
            addr % PAGE_SIZE == 0,
            s <= addr,
            addr - s <= cnt * PAGE_SIZE,
            cnt < num_pages,
            kd == (addr as int - s as int) / PAGE_SIZE as int,
            s == PAGE_SIZE * (s as int / PAGE_SIZE as int) + s as int % PAGE_SIZE as int,
            addr == PAGE_SIZE * (addr as int / PAGE_SIZE as int) + addr as int % PAGE_SIZE
                as int,
            addr as int - s as int == PAGE_SIZE * kd + (addr as int - s as int) % PAGE_SIZE
                as int,
            (addr as int - s as int) % PAGE_SIZE as int == 0,
            PAGE_SIZE == 4096,
    ;
    let k = kd as u64;
    assert(spec_translate(ts, root, (s / PAGE_SIZE + k) as u64) is Some);
}

/// The page joining the run keeps the run's shape.
proof fn lemma_run_extends(
    ts: Seq<crate::page_table::PageTable>,
    root: u64,
    start: u64,
    cnt: u64,
    addr: u64,
)
    requires
        cnt > 0,
        start % PAGE_SIZE == 0,
        addr % PAGE_SIZE == 0,
        start + (cnt - 1) * PAGE_SIZE == addr,
        spec_translate(ts, root, (addr / PAGE_SIZE) as u64) is None,
        forall|k: u64|
            k < cnt - 1 ==> #[trigger] spec_translate(
                ts,
                root,
                (start / PAGE_SIZE + k) as u64,
            ) is None,
    ensures
        forall|k: u64|
            k < cnt ==> #[trigger] spec_translate(ts, root, (start / PAGE_SIZE + k) as u64) is None,
{
    vstd::arithmetic::div_mod::lemma_fundamental_div_mod(start as int, PAGE_SIZE as int);
    vstd::arithmetic::div_mod::lemma_fundamental_div_mod(addr as int, PAGE_SIZE as int);
    assert forall|k: u64|
        k < cnt implies #[trigger] spec_translate(ts, root, (start / PAGE_SIZE + k) as u64)
        is None by {
        if k == cnt - 1 {
            assert(start / PAGE_SIZE + k == addr / PAGE_SIZE) by (nonlinear_arith)
                requires
                    start % PAGE_SIZE == 0,
                    addr % PAGE_SIZE == 0,
                    start + (cnt - 1) * PAGE_SIZE == addr,
                    start == PAGE_SIZE * (start / PAGE_SIZE) + start % PAGE_SIZE,
                    addr == PAGE_SIZE * (addr / PAGE_SIZE) + addr % PAGE_SIZE,
                    k == cnt - 1,
            ;
        }
    }
}

/// Maps `num_pages` fresh zeroed frames at `virt`, present, writable and
/// user-accessible: pairwise distinct frames newly taken from the
/// allocator.  On an already-mapped page the error names it; allocator
/// exhaustion is bounded by the page count.
pub fn allocate_pages(
    pt: &mut PageTables,
    fa: &mut PhysFrameAllocator,
    mem: &mut PhysMemory,
    root: u64,
    virt: u64,
    num_pages: u64,
) -> (r: Result<(), MapError>)
    requires
        loader_inv(*old(pt), *old(fa), *old(mem), root),
        virt % PAGE_SIZE == 0,
        virt + num_pages * PAGE_SIZE <= 0x8000_0000_0000,
    ensures
        loader_inv(*final(pt), *final(fa), *final(mem), root),
        final(fa).usable_memory_region == old(fa).usable_memory_region,
        crate::page_table::no_huge_entries(old(pt).tables@)
            ==> crate::page_table::no_huge_entries(final(pt).tables@),
        forall|r2: u64, q: u64|
            #[trigger] spec_translate(old(pt).tables@, r2, q) is Some ==> spec_translate(
                final(pt).tables@,
                r2,
                q,
            ) == spec_translate(old(pt).tables@, r2, q),
        forall|pa: u64|
            has_frame(old(mem).frames@, frame_base(pa)) ==> #[trigger] byte_at(
                final(mem).frames@,
                pa,
            ) == byte_at(old(mem).frames@, pa),
        (r is Ok ==> forall|k: u64|
            k < num_pages ==> ((#[trigger] spec_translate(
                final(pt).tables@,
                root,
                (virt / PAGE_SIZE + k) as u64,
            )) matches Some(f) && has_frame(final(mem).frames@, f) && !has_frame(
                old(mem).frames@,
                f,
            ) && crate::page_table::entry_flags(
                crate::page_table::walk(final(pt).tables@, root, (virt / PAGE_SIZE + k) as u64),
            ) == PRESENT | WRITABLE | USER_ACCESSIBLE)),
        (r is Ok ==> forall|k1: u64, k2: u64|
            k1 < num_pages && k2 < num_pages && k1 != k2 ==> #[trigger] spec_translate(
                final(pt).tables@,
                root,
                (virt / PAGE_SIZE + k1) as u64,
            ) != #[trigger] spec_translate(
                final(pt).tables@,
                root,
                (virt / PAGE_SIZE + k2) as u64,
            )),
        // failures name their cause
        (r == Err::<(), MapError>(MapError::FrameAllocationFailed) ==> count_free(
            old(fa).bits(),
            0,
        ) < 4 * num_pages + 8),
        (r == Err::<(), MapError>(MapError::AlreadyMapped) ==> (exists|k: u64|
            k < num_pages && #[trigger] spec_translate(
                old(pt).tables@,
                root,
                (virt / PAGE_SIZE + k) as u64,
            ) is Some) || !crate::page_table::no_huge_entries(old(pt).tables@)),
        (r matches Err(e) ==> e == MapError::FrameAllocationFailed || e
            == MapError::AlreadyMapped),
        // success is owed when the run is free of mappings and huge
        // entries and the allocator covers it
        ((forall|k: u64|
            k < num_pages ==> #[trigger] spec_translate(
                old(pt).tables@,
                root,
                (virt / PAGE_SIZE + k) as u64,
            ) is None) && crate::page_table::no_huge_entries(old(pt).tables@) && count_free(
            old(fa).bits(),
            0,
        ) >= 4 * num_pages + 8 ==> r is Ok),
{
    if num_pages == 0 {
        return Ok(());
    }
    let bin: Vec<u8> = Vec::new();
    let memsz = num_pages * PAGE_SIZE;
    proof {
        lemma_run_is_pages(virt, num_pages);
        crate::page_table::lemma_leaf_flag_words();
    }
    let first_pn = virt / PAGE_SIZE;
    match crate::elf::load_segment(
        pt,
        fa,
        mem,
        root,
        &bin,
        0,
        0,
        virt,
        memsz,
        PRESENT | WRITABLE | USER_ACCESSIBLE,
    ) {
        Ok(()) => {
            proof {
                assert forall|k: u64|
                    k < num_pages implies #[trigger] crate::elf::in_seg_run(
                    virt,
                    memsz,
                    (first_pn + k) as u64,
                ) by {}
            }
            Ok(())
        },
        Err(ElfError::FrameAllocationFailed) => Err(MapError::FrameAllocationFailed),
        Err(_) => {
            proof {
                if crate::page_table::no_huge_entries(old(pt).tables@) {
                    let p = choose|p: u64|
                        crate::elf::in_seg_run(virt, memsz, p) && #[trigger] spec_translate(
                            old(pt).tables@,
                            root,
                            p,
                        ) is Some;
                    let k = (p - first_pn) as u64;
                    assert(k < num_pages && p == (first_pn + k) as u64);
                }
            }
            Err(MapError::AlreadyMapped)
        },
    }
}

/// The page run of `num_pages` pages from an aligned `virt` in the
/// loader's run vocabulary.
proof fn lemma_run_is_pages(virt: u64, num_pages: u64)
    requires
        virt % PAGE_SIZE == 0,
        0 < num_pages,
        virt + num_pages * PAGE_SIZE <= 0x8000_0000_0000,
    ensures
        crate::elf::seg_first_page(virt) == virt as int / PAGE_SIZE as int,
        crate::elf::seg_last_page(virt, (num_pages * PAGE_SIZE) as u64) == virt as int
            / PAGE_SIZE as int + num_pages - 1,
        (num_pages * PAGE_SIZE) as u64 as int / PAGE_SIZE as int == num_pages,
{
    let p = PAGE_SIZE as int;
    vstd::arithmetic::div_mod::lemma_fundamental_div_mod(virt as int, p);
    vstd::arithmetic::div_mod::lemma_fundamental_div_mod_converse(
        num_pages as int * p,
        p,
        num_pages as int,
        0,
    );
    vstd::arithmetic::div_mod::lemma_fundamental_div_mod_converse(
        virt as int + num_pages as int * p - 1,
        p,
        virt as int / p + num_pages - 1,
        p - 1,
    );
}

/// Unmaps `num_pages` pages at `virt` and returns their frames to the
/// allocator; the backing data frames leave the memory model with their
/// bits.  Every page of the run must be mapped to a data frame, and no
/// two pages may share one.
pub fn deallocate_pages(
    pt: &mut PageTables,
    fa: &mut PhysFrameAllocator,
    mem: &mut PhysMemory,
    root: u64,
    virt: u64,
    num_pages: u64,
)
    requires
        loader_inv(*old(pt), *old(fa), *old(mem), root),
        virt % PAGE_SIZE == 0,
        virt + num_pages * PAGE_SIZE <= 0x8000_0000_0000,
        // every page of the run is mapped to a data frame, not a table
        forall|k: u64|
            k < num_pages ==> ((#[trigger] spec_translate(
                old(pt).tables@,
                root,
                (virt / PAGE_SIZE + k) as u64,
            )) matches Some(f) && has_frame(old(mem).frames@, f) && !crate::page_table::has_table(
                old(pt).tables@,
                f,
            )),
        forall|k1: u64, k2: u64|
            k1 < num_pages && k2 < num_pages && k1 != k2 ==> #[trigger] spec_translate(
                old(pt).tables@,
                root,
                (virt / PAGE_SIZE + k1) as u64,
            ) != #[trigger] spec_translate(
                old(pt).tables@,
                root,
                (virt / PAGE_SIZE + k2) as u64,
            ),
    ensures
        final(pt).wf(),
        final(fa).wf(),
        final(mem).wf(),
        final(pt).is_root(root),
        final(fa).usable_memory_region == old(fa).usable_memory_region,
        forall|k: u64|
            k < num_pages ==> #[trigger] spec_translate(
                final(pt).tables@,
                root,
                (virt / PAGE_SIZE + k) as u64,
            ) is None,
        // each page's frame is handed back: its allocator bit is cleared
        forall|k: u64|
            k < num_pages ==> ((#[trigger] spec_translate(
                old(pt).tables@,
                root,
                (virt / PAGE_SIZE + k) as u64,
            )) matches Some(f) ==> (old(fa).in_range(f) ==> !final(fa).bits()[old(
                fa,
            ).index_of(f)])),
{
    let first_pn = virt / PAGE_SIZE;
    let ghost pt0 = *pt;
    let ghost fa0 = *fa;
    let mut k: u64 = 0;
    proof {
        vstd::arithmetic::div_mod::lemma_fundamental_div_mod(virt as int, PAGE_SIZE as int);
    }
    #[verifier::loop_isolation(true)]
    while k < num_pages
        invariant
            pt.wf(),
            fa.wf(),
            mem.wf(),
            pt.is_root(root),
            pt0 == *old(pt),
            fa0 == *old(fa),
            fa.usable_memory_region == fa0.usable_memory_region,
            k <= num_pages,
            first_pn == virt / PAGE_SIZE,
            virt % PAGE_SIZE == 0,
            virt + num_pages * PAGE_SIZE <= 0x8000_0000_0000,
            first_pn * PAGE_SIZE == virt,
            forall|m: u64|
                m < num_pages ==> (#[trigger] spec_translate(
                    pt0.tables@,
                    root,
                    (first_pn + m) as u64,
                )) is Some,
            forall|m: u64|
                k <= m < num_pages ==> #[trigger] spec_translate(
                    pt.tables@,
                    root,
                    (first_pn + m) as u64,
                ) == spec_translate(pt0.tables@, root, (first_pn + m) as u64),
            forall|m: u64|
                m < k ==> #[trigger] spec_translate(
                    pt.tables@,
                    root,
                    (first_pn + m) as u64,
                ) is None,
            forall|m: u64|
                m < k ==> ((#[trigger] spec_translate(
                    pt0.tables@,
                    root,
                    (first_pn + m) as u64,
                )) matches Some(f) ==> (fa0.in_range(f) ==> !fa.bits()[fa0.index_of(f)])),
        decreases num_pages - k,
    {
        let pn = first_pn + k;
        proof {
            assert(pn * PAGE_SIZE < 0x8000_0000_0000) by (nonlinear_arith)
                requires
                    first_pn * PAGE_SIZE == virt,
                    pn == first_pn + k,
                    k < num_pages,
                    virt + num_pages * PAGE_SIZE <= 0x8000_0000_0000,
            ;
            crate::elf::lemma_low_pn_is_normal(pn, 0x8000_0000_0000);
        }
        let ghost pt_prev = *pt;
        match pt.unmap(root, pn) {
            Ok(frame) => {
                let ghost fa_prev = *fa;
                fa.deallocate_frame(frame);
                mem.remove_frame(frame);
                proof {
                    assert(spec_translate(pt0.tables@, root, pn) == Some(frame));
                    assert forall|m: u64|
                        m < k + 1 implies ((#[trigger] spec_translate(
                        pt0.tables@,
                        root,
                        (first_pn + m) as u64,
                    )) matches Some(f) ==> (fa0.in_range(f) ==> !fa.bits()[fa0.index_of(
                        f,
                    )])) by {
                        if spec_translate(pt0.tables@, root, (first_pn + m) as u64) is Some {
                            let f = spec_translate(pt0.tables@, root, (first_pn + m) as u64)->Some_0;
                            if fa0.in_range(f) {
                                crate::frame::lemma_index_in_count(fa_prev, f);
                                fa_prev.lemma_region_size();
                                if m == k {
                                    assert(f == frame);
                                } else {
                                    assert(!fa_prev.bits()[fa0.index_of(f)]);
                                }
                            }
                        }
                    }
                }
            },
            Err(e) => {
                proof {
                    assert(spec_translate(pt_prev.tables@, root, pn) is Some);
                    if e == crate::page_table::UnmapError::ParentEntryHugePage {
                        crate::page_table::lemma_translate_some_no_huge(
                            pt_prev.tables@,
                            root,
                            pn,
                        );
                    }
                    assert(false);
                }
            },
        }
        proof {
            assert forall|m: u64|
                k + 1 <= m < num_pages implies #[trigger] spec_translate(
                pt.tables@,
                root,
                (first_pn + m) as u64,
            ) == spec_translate(pt0.tables@, root, (first_pn + m) as u64) by {
                assert(spec_translate(pt_prev.tables@, root, (first_pn + m) as u64)
                    == spec_translate(pt0.tables@, root, (first_pn + m) as u64));
                assert(first_pn + m != pn);
                crate::elf::lemma_low_pn_is_normal((first_pn + m) as u64, 0x8000_0000_0000)
            }
            assert forall|m: u64| m < k + 1 implies #[trigger] spec_translate(
                pt.tables@,
                root,
                (first_pn + m) as u64,
            ) is None by {
                if m < k {
                    assert(spec_translate(pt_prev.tables@, root, (first_pn + m) as u64) is None);
                    assert(first_pn + m != pn);
                    crate::elf::lemma_low_pn_is_normal((first_pn + m) as u64, 0x8000_0000_0000)
                }
            }
        }
        k = k + 1;
    }
}

/// Finds a free run and maps it: the allocation entry point of the
/// virtual-memory manager.
pub fn allocate_new(
    pt: &mut PageTables,
    fa: &mut PhysFrameAllocator,
    mem: &mut PhysMemory,
    root: u64,
    num_pages: u64,
    limit: u64,
) -> (r: Option<u64>)
    requires
        loader_inv(*old(pt), *old(fa), *old(mem), root),
        0 < num_pages,
        num_pages <= 0x4000_0000,
        limit <= 0x4000_0000_0000,
        limit % PAGE_SIZE == 0,
    ensures
        loader_inv(*final(pt), *final(fa), *final(mem), root),
        crate::page_table::no_huge_entries(old(pt).tables@)
            ==> crate::page_table::no_huge_entries(final(pt).tables@),
        (match r {
            Some(va) => va % PAGE_SIZE == 0 && va != 0 && va + num_pages * PAGE_SIZE <= limit
                && (forall|k: u64|
                k < num_pages ==> ((#[trigger] spec_translate(
                    final(pt).tables@,
                    root,
                    (va / PAGE_SIZE + k) as u64,
                )) matches Some(f) && has_frame(final(mem).frames@, f) && !has_frame(
                    old(mem).frames@,
                    f,
                ))),
            // a refusal names its cause: no free window, a huge entry in
            // the way, or too few free frames
            None => (forall|s: u64|
                s % PAGE_SIZE == 0 && 0 < s && s + num_pages * PAGE_SIZE <= limit
                    ==> #[trigger] window_blocked(old(pt).tables@, root, s, num_pages))
                || !crate::page_table::no_huge_entries(old(pt).tables@) || count_free(
                old(fa).bits(),
                0,
            ) < 4 * num_pages + 8,
        }),
{
    let virt = match search_free_addr(pt, root, num_pages, limit) {
        Some(va) => va,
        None => {
            return None;
        },
    };
    proof {
        assert(virt + num_pages * PAGE_SIZE <= 0x8000_0000_0000) by (nonlinear_arith)
            requires
                virt + num_pages * PAGE_SIZE <= limit,
                limit <= 0x4000_0000_0000,
        ;
    }
    match allocate_pages(pt, fa, mem, root, virt, num_pages) {
        Ok(()) => Some(virt),
        Err(_) => None,
    }
}

/// Number of pages covering `bytes` bytes that start at the address
/// `addr`: the page of the first byte through the page of the last.
pub open spec fn run_pages(addr: u64, bytes: u64) -> int {
    (bytes + addr % PAGE_SIZE + PAGE_SIZE - 1) as int / PAGE_SIZE as int
}

/// Maps arbitrary physical ranges — device registers, handed-off
/// buffers — into free virtual memory of the active space.
pub struct MemoryMapper;

impl MemoryMapper {
    /// Maps the frames holding `[phys_start, phys_start + bytes)` into a
    /// free virtual run and returns the address of `phys_start` there:
    /// page `k` of the run maps the `k`-th frame of the range, present,
    /// writable and user-accessible.  A refusal names its cause.
    pub fn map(
        pt: &mut PageTables,
        fa: &mut PhysFrameAllocator,
        root: u64,
        phys_start: u64,
        bytes: u64,
    ) -> (r: Option<u64>)
        requires
            old(pt).wf(),
            old(fa).wf(),
            old(pt).is_root(root),
            crate::page_table::tables_linked(old(pt).tables@, *old(fa)),
            0 < bytes,
            bytes <= 0x10_0000,
            phys_start + bytes <= 0x10_0000_0000_0000,
        ensures
            final(pt).wf(),
            final(fa).wf(),
            final(pt).is_root(root),
            crate::page_table::tables_linked(final(pt).tables@, *final(fa)),
            final(fa).usable_memory_region == old(fa).usable_memory_region,
            crate::page_table::no_huge_entries(old(pt).tables@)
                ==> crate::page_table::no_huge_entries(final(pt).tables@),
            forall|r2: u64, q: u64|
                #[trigger] spec_translate(old(pt).tables@, r2, q) is Some ==> spec_translate(
                    final(pt).tables@,
                    r2,
                    q,
                ) == spec_translate(old(pt).tables@, r2, q),
            (match r {
                Some(va) => va as int % PAGE_SIZE as int == phys_start as int % PAGE_SIZE as int
                    && va != 0 && forall|k: u64|
                    k < run_pages(phys_start, bytes) ==> #[trigger] spec_translate(
                        final(pt).tables@,
                        root,
                        (va / PAGE_SIZE + k) as u64,
                    ) == Some(
                        (phys_start - phys_start % PAGE_SIZE + k * PAGE_SIZE) as u64,
                    ) && crate::page_table::entry_flags(
                        crate::page_table::walk(
                            final(pt).tables@,
                            root,
                            (va / PAGE_SIZE + k) as u64,
                        ),
                    ) == PRESENT | WRITABLE | USER_ACCESSIBLE,
                // a refusal: no free window below the search limit, a huge
                // entry in the way, or too few free frames for the tables
                None => (forall|s: u64|
                    s % PAGE_SIZE == 0 && 0 < s && s + run_pages(phys_start, bytes) * PAGE_SIZE
                        <= 0x4000_0000_0000 ==> #[trigger] window_blocked(
                        old(pt).tables@,
                        root,
                        s,
                        run_pages(phys_start, bytes) as u64,
                    )) || !crate::page_table::no_huge_entries(old(pt).tables@) || count_free(
                    old(fa).bits(),
                    0,
                ) < 3 * run_pages(phys_start, bytes) + 3,
            }),
    {
        let offset = phys_start % PAGE_SIZE;
        let first_frame = phys_start - offset;
        let pages = (bytes + offset + PAGE_SIZE - 1) / PAGE_SIZE;
        proof {
            vstd::arithmetic::div_mod::lemma_fundamental_div_mod(
                phys_start as int,
                PAGE_SIZE as int,
            );
            vstd::arithmetic::div_mod::lemma_mod_bound(phys_start as int, PAGE_SIZE as int);
            vstd::arithmetic::div_mod::lemma_fundamental_div_mod_converse(
                first_frame as int,
                PAGE_SIZE as int,
                phys_start as int / PAGE_SIZE as int,
                0,
            );
            assert(pages == run_pages(phys_start, bytes));
            vstd::arithmetic::div_mod::lemma_div_is_ordered(
                PAGE_SIZE as int,
                bytes + offset + PAGE_SIZE - 1,
                PAGE_SIZE as int,
            );
            vstd::arithmetic::div_mod::lemma_div_is_ordered(
                bytes + offset + PAGE_SIZE - 1,
                0x10_0000 + 2 * (PAGE_SIZE as int) - 2,
                PAGE_SIZE as int,
            );
            assert(0 < pages <= 0x101);
            // every frame of the run lies under the physical ceiling
            vstd::arithmetic::div_mod::lemma_fundamental_div_mod(
                bytes + offset + PAGE_SIZE - 1,
                PAGE_SIZE as int,
            );
            assert(first_frame + (pages - 1) * PAGE_SIZE < 0x10_0000_0000_0000)
                by (nonlinear_arith)
                requires
                    PAGE_SIZE as int * pages as int <= bytes + offset + PAGE_SIZE - 1,
                    first_frame == phys_start - offset,
                    phys_start + bytes <= 0x10_0000_0000_0000,
                    0 < bytes,
                    PAGE_SIZE == 4096,
            ;
        }
        let virt = match search_free_addr(pt, root, pages, 0x4000_0000_0000) {
            Some(va) => va,
            None => {
                return None;
            },
        };
        proof {
            vstd::arithmetic::div_mod::lemma_fundamental_div_mod(virt as int, PAGE_SIZE as int);
        }
        let first_pn = virt / PAGE_SIZE;
        let mut k: u64 = 0;
        let ghost pt_s = *pt;
        let ghost fa0 = *fa;
        #[verifier::loop_isolation(true)]
        while k < pages
            invariant
                pt.wf(),
                fa.wf(),
                pt.is_root(root),
                crate::page_table::tables_linked(pt.tables@, *fa),
                pt_s == *old(pt),
                fa0 == *old(fa),
                fa.usable_memory_region == fa0.usable_memory_region,
                k <= pages,
                0 < pages <= 0x101,
                pages == run_pages(phys_start, bytes),
                offset == phys_start % PAGE_SIZE,
                virt != 0,
                virt % PAGE_SIZE == 0,
                virt + pages * PAGE_SIZE <= 0x4000_0000_0000,
                first_pn == virt / PAGE_SIZE,
                first_pn * PAGE_SIZE == virt,
                first_frame == phys_start - offset,
                first_frame % PAGE_SIZE == 0,
                first_frame + (pages - 1) * PAGE_SIZE < 0x10_0000_0000_0000,
                count_free(fa.bits(), 0) >= count_free(fa0.bits(), 0) - 3 * k,
                crate::page_table::no_huge_entries(pt_s.tables@)
                    ==> crate::page_table::no_huge_entries(pt.tables@),
                forall|r2: u64, q: u64|
                    #[trigger] spec_translate(pt_s.tables@, r2, q) is Some ==> spec_translate(
                        pt.tables@,
                        r2,
                        q,
                    ) == spec_translate(pt_s.tables@, r2, q),
                forall|m: u64|
                    m < k ==> #[trigger] spec_translate(
                        pt.tables@,
                        root,
                        (first_pn + m) as u64,
                    ) == Some((first_frame + m * PAGE_SIZE) as u64)
                        && crate::page_table::entry_flags(
                        crate::page_table::walk(pt.tables@, root, (first_pn + m) as u64),
                    ) == PRESENT | WRITABLE | USER_ACCESSIBLE,
                forall|m: u64|
                    k <= m < pages ==> #[trigger] spec_translate(
                        pt.tables@,
                        root,
                        (first_pn + m) as u64,
                    ) is None,
            decreases pages - k,
        {
            let ghost fa_prev = *fa;
            let ghost pt_prev = *pt;
            let pn = first_pn + k;
            proof {
                assert(pn * PAGE_SIZE < 0x8000_0000_0000 && k * PAGE_SIZE <= (pages - 1)
                    * PAGE_SIZE) by (nonlinear_arith)
                    requires
                        first_pn * PAGE_SIZE == virt,
                        pn == first_pn + k,
                        k < pages,
                        virt + pages * PAGE_SIZE <= 0x4000_0000_0000,
                        PAGE_SIZE == 4096,
                ;
                crate::elf::lemma_low_pn_is_normal(pn, 0x8000_0000_0000);
            }
            let frame = first_frame + k * PAGE_SIZE;
            proof {
                vstd::arithmetic::div_mod::lemma_fundamental_div_mod_converse(
                    k as int * PAGE_SIZE as int,
                    PAGE_SIZE as int,
                    k as int,
                    0,
                );
                crate::frame::lemma_mod_sum_zero(
                    first_frame as int,
                    k as int * PAGE_SIZE as int,
                    PAGE_SIZE as int,
                );
                crate::page_table::lemma_leaf_flag_words();
            }
            match pt.map_to(fa, root, pn, frame, PRESENT | WRITABLE | USER_ACCESSIBLE) {
                Ok(()) => {
                    proof {
                        crate::page_table::lemma_entry_flags_of(
                            frame,
                            PRESENT | WRITABLE | USER_ACCESSIBLE,
                        );
                        assert forall|m: u64|
                            m < k + 1 implies #[trigger] spec_translate(
                            pt.tables@,
                            root,
                            (first_pn + m) as u64,
                        ) == Some((first_frame + m * PAGE_SIZE) as u64)
                            && crate::page_table::entry_flags(
                            crate::page_table::walk(pt.tables@, root, (first_pn + m) as u64),
                        ) == PRESENT | WRITABLE | USER_ACCESSIBLE by {
                            if m < k {
                                assert(spec_translate(
                                    pt_prev.tables@,
                                    root,
                                    (first_pn + m) as u64,
                                ) == Some((first_frame + m * PAGE_SIZE) as u64));
                            }
                        }
                        assert forall|m: u64|
                            k + 1 <= m < pages implies #[trigger] spec_translate(
                            pt.tables@,
                            root,
                            (first_pn + m) as u64,
                        ) is None by {
                            assert(spec_translate(
                                pt_prev.tables@,
                                root,
                                (first_pn + m) as u64,
                            ) is None);
                            assert(first_pn + m != pn);
                            crate::elf::lemma_low_pn_is_normal(
                                (first_pn + m) as u64,
                                0x8000_0000_0000,
                            );
                        }
                    }
                },
                Err(e) => {
                    proof {
                        if crate::page_table::no_huge_entries(pt_s.tables@) && count_free(
                            fa0.bits(),
                            0,
                        ) >= 3 * pages + 3 {
                            match e {
                                MapError::AlreadyMapped => {
                                    assert(spec_translate(pt_prev.tables@, root, pn) is None);
                                },
                                MapError::ParentEntryHugePage => {
                                    crate::page_table::lemma_no_huge_no_hits(
                                        pt_prev.tables@,
                                        root,
                                        pn,
                                    );
                                },
                                MapError::FrameAllocationFailed => {
                                    assert(count_free(fa_prev.bits(), 0) >= count_free(
                                        fa0.bits(),
                                        0,
                                    ) - 3 * k);
                                },
                            }
                            assert(false);
                        }
                    }
                    return None;
                },
            }
            k = k + 1;
        }
        proof {
            vstd::arithmetic::div_mod::lemma_fundamental_div_mod_converse(
                virt as int + offset,
                PAGE_SIZE as int,
                virt as int / PAGE_SIZE as int,
                offset as int,
            );
        }
        Some(virt + offset)
    }

    /// Unmaps the pages covering `[virt_start, virt_start + bytes)`:
    /// afterwards none of them translates.  Pages of the run that were
    /// not mapped are left alone.
    pub fn unmap(pt: &mut PageTables, root: u64, virt_start: u64, bytes: u64)
        requires
            old(pt).wf(),
            old(pt).is_root(root),
            virt_start + bytes <= 0x8000_0000_0000,
        ensures
            final(pt).wf(),
            final(pt).is_root(root),
            crate::page_table::no_huge_entries(old(pt).tables@)
                ==> crate::page_table::no_huge_entries(final(pt).tables@),
            forall|k: u64|
                k < run_pages(virt_start, bytes) ==> #[trigger] spec_translate(
                    final(pt).tables@,
                    root,
                    (virt_start / PAGE_SIZE + k) as u64,
                ) is None,
    {
        let offset = virt_start % PAGE_SIZE;
        let base = virt_start - offset;
        let pages = (bytes + offset + PAGE_SIZE - 1) / PAGE_SIZE;
        proof {
            vstd::arithmetic::div_mod::lemma_fundamental_div_mod(
                virt_start as int,
                PAGE_SIZE as int,
            );
            vstd::arithmetic::div_mod::lemma_mod_bound(virt_start as int, PAGE_SIZE as int);
            vstd::arithmetic::div_mod::lemma_fundamental_div_mod_converse(
                base as int,
                PAGE_SIZE as int,
                virt_start as int / PAGE_SIZE as int,
                0,
            );
            assert(pages == run_pages(virt_start, bytes));
        }
        let first_pn = base / PAGE_SIZE;
        let ghost pt0 = *pt;
        let mut k: u64 = 0;
        #[verifier::loop_isolation(true)]
        while k < pages
            invariant
                pt.wf(),
                pt.is_root(root),
                pt0 == *old(pt),
                k <= pages,
                first_pn == virt_start / PAGE_SIZE,
                first_pn + pages <= 0x8_0000_0000,
                crate::page_table::no_huge_entries(pt0.tables@)
                    ==> crate::page_table::no_huge_entries(pt.tables@),
                forall|m: u64|
                    m < k ==> #[trigger] spec_translate(
                        pt.tables@,
                        root,
                        (first_pn + m) as u64,
                    ) is None,
            decreases pages - k,
        {
            let ghost pt_prev = *pt;
            let pn = first_pn + k;
            proof {
                crate::elf::lemma_pn_below_bound_is_normal(pn);
            }
            match pt.unmap(root, pn) {
                Ok(_) => {},
                Err(_) => {
                    proof {
                        if spec_translate(pt_prev.tables@, root, pn) is Some {
                            crate::page_table::lemma_translate_some_no_huge(
                                pt_prev.tables@,
                                root,
                                pn,
                            );
                        }
                    }
                },
            }
            proof {
                assert forall|m: u64| m < k + 1 implies #[trigger] spec_translate(
                    pt.tables@,
                    root,
                    (first_pn + m) as u64,
                ) is None by {
                    if m < k {
                        assert(spec_translate(
                            pt_prev.tables@,
                            root,
                            (first_pn + m) as u64,
                        ) is None);
                        assert(first_pn + m != pn);
                        crate::elf::lemma_pn_below_bound_is_normal((first_pn + m) as u64);
                    }
                }
            }
            k = k + 1;
        }
    }
}

/// One mapped area of a task's address space.
pub struct TaskMapping {
    /// The protection word of the area.
    pub protocol: u64,
    /// The mapping flags of the area.
    pub flags: u64,
    /// First address of the area.
    pub start_addr: u64,
    /// One past the last address of the area.
    pub end_addr: u64,
    /// The file behind the area, if any.
    pub file: Option<MMapFile>,
}

/// A file cached in a mapped area.
pub struct MMapFile {
    /// Offset of the area in the file.
    pub offset: usize,
    /// Bytes of the file.
    pub data: Vec<u8>,
    /// Size of the cached window.
    pub size: usize,
}

/// True when `address` falls inside the area `m`.
pub open spec fn mapping_contains(m: TaskMapping, address: u64) -> bool {
    m.start_addr <= address < m.end_addr
}

/// True when the area `m` admits the faulting access described by
/// `error_code`: it is initialized, a write needs write permission, an
/// instruction fetch needs execute permission, and only a private
/// anonymous area can be populated on demand.
pub open spec fn fault_admitted(m: TaskMapping, error_code: u64) -> bool {
    &&& m.protocol != 0
    &&& (error_code & PF_CAUSED_BY_WRITE == PF_CAUSED_BY_WRITE ==> m.protocol & PROT_WRITE
        == PROT_WRITE)
    &&& (error_code & crate::interrupts::PF_INSTRUCTION_FETCH
        == crate::interrupts::PF_INSTRUCTION_FETCH ==> m.protocol & PROT_EXEC == PROT_EXEC)
    &&& m.flags & MAP_PRIVATE == MAP_PRIVATE
    &&& m.flags & MAP_ANONYMOUS == MAP_ANONYMOUS
}

/// Error-code bit of a page fault: the page was present.
pub const PF_PROTECTION_VIOLATION: u64 = 1;

/// Error-code bit of a page fault: the access was a write.
pub const PF_CAUSED_BY_WRITE: u64 = 2;

/// All the mapped areas of one task.
pub struct TaskMemoryMap {
    /// The areas, in no particular order.
    pub mappings: Vec<TaskMapping>,
}

impl TaskMemoryMap {
    /// A map with no areas.
    pub fn new() -> (r: TaskMemoryMap)
        ensures
            r.mappings@.len() == 0,
    {
        TaskMemoryMap { mappings: Vec::new() }
    }

    /// Decides a page fault: inside the first area that holds the
    /// address, if its protection admits the access, one page is mapped
    /// and the fault is satisfied; everything else is refused and ends
    /// the task.
    pub fn page_fault_handler(
        &self,
        pt: &mut PageTables,
        fa: &mut PhysFrameAllocator,
        mem: &mut PhysMemory,
        root: u64,
        error_code: u64,
        address: u64,
    ) -> (r: bool)
        requires
            loader_inv(*old(pt), *old(fa), *old(mem), root),
            address < 0x8000_0000_0000 - PAGE_SIZE,
        ensures
            loader_inv(*final(pt), *final(fa), *final(mem), root),
            // a satisfied fault leaves the faulting page mapped, and the
            // first area holding the address admitted the access
            r ==> spec_translate(
                final(pt).tables@,
                root,
                (address / PAGE_SIZE) as u64,
            ) is Some && (exists|i: int|
                0 <= i < self.mappings@.len() && mapping_contains(
                    #[trigger] self.mappings@[i],
                    address,
                ) && fault_admitted(self.mappings@[i], error_code) && (forall|j: int|
                    0 <= j < i ==> !mapping_contains(#[trigger] self.mappings@[j], address))),
            // satisfaction is owed when an area admits the fresh fault
            // and the machine can honour it
            ((exists|i: int|
                0 <= i < self.mappings@.len() && mapping_contains(
                    #[trigger] self.mappings@[i],
                    address,
                ) && fault_admitted(self.mappings@[i], error_code) && (forall|j: int|
                    0 <= j < i ==> !mapping_contains(#[trigger] self.mappings@[j], address)))
                && error_code & PF_PROTECTION_VIOLATION != PF_PROTECTION_VIOLATION
                && spec_translate(old(pt).tables@, root, (address / PAGE_SIZE) as u64) is None
                && crate::page_table::no_huge_entries(old(pt).tables@) && count_free(
                old(fa).bits(),
                0,
            ) >= 12 ==> r),
    {
        let n = self.mappings.len();
        let mut i: usize = 0;
        while i < n
            invariant
                loader_inv(*pt, *fa, *mem, root),
                *pt == *old(pt),
                *fa == *old(fa),
                *mem == *old(mem),
                i <= n,
                n == self.mappings@.len(),
                address < 0x8000_0000_0000 - PAGE_SIZE,
                forall|j: int| 0 <= j < i ==> !mapping_contains(#[trigger] self.mappings@[j], address),
            decreases n - i,
        {
            let found = self.mappings[i].start_addr <= address && address
                < self.mappings[i].end_addr;
            if found {
                let m = &self.mappings[i];
                // an uninitialized area satisfies nothing
                if m.protocol == 0 {
                    return false;
                }
                // a write into an unwritable area is refused
                if error_code & PF_CAUSED_BY_WRITE == PF_CAUSED_BY_WRITE && m.protocol
                    & PROT_WRITE != PROT_WRITE {
                    return false;
                }
                // an instruction fetch from a non-executable area is refused
                if error_code & crate::interrupts::PF_INSTRUCTION_FETCH
                    == crate::interrupts::PF_INSTRUCTION_FETCH && m.protocol & PROT_EXEC
                    != PROT_EXEC {
                    return false;
                }
                let is_private = m.flags & MAP_PRIVATE == MAP_PRIVATE;
                let is_anon = m.flags & MAP_ANONYMOUS == MAP_ANONYMOUS;
                if is_private && is_anon {
                    proof {
                        assert(mapping_contains(self.mappings@[i as int], address)
                            && fault_admitted(self.mappings@[i as int], error_code));
                    }
                    return Self::page_fault_private_anon(pt, fa, mem, root, error_code, address);
                }
                // a file-backed or shared fault is not satisfied: the
                // task ends rather than the kernel guessing at bytes
                return false;
            }
            i = i + 1;
        }
        false
    }

    /// Satisfies a private anonymous fault by mapping one fresh zeroed
    /// page over the faulting address, unless the page was present
    /// already (a protection violation).
    pub fn page_fault_private_anon(
        pt: &mut PageTables,
        fa: &mut PhysFrameAllocator,
        mem: &mut PhysMemory,
        root: u64,
        error_code: u64,
        address: u64,
    ) -> (r: bool)
        requires
            loader_inv(*old(pt), *old(fa), *old(mem), root),
            address < 0x8000_0000_0000 - PAGE_SIZE,
        ensures
            loader_inv(*final(pt), *final(fa), *final(mem), root),
            r ==> spec_translate(
                final(pt).tables@,
                root,
                (address / PAGE_SIZE) as u64,
            ) is Some,
            // success is owed on a fresh fault the machine can honour
            (error_code & PF_PROTECTION_VIOLATION != PF_PROTECTION_VIOLATION && spec_translate(
                old(pt).tables@,
                root,
                (address / PAGE_SIZE) as u64,
            ) is None && crate::page_table::no_huge_entries(old(pt).tables@) && count_free(
                old(fa).bits(),
                0,
            ) >= 12 ==> r),
    {
        if error_code & PF_PROTECTION_VIOLATION == PF_PROTECTION_VIOLATION {
            return false;
        }
        let aligned = address - (address % PAGE_SIZE);
        proof {
            vstd::arithmetic::div_mod::lemma_fundamental_div_mod(address as int, PAGE_SIZE as int);
            vstd::arithmetic::div_mod::lemma_mod_bound(address as int, PAGE_SIZE as int);
            vstd::arithmetic::div_mod::lemma_fundamental_div_mod_converse(
                aligned as int,
                PAGE_SIZE as int,
                address as int / PAGE_SIZE as int,
                0,
            );
        }
        match allocate_pages(pt, fa, mem, root, aligned, 1) {
            Ok(()) => {
                proof {
                    assert(spec_translate(
                        pt.tables@,
                        root,
                        (aligned / PAGE_SIZE + 0) as u64,
                    ) is Some);
                }
                true
            },
            Err(_) => false,
        }
    }
}

/// Start of the kernel heap in virtual memory.
pub const HEAP_START: u64 = 0xFFFF_FF00_004A_0000;

/// Size of the kernel heap in bytes.
pub const HEAP_SIZE: u64 = 0x32000;

/// Maps the kernel heap: its pages, at the fixed start, each to a fresh
/// frame, present and writable.  A refusal names its cause.
pub fn init_heap(
    pt: &mut PageTables,
    fa: &mut PhysFrameAllocator,
    mem: &mut PhysMemory,
    kernel_root: u64,
) -> (r: Result<(), MapError>)
    requires
        loader_inv(*old(pt), *old(fa), *old(mem), kernel_root),
    ensures
        loader_inv(*final(pt), *final(fa), *final(mem), kernel_root),
        final(fa).usable_memory_region == old(fa).usable_memory_region,
        crate::page_table::no_huge_entries(old(pt).tables@)
            ==> crate::page_table::no_huge_entries(final(pt).tables@),
        forall|r2: u64, q: u64|
            #[trigger] spec_translate(old(pt).tables@, r2, q) is Some ==> spec_translate(
                final(pt).tables@,
                r2,
                q,
            ) == spec_translate(old(pt).tables@, r2, q),
        (r is Ok ==> forall|k: u64|
            k < HEAP_SIZE / PAGE_SIZE ==> ((#[trigger] spec_translate(
                final(pt).tables@,
                kernel_root,
                (heap_first_page() + k) as u64,
            )) matches Some(f) && has_frame(final(mem).frames@, f) && !has_frame(
                old(mem).frames@,
                f,
            ) && crate::page_table::entry_flags(
                crate::page_table::walk(
                    final(pt).tables@,
                    kernel_root,
                    (heap_first_page() + k) as u64,
                ),
            ) == PRESENT | WRITABLE)),
        (r == Err::<(), MapError>(MapError::FrameAllocationFailed) ==> count_free(
            old(fa).bits(),
            0,
        ) < 4 * (HEAP_SIZE / PAGE_SIZE) + 8),
        (r == Err::<(), MapError>(MapError::AlreadyMapped) ==> exists|m: u64|
            m < HEAP_SIZE / PAGE_SIZE && #[trigger] spec_translate(
                old(pt).tables@,
                kernel_root,
                (heap_first_page() + m) as u64,
            ) is Some),
        (r == Err::<(), MapError>(MapError::ParentEntryHugePage)
            ==> !crate::page_table::no_huge_entries(old(pt).tables@)),
        ((forall|m: u64|
            m < HEAP_SIZE / PAGE_SIZE ==> #[trigger] spec_translate(
                old(pt).tables@,
                kernel_root,
                (heap_first_page() + m) as u64,
            ) is None) && crate::page_table::no_huge_entries(old(pt).tables@) && count_free(
            old(fa).bits(),
            0,
        ) >= 4 * (HEAP_SIZE / PAGE_SIZE) + 8 ==> r is Ok),
{
    let pages = HEAP_SIZE / PAGE_SIZE;
    heap_map_pages(pt, fa, mem, kernel_root, pages)
}

/// The page number of the heap's first page.
pub open spec fn heap_first_page() -> u64 {
    (heap_start_low() / PAGE_SIZE) as u64
}

/// The heap's start address, folded into the lower half the way the
/// recursive table walk sees it: the sign-extension bits above bit 47
/// play no part in the walk.
pub open spec fn heap_start_low() -> u64 {
    (HEAP_START as int % 0x1_0000_0000_0000) as u64
}

/// Maps the heap pages through the kernel's own half: each page to a
/// fresh frame, present and writable.
fn heap_map_pages(
    pt: &mut PageTables,
    fa: &mut PhysFrameAllocator,
    mem: &mut PhysMemory,
    kernel_root: u64,
    pages: u64,
) -> (r: Result<(), MapError>)
    requires
        loader_inv(*old(pt), *old(fa), *old(mem), kernel_root),
        pages <= 0x100,
    ensures
        loader_inv(*final(pt), *final(fa), *final(mem), kernel_root),
        final(fa).usable_memory_region == old(fa).usable_memory_region,
        crate::page_table::no_huge_entries(old(pt).tables@)
            ==> crate::page_table::no_huge_entries(final(pt).tables@),
        forall|r2: u64, q: u64|
            #[trigger] spec_translate(old(pt).tables@, r2, q) is Some ==> spec_translate(
                final(pt).tables@,
                r2,
                q,
            ) == spec_translate(old(pt).tables@, r2, q),
        (r is Ok ==> forall|k: u64|
            k < pages ==> ((#[trigger] spec_translate(
                final(pt).tables@,
                kernel_root,
                (heap_first_page() + k) as u64,
            )) matches Some(f) && has_frame(final(mem).frames@, f) && !has_frame(
                old(mem).frames@,
                f,
            ) && crate::page_table::entry_flags(
                crate::page_table::walk(
                    final(pt).tables@,
                    kernel_root,
                    (heap_first_page() + k) as u64,
                ),
            ) == PRESENT | WRITABLE)),
        (r == Err::<(), MapError>(MapError::FrameAllocationFailed) ==> count_free(
            old(fa).bits(),
            0,
        ) < 4 * pages + 8),
        (r == Err::<(), MapError>(MapError::AlreadyMapped) ==> exists|m: u64|
            m < pages && #[trigger] spec_translate(
                old(pt).tables@,
                kernel_root,
                (heap_first_page() + m) as u64,
            ) is Some),
        (r == Err::<(), MapError>(MapError::ParentEntryHugePage)
            ==> !crate::page_table::no_huge_entries(old(pt).tables@)),
        ((forall|m: u64|
            m < pages ==> #[trigger] spec_translate(
                old(pt).tables@,
                kernel_root,
                (heap_first_page() + m) as u64,
            ) is None) && crate::page_table::no_huge_entries(old(pt).tables@) && count_free(
            old(fa).bits(),
            0,
        ) >= 4 * pages + 8 ==> r is Ok),
{
    let ghost pt0 = *pt;
    let ghost fa0 = *fa;
    let ghost mem0 = *mem;
    let ghost all_free = forall|m: u64|
        m < pages ==> #[trigger] spec_translate(
            pt0.tables@,
            kernel_root,
            (heap_first_page() + m) as u64,
        ) is None;
    let start_low = HEAP_START % 0x1_0000_0000_0000;
    let first_pn = start_low / PAGE_SIZE;
    let mut k: u64 = 0;
    proof {
        lemma_heap_page_normal(0);
    }
    #[verifier::loop_isolation(true)]
    while k < pages
        invariant
            loader_inv(*pt, *fa, *mem, kernel_root),
            pt0 == *old(pt),
            fa0 == *old(fa),
            mem0 == *old(mem),
            fa.usable_memory_region == fa0.usable_memory_region,
            k <= pages,
            pages <= 0x100,
            first_pn == heap_first_page(),
            all_free == (forall|m: u64|
                m < pages ==> #[trigger] spec_translate(
                    pt0.tables@,
                    kernel_root,
                    (heap_first_page() + m) as u64,
                ) is None),
            count_free(fa.bits(), 0) >= count_free(fa0.bits(), 0) - 4 * k,
            crate::page_table::no_huge_entries(pt0.tables@)
                ==> crate::page_table::no_huge_entries(pt.tables@),
            forall|r2: u64, q: u64|
                #[trigger] spec_translate(pt0.tables@, r2, q) is Some ==> spec_translate(
                    pt.tables@,
                    r2,
                    q,
                ) == spec_translate(pt0.tables@, r2, q),
            forall|a: u64| #[trigger] has_frame(mem0.frames@, a) ==> has_frame(mem.frames@, a),
            all_free ==> forall|m: u64|
                k <= m < pages ==> #[trigger] spec_translate(
                    pt.tables@,
                    kernel_root,
                    (first_pn + m) as u64,
                ) is None,
            forall|m: u64|
                m < k ==> ((#[trigger] spec_translate(
                    pt.tables@,
                    kernel_root,
                    (first_pn + m) as u64,
                )) matches Some(f) && has_frame(mem.frames@, f) && !has_frame(mem0.frames@, f)
                    && crate::page_table::entry_flags(
                    crate::page_table::walk(pt.tables@, kernel_root, (first_pn + m) as u64),
                ) == PRESENT | WRITABLE),
        decreases pages - k,
    {
        let ghost pt_prev = *pt;
        let ghost fa_prev = *fa;
        let ghost mem_prev = *mem;
        let pn = first_pn + k;
        proof {
            lemma_heap_page_normal(k);
        }
        let frame = match fa.allocate_frame() {
            Some(f) => f,
            None => {
                proof {
                    assert(count_free(fa_prev.bits(), 0) == 0);
                }
                return Err(MapError::FrameAllocationFailed);
            },
        };
        proof {
            assert(!has_frame(mem_prev.frames@, frame)) by {
                if has_frame(mem_prev.frames@, frame) {
                    let i = crate::mem::frame_index(mem_prev.frames@, frame);
                    assert(0 <= i < mem_prev.frames@.len() && mem_prev.frames@[i].addr == frame);
                    assert(fa_prev.bits()[fa_prev.index_of(frame)]);
                }
            }
            assert(crate::page_table::tables_linked(pt.tables@, *fa)) by {
                assert forall|i: int|
                    0 <= i < pt.tables@.len() && fa.in_range(
                        (#[trigger] pt.tables@[i]).addr,
                    ) implies fa.bits()[fa.index_of(pt.tables@[i].addr)] by {
                    if fa_prev.in_range(pt.tables@[i].addr) {
                        assert(fa_prev.bits()[fa_prev.index_of(pt.tables@[i].addr)]);
                    }
                }
            }
            crate::page_table::lemma_leaf_flag_words();
        }
        let ghost fa_mid = *fa;
        match pt.map_to(fa, kernel_root, pn, frame, PRESENT | WRITABLE) {
            Ok(()) => {},
            Err(e) => {
                proof {
                    match e {
                        MapError::AlreadyMapped => {
                            assert(spec_translate(pt_prev.tables@, kernel_root, pn) is Some);
                            if all_free {
                                assert(false);
                            }
                            assert(exists|m: u64|
                                m < pages && #[trigger] spec_translate(
                                    pt0.tables@,
                                    kernel_root,
                                    (heap_first_page() + m) as u64,
                                ) is Some);
                        },
                        MapError::ParentEntryHugePage => {
                            if crate::page_table::no_huge_entries(pt0.tables@) {
                                crate::page_table::lemma_no_huge_no_hits(
                                    pt_prev.tables@,
                                    kernel_root,
                                    pn,
                                );
                                assert(false);
                            }
                        },
                        MapError::FrameAllocationFailed => {
                            assert(count_free(fa_mid.bits(), 0) <= 2);
                            assert(count_free(fa_mid.bits(), 0) >= count_free(fa0.bits(), 0) - 4
                                * k - 1);
                        },
                    }
                }
                return Err(e);
            },
        }
        mem.add_frame(frame);
        proof {
            crate::page_table::lemma_entry_flags_of(frame, PRESENT | WRITABLE);
            if all_free {
                assert forall|m: u64|
                    k + 1 <= m < pages implies #[trigger] spec_translate(
                    pt.tables@,
                    kernel_root,
                    (first_pn + m) as u64,
                ) is None by {
                    lemma_heap_page_normal(m);
                    assert(spec_translate(pt_prev.tables@, kernel_root, (first_pn + m) as u64)
                        is None);
                    assert(first_pn + m != pn);
                }
            }
            assert forall|m: u64|
                m < k + 1 implies ((#[trigger] spec_translate(
                pt.tables@,
                kernel_root,
                (first_pn + m) as u64,
            )) matches Some(f) && has_frame(mem.frames@, f) && !has_frame(mem0.frames@, f)
                && crate::page_table::entry_flags(
                crate::page_table::walk(pt.tables@, kernel_root, (first_pn + m) as u64),
            ) == PRESENT | WRITABLE) by {
                if m < k {
                    lemma_heap_page_normal(m);
                    assert(spec_translate(pt_prev.tables@, kernel_root, (first_pn + m) as u64)
                        matches Some(f) && has_frame(mem_prev.frames@, f));
                }
            }
            assert forall|i: int|
                0 <= i < mem.frames@.len() && fa.in_range(
                    (#[trigger] mem.frames@[i]).addr,
                ) implies fa.bits()[fa.index_of(mem.frames@[i].addr)] by {
                if i < mem_prev.frames@.len() {
                    assert(mem.frames@[i].addr == mem_prev.frames@[i].addr);
                    if fa_prev.in_range(mem_prev.frames@[i].addr) {
                        assert(fa_prev.bits()[fa_prev.index_of(mem_prev.frames@[i].addr)]);
                    } else {
                        assert(!fa.in_range(mem_prev.frames@[i].addr));
                    }
                } else {
                    assert(mem.frames@[i].addr == frame);
                }
            }
        }
        k = k + 1;
    }
    Ok(())
}

/// The heap pages land in the kernel's shared level-4 slot, away from
/// the recursive slots.
proof fn lemma_heap_page_normal(k: u64)
    requires
        k <= 0x100,
    ensures
        normal_pn((heap_first_page() + k) as u64),
        heap_first_page() + k < 0x10_0000_0000,
{
    vstd::arithmetic::div_mod::lemma_fundamental_div_mod_converse(
        HEAP_START as int,
        0x1_0000_0000_0000,
        0xFFFF,
        0xFF00_004A_0000,
    );
    assert(heap_start_low() == 0xFF00_004A_0000u64);
    vstd::arithmetic::div_mod::lemma_fundamental_div_mod_converse(
        0xFF00_004A_0000,
        PAGE_SIZE as int,
        0xFF00_004A0,
        0,
    );
    assert(heap_first_page() == 0xFF00_004A0u64);
    let pn = (0xFF00_004A0u64 + k) as u64;
    assert(pn < 0x10_0000_0000 && pn / 0x8000000 % 512 == 510) by (bit_vector)
        requires
            pn == 0xFF00_004A0u64 + k,
            k <= 0x100,
    ;
    assert(crate::addr::l4_index(pn) == 510);
}

} // verus!
