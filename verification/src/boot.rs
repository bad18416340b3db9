//! The boot handoff, as plain state: a kernel PML4 with its recursive
//! slot installed, and the walk path of every usable page already built
//! by the bootstrap page tables, with no usable page mapped.
//!
//! The machine gets this from the bootloader; the model builds it from a
//! reserved bootstrap area, so the invariants the frame allocator's
//! initialization relies on are proved rather than assumed.

use vstd::prelude::*;

verus! {

use crate::addr::PAGE_SIZE;
use crate::frame::{
    MemoryRegion,
    MemoryRegionKind,
    PhysFrameAllocator,
    boot_env_wf,
    count_free,
    region_page,
};
use crate::page_table::{
    PageTable,
    PageTables,
    KERNEL_RECURSIVE_INDEX,
    PRESENT,
    WRITABLE,
    has_table,
    normal_pn,
    path_exists,
    spec_translate,
    store_wf,
    structural_slot,
    table_index,
    table_level,
    tables_linked,
    distinct_addrs,
    lemma_table_index_of,
    lemma_zero_entry,
};

/// A fresh level-4 table whose recursive slot points at itself: the
/// kernel PML4 the bootstrap environment installs.
pub fn create_kernel_root(pt: &mut PageTables, fa: &mut PhysFrameAllocator) -> (r: Option<u64>)
    requires
        old(pt).wf(),
        old(fa).wf(),
        tables_linked(old(pt).tables@, *old(fa)),
    ensures
        final(pt).wf(),
        final(fa).wf(),
        final(fa).usable_memory_region == old(fa).usable_memory_region,
        tables_linked(final(pt).tables@, *final(fa)),
        (match r {
            Some(f) => {
                &&& final(pt).is_root(f)
                &&& !has_table(old(pt).tables@, f)
                &&& old(fa).in_range(f)
                &&& forall|x: u64|
                    #[trigger] has_table(final(pt).tables@, x) == (has_table(old(pt).tables@, x)
                        || x == f)
                &&& forall|t: u64, s: int|
                    t != f && 0 <= s < 512 ==> #[trigger] crate::page_table::entry_at(
                        final(pt).tables@,
                        t,
                        s,
                    ) == crate::page_table::entry_at(old(pt).tables@, t, s)
                &&& forall|s: int|
                    0 <= s < 512 && s != 508 ==> #[trigger] crate::page_table::entry_at(
                        final(pt).tables@,
                        f,
                        s,
                    ) == 0
            },
            None => count_free(old(fa).bits(), 0) == 0 && *final(pt) == *old(pt),
        }),
        count_free(final(fa).bits(), 0) >= count_free(old(fa).bits(), 0) - 1,
        crate::page_table::no_huge_entries(old(pt).tables@)
            ==> crate::page_table::no_huge_entries(final(pt).tables@),
{
    let ghost ots = pt.tables@;
    let frame = match fa.allocate_frame() {
        Some(f) => f,
        None => {
            return None;
        },
    };
    proof {
        assert forall|i: int| 0 <= i < ots.len() implies (#[trigger] ots[i]).addr != frame by {
            if ots[i].addr == frame {
                assert(old(fa).bits()[old(fa).index_of(frame)]);
            }
        }
        assert(!has_table(ots, frame)) by {
            if has_table(ots, frame) {
                let i = choose|i: int| 0 <= i < ots.len() && (#[trigger] ots[i]).addr == frame;
            }
        }
    }
    let mut entries = vec![0u64; 512];
    entries.set(508, frame | (PRESENT | WRITABLE));
    let table = PageTable { addr: frame, level: 4, entries };
    let ghost t = table;
    pt.tables.push(table);
    proof {
        let b = pt.tables@;
        lemma_zero_entry();
        assert forall|x: u64| #[trigger] has_table(b, x) == (has_table(ots, x) || x
            == frame) by {
            if has_table(b, x) {
                let i = choose|i: int| 0 <= i < b.len() && (#[trigger] b[i]).addr == x;
                if i < ots.len() {
                    assert(ots[i].addr == x);
                }
            }
            if has_table(ots, x) {
                let i = choose|i: int| 0 <= i < ots.len() && (#[trigger] ots[i]).addr == x;
                assert(b[i].addr == x);
            }
            if x == frame {
                assert(b[ots.len() as int].addr == x);
            }
        }
        assert(distinct_addrs(b));
        assert forall|x: u64| #[trigger]
            has_table(ots, x) implies table_index(b, x) == table_index(ots, x) && table_level(
            b,
            x,
        ) == table_level(ots, x) by {
            let i = table_index(ots, x);
            assert(0 <= i < ots.len() && ots[i].addr == x);
            assert(b[i].addr == x);
            assert(has_table(b, x));
            let ib = table_index(b, x);
            assert(0 <= ib < b.len() && b[ib].addr == x);
            if ib == ots.len() {
                assert(has_table(ots, frame));
            }
            if ib != i {
                assert(ots[ib].addr == x);
            }
        }
        lemma_table_index_of(b, ots.len() as int);
        assert forall|x: u64, s: int|
            x != frame && 0 <= s < 512 implies #[trigger] crate::page_table::entry_at(b, x, s)
            == crate::page_table::entry_at(ots, x, s) by {
            if has_table(ots, x) {
            } else {
                assert(!has_table(b, x));
            }
        }
        // the new root has no structural slot: 508 is exempt, the rest is
        // empty, so the store stays well formed
        assert forall|i: int| 0 <= i < b.len() implies crate::page_table::table_wf(
            #[trigger] b[i],
        ) by {
            if i < ots.len() {
                assert(crate::page_table::table_wf(ots[i]));
            }
        }
        assert forall|s: int| !structural_slot(b[ots.len() as int], s) by {
            if 0 <= s < 512 && s != 508 {
                assert(b[ots.len() as int].entries@[s] == 0);
            }
        }
        assert forall|i: int, s: int|
            0 <= i < b.len() && #[trigger] structural_slot(b[i], s) implies
            crate::page_table::entry_target_ok(b, b[i].level, b[i].entries@[s]) by {
            assert(i < ots.len());
            assert(structural_slot(ots[i], s));
            assert(crate::page_table::entry_target_ok(ots, ots[i].level, ots[i].entries@[s]));
            let tgt = crate::page_table::entry_addr(ots[i].entries@[s]);
            let j = table_index(ots, tgt);
            assert(0 <= j < ots.len() && ots[j].addr == tgt);
            lemma_table_index_of(b, j);
        }
        assert forall|i1: int, s1: int, i2: int, s2: int|
            0 <= i1 < b.len() && 0 <= i2 < b.len() && #[trigger] structural_slot(b[i1], s1)
                && #[trigger] structural_slot(b[i2], s2) && b[i1].level <= 3 && b[i2].level <= 3
                && crate::page_table::entry_addr(b[i1].entries@[s1])
                == crate::page_table::entry_addr(b[i2].entries@[s2]) implies i1 == i2 && s1
            == s2 by {
            assert(structural_slot(ots[i1], s1));
            assert(structural_slot(ots[i2], s2));
        }
        assert forall|i: int, s1: int, s2: int|
            0 <= i < b.len() && b[i].level == 4 && #[trigger] structural_slot(b[i], s1)
                && #[trigger] structural_slot(b[i], s2) && s1 != s2 implies
            crate::page_table::entry_addr(b[i].entries@[s1]) != crate::page_table::entry_addr(
            b[i].entries@[s2],
        ) by {
            assert(i < ots.len());
            assert(structural_slot(ots[i], s1));
            assert(structural_slot(ots[i], s2));
        }
        assert(store_wf(b));
        assert forall|i: int|
            0 <= i < b.len() && fa.in_range((#[trigger] b[i]).addr) implies fa.bits()[fa.index_of(b[i].addr)] by {
            if i < ots.len() {
                if old(fa).in_range(ots[i].addr) {
                    assert(old(fa).bits()[old(fa).index_of(ots[i].addr)]);
                }
            }
        }
    }
    proof {
        if crate::page_table::no_huge_entries(ots) {
            let b = pt.tables@;
            assert(((frame | (PRESENT | WRITABLE)) & crate::page_table::HUGE_PAGE) == 0)
                by (bit_vector)
                requires
                    frame % 4096 == 0,
            ;
            assert(0u64 & crate::page_table::HUGE_PAGE == 0) by (bit_vector);
            assert forall|i: int, s: int|
                0 <= i < b.len() && 0 <= s < b[i].entries@.len() implies !crate::page_table::huge(
                #[trigger] b[i].entries@[s],
            ) by {
                if i < ots.len() {
                    assert(b[i] == ots[i]);
                } else {
                    assert(b[i] == t);
                    if s != 508 {
                        assert(t.entries@[s] == 0);
                    }
                }
            }
        }
    }
    Some(frame)
}

/// Builds the boot handoff: bootstrap page tables in the reserved area,
/// a kernel PML4, and the walk path of every page of the usable region,
/// left unmapped — exactly the environment the frame allocator's
/// initialization requires.  Returns the page tables, the kernel root
/// and the memory map.
pub fn boot_environment(usable_start: u64, usable_end: u64, boot_start: u64, boot_end: u64) -> (r:
    Option<(PageTables, u64, Vec<MemoryRegion>)>)
    requires
        usable_start % PAGE_SIZE == 0,
        usable_end % PAGE_SIZE == 0,
        boot_start % PAGE_SIZE == 0,
        boot_end % PAGE_SIZE == 0,
        usable_start <= usable_end,
        boot_start <= boot_end,
        usable_end <= 0x8000_0000_0000,
        boot_end <= 0x8000_0000_0000,
        // the bootstrap area and usable RAM are disjoint
        boot_end <= usable_start || usable_end <= boot_start,
    ensures
        (match r {
            Some(env) => {
                &&& env.0.wf()
                &&& env.0.is_root(env.1)
                &&& boot_env_wf(env.2@, env.0.tables@, env.1)
                &&& env.2@.len() == 2
                &&& env.2@[0] == (MemoryRegion {
                    start: boot_start,
                    end: boot_end,
                    kind: MemoryRegionKind::Bootloader,
                })
                &&& env.2@[1] == (MemoryRegion {
                    start: usable_start,
                    end: usable_end,
                    kind: MemoryRegionKind::Usable,
                })
            },
            // a refusal means the bootstrap area is too small for the
            // page tables of the usable region
            None => (boot_end - boot_start) / PAGE_SIZE as int <= 3 * ((usable_end
                - usable_start) / PAGE_SIZE as int),
        }),
{
    let boot_region = MemoryRegion {
        start: boot_start,
        end: boot_end,
        kind: MemoryRegionKind::Bootloader,
    };
    let usable_region = MemoryRegion {
        start: usable_start,
        end: usable_end,
        kind: MemoryRegionKind::Usable,
    };
    let empty = MemoryRegion { start: boot_start, end: boot_start, kind: MemoryRegionKind::Bootloader };
    let mut boot_fa = PhysFrameAllocator::over_regions(empty, boot_region);
    let ghost count0 = count_free(boot_fa.bits(), 0);
    let ghost pages_usable = (usable_end - usable_start) as int / PAGE_SIZE as int;
    proof {
        assert(count0 == (boot_end - boot_start) / PAGE_SIZE as int);
        vstd::arithmetic::div_mod::lemma_div_pos_is_pos(
            (usable_end - usable_start) as int,
            PAGE_SIZE as int,
        );
    }
    let mut pt = PageTables::new();
    let kernel_root = match create_kernel_root(&mut pt, &mut boot_fa) {
        Some(f) => f,
        None => {
            return None;
        },
    };
    // build the walk path of every usable page: map it, then unmap it
    let first_pn = usable_start / PAGE_SIZE;
    let mut pn = first_pn;
    proof {
        vstd::arithmetic::div_mod::lemma_fundamental_div_mod(usable_start as int, PAGE_SIZE as int);
        assert forall|j: int|
            0 <= j < pt.tables@.len() implies boot_start <= (#[trigger] pt.tables@[j]).addr
            < boot_end by {
            lemma_table_index_of(pt.tables@, j);
            assert(has_table(pt.tables@, pt.tables@[j].addr));
        }
        assert forall|q: u64| normal_pn(q) implies #[trigger] spec_translate(
            pt.tables@,
            kernel_root,
            q,
        ) is None by {
            crate::page_table::lemma_index_bounds(q);
            assert(crate::page_table::entry_at(pt.tables@, kernel_root, crate::addr::l4_index(q)) == 0);
            crate::page_table::lemma_zero_root_translates_none(pt.tables@, kernel_root, q);
        }
    }
    #[verifier::loop_isolation(true)]
    while pn * PAGE_SIZE < usable_end
        invariant
            pt.wf(),
            pt.is_root(kernel_root),
            boot_fa.wf(),
            boot_fa.usable_memory_region.start == boot_start,
            boot_fa.usable_memory_region.end == boot_end,
            tables_linked(pt.tables@, boot_fa),
            usable_start % PAGE_SIZE == 0,
            usable_end % PAGE_SIZE == 0,
            usable_end <= 0x8000_0000_0000,
            boot_end <= usable_start || usable_end <= boot_start,
            first_pn <= pn,
            first_pn * PAGE_SIZE == usable_start,
            pn * PAGE_SIZE <= usable_end,
            usable_start % PAGE_SIZE == 0,
            count0 == (boot_end - boot_start) / PAGE_SIZE as int,
            pages_usable == (usable_end - usable_start) as int / PAGE_SIZE as int,
            count_free(boot_fa.bits(), 0) >= count0 - 1 - 3 * (pn - first_pn),
            crate::page_table::no_huge_entries(pt.tables@),
            // every table lives in the bootstrap area
            forall|j: int|
                0 <= j < pt.tables@.len() ==> boot_start <= (#[trigger] pt.tables@[j]).addr
                    < boot_end,
            // pages built so far have their path and no mapping
            forall|q: u64|
                first_pn <= q < pn ==> #[trigger] path_exists(pt.tables@, kernel_root, q)
                    && spec_translate(pt.tables@, kernel_root, q) is None,
            // pages not built yet have no mapping either
            forall|q: u64|
                normal_pn(q) && !(first_pn <= q < pn) ==> #[trigger] spec_translate(
                    pt.tables@,
                    kernel_root,
                    q,
                ) is None,
        decreases usable_end - pn * PAGE_SIZE,
    {
        let ghost pt_prev = pt;
        let ghost fa_prev = boot_fa;
        proof {
            assert(first_pn * PAGE_SIZE <= pn * PAGE_SIZE) by (nonlinear_arith)
                requires
                    first_pn <= pn,
            ;
            crate::elf::lemma_low_pn_is_normal(pn, usable_end);
        }
        let frame = pn * PAGE_SIZE;
        let flags = PRESENT | WRITABLE;
        proof {
            crate::page_table::lemma_leaf_flag_words();
            vstd::arithmetic::div_mod::lemma_fundamental_div_mod_converse(
                pn as int * PAGE_SIZE as int,
                PAGE_SIZE as int,
                pn as int,
                0,
            );
        }
        match pt.map_to(&mut boot_fa, kernel_root, pn, frame, flags) {
            Ok(()) => {},
            Err(e) => {
                proof {
                    match e {
                        crate::page_table::MapError::AlreadyMapped => {
                            assert(spec_translate(pt_prev.tables@, kernel_root, pn) is None);
                        },
                        crate::page_table::MapError::ParentEntryHugePage => {
                            crate::page_table::lemma_no_huge_no_hits(
                                pt_prev.tables@,
                                kernel_root,
                                pn,
                            );
                        },
                        crate::page_table::MapError::FrameAllocationFailed => {},
                    }
                    assert(count_free(fa_prev.bits(), 0) <= 2);
                    // the pages walked so far bound the frames consumed
                    assert((pn - first_pn) * PAGE_SIZE < usable_end - usable_start)
                        by (nonlinear_arith)
                        requires
                            first_pn * PAGE_SIZE == usable_start,
                            first_pn <= pn,
                            pn * PAGE_SIZE < usable_end,
                            PAGE_SIZE == 4096,
                    ;
                    vstd::arithmetic::div_mod::lemma_fundamental_div_mod(
                        (usable_end - usable_start) as int,
                        PAGE_SIZE as int,
                    );
                    assert(pn - first_pn <= pages_usable - 1) by (nonlinear_arith)
                        requires
                            (pn - first_pn) * PAGE_SIZE < usable_end - usable_start,
                            usable_end - usable_start == PAGE_SIZE as int * pages_usable + ((
                            usable_end - usable_start) as int % PAGE_SIZE as int),
                            (usable_end - usable_start) as int % PAGE_SIZE as int == 0,
                            PAGE_SIZE == 4096,
                    ;
                    assert(count0 <= 3 * pages_usable);
                }
                return None;
            },
        }
        let ghost pt_mapped = pt;
        let ghost fa_mapped = boot_fa;
        match pt.unmap(kernel_root, pn) {
            Ok(_) => {},
            Err(e) => {
                proof {
                    if e == crate::page_table::UnmapError::ParentEntryHugePage {
                        crate::page_table::lemma_path_no_huge(
                            pt_mapped.tables@,
                            kernel_root,
                            pn,
                        );
                    }
                    assert(false);
                }
            },
        }
        proof {
            // the new tables also live in the bootstrap area, and the
            // store stays linked to the bootstrap allocator
            assert forall|j: int|
                0 <= j < pt.tables@.len() implies boot_start <= (#[trigger] pt.tables@[j]).addr
                < boot_end by {
                lemma_table_index_of(pt.tables@, j);
                let a = pt.tables@[j].addr;
                assert(has_table(pt_mapped.tables@, a));
                if !has_table(pt_prev.tables@, a) {
                    // a fresh table came from the bootstrap allocator
                    assert(has_table(pt_mapped.tables@, a) && !has_table(pt_prev.tables@, a));
                    assert(fa_prev.in_range(a));
                } else {
                    let jp = table_index(pt_prev.tables@, a);
                    assert(0 <= jp < pt_prev.tables@.len() && pt_prev.tables@[jp].addr == a);
                }
            }
            assert forall|j: int|
                0 <= j < pt.tables@.len() && boot_fa.in_range(
                    (#[trigger] pt.tables@[j]).addr,
                ) implies boot_fa.bits()[boot_fa.index_of(pt.tables@[j].addr)] by {
                lemma_table_index_of(pt.tables@, j);
                let a = pt.tables@[j].addr;
                assert(has_table(pt_mapped.tables@, a));
                let jm = table_index(pt_mapped.tables@, a);
                assert(0 <= jm < pt_mapped.tables@.len() && pt_mapped.tables@[jm].addr == a);
                assert(fa_mapped.bits()[fa_mapped.index_of(a)]);
            }
            assert forall|q: u64|
                first_pn <= q < pn + 1 implies #[trigger] path_exists(pt.tables@, kernel_root, q)
                && spec_translate(pt.tables@, kernel_root, q) is None by {
                if q < pn {
                    assert(path_exists(pt_prev.tables@, kernel_root, q));
                    assert(spec_translate(pt_mapped.tables@, kernel_root, q) == spec_translate(
                        pt_prev.tables@,
                        kernel_root,
                        q,
                    ));
                    assert(spec_translate(pt.tables@, kernel_root, q) == spec_translate(
                        pt_mapped.tables@,
                        kernel_root,
                        q,
                    ));
                    crate::page_table::lemma_path_exists_preserved(
                        pt_prev.tables@,
                        pt_mapped.tables@,
                        kernel_root,
                        q,
                    );
                    assert(path_exists(pt.tables@, kernel_root, q));
                } else {
                    assert(q == pn);
                }
            }
            assert forall|q: u64|
                normal_pn(q) && !(first_pn <= q < pn + 1) implies #[trigger] spec_translate(
                pt.tables@,
                kernel_root,
                q,
            ) is None by {
                assert(spec_translate(pt_mapped.tables@, kernel_root, q) == spec_translate(
                    pt_prev.tables@,
                    kernel_root,
                    q,
                ));
                assert(spec_translate(pt.tables@, kernel_root, q) == spec_translate(
                    pt_mapped.tables@,
                    kernel_root,
                    q,
                ));
            }
            // stepping by one page stays inside the aligned region
            crate::frame::lemma_region_step(pn as int, usable_end as int);
        }
        pn = pn + 1;
    }
    let mut regions: Vec<MemoryRegion> = Vec::new();
    regions.push(boot_region);
    regions.push(usable_region);
    proof {
        assert forall|i: int, q: u64|
            0 <= i < regions@.len() && (#[trigger] regions@[i]).kind == MemoryRegionKind::Usable
                && #[trigger] region_page(regions@[i], q) implies normal_pn(q) && path_exists(
            pt.tables@,
            kernel_root,
            q,
        ) && spec_translate(pt.tables@, kernel_root, q) is None by {
            assert(i == 1);
            assert(usable_start <= q * PAGE_SIZE < usable_end);
            assert(first_pn <= q < pn) by {
                if q < first_pn {
                    assert(q * PAGE_SIZE + PAGE_SIZE <= first_pn * PAGE_SIZE) by (nonlinear_arith)
                        requires
                            q < first_pn,
                    ;
                }
                if q >= pn {
                    assert(pn * PAGE_SIZE <= q * PAGE_SIZE) by (nonlinear_arith)
                        requires
                            pn <= q,
                    ;
                }
            }
            crate::elf::lemma_low_pn_is_normal(q, usable_end);
        }
        assert forall|i: int, j: int|
            0 <= i < regions@.len() && (#[trigger] regions@[i]).kind == MemoryRegionKind::Usable
                && 0 <= j < pt.tables@.len() implies !(regions@[i].start <= (
        #[trigger] pt.tables@[j]).addr < regions@[i].end) by {
            assert(i == 1);
            assert(boot_start <= pt.tables@[j].addr < boot_end);
        }
        assert(boot_env_wf(regions@, pt.tables@, kernel_root));
    }
    Some((pt, kernel_root, regions))
}

} // verus!
