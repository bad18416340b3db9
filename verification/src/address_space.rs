//! Construction and selection of address spaces.
//!
//! A task's address space is one fresh PML4 frame: slots 0, 256 and
//! 507..511 mirror the kernel PML4 (higher-half kernel, heap and the
//! kernel's recursive slot), slot 511 points back at the PML4 itself,
//! and every other slot starts empty.

use vstd::prelude::*;

verus! {

use crate::frame::{PhysFrameAllocator, count_free};
use crate::page_table::{
    MapError,
    PageTable,
    PageTables,
    entry_at,
    has_table,
    present,
    store_wf,
    structural_slot,
    table_index,
    table_level,
    table_wf,
    tables_linked,
    distinct_addrs,
    entry_target_ok,
    lemma_table_index_of,
    lemma_zero_entry,
    KERNEL_RECURSIVE_INDEX,
    TASK_RECURSIVE_INDEX,
};

/// True for the PML4 slots copied from the kernel table into a fresh
/// address space: the identity slot, the kernel half and the slots around
/// the recursive entries.
pub open spec fn shared_slot(s: int) -> bool {
    s == 0 || s == 256 || 507 <= s <= 510
}

/// The processor state the paging code cares about: which level-4 table
/// is installed and which slot is currently used as the recursive index.
pub struct Cpu {
    /// Physical address of the active PML4.
    pub cr3: u64,
    /// The active recursive slot, 508 for the kernel and 511 for a task
    /// being loaded.
    pub recursive_index: u64,
}

/// Installs the kernel PML4 and the kernel's recursive slot.
pub fn swap_to_kernel_table(cpu: &mut Cpu, kernel_root: u64)
    ensures
        final(cpu).cr3 == kernel_root,
        final(cpu).recursive_index == KERNEL_RECURSIVE_INDEX,
{
    cpu.cr3 = kernel_root;
    cpu.recursive_index = KERNEL_RECURSIVE_INDEX;
}

/// The physical address of the active level-4 table.
pub fn active_level_4_table(cpu: &Cpu) -> (r: u64)
    ensures
        r == cpu.cr3,
{
    cpu.cr3
}

/// A task's address space: the frame of its PML4.
pub struct AddressSpace {
    /// Physical address of the PML4 frame.
    pub pml4_frame: u64,
}

impl AddressSpace {
    /// Allocates a fresh task PML4 mirroring the kernel's shared slots.
    pub fn new(
        pt: &mut PageTables,
        fa: &mut PhysFrameAllocator,
        kernel_root: u64,
    ) -> (r: Result<AddressSpace, MapError>)
        requires
            old(pt).wf(),
            old(fa).wf(),
            old(pt).is_root(kernel_root),
            tables_linked(old(pt).tables@, *old(fa)),
        ensures
            final(pt).wf(),
            final(fa).wf(),
            final(fa).usable_memory_region == old(fa).usable_memory_region,
            tables_linked(final(pt).tables@, *final(fa)),
            final(pt).is_root(kernel_root),
            (match r {
                Ok(a) => pml4_created(old(pt).tables@, final(pt).tables@, kernel_root, a.pml4_frame)
                    && final(pt).is_root(a.pml4_frame) && count_free(final(fa).bits(), 0)
                    == count_free(old(fa).bits(), 0) - 1,
                Err(e) => e == MapError::FrameAllocationFailed && count_free(old(fa).bits(), 0)
                    == 0 && *final(pt) == *old(pt),
            }),
    {
        match Pml4Creator::create(pt, fa, kernel_root) {
            Ok(f) => Ok(AddressSpace { pml4_frame: f }),
            Err(e) => Err(e),
        }
    }

    /// The active address space.
    pub fn current_address_space(cpu: &Cpu) -> (r: AddressSpace)
        ensures
            r.pml4_frame == cpu.cr3,
    {
        AddressSpace { pml4_frame: cpu.cr3 }
    }

    /// Installs this address space with the task recursive slot active.
    pub fn switch(&self, cpu: &mut Cpu)
        ensures
            final(cpu).cr3 == self.pml4_frame,
            final(cpu).recursive_index == TASK_RECURSIVE_INDEX,
    {
        cpu.cr3 = self.pml4_frame;
        cpu.recursive_index = TASK_RECURSIVE_INDEX;
    }
}

/// What creating the PML4 at `f` did to the store: `f` is fresh; its
/// shared slots equal the kernel's; its recursive slot points at itself
/// with present, writable and user bits; every other slot is empty; and
/// no other table changed.
pub open spec fn pml4_created(a: Seq<PageTable>, b: Seq<PageTable>, kernel_root: u64, f: u64) -> bool {
    &&& !has_table(a, f)
    &&& f % 4096 == 0
    &&& f < 0x10_0000_0000_0000
    &&& crate::page_table::entry_addr(entry_at(b, f, 511)) == f
    &&& (crate::page_table::no_huge_entries(a) ==> crate::page_table::no_huge_entries(b))
    &&& forall|x: u64| #[trigger] has_table(b, x) == (has_table(a, x) || x == f)
    &&& forall|x: u64|
        #[trigger] has_table(a, x) ==> table_level(b, x) == table_level(a, x)
    &&& forall|t: u64, s: int|
        t != f && 0 <= s < 512 ==> #[trigger] entry_at(b, t, s) == entry_at(a, t, s)
    &&& forall|s: int|
        0 <= s < 512 && shared_slot(s) ==> #[trigger] entry_at(b, f, s) == entry_at(
            a,
            kernel_root,
            s,
        )
    &&& entry_at(b, f, 511) == f | 7
    &&& forall|s: int|
        0 <= s < 512 && !shared_slot(s) && s != 511 ==> #[trigger] entry_at(b, f, s) == 0
}

/// Builds fresh task PML4 frames.
pub struct Pml4Creator {
    /// The frame of the table being built, once allocated.
    pub pml4_frame: u64,
}

impl Pml4Creator {
    /// Allocates a frame and fills it as a task PML4: the kernel-shared
    /// slots are copied, the recursive slot points at the new table, the
    /// rest is empty.
    pub fn create(
        pt: &mut PageTables,
        fa: &mut PhysFrameAllocator,
        kernel_root: u64,
    ) -> (r: Result<u64, MapError>)
        requires
            old(pt).wf(),
            old(fa).wf(),
            old(pt).is_root(kernel_root),
            tables_linked(old(pt).tables@, *old(fa)),
        ensures
            final(pt).wf(),
            final(fa).wf(),
            final(fa).usable_memory_region == old(fa).usable_memory_region,
            tables_linked(final(pt).tables@, *final(fa)),
            final(pt).is_root(kernel_root),
            forall|m: int|
                0 <= m < old(fa).frame_count() && old(fa).bits()[m] ==> final(fa).bits()[m],
            (match r {
                Ok(f) => pml4_created(old(pt).tables@, final(pt).tables@, kernel_root, f)
                    && final(pt).is_root(f) && count_free(final(fa).bits(), 0) == count_free(
                    old(fa).bits(),
                    0,
                ) - 1,
                Err(e) => e == MapError::FrameAllocationFailed && count_free(old(fa).bits(), 0)
                    == 0 && *final(pt) == *old(pt) && final(fa).bits() == old(fa).bits(),
            }),
    {
        let ghost ots = pt.tables@;
        let frame = match fa.allocate_frame() {
            Some(f) => f,
            None => {
                return Err(MapError::FrameAllocationFailed);
            },
        };
        proof {
            assert forall|i: int| 0 <= i < ots.len() implies (#[trigger] ots[i]).addr
                != frame by {
                if ots[i].addr == frame {
                    assert(old(fa).bits()[old(fa).index_of(frame)]);
                }
            }
            assert(!has_table(ots, frame)) by {
                if has_table(ots, frame) {
                    let i = choose|i: int|
                        0 <= i < ots.len() && (#[trigger] ots[i]).addr == frame;
                }
            }
        }
        let mut entries = vec![0u64; 512];
        entries.set(0, pt.get_entry(kernel_root, 0));
        entries.set(256, pt.get_entry(kernel_root, 256));
        entries.set(507, pt.get_entry(kernel_root, 507));
        entries.set(508, pt.get_entry(kernel_root, 508));
        entries.set(509, pt.get_entry(kernel_root, 509));
        entries.set(510, pt.get_entry(kernel_root, 510));
        entries.set(511, frame | 7);
        let table = PageTable { addr: frame, level: 4, entries };
        let ghost t = table;
        pt.tables.push(table);
        proof {
            let b = pt.tables@;
            assert(b == ots.push(t));
            // the new table is found, everything else is unchanged
            assert forall|x: u64| #[trigger] has_table(b, x) == (has_table(ots, x) || x
                == frame) by {
                if has_table(b, x) {
                    let i = choose|i: int| 0 <= i < b.len() && (#[trigger] b[i]).addr == x;
                    if i < ots.len() {
                        assert(ots[i].addr == x);
                    }
                }
                if has_table(ots, x) {
                    let i = choose|i: int| 0 <= i < ots.len() && (#[trigger] ots[i]).addr == x;
                    assert(b[i].addr == x);
                }
                if x == frame {
                    assert(b[ots.len() as int].addr == x);
                }
            }
            assert(distinct_addrs(b));
            assert forall|x: u64| #[trigger]
                has_table(ots, x) implies table_index(b, x) == table_index(ots, x) && table_level(
                b,
                x,
            ) == table_level(ots, x) by {
                let i = table_index(ots, x);
                assert(0 <= i < ots.len() && ots[i].addr == x);
                assert(b[i].addr == x);
                assert(has_table(b, x));
                let ib = table_index(b, x);
                assert(0 <= ib < b.len() && b[ib].addr == x);
                if ib == ots.len() {
                    assert(has_table(ots, frame));
                }
                if ib != i {
                    assert(ots[ib].addr == x);
                }
            }
            lemma_table_index_of(b, ots.len() as int);
            assert forall|x: u64, s: int|
                x != frame && 0 <= s < 512 implies #[trigger] entry_at(b, x, s) == entry_at(
                ots,
                x,
                s,
            ) by {
                if has_table(ots, x) {
                } else {
                    assert(!has_table(b, x));
                }
            }
            assert(table_index(b, frame) == ots.len());
            assert(table_level(b, frame) == 4);
            assert forall|s: int| 0 <= s < 512 && shared_slot(s) implies #[trigger] entry_at(
                b,
                frame,
                s,
            ) == entry_at(ots, kernel_root, s) by {}
            assert(entry_at(b, frame, 511) == frame | 7);
            assert forall|s: int|
                0 <= s < 512 && !shared_slot(s) && s != 511 implies #[trigger] entry_at(
                b,
                frame,
                s,
            ) == 0 by {}
            crate::page_table::lemma_table_entry(frame);
            assert(crate::page_table::entry_addr(entry_at(b, frame, 511)) == frame);
            // nothing huge was written: the copies come from a huge-free
            // store, the recursive entry and the zeros are huge-free
            assert(crate::page_table::no_huge_entries(ots)
                ==> crate::page_table::no_huge_entries(b)) by {
                if crate::page_table::no_huge_entries(ots) {
                    crate::page_table::lemma_zero_entry();
                    let ki = table_index(ots, kernel_root);
                    assert(0 <= ki < ots.len() && ots[ki].addr == kernel_root);
                    assert forall|i: int, s: int|
                        0 <= i < b.len() && 0 <= s < b[i].entries@.len() implies !crate::page_table::huge(
                        #[trigger] b[i].entries@[s],
                    ) by {
                        if i < ots.len() {
                            assert(b[i].entries@[s] == ots[i].entries@[s]);
                        } else {
                            if 0 <= s < 512 && shared_slot(s) {
                                assert(b[i].entries@[s] == entry_at(ots, kernel_root, s));
                                assert(entry_at(ots, kernel_root, s) == 0 || entry_at(
                                    ots,
                                    kernel_root,
                                    s,
                                ) == ots[ki].entries@[s]);
                            } else if s == 511 {
                                assert(b[i].entries@[s] == frame | 7);
                            } else {
                                assert(b[i].entries@[s] == 0);
                            }
                        }
                    }
                }
            }
            lemma_wf_after_pml4(ots, b, kernel_root, frame, t);
            // the new table's frame is marked in the allocator
            assert forall|i: int|
                0 <= i < b.len() && fa.in_range((#[trigger] b[i]).addr) implies fa.bits()[fa.index_of(b[i].addr)] by {
                if i < ots.len() {
                    if old(fa).in_range(ots[i].addr) {
                        assert(old(fa).bits()[old(fa).index_of(ots[i].addr)]);
                    }
                }
            }
        }
        Ok(frame)
    }
}

/// Appending a task PML4 built from the kernel root's shared slots keeps
/// the store well formed.
proof fn lemma_wf_after_pml4(
    a: Seq<PageTable>,
    b: Seq<PageTable>,
    kernel_root: u64,
    f: u64,
    t: PageTable,
)
    requires
        store_wf(a),
        has_table(a, kernel_root),
        table_level(a, kernel_root) == 4,
        b == a.push(t),
        t.addr == f,
        t.level == 4,
        t.entries@.len() == 512,
        !has_table(a, f),
        forall|i: int| 0 <= i < a.len() ==> (#[trigger] a[i]).addr != f,
        forall|s: int|
            0 <= s < 512 && shared_slot(s) ==> #[trigger] t.entries@[s] == entry_at(
                a,
                kernel_root,
                s,
            ),
        forall|s: int|
            0 <= s < 512 && !shared_slot(s) && s != 511 ==> #[trigger] t.entries@[s] == 0,
    ensures
        store_wf(b),
{
    lemma_zero_entry();
    let ki = table_index(a, kernel_root);
    assert(0 <= ki < a.len() && a[ki].addr == kernel_root);
    let ni = a.len() as int;
    assert(distinct_addrs(b));
    assert forall|i: int| 0 <= i < b.len() implies table_wf(#[trigger] b[i]) by {
        if i < a.len() {
            assert(table_wf(a[i]));
        }
    }
    // a structural slot of the new table is a shared slot carrying the
    // kernel's entry
    assert forall|s: int| #[trigger]
        structural_slot(b[ni], s) implies shared_slot(s) && s != 511 && structural_slot(
        a[ki],
        s,
    ) && b[ni].entries@[s] == a[ki].entries@[s] by {
        if !shared_slot(s) {
            assert(b[ni].entries@[s] == 0);
        }
        assert(t.entries@[s] == entry_at(a, kernel_root, s));
        assert(entry_at(a, kernel_root, s) == a[ki].entries@[s]) by {
            assert(table_wf(a[ki]));
        }
    }
    assert forall|i: int, s: int|
        0 <= i < b.len() && #[trigger] structural_slot(b[i], s) implies entry_target_ok(
        b,
        b[i].level,
        b[i].entries@[s],
    ) by {
        let src = if i == ni {
            ki
        } else {
            i
        };
        assert(structural_slot(a[src], s));
        assert(entry_target_ok(a, a[src].level, a[src].entries@[s]));
        let tgt = crate::page_table::entry_addr(a[src].entries@[s]);
        let j = table_index(a, tgt);
        assert(0 <= j < a.len() && a[j].addr == tgt);
        lemma_table_index_of(b, j);
        assert(b[i].entries@[s] == a[src].entries@[s]);
        assert(b[i].level == a[src].level);
    }
    assert forall|i1: int, s1: int, i2: int, s2: int|
        0 <= i1 < b.len() && 0 <= i2 < b.len() && #[trigger] structural_slot(b[i1], s1)
            && #[trigger] structural_slot(b[i2], s2) && b[i1].level <= 3 && b[i2].level <= 3
            && crate::page_table::entry_addr(b[i1].entries@[s1]) == crate::page_table::entry_addr(
            b[i2].entries@[s2],
        ) implies i1 == i2 && s1 == s2 by {
        assert(i1 != ni && i2 != ni);
        assert(structural_slot(a[i1], s1));
        assert(structural_slot(a[i2], s2));
    }
    assert forall|i: int, s1: int, s2: int|
        0 <= i < b.len() && b[i].level == 4 && #[trigger] structural_slot(b[i], s1)
            && #[trigger] structural_slot(b[i], s2) && s1 != s2 implies
        crate::page_table::entry_addr(b[i].entries@[s1]) != crate::page_table::entry_addr(
        b[i].entries@[s2],
    ) by {
        let src = if i == ni {
            ki
        } else {
            i
        };
        assert(structural_slot(a[src], s1));
        assert(structural_slot(a[src], s2));
        assert(b[i].entries@[s1] == a[src].entries@[s1]);
        assert(b[i].entries@[s2] == a[src].entries@[s2]);
    }
}

} // verus!
