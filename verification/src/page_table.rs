//! Four-level page tables held as plain values.
//!
//! Every page-table frame of the machine is modeled as a [`PageTable`]:
//! its physical address, its level (4 for a PML4 down to 1 for a leaf
//! table) and its 512 entries.  [`PageTables`] owns all of them, for the
//! kernel address space and every task address space alike; a walk starts
//! from the physical address of a level-4 table.
//!
//! Slots 508 and 511 of a level-4 table are the recursive slots (the
//! kernel's and a task's recursive index): they point back at a level-4
//! table instead of a level-3 one, so walks are only specified for pages
//! whose level-4 index avoids them.

use vstd::prelude::*;

verus! {

use vstd::arithmetic::div_mod::{
    lemma_fundamental_div_mod,
    lemma_mod_bound,
};
use crate::addr::{l4_index, l3_index, l2_index, l1_index, page_indices};
use crate::frame::{PhysFrameAllocator, count_free};

/// How installing a mapping can fail.
#[derive(Clone, Copy, Debug, PartialEq, Eq, Structural)]
pub enum MapError {
    /// The page already has a leaf entry.
    AlreadyMapped,
    /// An intermediate entry maps a huge page.
    ParentEntryHugePage,
    /// The frame allocator ran out of frames for an intermediate table.
    FrameAllocationFailed,
}

/// How removing a mapping can fail.
#[derive(Clone, Copy, Debug, PartialEq, Eq, Structural)]
pub enum UnmapError {
    /// The page has no leaf entry.
    PageNotMapped,
    /// An intermediate entry maps a huge page.
    ParentEntryHugePage,
}

/// Entry bit 0: the entry is present.
pub const PRESENT: u64 = 1;

/// Entry bit 1: the mapping is writable.
pub const WRITABLE: u64 = 2;

/// Entry bit 2: ring-3 code may use the mapping.
pub const USER_ACCESSIBLE: u64 = 4;

/// Entry bit 7: the entry maps a huge page instead of a table.
pub const HUGE_PAGE: u64 = 0x80;

/// Entry bit 63: the page may not be executed.
pub const NO_EXECUTE: u64 = 0x8000_0000_0000_0000;

/// The bits of an entry that hold the target physical address.
pub const ADDR_MASK: u64 = 0x000F_FFFF_FFFF_F000;

/// Flags given to a freshly created intermediate table.
pub const TABLE_ENTRY_FLAGS: u64 = 7;

/// The kernel's recursive level-4 slot.
pub const KERNEL_RECURSIVE_INDEX: u64 = 508;

/// The recursive level-4 slot of a task's address space.
pub const TASK_RECURSIVE_INDEX: u64 = 511;

/// True when the entry's present bit is set.
pub open spec fn present(e: u64) -> bool {
    e & PRESENT == PRESENT
}

/// True when the entry maps a huge page.
pub open spec fn huge(e: u64) -> bool {
    e & HUGE_PAGE == HUGE_PAGE
}

/// The physical address an entry points at.
pub open spec fn entry_addr(e: u64) -> u64 {
    e & ADDR_MASK
}

/// The flag bits of an entry: everything outside the address field.
pub open spec fn entry_flags(e: u64) -> u64 {
    e & !ADDR_MASK
}

/// Present bit of an entry.
pub fn entry_present(e: u64) -> (r: bool)
    ensures
        r == present(e),
{
    e & PRESENT == PRESENT
}

/// Huge-page bit of an entry.
pub fn entry_huge(e: u64) -> (r: bool)
    ensures
        r == huge(e),
{
    e & HUGE_PAGE == HUGE_PAGE
}

/// Target address of an entry.
pub fn entry_target(e: u64) -> (r: u64)
    ensures
        r == entry_addr(e),
{
    e & ADDR_MASK
}

/// One page-table frame.
pub struct PageTable {
    /// Physical address of the frame holding the table.
    pub addr: u64,
    /// 4 for a PML4 down to 1 for a leaf table.
    pub level: u8,
    /// The 512 entries.
    pub entries: Vec<u64>,
}

/// Shape of a single table.
pub open spec fn table_wf(t: PageTable) -> bool {
    &&& t.entries@.len() == 512
    &&& 1 <= t.level <= 4
}

/// True when slot `i` is one of the recursive level-4 slots.
pub open spec fn exempt_slot(i: int) -> bool {
    i == 508 || i == 511
}

/// A slot whose entry the walk follows down to a lower-level table.
pub open spec fn structural_slot(t: PageTable, s: int) -> bool {
    &&& 0 <= s < 512
    &&& t.level >= 2
    &&& (t.level == 4 ==> !exempt_slot(s))
    &&& present(t.entries@[s])
    &&& !huge(t.entries@[s])
}

/// Some table in the store has this physical address.
pub open spec fn has_table(ts: Seq<PageTable>, addr: u64) -> bool {
    exists|i: int| 0 <= i < ts.len() && (#[trigger] ts[i]).addr == addr
}

/// Index in the store of the table at `addr`.
pub open spec fn table_index(ts: Seq<PageTable>, addr: u64) -> int {
    choose|i: int| 0 <= i < ts.len() && (#[trigger] ts[i]).addr == addr
}

/// The 512 entries of the table at `addr`.
pub open spec fn table_entries(ts: Seq<PageTable>, addr: u64) -> Seq<u64> {
    ts[table_index(ts, addr)].entries@
}

/// The level of the table at `addr`.
pub open spec fn table_level(ts: Seq<PageTable>, addr: u64) -> u8 {
    ts[table_index(ts, addr)].level
}

/// Entry `idx` of the table at `table`; zero when there is no such table
/// or slot, so a failed lookup reads as a non-present entry.
pub open spec fn entry_at(ts: Seq<PageTable>, table: u64, idx: int) -> u64 {
    if has_table(ts, table) && 0 <= idx < 512 && table_entries(ts, table).len() == 512 {
        table_entries(ts, table)[idx]
    } else {
        0
    }
}

/// No two tables share a physical address.
pub open spec fn distinct_addrs(ts: Seq<PageTable>) -> bool {
    forall|i: int, j: int|
        0 <= i < ts.len() && 0 <= j < ts.len() && i != j ==> (#[trigger] ts[i]).addr != (
        #[trigger] ts[j]).addr
}

/// The entry points at a table one level down.
pub open spec fn entry_target_ok(ts: Seq<PageTable>, level: u8, e: u64) -> bool {
    has_table(ts, entry_addr(e)) && table_level(ts, entry_addr(e)) + 1 == level
}

/// A page number below 2^36 whose level-4 index avoids the recursive
/// slots: the pages for which walks are specified.
pub open spec fn normal_pn(pn: u64) -> bool {
    &&& pn < 0x10_0000_0000
    &&& !exempt_slot(l4_index(pn))
}

/// The leaf entry reached by walking `pn` from the level-4 table at
/// `root`; zero as soon as a step is non-present or huge.
#[verifier::opaque]
pub open spec fn walk(ts: Seq<PageTable>, root: u64, pn: u64) -> u64 {
    let e4 = entry_at(ts, root, l4_index(pn));
    if !present(e4) || huge(e4) {
        0
    } else {
        let e3 = entry_at(ts, entry_addr(e4), l3_index(pn));
        if !present(e3) || huge(e3) {
            0
        } else {
            let e2 = entry_at(ts, entry_addr(e3), l2_index(pn));
            if !present(e2) || huge(e2) {
                0
            } else {
                entry_at(ts, entry_addr(e2), l1_index(pn))
            }
        }
    }
}

/// The physical frame `pn` is mapped to, if any.
pub open spec fn spec_translate(ts: Seq<PageTable>, root: u64, pn: u64) -> Option<u64> {
    if present(walk(ts, root, pn)) {
        Some(entry_addr(walk(ts, root, pn)))
    } else {
        None
    }
}

/// True when the walk of `pn` runs into a huge-page entry.
#[verifier::opaque]
pub open spec fn walk_hits_huge(ts: Seq<PageTable>, root: u64, pn: u64) -> bool {
    let e4 = entry_at(ts, root, l4_index(pn));
    let e3 = entry_at(ts, entry_addr(e4), l3_index(pn));
    let e2 = entry_at(ts, entry_addr(e3), l2_index(pn));
    ||| present(e4) && huge(e4)
    ||| present(e4) && !huge(e4) && present(e3) && huge(e3)
    ||| present(e4) && !huge(e4) && present(e3) && !huge(e3) && present(e2) && huge(e2)
}

/// The target of the entry at slot `s` of the table at `t`.
pub open spec fn follow(ts: Seq<PageTable>, t: u64, s: int) -> u64 {
    entry_addr(entry_at(ts, t, s))
}

/// The entry at slot `s` of the table at `t` can be walked through.
pub open spec fn step_ok(ts: Seq<PageTable>, t: u64, s: int) -> bool {
    present(entry_at(ts, t, s)) && !huge(entry_at(ts, t, s))
}

/// Well-formed store: distinct addresses; every table shaped right; every
/// structural entry points one level down; pointers below level 4 are
/// injective; and within one level-4 table distinct slots point at
/// distinct children.
pub open spec fn store_wf(ts: Seq<PageTable>) -> bool {
    &&& distinct_addrs(ts)
    &&& forall|i: int| 0 <= i < ts.len() ==> table_wf(#[trigger] ts[i])
    &&& forall|i: int, s: int|
        0 <= i < ts.len() && #[trigger] structural_slot(ts[i], s) ==> entry_target_ok(
            ts,
            ts[i].level,
            ts[i].entries@[s],
        )
    &&& forall|i1: int, s1: int, i2: int, s2: int|
        0 <= i1 < ts.len() && 0 <= i2 < ts.len() && #[trigger] structural_slot(ts[i1], s1)
            && #[trigger] structural_slot(ts[i2], s2) && ts[i1].level <= 3 && ts[i2].level <= 3
            && entry_addr(ts[i1].entries@[s1]) == entry_addr(ts[i2].entries@[s2]) ==> i1 == i2
            && s1 == s2
    &&& forall|i: int, s1: int, s2: int|
        0 <= i < ts.len() && ts[i].level == 4 && #[trigger] structural_slot(ts[i], s1)
            && #[trigger] structural_slot(ts[i], s2) && s1 != s2 ==> entry_addr(
            ts[i].entries@[s1],
        ) != entry_addr(ts[i].entries@[s2])
}

/// No entry of any table carries the huge-page bit: the shape every
/// mutation of this module preserves, since nothing here creates huge
/// mappings.
pub open spec fn no_huge_entries(ts: Seq<PageTable>) -> bool {
    forall|i: int, s: int|
        0 <= i < ts.len() && 0 <= s < ts[i].entries@.len() ==> !huge(
            #[trigger] ts[i].entries@[s],
        )
}

/// With no huge entry anywhere, no walk runs into one.
pub proof fn lemma_no_huge_no_hits(ts: Seq<PageTable>, root: u64, pn: u64)
    requires
        no_huge_entries(ts),
    ensures
        !walk_hits_huge(ts, root, pn),
{
    reveal(walk_hits_huge);
    lemma_zero_entry();
    lemma_index_bounds(pn);
    lemma_entry_at_not_huge(ts, root, l4_index(pn));
    let e4 = entry_at(ts, root, l4_index(pn));
    lemma_entry_at_not_huge(ts, entry_addr(e4), l3_index(pn));
    let e3 = entry_at(ts, entry_addr(e4), l3_index(pn));
    lemma_entry_at_not_huge(ts, entry_addr(e3), l2_index(pn));
}

/// An entry read out of a store with no huge entries is not huge.
proof fn lemma_entry_at_not_huge(ts: Seq<PageTable>, t: u64, s: int)
    requires
        no_huge_entries(ts),
    ensures
        !huge(entry_at(ts, t, s)),
{
    lemma_zero_entry();
    if has_table(ts, t) && 0 <= s < 512 && table_entries(ts, t).len() == 512 {
        let i = table_index(ts, t);
        assert(0 <= i < ts.len() && ts[i].addr == t);
        assert(!huge(ts[i].entries@[s]));
    }
}

/// Every table frame inside the allocator's range is marked allocated,
/// so a fresh frame is never the address of an existing table.
pub open spec fn tables_linked(ts: Seq<PageTable>, fa: PhysFrameAllocator) -> bool {
    forall|i: int|
        0 <= i < ts.len() && fa.in_range((#[trigger] ts[i]).addr) ==> fa.bits()[fa.index_of(
            ts[i].addr,
        )]
}

/// All the page-table frames of the system.
pub struct PageTables {
    /// Every table, of every address space.
    pub tables: Vec<PageTable>,
}

impl PageTables {
    /// Well-formed store; see [`store_wf`].
    pub open spec fn wf(&self) -> bool {
        store_wf(self.tables@)
    }

    /// The table at `root` exists and is a level-4 table.
    pub open spec fn is_root(&self, root: u64) -> bool {
        has_table(self.tables@, root) && table_level(self.tables@, root) == 4
    }

    /// An empty store.
    pub fn new() -> (r: PageTables)
        ensures
            r.wf(),
            r.tables@.len() == 0,
    {
        PageTables { tables: Vec::new() }
    }

    /// Index of the table at `addr`, by linear scan.
    fn find_table(&self, addr: u64) -> (r: Option<usize>)
        requires
            distinct_addrs(self.tables@),
        ensures
            (match r {
                Some(i) => i < self.tables@.len() && self.tables@[i as int].addr == addr
                    && has_table(self.tables@, addr) && table_index(self.tables@, addr) == i,
                None => !has_table(self.tables@, addr),
            }),
    {
        let n = self.tables.len();
        let mut i: usize = 0;
        while i < n
            invariant
                i <= n,
                n == self.tables@.len(),
                forall|m: int| 0 <= m < i ==> (#[trigger] self.tables@[m]).addr != addr,
            decreases n - i,
        {
            if self.tables[i].addr == addr {
                proof {
                    lemma_table_index_of(self.tables@, i as int);
                }
                return Some(i);
            }
            i = i + 1;
        }
        None
    }

    /// Entry `idx` of the table at `table`, or zero when absent.
    pub fn get_entry(&self, table: u64, idx: usize) -> (e: u64)
        requires
            self.wf(),
            idx < 512,
        ensures
            e == entry_at(self.tables@, table, idx as int),
    {
        match self.find_table(table) {
            Some(i) => self.tables[i].entries[idx],
            None => 0,
        }
    }

    /// Rewrites entry `idx` of the table at `table`.
    fn set_entry(&mut self, table: u64, idx: usize, value: u64)
        requires
            distinct_addrs(old(self).tables@),
            forall|i: int|
                0 <= i < old(self).tables@.len() ==> table_wf(#[trigger] old(self).tables@[i]),
            has_table(old(self).tables@, table),
            idx < 512,
        ensures
            final(self).tables@.len() == old(self).tables@.len(),
            // only the entries of the addressed table change, at one slot
            forall|i: int|
                0 <= i < old(self).tables@.len() ==> (#[trigger] final(self).tables@[i]).addr
                    == old(self).tables@[i].addr && final(self).tables@[i].level == old(
                    self,
                ).tables@[i].level,
            forall|i: int|
                0 <= i < old(self).tables@.len() && i != table_index(old(self).tables@, table)
                    ==> (#[trigger] final(self).tables@[i]).entries@ == old(
                    self,
                ).tables@[i].entries@,
            final(self).tables@[table_index(old(self).tables@, table)].entries@ == old(
                self,
            ).tables@[table_index(old(self).tables@, table)].entries@.update(
                idx as int,
                value,
            ),
            // the abstract view of the change
            forall|a: u64| has_table(final(self).tables@, a) == has_table(old(self).tables@, a),
            distinct_addrs(final(self).tables@),
            forall|a: u64|
                #[trigger] has_table(old(self).tables@, a) ==> table_index(final(self).tables@, a)
                    == table_index(old(self).tables@, a) && table_level(final(self).tables@, a)
                    == table_level(old(self).tables@, a),
            forall|a: u64, s: int|
                has_table(old(self).tables@, a) && 0 <= s < 512 && !(a == table && s == idx as int)
                    ==> #[trigger] entry_at(final(self).tables@, a, s) == entry_at(
                    old(self).tables@,
                    a,
                    s,
                ),
            entry_at(final(self).tables@, table, idx as int) == value,
            forall|i: int|
                0 <= i < final(self).tables@.len() ==> table_wf(#[trigger] final(self).tables@[i]),
    {
        let ghost ots = self.tables@;
        let ti = match self.find_table(table) {
            Some(i) => i,
            None => {
                proof {
                    assert(false);
                }
                0
            },
        };
        let t = &mut self.tables[ti];
        t.entries.set(idx, value);
        proof {
            let ts = self.tables@;
            assert(ts[ti as int].entries@ == ots[ti as int].entries@.update(idx as int, value));
            assert forall|a: u64| has_table(ts, a) == has_table(ots, a) by {
                lemma_same_addrs_same_tables(ots, ts, a);
            }
            assert forall|a: u64| #[trigger]
                has_table(ots, a) implies table_index(ts, a) == table_index(ots, a) && table_level(
                ts,
                a,
            ) == table_level(ots, a) by {
                lemma_same_addrs_same_tables(ots, ts, a);
                let io = table_index(ots, a);
                lemma_table_index_of(ots, io);
                lemma_table_index_of(ts, io);
            }
            assert forall|a: u64, s: int|
                has_table(ots, a) && 0 <= s < 512 && !(a == table && s
                    == idx as int) implies #[trigger] entry_at(ts, a, s) == entry_at(
                ots,
                a,
                s,
            ) by {
                let io = table_index(ots, a);
                lemma_table_index_of(ots, io);
                if a != table {
                    assert(io != table_index(ots, table));
                }
            }
            assert(entry_at(ts, table, idx as int) == value) by {
                lemma_table_index_of(ots, table_index(ots, table));
            }
        }
    }

    /// Level of the table at `table`.
    fn get_level(&self, table: u64) -> (r: u8)
        requires
            self.wf(),
            has_table(self.tables@, table),
        ensures
            r == table_level(self.tables@, table),
    {
        match self.find_table(table) {
            Some(i) => self.tables[i].level,
            None => {
                proof {
                    assert(false);
                }
                0
            },
        }
    }

    /// Returns the table one level below `parent` at slot `idx`, creating
    /// it from a fresh frame when the slot is empty.
    fn ensure_child(&mut self, fa: &mut PhysFrameAllocator, parent: u64, idx: usize) -> (r: Result<
        u64,
        MapError,
    >)
        requires
            old(self).wf(),
            old(fa).wf(),
            has_table(old(self).tables@, parent),
            table_level(old(self).tables@, parent) >= 2,
            idx < 512,
            table_level(old(self).tables@, parent) == 4 ==> !exempt_slot(idx as int),
            tables_linked(old(self).tables@, *old(fa)),
        ensures
            final(self).wf(),
            final(fa).wf(),
            final(fa).usable_memory_region == old(fa).usable_memory_region,
            final(fa).bit_map_region == old(fa).bit_map_region,
            tables_linked(final(self).tables@, *final(fa)),
            count_free(final(fa).bits(), 0) >= count_free(old(fa).bits(), 0) - 1,
            forall|m: int|
                0 <= m < old(fa).frame_count() && old(fa).bits()[m] ==> final(fa).bits()[m],
            forall|t: u64, s: int|
                0 <= s < 512 && present(#[trigger] entry_at(old(self).tables@, t, s)) ==> entry_at(
                    final(self).tables@,
                    t,
                    s,
                ) == entry_at(old(self).tables@, t, s),
            no_huge_entries(old(self).tables@) ==> no_huge_entries(final(self).tables@),
            forall|a: u64|
                #[trigger] has_table(old(self).tables@, a) ==> has_table(final(self).tables@, a)
                    && table_level(final(self).tables@, a) == table_level(old(self).tables@, a),
            (match r {
                Ok(c) => {
                    &&& step_ok(final(self).tables@, parent, idx as int)
                    &&& follow(final(self).tables@, parent, idx as int) == c
                    &&& has_table(final(self).tables@, c)
                    &&& table_level(final(self).tables@, c) + 1 == table_level(
                        old(self).tables@,
                        parent,
                    )
                    &&& forall|t: u64, s: int|
                        0 <= s < 512 && !(t == parent && s == idx as int) ==> #[trigger] entry_at(
                            final(self).tables@,
                            t,
                            s,
                        ) == entry_at(old(self).tables@, t, s)
                    &&& (present(entry_at(old(self).tables@, parent, idx as int)) ==> *final(self)
                        == *old(self) && *final(fa) == *old(fa))
                    &&& (!present(entry_at(old(self).tables@, parent, idx as int)) ==> !has_table(
                        old(self).tables@,
                        c,
                    ) && old(fa).in_range(c) && (forall|s: int|
                        0 <= s < 512 ==> #[trigger] entry_at(final(self).tables@, c, s) == 0))
                    &&& forall|a: u64|
                        #[trigger] has_table(final(self).tables@, a) == (has_table(
                            old(self).tables@,
                            a,
                        ) || a == c)
                    &&& (!present(entry_at(old(self).tables@, parent, idx as int)) ==> count_free(
                        final(fa).bits(),
                        0,
                    ) == count_free(old(fa).bits(), 0) - 1)
                },
                Err(e) => {
                    &&& *final(self) == *old(self)
                    &&& (e == MapError::ParentEntryHugePage ==> present(
                        entry_at(old(self).tables@, parent, idx as int),
                    ) && huge(entry_at(old(self).tables@, parent, idx as int)) && *final(fa)
                        == *old(fa))
                    &&& (e == MapError::FrameAllocationFailed ==> !present(
                        entry_at(old(self).tables@, parent, idx as int),
                    ) && count_free(old(fa).bits(), 0) == 0 && final(fa).bits() == old(
                        fa,
                    ).bits())
                    &&& e != MapError::AlreadyMapped
                },
            }),
    {
        let ghost ots = self.tables@;
        let e = self.get_entry(parent, idx);
        if entry_present(e) {
            if entry_huge(e) {
                return Err(MapError::ParentEntryHugePage);
            }
            let c = entry_target(e);
            proof {
                lemma_step_structural(ots, parent, idx as int);
            }
            return Ok(c);
        }
        let frame = match fa.allocate_frame() {
            Some(f) => f,
            None => {
                return Err(MapError::FrameAllocationFailed);
            },
        };
        proof {
            // the fresh frame is no existing table's address
            assert forall|i: int| 0 <= i < ots.len() implies (#[trigger] ots[i]).addr != frame by {
                if ots[i].addr == frame {
                    assert(old(fa).bits()[old(fa).index_of(frame)]);
                }
            }
            assert(!has_table(ots, frame)) by {
                if has_table(ots, frame) {
                    let i = choose|i: int|
                        0 <= i < ots.len() && (#[trigger] ots[i]).addr == frame;
                }
            }
        }
        let parent_level = self.get_level(parent);
        let entries = vec![0u64; 512];
        let child = PageTable { addr: frame, level: parent_level - 1, entries };
        proof {
            assert(child.entries@ =~= Seq::new(512, |i: int| 0u64));
            lemma_push_zero_table(ots, child);
        }
        self.tables.push(child);
        let ghost ts1 = self.tables@;
        proof {
            assert(ts1 == ots.push(child));
            assert forall|i: int| 0 <= i < ts1.len() implies table_wf(#[trigger] ts1[i]) by {
                if i < ots.len() {
                    assert(table_wf(ots[i]));
                }
            }
            lemma_table_index_of(ts1, ots.len() as int);
        }
        let value = frame | TABLE_ENTRY_FLAGS;
        proof {
            lemma_table_entry(frame);
        }
        self.set_entry(parent, idx, value);
        proof {
            let ts2 = self.tables@;
            let pi = table_index(ts1, parent);
            lemma_zero_entry();
            // entry changes are confined to the parent slot
            assert forall|t: u64, s: int|
                0 <= s < 512 && !(t == parent && s == idx as int) implies #[trigger] entry_at(
                ts2,
                t,
                s,
            ) == entry_at(ots, t, s) by {
                if has_table(ts1, t) {
                    assert(entry_at(ts2, t, s) == entry_at(ts1, t, s));
                } else {
                    assert(!has_table(ts2, t));
                    assert(!has_table(ots, t));
                }
            }
            assert forall|a: u64| #[trigger]
                has_table(ts2, a) == (has_table(ots, a) || a == frame) by {
                assert(has_table(ts2, a) == has_table(ts1, a));
            }
            assert forall|a: u64| #[trigger]
                has_table(ots, a) implies has_table(ts2, a) && table_level(ts2, a) == table_level(
                ots,
                a,
            ) by {
                assert(has_table(ts1, a));
                assert(table_level(ts1, a) == table_level(ots, a));
                assert(table_level(ts2, a) == table_level(ts1, a));
            }
            assert(entry_at(ts2, parent, idx as int) == value);
            assert(has_table(ts2, frame) && table_level(ts2, frame) == parent_level - 1) by {
                assert(table_level(ts2, frame) == table_level(ts1, frame));
            }
            assert(step_ok(ts2, parent, idx as int) && follow(ts2, parent, idx as int) == frame);
            // the fresh table is still all zero
            assert forall|s: int| 0 <= s < 512 implies #[trigger] entry_at(ts2, frame, s)
                == 0 by {
                assert(entry_at(ts1, frame, s) == 0);
                assert(entry_at(ts2, frame, s) == entry_at(ts1, frame, s));
            }
            // present entries preserved
            assert forall|t: u64, s: int|
                0 <= s < 512 && present(#[trigger] entry_at(ots, t, s)) implies entry_at(
                ts2,
                t,
                s,
            ) == entry_at(ots, t, s) by {
                if t == parent && s == idx as int {
                    assert(!present(entry_at(ots, t, s)));
                }
            }
            // no huge entry appears: the new pointer and the fresh table
            // are huge-free
            assert(no_huge_entries(ots) ==> no_huge_entries(ts2)) by {
                if no_huge_entries(ots) {
                    assert forall|i: int, s: int|
                        0 <= i < ts2.len() && 0 <= s < ts2[i].entries@.len() implies !huge(
                        #[trigger] ts2[i].entries@[s],
                    ) by {
                        let pi = table_index(ts1, parent);
                        if i == ots.len() {
                            assert(ts2[i].entries@[s] == 0);
                            lemma_zero_entry();
                        } else if i == pi && s == idx as int {
                            assert(ts2[i].entries@[s] == value);
                        } else {
                            assert(ts2[i].entries@[s] == ts1[i].entries@[s]);
                            assert(ts1[i].entries@[s] == ots[i].entries@[s]);
                        }
                    }
                }
            }
            // the store stays well formed
            lemma_wf_after_link(ots, ts2, parent, idx as int, frame, parent_level);
            // and stays linked to the allocator
            assert forall|i: int|
                0 <= i < ts2.len() && fa.in_range((#[trigger] ts2[i]).addr) implies fa.bits()[fa.index_of(ts2[i].addr)] by {
                if i < ots.len() {
                    assert(ts2[i].addr == ots[i].addr);
                    if old(fa).in_range(ots[i].addr) {
                        assert(old(fa).bits()[old(fa).index_of(ots[i].addr)]);
                    }
                } else {
                    assert(ts2[i].addr == frame);
                }
            }
        }
        Ok(frame)
    }

    /// Installs a mapping from page `pn` to `frame` with the given leaf
    /// flags under the address space rooted at `root`, creating the
    /// intermediate tables from fresh frames as needed.  On an error
    /// nothing has changed: the page was already mapped, an intermediate
    /// entry maps a huge page, or the allocator cannot supply the missing
    /// tables.  Success never disturbs any existing translation, under
    /// this root or any other, and maps nothing besides `pn`.
    #[verifier::rlimit(100)]
    pub fn map_to(
        &mut self,
        fa: &mut PhysFrameAllocator,
        root: u64,
        pn: u64,
        frame: u64,
        flags: u64,
    ) -> (r: Result<(), MapError>)
        requires
            old(self).wf(),
            old(fa).wf(),
            old(self).is_root(root),
            normal_pn(pn),
            tables_linked(old(self).tables@, *old(fa)),
            flags & PRESENT == PRESENT,
            flags & HUGE_PAGE == 0,
            flags & ADDR_MASK == 0,
            frame % 4096 == 0,
            frame < 0x10_0000_0000_0000,
        ensures
            final(self).wf(),
            final(fa).wf(),
            final(fa).usable_memory_region == old(fa).usable_memory_region,
            final(fa).bit_map_region == old(fa).bit_map_region,
            tables_linked(final(self).tables@, *final(fa)),
            final(self).is_root(root),
            forall|a: u64|
                #[trigger] has_table(old(self).tables@, a) ==> has_table(final(self).tables@, a)
                    && table_level(final(self).tables@, a) == table_level(old(self).tables@, a),
            forall|a: u64|
                #[trigger] has_table(final(self).tables@, a) && !has_table(old(self).tables@, a)
                    ==> old(fa).in_range(a),
            count_free(final(fa).bits(), 0) >= count_free(old(fa).bits(), 0) - 3,
            forall|m: int|
                0 <= m < old(fa).frame_count() && old(fa).bits()[m] ==> final(fa).bits()[m],
            r is Err ==> *final(self) == *old(self) && *final(fa) == *old(fa),
            forall|t: u64, s: int|
                0 <= s < 512 && present(#[trigger] entry_at(old(self).tables@, t, s)) ==> entry_at(
                    final(self).tables@,
                    t,
                    s,
                ) == entry_at(old(self).tables@, t, s),
            forall|r2: u64, q: u64|
                #[trigger] spec_translate(old(self).tables@, r2, q) is Some ==> spec_translate(
                    final(self).tables@,
                    r2,
                    q,
                ) == spec_translate(old(self).tables@, r2, q) && walk(final(self).tables@, r2, q)
                    == walk(old(self).tables@, r2, q),
            forall|q: u64|
                normal_pn(q) && q != pn ==> #[trigger] spec_translate(
                    final(self).tables@,
                    root,
                    q,
                ) == spec_translate(old(self).tables@, root, q),
            no_huge_entries(old(self).tables@) ==> no_huge_entries(final(self).tables@),
            (path_exists(old(self).tables@, root, pn) && r is Ok ==> *final(fa) == *old(fa) && (
            forall|a: u64|
                #[trigger] has_table(final(self).tables@, a) == has_table(old(self).tables@, a))),
            (match r {
                Ok(()) => spec_translate(final(self).tables@, root, pn) == Some(frame) && walk(
                    final(self).tables@,
                    root,
                    pn,
                ) == frame | flags && path_exists(final(self).tables@, root, pn),
                Err(MapError::AlreadyMapped) => spec_translate(
                    old(self).tables@,
                    root,
                    pn,
                ) is Some,
                Err(MapError::ParentEntryHugePage) => walk_hits_huge(old(self).tables@, root, pn),
                Err(MapError::FrameAllocationFailed) => count_free(old(fa).bits(), 0) <= 2
                    && !path_exists(old(self).tables@, root, pn),
            }),
    {
        let ghost ts0 = self.tables@;
        proof {
            reveal(walk);
            reveal(walk_hits_huge);
            lemma_zero_entry();
            lemma_index_bounds(pn);
        }
        let (i4, i3, i2, i1) = page_indices(pn);
        // walk as far as the path exists, without mutating, to find how
        // many tables are missing and to detect errors early
        let needed: u64;
        let e4 = self.get_entry(root, i4);
        if entry_present(e4) {
            if entry_huge(e4) {
                return Err(MapError::ParentEntryHugePage);
            }
            let e3 = self.get_entry(entry_target(e4), i3);
            if entry_present(e3) {
                if entry_huge(e3) {
                    return Err(MapError::ParentEntryHugePage);
                }
                let e2 = self.get_entry(entry_target(e3), i2);
                if entry_present(e2) {
                    if entry_huge(e2) {
                        return Err(MapError::ParentEntryHugePage);
                    }
                    let e1 = self.get_entry(entry_target(e2), i1);
                    if entry_present(e1) {
                        proof {
                            assert(walk(ts0, root, pn) == e1);
                        }
                        return Err(MapError::AlreadyMapped);
                    }
                    needed = 0;
                } else {
                    needed = 1;
                }
            } else {
                needed = 2;
            }
        } else {
            needed = 3;
        }
        if fa.free_frames() < needed {
            proof {
                if path_exists(ts0, root, pn) {
                    assert(needed == 0);
                }
            }
            return Err(MapError::FrameAllocationFailed);
        }
        let ghost fa0 = *fa;
        // build the path; no step can fail now
        let t3 = match self.ensure_child(fa, root, i4) {
            Ok(c) => c,
            Err(e) => {
                proof {
                    assert(false);
                }
                return Err(e);
            },
        };
        let ghost ts_a = self.tables@;
        let ghost fa_a = *fa;
        proof {
            if !present(e4) {
                assert(entry_at(ts_a, t3, i3 as int) == 0);
            } else {
                assert(*self == *old(self) && *fa == fa0);
            }
        }
        let t2 = match self.ensure_child(fa, t3, i3) {
            Ok(c) => c,
            Err(e) => {
                proof {
                    if e == MapError::ParentEntryHugePage {
                        assert(present(entry_at(ts_a, t3, i3 as int)));
                        assert(present(e4));
                        assert(ts_a == ts0);
                        assert(t3 == entry_addr(e4));
                    } else {
                        assert(e == MapError::FrameAllocationFailed);
                        assert(count_free(fa_a.bits(), 0) == 0);
                        assert(!present(entry_at(ts_a, t3, i3 as int)));
                        if present(e4) {
                            assert(ts_a == ts0 && fa_a == fa0);
                            assert(t3 == entry_addr(e4));
                            assert(needed == 2);
                            assert(count_free(fa0.bits(), 0) >= 2);
                        } else {
                            assert(needed == 3);
                            assert(count_free(fa_a.bits(), 0) == count_free(fa0.bits(), 0) - 1);
                            assert(count_free(fa0.bits(), 0) >= 3);
                        }
                    }
                    assert(false);
                }
                return Err(e);
            },
        };
        let ghost ts_b = self.tables@;
        let ghost fa_b = *fa;
        proof {
            assert(root != t3 && root != t2 && t3 != t2) by {
                assert(table_level(ts_b, root) == 4);
                assert(table_level(ts_b, t3) == 3);
                assert(table_level(ts_b, t2) == 2);
            }
            // the level-2 slot: the pre-checked entry, or zero on a fresh path
            if present(e4) && present(entry_at(ts0, entry_addr(e4), i3 as int)) {
                assert(ts_b == ts0 && fa_b == fa0);
                assert(t3 == entry_addr(e4));
                assert(t2 == entry_addr(entry_at(ts0, t3, i3 as int)));
            } else {
                assert(!present(entry_at(ts_b, t2, i2 as int))) by {
                    assert(entry_at(ts_b, t2, i2 as int) == 0);
                }
            }
        }
        let t1 = match self.ensure_child(fa, t2, i2) {
            Ok(c) => c,
            Err(e) => {
                proof {
                    let pre3 = present(e4) && present(entry_at(ts0, entry_addr(e4), i3 as int));
                    if e == MapError::ParentEntryHugePage {
                        assert(present(entry_at(ts_b, t2, i2 as int)));
                        assert(pre3);
                        assert(ts_b == ts0);
                    } else {
                        assert(e == MapError::FrameAllocationFailed);
                        assert(count_free(fa_b.bits(), 0) == 0);
                        assert(!present(entry_at(ts_b, t2, i2 as int)));
                        if pre3 {
                            assert(ts_b == ts0 && fa_b == fa0);
                            assert(needed == 1);
                            assert(count_free(fa0.bits(), 0) >= 1);
                        } else if present(e4) {
                            assert(needed == 2);
                            assert(fa_a == fa0);
                            assert(count_free(fa_b.bits(), 0) >= count_free(fa0.bits(), 0) - 1);
                            assert(count_free(fa0.bits(), 0) >= 2);
                        } else {
                            assert(needed == 3);
                            assert(count_free(fa_a.bits(), 0) == count_free(fa0.bits(), 0) - 1);
                            assert(count_free(fa_b.bits(), 0) >= count_free(fa_a.bits(), 0) - 1);
                            assert(count_free(fa0.bits(), 0) >= 3);
                        }
                    }
                    assert(false);
                }
                return Err(e);
            },
        };
        let ghost ts_c = self.tables@;
        let ghost fa_c = *fa;
        proof {
            assert(table_level(ts_c, t1) == 1);
            assert(root != t1 && t3 != t1 && t2 != t1) by {
                assert(table_level(ts_c, root) == 4);
                assert(table_level(ts_c, t3) == 3);
                assert(table_level(ts_c, t2) == 2);
            }
            // the leaf slot is empty
            if present(e4) && present(entry_at(ts0, entry_addr(e4), i3 as int)) && present(
                entry_at(ts0, entry_addr(entry_at(ts0, entry_addr(e4), i3 as int)), i2 as int),
            ) {
                assert(ts_c == ts0);
                assert(!present(entry_at(ts_c, t1, i1 as int)));
            } else {
                assert(!present(entry_at(ts_c, t1, i1 as int))) by {
                    assert(entry_at(ts_c, t1, i1 as int) == 0);
                }
            }
            lemma_leaf_entry(frame, flags);
        }
        let value = frame | flags;
        self.set_entry(t1, i1, value);
        proof {
            let tsf = self.tables@;
            let t1i = table_index(ts_c, t1);
            lemma_table_index_of(ts_c, t1i);
            // the store is still well formed: only a leaf table changed
            assert forall|i: int|
                0 <= i < ts_c.len() implies (#[trigger] tsf[i]).addr == ts_c[i].addr
                    && tsf[i].level == ts_c[i].level && tsf[i].entries@.len()
                    == ts_c[i].entries@.len() by {
                if i != t1i {
                    assert(tsf[i].entries@ == ts_c[i].entries@);
                }
            }
            lemma_wf_after_leaf_write(ts_c, tsf, t1);
            // still linked to the allocator
            assert forall|i: int|
                0 <= i < tsf.len() && fa.in_range((#[trigger] tsf[i]).addr) implies fa.bits()[fa.index_of(tsf[i].addr)] by {
                assert(tsf[i].addr == ts_c[i].addr);
            }
            // table set and levels unchanged by the leaf write
            assert forall|a: u64| #[trigger]
                has_table(ts_c, a) implies has_table(tsf, a) && table_level(tsf, a)
                == table_level(ts_c, a) by {}
            assert forall|a: u64| #[trigger]
                has_table(ts0, a) implies has_table(tsf, a) && table_level(tsf, a) == table_level(
                ts0,
                a,
            ) by {}
            // the path of pn in the final state
            assert(entry_at(tsf, root, i4 as int) == entry_at(ts_c, root, i4 as int));
            assert(entry_at(tsf, t3, i3 as int) == entry_at(ts_c, t3, i3 as int));
            assert(entry_at(tsf, t2, i2 as int) == entry_at(ts_c, t2, i2 as int));
            assert(entry_at(ts_c, root, i4 as int) == entry_at(ts_b, root, i4 as int));
            assert(entry_at(ts_c, t3, i3 as int) == entry_at(ts_b, t3, i3 as int));
            assert(entry_at(ts_b, root, i4 as int) == entry_at(ts_a, root, i4 as int));
            assert(step_ok(tsf, root, i4 as int) && follow(tsf, root, i4 as int) == t3);
            assert(step_ok(tsf, t3, i3 as int) && follow(tsf, t3, i3 as int) == t2);
            assert(step_ok(tsf, t2, i2 as int) && follow(tsf, t2, i2 as int) == t1);
            assert(entry_at(tsf, t1, i1 as int) == value);
            assert(path3(tsf, root, pn) == t3);
            assert(path2(tsf, root, pn) == t2);
            assert(path1(tsf, root, pn) == t1);
            assert(walk(tsf, root, pn) == value);
            assert(spec_translate(tsf, root, pn) == Some(frame));
            // every entry off the path of pn kept its value
            assert forall|t: u64, s: int|
                0 <= s < 512 && !on_path(tsf, root, pn, t, s) implies #[trigger] entry_at(
                tsf,
                t,
                s,
            ) == entry_at(ts0, t, s) by {
                assert(entry_at(tsf, t, s) == entry_at(ts_c, t, s));
                assert(entry_at(ts_c, t, s) == entry_at(ts_b, t, s));
                assert(entry_at(ts_b, t, s) == entry_at(ts_a, t, s));
                assert(entry_at(ts_a, t, s) == entry_at(ts0, t, s));
            }
            // present entries kept their values
            assert forall|t: u64, s: int|
                0 <= s < 512 && present(#[trigger] entry_at(ts0, t, s)) implies entry_at(
                tsf,
                t,
                s,
            ) == entry_at(ts0, t, s) by {
                assert(entry_at(ts_a, t, s) == entry_at(ts0, t, s));
                assert(entry_at(ts_b, t, s) == entry_at(ts_a, t, s));
                assert(entry_at(ts_c, t, s) == entry_at(ts_b, t, s));
                if !(t == t1 && s == i1 as int) {
                    assert(entry_at(tsf, t, s) == entry_at(ts_c, t, s));
                } else {
                    assert(!present(entry_at(ts_c, t1, i1 as int)));
                }
            }
            assert forall|r2: u64, q: u64| #[trigger]
                spec_translate(ts0, r2, q) is Some implies spec_translate(tsf, r2, q)
                == spec_translate(ts0, r2, q) by {
                lemma_translate_some_preserved(ts0, tsf, r2, q);
            }
            // nothing but pn gained or changed a mapping under this root
            // the written-slot facts the off-path lemma needs
            if entry_at(tsf, root, i4 as int) != entry_at(ts0, root, i4 as int) {
                assert(!present(e4));
                assert(!has_table(ts_a, t3) || !has_table(ts0, t3));
                assert(!has_table(ts0, t3));
                assert forall|s: int| 0 <= s < 512 implies entry_at(ts0, t3, s) == 0 by {
                    assert(!has_table(ts0, t3));
                }
            }
            if entry_at(tsf, t3, i3 as int) != entry_at(ts0, t3, i3 as int) {
                assert(entry_at(tsf, t3, i3 as int) == entry_at(ts_b, t3, i3 as int));
                assert(entry_at(ts_a, t3, i3 as int) == entry_at(ts0, t3, i3 as int));
                // step two wrote the slot, so it was empty and t2 is fresh
                assert(entry_at(ts_b, t3, i3 as int) != entry_at(ts_a, t3, i3 as int));
                assert(!present(entry_at(ts_a, t3, i3 as int)));
                assert(!has_table(ts_a, t2));
                assert(!has_table(ts0, t2));
                assert forall|s: int| 0 <= s < 512 implies entry_at(ts0, t2, s) == 0 by {
                    assert(!has_table(ts0, t2));
                }
            }
            if entry_at(tsf, t2, i2 as int) != entry_at(ts0, t2, i2 as int) {
                assert(entry_at(tsf, t2, i2 as int) == entry_at(ts_c, t2, i2 as int));
                assert(entry_at(ts_b, t2, i2 as int) == entry_at(ts_a, t2, i2 as int));
                assert(entry_at(ts_a, t2, i2 as int) == entry_at(ts0, t2, i2 as int));
                // step three wrote the slot, so it was empty and t1 is fresh
                assert(entry_at(ts_c, t2, i2 as int) != entry_at(ts_b, t2, i2 as int));
                assert(!present(entry_at(ts_b, t2, i2 as int)));
                assert(!has_table(ts_b, t1));
                assert(!has_table(ts0, t1));
                assert forall|s: int| 0 <= s < 512 implies entry_at(ts0, t1, s) == 0 by {
                    assert(!has_table(ts0, t1));
                }
            }
            assert forall|q: u64| normal_pn(q) && q != pn implies #[trigger] spec_translate(
                tsf,
                root,
                q,
            ) == spec_translate(ts0, root, q) by {
                lemma_walk_unchanged_off_path(ts0, tsf, root, pn, q);
            }
            // no huge entry appears anywhere: the steps are huge-free and
            // the leaf carries huge-free flags
            assert(no_huge_entries(ts0) ==> no_huge_entries(tsf)) by {
                if no_huge_entries(ts0) {
                    assert(no_huge_entries(ts_c));
                    assert forall|i: int, s: int|
                        0 <= i < tsf.len() && 0 <= s < tsf[i].entries@.len() implies !huge(
                        #[trigger] tsf[i].entries@[s],
                    ) by {
                        if i == t1i && s == i1 as int {
                            assert(tsf[i].entries@[s] == value);
                        } else {
                            assert(tsf[i].entries@[s] == ts_c[i].entries@[s]);
                        }
                    }
                }
            }
            // a table that appeared was allocated from the given allocator
            assert forall|a: u64|
                #[trigger] has_table(tsf, a) && !has_table(ts0, a) implies old(fa).in_range(
                a,
            ) by {
                assert(has_table(tsf, a) == has_table(ts_c, a));
                if has_table(ts_b, a) {
                    if has_table(ts_a, a) {
                        assert(a == t3);
                        assert(!present(entry_at(ts0, root, i4 as int)));
                    } else {
                        assert(a == t2);
                        assert(fa_a.in_range(a));
                    }
                } else {
                    assert(a == t1);
                    assert(fa_b.in_range(a));
                }
            }
            // when the whole path already existed, only the leaf changed
            if path_exists(ts0, root, pn) {
                assert(needed == 0);
                assert(ts_c == ts0 && fa_c == fa0);
                assert(*fa == fa0);
                assert forall|a: u64| #[trigger] has_table(tsf, a) == has_table(ts0, a) by {}
            }
        }
        Ok(())
    }

    /// Clears the leaf entry of `pn` under `root` and returns the frame it
    /// pointed at.  On an error nothing has changed.  Pages other than
    /// `pn` keep their translation under this root; an address space that
    /// shares the leaf table (the kernel half of another task) sees the
    /// same unmapping, as on the machine.
    pub fn unmap(&mut self, root: u64, pn: u64) -> (r: Result<u64, UnmapError>)
        requires
            old(self).wf(),
            old(self).is_root(root),
            normal_pn(pn),
        ensures
            final(self).wf(),
            final(self).is_root(root),
            final(self).tables@.len() == old(self).tables@.len(),
            forall|a: u64|
                #[trigger] has_table(final(self).tables@, a) == has_table(old(self).tables@, a),
            forall|a: u64|
                #[trigger] has_table(old(self).tables@, a) ==> table_level(final(self).tables@, a)
                    == table_level(old(self).tables@, a),
            (match r {
                Ok(f) => {
                    &&& spec_translate(old(self).tables@, root, pn) == Some(f)
                    &&& spec_translate(final(self).tables@, root, pn) is None
                    &&& path_exists(final(self).tables@, root, pn)
                    &&& forall|q: u64|
                        normal_pn(q) && q != pn ==> #[trigger] spec_translate(
                            final(self).tables@,
                            root,
                            q,
                        ) == spec_translate(old(self).tables@, root, q)
                    &&& forall|q: u64|
                        normal_pn(q) && path_exists(old(self).tables@, root, q)
                            ==> #[trigger] path_exists(final(self).tables@, root, q)
                    &&& (no_huge_entries(old(self).tables@) ==> no_huge_entries(
                        final(self).tables@,
                    ))
                },
                Err(UnmapError::PageNotMapped) => *final(self) == *old(self) && spec_translate(
                    old(self).tables@,
                    root,
                    pn,
                ) is None,
                Err(UnmapError::ParentEntryHugePage) => *final(self) == *old(self)
                    && walk_hits_huge(old(self).tables@, root, pn),
            }),
    {
        let ghost ts0 = self.tables@;
        proof {
            reveal(walk);
            reveal(walk_hits_huge);
            lemma_zero_entry();
            lemma_index_bounds(pn);
        }
        let (i4, i3, i2, i1) = page_indices(pn);
        let e4 = self.get_entry(root, i4);
        if !entry_present(e4) {
            return Err(UnmapError::PageNotMapped);
        }
        if entry_huge(e4) {
            return Err(UnmapError::ParentEntryHugePage);
        }
        let t3 = entry_target(e4);
        let e3 = self.get_entry(t3, i3);
        if !entry_present(e3) {
            return Err(UnmapError::PageNotMapped);
        }
        if entry_huge(e3) {
            return Err(UnmapError::ParentEntryHugePage);
        }
        let t2 = entry_target(e3);
        let e2 = self.get_entry(t2, i2);
        if !entry_present(e2) {
            return Err(UnmapError::PageNotMapped);
        }
        if entry_huge(e2) {
            return Err(UnmapError::ParentEntryHugePage);
        }
        let t1 = entry_target(e2);
        let e1 = self.get_entry(t1, i1);
        if !entry_present(e1) {
            return Err(UnmapError::PageNotMapped);
        }
        proof {
            lemma_step_structural(ts0, root, i4 as int);
            lemma_step_structural(ts0, t3, i3 as int);
            lemma_step_structural(ts0, t2, i2 as int);
            assert(table_level(ts0, t1) == 1);
        }
        self.set_entry(t1, i1, 0);
        proof {
            let tsf = self.tables@;
            let t1i = table_index(ts0, t1);
            lemma_table_index_of(ts0, t1i);
            assert forall|i: int|
                0 <= i < ts0.len() implies (#[trigger] tsf[i]).addr == ts0[i].addr && tsf[i].level
                    == ts0[i].level && tsf[i].entries@.len() == ts0[i].entries@.len() by {
                if i != t1i {
                    assert(tsf[i].entries@ == ts0[i].entries@);
                }
            }
            lemma_wf_after_leaf_write(ts0, tsf, t1);
            assert(root != t1 && t3 != t1 && t2 != t1) by {
                assert(table_level(ts0, root) == 4);
                assert(table_level(ts0, t3) == 3);
                assert(table_level(ts0, t2) == 2);
            }
            assert(entry_at(tsf, root, i4 as int) == e4);
            assert(entry_at(tsf, t3, i3 as int) == e3);
            assert(entry_at(tsf, t2, i2 as int) == e2);
            assert(entry_at(tsf, t1, i1 as int) == 0);
            assert(path3(tsf, root, pn) == t3);
            assert(path2(tsf, root, pn) == t2);
            assert(path1(tsf, root, pn) == t1);
            assert(walk(tsf, root, pn) == 0);
            assert forall|t: u64, s: int|
                0 <= s < 512 && !on_path(tsf, root, pn, t, s) implies #[trigger] entry_at(
                tsf,
                t,
                s,
            ) == entry_at(ts0, t, s) by {}
            assert forall|q: u64| normal_pn(q) && q != pn implies #[trigger] spec_translate(
                tsf,
                root,
                q,
            ) == spec_translate(ts0, root, q) by {
                lemma_walk_unchanged_off_path(ts0, tsf, root, pn, q);
            }
            assert(no_huge_entries(ts0) ==> no_huge_entries(tsf)) by {
                if no_huge_entries(ts0) {
                    lemma_zero_entry();
                    assert forall|i: int, s: int|
                        0 <= i < tsf.len() && 0 <= s < tsf[i].entries@.len() implies !huge(
                        #[trigger] tsf[i].entries@[s],
                    ) by {
                        if i == t1i && s == i1 as int {
                            assert(!huge(0u64));
                        } else {
                            assert(tsf[i].entries@[s] == ts0[i].entries@[s]);
                        }
                    }
                }
            }
            assert forall|q: u64|
                normal_pn(q) && path_exists(ts0, root, q) implies #[trigger] path_exists(
                tsf,
                root,
                q,
            ) by {
                lemma_index_bounds(q);
                let q3 = path3(ts0, root, q);
                let q2 = path2(ts0, root, q);
                lemma_step_structural(ts0, root, l4_index(q));
                lemma_step_structural(ts0, q3, l3_index(q));
                assert(root != t1 && q3 != t1 && q2 != t1) by {
                    assert(table_level(ts0, root) == 4);
                    assert(table_level(ts0, q3) == 3);
                    assert(table_level(ts0, q2) == 2);
                    assert(table_level(ts0, t1) == 1);
                }
                assert(entry_at(tsf, root, l4_index(q)) == entry_at(ts0, root, l4_index(q)));
                assert(entry_at(tsf, q3, l3_index(q)) == entry_at(ts0, q3, l3_index(q)));
                assert(entry_at(tsf, q2, l2_index(q)) == entry_at(ts0, q2, l2_index(q)));
            }
        }
        Ok(entry_target(e1))
    }

    /// Replaces the flag bits of `pn`'s leaf entry, keeping its frame.  On
    /// an error nothing has changed.
    pub fn update_flags(&mut self, root: u64, pn: u64, flags: u64) -> (r: Result<(), UnmapError>)
        requires
            old(self).wf(),
            old(self).is_root(root),
            normal_pn(pn),
            flags & PRESENT == PRESENT,
            flags & HUGE_PAGE == 0,
            flags & ADDR_MASK == 0,
        ensures
            final(self).wf(),
            final(self).is_root(root),
            forall|a: u64|
                #[trigger] has_table(final(self).tables@, a) == has_table(old(self).tables@, a),
            forall|a: u64|
                #[trigger] has_table(old(self).tables@, a) ==> table_level(final(self).tables@, a)
                    == table_level(old(self).tables@, a),
            (match r {
                Ok(()) => {
                    &&& spec_translate(old(self).tables@, root, pn) is Some
                    &&& spec_translate(final(self).tables@, root, pn) == spec_translate(
                        old(self).tables@,
                        root,
                        pn,
                    )
                    &&& walk(final(self).tables@, root, pn) == entry_addr(
                        walk(old(self).tables@, root, pn),
                    ) | flags
                    &&& forall|q: u64|
                        normal_pn(q) && q != pn ==> #[trigger] spec_translate(
                            final(self).tables@,
                            root,
                            q,
                        ) == spec_translate(old(self).tables@, root, q)
                },
                Err(UnmapError::PageNotMapped) => *final(self) == *old(self) && spec_translate(
                    old(self).tables@,
                    root,
                    pn,
                ) is None,
                Err(UnmapError::ParentEntryHugePage) => *final(self) == *old(self)
                    && walk_hits_huge(old(self).tables@, root, pn),
            }),
    {
        let ghost ts0 = self.tables@;
        proof {
            reveal(walk);
            reveal(walk_hits_huge);
            lemma_zero_entry();
            lemma_index_bounds(pn);
        }
        let (i4, i3, i2, i1) = page_indices(pn);
        let e4 = self.get_entry(root, i4);
        if !entry_present(e4) {
            return Err(UnmapError::PageNotMapped);
        }
        if entry_huge(e4) {
            return Err(UnmapError::ParentEntryHugePage);
        }
        let t3 = entry_target(e4);
        let e3 = self.get_entry(t3, i3);
        if !entry_present(e3) {
            return Err(UnmapError::PageNotMapped);
        }
        if entry_huge(e3) {
            return Err(UnmapError::ParentEntryHugePage);
        }
        let t2 = entry_target(e3);
        let e2 = self.get_entry(t2, i2);
        if !entry_present(e2) {
            return Err(UnmapError::PageNotMapped);
        }
        if entry_huge(e2) {
            return Err(UnmapError::ParentEntryHugePage);
        }
        let t1 = entry_target(e2);
        let e1 = self.get_entry(t1, i1);
        if !entry_present(e1) {
            return Err(UnmapError::PageNotMapped);
        }
        proof {
            lemma_step_structural(ts0, root, i4 as int);
            lemma_step_structural(ts0, t3, i3 as int);
            lemma_step_structural(ts0, t2, i2 as int);
            assert(table_level(ts0, t1) == 1);
        }
        let frame = entry_target(e1);
        proof {
            lemma_entry_addr_fits(e1);
            lemma_leaf_entry(frame, flags);
        }
        let value = frame | flags;
        self.set_entry(t1, i1, value);
        proof {
            let tsf = self.tables@;
            let t1i = table_index(ts0, t1);
            lemma_table_index_of(ts0, t1i);
            assert forall|i: int|
                0 <= i < ts0.len() implies (#[trigger] tsf[i]).addr == ts0[i].addr && tsf[i].level
                    == ts0[i].level && tsf[i].entries@.len() == ts0[i].entries@.len() by {
                if i != t1i {
                    assert(tsf[i].entries@ == ts0[i].entries@);
                }
            }
            lemma_wf_after_leaf_write(ts0, tsf, t1);
            assert(root != t1 && t3 != t1 && t2 != t1) by {
                assert(table_level(ts0, root) == 4);
                assert(table_level(ts0, t3) == 3);
                assert(table_level(ts0, t2) == 2);
            }
            assert(entry_at(tsf, root, i4 as int) == e4);
            assert(entry_at(tsf, t3, i3 as int) == e3);
            assert(entry_at(tsf, t2, i2 as int) == e2);
            assert(entry_at(tsf, t1, i1 as int) == value);
            assert(path3(tsf, root, pn) == t3);
            assert(path2(tsf, root, pn) == t2);
            assert(path1(tsf, root, pn) == t1);
            assert(walk(tsf, root, pn) == value);
            assert(walk(ts0, root, pn) == e1);
            assert forall|t: u64, s: int|
                0 <= s < 512 && !on_path(tsf, root, pn, t, s) implies #[trigger] entry_at(
                tsf,
                t,
                s,
            ) == entry_at(ts0, t, s) by {}
            assert forall|q: u64| normal_pn(q) && q != pn implies #[trigger] spec_translate(
                tsf,
                root,
                q,
            ) == spec_translate(ts0, root, q) by {
                lemma_walk_unchanged_off_path(ts0, tsf, root, pn, q);
            }
        }
        Ok(())
    }

    /// Walks the four levels and returns the mapped frame, if any.
    pub fn translate(&self, root: u64, pn: u64) -> (r: Option<u64>)
        requires
            self.wf(),
        ensures
            r == spec_translate(self.tables@, root, pn),
    {
        proof {
            reveal(walk);
            lemma_zero_entry();
        }
        let (i4, i3, i2, i1) = page_indices(pn);
        let e4 = self.get_entry(root, i4);
        if !entry_present(e4) || entry_huge(e4) {
            return None;
        }
        let e3 = self.get_entry(entry_target(e4), i3);
        if !entry_present(e3) || entry_huge(e3) {
            return None;
        }
        let e2 = self.get_entry(entry_target(e3), i2);
        if !entry_present(e2) || entry_huge(e2) {
            return None;
        }
        let e1 = self.get_entry(entry_target(e2), i1);
        if entry_present(e1) {
            Some(entry_target(e1))
        } else {
            None
        }
    }
}

/// A walkable entry of a table of level 2 or higher leads to a table one
/// level further down.
pub proof fn lemma_step_structural(ts: Seq<PageTable>, t: u64, s: int)
    requires
        store_wf(ts),
        has_table(ts, t),
        table_level(ts, t) >= 2,
        table_level(ts, t) == 4 ==> !exempt_slot(s),
        0 <= s < 512,
        step_ok(ts, t, s),
    ensures
        structural_slot(ts[table_index(ts, t)], s),
        has_table(ts, follow(ts, t, s)),
        table_level(ts, follow(ts, t, s)) + 1 == table_level(ts, t),
{
    let i = table_index(ts, t);
    assert(0 <= i < ts.len() && ts[i].addr == t);
    assert(structural_slot(ts[i], s));
    assert(entry_target_ok(ts, ts[i].level, ts[i].entries@[s]));
}

/// Below level 4 a table has at most one parent pointer: two walkable
/// slots of level-2 or level-3 tables with the same target coincide.
pub proof fn lemma_unique_parent(ts: Seq<PageTable>, t1: u64, s1: int, t2: u64, s2: int)
    requires
        store_wf(ts),
        has_table(ts, t1),
        has_table(ts, t2),
        2 <= table_level(ts, t1) <= 3,
        2 <= table_level(ts, t2) <= 3,
        0 <= s1 < 512,
        0 <= s2 < 512,
        step_ok(ts, t1, s1),
        step_ok(ts, t2, s2),
        follow(ts, t1, s1) == follow(ts, t2, s2),
    ensures
        t1 == t2,
        s1 == s2,
{
    let i1 = table_index(ts, t1);
    let i2 = table_index(ts, t2);
    assert(0 <= i1 < ts.len() && ts[i1].addr == t1);
    assert(0 <= i2 < ts.len() && ts[i2].addr == t2);
    assert(structural_slot(ts[i1], s1));
    assert(structural_slot(ts[i2], s2));
}

/// Distinct non-recursive slots of one level-4 table have distinct
/// children.
pub proof fn lemma_l4_children_distinct(ts: Seq<PageTable>, r: u64, s1: int, s2: int)
    requires
        store_wf(ts),
        has_table(ts, r),
        table_level(ts, r) == 4,
        0 <= s1 < 512,
        0 <= s2 < 512,
        !exempt_slot(s1),
        !exempt_slot(s2),
        s1 != s2,
        step_ok(ts, r, s1),
        step_ok(ts, r, s2),
    ensures
        follow(ts, r, s1) != follow(ts, r, s2),
{
    let i = table_index(ts, r);
    assert(0 <= i < ts.len() && ts[i].addr == r);
    assert(structural_slot(ts[i], s1));
    assert(structural_slot(ts[i], s2));
}

/// Appending a fresh all-zero table changes no entry anywhere.
pub proof fn lemma_push_zero_table(ts: Seq<PageTable>, t: PageTable)
    requires
        distinct_addrs(ts),
        !has_table(ts, t.addr),
        t.entries@ == Seq::new(512, |i: int| 0u64),
    ensures
        distinct_addrs(ts.push(t)),
        forall|a: u64|
            #[trigger] has_table(ts.push(t), a) == (has_table(ts, a) || a == t.addr),
        forall|a: u64|
            #[trigger] has_table(ts, a) ==> table_index(ts.push(t), a) == table_index(ts, a)
                && table_level(ts.push(t), a) == table_level(ts, a) && table_entries(
                ts.push(t),
                a,
            ) == table_entries(ts, a),
        has_table(ts.push(t), t.addr),
        table_index(ts.push(t), t.addr) == ts.len(),
        table_level(ts.push(t), t.addr) == t.level,
        forall|x: u64, s: int|
            0 <= s < 512 ==> #[trigger] entry_at(ts.push(t), x, s) == entry_at(ts, x, s),
{
    let b = ts.push(t);
    assert forall|a: u64| #[trigger] has_table(b, a) == (has_table(ts, a) || a == t.addr) by {
        if has_table(b, a) {
            let i = choose|i: int| 0 <= i < b.len() && (#[trigger] b[i]).addr == a;
            if i < ts.len() {
                assert(ts[i].addr == a);
            }
        }
        if has_table(ts, a) {
            let i = choose|i: int| 0 <= i < ts.len() && (#[trigger] ts[i]).addr == a;
            assert(b[i].addr == a);
        }
        if a == t.addr {
            assert(b[ts.len() as int].addr == a);
        }
    }
    assert forall|a: u64| #[trigger]
        has_table(ts, a) implies table_index(b, a) == table_index(ts, a) && table_level(b, a)
        == table_level(ts, a) && table_entries(b, a) == table_entries(ts, a) by {
        let i = table_index(ts, a);
        assert(0 <= i < ts.len() && ts[i].addr == a);
        assert(b[i].addr == a);
        assert(has_table(b, a));
        let ib = table_index(b, a);
        assert(0 <= ib < b.len() && b[ib].addr == a);
        if ib == ts.len() {
            assert(b[ib].addr == t.addr);
            assert(has_table(ts, t.addr));
        }
        assert(ib < ts.len());
        if ib != i {
            assert(ts[ib].addr == a);
        }
    }
    assert(b[ts.len() as int].addr == t.addr);
    let it = table_index(b, t.addr);
    assert(0 <= it < b.len() && b[it].addr == t.addr);
    if it < ts.len() {
        assert(ts[it].addr == t.addr);
        assert(has_table(ts, t.addr));
    }
    assert forall|x: u64, s: int|
        0 <= s < 512 implies #[trigger] entry_at(b, x, s) == entry_at(ts, x, s) by {
        if has_table(ts, x) {
        } else if x == t.addr {
            assert(entry_at(ts, x, s) == 0);
            assert(table_entries(b, x)[s] == 0);
        } else {
            assert(!has_table(b, x));
        }
    }
}

/// Present entries never change under the store mutations of this module,
/// so an existing translation is never disturbed.
pub proof fn lemma_translate_some_preserved(a: Seq<PageTable>, b: Seq<PageTable>, root: u64, pn: u64)
    requires
        forall|t: u64, s: int|
            0 <= s < 512 && present(#[trigger] entry_at(a, t, s)) ==> entry_at(b, t, s)
                == entry_at(a, t, s),
        spec_translate(a, root, pn) is Some,
    ensures
        walk(b, root, pn) == walk(a, root, pn),
        spec_translate(b, root, pn) == spec_translate(a, root, pn),
{
    reveal(walk);
    lemma_zero_entry();
    let i4 = l4_index(pn);
    let i3 = l3_index(pn);
    let i2 = l2_index(pn);
    let i1 = l1_index(pn);
    lemma_index_bounds(pn);
    let e4 = entry_at(a, root, i4);
    assert(present(e4) && !huge(e4));
    assert(entry_at(b, root, i4) == e4);
    let e3 = entry_at(a, entry_addr(e4), i3);
    assert(present(e3) && !huge(e3));
    assert(entry_at(b, entry_addr(e4), i3) == e3);
    let e2 = entry_at(a, entry_addr(e3), i2);
    assert(present(e2) && !huge(e2));
    assert(entry_at(b, entry_addr(e3), i2) == e2);
    let e1 = entry_at(a, entry_addr(e2), i1);
    assert(present(e1));
    assert(entry_at(b, entry_addr(e2), i1) == e1);
}

/// The four page-table indices of a page number lie below 512.
pub proof fn lemma_index_bounds(pn: u64)
    ensures
        0 <= l4_index(pn) < 512,
        0 <= l3_index(pn) < 512,
        0 <= l2_index(pn) < 512,
        0 <= l1_index(pn) < 512,
{
    lemma_mod_bound((pn / 0x8000000) as int, 512);
    lemma_mod_bound((pn / 0x40000) as int, 512);
    lemma_mod_bound((pn / 0x200) as int, 512);
    lemma_mod_bound(pn as int, 512);
}

/// Two page numbers with the same four indices are the same page.
pub proof fn lemma_pn_from_indices(p: u64, q: u64)
    requires
        p < 0x10_0000_0000,
        q < 0x10_0000_0000,
        l4_index(p) == l4_index(q),
        l3_index(p) == l3_index(q),
        l2_index(p) == l2_index(q),
        l1_index(p) == l1_index(q),
    ensures
        p == q,
{
    assert(l4_index(p) == (p / 0x8000000 % 512) as int);
    assert(l4_index(q) == (q / 0x8000000 % 512) as int);
    assert(l3_index(p) == (p / 0x40000 % 512) as int);
    assert(l3_index(q) == (q / 0x40000 % 512) as int);
    assert(l2_index(p) == (p / 0x200 % 512) as int);
    assert(l2_index(q) == (q / 0x200 % 512) as int);
    assert(l1_index(p) == (p % 512) as int);
    assert(l1_index(q) == (q % 512) as int);
    assert(p == q) by (bit_vector)
        requires
            p < 0x10_0000_0000,
            q < 0x10_0000_0000,
            p / 0x8000000 % 512 == q / 0x8000000 % 512,
            p / 0x40000 % 512 == q / 0x40000 % 512,
            p / 0x200 % 512 == q / 0x200 % 512,
            p % 512 == q % 512,
    ;
}

/// A table entry built from an aligned frame address: present, writable,
/// user-accessible, not huge, pointing at the frame.
pub proof fn lemma_table_entry(frame: u64)
    by (bit_vector)
    requires
        frame % 4096 == 0,
        frame < 0x10_0000_0000_0000,
    ensures
        present(frame | 7),
        !huge(frame | 7),
        entry_addr(frame | 7) == frame,
{
}

/// The level-3 table on `pn`'s walk.
pub open spec fn path3(ts: Seq<PageTable>, root: u64, pn: u64) -> u64 {
    follow(ts, root, l4_index(pn))
}

/// The level-2 table on `pn`'s walk.
pub open spec fn path2(ts: Seq<PageTable>, root: u64, pn: u64) -> u64 {
    follow(ts, path3(ts, root, pn), l3_index(pn))
}

/// The level-1 table on `pn`'s walk.
pub open spec fn path1(ts: Seq<PageTable>, root: u64, pn: u64) -> u64 {
    follow(ts, path2(ts, root, pn), l2_index(pn))
}

/// The three intermediate steps of `pn`'s walk are present and not huge:
/// only the leaf entry may still be missing.
pub open spec fn path_exists(ts: Seq<PageTable>, root: u64, pn: u64) -> bool {
    &&& step_ok(ts, root, l4_index(pn))
    &&& step_ok(ts, path3(ts, root, pn), l3_index(pn))
    &&& step_ok(ts, path2(ts, root, pn), l2_index(pn))
}

/// `(t, s)` is one of the four slots `pn`'s walk reads in `ts`.
pub open spec fn on_path(ts: Seq<PageTable>, root: u64, pn: u64, t: u64, s: int) -> bool {
    ||| (t == root && s == l4_index(pn))
    ||| (t == path3(ts, root, pn) && s == l3_index(pn))
    ||| (t == path2(ts, root, pn) && s == l2_index(pn))
    ||| (t == path1(ts, root, pn) && s == l1_index(pn))
}

/// Mutations confined to the slots of `pn`'s walk leave the walk of every
/// other page unchanged.  A slot that did change must have been empty
/// before, with its new child table empty before as well — the shape of
/// the mutations `map_to`, `unmap` and `update_flags` perform.
pub proof fn lemma_walk_unchanged_off_path(
    a: Seq<PageTable>,
    b: Seq<PageTable>,
    root: u64,
    pn: u64,
    q: u64,
)
    requires
        store_wf(b),
        has_table(b, root),
        table_level(b, root) == 4,
        normal_pn(pn),
        normal_pn(q),
        q != pn,
        step_ok(b, root, l4_index(pn)),
        step_ok(b, path3(b, root, pn), l3_index(pn)),
        step_ok(b, path2(b, root, pn), l2_index(pn)),
        forall|t: u64, s: int|
            0 <= s < 512 && !on_path(b, root, pn, t, s) ==> #[trigger] entry_at(b, t, s)
                == entry_at(a, t, s),
        entry_at(b, root, l4_index(pn)) != entry_at(a, root, l4_index(pn)) ==> !present(
            entry_at(a, root, l4_index(pn)),
        ) && (forall|s: int| 0 <= s < 512 ==> entry_at(a, path3(b, root, pn), s) == 0),
        entry_at(b, path3(b, root, pn), l3_index(pn)) != entry_at(
            a,
            path3(b, root, pn),
            l3_index(pn),
        ) ==> !present(entry_at(a, path3(b, root, pn), l3_index(pn))) && (forall|s: int|
            0 <= s < 512 ==> entry_at(a, path2(b, root, pn), s) == 0),
        entry_at(b, path2(b, root, pn), l2_index(pn)) != entry_at(
            a,
            path2(b, root, pn),
            l2_index(pn),
        ) ==> !present(entry_at(a, path2(b, root, pn), l2_index(pn))) && (forall|s: int|
            0 <= s < 512 ==> entry_at(a, path1(b, root, pn), s) == 0),
    ensures
        walk(b, root, q) == walk(a, root, q),
{
    reveal(walk);
    reveal(walk_hits_huge);
    lemma_zero_entry();
    lemma_index_bounds(pn);
    lemma_index_bounds(q);
    let i4 = l4_index(pn);
    let i3 = l3_index(pn);
    let i2 = l2_index(pn);
    let i1 = l1_index(pn);
    let j4 = l4_index(q);
    let j3 = l3_index(q);
    let j2 = l2_index(q);
    let j1 = l1_index(q);
    let p3 = path3(b, root, pn);
    let p2 = path2(b, root, pn);
    let p1 = path1(b, root, pn);
    lemma_step_structural(b, root, i4);
    lemma_step_structural(b, p3, i3);
    lemma_step_structural(b, p2, i2);
    assert(table_level(b, p3) == 3);
    assert(table_level(b, p2) == 2);
    assert(table_level(b, p1) == 1);
    assert(root != p3 && root != p2 && root != p1 && p3 != p2 && p3 != p1 && p2 != p1);
    let e4b = entry_at(b, root, j4);
    let e4a = entry_at(a, root, j4);
    if j4 != i4 {
        assert(!on_path(b, root, pn, root, j4));
        assert(e4b == e4a);
        if !present(e4b) || huge(e4b) {
        } else {
            lemma_step_structural(b, root, j4);
            let q3 = entry_addr(e4b);
            lemma_l4_children_distinct(b, root, j4, i4);
            assert(q3 != p3);
            assert(q3 != root && q3 != p2 && q3 != p1);
            assert(!on_path(b, root, pn, q3, j3));
            let e3b = entry_at(b, q3, j3);
            assert(e3b == entry_at(a, q3, j3));
            if !present(e3b) || huge(e3b) {
            } else {
                lemma_step_structural(b, q3, j3);
                let q2 = entry_addr(e3b);
                assert(q2 != p2) by {
                    if q2 == p2 {
                        lemma_unique_parent(b, q3, j3, p3, i3);
                    }
                }
                assert(q2 != root && q2 != p3 && q2 != p1);
                assert(!on_path(b, root, pn, q2, j2));
                let e2b = entry_at(b, q2, j2);
                assert(e2b == entry_at(a, q2, j2));
                if !present(e2b) || huge(e2b) {
                } else {
                    lemma_step_structural(b, q2, j2);
                    let q1 = entry_addr(e2b);
                    assert(q1 != p1) by {
                        if q1 == p1 {
                            lemma_unique_parent(b, q2, j2, p2, i2);
                        }
                    }
                    assert(q1 != root && q1 != p3 && q1 != p2);
                    assert(!on_path(b, root, pn, q1, j1));
                    assert(entry_at(b, q1, j1) == entry_at(a, q1, j1));
                }
            }
        }
    } else {
        // q shares the level-4 index with pn
        let f4b = entry_at(b, root, i4);
        let f4a = entry_at(a, root, i4);
        assert(present(f4b) && !huge(f4b));
        if f4a == f4b {
            // both walks descend into p3
            if j3 != i3 {
                assert(!on_path(b, root, pn, p3, j3));
                let e3b = entry_at(b, p3, j3);
                assert(e3b == entry_at(a, p3, j3));
                if !present(e3b) || huge(e3b) {
                } else {
                    lemma_step_structural(b, p3, j3);
                    let q2 = entry_addr(e3b);
                    assert(q2 != p2) by {
                        if q2 == p2 {
                            lemma_unique_parent(b, p3, j3, p3, i3);
                        }
                    }
                    assert(q2 != root && q2 != p3 && q2 != p1);
                    assert(!on_path(b, root, pn, q2, j2));
                    let e2b = entry_at(b, q2, j2);
                    assert(e2b == entry_at(a, q2, j2));
                    if !present(e2b) || huge(e2b) {
                    } else {
                        lemma_step_structural(b, q2, j2);
                        let q1 = entry_addr(e2b);
                        assert(q1 != p1) by {
                            if q1 == p1 {
                                lemma_unique_parent(b, q2, j2, p2, i2);
                            }
                        }
                        assert(q1 != root && q1 != p3 && q1 != p2);
                        assert(!on_path(b, root, pn, q1, j1));
                        assert(entry_at(b, q1, j1) == entry_at(a, q1, j1));
                    }
                }
            } else {
                let f3b = entry_at(b, p3, i3);
                let f3a = entry_at(a, p3, i3);
                assert(present(f3b) && !huge(f3b));
                if f3a == f3b {
                    if j2 != i2 {
                        assert(!on_path(b, root, pn, p2, j2));
                        let e2b = entry_at(b, p2, j2);
                        assert(e2b == entry_at(a, p2, j2));
                        if !present(e2b) || huge(e2b) {
                        } else {
                            lemma_step_structural(b, p2, j2);
                            let q1 = entry_addr(e2b);
                            assert(q1 != p1) by {
                                if q1 == p1 {
                                    lemma_unique_parent(b, p2, j2, p2, i2);
                                }
                            }
                            assert(q1 != root && q1 != p3 && q1 != p2);
                            assert(!on_path(b, root, pn, q1, j1));
                            assert(entry_at(b, q1, j1) == entry_at(a, q1, j1));
                        }
                    } else {
                        let f2b = entry_at(b, p2, i2);
                        let f2a = entry_at(a, p2, i2);
                        assert(present(f2b) && !huge(f2b));
                        assert(j1 != i1) by {
                            if j1 == i1 {
                                lemma_pn_from_indices(pn, q);
                            }
                        }
                        if f2a == f2b {
                            assert(!on_path(b, root, pn, p1, j1));
                            assert(entry_at(b, p1, j1) == entry_at(a, p1, j1));
                        } else {
                            // the level-2 slot was written: p1 is fresh
                            assert(!present(f2a));
                            assert(entry_at(a, p1, j1) == 0);
                            assert(!on_path(b, root, pn, p1, j1));
                            assert(entry_at(b, p1, j1) == entry_at(a, p1, j1));
                            assert(walk(b, root, q) == 0);
                            assert(walk(a, root, q) == 0);
                        }
                    }
                } else {
                    // the level-3 slot was written: p2 is fresh
                    assert(!present(f3a));
                    assert(walk(a, root, q) == 0);
                    if j2 != i2 {
                        assert(!on_path(b, root, pn, p2, j2));
                        assert(entry_at(b, p2, j2) == entry_at(a, p2, j2));
                        assert(entry_at(a, p2, j2) == 0);
                        assert(walk(b, root, q) == 0);
                    } else {
                        let f2b = entry_at(b, p2, i2);
                        assert(present(f2b) && !huge(f2b));
                        assert(entry_at(a, p2, i2) == 0);
                        assert(f2b != entry_at(a, p2, i2));
                        assert(entry_at(a, p1, j1) == 0);
                        assert(j1 != i1) by {
                            if j1 == i1 {
                                lemma_pn_from_indices(pn, q);
                            }
                        }
                        assert(!on_path(b, root, pn, p1, j1));
                        assert(entry_at(b, p1, j1) == entry_at(a, p1, j1));
                        assert(walk(b, root, q) == 0);
                    }
                }
            }
        } else {
            // the level-4 slot was written: p3 is fresh
            assert(!present(f4a));
            assert(walk(a, root, q) == 0);
            if j3 != i3 {
                assert(!on_path(b, root, pn, p3, j3));
                assert(entry_at(b, p3, j3) == entry_at(a, p3, j3));
                assert(entry_at(a, p3, j3) == 0);
                assert(walk(b, root, q) == 0);
            } else {
                let f3b = entry_at(b, p3, i3);
                assert(present(f3b) && !huge(f3b));
                assert(entry_at(a, p3, i3) == 0);
                assert(f3b != entry_at(a, p3, i3));
                // so the level-3 slot was written too: p2 is fresh
                if j2 != i2 {
                    assert(!on_path(b, root, pn, p2, j2));
                    assert(entry_at(b, p2, j2) == entry_at(a, p2, j2));
                    assert(entry_at(a, p2, j2) == 0);
                    assert(walk(b, root, q) == 0);
                } else {
                    let f2b = entry_at(b, p2, i2);
                    assert(present(f2b) && !huge(f2b));
                    assert(entry_at(a, p2, i2) == 0);
                    assert(f2b != entry_at(a, p2, i2));
                    assert(entry_at(a, p1, j1) == 0);
                    assert(j1 != i1) by {
                        if j1 == i1 {
                            lemma_pn_from_indices(pn, q);
                        }
                    }
                    assert(!on_path(b, root, pn, p1, j1));
                    assert(entry_at(b, p1, j1) == entry_at(a, p1, j1));
                    assert(walk(b, root, q) == 0);
                }
            }
        }
    }
}

/// Rewriting entries of a level-1 table keeps the store well formed: leaf
/// tables have no structural slots.
proof fn lemma_wf_after_leaf_write(a: Seq<PageTable>, b: Seq<PageTable>, t1: u64)
    requires
        store_wf(a),
        has_table(a, t1),
        table_level(a, t1) == 1,
        b.len() == a.len(),
        forall|i: int|
            0 <= i < a.len() ==> (#[trigger] b[i]).addr == a[i].addr && b[i].level == a[i].level
                && b[i].entries@.len() == a[i].entries@.len(),
        forall|i: int|
            0 <= i < a.len() && i != table_index(a, t1) ==> (#[trigger] b[i]).entries@
                == a[i].entries@,
    ensures
        store_wf(b),
{
    let ti = table_index(a, t1);
    assert(0 <= ti < a.len() && a[ti].addr == t1);
    assert(distinct_addrs(b));
    assert forall|i: int| 0 <= i < b.len() implies table_wf(#[trigger] b[i]) by {
        assert(table_wf(a[i]));
    }
    assert forall|i: int, s: int|
        0 <= i < b.len() && #[trigger] structural_slot(b[i], s) implies structural_slot(a[i], s)
        && (0 <= s < 512 ==> b[i].entries@[s] == a[i].entries@[s]) by {
        if i == ti {
            assert(b[i].level == 1);
        } else {
            assert(b[i].entries@ == a[i].entries@);
        }
    }
    assert forall|i: int, s: int|
        0 <= i < b.len() && #[trigger] structural_slot(b[i], s) implies entry_target_ok(
        b,
        b[i].level,
        b[i].entries@[s],
    ) by {
        assert(structural_slot(a[i], s));
        assert(entry_target_ok(a, a[i].level, a[i].entries@[s]));
        let tgt = entry_addr(a[i].entries@[s]);
        let j = table_index(a, tgt);
        assert(0 <= j < a.len() && a[j].addr == tgt);
        lemma_table_index_of(b, j);
    }
}

/// A page whose level-4 entry is empty has no translation.
pub proof fn lemma_zero_root_translates_none(ts: Seq<PageTable>, root: u64, pn: u64)
    requires
        entry_at(ts, root, l4_index(pn)) == 0,
    ensures
        spec_translate(ts, root, pn) is None,
        !walk_hits_huge(ts, root, pn),
{
    reveal(walk);
    reveal(walk_hits_huge);
    lemma_zero_entry();
}

/// When present entries keep their values, an existing walk path survives.
pub proof fn lemma_path_exists_preserved(a: Seq<PageTable>, b: Seq<PageTable>, root: u64, pn: u64)
    requires
        path_exists(a, root, pn),
        forall|t: u64, s: int|
            0 <= s < 512 && present(#[trigger] entry_at(a, t, s)) ==> entry_at(b, t, s)
                == entry_at(a, t, s),
    ensures
        path_exists(b, root, pn),
        path3(b, root, pn) == path3(a, root, pn),
        path2(b, root, pn) == path2(a, root, pn),
{
    lemma_index_bounds(pn);
    assert(entry_at(b, root, l4_index(pn)) == entry_at(a, root, l4_index(pn)));
    assert(entry_at(b, path3(a, root, pn), l3_index(pn)) == entry_at(
        a,
        path3(a, root, pn),
        l3_index(pn),
    ));
    assert(entry_at(b, path2(a, root, pn), l2_index(pn)) == entry_at(
        a,
        path2(a, root, pn),
        l2_index(pn),
    ));
}

/// A translated page's walk never ran into a huge entry.
pub proof fn lemma_translate_some_no_huge(ts: Seq<PageTable>, root: u64, pn: u64)
    requires
        spec_translate(ts, root, pn) is Some,
    ensures
        !walk_hits_huge(ts, root, pn),
{
    reveal(walk);
    reveal(walk_hits_huge);
    lemma_zero_entry();
}

/// An intact walk path never runs into a huge entry.
pub proof fn lemma_path_no_huge(ts: Seq<PageTable>, root: u64, pn: u64)
    requires
        path_exists(ts, root, pn),
    ensures
        !walk_hits_huge(ts, root, pn),
{
    reveal(walk_hits_huge);
}

/// A translated frame address is page-aligned and below 2^52: it comes
/// out of the address field of an entry.
pub proof fn lemma_translate_addr_bound(ts: Seq<PageTable>, root: u64, pn: u64)
    ensures
        spec_translate(ts, root, pn) matches Some(f) ==> f % 4096 == 0 && f
            < 0x10_0000_0000_0000,
{
    if spec_translate(ts, root, pn) is Some {
        lemma_entry_addr_fits(walk(ts, root, pn));
    }
}

/// The address field of an entry is page-aligned and below 2^52.
proof fn lemma_entry_addr_fits(e: u64)
    by (bit_vector)
    ensures
        entry_addr(e) % 4096 == 0,
        entry_addr(e) < 0x10_0000_0000_0000,
{
}

/// The kernel's two leaf flag words are fit for mapping: present, not
/// huge, and clear of the address field.
pub proof fn lemma_leaf_flag_words()
    by (bit_vector)
    ensures
        (PRESENT | WRITABLE) & PRESENT == PRESENT,
        (PRESENT | WRITABLE) & HUGE_PAGE == 0,
        (PRESENT | WRITABLE) & ADDR_MASK == 0,
        (PRESENT | WRITABLE | USER_ACCESSIBLE) & PRESENT == PRESENT,
        (PRESENT | WRITABLE | USER_ACCESSIBLE) & HUGE_PAGE == 0,
        (PRESENT | WRITABLE | USER_ACCESSIBLE) & ADDR_MASK == 0,
{
}

/// The flag bits of a leaf entry built from an aligned frame are exactly
/// the flags it was built with.
pub proof fn lemma_entry_flags_of(frame: u64, flags: u64)
    by (bit_vector)
    requires
        frame % 4096 == 0,
        frame < 0x10_0000_0000_0000,
        flags & ADDR_MASK == 0,
    ensures
        entry_flags(frame | flags) == flags,
{
}

/// A leaf entry built from an aligned frame and flag bits: present, not
/// huge, pointing at the frame.
proof fn lemma_leaf_entry(frame: u64, flags: u64)
    by (bit_vector)
    requires
        frame % 4096 == 0,
        frame < 0x10_0000_0000_0000,
        flags & ADDR_MASK == 0,
        flags & PRESENT == PRESENT,
        flags & HUGE_PAGE == 0,
    ensures
        present(frame | flags),
        !huge(frame | flags),
        entry_addr(frame | flags) == frame,
{
}

/// Linking a fresh zeroed table into an empty slot keeps the store well
/// formed.
proof fn lemma_wf_after_link(
    a: Seq<PageTable>,
    b: Seq<PageTable>,
    parent: u64,
    idx: int,
    frame: u64,
    parent_level: u8,
)
    requires
        store_wf(a),
        b.len() == a.len() + 1,
        forall|i: int|
            0 <= i < a.len() ==> (#[trigger] b[i]).addr == a[i].addr && b[i].level == a[i].level,
        forall|i: int|
            0 <= i < a.len() && i != table_index(a, parent) ==> (#[trigger] b[i]).entries@
                == a[i].entries@,
        has_table(a, parent),
        b[table_index(a, parent)].entries@ == a[table_index(a, parent)].entries@.update(
            idx,
            b[table_index(a, parent)].entries@[idx],
        ),
        0 <= idx < 512,
        !present(a[table_index(a, parent)].entries@[idx]),
        parent_level == a[table_index(a, parent)].level,
        parent_level >= 2,
        parent_level == 4 ==> !exempt_slot(idx),
        present(b[table_index(a, parent)].entries@[idx]),
        !huge(b[table_index(a, parent)].entries@[idx]),
        entry_addr(b[table_index(a, parent)].entries@[idx]) == frame,
        b[a.len() as int].addr == frame,
        b[a.len() as int].level == parent_level - 1,
        b[a.len() as int].entries@ == Seq::new(512, |i: int| 0u64),
        forall|i: int| 0 <= i < a.len() ==> (#[trigger] a[i]).addr != frame,
    ensures
        store_wf(b),
{
    lemma_zero_entry();
    let pi = table_index(a, parent);
    let ni = a.len() as int;
    assert(0 <= pi < a.len() && a[pi].addr == parent);
    assert(distinct_addrs(b));
    assert forall|i: int| 0 <= i < b.len() implies table_wf(#[trigger] b[i]) by {
        if i < a.len() {
            assert(table_wf(a[i]));
        }
    }
    // the fresh table has no structural slot
    assert forall|s: int| !structural_slot(b[ni], s) by {
        if 0 <= s < 512 {
            assert(b[ni].entries@[s] == 0);
        }
    }
    // each prefix table's unchanged slots are structural in `a` exactly
    // when they are in `b`
    assert forall|i: int, s: int|
        0 <= i < a.len() && !(i == pi && s == idx) implies #[trigger] structural_slot(b[i], s)
        == structural_slot(a[i], s) && (0 <= s < 512 ==> b[i].entries@[s] == a[i].entries@[s]) by {
        if 0 <= s < 512 {
            if i == pi {
                assert(b[i].entries@[s] == a[i].entries@[s]);
            } else {
                assert(b[i].entries@ == a[i].entries@);
            }
        }
    }
    // structural targets exist one level down
    assert forall|i: int, s: int|
        0 <= i < b.len() && #[trigger] structural_slot(b[i], s) implies entry_target_ok(
        b,
        b[i].level,
        b[i].entries@[s],
    ) by {
        if i == ni {
            assert(!structural_slot(b[i], s));
        } else if i == pi && s == idx {
            lemma_table_index_of(b, ni);
            assert(has_table(b, frame));
            assert(table_level(b, frame) == parent_level - 1);
        } else {
            assert(structural_slot(a[i], s));
            assert(entry_target_ok(a, a[i].level, a[i].entries@[s]));
            let tgt = entry_addr(a[i].entries@[s]);
            let j = table_index(a, tgt);
            assert(0 <= j < a.len() && a[j].addr == tgt);
            lemma_table_index_of(b, j);
            assert(table_level(b, tgt) == a[j].level);
        }
    }
    // injectivity below level 4
    assert forall|i1: int, s1: int, i2: int, s2: int|
        0 <= i1 < b.len() && 0 <= i2 < b.len() && #[trigger] structural_slot(b[i1], s1)
            && #[trigger] structural_slot(b[i2], s2) && b[i1].level <= 3 && b[i2].level <= 3
            && entry_addr(b[i1].entries@[s1]) == entry_addr(b[i2].entries@[s2]) implies i1 == i2
        && s1 == s2 by {
        assert(i1 != ni && i2 != ni);
        if i1 == pi && s1 == idx {
            if !(i2 == pi && s2 == idx) {
                assert(structural_slot(a[i2], s2));
                assert(entry_target_ok(a, a[i2].level, a[i2].entries@[s2]));
                let tgt = entry_addr(a[i2].entries@[s2]);
                let j = table_index(a, tgt);
                assert(a[j].addr != frame);
            }
        } else if i2 == pi && s2 == idx {
            assert(structural_slot(a[i1], s1));
            assert(entry_target_ok(a, a[i1].level, a[i1].entries@[s1]));
            let tgt = entry_addr(a[i1].entries@[s1]);
            let j = table_index(a, tgt);
            assert(a[j].addr != frame);
        } else {
            assert(structural_slot(a[i1], s1));
            assert(structural_slot(a[i2], s2));
        }
    }
    // distinct children of one level-4 table
    assert forall|i: int, s1: int, s2: int|
        0 <= i < b.len() && b[i].level == 4 && #[trigger] structural_slot(b[i], s1)
            && #[trigger] structural_slot(b[i], s2) && s1 != s2 implies entry_addr(
        b[i].entries@[s1],
    ) != entry_addr(b[i].entries@[s2]) by {
        assert(i != ni);
        if i == pi && s1 == idx {
            assert(structural_slot(a[i], s2));
            assert(entry_target_ok(a, a[i].level, a[i].entries@[s2]));
            let tgt = entry_addr(a[i].entries@[s2]);
            let j = table_index(a, tgt);
            assert(a[j].addr != frame);
        } else if i == pi && s2 == idx {
            assert(structural_slot(a[i], s1));
            assert(entry_target_ok(a, a[i].level, a[i].entries@[s1]));
            let tgt = entry_addr(a[i].entries@[s1]);
            let j = table_index(a, tgt);
            assert(a[j].addr != frame);
        } else {
            assert(structural_slot(a[i], s1));
            assert(structural_slot(a[i], s2));
        }
    }
}

/// A zero entry is neither present nor huge and points nowhere.
pub proof fn lemma_zero_entry()
    by (bit_vector)
    ensures
        !present(0u64),
        !huge(0u64),
        entry_addr(0u64) == 0u64,
{
}

/// The table at a store index is the one its address finds.
pub proof fn lemma_table_index_of(ts: Seq<PageTable>, i: int)
    requires
        distinct_addrs(ts),
        0 <= i < ts.len(),
    ensures
        has_table(ts, ts[i].addr),
        table_index(ts, ts[i].addr) == i,
{
    assert(has_table(ts, ts[i].addr));
    let c = table_index(ts, ts[i].addr);
    assert(0 <= c < ts.len() && ts[c].addr == ts[i].addr);
}

/// Two stores with the same addresses at each index find the same tables.
proof fn lemma_same_addrs_same_tables(a: Seq<PageTable>, b: Seq<PageTable>, addr: u64)
    requires
        a.len() == b.len(),
        forall|i: int| 0 <= i < a.len() ==> (#[trigger] a[i]).addr == (#[trigger] b[i]).addr,
    ensures
        has_table(a, addr) == has_table(b, addr),
{
    if has_table(a, addr) {
        let i = choose|i: int| 0 <= i < a.len() && (#[trigger] a[i]).addr == addr;
        assert(b[i].addr == addr);
    }
    if has_table(b, addr) {
        let i = choose|i: int| 0 <= i < b.len() && (#[trigger] b[i]).addr == addr;
        assert(a[i].addr == addr);
    }
}

} // verus!
