//! Tasks: a program loaded into its own address space, with the state
//! the scheduler drives through `New`, `Running`, `Ready` and
//! `Finished`.

use vstd::prelude::*;

verus! {

use crate::address_space::{Cpu, Pml4Creator, pml4_created, swap_to_kernel_table};
use crate::elf::{
    ElfError,
    elf_entry,
    load_elf,
    loader_inv,
    magic_ok,
    class_ok,
    layout_ok,
    no_relas,
    image_loadable,
    load_budget,
    seg_in_half,
    seg_va,
    segs_disjoint,
    segs_free,
    segs_in_private_slots,
    in_seg_run,
    ph_count,
    ph_memsz,
    is_load,
};

use crate::frame::PhysFrameAllocator;
use crate::mem::PhysMemory;
use crate::page_table::{PageTables, KERNEL_RECURSIVE_INDEX, TASK_RECURSIVE_INDEX, MapError};

/// Identifier of a task, handed out monotonically.
#[derive(Clone, Copy, PartialEq, Eq, Hash, Structural)]
pub struct TaskID {
    /// The numeric process id.
    pub pid: usize,
}

impl TaskID {
    /// A task id with the given process id.
    pub fn new(pid: usize) -> (r: TaskID)
        ensures
            r.pid == pid,
    {
        TaskID { pid }
    }

    /// Hands out the next id and advances the counter.
    pub fn allocate(next: &mut usize) -> (r: TaskID)
        requires
            *old(next) < usize::MAX,
        ensures
            r.pid == *old(next),
            *final(next) == *old(next) + 1,
    {
        let id = TaskID { pid: *next };
        *next = *next + 1;
        id
    }

    /// The numeric process id.
    pub fn get_id(&self) -> (r: usize)
        ensures
            r == self.pid,
    {
        self.pid
    }
}

/// Where a task runs: kernel or user privilege.
#[derive(Debug, Clone, Copy, PartialEq, Eq, Structural)]
pub enum Ring {
    /// Kernel privilege.
    Ring0,
    /// User privilege.
    Ring3,
}

impl Ring {
    /// The privilege bits of the ring, as the selectors carry them.
    pub fn bits(&self) -> (r: u8)
        ensures
            *self == Ring::Ring0 ==> r == 0,
            *self == Ring::Ring3 ==> r == 3,
    {
        match *self {
            Ring::Ring0 => 0,
            Ring::Ring3 => 3,
        }
    }
}

/// The life cycle of a task.
#[derive(Debug, Clone, Copy, PartialEq, Eq, Structural)]
pub enum TaskState {
    /// Created but never scheduled: it is entered by a jump, not by a
    /// context switch.
    New,
    /// Waiting in the ready queue.
    Ready,
    /// The one task the processor is running.
    Running,
    /// Blocked on a device.
    Blocked,
    /// Exited; never scheduled again.
    Finished,
}

/// The registers a context switch saves and restores.
#[derive(Clone, Copy, PartialEq, Eq, Structural)]
pub struct Context {
    /// Page-table root.
    pub cr3: u64,
    /// Frame pointer.
    pub rbp: u64,
    /// Callee-saved register.
    pub r12: u64,
    /// Callee-saved register.
    pub r13: u64,
    /// Callee-saved register.
    pub r14: u64,
    /// Callee-saved register.
    pub r15: u64,
    /// Callee-saved register.
    pub rbx: u64,
    /// Flags register.
    pub rflags: u64,
    /// Saved instruction pointer.
    pub rip: u64,
}

impl Default for Context {
    /// An all-zero register set.
    fn default() -> (r: Context)
        ensures
            r == (Context { cr3: 0, rbp: 0, r12: 0, r13: 0, r14: 0, r15: 0, rbx: 0, rflags: 0, rip: 0 }),
    {
        Context { cr3: 0, rbp: 0, r12: 0, r13: 0, r14: 0, r15: 0, rbx: 0, rflags: 0, rip: 0 }
    }
}

/// A loaded program: its entry point, address space, state and ring.
pub struct Task {
    /// The task's identifier.
    pub task_id: TaskID,
    /// Virtual address execution starts at.
    pub entry: u64,
    /// Physical address of the task's PML4.
    pub pml4_frame: u64,
    /// Where the task stands in its life cycle.
    pub state: TaskState,
    /// Name of the executable.
    pub name: &'static str,
    /// The privilege the task runs at.
    pub ring: Ring,
}

impl Task {
    /// Builds a task from an ELF image: creates a fresh PML4 sharing the
    /// kernel half, loads the image into it at the offset (walking that
    /// space with the task recursive slot), and restores the kernel
    /// table before returning.
    pub fn binary(
        pt: &mut PageTables,
        fa: &mut PhysFrameAllocator,
        mem: &mut PhysMemory,
        cpu: &mut Cpu,
        kernel_root: u64,
        next_id: &mut usize,
        name: Option<&'static str>,
        bin: &Vec<u8>,
        ring: Option<Ring>,
        offset: Option<u64>,
    ) -> (r: Result<Task, ElfError>)
        requires
            loader_inv(*old(pt), *old(fa), *old(mem), kernel_root),
            *old(next_id) < usize::MAX,
            (match offset {
                Some(o) => o < 0x8000_0000_0000,
                None => true,
            }),
        ensures
            loader_inv(*final(pt), *final(fa), *final(mem), kernel_root),
            final(fa).usable_memory_region == old(fa).usable_memory_region,
            // the caller's address space is restored before returning
            final(cpu).cr3 == kernel_root,
            final(cpu).recursive_index == KERNEL_RECURSIVE_INDEX,
            // a loadable image with frames to spare must yield a task
            (({
                let vb = match offset {
                    Some(o) => o,
                    None => 0x81_FF00_0000u64,
                };
                &&& magic_ok(bin@)
                &&& class_ok(bin@)
                &&& layout_ok(bin@)
                &&& elf_entry(bin@) + vb <= u64::MAX
                &&& no_relas(bin@)
                &&& forall|m: int|
                    0 <= m < ph_count(bin@) && #[trigger] is_load(bin@, m) ==> seg_in_half(
                        bin@,
                        m,
                        vb,
                    )
                &&& segs_disjoint(bin@, vb)
                &&& segs_in_private_slots(bin@, vb)
                &&& crate::page_table::no_huge_entries(old(pt).tables@)
                &&& crate::frame::count_free(old(fa).bits(), 0) >= 1 + load_budget(
                    bin@,
                    ph_count(bin@),
                )
            }) ==> r is Ok),
            (match r {
                Ok(task) => {
                    &&& task.state == TaskState::New
                    &&& task.task_id.pid == *old(next_id)
                    &&& *final(next_id) == *old(next_id) + 1
                    &&& task.entry == elf_entry(bin@) + (match offset {
                        Some(o) => o as int,
                        None => 0x81_FF00_0000,
                    })
                    &&& task.name@ == (match name {
                        Some(n) => n@,
                        None => ""@,
                    })
                    &&& final(pt).is_root(task.pml4_frame)
                    &&& task.ring == (match ring {
                        Some(g) => g,
                        None => Ring::Ring3,
                    })
                },
                Err(e) => *final(next_id) == *old(next_id) && (e == ElfError::BadMagic
                    ==> !magic_ok(bin@)),
            }),
    {
        let vbase = match offset {
            Some(o) => o,
            None => crate::elf::DEFAULT_LOAD_OFFSET,
        };
        let ring = match ring {
            Some(g) => g,
            None => Ring::Ring3,
        };
        let name = match name {
            Some(n) => n,
            None => "",
        };
        let ghost fa_in = *fa;
        let ghost mem_in = *mem;
        let pml4_frame = match Pml4Creator::create(pt, fa, kernel_root) {
            Ok(f) => f,
            Err(_) => {
                proof {
                    lemma_mem_linked_monotone(mem.frames@, fa_in, *fa);
                    crate::elf::lemma_load_budget_at_least_zero(bin@, ph_count(bin@));
                }
                swap_to_kernel_table(cpu, kernel_root);
                return Err(ElfError::FrameAllocationFailed);
            },
        };
        proof {
            lemma_mem_linked_monotone(mem.frames@, fa_in, *fa);
        }
        // load in the fresh address space, with its recursive slot active
        cpu.cr3 = pml4_frame;
        cpu.recursive_index = TASK_RECURSIVE_INDEX;
        let ghost pt_c = *pt;
        let ghost fa_c = *fa;
        proof {
            // in the fresh space every private-slot page is unmapped and
            // nothing huge was introduced, so a loadable image must load
            if segs_in_private_slots(bin@, vbase) {
                assert forall|m: int, p: u64|
                    0 <= m < ph_count(bin@) && #[trigger] is_load(bin@, m) && in_seg_run(
                        seg_va(bin@, m, vbase),
                        ph_memsz(bin@, m) as u64,
                        p,
                    ) implies #[trigger] crate::page_table::spec_translate(
                    pt_c.tables@,
                    pml4_frame,
                    p,
                ) is None by {
                    assert(1 <= crate::addr::l4_index(p) < 256);
                    assert(!crate::address_space::shared_slot(crate::addr::l4_index(p)));
                    assert(crate::page_table::entry_at(
                        pt_c.tables@,
                        pml4_frame,
                        crate::addr::l4_index(p),
                    ) == 0);
                    crate::page_table::lemma_zero_root_translates_none(
                        pt_c.tables@,
                        pml4_frame,
                        p,
                    );
                }
            }
        }
        let entry = match load_elf(pt, fa, mem, pml4_frame, bin, vbase) {
            Ok(e) => e,
            Err(e) => {
                swap_to_kernel_table(cpu, kernel_root);
                return Err(e);
            },
        };
        swap_to_kernel_table(cpu, kernel_root);
        let task_id = TaskID::allocate(next_id);
        Ok(Task { task_id, entry, pml4_frame, state: TaskState::New, name, ring })
    }

    /// The task's identifier.
    pub fn task_id(&self) -> (r: TaskID)
        ensures
            r == self.task_id,
    {
        self.task_id
    }

    /// Where the task stands in its life cycle.
    pub fn state(&self) -> (r: TaskState)
        ensures
            r == self.state,
    {
        self.state
    }

    /// The virtual address execution starts at.
    pub fn entry_point(&self) -> (r: u64)
        ensures
            r == self.entry,
    {
        self.entry
    }

    /// Moves the task to a new life-cycle state.
    pub fn set_state(&mut self, state: TaskState)
        ensures
            *final(self) == (Task { state, ..*old(self) }),
    {
        self.state = state;
    }

    /// The physical address of the task's PML4.
    pub fn page_table(&self) -> (r: u64)
        ensures
            r == self.pml4_frame,
    {
        self.pml4_frame
    }
}

/// Bit-monotone allocator changes keep the data frames linked.
proof fn lemma_mem_linked_monotone(
    ms: Seq<crate::mem::DataFrame>,
    fa0: PhysFrameAllocator,
    fa1: PhysFrameAllocator,
)
    requires
        fa0.wf(),
        crate::elf::mem_linked(ms, fa0),
        fa1.usable_memory_region == fa0.usable_memory_region,
        forall|m: int| 0 <= m < fa0.frame_count() && fa0.bits()[m] ==> fa1.bits()[m],
    ensures
        crate::elf::mem_linked(ms, fa1),
{
    assert forall|i: int|
        0 <= i < ms.len() && fa1.in_range((#[trigger] ms[i]).addr) implies fa1.bits()[fa1.index_of(ms[i].addr)] by {
        assert(fa0.in_range(ms[i].addr));
        assert(fa0.bits()[fa0.index_of(ms[i].addr)]);
        assert(0 <= fa0.index_of(ms[i].addr) < fa0.frame_count()) by {
            crate::frame::lemma_index_in_count(fa0, ms[i].addr);
        }
    }
}

} // verus!
