//! The interrupt dispatch table and the decisions its handlers take.
//! The hardware side — loading the table, reading port 0x60, signalling
//! the end of an interrupt — stays outside; what each vector leads to is
//! decided here.

use vstd::prelude::*;

verus! {

use crate::executor::Executor;
use crate::scheduler::{Scheduler, SchedDecision};

/// Vector the first interrupt controller is remapped to.
pub const PIC_1_OFFSET: u8 = 32;

/// Vector the second interrupt controller is remapped to.
pub const PIC_2_OFFSET: u8 = 40;

/// Vector of the syscall gate.
pub const SYSCALL_VECTOR: u8 = 128;

/// The remapped hardware interrupt lines.
#[derive(Clone, Copy, Debug, PartialEq, Eq, Structural)]
pub enum InterruptIndex {
    /// The periodic timer.
    Timer,
    /// The keyboard controller.
    Keyboard,
    /// The cascade line of the second controller.
    Cascade,
    /// Second serial port.
    Com2,
    /// First serial port.
    Com1,
    /// Second parallel port.
    Lpt2,
    /// The floppy controller.
    FloppyDisk,
    /// First parallel port.
    Lpt1,
    /// The real-time clock.
    CmosRealTimeClock,
    /// Power management events.
    Acpi,
    /// A free line.
    Free1,
    /// A free line.
    Free2,
    /// The mouse controller.
    Mouse,
    /// The coprocessor line.
    Coprocessor,
    /// The first disk controller.
    PrimAta,
    /// The second disk controller.
    SecoAta,
}

impl InterruptIndex {
    /// The vector of the line: its position after the remap offset.
    pub fn as_u8(self) -> (r: u8)
        ensures
            r == spec_vector(self),
    {
        match self {
            InterruptIndex::Timer => 32,
            InterruptIndex::Keyboard => 33,
            InterruptIndex::Cascade => 34,
            InterruptIndex::Com2 => 35,
            InterruptIndex::Com1 => 36,
            InterruptIndex::Lpt2 => 37,
            InterruptIndex::FloppyDisk => 38,
            InterruptIndex::Lpt1 => 39,
            InterruptIndex::CmosRealTimeClock => 40,
            InterruptIndex::Acpi => 41,
            InterruptIndex::Free1 => 42,
            InterruptIndex::Free2 => 43,
            InterruptIndex::Mouse => 44,
            InterruptIndex::Coprocessor => 45,
            InterruptIndex::PrimAta => 46,
            InterruptIndex::SecoAta => 47,
        }
    }

    /// The vector as a table index.
    fn as_usize(self) -> (r: usize)
        ensures
            r == spec_vector(self),
    {
        self.as_u8() as usize
    }
}

/// The vector of each remapped line.
pub open spec fn spec_vector(i: InterruptIndex) -> u8 {
    match i {
        InterruptIndex::Timer => 32,
        InterruptIndex::Keyboard => 33,
        InterruptIndex::Cascade => 34,
        InterruptIndex::Com2 => 35,
        InterruptIndex::Com1 => 36,
        InterruptIndex::Lpt2 => 37,
        InterruptIndex::FloppyDisk => 38,
        InterruptIndex::Lpt1 => 39,
        InterruptIndex::CmosRealTimeClock => 40,
        InterruptIndex::Acpi => 41,
        InterruptIndex::Free1 => 42,
        InterruptIndex::Free2 => 43,
        InterruptIndex::Mouse => 44,
        InterruptIndex::Coprocessor => 45,
        InterruptIndex::PrimAta => 46,
        InterruptIndex::SecoAta => 47,
    }
}

/// What a vector of the dispatch table leads to.
#[derive(Clone, Copy, Debug, PartialEq, Eq, Structural)]
pub enum HandlerKind {
    /// A processor exception: logged, then the kernel halts.
    Exception,
    /// The timer tick: end of the running task's slice.
    Timer,
    /// A keyboard byte is waiting on the data port.
    Keyboard,
    /// A mouse byte is waiting on the data port.
    Mouse,
    /// The primary disk controller finished.
    PrimaryAta,
    /// A software interrupt from ring three: a syscall.
    Syscall,
    /// A remapped line with no device behind it.
    Spurious,
    /// No handler installed.
    Unassigned,
}

/// The interrupt dispatch table, as the decision each vector leads to.
pub struct Idt {
    /// Entry `v` decides vector `v`.
    pub entries: Vec<HandlerKind>,
}

/// Builds the dispatch table: the processor exceptions, the remapped
/// hardware lines with the timer, keyboard, mouse and disk handlers, and
/// the syscall gate.
pub fn init_idt() -> (r: Idt)
    ensures
        r.entries@.len() == 256,
        forall|v: int| 0 <= v < 32 ==> r.entries@[v] == HandlerKind::Exception,
        r.entries@[32] == HandlerKind::Timer,
        r.entries@[33] == HandlerKind::Keyboard,
        r.entries@[44] == HandlerKind::Mouse,
        r.entries@[46] == HandlerKind::PrimaryAta,
        r.entries@[SYSCALL_VECTOR as int] == HandlerKind::Syscall,
        forall|v: int|
            34 <= v < 48 && v != 44 && v != 46 ==> r.entries@[v] == HandlerKind::Spurious,
        forall|v: int|
            (48 <= v < 128 || 128 < v < 256) ==> r.entries@[v] == HandlerKind::Unassigned,
{
    let mut entries: Vec<HandlerKind> = Vec::new();
    let mut v: usize = 0;
    while v < 256
        invariant
            v <= 256,
            entries@.len() == v,
            forall|m: int| 0 <= m < v && m < 32 ==> entries@[m] == HandlerKind::Exception,
            forall|m: int|
                32 <= m < v && m < 48 ==> entries@[m] == (if m == 32 {
                    HandlerKind::Timer
                } else if m == 33 {
                    HandlerKind::Keyboard
                } else if m == 44 {
                    HandlerKind::Mouse
                } else if m == 46 {
                    HandlerKind::PrimaryAta
                } else {
                    HandlerKind::Spurious
                }),
            forall|m: int|
                48 <= m < v ==> entries@[m] == (if m == 128 {
                    HandlerKind::Syscall
                } else {
                    HandlerKind::Unassigned
                }),
        decreases 256 - v,
    {
        let kind = if v < 32 {
            HandlerKind::Exception
        } else if v == 32 {
            HandlerKind::Timer
        } else if v == 33 {
            HandlerKind::Keyboard
        } else if v == 44 {
            HandlerKind::Mouse
        } else if v == 46 {
            HandlerKind::PrimaryAta
        } else if v < 48 {
            HandlerKind::Spurious
        } else if v == 128 {
            HandlerKind::Syscall
        } else {
            HandlerKind::Unassigned
        };
        entries.push(kind);
        v = v + 1;
    }
    Idt { entries }
}

/// The timer handler's decision: one scheduling step.
pub fn timer_interrupt(sched: &mut Scheduler) -> (r: SchedDecision)
    requires
        old(sched).wf(),
    ensures
        final(sched).wf(),
{
    sched.schedule()
}

/// The keyboard handler: queues the scancode the port delivered and, when
/// it was queued, wakes the consumer task.
pub fn keyboard_interrupt(
    stream: &mut crate::keyboard::ScancodeStream,
    executor: &mut Executor,
    consumer_task: u64,
    scancode: u8,
) -> (woke: bool)
    requires
        old(stream).wf(),
        old(stream).dropped < u64::MAX,
        old(executor).wf(),
    ensures
        final(stream).wf(),
        final(executor).wf(),
        old(stream).scancodes().len() < crate::keyboard::SCANCODE_CAPACITY
            ==> final(stream).scancodes() == old(stream).scancodes().push(scancode),
        old(stream).scancodes().len() >= crate::keyboard::SCANCODE_CAPACITY
            ==> final(stream).scancodes() == old(stream).scancodes() && *final(executor) == *old(
            executor,
        ),
        // a queued scancode wakes the consumer: it joins the ready ring
        old(stream).scancodes().len() < crate::keyboard::SCANCODE_CAPACITY && old(
            executor,
        ).ready().len() < crate::executor::TASK_QUEUE_CAPACITY ==> woke && final(executor).ready()
            == old(executor).ready().push(consumer_task),
        old(stream).scancodes().len() < crate::keyboard::SCANCODE_CAPACITY && old(
            executor,
        ).ready().len() >= crate::executor::TASK_QUEUE_CAPACITY ==> !woke
            && final(executor).ready() == old(executor).ready(),
{
    if crate::keyboard::add_scancode(stream, scancode) {
        let waker = crate::executor::TaskWaker::new(consumer_task);
        waker.wake(executor)
    } else {
        false
    }
}

/// The mouse handler: feeds the byte to the packet assembler and, when a
/// packet completed, wakes the consumer task.
pub fn mouse_interrupt(
    stream: &mut crate::mouse::ScancodeStream,
    executor: &mut Executor,
    consumer_task: u64,
    scancode: u8,
) -> (woke: bool)
    requires
        old(stream).wf(),
        old(stream).dropped < u64::MAX,
        old(executor).wf(),
    ensures
        final(stream).wf(),
        final(executor).wf(),
        // a completed packet wakes the consumer: it joins the ready ring
        old(stream).state == 2 && old(stream).packets().len() < crate::mouse::MOUSE_CAPACITY
            && old(executor).ready().len() < crate::executor::TASK_QUEUE_CAPACITY ==> woke
            && final(executor).ready() == old(executor).ready().push(consumer_task),
        // an incomplete packet, a full packet ring or a full ready ring
        // wakes nothing
        woke ==> final(executor).ready() == old(executor).ready().push(consumer_task),
        !woke ==> final(executor).ready() == old(executor).ready(),
{
    if crate::mouse::add_scancode(stream, scancode) {
        let waker = crate::executor::TaskWaker::new(consumer_task);
        waker.wake(executor)
    } else {
        false
    }
}

/// Error-code bit of a page fault: the access was an instruction fetch.
pub const PF_INSTRUCTION_FETCH: u64 = 16;

/// What to do about a page fault the task's memory map cannot satisfy.
#[derive(Clone, Copy, Debug, PartialEq, Eq, Structural)]
pub enum PageFaultOutcome {
    /// The faulting task is finished; the kernel goes on.
    FatalToTask,
    /// A fault in kernel code: the kernel halts.
    Halt,
}

/// Decides an unhandled page fault: a fault from user code — an
/// instruction fetch among them — ends the task; anything in kernel
/// ground halts.
pub fn page_fault_decision(error_code: u64, from_user: bool) -> (r: PageFaultOutcome)
    ensures
        from_user ==> r == PageFaultOutcome::FatalToTask,
        !from_user ==> r == PageFaultOutcome::Halt,
{
    if from_user {
        PageFaultOutcome::FatalToTask
    } else {
        PageFaultOutcome::Halt
    }
}

} // verus!
