//! The syscall layer: a fixed table of two calls.  Call zero writes the
//! caller's bytes to the framebuffer writer — as text when they are
//! valid UTF-8, as the decimal form of the pointed-at word otherwise —
//! and call one marks the running task finished and asks for a
//! reschedule.

use vstd::prelude::*;

verus! {

use crate::addr::PAGE_SIZE;
use crate::mem::{PhysMemory, read_virt};
use crate::page_table::PageTables;
use crate::printer::Writer;
use crate::scheduler::Scheduler;
use crate::task::TaskState;

/// What the interrupt path must do after a syscall.
#[derive(Clone, Copy, Debug, PartialEq, Eq, Structural)]
pub enum SyscallAction {
    /// The call is done; return to the caller.
    Completed,
    /// The running task exited: invoke the scheduler.
    Reschedule,
    /// The call number is outside the table; nothing happened.
    Ignored,
}

/// How many calls the table holds.
pub const SYSCALL_COUNT: u64 = 2;

/// The bytes `[ptr, ptr + len)` read through the caller's address space,
/// or nothing if any byte is unmapped or the range wraps.
pub open spec fn spec_read_range(
    ts: Seq<crate::page_table::PageTable>,
    ms: Seq<crate::mem::DataFrame>,
    root: u64,
    ptr: u64,
    len: u64,
) -> Option<Seq<u8>>
    decreases len,
{
    if ptr + len > u64::MAX {
        None
    } else if len == 0 {
        Some(Seq::empty())
    } else {
        match (read_virt(ts, ms, root, ptr), spec_read_range(
            ts,
            ms,
            root,
            (ptr + 1) as u64,
            (len - 1) as u64,
        )) {
            (Some(b), Some(rest)) => Some(seq![b] + rest),
            _ => None,
        }
    }
}

/// Reads `[ptr, ptr + len)` through the caller's address space.
pub fn read_range(
    pt: &PageTables,
    mem: &PhysMemory,
    root: u64,
    ptr: u64,
    len: u64,
) -> (r: Option<Vec<u8>>)
    requires
        pt.wf(),
        mem.wf(),
    ensures
        (match r {
            Some(v) => spec_read_range(pt.tables@, mem.frames@, root, ptr, len) == Some(v@),
            None => spec_read_range(pt.tables@, mem.frames@, root, ptr, len) is None,
        }),
{
    if len > u64::MAX - ptr {
        return None;
    }
    let mut v: Vec<u8> = Vec::new();
    let mut i: u64 = 0;
    while i < len
        invariant
            pt.wf(),
            mem.wf(),
            i <= len,
            len <= u64::MAX - ptr,
            v@.len() == i,
            forall|m: u64|
                m < i ==> ((#[trigger] read_virt(
                    pt.tables@,
                    mem.frames@,
                    root,
                    (ptr + m) as u64,
                )) matches Some(b) && v@[m as int] == b),
        decreases len - i,
    {
        match crate::mem::read_virt_byte(pt, mem, root, ptr + i) {
            Some(b) => {
                v.push(b);
            },
            None => {
                proof {
                    lemma_read_range_none(pt.tables@, mem.frames@, root, ptr, len, i);
                }
                return None;
            },
        }
        i = i + 1;
    }
    proof {
        lemma_read_range_all_some(pt.tables@, mem.frames@, root, ptr, len);
        let bs = spec_read_range(pt.tables@, mem.frames@, root, ptr, len)->Some_0;
        lemma_read_range_len(pt.tables@, mem.frames@, root, ptr, len);
        assert forall|k: int| 0 <= k < len implies v@[k] == bs[k] by {
            lemma_read_range_index(pt.tables@, mem.frames@, root, ptr, len, k as u64);
        }
        assert(v@ =~= bs);
    }
    Some(v)
}

/// The range reads as a whole exactly when every byte of it reads, and
/// byte `i` of the result is the byte at `ptr + i`.
proof fn lemma_read_range_index(
    ts: Seq<crate::page_table::PageTable>,
    ms: Seq<crate::mem::DataFrame>,
    root: u64,
    ptr: u64,
    len: u64,
    i: u64,
)
    requires
        i < len,
        ptr + len <= u64::MAX,
    ensures
        (match spec_read_range(ts, ms, root, ptr, len) {
            Some(bs) => bs.len() == len && bs[i as int] == read_virt(
                ts,
                ms,
                root,
                (ptr + i) as u64,
            )->Some_0 && read_virt(ts, ms, root, (ptr + i) as u64) is Some,
            None => true,
        }),
    decreases i,
{
    if spec_read_range(ts, ms, root, ptr, len) is Some {
        if i == 0 {
            lemma_read_range_len(ts, ms, root, ptr, len);
        } else {
            lemma_read_range_index(ts, ms, root, (ptr + 1) as u64, (len - 1) as u64, (i - 1) as u64);
            lemma_read_range_len(ts, ms, root, (ptr + 1) as u64, (len - 1) as u64);
        }
    }
}

/// A whole range read has one byte per address.
proof fn lemma_read_range_len(
    ts: Seq<crate::page_table::PageTable>,
    ms: Seq<crate::mem::DataFrame>,
    root: u64,
    ptr: u64,
    len: u64,
)
    requires
        ptr + len <= u64::MAX,
    ensures
        (match spec_read_range(ts, ms, root, ptr, len) {
            Some(bs) => bs.len() == len,
            None => true,
        }),
    decreases len,
{
    if len > 0 {
        lemma_read_range_len(ts, ms, root, (ptr + 1) as u64, (len - 1) as u64);
    }
}

/// A range every byte of which reads does read as a whole.
proof fn lemma_read_range_all_some(
    ts: Seq<crate::page_table::PageTable>,
    ms: Seq<crate::mem::DataFrame>,
    root: u64,
    ptr: u64,
    len: u64,
)
    requires
        ptr + len <= u64::MAX,
        forall|m: u64|
            m < len ==> (#[trigger] read_virt(ts, ms, root, (ptr + m) as u64)) is Some,
    ensures
        spec_read_range(ts, ms, root, ptr, len) is Some,
    decreases len,
{
    if len > 0 {
        assert(read_virt(ts, ms, root, (ptr + 0) as u64) is Some);
        assert forall|m: u64|
            m < len - 1 implies (#[trigger] read_virt(
            ts,
            ms,
            root,
            ((ptr + 1) as u64 + m) as u64,
        )) is Some by {
            assert(read_virt(ts, ms, root, (ptr + (m + 1) as u64) as u64) is Some);
        }
        lemma_read_range_all_some(ts, ms, root, (ptr + 1) as u64, (len - 1) as u64);
    }
}

/// An unmapped byte makes the whole range read fail.
proof fn lemma_read_range_none(
    ts: Seq<crate::page_table::PageTable>,
    ms: Seq<crate::mem::DataFrame>,
    root: u64,
    ptr: u64,
    len: u64,
    i: u64,
)
    requires
        i < len,
        ptr + len <= u64::MAX,
        read_virt(ts, ms, root, (ptr + i) as u64) is None,
    ensures
        spec_read_range(ts, ms, root, ptr, len) is None,
    decreases i,
{
    if i > 0 {
        lemma_read_range_none(ts, ms, root, (ptr + 1) as u64, (len - 1) as u64, (i - 1) as u64);
    }
}

/// Whether a byte sequence is valid UTF-8.
pub uninterp spec fn utf8_valid(bs: Seq<u8>) -> bool;

/// The characters a valid UTF-8 byte sequence decodes to.
pub uninterp spec fn utf8_chars(bs: Seq<u8>) -> Seq<char>;

/// Relies on core::str::from_utf8: decodes the bytes when they are valid
/// UTF-8, and its documentation promises Ok exactly on valid UTF-8.
#[verifier::external_body]
fn decode_utf8(bytes: &Vec<u8>) -> (r: Option<Vec<char>>)
    ensures
        r is Some <==> utf8_valid(bytes@),
        (r matches Some(v) ==> v@ == utf8_chars(bytes@)),
{
    match core::str::from_utf8(bytes.as_slice()) {
        Ok(s) => Some(s.chars().collect()),
        Err(_) => None,
    }
}

/// The decimal form of a value, most significant digit first.
pub open spec fn spec_decimal(v: u64) -> Seq<char>
    decreases v,
{
    if v < 10 {
        seq![digit_char(v)]
    } else {
        spec_decimal(v / 10).push(digit_char(v % 10))
    }
}

/// The character of one decimal digit.
pub open spec fn digit_char(d: u64) -> char {
    ((d + 48) as u8) as char
}

/// Writes the decimal form of `v` to the writer.
pub fn write_decimal(writer: &mut Writer, v: u64)
    requires
        old(writer).wf(),
    ensures
        final(writer).wf(),
        final(writer).info == old(writer).info,
        final(writer).written@ == old(writer).written@ + spec_decimal(v),
    decreases v,
{
    if v >= 10 {
        write_decimal(writer, v / 10);
    }
    let d = (v % 10) as u8;
    writer.write_char((d + 48) as char);
    proof {
        if v < 10 {
            assert(v % 10 == v);
            assert(old(writer).written@.push(digit_char(v)) =~= old(writer).written@
                + spec_decimal(v));
        } else {
            assert(old(writer).written@ + spec_decimal(v / 10) + seq![digit_char(v % 10)]
                =~= old(writer).written@ + spec_decimal(v));
        }
    }
}

/// The little-endian word in the first eight bytes of a sequence.
pub open spec fn spec_le_word(bs: Seq<u8>) -> int {
    crate::elf::le64(bs, 0)
}

/// The write syscall's effect on the writer's output: the text itself
/// for valid UTF-8, the decimal form of the first word otherwise, and
/// nothing when the caller's memory cannot be read.
pub open spec fn spec_write_output(
    ts: Seq<crate::page_table::PageTable>,
    ms: Seq<crate::mem::DataFrame>,
    root: u64,
    ptr: u64,
    len: u64,
) -> Seq<char> {
    match spec_read_range(ts, ms, root, ptr, len) {
        Some(bs) => if utf8_valid(bs) {
            utf8_chars(bs)
        } else {
            match spec_read_range(ts, ms, root, ptr, 8) {
                Some(ws) => spec_decimal(spec_le_word(ws) as u64),
                None => Seq::empty(),
            }
        },
        None => Seq::empty(),
    }
}

/// Dispatches one syscall: number zero writes, number one exits, any
/// other number is ignored, as the table has only two entries.
pub fn dispatch(
    pt: &PageTables,
    mem: &PhysMemory,
    writer: &mut Writer,
    sched: &mut Scheduler,
    root: u64,
    call_num: u64,
    arg0: u64,
    arg1: u64,
    arg2: u64,
) -> (r: SyscallAction)
    requires
        pt.wf(),
        mem.wf(),
        old(writer).wf(),
        old(sched).wf(),
    ensures
        final(writer).wf(),
        final(sched).wf(),
        // the write call appends exactly its output and schedules nothing
        call_num == 0 ==> r == SyscallAction::Completed && final(writer).written@ == old(
            writer,
        ).written@ + spec_write_output(pt.tables@, mem.frames@, root, arg1, arg2) && *final(sched)
            == *old(sched),
        // the exit call marks the running task finished
        call_num == 1 ==> *final(writer) == *old(writer) && (match old(sched).running_task {
            Some(rid) => r == SyscallAction::Reschedule && final(sched).running_task == Some(rid)
                && (forall|i: int|
                0 <= i < old(sched).tasks@.len() && old(sched).tasks@[i].task_id.pid == rid
                    ==> (#[trigger] final(sched).tasks@[i]).state == TaskState::Finished),
            None => r == SyscallAction::Ignored && *final(sched) == *old(sched),
        }),
        call_num >= 2 ==> r == SyscallAction::Ignored && *final(writer) == *old(writer)
            && *final(sched) == *old(sched),
{
    if call_num == 0 {
        syscall_write(pt, mem, writer, root, arg1, arg2);
        SyscallAction::Completed
    } else if call_num == 1 {
        match sched.running_task() {
            Some(rid) => {
                sched.set_task_state(rid, TaskState::Finished);
                SyscallAction::Reschedule
            },
            None => SyscallAction::Ignored,
        }
    } else {
        SyscallAction::Ignored
    }
}

/// The write syscall: the caller's bytes as text, or the pointed-at
/// word in decimal, onto the framebuffer writer.
fn syscall_write(pt: &PageTables, mem: &PhysMemory, writer: &mut Writer, root: u64, ptr: u64, len: u64)
    requires
        pt.wf(),
        mem.wf(),
        old(writer).wf(),
    ensures
        final(writer).wf(),
        final(writer).written@ == old(writer).written@ + spec_write_output(
            pt.tables@,
            mem.frames@,
            root,
            ptr,
            len,
        ),
{
    match read_range(pt, mem, root, ptr, len) {
        Some(bytes) => {
            match decode_utf8(&bytes) {
                Some(chars) => {
                    writer.write_str(chars.as_slice());
                },
                None => {
                    match read_range(pt, mem, root, ptr, 8) {
                        Some(word_bytes) => {
                            proof {
                                lemma_read_range_len(pt.tables@, mem.frames@, root, ptr, 8);
                            }
                            let w = crate::elf::read_u64(&word_bytes, 0);
                            write_decimal(writer, w);
                        },
                        None => {
                            proof {
                                assert(old(writer).written@ + Seq::<char>::empty() =~= old(
                                    writer,
                                ).written@);
                            }
                        },
                    }
                },
            }
        },
        None => {
            proof {
                assert(old(writer).written@ + Seq::<char>::empty() =~= old(writer).written@);
            }
        },
    }
}

} // verus!
