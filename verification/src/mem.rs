//! Contents of physical data frames, held as plain bytes.
//!
//! Page-table frames live in [`crate::page_table`]; every other frame the
//! kernel writes — program segments, stacks — is a [`DataFrame`] here.
//! Reads and writes through a virtual address go through the page tables
//! first and then into these bytes.

use vstd::prelude::*;

verus! {

use vstd::arithmetic::div_mod::{
    lemma_fundamental_div_mod,
    lemma_fundamental_div_mod_converse,
    lemma_mod_bound,
};
use crate::addr::PAGE_SIZE;
use crate::page_table::{PageTables, spec_translate, lemma_translate_addr_bound};

/// One physical frame of plain bytes.
pub struct DataFrame {
    /// Physical address of the frame, page-aligned.
    pub addr: u64,
    /// Its 4096 bytes.
    pub bytes: Vec<u8>,
}

/// All the data frames of the machine.
pub struct PhysMemory {
    /// Every frame the kernel has put bytes into.
    pub frames: Vec<DataFrame>,
}

/// Some frame has this physical address.
pub open spec fn has_frame(ms: Seq<DataFrame>, addr: u64) -> bool {
    exists|i: int| 0 <= i < ms.len() && (#[trigger] ms[i]).addr == addr
}

/// Index of the frame at `addr`.
pub open spec fn frame_index(ms: Seq<DataFrame>, addr: u64) -> int {
    choose|i: int| 0 <= i < ms.len() && (#[trigger] ms[i]).addr == addr
}

/// The bytes of the frame at `addr`.
pub open spec fn frame_bytes(ms: Seq<DataFrame>, addr: u64) -> Seq<u8> {
    ms[frame_index(ms, addr)].bytes@
}

/// Base address of the frame holding physical address `pa`.
pub open spec fn frame_base(pa: u64) -> u64 {
    (pa - (pa % PAGE_SIZE)) as u64
}

/// The byte at physical address `pa`; zero where no frame exists.
pub open spec fn byte_at(ms: Seq<DataFrame>, pa: u64) -> u8 {
    if has_frame(ms, frame_base(pa)) && frame_bytes(ms, frame_base(pa)).len() == 4096 {
        frame_bytes(ms, frame_base(pa))[pa as int % PAGE_SIZE as int]
    } else {
        0
    }
}

/// The byte a virtual address reads under `root`, if it is mapped.
pub open spec fn read_virt(
    ts: Seq<crate::page_table::PageTable>,
    ms: Seq<DataFrame>,
    root: u64,
    va: u64,
) -> Option<u8> {
    match spec_translate(ts, root, (va / PAGE_SIZE) as u64) {
        Some(f) => Some(byte_at(ms, (f + (va % PAGE_SIZE)) as u64)),
        None => None,
    }
}

impl PhysMemory {
    /// Distinct page-aligned frames of 4096 bytes each.
    pub open spec fn wf(&self) -> bool {
        let ms = self.frames@;
        &&& forall|i: int, j: int|
            0 <= i < ms.len() && 0 <= j < ms.len() && i != j ==> (#[trigger] ms[i]).addr != (
            #[trigger] ms[j]).addr
        &&& forall|i: int|
            0 <= i < ms.len() ==> (#[trigger] ms[i]).bytes@.len() == 4096 && ms[i].addr
                % PAGE_SIZE == 0
    }

    /// No frames at all.
    pub fn new() -> (r: PhysMemory)
        ensures
            r.wf(),
            r.frames@.len() == 0,
    {
        PhysMemory { frames: Vec::new() }
    }

    /// Index of the frame at `addr`, by linear scan.
    fn find_frame(&self, addr: u64) -> (r: Option<usize>)
        requires
            self.wf(),
        ensures
            (match r {
                Some(i) => i < self.frames@.len() && self.frames@[i as int].addr == addr
                    && has_frame(self.frames@, addr) && frame_index(self.frames@, addr) == i,
                None => !has_frame(self.frames@, addr),
            }),
    {
        let n = self.frames.len();
        let mut i: usize = 0;
        while i < n
            invariant
                i <= n,
                n == self.frames@.len(),
                forall|m: int| 0 <= m < i ==> (#[trigger] self.frames@[m]).addr != addr,
            decreases n - i,
        {
            if self.frames[i].addr == addr {
                proof {
                    let c = frame_index(self.frames@, addr);
                    assert(0 <= c < self.frames@.len() && self.frames@[c].addr == addr);
                }
                return Some(i);
            }
            i = i + 1;
        }
        None
    }

    /// Whether a frame at `addr` exists.
    pub fn has_frame_at(&self, addr: u64) -> (r: bool)
        requires
            self.wf(),
        ensures
            r == has_frame(self.frames@, addr),
    {
        match self.find_frame(addr) {
            Some(_) => true,
            None => false,
        }
    }

    /// Installs a fresh zeroed frame at `addr`.
    pub fn add_frame(&mut self, addr: u64)
        requires
            old(self).wf(),
            addr % PAGE_SIZE == 0,
            !has_frame(old(self).frames@, addr),
        ensures
            final(self).wf(),
            final(self).frames@.len() == old(self).frames@.len() + 1,
            forall|i: int|
                0 <= i < old(self).frames@.len() ==> (#[trigger] final(self).frames@[i]).addr
                    == old(self).frames@[i].addr,
            final(self).frames@[old(self).frames@.len() as int].addr == addr,
            forall|a: u64|
                #[trigger] has_frame(final(self).frames@, a) == (has_frame(old(self).frames@, a)
                    || a == addr),
            forall|pa: u64|
                frame_base(pa) != addr ==> #[trigger] byte_at(final(self).frames@, pa) == byte_at(
                    old(self).frames@,
                    pa,
                ),
            forall|pa: u64|
                frame_base(pa) == addr ==> #[trigger] byte_at(final(self).frames@, pa) == 0,
    {
        let ghost oms = self.frames@;
        let bytes = vec![0u8; 4096];
        self.frames.push(DataFrame { addr, bytes });
        proof {
            let ms = self.frames@;
            assert forall|a: u64| #[trigger]
                has_frame(ms, a) == (has_frame(oms, a) || a == addr) by {
                if has_frame(ms, a) {
                    let i = choose|i: int| 0 <= i < ms.len() && (#[trigger] ms[i]).addr == a;
                    if i < oms.len() {
                        assert(oms[i].addr == a);
                    }
                }
                if has_frame(oms, a) {
                    let i = choose|i: int| 0 <= i < oms.len() && (#[trigger] oms[i]).addr == a;
                    assert(ms[i].addr == a);
                }
                if a == addr {
                    assert(ms[oms.len() as int].addr == a);
                }
            }
            assert forall|a: u64| #[trigger]
                has_frame(oms, a) implies frame_index(ms, a) == frame_index(oms, a)
                && frame_bytes(ms, a) == frame_bytes(oms, a) by {
                let i = frame_index(oms, a);
                assert(0 <= i < oms.len() && oms[i].addr == a);
                assert(ms[i].addr == a);
                assert(has_frame(ms, a));
                let ib = frame_index(ms, a);
                assert(0 <= ib < ms.len() && ms[ib].addr == a);
                if ib == oms.len() {
                    assert(has_frame(oms, addr));
                }
                if ib != i {
                    assert(oms[ib].addr == a);
                }
            }
            assert(frame_index(ms, addr) == oms.len()) by {
                assert(ms[oms.len() as int].addr == addr);
                assert(has_frame(ms, addr));
                let ib = frame_index(ms, addr);
                assert(0 <= ib < ms.len() && ms[ib].addr == addr);
                if ib < oms.len() {
                    assert(oms[ib].addr == addr);
                }
            }
            assert(frame_bytes(ms, addr) =~= Seq::new(4096, |i: int| 0u8));
        }
    }

    /// Rewrites the byte at physical address `pa`.
    pub fn write_byte(&mut self, pa: u64, v: u8)
        requires
            old(self).wf(),
            has_frame(old(self).frames@, frame_base(pa)),
        ensures
            final(self).wf(),
            final(self).frames@.len() == old(self).frames@.len(),
            forall|i: int|
                0 <= i < old(self).frames@.len() ==> (#[trigger] final(self).frames@[i]).addr
                    == old(self).frames@[i].addr,
            forall|a: u64|
                #[trigger] has_frame(final(self).frames@, a) == has_frame(old(self).frames@, a),
            byte_at(final(self).frames@, pa) == v,
            forall|q: u64|
                q != pa ==> #[trigger] byte_at(final(self).frames@, q) == byte_at(
                    old(self).frames@,
                    q,
                ),
    {
        let ghost oms = self.frames@;
        let base = pa - (pa % PAGE_SIZE);
        let off = (pa % PAGE_SIZE) as usize;
        let i = match self.find_frame(base) {
            Some(i) => i,
            None => {
                proof {
                    assert(false);
                }
                0
            },
        };
        let f = &mut self.frames[i];
        f.bytes.set(off, v);
        proof {
            let ms = self.frames@;
            lemma_mod_bound(pa as int, PAGE_SIZE as int);
            assert forall|a: u64| #[trigger]
                has_frame(ms, a) == has_frame(oms, a) by {
                lemma_same_frame_addrs(oms, ms, a);
            }
            assert forall|a: u64| #[trigger]
                has_frame(oms, a) implies frame_index(ms, a) == frame_index(oms, a) by {
                let io = frame_index(oms, a);
                assert(0 <= io < oms.len() && oms[io].addr == a);
                assert(ms[io].addr == a);
                lemma_same_frame_addrs(oms, ms, a);
                let ib = frame_index(ms, a);
                assert(0 <= ib < ms.len() && ms[ib].addr == a);
                if ib != io {
                    assert(oms[ib].addr == a);
                }
            }
            assert(byte_at(ms, pa) == v);
            assert forall|q: u64| q != pa implies #[trigger] byte_at(ms, q) == byte_at(
                oms,
                q,
            ) by {
                lemma_mod_bound(q as int, PAGE_SIZE as int);
                lemma_fundamental_div_mod(q as int, PAGE_SIZE as int);
                lemma_fundamental_div_mod(pa as int, PAGE_SIZE as int);
                if frame_base(q) == base {
                    assert(q as int % PAGE_SIZE as int != pa as int % PAGE_SIZE as int);
                }
            }
        }
    }

    /// The byte at physical address `pa`; zero where no frame exists.
    pub fn read_byte(&self, pa: u64) -> (r: u8)
        requires
            self.wf(),
        ensures
            r == byte_at(self.frames@, pa),
    {
        let base = pa - (pa % PAGE_SIZE);
        let off = (pa % PAGE_SIZE) as usize;
        proof {
            lemma_mod_bound(pa as int, PAGE_SIZE as int);
        }
        match self.find_frame(base) {
            Some(i) => self.frames[i].bytes[off],
            None => 0,
        }
    }

    /// Drops the frame at `addr`, if any.
    pub fn remove_frame(&mut self, addr: u64)
        requires
            old(self).wf(),
        ensures
            final(self).wf(),
            !has_frame(final(self).frames@, addr),
            forall|a: u64|
                a != addr ==> #[trigger] has_frame(final(self).frames@, a) == has_frame(
                    old(self).frames@,
                    a,
                ),
            forall|pa: u64|
                frame_base(pa) != addr && has_frame(old(self).frames@, frame_base(pa))
                    ==> #[trigger] byte_at(final(self).frames@, pa) == byte_at(
                    old(self).frames@,
                    pa,
                ),
    {
        let ghost oms = self.frames@;
        match self.find_frame(addr) {
            Some(i) => {
                self.frames.remove(i);
                proof {
                    let ms = self.frames@;
                    assert forall|a: u64| a != addr implies #[trigger] has_frame(ms, a)
                        == has_frame(oms, a) by {
                        lemma_removed_frame(oms, ms, i as int, a);
                    }
                    assert(!has_frame(ms, addr)) by {
                        if has_frame(ms, addr) {
                            let j = choose|j: int|
                                0 <= j < ms.len() && (#[trigger] ms[j]).addr == addr;
                            if j < i {
                                assert(oms[j].addr == addr);
                            } else {
                                assert(oms[j + 1].addr == addr);
                            }
                        }
                    }
                    assert forall|pa: u64|
                        frame_base(pa) != addr && has_frame(oms, frame_base(pa)) implies #[trigger]
                    byte_at(ms, pa) == byte_at(oms, pa) by {
                        let b = frame_base(pa);
                        lemma_removed_frame(oms, ms, i as int, b);
                        let io = frame_index(oms, b);
                        assert(0 <= io < oms.len() && oms[io].addr == b);
                        let ib = frame_index(ms, b);
                        assert(has_frame(ms, b));
                        assert(0 <= ib < ms.len() && ms[ib].addr == b);
                        if ib < i {
                            assert(oms[ib].addr == b);
                            assert(ib == io);
                        } else {
                            assert(oms[ib + 1].addr == b);
                            assert(ib + 1 == io);
                        }
                    }
                }
            },
            None => {},
        }
    }
}

/// Stores whose frames carry the same addresses index-for-index find the
/// same frames.
proof fn lemma_same_frame_addrs(a: Seq<DataFrame>, b: Seq<DataFrame>, addr: u64)
    requires
        a.len() == b.len(),
        forall|i: int| 0 <= i < a.len() ==> (#[trigger] a[i]).addr == (#[trigger] b[i]).addr,
    ensures
        has_frame(a, addr) == has_frame(b, addr),
{
    if has_frame(a, addr) {
        let i = choose|i: int| 0 <= i < a.len() && (#[trigger] a[i]).addr == addr;
        assert(b[i].addr == addr);
    }
    if has_frame(b, addr) {
        let i = choose|i: int| 0 <= i < b.len() && (#[trigger] b[i]).addr == addr;
        assert(a[i].addr == addr);
    }
}

/// After removing index `i`, every other address is still found.
proof fn lemma_removed_frame(a: Seq<DataFrame>, b: Seq<DataFrame>, i: int, addr: u64)
    requires
        0 <= i < a.len(),
        b == a.remove(i),
        a[i].addr != addr,
    ensures
        has_frame(b, addr) == has_frame(a, addr),
{
    if has_frame(a, addr) {
        let j = choose|j: int| 0 <= j < a.len() && (#[trigger] a[j]).addr == addr;
        if j < i {
            assert(b[j].addr == addr);
        } else {
            assert(b[j - 1].addr == addr);
        }
    }
    if has_frame(b, addr) {
        let j = choose|j: int| 0 <= j < b.len() && (#[trigger] b[j]).addr == addr;
        if j < i {
            assert(a[j].addr == addr);
        } else {
            assert(a[j + 1].addr == addr);
        }
    }
}

/// Writes a byte through a virtual address: translates the page under
/// `root` and stores into the backing frame.  Fails exactly when the page
/// is unmapped.
pub fn write_virt_byte(
    pt: &PageTables,
    mem: &mut PhysMemory,
    root: u64,
    va: u64,
    v: u8,
) -> (r: bool)
    requires
        pt.wf(),
        old(mem).wf(),
        // the mapped frame is backed by a data frame
        (match spec_translate(pt.tables@, root, (va / PAGE_SIZE) as u64) {
            Some(f) => has_frame(old(mem).frames@, f) && f % PAGE_SIZE == 0,
            None => true,
        }),
    ensures
        final(mem).wf(),
        r == (spec_translate(pt.tables@, root, (va / PAGE_SIZE) as u64) is Some),
        final(mem).frames@.len() == old(mem).frames@.len(),
        forall|i: int|
            0 <= i < old(mem).frames@.len() ==> (#[trigger] final(mem).frames@[i]).addr == old(
                mem,
            ).frames@[i].addr,
        forall|a: u64|
            #[trigger] has_frame(final(mem).frames@, a) == has_frame(old(mem).frames@, a),
        (r ==> read_virt(pt.tables@, final(mem).frames@, root, va) == Some(v)),
        (!r ==> *final(mem) == *old(mem)),
        // only the addressed byte changes
        (match spec_translate(pt.tables@, root, (va / PAGE_SIZE) as u64) {
            Some(f) => forall|q: u64|
                q != f + (va % PAGE_SIZE) ==> #[trigger] byte_at(final(mem).frames@, q) == byte_at(
                    old(mem).frames@,
                    q,
                ),
            None => true,
        }),
{
    let pn = va / PAGE_SIZE;
    match pt.translate(root, pn) {
        Some(f) => {
            proof {
                lemma_mod_bound(va as int, PAGE_SIZE as int);
                lemma_translate_addr_bound(pt.tables@, root, pn);
                lemma_fundamental_div_mod(f as int, PAGE_SIZE as int);
                lemma_fundamental_div_mod_converse(
                    f as int + (va as int % PAGE_SIZE as int),
                    PAGE_SIZE as int,
                    f as int / PAGE_SIZE as int,
                    va as int % PAGE_SIZE as int,
                );
                assert(frame_base((f + (va % PAGE_SIZE)) as u64) == f);
            }
            mem.write_byte(f + (va % PAGE_SIZE), v);
            true
        },
        None => false,
    }
}

/// Reads a byte through a virtual address.
pub fn read_virt_byte(pt: &PageTables, mem: &PhysMemory, root: u64, va: u64) -> (r: Option<u8>)
    requires
        pt.wf(),
        mem.wf(),
    ensures
        r == read_virt(pt.tables@, mem.frames@, root, va),
{
    let pn = va / PAGE_SIZE;
    proof {
        lemma_mod_bound(va as int, PAGE_SIZE as int);
        lemma_translate_addr_bound(pt.tables@, root, pn);
    }
    match pt.translate(root, pn) {
        Some(f) => Some(mem.read_byte(f + (va % PAGE_SIZE))),
        None => None,
    }
}

} // verus!
