//! Physical frame allocator: a bitmap over the chosen usable memory region.
//!
//! Bit `i` of the bitmap is set exactly when frame `i` of the allocatable
//! region (the usable region with the bitmap's own frames carved off its
//! front) has been handed out.  Allocation always returns the lowest free
//! frame, so the allocator is deterministic.

use vstd::prelude::*;

verus! {

use vstd::arithmetic::div_mod::{
    lemma_fundamental_div_mod,
    lemma_fundamental_div_mod_converse,
    lemma_mod_bound,
};
use crate::addr::PAGE_SIZE;
use crate::page_table::{
    PageTable,
    PageTables,
    ADDR_MASK,
    HUGE_PAGE,
    PRESENT,
    WRITABLE,
    has_table,
    normal_pn,
    path_exists,
    spec_translate,
    table_index,
    table_level,
    tables_linked,
    lemma_path_exists_preserved,
    lemma_path_no_huge,
    lemma_table_index_of,
    present,
    entry_at,
};

/// Largest physical address the model admits: 2^52, the x86_64 limit.
pub const MAX_PHYS_ADDR: u64 = 0x10_0000_0000_0000;

/// One entry of the boot memory map.
#[derive(Clone, Copy, Debug, PartialEq, Eq, Structural)]
pub struct MemoryRegion {
    /// First byte of the region.
    pub start: u64,
    /// One past the last byte of the region.
    pub end: u64,
    /// What the bootloader reported the region as.
    pub kind: MemoryRegionKind,
}

/// Classification of a boot memory region.
#[derive(Clone, Copy, Debug, PartialEq, Eq, Structural)]
pub enum MemoryRegionKind {
    /// Free RAM that the kernel may use.
    Usable,
    /// Memory holding the bootloader and its payloads.
    Bootloader,
    /// Anything else the firmware reserved.
    Reserved,
}

/// True when bit `k` of the word `w` is set.
pub open spec fn word_bit(w: u64, k: u64) -> bool {
    (w >> k) & 1 == 1
}

/// Bit `i` of a bitmap laid out as consecutive 64-bit words.
pub open spec fn bit_at(words: Seq<u64>, i: int) -> bool {
    word_bit(words[i / 64], (i % 64) as u64)
}

/// Index of the lowest clear bit at or after `i`, if any.
pub open spec fn lowest_free(bits: Seq<bool>, i: int) -> Option<int>
    decreases bits.len() - i,
{
    if i < 0 || i >= bits.len() {
        None
    } else if !bits[i] {
        Some(i)
    } else {
        lowest_free(bits, i + 1)
    }
}

/// Number of clear bits at or after `i`.
pub open spec fn count_free(bits: Seq<bool>, i: int) -> int
    decreases bits.len() - i,
{
    if i < 0 || i >= bits.len() {
        0
    } else {
        (if bits[i] {
            0int
        } else {
            1int
        }) + count_free(bits, i + 1)
    }
}

/// The allocation bitmap over the usable memory region.
pub struct PhysFrameAllocator {
    /// The region frames are handed out of; its start lies past the bitmap.
    pub usable_memory_region: MemoryRegion,
    /// The prefix of the chosen usable region reserved for the bitmap.
    pub bit_map_region: MemoryRegion,
    /// One bit per allocatable frame; trailing padding bits stay set.
    pub bitmap: Vec<u64>,
}

impl PhysFrameAllocator {
    /// Number of frames the allocator manages.
    pub open spec fn frame_count(&self) -> int {
        (self.usable_memory_region.end - self.usable_memory_region.start) / PAGE_SIZE as int
    }

    /// The allocation state: one boolean per frame, true when allocated.
    pub open spec fn bits(&self) -> Seq<bool> {
        Seq::new(self.frame_count() as nat, |i: int| bit_at(self.bitmap@, i))
    }

    /// Physical address of frame `i`.
    pub open spec fn frame_addr(&self, i: int) -> u64 {
        (self.usable_memory_region.start + i * PAGE_SIZE) as u64
    }

    /// Frame index of a physical address inside the region.
    pub open spec fn index_of(&self, addr: u64) -> int {
        (addr - self.usable_memory_region.start) / PAGE_SIZE as int
    }

    /// True when `addr` is the start of a frame this allocator manages.
    pub open spec fn in_range(&self, addr: u64) -> bool {
        &&& self.usable_memory_region.start <= addr < self.usable_memory_region.end
        &&& (addr - self.usable_memory_region.start) % PAGE_SIZE as int == 0
    }

    /// Shape of a valid allocator: an aligned region within the physical
    /// address space, a bitmap of exactly the right number of words, and
    /// every padding bit set.
    pub open spec fn wf(&self) -> bool {
        &&& self.usable_memory_region.start % PAGE_SIZE == 0
        &&& self.usable_memory_region.end % PAGE_SIZE == 0
        &&& self.usable_memory_region.start <= self.usable_memory_region.end
        &&& self.usable_memory_region.end <= MAX_PHYS_ADDR
        &&& self.bitmap@.len() == (self.frame_count() + 63) / 64
        &&& forall|i: int|
            self.frame_count() <= i < self.bitmap@.len() * 64 ==> bit_at(self.bitmap@, i)
    }

    /// The region is exactly `frame_count` frames long.
    pub proof fn lemma_region_size(&self)
        requires
            self.wf(),
        ensures
            self.usable_memory_region.end - self.usable_memory_region.start == PAGE_SIZE
                * self.frame_count(),
            0 <= self.frame_count(),
            self.frame_count() <= self.bitmap@.len() * 64,
            self.bitmap@.len() * 64 < self.frame_count() + 64,
    {
        let size = self.usable_memory_region.end - self.usable_memory_region.start;
        lemma_fundamental_div_mod(size, PAGE_SIZE as int);
        assert(size % PAGE_SIZE as int == 0) by {
            lemma_mod_diff_zero(
                self.usable_memory_region.start as int,
                self.usable_memory_region.end as int,
                PAGE_SIZE as int,
            );
        }
        lemma_fundamental_div_mod(self.frame_count() + 63, 64);
        lemma_mod_bound(self.frame_count() + 63, 64);
    }

    /// Scans the bitmap for the lowest free frame, marks it allocated and
    /// returns its physical address; returns nothing when every frame is
    /// taken.
    pub fn allocate_frame(&mut self) -> (r: Option<u64>)
        requires
            old(self).wf(),
        ensures
            final(self).wf(),
            final(self).usable_memory_region == old(self).usable_memory_region,
            final(self).bit_map_region == old(self).bit_map_region,
            (match lowest_free(old(self).bits(), 0) {
                Some(j) => r == Some(old(self).frame_addr(j)) && final(self).bits() =~= old(
                    self,
                ).bits().update(j, true),
                None => r == None::<u64> && final(self).bits() == old(self).bits(),
            }),
            (r matches Some(a) ==> old(self).in_range(a) && 0 <= old(self).index_of(a) < old(
                self,
            ).frame_count() && !old(self).bits()[old(self).index_of(a)] && final(self).bits()
                == old(self).bits().update(old(self).index_of(a), true) && count_free(
                final(self).bits(),
                0,
            ) == count_free(old(self).bits(), 0) - 1),
            (r is None ==> count_free(old(self).bits(), 0) == 0),
            (r matches Some(a) ==> a % PAGE_SIZE == 0),
            forall|m: int|
                0 <= m < old(self).frame_count() && old(self).bits()[m] ==> final(self).bits()[m],
    {
        let ghost oall = *self;
        proof {
            oall.lemma_region_size();
        }
        let mut w: usize = 0;
        while w < self.bitmap.len()
            invariant
                *self == oall,
                oall.wf(),
                w <= self.bitmap@.len(),
                forall|i: int| 0 <= i < w * 64 && i < self.frame_count() ==> self.bits()[i],
            decreases self.bitmap@.len() - w,
        {
            let word = self.bitmap[w];
            if word != u64::MAX {
                let k = lowest_zero_bit(word);
                proof {
                    oall.lemma_region_size();
                    lemma_word_split(w as int, k as int);
                }
                let j: u64 = (w as u64) * 64 + k;
                proof {
                    assert(!bit_at(self.bitmap@, j as int));
                    assert(j < self.frame_count()) by {
                        if j as int >= self.frame_count() {
                            assert(bit_at(self.bitmap@, j as int));
                        }
                    }
                    assert(!self.bits()[j as int]);
                    assert forall|m: int| 0 <= m < j implies self.bits()[m] by {
                        if m >= w * 64 {
                            lemma_word_range(w as int, m);
                            assert(word_bit(word, (m - 64 * w) as u64));
                        }
                    }
                    lemma_lowest_free_is(self.bits(), 0, j as int);
                }
                let new_word = word | (1u64 << k);
                let ghost owords = self.bitmap@;
                self.bitmap.set(w, new_word);
                proof {
                    assert(self.bitmap@ == owords.update(w as int, new_word));
                    assert forall|m: u64| m < 64 && m != k implies word_bit(new_word, m)
                        == word_bit(word, m) by {
                        lemma_set_bit(word, k, m);
                    }
                    assert forall|i: int|
                        0 <= i < owords.len() * 64 && i != j implies bit_at(self.bitmap@, i)
                        == bit_at(owords, i) by {
                        lemma_bit_update_at(owords, self.bitmap@, w as int, k, i);
                    }
                    assert(bit_at(self.bitmap@, j as int)) by {
                        lemma_word_split(w as int, k as int);
                        lemma_set_bit(word, k, k);
                    }
                    assert(self.bits() =~= oall.bits().update(j as int, true));
                    assert forall|i: int|
                        self.frame_count() <= i < self.bitmap@.len() * 64 implies bit_at(
                        self.bitmap@,
                        i,
                    ) by {
                        assert(bit_at(owords, i));
                        lemma_bit_update_at(owords, self.bitmap@, w as int, k, i);
                    }
                    assert(self.wf());
                }
                proof {
                    // the returned address stays inside the region
                    assert(j * PAGE_SIZE < oall.usable_memory_region.end
                        - oall.usable_memory_region.start);
                    lemma_fundamental_div_mod_converse(
                        j as int * PAGE_SIZE as int,
                        PAGE_SIZE as int,
                        j as int,
                        0,
                    );
                    lemma_count_free_update_true(oall.bits(), j as int, 0);
                    lemma_mod_sum_zero(
                        oall.usable_memory_region.start as int,
                        j as int * PAGE_SIZE as int,
                        PAGE_SIZE as int,
                    );
                }
                return Some(self.usable_memory_region.start + j * PAGE_SIZE);
            }
            proof {
                assert forall|i: int|
                    0 <= i < (w + 1) * 64 && i < self.frame_count() implies self.bits()[i] by {
                    if i >= w * 64 {
                        lemma_word_range(w as int, i);
                        let m = (i - 64 * w) as u64;
                        assert(m < 64 ==> word_bit(0xFFFF_FFFF_FFFF_FFFFu64, m)) by (bit_vector);
                    }
                }
            }
            w = w + 1;
        }
        proof {
            oall.lemma_region_size();
            lemma_lowest_free_none(self.bits());
            lemma_lowest_free_count(self.bits(), 0);
            lemma_count_free_bounds(self.bits(), 0);
        }
        None
    }

    /// Clears the bit of the given frame so it can be handed out again.
    /// An address outside the allocatable region (the bitmap's own frames
    /// among them) or off a frame boundary leaves the map unchanged.
    pub fn deallocate_frame(&mut self, frame: u64)
        requires
            old(self).wf(),
        ensures
            final(self).wf(),
            final(self).usable_memory_region == old(self).usable_memory_region,
            final(self).bit_map_region == old(self).bit_map_region,
            old(self).in_range(frame) ==> final(self).bits() =~= old(self).bits().update(
                old(self).index_of(frame),
                false,
            ),
            !old(self).in_range(frame) ==> final(self).bits() == old(self).bits(),
    {
        if frame < self.usable_memory_region.start || frame >= self.usable_memory_region.end {
            return ;
        }
        let offset = frame - self.usable_memory_region.start;
        if offset % PAGE_SIZE != 0 {
            return ;
        }
        let idx = offset / PAGE_SIZE;
        let nwords = self.bitmap.len();
        proof {
            self.lemma_region_size();
            lemma_fundamental_div_mod(offset as int, PAGE_SIZE as int);
            assert(idx < self.frame_count());
            lemma_word_of_index(idx as int);
            assert(idx as int / 64 < nwords);
        }
        let wi = (idx / 64) as usize;
        let k = idx % 64;
        let word = self.bitmap[wi];
        let new_word = word & !(1u64 << k);
        let ghost owords = self.bitmap@;
        self.bitmap.set(wi, new_word);
        proof {
            assert(self.bitmap@ == owords.update(wi as int, new_word));
            assert(idx as int == 64 * (wi as int) + k as int);
            assert forall|m: u64| m < 64 && m != k implies word_bit(new_word, m) == word_bit(
                word,
                m,
            ) by {
                lemma_clear_bit(word, k, m);
            }
            assert forall|i: int|
                0 <= i < owords.len() * 64 && i != idx implies bit_at(self.bitmap@, i) == bit_at(
                owords,
                i,
            ) by {
                lemma_bit_update_at(owords, self.bitmap@, wi as int, k, i);
            }
            assert(!bit_at(self.bitmap@, idx as int)) by {
                lemma_word_split(wi as int, k as int);
                lemma_clear_bit(word, k, k);
            }
            assert(self.bits() =~= old(self).bits().update(idx as int, false));
            assert forall|i: int|
                self.frame_count() <= i < self.bitmap@.len() * 64 implies bit_at(
                self.bitmap@,
                i,
            ) by {
                assert(bit_at(owords, i));
                lemma_bit_update_at(owords, self.bitmap@, wi as int, k, i);
            }
            assert(self.wf());
        }
    }

    /// How many frames are still free.
    pub fn free_frames(&self) -> (r: u64)
        requires
            self.wf(),
        ensures
            r == count_free(self.bits(), 0),
    {
        let ghost bits = self.bits();
        proof {
            self.lemma_region_size();
            lemma_count_free_bounds(bits, 0);
        }
        let mut total: u64 = 0;
        let mut i: u64 = 0;
        let n = (self.usable_memory_region.end - self.usable_memory_region.start) / PAGE_SIZE;
        while i < n
            invariant
                self.wf(),
                bits == self.bits(),
                n == self.frame_count(),
                i <= n,
                count_free(bits, 0) == total + count_free(bits, i as int),
                total <= i,
            decreases n - i,
        {
            let nwords = self.bitmap.len();
            proof {
                self.lemma_region_size();
                lemma_word_of_index(i as int);
                assert(i as int / 64 < nwords);
            }
            let wi = (i / 64) as usize;
            let k = i % 64;
            let word = self.bitmap[wi];
            if (word >> k) & 1 == 0 {
                proof {
                    assert(!bits[i as int]);
                }
                total = total + 1;
            } else {
                proof {
                    assert((word >> k) & 1 == 0 || (word >> k) & 1 == 1) by (bit_vector);
                    assert(bits[i as int]);
                }
            }
            i = i + 1;
        }
        total
    }
}

/// The word with exactly its `k` lowest bits set.
pub open spec fn low_mask(k: u64) -> u64 {
    !(u64::MAX << k)
}


/// An allocator that never hands out a frame.  Mapping operations run
/// with it when they must not consume memory, as when the bitmap's own
/// frames are identity-mapped during boot: their intermediate page tables
/// must already exist.
pub struct EmptyFrameAllocator;

impl EmptyFrameAllocator {
    /// Never returns a frame.
    pub fn allocate_frame(&mut self) -> (r: Option<u64>)
        ensures
            r is None,
    {
        None
    }

    /// The same behaviour as an allocation bitmap with no frames at all.
    pub fn as_bitmap() -> (r: PhysFrameAllocator)
        ensures
            r.wf(),
            r.frame_count() == 0,
            count_free(r.bits(), 0) == 0,
    {
        let region = MemoryRegion { start: 0, end: 0, kind: MemoryRegionKind::Usable };
        PhysFrameAllocator {
            usable_memory_region: region,
            bit_map_region: region,
            bitmap: Vec::new(),
        }
    }
}

/// One page of a memory region, by page number.
pub open spec fn region_page(r: MemoryRegion, pn: u64) -> bool {
    r.start <= pn * PAGE_SIZE < r.end
}

/// The boot environment the frame allocator is initialized in: every page
/// of every usable region is unmapped but its intermediate page tables
/// exist; no page table lives inside usable RAM; and usable RAM is
/// page-aligned in the lower half of the address space.
pub open spec fn boot_env_wf(
    regions: Seq<MemoryRegion>,
    ts: Seq<PageTable>,
    kernel_root: u64,
) -> bool {
    &&& forall|i: int, pn: u64|
        0 <= i < regions.len() && (#[trigger] regions[i]).kind == MemoryRegionKind::Usable
            && #[trigger] region_page(regions[i], pn) ==> normal_pn(pn) && path_exists(
            ts,
            kernel_root,
            pn,
        ) && spec_translate(ts, kernel_root, pn) is None
    &&& forall|i: int, j: int|
        0 <= i < regions.len() && (#[trigger] regions[i]).kind == MemoryRegionKind::Usable && 0
            <= j < ts.len() ==> !(regions[i].start <= (#[trigger] ts[j]).addr < regions[i].end)
    &&& forall|i: int|
        0 <= i < regions.len() && (#[trigger] regions[i]).kind == MemoryRegionKind::Usable ==> {
            &&& regions[i].start % PAGE_SIZE == 0
            &&& regions[i].end % PAGE_SIZE == 0
            &&& regions[i].start <= regions[i].end
            &&& regions[i].end <= 0x8000_0000_0000
        }
}

/// How many frames the bitmap of a region occupies: one bit per frame of
/// the region, whole bytes, whole frames.
pub open spec fn spec_bitmap_frames(r: MemoryRegion) -> int {
    (((r.end - r.start) / PAGE_SIZE as int + 7) / 8 + PAGE_SIZE - 1) / PAGE_SIZE as int
}

/// Where the bitmap prefix of a region ends and the allocatable frames
/// begin.
pub open spec fn spec_bitmap_end(r: MemoryRegion) -> int {
    if spec_bitmap_frames(r) * PAGE_SIZE > r.end - r.start {
        r.end as int
    } else {
        r.start + spec_bitmap_frames(r) * PAGE_SIZE
    }
}

impl PhysFrameAllocator {
    /// Builds the allocator from the boot memory map: chooses the largest
    /// usable region, carves its prefix off for the bitmap, identity-maps
    /// the bitmap's frames through the given page tables (with an empty
    /// allocator, since those paths must already exist), and hands out
    /// the rest of the region with every frame free.  Returns nothing
    /// exactly when the map has no usable region.
    pub fn init(
        memory_regions: &Vec<MemoryRegion>,
        page_table: &mut PageTables,
        kernel_root: u64,
    ) -> (r: Option<PhysFrameAllocator>)
        requires
            old(page_table).wf(),
            old(page_table).is_root(kernel_root),
            boot_env_wf(memory_regions@, old(page_table).tables@, kernel_root),
        ensures
            final(page_table).wf(),
            final(page_table).is_root(kernel_root),
            forall|a: u64|
                #[trigger] has_table(old(page_table).tables@, a) ==> has_table(
                    final(page_table).tables@,
                    a,
                ) && table_level(final(page_table).tables@, a) == table_level(
                    old(page_table).tables@,
                    a,
                ),
            r is None <==> (forall|i: int|
                0 <= i < memory_regions@.len() ==> (#[trigger] memory_regions@[i]).kind
                    != MemoryRegionKind::Usable),
            (match r {
                Some(fa) => {
                    &&& fa.wf()
                    &&& count_free(fa.bits(), 0) == fa.frame_count()
                    &&& tables_linked(final(page_table).tables@, fa)
                    // the region is a largest usable one, split after the bitmap
                    &&& exists|ci: int|
                        0 <= ci < memory_regions@.len() && (#[trigger] memory_regions@[ci]).kind
                            == MemoryRegionKind::Usable && fa.bit_map_region.start
                            == memory_regions@[ci].start && fa.usable_memory_region.end
                            == memory_regions@[ci].end && fa.bit_map_region.end
                            == spec_bitmap_end(memory_regions@[ci]) && (forall|j: int|
                            0 <= j < memory_regions@.len() && (#[trigger] memory_regions@[j]).kind
                                == MemoryRegionKind::Usable ==> memory_regions@[j].end
                                - memory_regions@[j].start <= memory_regions@[ci].end
                                - memory_regions@[ci].start)
                    &&& fa.bit_map_region.end == fa.usable_memory_region.start
                    // every frame of the bitmap is identity-mapped
                    &&& forall|pn: u64|
                        fa.bit_map_region.start <= pn * PAGE_SIZE < fa.bit_map_region.end
                            ==> #[trigger] spec_translate(
                            final(page_table).tables@,
                            kernel_root,
                            pn,
                        ) == Some((pn * PAGE_SIZE) as u64)
                },
                None => *final(page_table) == *old(page_table),
            }),
    {
        let ghost regions = memory_regions@;
        // choose the largest usable region
        let mut best: Option<usize> = None;
        let mut i: usize = 0;
        let n = memory_regions.len();
        while i < n
            invariant
                i <= n,
                n == regions.len(),
                (match best {
                    Some(b) => b < i && regions[b as int].kind == MemoryRegionKind::Usable
                        && forall|m: int|
                        0 <= m < i && (#[trigger] regions[m]).kind == MemoryRegionKind::Usable
                            ==> regions[m].end - regions[m].start <= regions[b as int].end
                            - regions[b as int].start,
                    None => forall|m: int|
                        0 <= m < i ==> (#[trigger] regions[m]).kind != MemoryRegionKind::Usable,
                }),
            decreases n - i,
        {
            let reg = memory_regions[i];
            if reg.kind == MemoryRegionKind::Usable {
                match best {
                    Some(b) => {
                        let cur = memory_regions[b];
                        if reg.end - reg.start > cur.end - cur.start {
                            best = Some(i);
                        }
                    },
                    None => {
                        best = Some(i);
                    },
                }
            }
            i = i + 1;
        }
        let bi = match best {
            Some(b) => b,
            None => {
                return None;
            },
        };
        let chosen = memory_regions[bi];
        proof {
            assert(region_usable_wf(regions, bi as int));
        }
        // size the bitmap: one bit per frame, whole frames for the bitmap
        let total_frames = (chosen.end - chosen.start) / PAGE_SIZE;
        let bitmap_bytes = (total_frames + 7) / 8;
        let bitmap_frames = (bitmap_bytes + PAGE_SIZE - 1) / PAGE_SIZE;
        let bitmap_end = if bitmap_frames > (chosen.end - chosen.start) / PAGE_SIZE {
            chosen.end
        } else {
            chosen.start + bitmap_frames * PAGE_SIZE
        };
        proof {
            lemma_fundamental_div_mod((chosen.end - chosen.start) as int, PAGE_SIZE as int);
            lemma_mod_diff_zero(chosen.start as int, chosen.end as int, PAGE_SIZE as int);
            if bitmap_frames <= total_frames {
                assert(bitmap_frames * PAGE_SIZE <= total_frames * PAGE_SIZE) by (nonlinear_arith)
                    requires
                        bitmap_frames <= total_frames,
                        PAGE_SIZE > 0,
                ;
                lemma_fundamental_div_mod_converse(
                    bitmap_frames as int * PAGE_SIZE as int,
                    PAGE_SIZE as int,
                    bitmap_frames as int,
                    0,
                );
                lemma_mod_sum_zero(
                    chosen.start as int,
                    bitmap_frames as int * PAGE_SIZE as int,
                    PAGE_SIZE as int,
                );
            }
        }
        let bit_map_region = MemoryRegion {
            start: chosen.start,
            end: bitmap_end,
            kind: MemoryRegionKind::Usable,
        };
        let usable_memory_region = MemoryRegion {
            start: bitmap_end,
            end: chosen.end,
            kind: MemoryRegionKind::Usable,
        };
        // identity-map the bitmap's frames; their table paths exist, so
        // the empty allocator is never asked for a frame
        map_bit_frames(page_table, kernel_root, bit_map_region, Ghost(regions), Ghost(bi as int));
        let fa = PhysFrameAllocator::over_regions(bit_map_region, usable_memory_region);
        proof {
            // no table of the final store lies in the allocatable range
            assert forall|j: int|
                0 <= j < page_table.tables@.len() && fa.in_range(
                    (#[trigger] page_table.tables@[j]).addr,
                ) implies fa.bits()[fa.index_of(page_table.tables@[j].addr)] by {
                let addr = page_table.tables@[j].addr;
                lemma_table_index_of(page_table.tables@, j);
                assert(has_table(old(page_table).tables@, addr));
                let jo = table_index(old(page_table).tables@, addr);
                assert(0 <= jo < old(page_table).tables@.len() && old(
                    page_table,
                ).tables@[jo].addr == addr);
                assert(!(regions[bi as int].start <= addr < regions[bi as int].end));
                assert(false);
            }
        }
        Some(fa)
    }

    /// An allocator over the given allocatable region, every frame free,
    /// remembering where its bitmap was carved from.
    pub fn over_regions(bit_map_region: MemoryRegion, usable_memory_region: MemoryRegion) -> (fa:
        PhysFrameAllocator)
        requires
            usable_memory_region.start % PAGE_SIZE == 0,
            usable_memory_region.end % PAGE_SIZE == 0,
            usable_memory_region.start <= usable_memory_region.end,
            usable_memory_region.end <= 0x8000_0000_0000,
        ensures
            fa.wf(),
            fa.usable_memory_region == usable_memory_region,
            fa.bit_map_region == bit_map_region,
            count_free(fa.bits(), 0) == fa.frame_count(),
    {
        let alloc_frames = (usable_memory_region.end - usable_memory_region.start) / PAGE_SIZE;
        let words = ((alloc_frames + 63) / 64) as usize;
        let full_words = (alloc_frames / 64) as usize;
        let rem = alloc_frames % 64;
        proof {
            lemma_fundamental_div_mod(alloc_frames as int, 64);
            lemma_mod_bound(alloc_frames as int, 64);
            lemma_fundamental_div_mod(
                (usable_memory_region.end - usable_memory_region.start) as int,
                PAGE_SIZE as int,
            );
            if rem > 0 {
                lemma_fundamental_div_mod_converse(
                    alloc_frames as int + 63,
                    64,
                    alloc_frames as int / 64 + 1,
                    rem as int - 1,
                );
            } else {
                lemma_fundamental_div_mod_converse(
                    alloc_frames as int + 63,
                    64,
                    alloc_frames as int / 64,
                    63,
                );
            }
        }
        let mut bitmap: Vec<u64> = Vec::new();
        let mut w: usize = 0;
        while w < words
            invariant
                w <= words,
                bitmap@.len() == w,
                rem == alloc_frames as int % 64,
                full_words == alloc_frames as int / 64,
                words == (alloc_frames + 63) as int / 64,
                forall|m: int|
                    0 <= m < w ==> bitmap@[m] == (if m < full_words {
                        0u64
                    } else {
                        u64::MAX << rem
                    }),
            decreases words - w,
        {
            if w < full_words {
                bitmap.push(0);
            } else {
                bitmap.push(u64::MAX << rem);
            }
            w = w + 1;
        }
        let fa = PhysFrameAllocator { usable_memory_region, bit_map_region, bitmap };
        proof {
            assert forall|i: int| 0 <= i < fa.bitmap@.len() * 64 implies bit_at(fa.bitmap@, i) == (
            i >= alloc_frames) by {
                lemma_word_of_index(i);
                let q = i / 64;
                let k = (i % 64) as u64;
                assert(q < fa.bitmap@.len());
                if q < full_words {
                    assert(fa.bitmap@[q] == 0u64);
                    assert(!word_bit(0u64, k)) by (bit_vector)
                        requires
                            k < 64,
                    ;
                    assert(i < alloc_frames);
                } else {
                    assert(fa.bitmap@[q] == u64::MAX << rem);
                    assert(q == full_words);
                    lemma_shl_mask_bit(rem, k);
                    assert((i >= alloc_frames) == (k >= rem));
                }
            }
            assert(fa.wf());
            assert forall|i: int| 0 <= i < fa.frame_count() implies !fa.bits()[i] by {}
            lemma_count_free_all_clear(fa.bits(), 0);
        }
        fa
    }
}

/// The boot well-formedness facts of one usable region.
pub open spec fn region_usable_wf(regions: Seq<MemoryRegion>, i: int) -> bool {
    &&& 0 <= i < regions.len()
    &&& regions[i].kind == MemoryRegionKind::Usable
    &&& regions[i].start % PAGE_SIZE == 0
    &&& regions[i].end % PAGE_SIZE == 0
    &&& regions[i].start <= regions[i].end
    &&& regions[i].end <= 0x8000_0000_0000
}

/// Bit `k` of the word with its low `r` bits clear and the rest set.
proof fn lemma_shl_mask_bit(r: u64, k: u64)
    by (bit_vector)
    requires
        r < 64,
        k < 64,
    ensures
        word_bit(u64::MAX << r, k) == (k >= r),
{
}

/// A run of clear bits counts one free frame each.
proof fn lemma_count_free_all_clear(bits: Seq<bool>, i: int)
    requires
        0 <= i <= bits.len(),
        forall|m: int| 0 <= m < bits.len() ==> !bits[m],
    ensures
        count_free(bits, i) == bits.len() - i,
    decreases bits.len() - i,
{
    if i < bits.len() {
        lemma_count_free_all_clear(bits, i + 1);
    }
}

/// Identity-maps one page through the kernel tables with the empty
/// allocator: its walk path must already exist and the page be unmapped,
/// so no frame is consumed and no table created.
fn map_one_bit_frame(
    page_table: &mut PageTables,
    empty: &mut PhysFrameAllocator,
    kernel_root: u64,
    pn: u64,
)
    requires
        old(page_table).wf(),
        old(page_table).is_root(kernel_root),
        old(empty).wf(),
        old(empty).frame_count() == 0,
        normal_pn(pn),
        pn * PAGE_SIZE < MAX_PHYS_ADDR,
        path_exists(old(page_table).tables@, kernel_root, pn),
        spec_translate(old(page_table).tables@, kernel_root, pn) is None,
    ensures
        final(page_table).wf(),
        final(page_table).is_root(kernel_root),
        *final(empty) == *old(empty),
        spec_translate(final(page_table).tables@, kernel_root, pn) == Some(
            (pn * PAGE_SIZE) as u64,
        ),
        forall|q: u64|
            normal_pn(q) && q != pn ==> #[trigger] spec_translate(
                final(page_table).tables@,
                kernel_root,
                q,
            ) == spec_translate(old(page_table).tables@, kernel_root, q),
        forall|a: u64|
            #[trigger] has_table(final(page_table).tables@, a) == has_table(
                old(page_table).tables@,
                a,
            ),
        forall|a: u64|
            #[trigger] has_table(old(page_table).tables@, a) ==> table_level(
                final(page_table).tables@,
                a,
            ) == table_level(old(page_table).tables@, a),
        forall|t: u64, s: int|
            0 <= s < 512 && present(#[trigger] entry_at(old(page_table).tables@, t, s))
                ==> entry_at(final(page_table).tables@, t, s) == entry_at(
                old(page_table).tables@,
                t,
                s,
            ),
{
    let frame = pn * PAGE_SIZE;
    let flags = PRESENT | WRITABLE;
    proof {
        assert((PRESENT | WRITABLE) & PRESENT == PRESENT) by (bit_vector);
        assert((PRESENT | WRITABLE) & HUGE_PAGE == 0) by (bit_vector);
        assert((PRESENT | WRITABLE) & ADDR_MASK == 0) by (bit_vector);
        lemma_fundamental_div_mod_converse(
            pn as int * PAGE_SIZE as int,
            PAGE_SIZE as int,
            pn as int,
            0,
        );
        assert(empty.bits().len() == 0);
        assert(count_free(empty.bits(), 0) == 0);
        assert forall|j: int|
            0 <= j < page_table.tables@.len() && empty.in_range(
                (#[trigger] page_table.tables@[j]).addr,
            ) implies empty.bits()[empty.index_of(page_table.tables@[j].addr)] by {
            assert(false);
        }
        lemma_path_no_huge(page_table.tables@, kernel_root, pn);
    }
    match page_table.map_to(empty, kernel_root, pn, frame, flags) {
        Ok(()) => {},
        Err(_) => {
            proof {
                assert(false);
            }
        },
    }
}

/// Identity-maps the frames of the bitmap region through the given page
/// tables using an allocator that cannot provide any frame: the boot
/// environment guarantees the intermediate tables already exist.
#[verifier::rlimit(100)]
#[verifier::spinoff_prover]
fn map_bit_frames(
    page_table: &mut PageTables,
    kernel_root: u64,
    bit_map_region: MemoryRegion,
    Ghost(regions): Ghost<Seq<MemoryRegion>>,
    Ghost(bi): Ghost<int>,
)
    requires
        old(page_table).wf(),
        old(page_table).is_root(kernel_root),
        boot_env_wf(regions, old(page_table).tables@, kernel_root),
        region_usable_wf(regions, bi),
        regions[bi].start == bit_map_region.start,
        bit_map_region.end <= regions[bi].end,
        bit_map_region.start <= bit_map_region.end,
        bit_map_region.end % PAGE_SIZE == 0,
        bit_map_region.start % PAGE_SIZE == 0,
    ensures
        final(page_table).wf(),
        final(page_table).is_root(kernel_root),
        forall|a: u64|
            #[trigger] has_table(old(page_table).tables@, a) ==> has_table(
                final(page_table).tables@,
                a,
            ) && table_level(final(page_table).tables@, a) == table_level(
                old(page_table).tables@,
                a,
            ),
        forall|a: u64|
            #[trigger] has_table(final(page_table).tables@, a) ==> has_table(
                old(page_table).tables@,
                a,
            ),
        forall|pn: u64|
            bit_map_region.start <= pn * PAGE_SIZE < bit_map_region.end ==> #[trigger]
            spec_translate(final(page_table).tables@, kernel_root, pn) == Some(
                (pn * PAGE_SIZE) as u64,
            ),
{
    let ghost ts0 = old(page_table).tables@;
    let mut empty = EmptyFrameAllocator::as_bitmap();
    let first_pn = bit_map_region.start / PAGE_SIZE;
    let mut pn = first_pn;
    proof {
        lemma_fundamental_div_mod(bit_map_region.start as int, PAGE_SIZE as int);
    }
    #[verifier::loop_isolation(true)]
    while pn * PAGE_SIZE < bit_map_region.end
        invariant
            page_table.wf(),
            page_table.is_root(kernel_root),
            empty.wf(),
            empty.frame_count() == 0,
            boot_env_wf(regions, ts0, kernel_root),
            region_usable_wf(regions, bi),
            regions[bi].start == bit_map_region.start,
            bit_map_region.end <= regions[bi].end,
            bit_map_region.end % PAGE_SIZE == 0,
            first_pn <= pn,
            first_pn * PAGE_SIZE == bit_map_region.start,
            pn * PAGE_SIZE <= bit_map_region.end,
            forall|a: u64|
                #[trigger] has_table(page_table.tables@, a) == has_table(ts0, a),
            forall|a: u64|
                #[trigger] has_table(ts0, a) ==> table_level(page_table.tables@, a)
                    == table_level(ts0, a),
            forall|t: u64, s: int|
                0 <= s < 512 && present(#[trigger] entry_at(ts0, t, s)) ==> entry_at(
                    page_table.tables@,
                    t,
                    s,
                ) == entry_at(ts0, t, s),
            forall|q: u64|
                normal_pn(q) ==> #[trigger] spec_translate(page_table.tables@, kernel_root, q)
                    == (if first_pn <= q < pn {
                    Some((q * PAGE_SIZE) as u64)
                } else {
                    spec_translate(ts0, kernel_root, q)
                }),
        decreases bit_map_region.end - pn * PAGE_SIZE,
    {
        proof {
            assert(first_pn * PAGE_SIZE <= pn * PAGE_SIZE) by (nonlinear_arith)
                requires
                    first_pn <= pn,
            ;
            assert(region_page(regions[bi], pn));
            assert(normal_pn(pn));
            assert(spec_translate(page_table.tables@, kernel_root, pn) == spec_translate(
                ts0,
                kernel_root,
                pn,
            ));
            lemma_path_exists_preserved(ts0, page_table.tables@, kernel_root, pn);
        }
        let ghost ts_prev = page_table.tables@;
        map_one_bit_frame(page_table, &mut empty, kernel_root, pn);
        proof {
            assert forall|q: u64| normal_pn(q) implies #[trigger] spec_translate(
                page_table.tables@,
                kernel_root,
                q,
            ) == (if first_pn <= q < pn + 1 {
                Some((q * PAGE_SIZE) as u64)
            } else {
                spec_translate(ts0, kernel_root, q)
            }) by {
                if q != pn {
                    assert(spec_translate(page_table.tables@, kernel_root, q) == spec_translate(
                        ts_prev,
                        kernel_root,
                        q,
                    ));
                }
            }
            assert forall|a: u64| #[trigger] has_table(ts0, a) implies table_level(
                page_table.tables@,
                a,
            ) == table_level(ts0, a) by {
                assert(has_table(ts_prev, a));
                assert(table_level(ts_prev, a) == table_level(ts0, a));
            }
            // stepping by one page stays inside the aligned region
            lemma_mod_diff_zero(
                pn as int * PAGE_SIZE as int,
                bit_map_region.end as int,
                PAGE_SIZE as int,
            );
            let diff = bit_map_region.end - pn as int * PAGE_SIZE as int;
            lemma_fundamental_div_mod(diff, PAGE_SIZE as int);
            assert(diff >= PAGE_SIZE) by (nonlinear_arith)
                requires
                    diff == PAGE_SIZE * (diff / PAGE_SIZE as int),
                    diff > 0,
            ;
        }
        pn = pn + 1;
    }
    proof {
        assert forall|q: u64|
            bit_map_region.start <= q * PAGE_SIZE < bit_map_region.end implies #[trigger]
        spec_translate(page_table.tables@, kernel_root, q) == Some((q * PAGE_SIZE) as u64) by {
            assert(first_pn <= q < pn) by {
                if q < first_pn {
                    assert(q * PAGE_SIZE + PAGE_SIZE <= first_pn * PAGE_SIZE) by (nonlinear_arith)
                        requires
                            q < first_pn,
                    ;
                }
                if q >= pn {
                    assert(pn * PAGE_SIZE <= q * PAGE_SIZE) by (nonlinear_arith)
                        requires
                            pn <= q,
                    ;
                }
            }
        }
    }
}

fn lowest_zero_bit(w: u64) -> (r: u64)
    requires
        w != u64::MAX,
    ensures
        r < 64,
        !word_bit(w, r),
        forall|m: u64| m < r ==> word_bit(w, m),
{
    proof {
        assert(w & low_mask(0) == low_mask(0)) by (bit_vector);
    }
    let mut idx: u64 = 0;
    while idx < 64
        invariant
            idx <= 64,
            idx == 64 ==> w == u64::MAX,
            idx < 64 ==> w & low_mask(idx) == low_mask(idx),
        decreases 64 - idx,
    {
        if (w >> idx) & 1 == 0 {
            proof {
                assert forall|m: u64| m < idx implies word_bit(w, m) by {
                    lemma_low_mask_bit(w, idx, m);
                }
            }
            return idx;
        }
        proof {
            if idx < 63 {
                let next = (idx + 1) as u64;
                assert(w & low_mask(next) == low_mask(next)) by (bit_vector)
                    requires
                        idx < 63,
                        next == idx + 1,
                        w & low_mask(idx) == low_mask(idx),
                        (w >> idx) & 1 != 0,
                ;
            } else {
                assert(w == u64::MAX) by (bit_vector)
                    requires
                        idx == 63,
                        w & low_mask(idx) == low_mask(idx),
                        (w >> idx) & 1 != 0,
                ;
            }
        }
        idx = idx + 1;
    }
    proof {
        // every bit set contradicts the precondition
        assert(false);
    }
    0
}

/// Every bit below `k` is set in a word containing the low mask of `k`.
proof fn lemma_low_mask_bit(w: u64, k: u64, m: u64)
    by (bit_vector)
    requires
        k < 64,
        m < k,
        w & low_mask(k) == low_mask(k),
    ensures
        word_bit(w, m),
{
}

/// Setting bit `k` makes it one and leaves every other bit as it was.
pub proof fn lemma_set_bit(w: u64, k: u64, m: u64)
    by (bit_vector)
    requires
        k < 64,
        m < 64,
    ensures
        word_bit(w | (1u64 << k), m) == (m == k || word_bit(w, m)),
{
}

/// Clearing bit `k` makes it zero and leaves every other bit as it was.
pub proof fn lemma_clear_bit(w: u64, k: u64, m: u64)
    by (bit_vector)
    requires
        k < 64,
        m < 64,
    ensures
        word_bit(w & !(1u64 << k), m) == (m != k && word_bit(w, m)),
{
}

/// Word and bit offset of a bit index: the division facts.
proof fn lemma_word_of_index(i: int)
    requires
        0 <= i,
    ensures
        0 <= i % 64 < 64,
        i == 64 * (i / 64) + i % 64,
        0 <= i / 64,
{
    lemma_fundamental_div_mod(i, 64);
    lemma_mod_bound(i, 64);
}

/// Bit `64 * w + k` lies in word `w` at offset `k`.
proof fn lemma_word_split(w: int, k: int)
    requires
        0 <= w,
        0 <= k < 64,
    ensures
        (64 * w + k) / 64 == w,
        (64 * w + k) % 64 == k,
{
    lemma_fundamental_div_mod_converse(64 * w + k, 64, w, k);
}

/// A bit index inside word `w`'s range has word `w` and its offset.
proof fn lemma_word_range(w: int, m: int)
    requires
        0 <= w,
        64 * w <= m < 64 * w + 64,
    ensures
        m / 64 == w,
        m % 64 == m - 64 * w,
{
    lemma_fundamental_div_mod_converse(m, 64, w, m - 64 * w);
}

/// Two addresses with equal remainders differ by a multiple: their
/// difference has remainder zero.
proof fn lemma_mod_diff_zero(a: int, b: int, d: int)
    requires
        0 < d,
        0 <= a <= b,
        a % d == 0,
        b % d == 0,
    ensures
        (b - a) % d == 0,
{
    lemma_fundamental_div_mod(a, d);
    lemma_fundamental_div_mod(b, d);
    assert(b - a == d * (b / d) + 0 - (d * (a / d) + 0));
    assert(b - a == d * (b / d - a / d)) by (nonlinear_arith)
        requires
            b - a == d * (b / d) - d * (a / d),
    ;
    lemma_fundamental_div_mod_converse(b - a, d, b / d - a / d, 0);
}

/// Stepping one page forward from an in-region page start stays at or
/// below the aligned region end.
pub proof fn lemma_region_step(pn: int, end: int)
    requires
        0 <= pn,
        pn * PAGE_SIZE < end,
        end % PAGE_SIZE as int == 0,
    ensures
        (pn + 1) * PAGE_SIZE <= end,
{
    lemma_fundamental_div_mod_converse(pn * PAGE_SIZE as int, PAGE_SIZE as int, pn, 0);
    lemma_mod_diff_zero(pn * PAGE_SIZE as int, end, PAGE_SIZE as int);
    let diff = end - pn * PAGE_SIZE as int;
    lemma_fundamental_div_mod(diff, PAGE_SIZE as int);
    assert(diff >= PAGE_SIZE) by (nonlinear_arith)
        requires
            diff == PAGE_SIZE * (diff / PAGE_SIZE as int),
            diff > 0,
    ;
}

/// An in-range frame address indexes a bit of the map.
pub proof fn lemma_index_in_count(fa: PhysFrameAllocator, addr: u64)
    requires
        fa.wf(),
        fa.in_range(addr),
    ensures
        0 <= fa.index_of(addr) < fa.frame_count(),
{
    fa.lemma_region_size();
    lemma_fundamental_div_mod(
        (addr - fa.usable_memory_region.start) as int,
        PAGE_SIZE as int,
    );
}

/// The sum of two multiples of `d` is a multiple of `d`.
pub proof fn lemma_mod_sum_zero(a: int, b: int, d: int)
    requires
        0 < d,
        0 <= a,
        0 <= b,
        a % d == 0,
        b % d == 0,
    ensures
        (a + b) % d == 0,
{
    lemma_fundamental_div_mod(a, d);
    lemma_fundamental_div_mod(b, d);
    assert(a + b == d * (a / d + b / d)) by (nonlinear_arith)
        requires
            a + b == d * (a / d) + d * (b / d),
    ;
    lemma_fundamental_div_mod_converse(a + b, d, a / d + b / d, 0);
}

/// After changing one word of the bitmap, every bit off the changed
/// position keeps its value.
proof fn lemma_bit_update_at(words: Seq<u64>, nwords: Seq<u64>, wi: int, k: u64, i: int)
    requires
        0 <= wi < words.len(),
        k < 64,
        nwords.len() == words.len(),
        forall|q: int| 0 <= q < words.len() && q != wi ==> nwords[q] == words[q],
        forall|m: u64| m < 64 && m != k ==> word_bit(nwords[wi], m) == word_bit(words[wi], m),
        0 <= i < words.len() * 64,
        i != wi * 64 + k,
    ensures
        bit_at(nwords, i) == bit_at(words, i),
{
    lemma_word_of_index(i);
    let q = i / 64;
    let r = i % 64;
    assert(q < words.len());
    if q == wi {
        assert(i == 64 * wi + r);
        assert(r != k);
    }
}

/// A clear bit below which everything is set is the lowest free index.
pub proof fn lemma_lowest_free_is(bits: Seq<bool>, i: int, j: int)
    requires
        0 <= i <= j < bits.len(),
        !bits[j],
        forall|m: int| i <= m < j ==> bits[m],
    ensures
        lowest_free(bits, i) == Some(j),
    decreases j - i,
{
    if i < j {
        lemma_lowest_free_is(bits, i + 1, j);
    }
}

/// With every bit set there is no free index.
pub proof fn lemma_lowest_free_none(bits: Seq<bool>)
    requires
        forall|m: int| 0 <= m < bits.len() ==> bits[m],
    ensures
        lowest_free(bits, 0) == None::<int>,
{
    lemma_lowest_free_none_from(bits, 0);
}

proof fn lemma_lowest_free_none_from(bits: Seq<bool>, i: int)
    requires
        0 <= i,
        forall|m: int| i <= m < bits.len() ==> bits[m],
    ensures
        lowest_free(bits, i) == None::<int>,
    decreases bits.len() - i,
{
    if i < bits.len() {
        lemma_lowest_free_none_from(bits, i + 1);
    }
}

/// One allocation step over an allocation state: the lowest free bit and
/// the state after setting it, or nothing when every frame is taken.
pub open spec fn spec_alloc(bits: Seq<bool>) -> Option<(int, Seq<bool>)> {
    match lowest_free(bits, 0) {
        Some(j) => Some((j, bits.update(j, true))),
        None => None,
    }
}

/// The indices handed out by `k` successive allocations and the state
/// they leave behind; a failing allocation stops the sequence.
pub open spec fn spec_alloc_n(bits: Seq<bool>, k: nat) -> (Seq<int>, Seq<bool>)
    decreases k,
{
    if k == 0 {
        (Seq::<int>::empty(), bits)
    } else {
        match spec_alloc(bits) {
            Some((j, b1)) => {
                let rest = spec_alloc_n(b1, (k - 1) as nat);
                (seq![j] + rest.0, rest.1)
            },
            None => (Seq::<int>::empty(), bits),
        }
    }
}

/// Deallocating the allocated indices `js` in reverse order: the first
/// allocation is undone last.
pub open spec fn spec_dealloc_rev(bits: Seq<bool>, js: Seq<int>) -> Seq<bool>
    decreases js.len(),
{
    if js.len() == 0 {
        bits
    } else {
        spec_dealloc_rev(bits, js.drop_first()).update(js[0], false)
    }
}

/// What a found free index means: it is in range, clear, and everything
/// below it is set.
pub proof fn lemma_lowest_free_props(bits: Seq<bool>, i: int, j: int)
    requires
        0 <= i,
        lowest_free(bits, i) == Some(j),
    ensures
        i <= j < bits.len(),
        !bits[j],
        forall|m: int| i <= m < j ==> bits[m],
    decreases bits.len() - i,
{
    if i < bits.len() && bits[i] {
        lemma_lowest_free_props(bits, i + 1, j);
    }
}

/// A free index exists exactly when the free count is positive.
proof fn lemma_lowest_free_count(bits: Seq<bool>, i: int)
    requires
        0 <= i,
    ensures
        lowest_free(bits, i) is Some <==> count_free(bits, i) > 0,
    decreases bits.len() - i,
{
    if i < bits.len() {
        lemma_lowest_free_count(bits, i + 1);
        lemma_count_free_bounds(bits, i + 1);
    }
}

/// Two states equal from `i` on have the same free count from `i` on.
proof fn lemma_count_free_congruence(b1: Seq<bool>, b2: Seq<bool>, i: int)
    requires
        b1.len() == b2.len(),
        forall|m: int| i <= m < b1.len() ==> b1[m] == b2[m],
    ensures
        count_free(b1, i) == count_free(b2, i),
    decreases b1.len() - i,
{
    if 0 <= i < b1.len() {
        lemma_count_free_congruence(b1, b2, i + 1);
    }
}

/// Marking a clear bit as taken lowers the free count by one.
proof fn lemma_count_free_update_true(bits: Seq<bool>, j: int, i: int)
    requires
        0 <= i <= j < bits.len(),
        !bits[j],
    ensures
        count_free(bits.update(j, true), i) == count_free(bits, i) - 1,
    decreases bits.len() - i,
{
    if i == j {
        lemma_count_free_congruence(bits.update(j, true), bits, i + 1);
    } else {
        lemma_count_free_update_true(bits, j, i + 1);
    }
}

/// Round trip: allocating `k` frames and then returning them in reverse
/// order restores the allocation state exactly, so the next `k`
/// allocations hand out the same frames again.
pub proof fn lemma_fa_round_trip(bits: Seq<bool>, k: nat)
    requires
        k <= count_free(bits, 0),
    ensures
        spec_dealloc_rev(spec_alloc_n(bits, k).1, spec_alloc_n(bits, k).0) == bits,
        spec_alloc_n(spec_dealloc_rev(spec_alloc_n(bits, k).1, spec_alloc_n(bits, k).0), k).0
            == spec_alloc_n(bits, k).0,
    decreases k,
{
    if k > 0 {
        lemma_lowest_free_count(bits, 0);
        let j = lowest_free(bits, 0)->Some_0;
        lemma_lowest_free_props(bits, 0, j);
        let b1 = bits.update(j, true);
        lemma_count_free_update_true(bits, j, 0);
        lemma_fa_round_trip(b1, (k - 1) as nat);
        let rest = spec_alloc_n(b1, (k - 1) as nat);
        let js = seq![j] + rest.0;
        assert(js.drop_first() =~= rest.0);
        assert(spec_dealloc_rev(rest.1, js) == b1.update(j, false));
        assert(b1.update(j, false) =~= bits);
    }
}

/// Distinctness: two consecutive allocations return distinct frames.
pub proof fn lemma_fa_distinct(bits: Seq<bool>, j1: int, j2: int)
    requires
        lowest_free(bits, 0) == Some(j1),
        lowest_free(bits.update(j1, true), 0) == Some(j2),
    ensures
        j1 != j2,
{
    lemma_lowest_free_props(bits, 0, j1);
    lemma_lowest_free_props(bits.update(j1, true), 0, j2);
}

/// Exhaustion: with `k` free frames, `k` allocations all succeed and the
/// next one returns nothing.
pub proof fn lemma_fa_exhaustion(bits: Seq<bool>, k: nat)
    requires
        count_free(bits, 0) == k,
    ensures
        spec_alloc_n(bits, k).0.len() == k,
        spec_alloc(spec_alloc_n(bits, k).1) is None,
    decreases k,
{
    lemma_lowest_free_count(bits, 0);
    if k > 0 {
        let j = lowest_free(bits, 0)->Some_0;
        lemma_lowest_free_props(bits, 0, j);
        lemma_count_free_update_true(bits, j, 0);
        lemma_fa_exhaustion(bits.update(j, true), (k - 1) as nat);
    } else {
        lemma_lowest_free_count(spec_alloc_n(bits, k).1, 0);
    }
}

/// The free count never exceeds the number of bits remaining.
pub proof fn lemma_count_free_bounds(bits: Seq<bool>, i: int)
    requires
        0 <= i <= bits.len(),
    ensures
        0 <= count_free(bits, i) <= bits.len() - i,
    decreases bits.len() - i,
{
    if i < bits.len() {
        lemma_count_free_bounds(bits, i + 1);
    }
}

} // verus!
