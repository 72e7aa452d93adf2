//! Per-task address spaces: non-overlapping mapped regions, the page-table
//! entries that back them, and the frame allocator handing out the physical
//! pages.
//!
//! The page table is modelled as an explicit vector of `vpn -> ppn` entries
//! and the frame store as a bump allocator over a fixed pool; recycling of
//! released frames belongs to the allocator's internal free list, an external
//! collaborator that this core never redesigns.

use vstd::arithmetic::div_mod::lemma_div_is_ordered;
use vstd::prelude::*;

verus! {

/// Bytes per page; addresses are split into a page number and an offset.
pub const PAGE_SIZE: usize = 4096;

/// Permission bit: readable.
pub const PERM_R: u8 = 1;

/// Permission bit: writable.
pub const PERM_W: u8 = 2;

/// Permission bit: executable.
pub const PERM_X: u8 = 4;

/// Permission bit: accessible from user mode; always set on `mmap`ed areas.
pub const PERM_U: u8 = 8;

/// A contiguous, permission-tagged range of mapped pages,
/// `[start_vpn, end_vpn)`.
#[derive(Clone, Copy, Debug)]
pub struct AddressArea {
    pub start_vpn: usize,
    pub end_vpn: usize,
    pub perm: u8,
}

/// One page-table entry: virtual page `vpn` is backed by physical frame
/// `ppn`.
#[derive(Clone, Copy, Debug)]
pub struct PtEntry {
    pub vpn: usize,
    pub ppn: usize,
}

/// Bump allocator over a pool of `num_frames` physical frames; frames
/// `0 .. next_ppn` have been handed out.
pub struct FrameAllocator {
    pub next_ppn: usize,
    pub num_frames: usize,
}

/// Page `vpn` lies inside area `a`.
pub open spec fn area_contains(a: AddressArea, vpn: int) -> bool {
    a.start_vpn <= vpn < a.end_vpn
}

/// Two areas share no page.
pub open spec fn areas_disjoint(a: AddressArea, b: AddressArea) -> bool {
    a.end_vpn <= b.start_vpn || b.end_vpn <= a.start_vpn
}

/// A task's set of mapped regions and the page-table entries backing them.
pub struct AddressSpace {
    pub areas: Vec<AddressArea>,
    pub page_table: Vec<PtEntry>,
}

impl FrameAllocator {
    pub open spec fn wf(self) -> bool {
        self.next_ppn <= self.num_frames
    }

    pub fn new(num_frames: usize) -> (r: FrameAllocator)
        ensures
            r.wf(),
            r.next_ppn == 0,
            r.num_frames == num_frames,
    {
        FrameAllocator { next_ppn: 0, num_frames }
    }

    /// Hand out the next fresh frame.
    pub fn take_frame(&mut self) -> (ppn: usize)
        requires
            old(self).next_ppn < old(self).num_frames,
        ensures
            ppn == old(self).next_ppn,
            final(self).next_ppn == old(self).next_ppn + 1,
            final(self).num_frames == old(self).num_frames,
    {
        let ppn = self.next_ppn;
        self.next_ppn = self.next_ppn + 1;
        ppn
    }
}

/// The page holding address `addr`.
pub open spec fn page_of(addr: int) -> int {
    addr / (PAGE_SIZE as int)
}

/// One past the last page touched by the byte range `[start, start + len)`;
/// meaningful for `len >= 1`.
pub open spec fn end_page_of(start: int, len: int) -> int {
    (start + len - 1) / (PAGE_SIZE as int) + 1
}

/// A non-empty `mmap` request is granted exactly when the start is
/// page-aligned, the permission mask is a non-empty subset of
/// read/write/execute, the byte range stays in the address width, no page of
/// the range is already mapped, and enough frames remain.
pub open spec fn mmap_ok(
    s: AddressSpace,
    a: FrameAllocator,
    start: usize,
    len: usize,
    port: usize,
) -> bool {
    &&& start % PAGE_SIZE == 0
    &&& 1 <= port <= 7
    &&& start + len <= usize::MAX
    &&& forall|v: int|
        page_of(start as int) <= v < end_page_of(start as int, len as int) ==> !s.is_mapped(v)
    &&& a.next_ppn + end_page_of(start as int, len as int) - page_of(start as int)
        <= a.num_frames
}

/// A non-empty `munmap` request is granted exactly when the start is
/// page-aligned, the byte range stays in the address width, and every page
/// of the range is currently mapped.
pub open spec fn munmap_ok(s: AddressSpace, start: usize, len: usize) -> bool {
    &&& start % PAGE_SIZE == 0
    &&& start + len <= usize::MAX
    &&& forall|v: int|
        page_of(start as int) <= v < end_page_of(start as int, len as int) ==> s.is_mapped(v)
}

/// Every frame named by the page table was handed out by this allocator.
pub open spec fn frames_wf(s: AddressSpace, a: FrameAllocator) -> bool {
    &&& a.wf()
    &&& forall|i: int|
        0 <= i < s.page_table@.len() ==> (#[trigger] s.page_table@[i]).ppn < a.next_ppn
}

/// Page `vpn` lies inside some area of `areas`.
pub open spec fn seq_is_mapped(areas: Seq<AddressArea>, vpn: int) -> bool {
    exists|i: int| 0 <= i < areas.len() && area_contains(#[trigger] areas[i], vpn)
}

/// `pt` holds an entry for `vpn`.
pub open spec fn seq_pt_has(pt: Seq<PtEntry>, vpn: int) -> bool {
    exists|i: int| 0 <= i < pt.len() && (#[trigger] pt[i]).vpn == vpn
}

/// Index of the entry for `vpn`; meaningful when `seq_pt_has` holds, and
/// then unique under `pt_unique`.
pub open spec fn seq_pt_index(pt: Seq<PtEntry>, vpn: int) -> int {
    choose|i: int| 0 <= i < pt.len() && (#[trigger] pt[i]).vpn == vpn
}

/// Areas are non-empty and pairwise disjoint.
pub open spec fn seq_areas_wf(areas: Seq<AddressArea>) -> bool {
    &&& forall|i: int|
        0 <= i < areas.len() ==> (#[trigger] areas[i]).start_vpn < areas[i].end_vpn
    &&& forall|i: int, j: int|
        0 <= i < j < areas.len() ==> areas_disjoint(#[trigger] areas[i], #[trigger] areas[j])
}

/// No two page-table entries share a page or a frame.
pub open spec fn seq_pt_unique(pt: Seq<PtEntry>) -> bool {
    &&& forall|i: int, j: int|
        0 <= i < j < pt.len() ==> (#[trigger] pt[i]).vpn != (#[trigger] pt[j]).vpn
    &&& forall|i: int, j: int|
        0 <= i < j < pt.len() ==> (#[trigger] pt[i]).ppn != (#[trigger] pt[j]).ppn
}

/// The page table is keyed by exactly the mapped pages.
pub open spec fn seq_pt_matches(areas: Seq<AddressArea>, pt: Seq<PtEntry>) -> bool {
    &&& forall|i: int|
        0 <= i < pt.len() ==> seq_is_mapped(areas, (#[trigger] pt[i]).vpn as int)
    &&& forall|v: int| #[trigger] seq_is_mapped(areas, v) ==> seq_pt_has(pt, v)
}

impl AddressSpace {
    /// Page `vpn` lies inside some mapped region.
    pub open spec fn is_mapped(self, vpn: int) -> bool {
        seq_is_mapped(self.areas@, vpn)
    }

    /// The page table holds an entry for `vpn`.
    pub open spec fn pt_has(self, vpn: int) -> bool {
        seq_pt_has(self.page_table@, vpn)
    }

    /// Index of the entry for `vpn`; meaningful when `pt_has(vpn)` holds,
    /// and then unique by well-formedness.
    pub open spec fn pt_index(self, vpn: int) -> int {
        seq_pt_index(self.page_table@, vpn)
    }

    /// The frame backing `vpn`; meaningful when `pt_has(vpn)` holds.
    pub open spec fn ppn_of(self, vpn: int) -> int {
        self.page_table@[self.pt_index(vpn)].ppn as int
    }

    /// Physical address of virtual address `addr`; meaningful when the page
    /// of `addr` is mapped.
    pub open spec fn pa_of(self, addr: int) -> int {
        self.ppn_of(addr / (PAGE_SIZE as int)) * (PAGE_SIZE as int) + addr % (PAGE_SIZE as int)
    }

    /// Regions are non-empty and pairwise disjoint.
    pub open spec fn areas_wf(self) -> bool {
        seq_areas_wf(self.areas@)
    }

    /// No two page-table entries share a page or a frame.
    pub open spec fn pt_unique(self) -> bool {
        seq_pt_unique(self.page_table@)
    }

    /// The page table is keyed by exactly the mapped pages.
    pub open spec fn pt_matches_areas(self) -> bool {
        seq_pt_matches(self.areas@, self.page_table@)
    }

    /// Invariant: regions are non-empty and pairwise disjoint, the page
    /// table is keyed by exactly the mapped pages, and no two entries share
    /// a frame.
    pub open spec fn wf(self) -> bool {
        &&& self.areas_wf()
        &&& self.pt_unique()
        &&& self.pt_matches_areas()
    }

    /// An entry for `v` at index `i` pins down `pt_index` and `ppn_of`.
    pub proof fn lemma_entry_determines_ppn(self, i: int, v: int)
        requires
            self.pt_unique(),
            0 <= i < self.page_table@.len(),
            self.page_table@[i].vpn == v,
        ensures
            self.pt_has(v),
            self.pt_index(v) == i,
            self.ppn_of(v) == self.page_table@[i].ppn,
    {
        assert(self.pt_has(v));
        let j = self.pt_index(v);
        assert(0 <= j < self.page_table@.len() && self.page_table@[j].vpn == v);
    }

    /// A fresh address space with no mappings.
    pub fn new() -> (r: AddressSpace)
        ensures
            r.wf(),
            r.areas@.len() == 0,
            r.page_table@.len() == 0,
    {
        AddressSpace { areas: Vec::new(), page_table: Vec::new() }
    }

    /// Look up the frame backing `vpn`, as the hardware page-table walk
    /// would.
    pub fn translate(&self, vpn: usize) -> (r: Option<usize>)
        requires
            self.wf(),
        ensures
            r is Some <==> self.is_mapped(vpn as int),
            r matches Some(p) ==> p == self.ppn_of(vpn as int),
    {
        let n = self.page_table.len();
        let mut i: usize = 0;
        while i < n
            invariant
                self.wf(),
                n == self.page_table@.len(),
                i <= n,
                forall|k: int| 0 <= k < i ==> (#[trigger] self.page_table@[k]).vpn != vpn,
            decreases n - i,
        {
            if self.page_table[i].vpn == vpn {
                proof {
                    let j = self.pt_index(vpn as int);
                    assert(0 <= j < self.page_table@.len() && self.page_table@[j].vpn == vpn);
                    assert(j == i);
                }
                return Some(self.page_table[i].ppn);
            }
            i = i + 1;
        }
        proof {
            assert(!self.pt_has(vpn as int));
        }
        None
    }

    /// True when every page in `[start_vpn, end_vpn)` is mapped.
    pub fn range_mapped(&self, start_vpn: usize, end_vpn: usize) -> (r: bool)
        requires
            self.wf(),
        ensures
            r <==> forall|v: int| start_vpn <= v < end_vpn ==> self.is_mapped(v),
    {
        let mut v = start_vpn;
        while v < end_vpn
            invariant
                self.wf(),
                start_vpn <= v,
                end_vpn > start_vpn ==> v <= end_vpn,
                forall|u: int| start_vpn <= u < v ==> self.is_mapped(u),
            decreases end_vpn - v,
        {
            if self.translate(v).is_none() {
                return false;
            }
            v = v + 1;
        }
        true
    }

    /// True when no page in `[start_vpn, end_vpn)` is mapped.
    pub fn range_unmapped(&self, start_vpn: usize, end_vpn: usize) -> (r: bool)
        requires
            self.wf(),
        ensures
            r <==> forall|v: int| start_vpn <= v < end_vpn ==> !self.is_mapped(v),
    {
        let mut v = start_vpn;
        while v < end_vpn
            invariant
                self.wf(),
                start_vpn <= v,
                end_vpn > start_vpn ==> v <= end_vpn,
                forall|u: int| start_vpn <= u < v ==> !self.is_mapped(u),
            decreases end_vpn - v,
        {
            if self.translate(v).is_some() {
                return false;
            }
            v = v + 1;
        }
        true
    }

    /// Service an `mmap` request: validate everything first, then commit one
    /// new area over the full page range with the user bit added to the
    /// requested permissions, backing every page with a fresh frame.  A
    /// zero-length request succeeds without any effect, whatever `start` and
    /// `port` hold; any rejected request leaves the space and the allocator
    /// untouched.
    pub fn mmap(
        &mut self,
        falloc: &mut FrameAllocator,
        start: usize,
        len: usize,
        port: usize,
    ) -> (r: isize)
        requires
            old(self).wf(),
            frames_wf(*old(self), *old(falloc)),
        ensures
            final(self).wf(),
            frames_wf(*final(self), *final(falloc)),
            r == 0 || r == -1,
            len == 0 ==> r == 0,
            len > 0 ==> (r == 0 <==> mmap_ok(*old(self), *old(falloc), start, len, port)),
            r == -1 || len == 0 ==> *final(self) == *old(self) && *final(falloc) == *old(
                falloc,
            ),
            r == 0 && len > 0 ==> ({
                let svpn = page_of(start as int);
                let evpn = end_page_of(start as int, len as int);
                let npages = evpn - svpn;
                &&& final(self).areas@ == old(self).areas@.push(
                    (AddressArea {
                        start_vpn: svpn as usize,
                        end_vpn: evpn as usize,
                        perm: (port + PERM_U) as u8,
                    }),
                )
                &&& forall|v: int|
                    final(self).is_mapped(v) <==> old(self).is_mapped(v) || svpn <= v < evpn
                &&& final(self).page_table@.len() == old(self).page_table@.len() + npages
                &&& forall|k: int|
                    0 <= k < old(self).page_table@.len() ==> final(self).page_table@[k] == old(
                        self,
                    ).page_table@[k]
                &&& forall|k: int|
                    0 <= k < npages ==> #[trigger] final(self).page_table@[old(self).page_table@.len()
                        + k] == (PtEntry {
                        vpn: (svpn + k) as usize,
                        ppn: (old(falloc).next_ppn + k) as usize,
                    })
                &&& final(falloc).next_ppn == old(falloc).next_ppn + npages
                &&& final(falloc).num_frames == old(falloc).num_frames
            }),
    {
        if len == 0 {
            return 0;
        }
        if start % PAGE_SIZE != 0 {
            return -1;
        }
        if port == 0 || port > 7 {
            return -1;
        }
        if len > usize::MAX - start {
            return -1;
        }
        let svpn = start / PAGE_SIZE;
        let evpn = (start + len - 1) / PAGE_SIZE + 1;
        proof {
            lemma_div_is_ordered(start as int, (start + len - 1) as int, PAGE_SIZE as int);
        }
        if !self.range_unmapped(svpn, evpn) {
            return -1;
        }
        let npages = evpn - svpn;
        if npages > falloc.num_frames - falloc.next_ppn {
            return -1;
        }
        let ghost orig = *self;
        let ghost orig_alloc = *falloc;
        let ghost new_area = AddressArea {
            start_vpn: svpn,
            end_vpn: evpn,
            perm: (port + PERM_U as usize) as u8,
        };
        // port <= 7, so adding PERM_U (bit 3) is the same as setting that bit.
        self.areas.push(
            AddressArea { start_vpn: svpn, end_vpn: evpn, perm: port as u8 + PERM_U },
        );
        let ghost base = falloc.next_ppn as int;
        let mut k: usize = 0;
        while k < npages
            invariant
                k <= npages,
                svpn + npages == evpn,
                evpn <= usize::MAX,
                self.areas@ == orig.areas@.push(new_area),
                self.page_table@.len() == orig.page_table@.len() + k,
                forall|t: int|
                    0 <= t < orig.page_table@.len() ==> self.page_table@[t] == orig.page_table@[t],
                forall|t: int|
                    0 <= t < k ==> #[trigger] self.page_table@[orig.page_table@.len() + t]
                        == (PtEntry {
                        vpn: (svpn + t) as usize,
                        ppn: (base + t) as usize,
                    }),
                falloc.next_ppn == base + k,
                falloc.num_frames == orig_alloc.num_frames,
                base + npages <= falloc.num_frames,
            decreases npages - k,
        {
            let ppn = falloc.take_frame();
            self.page_table.push(PtEntry { vpn: svpn + k, ppn });
            k = k + 1;
        }
        proof {
            self.lemma_mmap_commit(orig, orig_alloc, svpn as int, evpn as int, new_area);
        }
        0
    }

    /// After the commit phase of `mmap`, the space is well formed again and
    /// the mapped set grew by exactly the new range.
    proof fn lemma_mmap_commit(
        self,
        orig: AddressSpace,
        orig_alloc: FrameAllocator,
        svpn: int,
        evpn: int,
        new_area: AddressArea,
    )
        requires
            orig.wf(),
            frames_wf(orig, orig_alloc),
            0 <= svpn < evpn,
            evpn <= usize::MAX,
            orig_alloc.next_ppn + (evpn - svpn) <= usize::MAX,
            new_area.start_vpn == svpn,
            new_area.end_vpn == evpn,
            forall|v: int| svpn <= v < evpn ==> !orig.is_mapped(v),
            self.areas@ == orig.areas@.push(new_area),
            self.page_table@.len() == orig.page_table@.len() + evpn - svpn,
            forall|t: int|
                0 <= t < orig.page_table@.len() ==> self.page_table@[t] == orig.page_table@[t],
            forall|t: int|
                0 <= t < evpn - svpn ==> #[trigger] self.page_table@[orig.page_table@.len()
                    + t] == (PtEntry {
                    vpn: (svpn + t) as usize,
                    ppn: (orig_alloc.next_ppn + t) as usize,
                }),
        ensures
            self.wf(),
            forall|v: int| self.is_mapped(v) <==> orig.is_mapped(v) || svpn <= v < evpn,
            forall|i: int|
                0 <= i < self.page_table@.len() ==> (#[trigger] self.page_table@[i]).ppn
                    < orig_alloc.next_ppn + (evpn - svpn),
    {
        let on = orig.page_table@.len() as int;
        // Normalise the description of the appended entries.
        assert forall|t: int| on <= t < self.page_table@.len() implies (
        #[trigger] self.page_table@[t]) == (PtEntry {
            vpn: (svpn + (t - on)) as usize,
            ppn: (orig_alloc.next_ppn + (t - on)) as usize,
        }) by {
            assert(self.page_table@[on + (t - on)] == (PtEntry {
                vpn: (svpn + (t - on)) as usize,
                ppn: (orig_alloc.next_ppn + (t - on)) as usize,
            }));
        }
        // The mapped set is the old one plus the new range.
        assert forall|v: int| self.is_mapped(v) <==> orig.is_mapped(v) || svpn <= v < evpn by {
            if orig.is_mapped(v) {
                let i = choose|i: int|
                    0 <= i < orig.areas@.len() && area_contains(orig.areas@[i], v);
                assert(area_contains(self.areas@[i], v));
            }
            if svpn <= v < evpn {
                assert(area_contains(self.areas@[orig.areas@.len() as int], v));
            }
            if self.is_mapped(v) {
                let i = choose|i: int|
                    0 <= i < self.areas@.len() && area_contains(self.areas@[i], v);
                if i < orig.areas@.len() {
                    assert(area_contains(orig.areas@[i], v));
                }
            }
        }
        // Old page-table entries keep vpns outside the new range.
        assert forall|t: int| 0 <= t < on implies !(svpn <= (#[trigger] self.page_table@[t]).vpn
            < evpn) by {
            assert(orig.is_mapped(orig.page_table@[t].vpn as int));
        }
        // New areas stay pairwise disjoint: the fresh one overlaps no old
        // one, else some page of the new range were already mapped.
        assert forall|i: int, j: int| 0 <= i < j < self.areas@.len() implies areas_disjoint(
            #[trigger] self.areas@[i],
            #[trigger] self.areas@[j],
        ) by {
            if j == orig.areas@.len() as int {
                let a = orig.areas@[i];
                if !(a.end_vpn <= svpn || evpn <= a.start_vpn) {
                    let w: int = if a.start_vpn > svpn {
                        a.start_vpn as int
                    } else {
                        svpn
                    };
                    assert(area_contains(a, w));
                    assert(orig.is_mapped(w));
                }
            }
        }
        // The page table is keyed by exactly the mapped pages.
        assert forall|t: int| 0 <= t < self.page_table@.len() implies seq_is_mapped(
            self.areas@,
            (#[trigger] self.page_table@[t]).vpn as int,
        ) by {
            if t < on {
                assert(orig.is_mapped(orig.page_table@[t].vpn as int));
                assert(self.is_mapped(self.page_table@[t].vpn as int));
            } else {
                assert(svpn <= (self.page_table@[t].vpn as int) < evpn);
                assert(self.is_mapped(self.page_table@[t].vpn as int));
            }
        }
        assert forall|v: int| #[trigger] seq_is_mapped(self.areas@, v) implies seq_pt_has(
            self.page_table@,
            v,
        ) by {
            assert(self.is_mapped(v));
            if orig.is_mapped(v) {
                assert(orig.pt_has(v));
                let i = choose|i: int|
                    0 <= i < orig.page_table@.len() && orig.page_table@[i].vpn == v;
                assert(self.page_table@[i].vpn == v);
            } else {
                assert(svpn <= v < evpn);
                assert(self.page_table@[on + (v - svpn)].vpn == v);
            }
            assert(self.pt_has(v));
        }
    }

    /// Service a `munmap` request: validate everything first, then release
    /// every page of the range, shrinking or splitting the owning areas.  A
    /// zero-length request succeeds without any effect, whatever `start`
    /// holds; a rejected request leaves the space untouched.
    pub fn munmap(&mut self, start: usize, len: usize) -> (r: isize)
        requires
            old(self).wf(),
        ensures
            final(self).wf(),
            r == 0 || r == -1,
            len == 0 ==> r == 0,
            len > 0 ==> (r == 0 <==> munmap_ok(*old(self), start, len)),
            r == -1 || len == 0 ==> *final(self) == *old(self),
            r == 0 && len > 0 ==> ({
                let svpn = page_of(start as int);
                let evpn = end_page_of(start as int, len as int);
                &&& forall|v: int|
                    final(self).is_mapped(v) <==> old(self).is_mapped(v) && !(svpn <= v < evpn)
                &&& forall|v: int|
                    !(svpn <= v < evpn) ==> (final(self).pt_has(v) <==> old(self).pt_has(v))
                &&& forall|v: int|
                    !(svpn <= v < evpn) && old(self).pt_has(v) ==> final(self).ppn_of(v) == old(
                        self,
                    ).ppn_of(v)
                &&& forall|i: int|
                    0 <= i < final(self).page_table@.len() ==> old(self).page_table@.contains(
                        #[trigger] final(self).page_table@[i],
                    )
            }),
    {
        if len == 0 {
            return 0;
        }
        if start % PAGE_SIZE != 0 {
            return -1;
        }
        if len > usize::MAX - start {
            return -1;
        }
        let svpn = start / PAGE_SIZE;
        let evpn = (start + len - 1) / PAGE_SIZE + 1;
        proof {
            lemma_div_is_ordered(start as int, (start + len - 1) as int, PAGE_SIZE as int);
        }
        if !self.range_mapped(svpn, evpn) {
            return -1;
        }
        let ghost orig = *self;
        let mut v = svpn;
        while v < evpn
            invariant
                svpn <= v <= evpn,
                self.wf(),
                forall|u: int| svpn <= u < evpn ==> orig.is_mapped(u),
                forall|u: int| self.is_mapped(u) <==> orig.is_mapped(u) && !(svpn <= u < v),
                forall|u: int| !(svpn <= u < v) ==> (self.pt_has(u) <==> orig.pt_has(u)),
                forall|u: int|
                    !(svpn <= u < v) && orig.pt_has(u) ==> self.ppn_of(u) == orig.ppn_of(u),
                forall|i: int|
                    0 <= i < self.page_table@.len() ==> orig.page_table@.contains(
                        #[trigger] self.page_table@[i],
                    ),
            decreases evpn - v,
        {
            let ghost prev = *self;
            proof {
                assert(orig.is_mapped(v as int));
                assert(self.is_mapped(v as int));
            }
            self.unmap_page(v);
            proof {
                assert forall|i: int| 0 <= i < self.page_table@.len() implies
                    orig.page_table@.contains(#[trigger] self.page_table@[i]) by {
                    assert(prev.page_table@.contains(self.page_table@[i]));
                    let j = choose|j: int|
                        0 <= j < prev.page_table@.len() && prev.page_table@[j]
                            == self.page_table@[i];
                    assert(orig.page_table@.contains(prev.page_table@[j]));
                }
            }
            v = v + 1;
        }
        0
    }

    /// Index of the page-table entry for `vpn`.
    fn pt_index_of(&self, vpn: usize) -> (r: usize)
        requires
            self.pt_unique(),
            self.pt_has(vpn as int),
        ensures
            r < self.page_table@.len(),
            self.page_table@[r as int].vpn == vpn,
    {
        let n = self.page_table.len();
        let mut i: usize = 0;
        while i < n
            invariant
                n == self.page_table@.len(),
                i <= n,
                self.pt_has(vpn as int),
                forall|k: int| 0 <= k < i ==> (#[trigger] self.page_table@[k]).vpn != vpn,
            decreases n - i,
        {
            if self.page_table[i].vpn == vpn {
                return i;
            }
            i = i + 1;
        }
        proof {
            assert(!self.pt_has(vpn as int));
        }
        0
    }

    /// Index of the area containing `vpn`.
    fn area_index_of(&self, vpn: usize) -> (r: usize)
        requires
            self.is_mapped(vpn as int),
        ensures
            r < self.areas@.len(),
            area_contains(self.areas@[r as int], vpn as int),
    {
        let n = self.areas.len();
        let mut i: usize = 0;
        while i < n
            invariant
                n == self.areas@.len(),
                i <= n,
                self.is_mapped(vpn as int),
                forall|k: int| 0 <= k < i ==> !area_contains(#[trigger] self.areas@[k], vpn as int),
            decreases n - i,
        {
            if self.areas[i].start_vpn <= vpn && vpn < self.areas[i].end_vpn {
                return i;
            }
            i = i + 1;
        }
        proof {
            assert(!self.is_mapped(vpn as int));
        }
        0
    }

    /// Remove the single page `vpn`: drop its page-table entry and remove,
    /// shrink or split the area that owns it.  The released frame goes back
    /// to the external allocator's free list.
    pub fn unmap_page(&mut self, vpn: usize)
        requires
            old(self).wf(),
            old(self).is_mapped(vpn as int),
        ensures
            final(self).wf(),
            forall|v: int|
                final(self).is_mapped(v) <==> old(self).is_mapped(v) && v != vpn,
            forall|i: int|
                0 <= i < final(self).page_table@.len() ==> old(self).page_table@.contains(
                    #[trigger] final(self).page_table@[i],
                ),
            forall|v: int| v != vpn ==> (final(self).pt_has(v) <==> old(self).pt_has(v)),
            !final(self).pt_has(vpn as int),
            forall|v: int|
                v != vpn && old(self).pt_has(v) ==> final(self).ppn_of(v) == old(self).ppn_of(v),
    {
        let ghost orig = *self;
        let pti = self.pt_index_of(vpn);
        self.page_table.remove(pti);
        proof {
            self.lemma_pt_entry_removed(orig, vpn as int, pti as int);
            assert(self.areas@ == orig.areas@);
        }
        let ai = self.area_index_of(vpn);
        let a = self.areas[ai];
        if a.start_vpn == vpn && a.end_vpn == vpn + 1 {
            self.areas.remove(ai);
        } else if a.start_vpn == vpn {
            self.areas.set(ai, AddressArea { start_vpn: vpn + 1, end_vpn: a.end_vpn, perm: a.perm });
        } else if a.end_vpn == vpn + 1 {
            self.areas.set(ai, AddressArea { start_vpn: a.start_vpn, end_vpn: vpn, perm: a.perm });
        } else {
            self.areas.set(ai, AddressArea { start_vpn: a.start_vpn, end_vpn: vpn, perm: a.perm });
            self.areas.push(AddressArea { start_vpn: vpn + 1, end_vpn: a.end_vpn, perm: a.perm });
        }
        proof {
            self.lemma_unmap_areas(orig, vpn as int, ai as int, a);
        }
    }

    /// Removing the entry at `pti` takes exactly the key `vpn` out of the
    /// page table and leaves every other key and frame in place.
    proof fn lemma_pt_entry_removed(self, orig: AddressSpace, vpn: int, pti: int)
        requires
            orig.pt_unique(),
            0 <= pti < orig.page_table@.len(),
            orig.page_table@[pti].vpn == vpn,
            self.areas@ == orig.areas@,
            self.page_table@ == orig.page_table@.remove(pti),
        ensures
            self.pt_unique(),
            !self.pt_has(vpn),
            forall|v: int| v != vpn ==> (self.pt_has(v) <==> orig.pt_has(v)),
            forall|v: int| v != vpn && orig.pt_has(v) ==> self.ppn_of(v) == orig.ppn_of(v),
            forall|i: int|
                0 <= i < self.page_table@.len() ==> orig.page_table@.contains(
                    #[trigger] self.page_table@[i],
                ),
            forall|i: int|
                0 <= i < self.page_table@.len() ==> (#[trigger] self.page_table@[i]).vpn != vpn,
    {
        let s = self.page_table@;
        let o = orig.page_table@;
        assert(forall|i: int|
            0 <= i < s.len() ==> #[trigger] s[i] == (if i < pti {
                o[i]
            } else {
                o[i + 1]
            }));
        assert forall|i: int| 0 <= i < s.len() implies o.contains(#[trigger] s[i]) by {
            if i < pti {
                assert(s[i] == o[i]);
            } else {
                assert(s[i] == o[i + 1]);
            }
        }
        assert forall|v: int| v != vpn && orig.pt_has(v) implies self.pt_has(v) && self.ppn_of(v)
            == orig.ppn_of(v) by {
            let j = choose|j: int| 0 <= j < o.len() && o[j].vpn == v;
            orig.lemma_entry_determines_ppn(j, v);
            let j2: int = if j < pti {
                j
            } else {
                j - 1
            };
            assert(s[j2] == o[j]);
            self.lemma_entry_determines_ppn(j2, v);
        }
        assert forall|v: int| v != vpn && self.pt_has(v) implies orig.pt_has(v) by {
            let j = choose|j: int| 0 <= j < s.len() && s[j].vpn == v;
            assert(o.contains(s[j]));
        }
        if self.pt_has(vpn) {
            let j = choose|j: int| 0 <= j < s.len() && s[j].vpn == vpn;
            let oj: int = if j < pti {
                j
            } else {
                j + 1
            };
            assert(o[oj].vpn == vpn && oj != pti);
        }
    }

    /// After the area surgery of `unmap_page`, the space is well formed and
    /// mapped pages are exactly the old ones less `vpn`.
    proof fn lemma_unmap_areas(self, orig: AddressSpace, vpn: int, ai: int, a: AddressArea)
        requires
            orig.areas_wf(),
            orig.pt_matches_areas(),
            0 <= ai < orig.areas@.len(),
            orig.areas@[ai] == a,
            area_contains(a, vpn),
            self.pt_unique(),
            !self.pt_has(vpn),
            forall|v: int| v != vpn ==> (self.pt_has(v) <==> orig.pt_has(v)),
            ({
                if a.start_vpn == vpn && a.end_vpn == vpn + 1 {
                    self.areas@ == orig.areas@.remove(ai)
                } else if a.start_vpn == vpn {
                    self.areas@ == orig.areas@.update(
                        ai,
                        (AddressArea {
                            start_vpn: (vpn + 1) as usize,
                            end_vpn: a.end_vpn,
                            perm: a.perm,
                        }),
                    )
                } else if a.end_vpn == vpn + 1 {
                    self.areas@ == orig.areas@.update(
                        ai,
                        (AddressArea {
                            start_vpn: a.start_vpn,
                            end_vpn: vpn as usize,
                            perm: a.perm,
                        }),
                    )
                } else {
                    self.areas@ == orig.areas@.update(
                        ai,
                        (AddressArea {
                            start_vpn: a.start_vpn,
                            end_vpn: vpn as usize,
                            perm: a.perm,
                        }),
                    ).push(
                        (AddressArea {
                            start_vpn: (vpn + 1) as usize,
                            end_vpn: a.end_vpn,
                            perm: a.perm,
                        }),
                    )
                }
            }),
        ensures
            self.wf(),
            forall|v: int| self.is_mapped(v) <==> orig.is_mapped(v) && v != vpn,
    {
        // Only area `ai` contains `vpn`.
        assert forall|k: int| 0 <= k < orig.areas@.len() && k != ai implies !area_contains(
            orig.areas@[k],
            vpn,
        ) by {
            if k < ai {
                assert(areas_disjoint(orig.areas@[k], orig.areas@[ai]));
            } else {
                assert(areas_disjoint(orig.areas@[ai], orig.areas@[k]));
            }
        }
        // Every new area sits inside some old one and misses `vpn`; every
        // old page other than `vpn` is still covered.
        assert forall|v: int| self.is_mapped(v) <==> orig.is_mapped(v) && v != vpn by {
            if self.is_mapped(v) {
                let i = choose|i: int|
                    0 <= i < self.areas@.len() && area_contains(self.areas@[i], v);
                if a.start_vpn == vpn && a.end_vpn == vpn + 1 {
                    let oi: int = if i < ai {
                        i
                    } else {
                        i + 1
                    };
                    assert(area_contains(orig.areas@[oi], v));
                } else {
                    if i == ai {
                        assert(area_contains(orig.areas@[ai], v));
                    } else if i < orig.areas@.len() {
                        assert(area_contains(orig.areas@[i], v));
                    } else {
                        assert(area_contains(orig.areas@[ai], v));
                    }
                }
                assert(v != vpn);
            }
            if orig.is_mapped(v) && v != vpn {
                let i = choose|i: int|
                    0 <= i < orig.areas@.len() && area_contains(orig.areas@[i], v);
                if i != ai {
                    if a.start_vpn == vpn && a.end_vpn == vpn + 1 {
                        let ni: int = if i < ai {
                            i
                        } else {
                            i - 1
                        };
                        assert(area_contains(self.areas@[ni], v));
                    } else {
                        assert(area_contains(self.areas@[i], v));
                    }
                } else {
                    if a.start_vpn == vpn && a.end_vpn == vpn + 1 {
                        assert(false);
                    } else if a.start_vpn == vpn || a.end_vpn == vpn + 1 {
                        assert(area_contains(self.areas@[ai], v));
                    } else {
                        if v < vpn {
                            assert(area_contains(self.areas@[ai], v));
                        } else {
                            assert(area_contains(
                                self.areas@[self.areas@.len() - 1],
                                v,
                            ));
                        }
                    }
                }
            }
        }
        // Non-empty, pairwise disjoint areas.
        assert forall|i: int, j: int| 0 <= i < j < self.areas@.len() implies areas_disjoint(
            #[trigger] self.areas@[i],
            #[trigger] self.areas@[j],
        ) by {
            if a.start_vpn == vpn && a.end_vpn == vpn + 1 {
                let oi: int = if i < ai {
                    i
                } else {
                    i + 1
                };
                let oj: int = if j < ai {
                    j
                } else {
                    j + 1
                };
                assert(areas_disjoint(orig.areas@[oi], orig.areas@[oj]));
            }
        }
        // The page table still matches the areas.
        assert forall|i: int| 0 <= i < self.page_table@.len() implies seq_is_mapped(
            self.areas@,
            (#[trigger] self.page_table@[i]).vpn as int,
        ) by {
            let w = self.page_table@[i].vpn as int;
            assert(self.pt_has(w));
            assert(w != vpn);
            assert(orig.pt_has(w));
            let j = choose|j: int|
                0 <= j < orig.page_table@.len() && orig.page_table@[j].vpn == w;
            assert(orig.is_mapped(orig.page_table@[j].vpn as int));
            assert(self.is_mapped(w));
        }
        assert forall|v: int| #[trigger] seq_is_mapped(self.areas@, v) implies seq_pt_has(
            self.page_table@,
            v,
        ) by {
            assert(self.is_mapped(v));
            assert(orig.is_mapped(v) && v != vpn);
            assert(self.pt_has(v));
        }
    }
}

} // verus!
