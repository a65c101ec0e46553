//! Segments: one contiguous virtual page range with a mapping policy and a
//! permission set. A segment establishes one translation per page of its
//! range — identity-mapped, or backed by a freshly allocated owned frame —
//! and can be resized in place and filled with initial data.

use vstd::prelude::*;

use crate::frames::{
    lemma_tracker_map_domain, lemma_tracker_map_remove, tracker_keys_distinct, tracker_map,
    FrameAllocator, FrameTracker,
};
use crate::page_table::PageTable;
use crate::types::{flags_of, MapPermission, MapType, PageTableEntry, PteFlags, VirtAddr, PAGE_SIZE};

verus! {

/// A contiguous mapped virtual range `[vpn_start, vpn_end)` with one mapping
/// policy and permission set; under the Framed policy it owns one frame per
/// mapped page.
pub struct MapArea {
    pub vpn_start: usize,
    pub vpn_end: usize,
    pub data_frames: Vec<(usize, FrameTracker)>,
    pub map_type: MapType,
    pub map_perm: MapPermission,
}

/// The physical page a segment's page maps to: the page number itself under
/// the Identical policy, or the `idx`-th frame handed out by the pool from
/// state `next0` on, counting from the range's start.
pub open spec fn mapped_ppn(ty: MapType, vpn: int, start: int, next0: int) -> int {
    match ty {
        MapType::Identical => vpn,
        MapType::Framed => next0 + (vpn - start),
    }
}

impl MapArea {
    pub open spec fn wf(&self) -> bool {
        &&& self.vpn_start <= self.vpn_end
        &&& tracker_keys_distinct(self.data_frames@)
        &&& forall|i: int|
            0 <= i < self.data_frames@.len() ==> self.vpn_start <= (
            #[trigger] self.data_frames@[i]).0 < self.vpn_end
        &&& self.map_type == MapType::Identical ==> self.data_frames@.len() == 0
    }

    /// The segment's frame arena: which owned frame backs which page.
    pub open spec fn arena(&self) -> Map<nat, FrameTracker> {
        tracker_map(self.data_frames@)
    }

    /// Construct an unmapped segment over the page range covering
    /// `[start_va, end_va)`: start floored, end ceiled to page boundaries.
    pub fn new(start_va: VirtAddr, end_va: VirtAddr, map_type: MapType, map_perm: MapPermission) -> (a:
        MapArea)
        requires
            end_va.0 + PAGE_SIZE - 1 <= usize::MAX,
            start_va.0 as int / PAGE_SIZE as int <= (end_va.0 + PAGE_SIZE - 1) as int
                / PAGE_SIZE as int,
        ensures
            a.wf(),
            a.vpn_start == start_va.0 as int / PAGE_SIZE as int,
            a.vpn_end == (end_va.0 + PAGE_SIZE - 1) as int / PAGE_SIZE as int,
            a.map_type == map_type,
            a.map_perm == map_perm,
            a.data_frames@.len() == 0,
    {
        let start_vpn: usize = start_va.floor();
        let end_vpn: usize = end_va.ceil();
        MapArea {
            vpn_start: start_vpn,
            vpn_end: end_vpn,
            data_frames: Vec::new(),
            map_type,
            map_perm,
        }
    }

    /// Establish the translation of one page of the range: identity-derived,
    /// or through a freshly allocated owned frame.
    pub fn map_one(&mut self, page_table: &mut PageTable, frames: &mut FrameAllocator, vpn: usize)
        requires
            old(self).wf(),
            old(page_table).wf(),
            old(frames).wf(),
            !old(page_table)@.contains_key(vpn as nat),
            old(self).map_type == MapType::Framed ==> old(frames).frames_left() >= 1 && old(self).vpn_start <= vpn < old(self).vpn_end && !old(self).arena().contains_key(vpn as nat),
        ensures
            final(self).wf(),
            final(self).vpn_start == old(self).vpn_start,
            final(self).vpn_end == old(self).vpn_end,
            final(self).map_type == old(self).map_type,
            final(self).map_perm == old(self).map_perm,
            old(self).map_type == MapType::Framed ==> final(self).arena() == old(self).arena().insert(vpn as nat, FrameTracker { ppn: old(frames).next() as usize }),
            old(self).map_type == MapType::Identical ==> final(self).data_frames == old(self).data_frames,
            final(page_table).wf(),
            final(frames).wf(),
            final(page_table).spec_root_ppn() == old(page_table).spec_root_ppn(),
            final(frames).spec_base() == old(frames).spec_base(),
            final(frames).spec_end() == old(frames).spec_end(),
            final(page_table)@ == old(page_table)@.insert(
                vpn as nat,
                PageTableEntry {
                    ppn: mapped_ppn(
                        old(self).map_type,
                        vpn as int,
                        vpn as int,
                        old(frames).next(),
                    ) as usize,
                    flags: flags_of(old(self).map_perm),
                },
            ),
            old(self).map_type == MapType::Framed ==> {
                &&& final(frames).next() == old(frames).next() + 1
                &&& final(frames).page(old(frames).next()) =~= Seq::new(
                    PAGE_SIZE as nat,
                    |i: int| 0u8,
                )
            },
            old(self).map_type == MapType::Identical ==> *final(frames) == *old(frames),
            forall|p: int| old(frames).owns(p) ==> final(frames).page(p) == old(frames).page(p),
    {
        let ppn: usize;
        match self.map_type {
            MapType::Identical => {
                ppn = vpn;
            },
            MapType::Framed => {
                let frame = frames.allocate().unwrap();
                ppn = frame.ppn;
                proof {
                    lemma_tracker_map_domain(self.data_frames@, vpn as nat);
                }
                self.data_frames.push((vpn, frame));
                proof {
                    assert(self.data_frames@.drop_last() =~= old(self).data_frames@);
                }
            },
        }
        let pte_flags = PteFlags {
            v: false,
            r: self.map_perm.r,
            w: self.map_perm.w,
            x: self.map_perm.x,
            u: self.map_perm.u,
        };
        page_table.map(vpn, ppn, pte_flags);
    }

    /// Drop the owned frame of one page (Framed policy) and remove its
    /// translation.
    pub fn unmap_one(&mut self, page_table: &mut PageTable, vpn: usize)
        requires
            old(self).wf(),
            old(page_table).wf(),
            old(page_table)@.contains_key(vpn as nat),
        ensures
            final(self).wf(),
            final(self).vpn_start == old(self).vpn_start,
            final(self).vpn_end == old(self).vpn_end,
            final(self).map_type == old(self).map_type,
            final(self).map_perm == old(self).map_perm,
            old(self).map_type == MapType::Framed ==> final(self).arena() =~= old(self).arena().remove(vpn as nat),
            old(self).map_type == MapType::Identical ==> final(self).data_frames == old(self).data_frames,
            final(page_table).wf(),
            final(page_table).spec_root_ppn() == old(page_table).spec_root_ppn(),
            final(page_table)@ == old(page_table)@.remove(vpn as nat),
    {
        if matches!(self.map_type, MapType::Framed) {
            let n = self.data_frames.len();
            let mut i: usize = 0;
            while i < n && self.data_frames[i].0 != vpn
                invariant
                    n == self.data_frames@.len(),
                    0 <= i <= n,
                    forall|j: int| 0 <= j < i ==> (#[trigger] self.data_frames@[j]).0 != vpn,
                decreases n - i,
            {
                i = i + 1;
            }
            if i < n {
                let ghost s_old = self.data_frames@;
                proof {
                    lemma_tracker_map_remove(s_old, i as int);
                    s_old.remove_ensures(i as int);
                }
                let _ = self.data_frames.remove(i);
                proof {
                    assert forall|a: int, b: int|
                        0 <= a < self.data_frames@.len() && 0 <= b < self.data_frames@.len() && a
                            != b implies (#[trigger] self.data_frames@[a]).0 != (
                    #[trigger] self.data_frames@[b]).0 by {
                        let oa: int = if a < i { a } else { a + 1 };
                        let ob: int = if b < i { b } else { b + 1 };
                        assert(self.data_frames@[a] == s_old[oa]);
                        assert(self.data_frames@[b] == s_old[ob]);
                    }
                    assert forall|a: int|
                        0 <= a < self.data_frames@.len() implies self.vpn_start <= (
                    #[trigger] self.data_frames@[a]).0 < self.vpn_end by {
                        let oa: int = if a < i { a } else { a + 1 };
                        assert(self.data_frames@[a] == s_old[oa]);
                    }
                }
            } else {
                proof {
                    lemma_tracker_map_domain(self.data_frames@, vpn as nat);
                    assert(self.arena() =~= self.arena().remove(vpn as nat));
                }
            }
        }
        page_table.unmap(vpn);
    }

    /// Map every page of the range, in ascending order.
    pub fn map(&mut self, page_table: &mut PageTable, frames: &mut FrameAllocator)
        requires
            old(self).wf(),
            old(page_table).wf(),
            old(frames).wf(),
            forall|v: nat|
                old(self).vpn_start <= v < old(self).vpn_end ==> !old(page_table)@.contains_key(v),
            old(self).map_type == MapType::Framed ==> old(frames).frames_left() >= old(self).vpn_end
                - old(self).vpn_start,
            old(self).map_type == MapType::Framed ==> old(self).data_frames@.len() == 0,
        ensures
            final(self).wf(),
            old(self).map_type == MapType::Framed ==> forall|v: nat|
                old(self).vpn_start <= v < old(self).vpn_end ==> (#[trigger] final(self).arena().contains_key(v)) && final(self).arena()[v].ppn == old(frames).next() + (v
                    - old(self).vpn_start),
            old(self).map_type == MapType::Framed ==> forall|k: nat|
                !(old(self).vpn_start <= k < old(self).vpn_end) ==> !(#[trigger] final(self).arena().contains_key(k)),
            old(self).map_type == MapType::Identical ==> final(self).data_frames == old(self).data_frames,
            final(self).vpn_start == old(self).vpn_start,
            final(self).vpn_end == old(self).vpn_end,
            final(self).map_type == old(self).map_type,
            final(self).map_perm == old(self).map_perm,
            final(page_table).wf(),
            final(frames).wf(),
            final(page_table).spec_root_ppn() == old(page_table).spec_root_ppn(),
            final(frames).spec_base() == old(frames).spec_base(),
            final(frames).spec_end() == old(frames).spec_end(),
            range_mapped(
                final(page_table)@,
                old(page_table)@,
                old(self).vpn_start as int,
                old(self).vpn_end as int,
                old(self).map_type,
                old(self).map_perm,
                old(frames).next(),
            ),
            old(self).map_type == MapType::Framed ==> final(frames).next() == old(frames).next()
                + (old(self).vpn_end - old(self).vpn_start),
            old(self).map_type == MapType::Identical ==> *final(frames) == *old(frames),
            forall|p: int| old(frames).owns(p) ==> final(frames).page(p) == old(frames).page(p),
            forall|p: int|
                old(frames).next() <= p < final(frames).next() ==> final(frames).page(p) =~= Seq::new(
                    PAGE_SIZE as nat,
                    |i: int| 0u8,
                ),
    {
        let start = self.vpn_start;
        let end = self.vpn_end;
        let mut vpn: usize = start;
        proof {
            frames.lemma_wf_bounds();
        }
        while vpn < end
            invariant
                start == old(self).vpn_start,
                end == old(self).vpn_end,
                start <= vpn <= end,
                self.vpn_start == start,
                self.vpn_end == end,
                self.map_type == old(self).map_type,
                self.map_perm == old(self).map_perm,
                page_table.wf(),
                frames.wf(),
                0 <= frames.spec_base() <= frames.next() <= frames.spec_end() <= usize::MAX,
                old(frames).spec_base() <= old(frames).next(),
                page_table.spec_root_ppn() == old(page_table).spec_root_ppn(),
                frames.spec_base() == old(frames).spec_base(),
                frames.spec_end() == old(frames).spec_end(),
                forall|v: nat| start <= v < end ==> !old(page_table)@.contains_key(v),
                range_mapped(
                    page_table@,
                    old(page_table)@,
                    start as int,
                    vpn as int,
                    old(self).map_type,
                    old(self).map_perm,
                    old(frames).next(),
                ),
                self.map_type == MapType::Framed ==> frames.next() == old(frames).next() + (vpn
                    - start),
                self.map_type == MapType::Framed ==> frames.frames_left() >= end - vpn,
                self.map_type == MapType::Identical ==> *frames == *old(frames),
                self.wf(),
                self.map_type == MapType::Framed ==> forall|v: nat|
                    start <= v < vpn ==> (#[trigger] self.arena().contains_key(v))
                        && self.arena()[v].ppn == old(frames).next() + (v - start),
                self.map_type == MapType::Framed ==> forall|k: nat|
                    !(start <= k < vpn) ==> !(#[trigger] self.arena().contains_key(k)),
                self.map_type == MapType::Identical ==> self.data_frames == old(self).data_frames,
                forall|p: int| old(frames).owns(p) ==> frames.page(p) == old(frames).page(p),
                forall|p: int|
                    old(frames).next() <= p < frames.next() ==> frames.page(p) =~= Seq::new(
                        PAGE_SIZE as nat,
                        |i: int| 0u8,
                    ),
            decreases end - vpn,
        {
            self.map_one(page_table, frames, vpn);
            proof {
                frames.lemma_wf_bounds();
                if self.map_type == MapType::Framed {
                    assert(self.arena().contains_key(vpn as nat) && self.arena()[vpn as nat].ppn
                        == old(frames).next() + (vpn - start));
                }
            }
            vpn = vpn + 1;
        }
    }

    /// Remove the translation of every page of the range, dropping owned
    /// frames.
    pub fn unmap(&mut self, page_table: &mut PageTable)
        requires
            old(self).wf(),
            old(page_table).wf(),
            forall|v: nat|
                old(self).vpn_start <= v < old(self).vpn_end ==> old(page_table)@.contains_key(v),
        ensures
            final(self).wf(),
            final(self).vpn_start == old(self).vpn_start,
            final(self).vpn_end == old(self).vpn_end,
            final(self).map_type == old(self).map_type,
            final(self).map_perm == old(self).map_perm,
            old(self).map_type == MapType::Framed ==> final(self).arena() =~= Map::<
                nat,
                FrameTracker,
            >::empty(),
            old(self).map_type == MapType::Identical ==> final(self).data_frames == old(self).data_frames,
            final(page_table).wf(),
            final(page_table).spec_root_ppn() == old(page_table).spec_root_ppn(),
            range_unmapped(
                final(page_table)@,
                old(page_table)@,
                old(self).vpn_start as int,
                old(self).vpn_end as int,
            ),
    {
        let start = self.vpn_start;
        let end = self.vpn_end;
        let mut vpn: usize = start;
        while vpn < end
            invariant
                start == old(self).vpn_start,
                end == old(self).vpn_end,
                start <= vpn <= end,
                self.vpn_start == start,
                self.vpn_end == end,
                self.map_type == old(self).map_type,
                self.map_perm == old(self).map_perm,
                self.wf(),
                self.map_type == MapType::Framed ==> forall|v: nat|
                    start <= v < vpn ==> !(#[trigger] self.arena().contains_key(v)),
                self.map_type == MapType::Identical ==> self.data_frames == old(self).data_frames,
                page_table.wf(),
                page_table.spec_root_ppn() == old(page_table).spec_root_ppn(),
                forall|v: nat| start <= v < end ==> old(page_table)@.contains_key(v),
                range_unmapped(page_table@, old(page_table)@, start as int, vpn as int),
            decreases end - vpn,
        {
            self.unmap_one(page_table, vpn);
            vpn = vpn + 1;
        }
        proof {
            if self.map_type == MapType::Framed {
                assert forall|k: nat| !(#[trigger] self.arena().contains_key(k)) by {
                    if self.arena().contains_key(k) {
                        lemma_tracker_map_domain(self.data_frames@, k);
                        let i = choose|i: int|
                            0 <= i < self.data_frames@.len() && (
                            #[trigger] self.data_frames@[i]).0 == k;
                        assert(start <= k < end);
                    }
                }
                assert(self.arena() =~= Map::<nat, FrameTracker>::empty());
            }
        }
    }

    /// Unmap and drop every page in `[new_end, end)` and shorten the range to
    /// end at `new_end`.
    pub fn shrink_to(&mut self, page_table: &mut PageTable, new_end: usize)
        requires
            old(self).wf(),
            old(page_table).wf(),
            old(self).vpn_start <= new_end <= old(self).vpn_end,
            forall|v: nat| new_end <= v < old(self).vpn_end ==> old(page_table)@.contains_key(v),
        ensures
            final(self).wf(),
            final(self).vpn_start == old(self).vpn_start,
            final(self).vpn_end == new_end,
            final(self).map_type == old(self).map_type,
            final(self).map_perm == old(self).map_perm,
            old(self).map_type == MapType::Framed ==> forall|v: nat|
                new_end <= v < old(self).vpn_end ==> !(#[trigger] final(self).arena().contains_key(v)),
            old(self).map_type == MapType::Framed ==> forall|k: nat|
                !(new_end <= k < old(self).vpn_end) ==> ((#[trigger] final(self).arena().contains_key(k)) <==> old(self).arena().contains_key(k)) && (old(self).arena().contains_key(k) ==> final(self).arena()[k] == old(self).arena()[k]),
            old(self).map_type == MapType::Identical ==> final(self).data_frames == old(self).data_frames,
            final(page_table).wf(),
            final(page_table).spec_root_ppn() == old(page_table).spec_root_ppn(),
            range_unmapped(
                final(page_table)@,
                old(page_table)@,
                new_end as int,
                old(self).vpn_end as int,
            ),
    {
        let end = self.vpn_end;
        let mut vpn: usize = new_end;
        while vpn < end
            invariant
                end == old(self).vpn_end,
                new_end <= vpn <= end,
                self.vpn_start == old(self).vpn_start,
                self.vpn_end == end,
                self.map_type == old(self).map_type,
                self.map_perm == old(self).map_perm,
                self.wf(),
                self.map_type == MapType::Framed ==> forall|v: nat|
                    new_end <= v < vpn ==> !(#[trigger] self.arena().contains_key(v)),
                self.map_type == MapType::Framed ==> forall|k: nat|
                    !(new_end <= k < vpn) ==> ((#[trigger] self.arena().contains_key(k)) <==> old(self).arena().contains_key(k)) && (old(self).arena().contains_key(k)
                        ==> self.arena()[k] == old(self).arena()[k]),
                self.map_type == MapType::Identical ==> self.data_frames == old(self).data_frames,
                page_table.wf(),
                page_table.spec_root_ppn() == old(page_table).spec_root_ppn(),
                forall|v: nat| new_end <= v < end ==> old(page_table)@.contains_key(v),
                range_unmapped(page_table@, old(page_table)@, new_end as int, vpn as int),
            decreases end - vpn,
        {
            self.unmap_one(page_table, vpn);
            vpn = vpn + 1;
        }
        proof {
            if self.map_type == MapType::Framed {
                assert forall|i: int|
                    0 <= i < self.data_frames@.len() implies self.vpn_start <= (
                #[trigger] self.data_frames@[i]).0 < new_end by {
                    lemma_tracker_map_domain(self.data_frames@, self.data_frames@[i].0 as nat);
                    assert(self.arena().contains_key(self.data_frames@[i].0 as nat));
                }
            }
        }
        let ghost prev = *self;
        self.vpn_end = new_end;
        proof {
            assert(self.data_frames@ == prev.data_frames@);
            assert(self.arena() == prev.arena());
            assert forall|i: int|
                0 <= i < self.data_frames@.len() implies self.vpn_start <= (
            #[trigger] self.data_frames@[i]).0 < new_end by {
                assert(prev.data_frames@[i] == self.data_frames@[i]);
            }
            if self.map_type == MapType::Framed {
                assert forall|v: nat|
                    new_end <= v < end implies !(#[trigger] self.arena().contains_key(v)) by {
                    assert(!prev.arena().contains_key(v));
                }
                assert forall|k: nat|
                    !(new_end <= k < end) implies ((#[trigger] self.arena().contains_key(k))
                        <==> old(self).arena().contains_key(k)) && (old(
                    self).arena().contains_key(k) ==> self.arena()[k] == old(self).arena()[k]) by {
                    assert((prev.arena().contains_key(k) <==> old(self).arena().contains_key(k))
                        && (old(self).arena().contains_key(k) ==> prev.arena()[k] == old(
                        self,
                    ).arena()[k]));
                }
            }
        }
    }

    /// Map every page in `[end, new_end)` with the segment's policy and
    /// permission and extend the range to end at `new_end`.
    pub fn append_to(&mut self, page_table: &mut PageTable, frames: &mut FrameAllocator, new_end: usize)
        requires
            old(self).wf(),
            old(page_table).wf(),
            old(frames).wf(),
            old(self).vpn_end <= new_end,
            forall|v: nat| old(self).vpn_end <= v < new_end ==> !old(page_table)@.contains_key(v),
            old(self).map_type == MapType::Framed ==> old(frames).frames_left() >= new_end - old(self).vpn_end,
        ensures
            final(self).wf(),
            final(self).vpn_start == old(self).vpn_start,
            final(self).vpn_end == new_end,
            final(self).map_type == old(self).map_type,
            final(self).map_perm == old(self).map_perm,
            old(self).map_type == MapType::Framed ==> forall|v: nat|
                old(self).vpn_end <= v < new_end ==> (#[trigger] final(self).arena().contains_key(v)) && final(self).arena()[v].ppn == old(frames).next() + (v
                    - old(self).vpn_end),
            old(self).map_type == MapType::Framed ==> forall|k: nat|
                !(old(self).vpn_end <= k < new_end) ==> ((#[trigger] final(self).arena().contains_key(k)) <==> old(self).arena().contains_key(k)),
            old(self).map_type == MapType::Framed ==> forall|k: nat|
                !(old(self).vpn_end <= k < new_end) && old(self).arena().contains_key(k) ==> (
                #[trigger] final(self).arena()[k]) == old(self).arena()[k],
            old(self).map_type == MapType::Identical ==> final(self).data_frames == old(self).data_frames,
            final(page_table).wf(),
            final(frames).wf(),
            final(page_table).spec_root_ppn() == old(page_table).spec_root_ppn(),
            final(frames).spec_base() == old(frames).spec_base(),
            final(frames).spec_end() == old(frames).spec_end(),
            range_mapped(
                final(page_table)@,
                old(page_table)@,
                old(self).vpn_end as int,
                new_end as int,
                old(self).map_type,
                old(self).map_perm,
                old(frames).next(),
            ),
            old(self).map_type == MapType::Framed ==> final(frames).next() == old(frames).next() + (
            new_end - old(self).vpn_end),
            old(self).map_type == MapType::Identical ==> *final(frames) == *old(frames),
            forall|p: int| old(frames).owns(p) ==> final(frames).page(p) == old(frames).page(p),
            forall|p: int|
                old(frames).next() <= p < final(frames).next() ==> final(frames).page(p) =~= Seq::new(
                    PAGE_SIZE as nat,
                    |i: int| 0u8,
                ),
    {
        let base = self.vpn_end;
        self.vpn_end = new_end;
        let mut vpn: usize = base;
        proof {
            frames.lemma_wf_bounds();
            assert(self.data_frames@ == old(self).data_frames@);
            assert(self.arena() == old(self).arena());
            assert forall|i: int|
                0 <= i < self.data_frames@.len() implies self.vpn_start <= (
            #[trigger] self.data_frames@[i]).0 < new_end by {
                assert(old(self).data_frames@[i] == self.data_frames@[i]);
            }
            assert(self.wf());
            assert forall|k: nat|
                base <= k implies !(#[trigger] self.arena().contains_key(k)) by {
                if self.arena().contains_key(k) {
                    lemma_tracker_map_domain(self.data_frames@, k);
                    let i = choose|i: int|
                        0 <= i < self.data_frames@.len() && (#[trigger] self.data_frames@[i]).0
                            == k;
                    assert(old(self).data_frames@[i].0 < base);
                }
            }
        }
        while vpn < new_end
            invariant
                base == old(self).vpn_end,
                base <= vpn <= new_end,
                self.vpn_start == old(self).vpn_start,
                self.vpn_start <= base,
                self.vpn_end == new_end,
                self.map_type == old(self).map_type,
                self.map_perm == old(self).map_perm,
                self.wf(),
                self.map_type == MapType::Framed ==> forall|k: nat|
                    vpn <= k ==> !(#[trigger] self.arena().contains_key(k)),
                self.map_type == MapType::Framed ==> forall|v: nat|
                    base <= v < vpn ==> (#[trigger] self.arena().contains_key(v))
                        && self.arena()[v].ppn == old(frames).next() + (v - base),
                self.map_type == MapType::Framed ==> forall|k: nat|
                    !(base <= k < vpn) ==> ((#[trigger] self.arena().contains_key(k)) <==> old(self).arena().contains_key(k)),
                self.map_type == MapType::Framed ==> forall|k: nat|
                    !(base <= k < vpn) && old(self).arena().contains_key(k) ==> (
                    #[trigger] self.arena()[k]) == old(self).arena()[k],
                self.map_type == MapType::Identical ==> self.data_frames == old(self).data_frames,
                page_table.wf(),
                frames.wf(),
                0 <= frames.spec_base() <= frames.next() <= frames.spec_end() <= usize::MAX,
                old(frames).spec_base() <= old(frames).next(),
                page_table.spec_root_ppn() == old(page_table).spec_root_ppn(),
                frames.spec_base() == old(frames).spec_base(),
                frames.spec_end() == old(frames).spec_end(),
                forall|v: nat| base <= v < new_end ==> !old(page_table)@.contains_key(v),
                range_mapped(
                    page_table@,
                    old(page_table)@,
                    base as int,
                    vpn as int,
                    old(self).map_type,
                    old(self).map_perm,
                    old(frames).next(),
                ),
                self.map_type == MapType::Framed ==> frames.next() == old(frames).next() + (vpn
                    - base),
                self.map_type == MapType::Framed ==> frames.frames_left() >= new_end - vpn,
                self.map_type == MapType::Identical ==> *frames == *old(frames),
                forall|p: int| old(frames).owns(p) ==> frames.page(p) == old(frames).page(p),
                forall|p: int|
                    old(frames).next() <= p < frames.next() ==> frames.page(p) =~= Seq::new(
                        PAGE_SIZE as nat,
                        |i: int| 0u8,
                    ),
            decreases new_end - vpn,
        {
            self.map_one(page_table, frames, vpn);
            proof {
                frames.lemma_wf_bounds();
                if self.map_type == MapType::Framed {
                    assert(self.arena().contains_key(vpn as nat) && self.arena()[vpn as nat].ppn
                        == old(frames).next() + (vpn - base));
                }
            }
            vpn = vpn + 1;
        }
    }

    /// Write `data` into the segment's backing frames, page by page from the
    /// first page of the range, each page receiving at most one page of
    /// bytes; bytes beyond the data within the last touched page keep the
    /// frame's previous contents. Valid only under the Framed policy, and
    /// only once every touched page is mapped.
    pub fn copy_data(&self, page_table: &PageTable, frames: &mut FrameAllocator, data: &[u8])
        requires
            page_table.wf(),
            old(frames).wf(),
            self.map_type == MapType::Framed,
            self.vpn_start + touched_pages(data@.len() as int) <= self.vpn_end,
            data@.len() <= usize::MAX - PAGE_SIZE,
            forall|v: nat|
                self.vpn_start <= v < self.vpn_start + touched_pages(data@.len() as int) ==> (
                #[trigger] page_table@.contains_key(v)) && old(frames).owns(
                    page_table@[v].ppn as int,
                ),
            forall|v1: nat, v2: nat|
                self.vpn_start <= v1 < self.vpn_start + touched_pages(data@.len() as int)
                    && self.vpn_start <= v2 < self.vpn_start + touched_pages(data@.len() as int)
                    && v1 != v2 ==> (#[trigger] page_table@[v1].ppn) != (
                #[trigger] page_table@[v2].ppn),
        ensures
            final(frames).wf(),
            final(frames).spec_base() == old(frames).spec_base(),
            final(frames).spec_end() == old(frames).spec_end(),
            final(frames).next() == old(frames).next(),
            forall|i: int|
                0 <= i < touched_pages(data@.len() as int) ==> final(frames).page(
                    page_table@[(self.vpn_start + i) as nat].ppn as int,
                ) =~= data_chunk(data@, i) + old(frames).page(
                    page_table@[(self.vpn_start + i) as nat].ppn as int,
                ).skip(data_chunk(data@, i).len() as int),
            forall|p: int|
                old(frames).owns(p) && !backs_touched_page(
                    page_table@,
                    self.vpn_start as int,
                    touched_pages(data@.len() as int),
                    p,
                ) ==> final(frames).page(p) == old(frames).page(p),
    {
        let len = data.len();
        let total: usize = if len == 0 {
            1
        } else {
            (len - 1) / PAGE_SIZE + 1
        };
        assert(total == touched_pages(len as int));
        let ghost touched = touched_pages(len as int);
        let mut i: usize = 0;
        while i < total
            invariant
                page_table.wf(),
                frames.wf(),
                len == data@.len(),
                len <= usize::MAX - PAGE_SIZE,
                total == touched,
                touched == touched_pages(len as int),
                0 <= i <= total,
                self.vpn_start + total <= self.vpn_end,
                self.map_type == MapType::Framed,
                frames.spec_base() == old(frames).spec_base(),
                frames.spec_end() == old(frames).spec_end(),
                frames.next() == old(frames).next(),
                forall|v: nat|
                    self.vpn_start <= v < self.vpn_start + touched ==> (
                    #[trigger] page_table@.contains_key(v)) && old(frames).owns(
                        page_table@[v].ppn as int,
                    ),
                forall|v1: nat, v2: nat|
                    self.vpn_start <= v1 < self.vpn_start + touched && self.vpn_start <= v2
                        < self.vpn_start + touched && v1 != v2 ==> (
                    #[trigger] page_table@[v1].ppn) != (#[trigger] page_table@[v2].ppn),
                forall|j: int|
                    0 <= j < i ==> frames.page(
                        page_table@[(self.vpn_start + j) as nat].ppn as int,
                    ) =~= data_chunk(data@, j) + old(frames).page(
                        page_table@[(self.vpn_start + j) as nat].ppn as int,
                    ).skip(data_chunk(data@, j).len() as int),
                forall|p: int|
                    old(frames).owns(p) && !backs_touched_page(
                        page_table@,
                        self.vpn_start as int,
                        i as int,
                        p,
                    ) ==> frames.page(p) == old(frames).page(p),
            decreases total - i,
        {
            proof {
                if len > 0 {
                    vstd::arithmetic::div_mod::lemma_fundamental_div_mod(
                        len - 1,
                        PAGE_SIZE as int,
                    );
                    vstd::arithmetic::div_mod::lemma_mod_bound(len - 1, PAGE_SIZE as int);
                    vstd::arithmetic::mul::lemma_mul_inequality(
                        i as int,
                        (len - 1) as int / (PAGE_SIZE as int),
                        PAGE_SIZE as int,
                    );
                }
            }
            let off: usize = i * PAGE_SIZE;
            let end_idx: usize = if off + PAGE_SIZE <= len {
                off + PAGE_SIZE
            } else {
                len
            };
            let src = vstd::slice::slice_subrange(data, off, end_idx);
            let vpn = self.vpn_start + i;
            let pte = page_table.translate(vpn).unwrap();
            let ghost p = pte.ppn as int;
            let ghost start_i = self.vpn_start as int;
            proof {
                assert(page_table@[(start_i + i) as nat].ppn as int == p);
                assert(src@ =~= data_chunk(data@, i as int));
                assert forall|j: int|
                    0 <= j < i implies (#[trigger] page_table@[(start_i + j) as nat]).ppn
                        != page_table@[(start_i + i) as nat].ppn by {
                    assert((start_i + j) as nat != (start_i + i) as nat);
                }
                assert(!backs_touched_page(page_table@, start_i, i as int, p)) by {
                    if backs_touched_page(page_table@, start_i, i as int, p) {
                        let j = choose|j: int|
                            0 <= j < i && (#[trigger] page_table@[(start_i + j) as nat]).ppn == p;
                        assert(page_table@[(start_i + j) as nat].ppn != page_table@[(start_i
                            + i) as nat].ppn);
                    }
                }
                assert(frames.page(p) == old(frames).page(p));
            }
            frames.write_page(pte.ppn, src);
            proof {
                assert(frames.page(p) =~= data_chunk(data@, i as int) + old(frames).page(p).skip(
                    data_chunk(data@, i as int).len() as int,
                ));
                assert forall|j: int|
                    0 <= j < i + 1 implies frames.page(
                        (#[trigger] page_table@[(start_i + j) as nat]).ppn as int,
                    ) =~= data_chunk(data@, j) + old(frames).page(
                        page_table@[(start_i + j) as nat].ppn as int,
                    ).skip(data_chunk(data@, j).len() as int) by {
                    if j < i {
                        assert(page_table@.contains_key((start_i + j) as nat) && old(frames).owns(
                            page_table@[(start_i + j) as nat].ppn as int,
                        ));
                        assert(page_table@[(start_i + j) as nat].ppn != page_table@[(start_i
                            + i) as nat].ppn);
                    }
                }
                assert forall|pp: int|
                    old(frames).owns(pp) && !backs_touched_page(
                        page_table@,
                        start_i,
                        i + 1 as int,
                        pp,
                    ) implies frames.page(pp) == old(frames).page(pp) by {
                    assert(!backs_touched_page(page_table@, start_i, i as int, pp)) by {
                        if backs_touched_page(page_table@, start_i, i as int, pp) {
                            let j = choose|j: int|
                                0 <= j < i && (#[trigger] page_table@[(start_i + j) as nat]).ppn
                                    == pp;
                            assert(0 <= j < i + 1 && page_table@[(start_i + j) as nat].ppn == pp);
                        }
                    }
                    assert(pp != p) by {
                        if pp == p {
                            assert(0 <= i < i + 1 && page_table@[(start_i + i) as nat].ppn == pp);
                        }
                    }
                }
            }
            i = i + 1;
        }
    }
}

/// How many pages a copy of `len` bytes touches: the first page is touched
/// even for no bytes at all, then one page per started page of data.
pub open spec fn touched_pages(len: int) -> int {
    if len <= 0 {
        1
    } else {
        (len - 1) / (PAGE_SIZE as int) + 1
    }
}

/// The bytes the `i`-th touched page receives: a full page of data, or
/// whatever remains.
pub open spec fn data_chunk(data: Seq<u8>, i: int) -> Seq<u8> {
    data.subrange(
        i * (PAGE_SIZE as int),
        if data.len() < (i + 1) * (PAGE_SIZE as int) {
            data.len() as int
        } else {
            (i + 1) * (PAGE_SIZE as int)
        },
    )
}

/// Whether physical page `p` backs one of the first `touched` pages of the
/// range starting at `start`.
pub open spec fn backs_touched_page(
    m: Map<nat, PageTableEntry>,
    start: int,
    touched: int,
    p: int,
) -> bool {
    exists|i: int| 0 <= i < touched && (#[trigger] m[(start + i) as nat]).ppn == p
}

/// Copying data into freshly mapped frames reads back exactly. A touched
/// page left as mapping-then-copying leaves it — its chunk of the data
/// followed by the frame's zero fill — holds, at each offset, the source
/// byte while the data lasts and zero beyond its end.
pub proof fn lemma_copied_page_byte(data: Seq<u8>, page: Seq<u8>, i: int, b: int)
    requires
        0 <= i < touched_pages(data.len() as int),
        0 <= b < PAGE_SIZE,
        page =~= data_chunk(data, i) + Seq::new(
            (PAGE_SIZE - data_chunk(data, i).len()) as nat,
            |x: int| 0u8,
        ),
    ensures
        page.len() == PAGE_SIZE,
        i * PAGE_SIZE + b < data.len() ==> page[b] == data[i * PAGE_SIZE + b],
        i * PAGE_SIZE + b >= data.len() ==> page[b] == 0,
{
    let ps = PAGE_SIZE as int;
    if data.len() > 0 {
        vstd::arithmetic::div_mod::lemma_fundamental_div_mod(data.len() as int - 1, ps);
        vstd::arithmetic::div_mod::lemma_mod_bound(data.len() as int - 1, ps);
        vstd::arithmetic::mul::lemma_mul_inequality(i, (data.len() as int - 1) / ps, ps);
    }
    assert((i + 1) * ps == i * ps + ps) by (nonlinear_arith);
    assert(i * ps <= data.len() || i == 0);
    let chunk = data_chunk(data, i);
    assert(chunk.len() <= ps);
    if b < chunk.len() {
        assert(page[b] == chunk[b]);
    } else {
        assert(page[b] == 0);
    }
}

/// After mapping `[lo, hi)` with policy `ty`, permission `perm`, frames from
/// `next0` on: every page of the range translates to its policy-derived
/// physical page with exactly the permission's flags plus Valid, and every
/// other translation is as before.
pub open spec fn range_mapped(
    m: Map<nat, PageTableEntry>,
    m0: Map<nat, PageTableEntry>,
    lo: int,
    hi: int,
    ty: MapType,
    perm: MapPermission,
    next0: int,
) -> bool {
    &&& forall|v: nat| lo <= v < hi ==> #[trigger] m.contains_key(v)
    &&& forall|v: nat|
        lo <= v < hi ==> (#[trigger] m[v]).flags == flags_of(perm) && m[v].ppn == mapped_ppn(
            ty,
            v as int,
            lo,
            next0,
        )
    &&& forall|k: nat|
        !(lo <= k < hi) ==> ((#[trigger] m.contains_key(k)) <==> m0.contains_key(k))
    &&& forall|k: nat| !(lo <= k < hi) && m0.contains_key(k) ==> (#[trigger] m[k]) == m0[k]
}

/// After unmapping `[lo, hi)`: no page of the range translates any more, and
/// every other translation is as before.
pub open spec fn range_unmapped(
    m: Map<nat, PageTableEntry>,
    m0: Map<nat, PageTableEntry>,
    lo: int,
    hi: int,
) -> bool {
    &&& forall|v: nat| lo <= v < hi ==> !(#[trigger] m.contains_key(v))
    &&& forall|k: nat|
        !(lo <= k < hi) ==> ((#[trigger] m.contains_key(k)) <==> m0.contains_key(k))
    &&& forall|k: nat| !(lo <= k < hi) && m0.contains_key(k) ==> (#[trigger] m[k]) == m0[k]
}

} // verus!
