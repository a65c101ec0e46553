//! Address spaces: one page table, an ordered collection of segments, a
//! separate frame arena used only by the raw mmap/munmap facility, and the
//! frame pool backing them.

use vstd::prelude::*;

use crate::area::{
    backs_touched_page, data_chunk, range_mapped, range_unmapped, touched_pages, MapArea,
};
use crate::frames::{
    lemma_tracker_map_domain, lemma_tracker_map_remove, tracker_keys_distinct, tracker_map,
    FrameAllocator, FrameTracker,
};
use crate::page_table::PageTable;
use crate::types::{va_ceil, va_floor, KERNEL_STACK_SIZE, TRAMPOLINE, 
    MapPermission, MapType, PageTableEntry, PteFlags, VirtAddr, PAGE_SIZE,
    TRAMPOLINE_VPN,
};

verus! {

/// First physical page number the frame pool hands out.
pub const FRAME_POOL_BASE: usize = 0x80000;

/// One-past-the-last physical page number of the frame pool.
pub const FRAME_POOL_END: usize = 0x100000;

/// One address space: a page table, its segments, the raw-mmap frame arena,
/// and the pool its framed mappings draw from.
pub struct MemorySet {
    pub page_table: PageTable,
    pub areas: Vec<MapArea>,
    pub mmap_frames: Vec<(usize, FrameTracker)>,
    pub frames: FrameAllocator,
}

/// Whether page `v` lies inside some segment's range.
pub open spec fn in_area_range(areas: Seq<MapArea>, v: nat) -> bool {
    exists|i: int| 0 <= i < areas.len() && (#[trigger] areas[i]).vpn_start <= v < areas[i].vpn_end
}

impl MemorySet {
    /// Every frame any arena of this space holds came from this space's
    /// pool — its page number lies below the pool's next hand-out — and no
    /// two arena entries, across all segments and the raw-mmap arena, hold
    /// the same frame: dropping the one owning entry is the sole release
    /// point.
    pub open spec fn frames_owned_once(&self) -> bool {
        &&& forall|i: int, k: nat|
            #![trigger self.areas@[i].arena()[k]]
            0 <= i < self.areas@.len() && self.areas@[i].arena().contains_key(k)
                ==> self.areas@[i].arena()[k].ppn < self.frames.next()
        &&& forall|k: nat|
            #![trigger tracker_map(self.mmap_frames@)[k]]
            tracker_map(self.mmap_frames@).contains_key(k) ==> tracker_map(
                self.mmap_frames@,
            )[k].ppn < self.frames.next()
        &&& forall|i: int, j: int, k1: nat, k2: nat|
            #![trigger self.areas@[i].arena()[k1], self.areas@[j].arena()[k2]]
            0 <= i < self.areas@.len() && 0 <= j < self.areas@.len()
                && self.areas@[i].arena().contains_key(k1) && self.areas@[j].arena().contains_key(
                k2,
            ) && (i != j || k1 != k2) ==> self.areas@[i].arena()[k1].ppn
                != self.areas@[j].arena()[k2].ppn
        &&& forall|i: int, k1: nat, k2: nat|
            #![trigger self.areas@[i].arena()[k1], tracker_map(self.mmap_frames@)[k2]]
            0 <= i < self.areas@.len() && self.areas@[i].arena().contains_key(k1) && tracker_map(
                self.mmap_frames@,
            ).contains_key(k2) ==> self.areas@[i].arena()[k1].ppn != tracker_map(
                self.mmap_frames@,
            )[k2].ppn
        &&& forall|k1: nat, k2: nat|
            #![trigger tracker_map(self.mmap_frames@)[k1], tracker_map(self.mmap_frames@)[k2]]
            tracker_map(self.mmap_frames@).contains_key(k1) && tracker_map(
                self.mmap_frames@,
            ).contains_key(k2) && k1 != k2 ==> tracker_map(self.mmap_frames@)[k1].ppn
                != tracker_map(self.mmap_frames@)[k2].ppn
    }

    /// Every valid translation is a page of some segment's range, a
    /// raw-mmap page, or the trampoline page. (The converse — that every
    /// segment page stays mapped — is no standing invariant: the raw
    /// `munmap` may unmap a segment-owned page and leave that segment's
    /// bookkeeping stale, by the stated caller discipline.)
    pub open spec fn entries_covered(&self) -> bool {
        forall|k: nat|
            #[trigger] self.page_table@.contains_key(k) ==> in_area_range(self.areas@, k)
                || tracker_map(self.mmap_frames@).contains_key(k) || k == TRAMPOLINE_VPN as nat
    }

    pub open spec fn wf(&self) -> bool {
        &&& self.page_table.wf()
        &&& self.frames.wf()
        &&& forall|i: int| 0 <= i < self.areas@.len() ==> (#[trigger] self.areas@[i]).wf()
        &&& tracker_keys_distinct(self.mmap_frames@)
        &&& forall|k: nat|
            #[trigger] tracker_map(self.mmap_frames@).contains_key(k)
                ==> self.page_table@.contains_key(k)
        &&& self.frames_owned_once()
        &&& self.entries_covered()
    }

    /// The raw-mmap frame arena: which frame the mmap facility owns for
    /// which page, disjoint in purpose from the segments' own arenas.
    pub open spec fn mmap_arena(&self) -> Map<nat, FrameTracker> {
        tracker_map(self.mmap_frames@)
    }

    /// An empty address space: fresh page table, no segments, no raw-mmap
    /// entries.
    pub fn new_bare() -> (ms: MemorySet)
        ensures
            ms.wf(),
            ms.page_table@ =~= Map::<nat, PageTableEntry>::empty(),
            ms.areas@.len() == 0,
            ms.mmap_frames@.len() == 0,
            ms.frames.spec_base() == FRAME_POOL_BASE,
            ms.frames.spec_end() == FRAME_POOL_END,
            ms.frames.next() == FRAME_POOL_BASE + 1,
    {
        let mut frames = FrameAllocator::new(FRAME_POOL_BASE, FRAME_POOL_END);
        let root = frames.allocate().unwrap();
        MemorySet {
            page_table: PageTable::new(root.ppn),
            areas: Vec::new(),
            mmap_frames: Vec::new(),
            frames,
        }
    }

    /// The opaque hardware root value of this space's page table.
    pub fn token(&self) -> (r: u64)
        ensures
            r == self.page_table.spec_root_ppn() as u64 | 8u64 << 60,
    {
        self.page_table.token()
    }

    /// Look up the translation of one virtual page; read-only.
    pub fn translate(&self, vpn: usize) -> (r: Option<PageTableEntry>)
        requires
            self.wf(),
        ensures
            r == if self.page_table@.contains_key(vpn as nat) {
                Some(self.page_table@[vpn as nat])
            } else {
                Option::<PageTableEntry>::None
            },
    {
        self.page_table.translate(vpn)
    }

    /// Map the fixed trampoline page (read + execute, kernel-only) at the
    /// top of the address space, outside the segment collection, onto the
    /// physical page holding the trap entry/exit code.
    pub(crate) fn map_trampoline(&mut self, strampoline_ppn: usize)
        requires
            old(self).wf(),
            !old(self).page_table@.contains_key(TRAMPOLINE_VPN as nat),
        ensures
            final(self).wf(),
            final(self).page_table@ == old(self).page_table@.insert(
                TRAMPOLINE_VPN as nat,
                PageTableEntry {
                    ppn: strampoline_ppn,
                    flags: PteFlags { v: true, r: true, w: false, x: true, u: false },
                },
            ),
            final(self).areas == old(self).areas,
            final(self).mmap_frames == old(self).mmap_frames,
            final(self).frames == old(self).frames,
            final(self).page_table.spec_root_ppn() == old(self).page_table.spec_root_ppn(),
    {
        self.page_table.map(
            TRAMPOLINE_VPN,
            strampoline_ppn,
            PteFlags { v: false, r: true, w: false, x: true, u: false },
        );
    }

    /// Map a segment into this space's page table — copying initial data
    /// into its fresh frames if given — and take ownership of it.
    pub(crate) fn push(&mut self, map_area: MapArea, data: Option<&[u8]>)
        requires
            old(self).wf(),
            map_area.wf(),
            map_area.map_type == MapType::Framed ==> map_area.data_frames@.len() == 0,
            forall|v: nat|
                map_area.vpn_start <= v < map_area.vpn_end ==> !old(self).page_table@.contains_key(v),
            map_area.map_type == MapType::Framed ==> old(self).frames.frames_left()
                >= map_area.vpn_end - map_area.vpn_start,
            data.is_some() ==> map_area.map_type == MapType::Framed && map_area.vpn_start
                + touched_pages(data.unwrap()@.len() as int) <= map_area.vpn_end
                && data.unwrap()@.len() <= usize::MAX - PAGE_SIZE,
        ensures
            final(self).wf(),
            final(self).page_table.spec_root_ppn() == old(self).page_table.spec_root_ppn(),
            final(self).frames.spec_base() == old(self).frames.spec_base(),
            final(self).frames.spec_end() == old(self).frames.spec_end(),
            range_mapped(
                final(self).page_table@,
                old(self).page_table@,
                map_area.vpn_start as int,
                map_area.vpn_end as int,
                map_area.map_type,
                map_area.map_perm,
                old(self).frames.next(),
            ),
            final(self).areas@.len() == old(self).areas@.len() + 1,
            forall|i: int|
                0 <= i < old(self).areas@.len() ==> final(self).areas@[i] == old(self).areas@[i],
            final(self).areas@.last().vpn_start == map_area.vpn_start,
            final(self).areas@.last().vpn_end == map_area.vpn_end,
            final(self).areas@.last().map_type == map_area.map_type,
            final(self).areas@.last().map_perm == map_area.map_perm,
            final(self).mmap_frames == old(self).mmap_frames,
            map_area.map_type == MapType::Framed ==> forall|v: nat|
                map_area.vpn_start <= v < map_area.vpn_end ==> (#[trigger] final(self).areas@.last().arena().contains_key(v)) && final(self).areas@.last().arena()[v].ppn
                    == old(self).frames.next() + (v - map_area.vpn_start),
            map_area.map_type == MapType::Framed ==> forall|k: nat|
                !(map_area.vpn_start <= k < map_area.vpn_end) ==> !(#[trigger] final(self).areas@.last().arena().contains_key(k)),
            map_area.map_type == MapType::Framed ==> final(self).frames.next() == old(self).frames.next() + (map_area.vpn_end - map_area.vpn_start),
            map_area.map_type == MapType::Identical ==> final(self).frames == old(self).frames,
            forall|p: int|
                old(self).frames.owns(p) ==> final(self).frames.page(p) == old(self).frames.page(p),
            data.is_some() ==> forall|k: int|
                0 <= k < touched_pages(data.unwrap()@.len() as int) ==> final(self).frames.page(
                    old(self).frames.next() + k,
                ) =~= data_chunk(data.unwrap()@, k) + Seq::new(
                    (PAGE_SIZE - data_chunk(data.unwrap()@, k).len()) as nat,
                    |b: int| 0u8,
                ),
            data.is_none() ==> forall|p: int|
                old(self).frames.next() <= p < final(self).frames.next() ==> final(self).frames.page(p) =~= Seq::new(PAGE_SIZE as nat, |b: int| 0u8),
            data.is_some() ==> forall|p: int|
                old(self).frames.next() + touched_pages(data.unwrap()@.len() as int) <= p < final(self).frames.next() ==> final(self).frames.page(p) =~= Seq::new(
                    PAGE_SIZE as nat,
                    |b: int| 0u8,
                ),
    {
        let mut area = map_area;
        let ghost start = area.vpn_start as int;
        let ghost next0 = self.frames.next();
        proof {
            self.frames.lemma_wf_bounds();
        }
        area.map(&mut self.page_table, &mut self.frames);
        if let Some(d) = data {
            let ghost touched = touched_pages(d@.len() as int);
            proof {
                assert forall|v: nat|
                    area.vpn_start <= v < area.vpn_start + touched implies (
                #[trigger] self.page_table@.contains_key(v)) && self.frames.owns(
                    self.page_table@[v].ppn as int,
                ) by {
                    assert(self.page_table@.contains_key(v) && self.page_table@[v].ppn == next0 + (
                    v - start));
                }
                assert forall|v1: nat, v2: nat|
                    area.vpn_start <= v1 < area.vpn_start + touched && area.vpn_start <= v2
                        < area.vpn_start + touched && v1 != v2 implies (
                #[trigger] self.page_table@[v1].ppn) != (#[trigger] self.page_table@[v2].ppn) by {
                    assert(self.page_table@.contains_key(v1) && self.page_table@.contains_key(v2));
                }
            }
            area.copy_data(&self.page_table, &mut self.frames, d);
            proof {
                assert forall|k: int|
                    0 <= k < touched implies self.frames.page(next0 + k) =~= data_chunk(d@, k)
                    + Seq::new(
                    (PAGE_SIZE - data_chunk(d@, k).len()) as nat,
                    |b: int| 0u8,
                ) by {
                    assert(self.page_table@.contains_key((start + k) as nat));
                    assert(self.page_table@[(start + k) as nat].ppn as int == next0 + k);
                    let zero_page = Seq::new(PAGE_SIZE as nat, |b: int| 0u8);
                    assert(zero_page.skip(data_chunk(d@, k).len() as int) =~= Seq::new(
                        (PAGE_SIZE - data_chunk(d@, k).len()) as nat,
                        |b: int| 0u8,
                    ));
                }
                assert forall|p: int|
                    old(self).frames.owns(p) implies self.frames.page(p) == old(self).frames.page(p) by {
                    assert(p < next0);
                    assert(!backs_touched_page(self.page_table@, start, touched, p)) by {
                        if backs_touched_page(self.page_table@, start, touched, p) {
                            let k = choose|k: int|
                                0 <= k < touched && (
                                #[trigger] self.page_table@[(start + k) as nat]).ppn == p;
                            assert(self.page_table@.contains_key((start + k) as nat));
                            assert(self.page_table@[(start + k) as nat].ppn as int == next0 + k);
                        }
                    }
                }
                assert forall|p: int|
                    next0 + touched <= p < self.frames.next() implies self.frames.page(p)
                    =~= Seq::new(PAGE_SIZE as nat, |b: int| 0u8) by {
                    assert(!backs_touched_page(self.page_table@, start, touched, p)) by {
                        if backs_touched_page(self.page_table@, start, touched, p) {
                            let k = choose|k: int|
                                0 <= k < touched && (
                                #[trigger] self.page_table@[(start + k) as nat]).ppn == p;
                            assert(self.page_table@.contains_key((start + k) as nat));
                            assert(self.page_table@[(start + k) as nat].ppn as int == next0 + k);
                        }
                    }
                }
            }
        }
        self.areas.push(area);
        proof {
            let last = self.areas@.len() - 1;
            assert(forall|i: int| 0 <= i < last ==> #[trigger] self.areas@[i] == old(self).areas@[i]);
            assert(self.areas@[last] == area);
            self.frames.lemma_wf_bounds();
            assert forall|k: nat|
                #[trigger] area.arena().contains_key(k) implies next0 <= area.arena()[k].ppn
                < self.frames.next() && area.vpn_start <= k < area.vpn_end by {
                if area.map_type == MapType::Framed {
                    if !(area.vpn_start <= k < area.vpn_end) {
                        assert(!area.arena().contains_key(k));
                    }
                } else {
                    lemma_tracker_map_domain(area.data_frames@, k);
                }
            }
            assert forall|k: nat|
                #[trigger] self.page_table@.contains_key(k) implies in_area_range(self.areas@, k)
                || tracker_map(self.mmap_frames@).contains_key(k) || k == TRAMPOLINE_VPN as nat by {
                if area.vpn_start <= k < area.vpn_end {
                    assert(self.areas@[last].vpn_start <= k < self.areas@[last].vpn_end);
                } else {
                    assert(old(self).page_table@.contains_key(k));
                    if in_area_range(old(self).areas@, k) {
                        let i = choose|i: int|
                            0 <= i < old(self).areas@.len() && (
                            #[trigger] old(self).areas@[i]).vpn_start <= k < old(self).areas@[i].vpn_end;
                        assert(self.areas@[i].vpn_start <= k < self.areas@[i].vpn_end);
                    }
                }
            }
        }
    }

    /// Create and map a new demand-backed segment with no initial data. The
    /// caller guarantees that no page of the range is already mapped. Every
    /// page of the range then translates to a present entry carrying exactly
    /// the given permission, each backed by its own fresh frame.
    pub fn insert_framed_area(
        &mut self,
        start_va: VirtAddr,
        end_va: VirtAddr,
        permission: MapPermission,
    )
        requires
            old(self).wf(),
            end_va.0 + PAGE_SIZE - 1 <= usize::MAX,
            start_va.0 as int / PAGE_SIZE as int <= (end_va.0 + PAGE_SIZE - 1) as int
                / PAGE_SIZE as int,
            forall|v: nat|
                start_va.0 as int / PAGE_SIZE as int <= v < (end_va.0 + PAGE_SIZE - 1) as int
                    / PAGE_SIZE as int ==> !old(self).page_table@.contains_key(v),
            old(self).frames.frames_left() >= (end_va.0 + PAGE_SIZE - 1) as int
                / PAGE_SIZE as int - start_va.0 as int / PAGE_SIZE as int,
        ensures
            final(self).wf(),
            final(self).page_table.spec_root_ppn() == old(self).page_table.spec_root_ppn(),
            range_mapped(
                final(self).page_table@,
                old(self).page_table@,
                start_va.0 as int / PAGE_SIZE as int,
                (end_va.0 + PAGE_SIZE - 1) as int / PAGE_SIZE as int,
                MapType::Framed,
                permission,
                old(self).frames.next(),
            ),
            forall|v1: nat, v2: nat|
                start_va.0 as int / PAGE_SIZE as int <= v1 < (end_va.0 + PAGE_SIZE - 1) as int
                    / PAGE_SIZE as int && start_va.0 as int / PAGE_SIZE as int <= v2 < (end_va.0
                    + PAGE_SIZE - 1) as int / PAGE_SIZE as int && v1 != v2 ==> (
                #[trigger] final(self).page_table@[v1]).ppn != (
                #[trigger] final(self).page_table@[v2]).ppn,
            final(self).areas@.len() == old(self).areas@.len() + 1,
            forall|i: int|
                0 <= i < old(self).areas@.len() ==> final(self).areas@[i] == old(self).areas@[i],
            final(self).areas@.last().vpn_start == start_va.0 as int / PAGE_SIZE as int,
            final(self).areas@.last().vpn_end == (end_va.0 + PAGE_SIZE - 1) as int
                / PAGE_SIZE as int,
            final(self).areas@.last().map_type == MapType::Framed,
            final(self).areas@.last().map_perm == permission,
            forall|v: nat|
                start_va.0 as int / PAGE_SIZE as int <= v < (end_va.0 + PAGE_SIZE - 1) as int
                    / PAGE_SIZE as int ==> (#[trigger] final(self).areas@.last().arena().contains_key(
                    v,
                )) && final(self).areas@.last().arena()[v].ppn == old(self).frames.next() + (v
                    - start_va.0 as int / PAGE_SIZE as int),
            forall|k: nat|
                !(start_va.0 as int / PAGE_SIZE as int <= k < (end_va.0 + PAGE_SIZE - 1) as int
                    / PAGE_SIZE as int) ==> !(#[trigger] final(self).areas@.last().arena().contains_key(
                    k,
                )),
            final(self).frames.spec_base() == old(self).frames.spec_base(),
            final(self).frames.spec_end() == old(self).frames.spec_end(),
            final(self).frames.next() == old(self).frames.next() + ((end_va.0 + PAGE_SIZE
                - 1) as int / PAGE_SIZE as int - start_va.0 as int / PAGE_SIZE as int),
            forall|p: int|
                old(self).frames.owns(p) ==> final(self).frames.page(p) == old(self).frames.page(
                    p,
                ),
            forall|p: int|
                old(self).frames.next() <= p < final(self).frames.next() ==> final(self).frames.page(p) =~= Seq::new(PAGE_SIZE as nat, |b: int| 0u8),
            final(self).mmap_frames == old(self).mmap_frames,
    {
        let area = MapArea::new(start_va, end_va, MapType::Framed, permission);
        proof {
            self.frames.lemma_wf_bounds();
        }
        let ghost lo = start_va.0 as int / PAGE_SIZE as int;
        let ghost hi = (end_va.0 + PAGE_SIZE - 1) as int / PAGE_SIZE as int;
        self.push(area, None);
        proof {
            assert forall|v1: nat, v2: nat|
                lo <= v1 < hi && lo <= v2 < hi && v1 != v2 implies (
            #[trigger] self.page_table@[v1]).ppn != (#[trigger] self.page_table@[v2]).ppn by {
                assert(self.page_table@.contains_key(v1) && self.page_table@.contains_key(v2));
            }
        }
    }

    /// Map `[start_vpn, end_vpn)` page by page with a fresh frame each,
    /// outside the segment abstraction. The low three bits of `port` select
    /// readable, writable and executable; user-accessible and valid are
    /// always set. Succeeds (0) only if every page was freshly mapped; on
    /// the first already-mapped page, or on frame exhaustion, reports -1 and
    /// keeps the pages mapped by earlier iterations of this same call.
    #[verifier::rlimit(60)]
    pub fn mmap(&mut self, start_vpn: usize, end_vpn: usize, port: usize) -> (r: isize)
        requires
            old(self).wf(),
            start_vpn <= end_vpn,
        ensures
            final(self).wf(),
            r == 0 || r == -1isize,
            final(self).page_table.spec_root_ppn() == old(self).page_table.spec_root_ppn(),
            final(self).frames.spec_base() == old(self).frames.spec_base(),
            final(self).frames.spec_end() == old(self).frames.spec_end(),
            final(self).areas == old(self).areas,
            (r == 0 <==> first_present(old(self).page_table@, start_vpn as int, end_vpn as int)
                == end_vpn && old(self).frames.frames_left() >= end_vpn - start_vpn),
            ({
                let fp = first_present(old(self).page_table@, start_vpn as int, end_vpn as int);
                let avail = start_vpn + old(self).frames.frames_left();
                let c = if fp <= avail {
                    fp
                } else {
                    avail
                };
                &&& forall|v: nat|
                    start_vpn <= v < c ==> #[trigger] final(self).page_table@.contains_key(v)
                &&& forall|v: nat|
                    start_vpn <= v < c ==> (#[trigger] final(self).page_table@[v]).flags
                        == port_flags(port) && final(self).page_table@[v].ppn == old(self).frames.next() + (v - start_vpn)
                &&& forall|k: nat|
                    !(start_vpn <= k < c) ==> ((#[trigger] final(self).page_table@.contains_key(k))
                        <==> old(self).page_table@.contains_key(k))
                &&& forall|k: nat|
                    !(start_vpn <= k < c) && old(self).page_table@.contains_key(k) ==> (
                    #[trigger] final(self).page_table@[k]) == old(self).page_table@[k]
                &&& final(self).frames.next() == old(self).frames.next() + (c - start_vpn)
                &&& final(self).mmap_frames@.len() == old(self).mmap_frames@.len() + (c
                    - start_vpn)
                &&& forall|v: nat|
                    start_vpn <= v < c ==> (#[trigger] final(self).mmap_arena().contains_key(v))
                        && final(self).mmap_arena()[v].ppn == old(self).frames.next() + (v
                        - start_vpn)
                &&& forall|k: nat|
                    !(start_vpn <= k < c) ==> ((#[trigger] final(self).mmap_arena().contains_key(
                        k,
                    )) <==> old(self).mmap_arena().contains_key(k))
                &&& forall|k: nat|
                    !(start_vpn <= k < c) && old(self).mmap_arena().contains_key(k) ==> (
                    #[trigger] final(self).mmap_arena()[k]) == old(self).mmap_arena()[k]
                &&& forall|p: int|
                    old(self).frames.owns(p) ==> final(self).frames.page(p) == old(self).frames.page(p)
            }),
    {
        let flags = PteFlags {
            v: true,
            r: port & 1 != 0,
            w: port & 2 != 0,
            x: port & 4 != 0,
            u: true,
        };
        let ghost m0 = self.page_table@;
        let ghost s = start_vpn as int;
        let ghost e = end_vpn as int;
        let ghost next0 = self.frames.next();
        let ghost f0 = self.frames.frames_left();
        let mut vpn: usize = start_vpn;
        proof {
            self.frames.lemma_wf_bounds();
        }
        while vpn < end_vpn
            invariant
                start_vpn <= vpn <= end_vpn,
                flags == port_flags(port),
                self.page_table.wf(),
                self.frames.wf(),
                m0 == old(self).page_table@,
                s == start_vpn as int,
                e == end_vpn as int,
                next0 == old(self).frames.next(),
                f0 == old(self).frames.frames_left(),
                self.page_table.spec_root_ppn() == old(self).page_table.spec_root_ppn(),
                self.frames.spec_base() == old(self).frames.spec_base(),
                self.frames.spec_end() == old(self).frames.spec_end(),
                self.areas == old(self).areas,
                forall|i: int| 0 <= i < self.areas@.len() ==> (#[trigger] self.areas@[i]).wf(),
                forall|w: int| s <= w < vpn ==> !(#[trigger] m0.contains_key(w as nat)),
                self.frames.next() == next0 + (vpn - s),
                self.frames.frames_left() == f0 - (vpn - s),
                0 <= self.frames.frames_left(),
                self.mmap_frames@.len() == old(self).mmap_frames@.len() + (vpn - s),
                tracker_keys_distinct(self.mmap_frames@),
                forall|i: int, k: nat|
                    #![trigger self.areas@[i].arena()[k]]
                    0 <= i < self.areas@.len() && self.areas@[i].arena().contains_key(k)
                        ==> self.areas@[i].arena()[k].ppn < self.frames.next(),
                forall|k: nat|
                    #![trigger tracker_map(self.mmap_frames@)[k]]
                    tracker_map(self.mmap_frames@).contains_key(k) ==> tracker_map(
                        self.mmap_frames@,
                    )[k].ppn < self.frames.next(),
                forall|i: int, j: int, k1: nat, k2: nat|
                    #![trigger self.areas@[i].arena()[k1], self.areas@[j].arena()[k2]]
                    0 <= i < self.areas@.len() && 0 <= j < self.areas@.len()
                        && self.areas@[i].arena().contains_key(k1)
                        && self.areas@[j].arena().contains_key(k2) && (i != j || k1 != k2)
                        ==> self.areas@[i].arena()[k1].ppn != self.areas@[j].arena()[k2].ppn,
                forall|i: int, k1: nat, k2: nat|
                    #![trigger self.areas@[i].arena()[k1], tracker_map(self.mmap_frames@)[k2]]
                    0 <= i < self.areas@.len() && self.areas@[i].arena().contains_key(k1)
                        && tracker_map(self.mmap_frames@).contains_key(k2)
                        ==> self.areas@[i].arena()[k1].ppn != tracker_map(
                        self.mmap_frames@,
                    )[k2].ppn,
                forall|k1: nat, k2: nat|
                    #![trigger tracker_map(self.mmap_frames@)[k1], tracker_map(self.mmap_frames@)[k2]]
                    tracker_map(self.mmap_frames@).contains_key(k1) && tracker_map(
                        self.mmap_frames@,
                    ).contains_key(k2) && k1 != k2 ==> tracker_map(self.mmap_frames@)[k1].ppn
                        != tracker_map(self.mmap_frames@)[k2].ppn,
                forall|k: nat|
                    #[trigger] self.page_table@.contains_key(k) ==> in_area_range(self.areas@, k)
                        || tracker_map(self.mmap_frames@).contains_key(k) || k
                        == TRAMPOLINE_VPN as nat,

                forall|k: nat|
                    #[trigger] tracker_map(self.mmap_frames@).contains_key(k)
                        ==> self.page_table@.contains_key(k),
                forall|v: nat|
                    s <= v < vpn ==> (#[trigger] tracker_map(self.mmap_frames@).contains_key(v))
                        && tracker_map(self.mmap_frames@)[v].ppn == next0 + (v - s),
                forall|k: nat|
                    !(s <= k < vpn) ==> ((#[trigger] tracker_map(self.mmap_frames@).contains_key(
                        k,
                    )) <==> tracker_map(old(self).mmap_frames@).contains_key(k)),
                forall|k: nat|
                    !(s <= k < vpn) && tracker_map(old(self).mmap_frames@).contains_key(k) ==> (
                    #[trigger] tracker_map(self.mmap_frames@)[k]) == tracker_map(
                        old(self).mmap_frames@,
                    )[k],
                forall|v: nat| s <= v < vpn ==> #[trigger] self.page_table@.contains_key(v),
                forall|v: nat|
                    s <= v < vpn ==> (#[trigger] self.page_table@[v]).flags == port_flags(port)
                        && self.page_table@[v].ppn == next0 + (v - s),
                forall|k: nat|
                    !(s <= k < vpn) ==> ((#[trigger] self.page_table@.contains_key(k))
                        <==> m0.contains_key(k)),
                forall|k: nat|
                    !(s <= k < vpn) && m0.contains_key(k) ==> (#[trigger] self.page_table@[k])
                        == m0[k],
                forall|p: int|
                    old(self).frames.owns(p) ==> self.frames.page(p) == old(self).frames.page(p),
            decreases end_vpn - vpn,
        {
            if self.page_table.translate(vpn).is_some() {
                proof {
                    lemma_first_present_at(m0, s, e, vpn as int);
                }
                return -1;
            }
            match self.frames.allocate() {
                None => {
                    proof {
                        lemma_first_present_at(m0, s, e, vpn as int);
                        lemma_first_present_bounds(m0, s, e);
                    }
                    return -1;
                },
                Some(frame) => {
                    let ppn = frame.ppn;
                    self.page_table.map(vpn, ppn, flags);
                    let ghost mf_prev = self.mmap_frames@;
                    proof {
                        lemma_tracker_map_domain(mf_prev, vpn as nat);
                    }
                    self.mmap_frames.push((vpn, frame));
                    proof {
                        assert((PteFlags { v: true, ..flags }) == flags);
                        assert(self.page_table@[vpn as nat].flags == port_flags(port));
                        assert(self.mmap_frames@.drop_last() =~= mf_prev);
                        assert(!tracker_map(mf_prev).contains_key(vpn as nat));
                    }
                },
            }
            proof {
                self.frames.lemma_wf_bounds();
            }
            vpn = vpn + 1;
        }
        proof {
            lemma_first_present_at(m0, s, e, e);
            lemma_first_present_bounds(m0, s, e);
        }
        0
    }

    /// Unmap `[start_vpn, end_vpn)` page by page, dropping the raw-mmap
    /// frame of each. Succeeds (0) only if every page was mapped; on the
    /// first unmapped page reports -1, keeping pages unmapped by earlier
    /// iterations of this same call unmapped.
    #[verifier::rlimit(50)]
    pub fn munmap(&mut self, start_vpn: usize, end_vpn: usize) -> (r: isize)
        requires
            old(self).wf(),
            start_vpn <= end_vpn,
        ensures
            final(self).wf(),
            r == 0 || r == -1isize,
            final(self).page_table.spec_root_ppn() == old(self).page_table.spec_root_ppn(),
            final(self).frames == old(self).frames,
            final(self).areas == old(self).areas,
            (r == 0 <==> first_absent(old(self).page_table@, start_vpn as int, end_vpn as int)
                == end_vpn),
            forall|v: nat|
                start_vpn <= v < first_absent(old(self).page_table@, start_vpn as int, end_vpn as int)
                    ==> !(#[trigger] final(self).page_table@.contains_key(v)),
            forall|v: nat|
                start_vpn <= v < first_absent(old(self).page_table@, start_vpn as int, end_vpn as int)
                    ==> !(#[trigger] final(self).mmap_arena().contains_key(v)),
            forall|k: nat|
                !(start_vpn <= k < first_absent(old(self).page_table@, start_vpn as int, end_vpn as int))
                    ==> ((#[trigger] final(self).mmap_arena().contains_key(k)) <==> old(self).mmap_arena().contains_key(k)),
            forall|k: nat|
                !(start_vpn <= k < first_absent(old(self).page_table@, start_vpn as int, end_vpn as int))
                    && old(self).mmap_arena().contains_key(k) ==> (#[trigger] final(self).mmap_arena()[k]) == old(self).mmap_arena()[k],
            forall|k: nat|
                !(start_vpn <= k < first_absent(old(self).page_table@, start_vpn as int, end_vpn as int))
                    ==> ((#[trigger] final(self).page_table@.contains_key(k))
                    <==> old(self).page_table@.contains_key(k)),
            forall|k: nat|
                !(start_vpn <= k < first_absent(old(self).page_table@, start_vpn as int, end_vpn as int))
                    && old(self).page_table@.contains_key(k) ==> (
                #[trigger] final(self).page_table@[k]) == old(self).page_table@[k],
    {
        let ghost m0 = self.page_table@;
        let ghost s = start_vpn as int;
        let ghost e = end_vpn as int;
        let mut vpn: usize = start_vpn;
        while vpn < end_vpn
            invariant
                start_vpn <= vpn <= end_vpn,
                self.page_table.wf(),
                self.frames.wf(),
                m0 == old(self).page_table@,
                s == start_vpn as int,
                e == end_vpn as int,
                self.page_table.spec_root_ppn() == old(self).page_table.spec_root_ppn(),
                self.frames == old(self).frames,
                self.areas == old(self).areas,
                forall|i: int| 0 <= i < self.areas@.len() ==> (#[trigger] self.areas@[i]).wf(),
                tracker_keys_distinct(self.mmap_frames@),
                forall|i: int, k: nat|
                    #![trigger self.areas@[i].arena()[k]]
                    0 <= i < self.areas@.len() && self.areas@[i].arena().contains_key(k)
                        ==> self.areas@[i].arena()[k].ppn < self.frames.next(),
                forall|k: nat|
                    #![trigger tracker_map(self.mmap_frames@)[k]]
                    tracker_map(self.mmap_frames@).contains_key(k) ==> tracker_map(
                        self.mmap_frames@,
                    )[k].ppn < self.frames.next(),
                forall|i: int, j: int, k1: nat, k2: nat|
                    #![trigger self.areas@[i].arena()[k1], self.areas@[j].arena()[k2]]
                    0 <= i < self.areas@.len() && 0 <= j < self.areas@.len()
                        && self.areas@[i].arena().contains_key(k1)
                        && self.areas@[j].arena().contains_key(k2) && (i != j || k1 != k2)
                        ==> self.areas@[i].arena()[k1].ppn != self.areas@[j].arena()[k2].ppn,
                forall|i: int, k1: nat, k2: nat|
                    #![trigger self.areas@[i].arena()[k1], tracker_map(self.mmap_frames@)[k2]]
                    0 <= i < self.areas@.len() && self.areas@[i].arena().contains_key(k1)
                        && tracker_map(self.mmap_frames@).contains_key(k2)
                        ==> self.areas@[i].arena()[k1].ppn != tracker_map(
                        self.mmap_frames@,
                    )[k2].ppn,
                forall|k1: nat, k2: nat|
                    #![trigger tracker_map(self.mmap_frames@)[k1], tracker_map(self.mmap_frames@)[k2]]
                    tracker_map(self.mmap_frames@).contains_key(k1) && tracker_map(
                        self.mmap_frames@,
                    ).contains_key(k2) && k1 != k2 ==> tracker_map(self.mmap_frames@)[k1].ppn
                        != tracker_map(self.mmap_frames@)[k2].ppn,
                forall|k: nat|
                    #[trigger] self.page_table@.contains_key(k) ==> in_area_range(self.areas@, k)
                        || tracker_map(self.mmap_frames@).contains_key(k) || k
                        == TRAMPOLINE_VPN as nat,
                forall|k: nat|
                    #[trigger] tracker_map(self.mmap_frames@).contains_key(k)
                        ==> self.page_table@.contains_key(k),
                forall|v: nat|
                    s <= v < vpn ==> !(#[trigger] tracker_map(self.mmap_frames@).contains_key(v)),
                forall|k: nat|
                    !(s <= k < vpn) ==> ((#[trigger] tracker_map(self.mmap_frames@).contains_key(
                        k,
                    )) <==> tracker_map(old(self).mmap_frames@).contains_key(k)),
                forall|k: nat|
                    !(s <= k < vpn) && tracker_map(old(self).mmap_frames@).contains_key(k) ==> (
                    #[trigger] tracker_map(self.mmap_frames@)[k]) == tracker_map(
                        old(self).mmap_frames@,
                    )[k],
                forall|w: int| s <= w < vpn ==> #[trigger] m0.contains_key(w as nat),
                forall|v: nat| s <= v < vpn ==> !(#[trigger] self.page_table@.contains_key(v)),
                forall|k: nat|
                    !(s <= k < vpn) ==> (#[trigger] self.page_table@.contains_key(k)
                        <==> m0.contains_key(k)) && (m0.contains_key(k) ==> self.page_table@[k]
                        == m0[k]),
                forall|k: nat|
                    !(s <= k < vpn) && m0.contains_key(k) ==> (#[trigger] self.page_table@[k])
                        == m0[k],
            decreases end_vpn - vpn,
        {
            if self.page_table.translate(vpn).is_none() {
                proof {
                    lemma_first_absent_at(m0, s, e, vpn as int);
                }
                return -1;
            }
            self.page_table.unmap(vpn);
            let n = self.mmap_frames.len();
            let mut i: usize = 0;
            while i < n && self.mmap_frames[i].0 != vpn
                invariant
                    n == self.mmap_frames@.len(),
                    0 <= i <= n,
                    forall|j: int| 0 <= j < i ==> (#[trigger] self.mmap_frames@[j]).0 != vpn,
                decreases n - i,
            {
                i = i + 1;
            }
            if i < n {
                let ghost mf_old = self.mmap_frames@;
                proof {
                    lemma_tracker_map_remove(mf_old, i as int);
                    mf_old.remove_ensures(i as int);
                }
                let _ = self.mmap_frames.remove(i);
                proof {
                    assert forall|a: int, b: int|
                        0 <= a < self.mmap_frames@.len() && 0 <= b < self.mmap_frames@.len() && a
                            != b implies (#[trigger] self.mmap_frames@[a]).0 != (
                    #[trigger] self.mmap_frames@[b]).0 by {
                        let oa: int = if a < i { a } else { a + 1 };
                        let ob: int = if b < i { b } else { b + 1 };
                        assert(self.mmap_frames@[a] == mf_old[oa]);
                        assert(self.mmap_frames@[b] == mf_old[ob]);
                    }
                }
            } else {
                proof {
                    lemma_tracker_map_domain(self.mmap_frames@, vpn as nat);
                    assert(tracker_map(self.mmap_frames@) =~= tracker_map(
                        self.mmap_frames@,
                    ).remove(vpn as nat));
                }
            }
            vpn = vpn + 1;
        }
        proof {
            lemma_first_absent_at(m0, s, e, e);
            lemma_first_absent_bounds(m0, s, e);
        }
        0
    }

    /// Shrink the segment whose range begins exactly at `start`'s page to
    /// end at `new_end`'s page, unmapping the dropped pages; reports whether
    /// such a segment was found, leaving the space unchanged otherwise.
    pub fn shrink_to(&mut self, start: VirtAddr, new_end: VirtAddr) -> (r: bool)
        requires
            old(self).wf(),
            new_end.0 + PAGE_SIZE - 1 <= usize::MAX,
            ({
                let gi = first_start_idx(old(self).areas@, start.0 as int / PAGE_SIZE as int);
                gi >= 0 ==> {
                    let hi = (new_end.0 + PAGE_SIZE - 1) as int / PAGE_SIZE as int;
                    &&& old(self).areas@[gi].vpn_start <= hi <= old(self).areas@[gi].vpn_end
                    &&& forall|v: nat|
                        hi <= v < old(self).areas@[gi].vpn_end ==> old(self).page_table@.contains_key(v)
                    &&& forall|v: nat|
                        hi <= v < old(self).areas@[gi].vpn_end ==> !old(self).mmap_arena().contains_key(v)
                }
            }),
        ensures
            final(self).wf(),
            r == (first_start_idx(old(self).areas@, start.0 as int / PAGE_SIZE as int) >= 0),
            !r ==> *final(self) == *old(self),
            r ==> ({
                let gi = first_start_idx(old(self).areas@, start.0 as int / PAGE_SIZE as int);
                let hi = (new_end.0 + PAGE_SIZE - 1) as int / PAGE_SIZE as int;
                &&& final(self).areas@.len() == old(self).areas@.len()
                &&& final(self).areas@[gi].vpn_start == old(self).areas@[gi].vpn_start
                &&& final(self).areas@[gi].vpn_end == hi
                &&& final(self).areas@[gi].map_type == old(self).areas@[gi].map_type
                &&& final(self).areas@[gi].map_perm == old(self).areas@[gi].map_perm
                &&& forall|j: int|
                    0 <= j < old(self).areas@.len() && j != gi ==> final(self).areas@[j] == old(self).areas@[j]
                &&& range_unmapped(
                    final(self).page_table@,
                    old(self).page_table@,
                    hi,
                    old(self).areas@[gi].vpn_end as int,
                )
                &&& (old(self).areas@[gi].map_type == MapType::Framed ==> forall|v: nat|
                    hi <= v < old(self).areas@[gi].vpn_end ==> !(#[trigger] final(self).areas@[gi].arena().contains_key(v)))
                &&& final(self).frames == old(self).frames
                &&& final(self).mmap_frames == old(self).mmap_frames
            }),
    {
        let svpn = start.floor();
        let evpn = new_end.ceil();
        let ghost gi = first_start_idx(old(self).areas@, svpn as int);
        let n = self.areas.len();
        let mut i: usize = 0;
        while i < n && self.areas[i].vpn_start != svpn
            invariant
                n == self.areas@.len(),
                0 <= i <= n,
                forall|j: int| 0 <= j < i ==> (#[trigger] self.areas@[j]).vpn_start != svpn,
            decreases n - i,
        {
            i = i + 1;
        }
        proof {
            lemma_first_start_idx(self.areas@, svpn as int, i as int);
        }
        if i < n {
            let old_end = self.areas[i].vpn_end;
            let area = &mut self.areas[i];
            area.shrink_to(&mut self.page_table, evpn);
            proof {
                assert forall|k: nat|
                    #[trigger] tracker_map(self.mmap_frames@).contains_key(
                        k,
                    ) implies self.page_table@.contains_key(k) by {
                    assert(old(self).page_table@.contains_key(k));
                    assert(first_start_idx(old(self).areas@, start.0 as int / PAGE_SIZE as int)
                        == i as int);
                    assert(old(self).mmap_arena().contains_key(k));
                    assert(!(evpn <= k < old(self).areas@[i as int].vpn_end));
                }
                assert(forall|j: int|
                    0 <= j < self.areas@.len() && j != i ==> #[trigger] self.areas@[j] == old(self).areas@[j]);
                assert forall|k: nat|
                    #[trigger] self.areas@[i as int].arena().contains_key(k) implies old(self).areas@[i as int].arena().contains_key(k) && self.areas@[i as int].arena()[k]
                    == old(self).areas@[i as int].arena()[k] by {
                    if self.areas@[i as int].map_type == MapType::Framed {
                        assert(!(evpn <= k < old_end));
                    }
                }
                assert forall|k: nat|
                    #[trigger] self.page_table@.contains_key(k) implies in_area_range(
                    self.areas@,
                    k,
                ) || tracker_map(self.mmap_frames@).contains_key(k) || k
                    == TRAMPOLINE_VPN as nat by {
                    assert(old(self).page_table@.contains_key(k));
                    assert(!(evpn <= k < old_end));
                    if in_area_range(old(self).areas@, k) {
                        let j = choose|j: int|
                            0 <= j < old(self).areas@.len() && (
                            #[trigger] old(self).areas@[j]).vpn_start <= k < old(self).areas@[j].vpn_end;
                        if j == i {
                            assert(self.areas@[j].vpn_start <= k < self.areas@[j].vpn_end);
                        } else {
                            assert(self.areas@[j].vpn_start <= k < self.areas@[j].vpn_end);
                        }
                    }
                }
            }
            true
        } else {
            false
        }
    }

    /// Grow the segment whose range begins exactly at `start`'s page to end
    /// at `new_end`'s page, mapping the new pages with the segment's
    /// permission; reports whether such a segment was found, leaving the
    /// space unchanged otherwise.
    pub fn append_to(&mut self, start: VirtAddr, new_end: VirtAddr) -> (r: bool)
        requires
            old(self).wf(),
            new_end.0 + PAGE_SIZE - 1 <= usize::MAX,
            ({
                let gi = first_start_idx(old(self).areas@, start.0 as int / PAGE_SIZE as int);
                gi >= 0 ==> {
                    let hi = (new_end.0 + PAGE_SIZE - 1) as int / PAGE_SIZE as int;
                    &&& old(self).areas@[gi].vpn_end <= hi
                    &&& forall|v: nat|
                        old(self).areas@[gi].vpn_end <= v < hi ==> !old(self).page_table@.contains_key(v)
                    &&& old(self).areas@[gi].map_type == MapType::Framed ==> old(self).frames.frames_left() >= hi - old(self).areas@[gi].vpn_end
                }
            }),
        ensures
            final(self).wf(),
            r == (first_start_idx(old(self).areas@, start.0 as int / PAGE_SIZE as int) >= 0),
            !r ==> *final(self) == *old(self),
            r ==> ({
                let gi = first_start_idx(old(self).areas@, start.0 as int / PAGE_SIZE as int);
                let hi = (new_end.0 + PAGE_SIZE - 1) as int / PAGE_SIZE as int;
                &&& final(self).areas@.len() == old(self).areas@.len()
                &&& final(self).areas@[gi].vpn_start == old(self).areas@[gi].vpn_start
                &&& final(self).areas@[gi].vpn_end == hi
                &&& final(self).areas@[gi].map_type == old(self).areas@[gi].map_type
                &&& final(self).areas@[gi].map_perm == old(self).areas@[gi].map_perm
                &&& forall|j: int|
                    0 <= j < old(self).areas@.len() && j != gi ==> final(self).areas@[j] == old(self).areas@[j]
                &&& range_mapped(
                    final(self).page_table@,
                    old(self).page_table@,
                    old(self).areas@[gi].vpn_end as int,
                    hi,
                    old(self).areas@[gi].map_type,
                    old(self).areas@[gi].map_perm,
                    old(self).frames.next(),
                )
                &&& (old(self).areas@[gi].map_type == MapType::Framed ==> forall|v: nat|
                    old(self).areas@[gi].vpn_end <= v < hi ==> (#[trigger] final(self).areas@[gi].arena().contains_key(v)) && final(self).areas@[gi].arena()[v].ppn
                        == old(self).frames.next() + (v - old(self).areas@[gi].vpn_end))
                &&& final(self).mmap_frames == old(self).mmap_frames
                &&& final(self).frames.spec_base() == old(self).frames.spec_base()
                &&& final(self).frames.spec_end() == old(self).frames.spec_end()
            }),
    {
        let svpn = start.floor();
        let evpn = new_end.ceil();
        let ghost gi = first_start_idx(old(self).areas@, svpn as int);
        let n = self.areas.len();
        let mut i: usize = 0;
        while i < n && self.areas[i].vpn_start != svpn
            invariant
                n == self.areas@.len(),
                0 <= i <= n,
                forall|j: int| 0 <= j < i ==> (#[trigger] self.areas@[j]).vpn_start != svpn,
            decreases n - i,
        {
            i = i + 1;
        }
        proof {
            lemma_first_start_idx(self.areas@, svpn as int, i as int);
        }
        if i < n {
            let old_end = self.areas[i].vpn_end;
            let ghost next0 = self.frames.next();
            proof {
                self.frames.lemma_wf_bounds();
            }
            let area = &mut self.areas[i];
            area.append_to(&mut self.page_table, &mut self.frames, evpn);
            proof {
                self.frames.lemma_wf_bounds();
                assert(forall|j: int|
                    0 <= j < self.areas@.len() && j != i ==> #[trigger] self.areas@[j] == old(self).areas@[j]);
                assert forall|k: nat|
                    #[trigger] self.areas@[i as int].arena().contains_key(k) implies (old(self).areas@[i as int].arena().contains_key(k) && self.areas@[i as int].arena()[k]
                    == old(self).areas@[i as int].arena()[k]) || (old_end <= k < evpn
                    && self.areas@[i as int].arena()[k].ppn == next0 + (k - old_end)) by {
                    if self.areas@[i as int].map_type == MapType::Framed {
                        if !(old_end <= k < evpn) {
                        }
                    }
                }
                assert forall|k: nat|
                    #[trigger] self.page_table@.contains_key(k) implies in_area_range(
                    self.areas@,
                    k,
                ) || tracker_map(self.mmap_frames@).contains_key(k) || k
                    == TRAMPOLINE_VPN as nat by {
                    if old_end <= k < evpn {
                        assert(self.areas@[i as int].vpn_start <= k < self.areas@[i as int].vpn_end);
                    } else {
                        assert(old(self).page_table@.contains_key(k));
                        if in_area_range(old(self).areas@, k) {
                            let j = choose|j: int|
                                0 <= j < old(self).areas@.len() && (
                                #[trigger] old(self).areas@[j]).vpn_start <= k < old(self).areas@[j].vpn_end;
                            assert(self.areas@[j].vpn_start <= k < self.areas@[j].vpn_end);
                        }
                    }
                }
            }
            true
        } else {
            false
        }
    }
}

/// The page-table entry flags the raw mmap facility derives from its `port`
/// bits: the low three bits select readable, writable and executable;
/// user-accessible and valid are always set.
pub open spec fn port_flags(port: usize) -> PteFlags {
    PteFlags { v: true, r: port & 1 != 0, w: port & 2 != 0, x: port & 4 != 0, u: true }
}

/// The first page of `[s, e)` that `m` maps, or `e` if it maps none of them.
pub open spec fn first_present(m: Map<nat, PageTableEntry>, s: int, e: int) -> int
    decreases e - s,
{
    if s >= e {
        e
    } else if m.contains_key(s as nat) {
        s
    } else {
        first_present(m, s + 1, e)
    }
}

/// The first page of `[s, e)` that `m` does not map, or `e` if it maps all
/// of them.
pub open spec fn first_absent(m: Map<nat, PageTableEntry>, s: int, e: int) -> int
    decreases e - s,
{
    if s >= e {
        e
    } else if !m.contains_key(s as nat) {
        s
    } else {
        first_absent(m, s + 1, e)
    }
}

proof fn lemma_first_present_bounds(m: Map<nat, PageTableEntry>, s: int, e: int)
    requires
        s <= e,
    ensures
        s <= first_present(m, s, e) <= e,
    decreases e - s,
{
    if s < e && !m.contains_key(s as nat) {
        lemma_first_present_bounds(m, s + 1, e);
    }
}

proof fn lemma_first_absent_bounds(m: Map<nat, PageTableEntry>, s: int, e: int)
    requires
        s <= e,
    ensures
        s <= first_absent(m, s, e) <= e,
    decreases e - s,
{
    if s < e && m.contains_key(s as nat) {
        lemma_first_absent_bounds(m, s + 1, e);
    }
}

/// If no page before `v` is mapped, the first mapped page is at least `v`,
/// and exactly `v` where `v` itself is mapped.
proof fn lemma_first_present_at(m: Map<nat, PageTableEntry>, s: int, e: int, v: int)
    requires
        s <= v <= e,
        forall|w: int| s <= w < v ==> !(#[trigger] m.contains_key(w as nat)),
    ensures
        first_present(m, s, e) >= v,
        v < e && m.contains_key(v as nat) ==> first_present(m, s, e) == v,
    decreases v - s,
{
    lemma_first_present_bounds(m, s, e);
    if s < v {
        assert(!m.contains_key(s as nat));
        lemma_first_present_at(m, s + 1, e, v);
    }
}

/// If every page before `v` is mapped, the first unmapped page is at least
/// `v`, and exactly `v` where `v` itself is unmapped.
proof fn lemma_first_absent_at(m: Map<nat, PageTableEntry>, s: int, e: int, v: int)
    requires
        s <= v <= e,
        forall|w: int| s <= w < v ==> #[trigger] m.contains_key(w as nat),
    ensures
        first_absent(m, s, e) >= v,
        v < e && !m.contains_key(v as nat) ==> first_absent(m, s, e) == v,
    decreases v - s,
{
    lemma_first_absent_bounds(m, s, e);
    if s < v {
        assert(m.contains_key(s as nat));
        lemma_first_absent_at(m, s + 1, e, v);
    }
}

/// Index of the first segment whose range begins at page `vpn`, or -1.
pub open spec fn first_start_idx(areas: Seq<MapArea>, vpn: int) -> int
    decreases areas.len(),
{
    if areas.len() == 0 {
        -1
    } else if areas[0].vpn_start == vpn {
        0
    } else if first_start_idx(areas.skip(1), vpn) == -1 {
        -1
    } else {
        first_start_idx(areas.skip(1), vpn) + 1
    }
}

/// A scan that saw no match before `i`, and a match at `i` if `i` is in
/// range, pins `first_start_idx` down.
proof fn lemma_first_start_idx(areas: Seq<MapArea>, vpn: int, i: int)
    requires
        0 <= i <= areas.len(),
        forall|j: int| 0 <= j < i ==> (#[trigger] areas[j]).vpn_start != vpn,
        i < areas.len() ==> areas[i].vpn_start == vpn,
    ensures
        first_start_idx(areas, vpn) == if i == areas.len() {
            -1
        } else {
            i
        },
    decreases areas.len(),
{
    if areas.len() > 0 {
        if areas[0].vpn_start == vpn {
            assert(i == 0);
        } else {
            assert(i >= 1);
            assert(forall|j: int|
                0 <= j < i - 1 ==> (#[trigger] areas.skip(1)[j]).vpn_start != vpn) by {
                assert(forall|j: int|
                    0 <= j < i - 1 ==> areas.skip(1)[j] == areas[j + 1]);
            }
            lemma_first_start_idx(areas.skip(1), vpn, i - 1);
        }
    }
}

/// Every page of `[lo, hi)` translates identically (physical page equals
/// virtual page) with exactly the flags `f`.
pub open spec fn ident_range_ok(m: Map<nat, PageTableEntry>, lo: int, hi: int, f: PteFlags) -> bool {
    forall|v: nat|
        lo <= v < hi ==> (#[trigger] m.contains_key(v)) && m[v].ppn == v && m[v].flags == f
}

/// Mapping a further, disjoint range preserves an identically mapped one.
proof fn lemma_ident_range_preserved(
    m2: Map<nat, PageTableEntry>,
    m1: Map<nat, PageTableEntry>,
    lo: int,
    hi: int,
    f: PteFlags,
    ty: MapType,
    perm: MapPermission,
    plo: int,
    phi: int,
    next0: int,
)
    requires
        ident_range_ok(m1, lo, hi, f),
        range_mapped(m2, m1, plo, phi, ty, perm, next0),
        hi <= plo || phi <= lo,
    ensures
        ident_range_ok(m2, lo, hi, f),
{
    assert forall|v: nat|
        lo <= v < hi implies (#[trigger] m2.contains_key(v)) && m2[v].ppn == v && m2[v].flags
        == f by {
        assert(m1.contains_key(v));
    }
}

/// Mapping a range not holding `k` preserves `k`'s entry.
proof fn lemma_entry_preserved(
    m2: Map<nat, PageTableEntry>,
    m1: Map<nat, PageTableEntry>,
    k: nat,
    ty: MapType,
    perm: MapPermission,
    plo: int,
    phi: int,
    next0: int,
)
    requires
        m1.contains_key(k),
        range_mapped(m2, m1, plo, phi, ty, perm, next0),
        !(plo <= k < phi),
    ensures
        m2.contains_key(k),
        m2[k] == m1[k],
{
    assert(m2.contains_key(k));
}

/// Where the kernel image's sections and the usable physical memory lie:
/// plain addresses fixed at link time, handed in by the platform layer. The
/// well-formedness conditions say that consecutive sections occupy disjoint
/// page ranges below the trampoline.
pub struct KernelLayout {
    pub stext: usize,
    pub etext: usize,
    pub srodata: usize,
    pub erodata: usize,
    pub sdata: usize,
    pub edata: usize,
    pub sbss_with_stack: usize,
    pub ebss: usize,
    pub ekernel: usize,
    pub memory_end: usize,
    pub strampoline: usize,
}

impl KernelLayout {
    pub open spec fn wf(&self) -> bool {
        &&& self.etext + PAGE_SIZE - 1 <= usize::MAX
        &&& self.erodata + PAGE_SIZE - 1 <= usize::MAX
        &&& self.edata + PAGE_SIZE - 1 <= usize::MAX
        &&& self.ebss + PAGE_SIZE - 1 <= usize::MAX
        &&& self.memory_end + PAGE_SIZE - 1 <= usize::MAX
        &&& va_floor(self.stext) <= va_ceil(self.etext)
        &&& va_ceil(self.etext) <= va_floor(self.srodata)
        &&& va_floor(self.srodata) <= va_ceil(self.erodata)
        &&& va_ceil(self.erodata) <= va_floor(self.sdata)
        &&& va_floor(self.sdata) <= va_ceil(self.edata)
        &&& va_ceil(self.edata) <= va_floor(self.sbss_with_stack)
        &&& va_floor(self.sbss_with_stack) <= va_ceil(self.ebss)
        &&& va_ceil(self.ebss) <= va_floor(self.ekernel)
        &&& va_floor(self.ekernel) <= va_ceil(self.memory_end)
        &&& va_ceil(self.memory_end) <= TRAMPOLINE_VPN
    }
}

impl MemorySet {
    /// The kernel's own address space: the trampoline page, then identity
    /// mappings for kernel code (read + execute), read-only data (read),
    /// initialized data and zero-initialized data (read + write), and the
    /// remaining physical memory up to the ceiling (read + write). Code is
    /// never writable, data never executable, and nothing else is mapped.
    pub fn new_kernel(layout: &KernelLayout) -> (ms: MemorySet)
        requires
            layout.wf(),
        ensures
            ms.wf(),
            ms.page_table@.contains_key(TRAMPOLINE_VPN as nat),
            ms.page_table@[TRAMPOLINE_VPN as nat] == (PageTableEntry {
                ppn: (layout.strampoline / PAGE_SIZE as usize) as usize,
                flags: PteFlags { v: true, r: true, w: false, x: true, u: false },
            }),
            ident_range_ok(
                ms.page_table@,
                va_floor(layout.stext),
                va_ceil(layout.etext),
                PteFlags { v: true, r: true, w: false, x: true, u: false },
            ),
            ident_range_ok(
                ms.page_table@,
                va_floor(layout.srodata),
                va_ceil(layout.erodata),
                PteFlags { v: true, r: true, w: false, x: false, u: false },
            ),
            ident_range_ok(
                ms.page_table@,
                va_floor(layout.sdata),
                va_ceil(layout.edata),
                PteFlags { v: true, r: true, w: true, x: false, u: false },
            ),
            ident_range_ok(
                ms.page_table@,
                va_floor(layout.sbss_with_stack),
                va_ceil(layout.ebss),
                PteFlags { v: true, r: true, w: true, x: false, u: false },
            ),
            ident_range_ok(
                ms.page_table@,
                va_floor(layout.ekernel),
                va_ceil(layout.memory_end),
                PteFlags { v: true, r: true, w: true, x: false, u: false },
            ),
            forall|k: nat|
                !(va_floor(layout.stext) <= k < va_ceil(layout.etext)) && !(va_floor(
                    layout.srodata,
                ) <= k < va_ceil(layout.erodata)) && !(va_floor(layout.sdata) <= k < va_ceil(
                    layout.edata,
                )) && !(va_floor(layout.sbss_with_stack) <= k < va_ceil(layout.ebss)) && !(va_floor(
                    layout.ekernel,
                ) <= k < va_ceil(layout.memory_end)) && k != TRAMPOLINE_VPN as nat ==> !(
                #[trigger] ms.page_table@.contains_key(k)),
            ms.mmap_frames@.len() == 0,
            ms.areas@.len() == 5,
            ms.areas@[0].vpn_start == va_floor(layout.stext) && ms.areas@[0].vpn_end == va_ceil(
                layout.etext,
            ) && ms.areas@[0].map_type == MapType::Identical && ms.areas@[0].map_perm
                == (MapPermission { r: true, w: false, x: true, u: false }),
            ms.areas@[1].vpn_start == va_floor(layout.srodata) && ms.areas@[1].vpn_end == va_ceil(
                layout.erodata,
            ) && ms.areas@[1].map_type == MapType::Identical && ms.areas@[1].map_perm
                == (MapPermission { r: true, w: false, x: false, u: false }),
            ms.areas@[2].vpn_start == va_floor(layout.sdata) && ms.areas@[2].vpn_end == va_ceil(
                layout.edata,
            ) && ms.areas@[2].map_type == MapType::Identical && ms.areas@[2].map_perm
                == (MapPermission { r: true, w: true, x: false, u: false }),
            ms.areas@[3].vpn_start == va_floor(layout.sbss_with_stack) && ms.areas@[3].vpn_end
                == va_ceil(layout.ebss) && ms.areas@[3].map_type == MapType::Identical
                && ms.areas@[3].map_perm == (MapPermission { r: true, w: true, x: false, u: false }),
            ms.areas@[4].vpn_start == va_floor(layout.ekernel) && ms.areas@[4].vpn_end == va_ceil(
                layout.memory_end,
            ) && ms.areas@[4].map_type == MapType::Identical && ms.areas@[4].map_perm
                == (MapPermission { r: true, w: true, x: false, u: false }),
    {
        let mut memory_set = MemorySet::new_bare();
        memory_set.map_trampoline(layout.strampoline / PAGE_SIZE);
        let ghost tramp: nat = TRAMPOLINE_VPN as nat;
        let ghost f_rx = PteFlags { v: true, r: true, w: false, x: true, u: false };
        let ghost f_r = PteFlags { v: true, r: true, w: false, x: false, u: false };
        let ghost f_rw = PteFlags { v: true, r: true, w: true, x: false, u: false };
        let ghost p_rx = MapPermission { r: true, w: false, x: true, u: false };
        let ghost p_r = MapPermission { r: true, w: false, x: false, u: false };
        let ghost p_rw = MapPermission { r: true, w: true, x: false, u: false };
        let ghost m0 = memory_set.page_table@;
        let ghost n0 = memory_set.frames.next();
        memory_set.push(
            MapArea::new(
                VirtAddr(layout.stext),
                VirtAddr(layout.etext),
                MapType::Identical,
                MapPermission { r: true, w: false, x: true, u: false },
            ),
            None,
        );
        let ghost m1 = memory_set.page_table@;
        proof {
            lemma_entry_preserved(
                m1,
                m0,
                tramp,
                MapType::Identical,
                p_rx,
                va_floor(layout.stext),
                va_ceil(layout.etext),
                n0,
            );
            assert(ident_range_ok(m1, va_floor(layout.stext), va_ceil(layout.etext), f_rx));
        }
        let ghost n1 = memory_set.frames.next();
        memory_set.push(
            MapArea::new(
                VirtAddr(layout.srodata),
                VirtAddr(layout.erodata),
                MapType::Identical,
                MapPermission { r: true, w: false, x: false, u: false },
            ),
            None,
        );
        let ghost m2 = memory_set.page_table@;
        proof {
            lemma_entry_preserved(
                m2,
                m1,
                tramp,
                MapType::Identical,
                p_r,
                va_floor(layout.srodata),
                va_ceil(layout.erodata),
                n1,
            );
            lemma_ident_range_preserved(
                m2,
                m1,
                va_floor(layout.stext),
                va_ceil(layout.etext),
                f_rx,
                MapType::Identical,
                p_r,
                va_floor(layout.srodata),
                va_ceil(layout.erodata),
                n1,
            );
            assert(ident_range_ok(m2, va_floor(layout.srodata), va_ceil(layout.erodata), f_r));
        }
        let ghost n2 = memory_set.frames.next();
        memory_set.push(
            MapArea::new(
                VirtAddr(layout.sdata),
                VirtAddr(layout.edata),
                MapType::Identical,
                MapPermission { r: true, w: true, x: false, u: false },
            ),
            None,
        );
        let ghost m3 = memory_set.page_table@;
        proof {
            lemma_entry_preserved(
                m3,
                m2,
                tramp,
                MapType::Identical,
                p_rw,
                va_floor(layout.sdata),
                va_ceil(layout.edata),
                n2,
            );
            lemma_ident_range_preserved(
                m3,
                m2,
                va_floor(layout.stext),
                va_ceil(layout.etext),
                f_rx,
                MapType::Identical,
                p_rw,
                va_floor(layout.sdata),
                va_ceil(layout.edata),
                n2,
            );
            lemma_ident_range_preserved(
                m3,
                m2,
                va_floor(layout.srodata),
                va_ceil(layout.erodata),
                f_r,
                MapType::Identical,
                p_rw,
                va_floor(layout.sdata),
                va_ceil(layout.edata),
                n2,
            );
            assert(ident_range_ok(m3, va_floor(layout.sdata), va_ceil(layout.edata), f_rw));
        }
        let ghost n3 = memory_set.frames.next();
        memory_set.push(
            MapArea::new(
                VirtAddr(layout.sbss_with_stack),
                VirtAddr(layout.ebss),
                MapType::Identical,
                MapPermission { r: true, w: true, x: false, u: false },
            ),
            None,
        );
        let ghost m4 = memory_set.page_table@;
        proof {
            lemma_entry_preserved(
                m4,
                m3,
                tramp,
                MapType::Identical,
                p_rw,
                va_floor(layout.sbss_with_stack),
                va_ceil(layout.ebss),
                n3,
            );
            lemma_ident_range_preserved(
                m4,
                m3,
                va_floor(layout.stext),
                va_ceil(layout.etext),
                f_rx,
                MapType::Identical,
                p_rw,
                va_floor(layout.sbss_with_stack),
                va_ceil(layout.ebss),
                n3,
            );
            lemma_ident_range_preserved(
                m4,
                m3,
                va_floor(layout.srodata),
                va_ceil(layout.erodata),
                f_r,
                MapType::Identical,
                p_rw,
                va_floor(layout.sbss_with_stack),
                va_ceil(layout.ebss),
                n3,
            );
            lemma_ident_range_preserved(
                m4,
                m3,
                va_floor(layout.sdata),
                va_ceil(layout.edata),
                f_rw,
                MapType::Identical,
                p_rw,
                va_floor(layout.sbss_with_stack),
                va_ceil(layout.ebss),
                n3,
            );
            assert(ident_range_ok(m4, va_floor(layout.sbss_with_stack), va_ceil(layout.ebss), f_rw));
        }
        let ghost n4 = memory_set.frames.next();
        memory_set.push(
            MapArea::new(
                VirtAddr(layout.ekernel),
                VirtAddr(layout.memory_end),
                MapType::Identical,
                MapPermission { r: true, w: true, x: false, u: false },
            ),
            None,
        );
        let ghost m5 = memory_set.page_table@;
        proof {
            lemma_entry_preserved(
                m5,
                m4,
                tramp,
                MapType::Identical,
                p_rw,
                va_floor(layout.ekernel),
                va_ceil(layout.memory_end),
                n4,
            );
            lemma_ident_range_preserved(
                m5,
                m4,
                va_floor(layout.stext),
                va_ceil(layout.etext),
                f_rx,
                MapType::Identical,
                p_rw,
                va_floor(layout.ekernel),
                va_ceil(layout.memory_end),
                n4,
            );
            lemma_ident_range_preserved(
                m5,
                m4,
                va_floor(layout.srodata),
                va_ceil(layout.erodata),
                f_r,
                MapType::Identical,
                p_rw,
                va_floor(layout.ekernel),
                va_ceil(layout.memory_end),
                n4,
            );
            lemma_ident_range_preserved(
                m5,
                m4,
                va_floor(layout.sdata),
                va_ceil(layout.edata),
                f_rw,
                MapType::Identical,
                p_rw,
                va_floor(layout.ekernel),
                va_ceil(layout.memory_end),
                n4,
            );
            lemma_ident_range_preserved(
                m5,
                m4,
                va_floor(layout.sbss_with_stack),
                va_ceil(layout.ebss),
                f_rw,
                MapType::Identical,
                p_rw,
                va_floor(layout.ekernel),
                va_ceil(layout.memory_end),
                n4,
            );
            assert(ident_range_ok(m5, va_floor(layout.ekernel), va_ceil(layout.memory_end), f_rw));
            assert forall|k: nat|
                !(va_floor(layout.stext) <= k < va_ceil(layout.etext)) && !(va_floor(
                    layout.srodata,
                ) <= k < va_ceil(layout.erodata)) && !(va_floor(layout.sdata) <= k < va_ceil(
                    layout.edata,
                )) && !(va_floor(layout.sbss_with_stack) <= k < va_ceil(layout.ebss)) && !(va_floor(
                    layout.ekernel,
                ) <= k < va_ceil(layout.memory_end)) && k != tramp implies !(
            #[trigger] memory_set.page_table@.contains_key(k)) by {
                assert(!m0.contains_key(k));
                assert(!m1.contains_key(k));
                assert(!m2.contains_key(k));
                assert(!m3.contains_key(k));
                assert(!m4.contains_key(k));
            }
        }
        memory_set
    }
}

/// The kernel-stack virtual range of one task: a fixed-size stack below the
/// trampoline, with one full guard page separating consecutive tasks'
/// stacks and separating the topmost stack from the trampoline.
pub fn kernel_stack_position(app_id: usize) -> (r: (usize, usize))
    requires
        app_id * (KERNEL_STACK_SIZE + PAGE_SIZE) + KERNEL_STACK_SIZE + PAGE_SIZE <= TRAMPOLINE,
    ensures
        r.1 == TRAMPOLINE - PAGE_SIZE - app_id * (KERNEL_STACK_SIZE + PAGE_SIZE),
        r.0 == TRAMPOLINE - PAGE_SIZE - app_id * (KERNEL_STACK_SIZE + PAGE_SIZE)
            - KERNEL_STACK_SIZE,
{
    let top = TRAMPOLINE - PAGE_SIZE - app_id * (KERNEL_STACK_SIZE + PAGE_SIZE);
    let bottom = top - KERNEL_STACK_SIZE;
    (bottom, top)
}

/// Raw mapping and then unmapping one range is a round trip. On a mapping
/// with no translation inside `[s, e)`, `mmap` is owed success there (its
/// first already-present page is `e`), as is the `munmap` that follows (its
/// first absent page is `e` once the whole range is mapped); a mapping
/// changed as those two calls describe — the range filled, then the range
/// emptied, everything else untouched — is the original mapping again, with
/// every page of the range translating to nothing; and the raw-mmap arena,
/// changed the same way, is the original arena again: every frame the mmap
/// recorded has been dropped.
pub proof fn lemma_mmap_munmap_round_trip(
    m0: Map<nat, PageTableEntry>,
    m1: Map<nat, PageTableEntry>,
    m2: Map<nat, PageTableEntry>,
    a0: Map<nat, FrameTracker>,
    a1: Map<nat, FrameTracker>,
    a2: Map<nat, FrameTracker>,
    s: int,
    e: int,
)
    requires
        0 <= s <= e,
        forall|v: nat| s <= v < e ==> !(#[trigger] m0.contains_key(v)),
        forall|v: nat| s <= v < e ==> #[trigger] m1.contains_key(v),
        forall|k: nat| !(s <= k < e) ==> ((#[trigger] m1.contains_key(k)) <==> m0.contains_key(k)),
        forall|k: nat| !(s <= k < e) && m0.contains_key(k) ==> (#[trigger] m1[k]) == m0[k],
        forall|v: nat| s <= v < e ==> !(#[trigger] m2.contains_key(v)),
        forall|k: nat| !(s <= k < e) ==> ((#[trigger] m2.contains_key(k)) <==> m1.contains_key(k)),
        forall|k: nat| !(s <= k < e) && m1.contains_key(k) ==> (#[trigger] m2[k]) == m1[k],
        forall|k: nat| !(s <= k < e) ==> ((#[trigger] a1.contains_key(k)) <==> a0.contains_key(k)),
        forall|k: nat| !(s <= k < e) && a0.contains_key(k) ==> (#[trigger] a1[k]) == a0[k],
        forall|v: nat| s <= v < e ==> !(#[trigger] a0.contains_key(v)),
        forall|v: nat| s <= v < e ==> !(#[trigger] a2.contains_key(v)),
        forall|k: nat| !(s <= k < e) ==> ((#[trigger] a2.contains_key(k)) <==> a1.contains_key(k)),
        forall|k: nat| !(s <= k < e) && a1.contains_key(k) ==> (#[trigger] a2[k]) == a1[k],
    ensures
        first_present(m0, s, e) == e,
        first_absent(m1, s, e) == e,
        forall|v: nat| s <= v < e ==> !(#[trigger] m2.contains_key(v)),
        m2 =~= m0,
        a2 =~= a0,
{
    assert forall|k: nat| #[trigger] a2.contains_key(k) <==> a0.contains_key(k) by {
        if s <= k < e {
            assert(!a2.contains_key(k) && !a0.contains_key(k));
        }
    }
    assert forall|k: nat| a2.contains_key(k) implies #[trigger] a2[k] == a0[k] by {
        assert(!(s <= k < e));
        assert(a1.contains_key(k) && a0.contains_key(k));
    }
    assert forall|w: int| s <= w < e implies !(#[trigger] m0.contains_key(w as nat)) by {
        assert(s <= (w as nat) && (w as nat) < e);
    }
    assert forall|w: int| s <= w < e implies #[trigger] m1.contains_key(w as nat) by {
        assert(s <= (w as nat) && (w as nat) < e);
    }
    lemma_first_present_at(m0, s, e, e);
    lemma_first_present_bounds(m0, s, e);
    lemma_first_absent_at(m1, s, e, e);
    lemma_first_absent_bounds(m1, s, e);
    assert forall|k: nat| #[trigger] m2.contains_key(k) <==> m0.contains_key(k) by {
        if s <= k < e {
            assert(!m2.contains_key(k) && !m0.contains_key(k));
        }
    }
    assert forall|k: nat| m2.contains_key(k) implies #[trigger] m2[k] == m0[k] by {
        assert(!(s <= k < e));
        assert(m1.contains_key(k) && m0.contains_key(k));
    }
}

} // verus!

