//! Building a process address space from an executable image: one framed
//! segment per loadable program header, its file bytes copied in, then a
//! guard page, the user stack, a zero-length heap segment, and the
//! trap-context page below the trampoline.

use vstd::prelude::*;

use crate::area::{data_chunk, touched_pages, MapArea};
use crate::frames::FrameAllocator;
use crate::memory_set::{MemorySet, FRAME_POOL_BASE, FRAME_POOL_END};
use crate::types::{
    va_ceil, va_floor, MapPermission, MapType, PageTableEntry, PteFlags, VirtAddr, PAGE_SIZE,
    TRAMPOLINE_VPN, USER_STACK_SIZE,
};

verus! {

/// One loadable segment of an executable image, as plain values: where it
/// lives in virtual memory, where its bytes lie in the file, and its access
/// flags.
#[derive(Clone, Copy, PartialEq, Eq, Structural, Debug)]
pub struct ImageSegment {
    pub vaddr: usize,
    pub mem_size: usize,
    pub offset: usize,
    pub file_size: usize,
    pub readable: bool,
    pub writable: bool,
    pub executable: bool,
}

/// First page of a loadable segment.
pub open spec fn seg_start_vpn(s: ImageSegment) -> int {
    va_floor(s.vaddr)
}

/// One-past-the-last page of a loadable segment.
pub open spec fn seg_end_vpn(s: ImageSegment) -> int {
    va_ceil((s.vaddr + s.mem_size) as usize)
}

/// The highest one-past-the-last page over all loadable segments.
pub open spec fn max_end_vpn(segs: Seq<ImageSegment>) -> int
    decreases segs.len(),
{
    if segs.len() == 0 {
        0
    } else {
        let m = max_end_vpn(segs.drop_last());
        if seg_end_vpn(segs.last()) > m {
            seg_end_vpn(segs.last())
        } else {
            m
        }
    }
}

/// Pages that all loadable segments cover together.
pub open spec fn total_seg_pages(segs: Seq<ImageSegment>) -> int
    decreases segs.len(),
{
    if segs.len() == 0 {
        0
    } else {
        total_seg_pages(segs.drop_last()) + (seg_end_vpn(segs.last()) - seg_start_vpn(
            segs.last(),
        ))
    }
}

/// Whether page `v` lies inside one of the first `n` loadable segments.
pub open spec fn in_some_seg(segs: Seq<ImageSegment>, n: int, v: nat) -> bool {
    exists|i: int| 0 <= i < n && seg_start_vpn(#[trigger] segs[i]) <= v < seg_end_vpn(segs[i])
}

/// Every page of each of the first `n` loadable segments translates to a
/// present entry carrying the segment's permission plus the Valid bit.
pub open spec fn segs_mapped(m: Map<nat, PageTableEntry>, segs: Seq<ImageSegment>, n: int) -> bool {
    forall|i: int, v: nat|
        #![trigger segs[i], m.contains_key(v)]
        0 <= i < n && seg_start_vpn(segs[i]) <= v < seg_end_vpn(segs[i]) ==> m.contains_key(v)
            && m[v].flags == (PteFlags {
            v: true,
            r: segs[i].readable,
            w: segs[i].writable,
            x: segs[i].executable,
            u: true,
        })
}

/// What a loadable segment's touched pages hold once its file span has
/// been copied into its fresh frames: each page its chunk of the span,
/// zero-filled to the page end.
pub open spec fn seg_loaded(
    m: Map<nat, PageTableEntry>,
    fr: FrameAllocator,
    seg: ImageSegment,
    data: Seq<u8>,
) -> bool {
    seg.file_size > 0 ==> forall|k: int|
        0 <= k < touched_pages(seg.file_size as int) ==> (#[trigger] fr.page(
            m[(seg_start_vpn(seg) + k) as nat].ppn as int,
        )) =~= data_chunk(data.subrange(seg.offset as int, seg.offset + seg.file_size), k)
            + Seq::new(
            (PAGE_SIZE - data_chunk(
                data.subrange(seg.offset as int, seg.offset + seg.file_size),
                k,
            ).len()) as nat,
            |b: int| 0u8,
        )
}

/// Pages of a loadable segment past its copied file span hold only zeroes
/// — every page of the segment, where it has no file bytes at all.
pub open spec fn seg_tail_zero(
    m: Map<nat, PageTableEntry>,
    fr: FrameAllocator,
    seg: ImageSegment,
) -> bool {
    forall|k: int|
        (if seg.file_size > 0 {
            touched_pages(seg.file_size as int)
        } else {
            0
        }) <= k < seg_end_vpn(seg) - seg_start_vpn(seg) ==> (#[trigger] fr.page(
            m[(seg_start_vpn(seg) + k) as nat].ppn as int,
        )) =~= Seq::new(PAGE_SIZE as nat, |b: int| 0u8)
}

/// What a well-formed list of loadable segments looks like: each page range
/// ordered and below the fixed top-of-space region, file spans inside the
/// image, copied bytes fitting their range, and ranges pairwise disjoint.
pub open spec fn segs_wf(segs: Seq<ImageSegment>, data_len: int) -> bool {
    &&& forall|i: int|
        0 <= i < segs.len() ==> {
            let s = #[trigger] segs[i];
            &&& s.vaddr + s.mem_size <= usize::MAX - PAGE_SIZE
            &&& seg_start_vpn(s) <= seg_end_vpn(s)
            &&& seg_end_vpn(s) <= TRAMPOLINE_VPN - 4
            &&& s.offset + s.file_size <= data_len
            &&& s.file_size > 0 ==> seg_start_vpn(s) + touched_pages(s.file_size as int)
                <= seg_end_vpn(s)
        }
    &&& forall|i: int, j: int|
        0 <= i < j < segs.len() ==> seg_end_vpn(#[trigger] segs[i]) <= seg_start_vpn(
            #[trigger] segs[j],
        ) || seg_end_vpn(segs[j]) <= seg_start_vpn(segs[i])
}

/// Every loadable segment ends at or below the highest end.
proof fn lemma_max_end_vpn(segs: Seq<ImageSegment>)
    ensures
        0 <= max_end_vpn(segs),
        forall|i: int| 0 <= i < segs.len() ==> seg_end_vpn(#[trigger] segs[i]) <= max_end_vpn(segs),
    decreases segs.len(),
{
    if segs.len() > 0 {
        lemma_max_end_vpn(segs.drop_last());
        assert forall|i: int|
            0 <= i < segs.len() implies seg_end_vpn(#[trigger] segs[i]) <= max_end_vpn(segs) by {
            if i < segs.len() - 1 {
                assert(segs.drop_last()[i] == segs[i]);
            }
        }
    }
}

/// A prefix of the loadable segments never covers more pages than all of
/// them, and no prefix covers a negative number.
proof fn lemma_total_prefix(segs: Seq<ImageSegment>, i: int)
    requires
        0 <= i <= segs.len(),
        forall|j: int|
            0 <= j < segs.len() ==> seg_start_vpn(#[trigger] segs[j]) <= seg_end_vpn(segs[j]),
    ensures
        0 <= total_seg_pages(segs.take(i)),
        total_seg_pages(segs.take(i)) <= total_seg_pages(segs),
    decreases segs.len(),
{
    if segs.len() > 0 {
        if i == segs.len() {
            assert(segs.take(i) =~= segs);
            lemma_total_prefix(segs.drop_last(), i - 1);
            assert(segs.drop_last().take(i - 1) =~= segs.drop_last());
        } else {
            assert(forall|j: int|
                0 <= j < segs.drop_last().len() ==> (#[trigger] segs.drop_last()[j]) == segs[j]);
            lemma_total_prefix(segs.drop_last(), i);
            assert(segs.drop_last().take(i) =~= segs.take(i));
        }
    }
}

/// One more segment adds its own pages to the prefix total, and keeps the
/// prefix maximum unless it ends higher.
proof fn lemma_prefix_step(segs: Seq<ImageSegment>, i: int)
    requires
        0 <= i < segs.len(),
    ensures
        total_seg_pages(segs.take(i + 1)) == total_seg_pages(segs.take(i)) + (seg_end_vpn(segs[i])
            - seg_start_vpn(segs[i])),
        max_end_vpn(segs.take(i + 1)) == if seg_end_vpn(segs[i]) > max_end_vpn(segs.take(i)) {
            seg_end_vpn(segs[i])
        } else {
            max_end_vpn(segs.take(i))
        },
{
    assert(segs.take(i + 1).drop_last() =~= segs.take(i));
    assert(segs.take(i + 1).last() == segs[i]);
}

impl MemorySet {
    /// A process address space built from an image's loadable segments: the
    /// trampoline page, one framed user-accessible segment per loadable
    /// segment with its file bytes copied in, one unmapped guard page above
    /// the highest segment end, the user stack above the guard, a
    /// zero-length heap segment at the stack top for later growth, and the
    /// trap-context page directly below the trampoline. Returns the space,
    /// the user stack top address and the entry point.
    pub fn from_image(
        segs: &Vec<ImageSegment>,
        data: &[u8],
        entry: usize,
        strampoline_ppn: usize,
    ) -> (r: (MemorySet, usize, usize))
        requires
            segs_wf(segs@, data@.len() as int),
            data@.len() <= usize::MAX - PAGE_SIZE,
            total_seg_pages(segs@) + 3 <= FRAME_POOL_END - FRAME_POOL_BASE - 1,
        ensures
            r.0.wf(),
            r.2 == entry,
            r.1 == (max_end_vpn(segs@) + 1) * PAGE_SIZE + USER_STACK_SIZE,
            r.0.page_table@.contains_key(TRAMPOLINE_VPN as nat),
            r.0.page_table@[TRAMPOLINE_VPN as nat] == (PageTableEntry {
                ppn: strampoline_ppn,
                flags: PteFlags { v: true, r: true, w: false, x: true, u: false },
            }),
            segs_mapped(r.0.page_table@, segs@, segs@.len() as int),
            forall|i: int|
                0 <= i < segs@.len() ==> #[trigger] seg_loaded(
                    r.0.page_table@,
                    r.0.frames,
                    segs@[i],
                    data@,
                ),
            forall|i: int|
                0 <= i < segs@.len() ==> #[trigger] seg_tail_zero(
                    r.0.page_table@,
                    r.0.frames,
                    segs@[i],
                ),
            !r.0.page_table@.contains_key(max_end_vpn(segs@) as nat),
            forall|v: nat|
                max_end_vpn(segs@) + 1 <= v < max_end_vpn(segs@) + 1 + USER_STACK_SIZE as int
                    / PAGE_SIZE as int ==> (#[trigger] r.0.page_table@.contains_key(v))
                    && r.0.page_table@[v].flags == (PteFlags {
                    v: true,
                    r: true,
                    w: true,
                    x: false,
                    u: true,
                }),
            r.0.mmap_frames@.len() == 0,
            r.0.areas@.len() == segs@.len() + 3,
            forall|i: int|
                0 <= i < segs@.len() ==> (#[trigger] r.0.areas@[i]).vpn_start == seg_start_vpn(
                    segs@[i],
                ) && r.0.areas@[i].vpn_end == seg_end_vpn(segs@[i]) && r.0.areas@[i].map_type
                    == MapType::Framed && r.0.areas@[i].map_perm == (MapPermission {
                    r: segs@[i].readable,
                    w: segs@[i].writable,
                    x: segs@[i].executable,
                    u: true,
                }),
            r.0.areas@[segs@.len() as int].vpn_start == max_end_vpn(segs@) + 1
                && r.0.areas@[segs@.len() as int].vpn_end == max_end_vpn(segs@) + 1
                + USER_STACK_SIZE as int / PAGE_SIZE as int && r.0.areas@[segs@.len() as int].map_type
                == MapType::Framed && r.0.areas@[segs@.len() as int].map_perm == (MapPermission {
                r: true,
                w: true,
                x: false,
                u: true,
            }),
            r.0.areas@[segs@.len() as int + 1].vpn_start == max_end_vpn(segs@) + 1
                + USER_STACK_SIZE as int / PAGE_SIZE as int && r.0.areas@[segs@.len() as int + 1].vpn_end
                == r.0.areas@[segs@.len() as int + 1].vpn_start && r.0.areas@[segs@.len() as int + 1].map_type
                == MapType::Framed && r.0.areas@[segs@.len() as int + 1].map_perm == (MapPermission {
                r: true,
                w: true,
                x: false,
                u: true,
            }),
            r.0.areas@[segs@.len() as int + 2].vpn_start == TRAMPOLINE_VPN - 1 && r.0.areas@[segs@.len() as int + 2].vpn_end == TRAMPOLINE_VPN && r.0.areas@[segs@.len() as int + 2].map_type
                == MapType::Framed && r.0.areas@[segs@.len() as int + 2].map_perm == (MapPermission {
                r: true,
                w: true,
                x: false,
                u: false,
            }),
            r.0.page_table@.contains_key((TRAMPOLINE_VPN - 1) as nat),
            r.0.page_table@[(TRAMPOLINE_VPN - 1) as nat].flags == (PteFlags {
                v: true,
                r: true,
                w: true,
                x: false,
                u: false,
            }),
            forall|k: nat|
                !in_some_seg(segs@, segs@.len() as int, k) && !(max_end_vpn(segs@) + 1 <= k
                    < max_end_vpn(segs@) + 1 + USER_STACK_SIZE as int / PAGE_SIZE as int) && k != (
                TRAMPOLINE_VPN - 1) as nat && k != TRAMPOLINE_VPN as nat ==> !(
                #[trigger] r.0.page_table@.contains_key(k)),
    {
        let mut memory_set = MemorySet::new_bare();
        memory_set.map_trampoline(strampoline_ppn);
        let ghost tramp: nat = TRAMPOLINE_VPN as nat;
        let ghost tramp_entry = PageTableEntry {
            ppn: strampoline_ppn,
            flags: PteFlags { v: true, r: true, w: false, x: true, u: false },
        };
        let mut max_end: usize = 0;
        let mut idx: usize = 0;
        let n = segs.len();
        proof {
            assert(segs@.take(0) =~= Seq::<ImageSegment>::empty());
            lemma_total_prefix(segs@, 0);
        }
        while idx < n
            invariant
                0 <= idx <= n,
                n == segs@.len(),
                segs_wf(segs@, data@.len() as int),
                data@.len() <= usize::MAX - PAGE_SIZE,
                total_seg_pages(segs@) + 3 <= FRAME_POOL_END - FRAME_POOL_BASE - 1,
                memory_set.wf(),
                memory_set.frames.spec_base() == FRAME_POOL_BASE,
                memory_set.frames.spec_end() == FRAME_POOL_END,
                memory_set.frames.next() == FRAME_POOL_BASE + 1 + total_seg_pages(
                    segs@.take(idx as int),
                ),
                tramp == TRAMPOLINE_VPN as nat,
                tramp_entry == (PageTableEntry {
                    ppn: strampoline_ppn,
                    flags: PteFlags { v: true, r: true, w: false, x: true, u: false },
                }),
                memory_set.page_table@.contains_key(tramp),
                memory_set.page_table@[tramp] == tramp_entry,
                memory_set.mmap_frames@.len() == 0,
                memory_set.areas@.len() == idx,
                forall|i: int|
                    0 <= i < idx ==> (#[trigger] memory_set.areas@[i]).vpn_start == seg_start_vpn(
                        segs@[i],
                    ) && memory_set.areas@[i].vpn_end == seg_end_vpn(segs@[i])
                        && memory_set.areas@[i].map_type == MapType::Framed
                        && memory_set.areas@[i].map_perm == (MapPermission {
                        r: segs@[i].readable,
                        w: segs@[i].writable,
                        x: segs@[i].executable,
                        u: true,
                    }),
                max_end == max_end_vpn(segs@.take(idx as int)),
                0 <= max_end_vpn(segs@.take(idx as int)) <= TRAMPOLINE_VPN - 4,
                segs_mapped(memory_set.page_table@, segs@, idx as int),
                forall|i: int|
                    0 <= i < idx ==> #[trigger] seg_loaded(
                        memory_set.page_table@,
                        memory_set.frames,
                        segs@[i],
                        data@,
                    ),
                forall|i: int|
                    0 <= i < idx ==> #[trigger] seg_tail_zero(
                        memory_set.page_table@,
                        memory_set.frames,
                        segs@[i],
                    ),
                forall|i: int, v: nat|
                    #![trigger segs@[i], memory_set.page_table@[v]]
                    0 <= i < idx && seg_start_vpn(segs@[i]) <= v < seg_end_vpn(segs@[i])
                        ==> memory_set.frames.owns(memory_set.page_table@[v].ppn as int),
                forall|k: nat|
                    !in_some_seg(segs@, idx as int, k) && k != tramp ==> !(
                    #[trigger] memory_set.page_table@.contains_key(k)),
            decreases n - idx,
        {
            let seg = segs[idx];
            let ghost mprev = memory_set.page_table@;
            let ghost fprev = memory_set.frames;
            let ghost nprev = memory_set.frames.next();
            let ghost prefix = segs@.take(idx as int);
            proof {
                lemma_total_prefix(segs@, idx as int);
                lemma_total_prefix(segs@, idx as int + 1);
                lemma_prefix_step(segs@, idx as int);
                lemma_max_end_vpn(prefix);
                assert forall|v: nat|
                    seg_start_vpn(segs@[idx as int]) <= v < seg_end_vpn(segs@[idx as int]) implies !(
                #[trigger] memory_set.page_table@.contains_key(v)) by {
                    assert(seg_end_vpn(segs@[idx as int]) <= TRAMPOLINE_VPN - 4);
                    assert(v != tramp);
                    assert(!in_some_seg(segs@, idx as int, v)) by {
                        if in_some_seg(segs@, idx as int, v) {
                            let j = choose|j: int|
                                0 <= j < idx && seg_start_vpn(#[trigger] segs@[j]) <= v
                                    < seg_end_vpn(segs@[j]);
                            assert(seg_end_vpn(segs@[j]) <= seg_start_vpn(segs@[idx as int])
                                || seg_end_vpn(segs@[idx as int]) <= seg_start_vpn(segs@[j]));
                        }
                    }
                }
            }
            let area = MapArea::new(
                VirtAddr(seg.vaddr),
                VirtAddr(seg.vaddr + seg.mem_size),
                MapType::Framed,
                MapPermission { r: seg.readable, w: seg.writable, x: seg.executable, u: true },
            );
            let area_end = area.vpn_end;
            if seg.file_size > 0 {
                let src = vstd::slice::slice_subrange(data, seg.offset, seg.offset + seg.file_size);
                memory_set.push(area, Some(src));
                proof {
                    assert(src@ =~= data@.subrange(
                        seg.offset as int,
                        seg.offset + seg.file_size,
                    ));
                    assert forall|k: int|
                        0 <= k < touched_pages(seg.file_size as int) implies (
                    #[trigger] memory_set.frames.page(nprev + k)) =~= data_chunk(
                        data@.subrange(seg.offset as int, seg.offset + seg.file_size),
                        k,
                    ) + Seq::new(
                        (PAGE_SIZE - data_chunk(
                            data@.subrange(seg.offset as int, seg.offset + seg.file_size),
                            k,
                        ).len()) as nat,
                        |b: int| 0u8,
                    ) by {
                        assert(src@.len() == seg.file_size);
                        assert(0 <= k < touched_pages(src@.len() as int));
                        assert(memory_set.frames.page(nprev + k) =~= data_chunk(src@, k)
                            + Seq::new(
                            (PAGE_SIZE - data_chunk(src@, k).len()) as nat,
                            |b: int| 0u8,
                        ));
                        assert(data_chunk(src@, k) =~= data_chunk(
                            data@.subrange(seg.offset as int, seg.offset + seg.file_size),
                            k,
                        ));
                    }
                    assert forall|p: int|
                        nprev + touched_pages(seg.file_size as int) <= p
                            < memory_set.frames.next() implies (
                    #[trigger] memory_set.frames.page(p)) =~= Seq::new(
                        PAGE_SIZE as nat,
                        |b: int| 0u8,
                    ) by {
                        assert(touched_pages(src@.len() as int) == touched_pages(
                            seg.file_size as int,
                        ));
                    }
                }
            } else {
                memory_set.push(area, None);
            }
            if area_end > max_end {
                max_end = area_end;
            }
            proof {
                assert(memory_set.page_table@.contains_key(tramp) && memory_set.page_table@[tramp]
                    == tramp_entry) by {
                    assert(mprev.contains_key(tramp));
                }
                assert(segs_mapped(memory_set.page_table@, segs@, idx + 1)) by {
                    assert forall|i: int, v: nat|
                        #![trigger segs@[i], memory_set.page_table@.contains_key(v)]
                        0 <= i < idx + 1 && seg_start_vpn(segs@[i]) <= v < seg_end_vpn(
                            segs@[i],
                        ) implies memory_set.page_table@.contains_key(v)
                        && memory_set.page_table@[v].flags == (PteFlags {
                        v: true,
                        r: segs@[i].readable,
                        w: segs@[i].writable,
                        x: segs@[i].executable,
                        u: true,
                    }) by {
                        if i < idx {
                            assert(mprev.contains_key(v));
                            assert(seg_end_vpn(segs@[i]) <= seg_start_vpn(segs@[idx as int])
                                || seg_end_vpn(segs@[idx as int]) <= seg_start_vpn(segs@[i]));
                        }
                    }
                }
                assert forall|i: int, v: nat|
                    #![trigger segs@[i], memory_set.page_table@[v]]
                    0 <= i < idx + 1 && seg_start_vpn(segs@[i]) <= v < seg_end_vpn(
                        segs@[i],
                    ) implies memory_set.frames.owns(memory_set.page_table@[v].ppn as int) by {
                    if i < idx {
                        assert(seg_end_vpn(segs@[i]) <= seg_start_vpn(segs@[idx as int])
                            || seg_end_vpn(segs@[idx as int]) <= seg_start_vpn(segs@[i]));
                        assert(mprev.contains_key(v));
                        assert(memory_set.page_table@[v] == mprev[v]);
                        assert(fprev.owns(mprev[v].ppn as int));
                    } else {
                        assert(memory_set.page_table@.contains_key(v)
                            && memory_set.page_table@[v].ppn == nprev + (v - seg_start_vpn(
                            segs@[idx as int],
                        )));
                    }
                }
                assert forall|i: int|
                    0 <= i < idx + 1 implies #[trigger] seg_loaded(
                    memory_set.page_table@,
                    memory_set.frames,
                    segs@[i],
                    data@,
                ) by {
                    let sg = segs@[i];
                    if sg.file_size > 0 {
                        assert forall|k: int|
                            0 <= k < touched_pages(sg.file_size as int) implies (
                        #[trigger] memory_set.frames.page(
                            memory_set.page_table@[(seg_start_vpn(sg) + k) as nat].ppn as int,
                        )) =~= data_chunk(
                            data@.subrange(sg.offset as int, sg.offset + sg.file_size),
                            k,
                        ) + Seq::new(
                            (PAGE_SIZE - data_chunk(
                                data@.subrange(sg.offset as int, sg.offset + sg.file_size),
                                k,
                            ).len()) as nat,
                            |b: int| 0u8,
                        ) by {
                            let v = (seg_start_vpn(sg) + k) as nat;
                            assert(seg_start_vpn(sg) <= v < seg_end_vpn(sg));
                            if i < idx {
                                assert(seg_end_vpn(sg) <= seg_start_vpn(segs@[idx as int])
                                    || seg_end_vpn(segs@[idx as int]) <= seg_start_vpn(sg));
                                assert(mprev.contains_key(v));
                                assert(memory_set.page_table@[v] == mprev[v]);
                                assert(fprev.owns(mprev[v].ppn as int));
                                assert(memory_set.frames.page(mprev[v].ppn as int) == fprev.page(
                                    mprev[v].ppn as int,
                                ));
                                assert(seg_loaded(mprev, fprev, sg, data@));
                                assert(fprev.page(mprev[v].ppn as int) =~= data_chunk(
                                    data@.subrange(sg.offset as int, sg.offset + sg.file_size),
                                    k,
                                ) + Seq::new(
                                    (PAGE_SIZE - data_chunk(
                                        data@.subrange(sg.offset as int, sg.offset + sg.file_size),
                                        k,
                                    ).len()) as nat,
                                    |b: int| 0u8,
                                ));
                            } else {
                                assert(memory_set.page_table@.contains_key(v)
                                    && memory_set.page_table@[v].ppn == nprev + k);
                                assert(memory_set.frames.page(nprev + k) =~= data_chunk(
                                    data@.subrange(sg.offset as int, sg.offset + sg.file_size),
                                    k,
                                ) + Seq::new(
                                    (PAGE_SIZE - data_chunk(
                                        data@.subrange(sg.offset as int, sg.offset + sg.file_size),
                                        k,
                                    ).len()) as nat,
                                    |b: int| 0u8,
                                ));
                            }
                        }
                    }
                }
                assert forall|i: int|
                    0 <= i < idx + 1 implies #[trigger] seg_tail_zero(
                    memory_set.page_table@,
                    memory_set.frames,
                    segs@[i],
                ) by {
                    let sg = segs@[i];
                    let lo_k: int = if sg.file_size > 0 {
                        touched_pages(sg.file_size as int)
                    } else {
                        0
                    };
                    assert forall|k: int|
                        lo_k <= k < seg_end_vpn(sg) - seg_start_vpn(sg) implies (
                    #[trigger] memory_set.frames.page(
                        memory_set.page_table@[(seg_start_vpn(sg) + k) as nat].ppn as int,
                    )) =~= Seq::new(PAGE_SIZE as nat, |b: int| 0u8) by {
                        let v = (seg_start_vpn(sg) + k) as nat;
                        assert(seg_start_vpn(sg) <= v < seg_end_vpn(sg));
                        if i < idx {
                            assert(seg_end_vpn(sg) <= seg_start_vpn(segs@[idx as int])
                                || seg_end_vpn(segs@[idx as int]) <= seg_start_vpn(sg));
                            assert(mprev.contains_key(v));
                            assert(memory_set.page_table@[v] == mprev[v]);
                            assert(fprev.owns(mprev[v].ppn as int));
                            assert(memory_set.frames.page(mprev[v].ppn as int) == fprev.page(
                                mprev[v].ppn as int,
                            ));
                            assert(seg_tail_zero(mprev, fprev, sg));
                            assert(fprev.page(mprev[v].ppn as int) =~= Seq::new(
                                PAGE_SIZE as nat,
                                |b: int| 0u8,
                            ));
                        } else {
                            assert(memory_set.page_table@.contains_key(v)
                                && memory_set.page_table@[v].ppn == nprev + k);
                            assert(memory_set.frames.page(nprev + k) =~= Seq::new(
                                PAGE_SIZE as nat,
                                |b: int| 0u8,
                            ));
                        }
                    }
                }
                assert forall|k: nat|
                    !in_some_seg(segs@, idx + 1, k) && k != tramp implies !(
                #[trigger] memory_set.page_table@.contains_key(k)) by {
                    assert(!in_some_seg(segs@, idx as int, k)) by {
                        if in_some_seg(segs@, idx as int, k) {
                            let j = choose|j: int|
                                0 <= j < idx && seg_start_vpn(#[trigger] segs@[j]) <= k
                                    < seg_end_vpn(segs@[j]);
                            assert(0 <= j < idx + 1 && seg_start_vpn(segs@[j]) <= k < seg_end_vpn(
                                segs@[j],
                            ));
                        }
                    }
                    assert(!(seg_start_vpn(segs@[idx as int]) <= k < seg_end_vpn(
                        segs@[idx as int],
                    ))) by {
                        if seg_start_vpn(segs@[idx as int]) <= k < seg_end_vpn(segs@[idx as int]) {
                            assert(0 <= idx < idx + 1 && seg_start_vpn(segs@[idx as int]) <= k
                                < seg_end_vpn(segs@[idx as int]));
                        }
                    }
                }
                assert(segs@.take(idx + 1)[idx as int] == segs@[idx as int]);
            }
            idx = idx + 1;
        }
        proof {
            assert(segs@.take(n as int) =~= segs@);
            lemma_max_end_vpn(segs@);
        }
        let user_stack_bottom_vpn = max_end + 1;
        let stack_pages = USER_STACK_SIZE / PAGE_SIZE;
        let user_stack_top_vpn = user_stack_bottom_vpn + stack_pages;
        let ghost m_after_segs = memory_set.page_table@;
        let ghost f_after_segs = memory_set.frames;
        proof {
            assert forall|v: nat|
                user_stack_bottom_vpn <= v < user_stack_top_vpn implies !(
            #[trigger] memory_set.page_table@.contains_key(v)) by {
                assert(!in_some_seg(segs@, n as int, v)) by {
                    if in_some_seg(segs@, n as int, v) {
                        let j = choose|j: int|
                            0 <= j < n && seg_start_vpn(#[trigger] segs@[j]) <= v < seg_end_vpn(
                                segs@[j],
                            );
                        assert(seg_end_vpn(segs@[j]) <= max_end_vpn(segs@));
                    }
                }
            }
        }
        memory_set.push(
            MapArea {
                vpn_start: user_stack_bottom_vpn,
                vpn_end: user_stack_top_vpn,
                data_frames: Vec::new(),
                map_type: MapType::Framed,
                map_perm: MapPermission { r: true, w: true, x: false, u: true },
            },
            None,
        );
        let ghost m_after_stack = memory_set.page_table@;
        let ghost f_after_stack = memory_set.frames;
        memory_set.push(
            MapArea {
                vpn_start: user_stack_top_vpn,
                vpn_end: user_stack_top_vpn,
                data_frames: Vec::new(),
                map_type: MapType::Framed,
                map_perm: MapPermission { r: true, w: true, x: false, u: true },
            },
            None,
        );
        let ghost m_after_heap = memory_set.page_table@;
        let ghost f_after_heap = memory_set.frames;
        proof {
            assert forall|v: nat|
                (TRAMPOLINE_VPN - 1) as nat <= v < TRAMPOLINE_VPN as nat implies !(
            #[trigger] memory_set.page_table@.contains_key(v)) by {
                assert(v == (TRAMPOLINE_VPN - 1) as nat);
                assert(!in_some_seg(segs@, n as int, v)) by {
                    if in_some_seg(segs@, n as int, v) {
                        let j = choose|j: int|
                            0 <= j < n && seg_start_vpn(#[trigger] segs@[j]) <= v < seg_end_vpn(
                                segs@[j],
                            );
                    }
                }
                assert(!m_after_segs.contains_key(v));
                assert(!m_after_stack.contains_key(v));
            }
        }
        memory_set.push(
            MapArea {
                vpn_start: TRAMPOLINE_VPN - 1,
                vpn_end: TRAMPOLINE_VPN,
                data_frames: Vec::new(),
                map_type: MapType::Framed,
                map_perm: MapPermission { r: true, w: true, x: false, u: false },
            },
            None,
        );
        proof {
            vstd::arithmetic::mul::lemma_mul_inequality(
                user_stack_bottom_vpn as int,
                TRAMPOLINE_VPN as int - 3,
                PAGE_SIZE as int,
            );
            assert((TRAMPOLINE_VPN as int - 3) * (PAGE_SIZE as int) + USER_STACK_SIZE
                <= usize::MAX as int);
        }
        let user_stack_bottom = user_stack_bottom_vpn * PAGE_SIZE;
        let user_stack_top = user_stack_bottom + USER_STACK_SIZE;
        proof {
            assert(memory_set.page_table@.contains_key(tramp) && memory_set.page_table@[tramp]
                == tramp_entry) by {
                assert(m_after_segs.contains_key(tramp));
                assert(m_after_stack.contains_key(tramp));
                assert(m_after_heap.contains_key(tramp));
            }
            assert(segs_mapped(memory_set.page_table@, segs@, n as int)) by {
                assert forall|i: int, v: nat|
                    #![trigger segs@[i], memory_set.page_table@.contains_key(v)]
                    0 <= i < n && seg_start_vpn(segs@[i]) <= v < seg_end_vpn(
                        segs@[i],
                    ) implies memory_set.page_table@.contains_key(v)
                    && memory_set.page_table@[v].flags == (PteFlags {
                    v: true,
                    r: segs@[i].readable,
                    w: segs@[i].writable,
                    x: segs@[i].executable,
                    u: true,
                }) by {
                    assert(seg_end_vpn(segs@[i]) <= max_end);
                    assert(m_after_segs.contains_key(v));
                    assert(m_after_stack.contains_key(v));
                    assert(m_after_heap.contains_key(v));
                }
            }
            assert forall|i: int|
                0 <= i < n implies #[trigger] seg_loaded(
                memory_set.page_table@,
                memory_set.frames,
                segs@[i],
                data@,
            ) by {
                let sg = segs@[i];
                if sg.file_size > 0 {
                    assert forall|k: int|
                        0 <= k < touched_pages(sg.file_size as int) implies (
                    #[trigger] memory_set.frames.page(
                        memory_set.page_table@[(seg_start_vpn(sg) + k) as nat].ppn as int,
                    )) =~= data_chunk(
                        data@.subrange(sg.offset as int, sg.offset + sg.file_size),
                        k,
                    ) + Seq::new(
                        (PAGE_SIZE - data_chunk(
                            data@.subrange(sg.offset as int, sg.offset + sg.file_size),
                            k,
                        ).len()) as nat,
                        |b: int| 0u8,
                    ) by {
                        let v = (seg_start_vpn(sg) + k) as nat;
                        assert(seg_start_vpn(sg) <= v < seg_end_vpn(sg));
                        assert(seg_end_vpn(sg) <= max_end);
                        assert(m_after_segs.contains_key(v));
                        assert(m_after_stack.contains_key(v) && m_after_stack[v]
                            == m_after_segs[v]);
                        assert(m_after_heap.contains_key(v) && m_after_heap[v] == m_after_stack[v]);
                        assert(memory_set.page_table@.contains_key(v) && memory_set.page_table@[v]
                            == m_after_heap[v]);
                        let p = m_after_segs[v].ppn as int;
                        assert(f_after_segs.owns(p));
                        assert(f_after_stack.page(p) == f_after_segs.page(p));
                        assert(f_after_stack.owns(p));
                        assert(f_after_heap.page(p) == f_after_stack.page(p));
                        assert(f_after_heap.owns(p));
                        assert(memory_set.frames.page(p) == f_after_heap.page(p));
                        assert(seg_loaded(m_after_segs, f_after_segs, sg, data@));
                        assert(f_after_segs.page(p) =~= data_chunk(
                            data@.subrange(sg.offset as int, sg.offset + sg.file_size),
                            k,
                        ) + Seq::new(
                            (PAGE_SIZE - data_chunk(
                                data@.subrange(sg.offset as int, sg.offset + sg.file_size),
                                k,
                            ).len()) as nat,
                            |b: int| 0u8,
                        ));
                    }
                }
            }
            assert forall|i: int|
                0 <= i < n implies #[trigger] seg_tail_zero(
                memory_set.page_table@,
                memory_set.frames,
                segs@[i],
            ) by {
                let sg = segs@[i];
                let lo_k: int = if sg.file_size > 0 {
                    touched_pages(sg.file_size as int)
                } else {
                    0
                };
                assert forall|k: int|
                    lo_k <= k < seg_end_vpn(sg) - seg_start_vpn(sg) implies (
                #[trigger] memory_set.frames.page(
                    memory_set.page_table@[(seg_start_vpn(sg) + k) as nat].ppn as int,
                )) =~= Seq::new(PAGE_SIZE as nat, |b: int| 0u8) by {
                    let v = (seg_start_vpn(sg) + k) as nat;
                    assert(seg_start_vpn(sg) <= v < seg_end_vpn(sg));
                    assert(seg_end_vpn(sg) <= max_end);
                    assert(m_after_segs.contains_key(v));
                    assert(m_after_stack.contains_key(v) && m_after_stack[v] == m_after_segs[v]);
                    assert(m_after_heap.contains_key(v) && m_after_heap[v] == m_after_stack[v]);
                    assert(memory_set.page_table@.contains_key(v) && memory_set.page_table@[v]
                        == m_after_heap[v]);
                    let p = m_after_segs[v].ppn as int;
                    assert(f_after_segs.owns(p));
                    assert(f_after_stack.page(p) == f_after_segs.page(p));
                    assert(f_after_stack.owns(p));
                    assert(f_after_heap.page(p) == f_after_stack.page(p));
                    assert(f_after_heap.owns(p));
                    assert(memory_set.frames.page(p) == f_after_heap.page(p));
                    assert(seg_tail_zero(m_after_segs, f_after_segs, sg));
                    assert(f_after_segs.page(p) =~= Seq::new(PAGE_SIZE as nat, |b: int| 0u8));
                }
            }
            assert forall|v: nat|
                max_end + 1 <= v < max_end + 1 + USER_STACK_SIZE as int / PAGE_SIZE as int implies (
            #[trigger] memory_set.page_table@.contains_key(v)) && memory_set.page_table@[v].flags
                == (PteFlags { v: true, r: true, w: true, x: false, u: true }) by {
                assert(m_after_stack.contains_key(v));
                assert(m_after_heap.contains_key(v));
            }
            assert forall|k: nat|
                !in_some_seg(segs@, n as int, k) && !(max_end + 1 <= k < max_end + 1
                    + USER_STACK_SIZE as int / PAGE_SIZE as int) && k != (TRAMPOLINE_VPN - 1) as nat
                    && k != tramp implies !(#[trigger] memory_set.page_table@.contains_key(k)) by {
                assert(!m_after_segs.contains_key(k));
                assert(!m_after_stack.contains_key(k));
                assert(!m_after_heap.contains_key(k));
            }
            assert(!in_some_seg(segs@, n as int, max_end_vpn(segs@) as nat)) by {
                if in_some_seg(segs@, n as int, max_end_vpn(segs@) as nat) {
                    let j = choose|j: int|
                        0 <= j < n && seg_start_vpn(#[trigger] segs@[j]) <= (max_end_vpn(
                            segs@,
                        ) as nat) && (max_end_vpn(segs@) as nat) < seg_end_vpn(segs@[j]);
                    assert(seg_end_vpn(segs@[j]) <= max_end_vpn(segs@));
                }
            }
        }
        (memory_set, user_stack_top, entry)
    }

    /// A process address space parsed out of raw executable-image bytes:
    /// validates the image's magic header and collects its loadable program
    /// headers, rejecting (with `None`) a malformed, misplaced or oversized
    /// image, then builds the space exactly as `from_image` describes over
    /// the image's named header fields.
    pub fn from_elf(data: &[u8], strampoline_ppn: usize) -> (r: Option<(MemorySet, usize, usize)>)
        requires
            data@.len() <= usize::MAX - PAGE_SIZE,
        ensures
            data@.len() < 4 || data@.subrange(0, 4) != seq![0x7fu8, 0x45u8, 0x4cu8, 0x46u8]
                ==> r.is_none(),
            r.is_some() ==> ({
                let segs = elf_load_segments(data@, elf_ph_count_of(data@) as int);
                &&& segs_wf(segs, data@.len() as int)
                &&& total_seg_pages(segs) + 3 <= FRAME_POOL_END - FRAME_POOL_BASE - 1
                &&& elf_entry_of(data@) <= usize::MAX
                &&& r.unwrap().2 == elf_entry_of(data@) as usize
                &&& r.unwrap().1 == (max_end_vpn(segs) + 1) * PAGE_SIZE + USER_STACK_SIZE
                &&& r.unwrap().0.wf()
                &&& r.unwrap().0.page_table@.contains_key(TRAMPOLINE_VPN as nat)
                &&& r.unwrap().0.page_table@[TRAMPOLINE_VPN as nat] == (PageTableEntry {
                    ppn: strampoline_ppn,
                    flags: PteFlags { v: true, r: true, w: false, x: true, u: false },
                })
                &&& segs_mapped(r.unwrap().0.page_table@, segs, segs.len() as int)
                &&& (forall|i: int|
                    0 <= i < segs.len() ==> #[trigger] seg_loaded(
                        r.unwrap().0.page_table@,
                        r.unwrap().0.frames,
                        segs[i],
                        data@,
                    ))
                &&& (forall|i: int|
                    0 <= i < segs.len() ==> #[trigger] seg_tail_zero(
                        r.unwrap().0.page_table@,
                        r.unwrap().0.frames,
                        segs[i],
                    ))
                &&& !r.unwrap().0.page_table@.contains_key(max_end_vpn(segs) as nat)
                &&& (forall|v: nat|
                    max_end_vpn(segs) + 1 <= v < max_end_vpn(segs) + 1 + USER_STACK_SIZE as int
                        / PAGE_SIZE as int ==> (#[trigger] r.unwrap().0.page_table@.contains_key(
                        v,
                    )) && r.unwrap().0.page_table@[v].flags == (PteFlags {
                        v: true,
                        r: true,
                        w: true,
                        x: false,
                        u: true,
                    }))
                &&& r.unwrap().0.page_table@.contains_key((TRAMPOLINE_VPN - 1) as nat)
                &&& r.unwrap().0.page_table@[(TRAMPOLINE_VPN - 1) as nat].flags == (PteFlags {
                    v: true,
                    r: true,
                    w: true,
                    x: false,
                    u: false,
                })
                &&& r.unwrap().0.mmap_frames@.len() == 0
                &&& r.unwrap().0.areas@.len() == segs.len() + 3
                &&& (forall|i: int|
                    0 <= i < segs.len() ==> (#[trigger] r.unwrap().0.areas@[i]).vpn_start
                        == seg_start_vpn(segs[i]) && r.unwrap().0.areas@[i].vpn_end == seg_end_vpn(
                        segs[i],
                    ) && r.unwrap().0.areas@[i].map_type == MapType::Framed
                        && r.unwrap().0.areas@[i].map_perm == (MapPermission {
                        r: segs[i].readable,
                        w: segs[i].writable,
                        x: segs[i].executable,
                        u: true,
                    }))
                &&& r.unwrap().0.areas@[segs.len() as int].vpn_start == max_end_vpn(segs) + 1
                &&& r.unwrap().0.areas@[segs.len() as int].vpn_end == max_end_vpn(segs) + 1
                    + USER_STACK_SIZE as int / PAGE_SIZE as int
                &&& r.unwrap().0.areas@[segs.len() as int].map_type == MapType::Framed
                &&& r.unwrap().0.areas@[segs.len() as int].map_perm == (MapPermission {
                    r: true,
                    w: true,
                    x: false,
                    u: true,
                })
                &&& r.unwrap().0.areas@[segs.len() as int + 1].vpn_start == max_end_vpn(segs) + 1
                    + USER_STACK_SIZE as int / PAGE_SIZE as int
                &&& r.unwrap().0.areas@[segs.len() as int + 1].vpn_end == r.unwrap().0.areas@[segs.len() as int + 1].vpn_start
                &&& r.unwrap().0.areas@[segs.len() as int + 1].map_type == MapType::Framed
                &&& r.unwrap().0.areas@[segs.len() as int + 1].map_perm == (MapPermission {
                    r: true,
                    w: true,
                    x: false,
                    u: true,
                })
                &&& r.unwrap().0.areas@[segs.len() as int + 2].vpn_start == TRAMPOLINE_VPN - 1
                &&& r.unwrap().0.areas@[segs.len() as int + 2].vpn_end == TRAMPOLINE_VPN
                &&& r.unwrap().0.areas@[segs.len() as int + 2].map_type == MapType::Framed
                &&& r.unwrap().0.areas@[segs.len() as int + 2].map_perm == (MapPermission {
                    r: true,
                    w: true,
                    x: false,
                    u: false,
                })
            }),
    {
        let magic = match elf_magic(data) {
            Some(m) => m,
            None => {
                return None;
            },
        };
        if !(magic[0] == 0x7f && magic[1] == 0x45 && magic[2] == 0x4c && magic[3] == 0x46) {
            return None;
        }
        proof {
            assert(data@.subrange(0, 4) =~= seq![0x7fu8, 0x45u8, 0x4cu8, 0x46u8]) by {
                assert(magic@[0] == 0x7fu8 && magic@[1] == 0x45u8 && magic@[2] == 0x4cu8
                    && magic@[3] == 0x46u8);
            }
        }
        let count = match elf_ph_count(data) {
            Some(c) => c,
            None => {
                return None;
            },
        };
        let data_len = data.len();
        let mut segs: Vec<ImageSegment> = Vec::new();
        let mut total: usize = 0;
        let mut i: u16 = 0;
        proof {
            assert(total_seg_pages(segs@) == 0);
            assert(segs@ =~= elf_load_segments(data@, 0));
        }
        while i < count
            invariant
                data_len == data@.len(),
                data_len <= usize::MAX - PAGE_SIZE,
                count == elf_ph_count_of(data@),
                0 <= i <= count,
                segs@ == elf_load_segments(data@, i as int),
                segs_wf(segs@, data_len as int),
                total == total_seg_pages(segs@),
                total <= FRAME_POOL_END - FRAME_POOL_BASE - 4,
            decreases count - i,
        {
            let is_load = match ph_is_load(data, i) {
                Some(b) => b,
                None => {
                    return None;
                },
            };
            if is_load {
                let vaddr64 = match ph_virtual_addr(data, i) {
                    Some(x) => x,
                    None => {
                        return None;
                    },
                };
                let mem64 = match ph_mem_size(data, i) {
                    Some(x) => x,
                    None => {
                        return None;
                    },
                };
                let off64 = match ph_offset(data, i) {
                    Some(x) => x,
                    None => {
                        return None;
                    },
                };
                let fsize64 = match ph_file_size(data, i) {
                    Some(x) => x,
                    None => {
                        return None;
                    },
                };
                let bits = match ph_flags_bits(data, i) {
                    Some(x) => x,
                    None => {
                        return None;
                    },
                };
                if vaddr64 > usize::MAX as u64 || mem64 > usize::MAX as u64 || off64
                    > usize::MAX as u64 || fsize64 > usize::MAX as u64 {
                    return None;
                }
                let vaddr = vaddr64 as usize;
                let mem_size = mem64 as usize;
                let offset = off64 as usize;
                let file_size = fsize64 as usize;
                if mem_size > usize::MAX - PAGE_SIZE || vaddr > usize::MAX - PAGE_SIZE - mem_size {
                    return None;
                }
                if offset > data_len || file_size > data_len - offset {
                    return None;
                }
                // The flag bits follow the executable format's fixed layout,
                // as xmas_elf's flag accessors read them: executable is bit
                // 0, writable bit 1, readable bit 2.
                let seg = ImageSegment {
                    vaddr,
                    mem_size,
                    offset,
                    file_size,
                    readable: bits & 0x4 != 0,
                    writable: bits & 0x2 != 0,
                    executable: bits & 0x1 != 0,
                };
                proof {
                    assert(seg == elf_segment_of(data@, i));
                }
                let start_vpn = VirtAddr(vaddr).floor();
                let end_vpn = VirtAddr(vaddr + mem_size).ceil();
                if end_vpn < start_vpn || end_vpn > TRAMPOLINE_VPN - 4 {
                    return None;
                }
                if file_size > 0 {
                    let touched = (file_size - 1) / PAGE_SIZE + 1;
                    if touched > end_vpn - start_vpn {
                        return None;
                    }
                }
                if end_vpn - start_vpn > FRAME_POOL_END - FRAME_POOL_BASE - 4 - total {
                    return None;
                }
                let m = segs.len();
                let mut j: usize = 0;
                while j < m
                    invariant
                        m == segs@.len(),
                        0 <= j <= m,
                        data_len <= usize::MAX - PAGE_SIZE,
                        segs_wf(segs@, data_len as int),
                        start_vpn == seg_start_vpn(seg),
                        end_vpn == seg_end_vpn(seg),
                        forall|q: int|
                            0 <= q < j ==> seg_end_vpn(#[trigger] segs@[q]) <= seg_start_vpn(seg)
                                || seg_end_vpn(seg) <= seg_start_vpn(segs@[q]),
                    decreases m - j,
                {
                    let other = segs[j];
                    proof {
                        assert(segs@[j as int].vaddr + segs@[j as int].mem_size <= usize::MAX
                            - PAGE_SIZE);
                    }
                    let o_start = VirtAddr(other.vaddr).floor();
                    let o_end = VirtAddr(other.vaddr + other.mem_size).ceil();
                    proof {
                        assert(o_start == seg_start_vpn(segs@[j as int]));
                        assert(o_end == seg_end_vpn(segs@[j as int]));
                    }
                    if !(o_end <= start_vpn || end_vpn <= o_start) {
                        return None;
                    }
                    j = j + 1;
                }
                let ghost old_segs = segs@;
                segs.push(seg);
                total = total + (end_vpn - start_vpn);
                proof {
                    assert(segs@.drop_last() =~= old_segs);
                    assert(segs@.last() == seg);
                    assert(segs@ =~= elf_load_segments(data@, i + 1));
                    assert(segs_wf(segs@, data_len as int)) by {
                        assert(forall|q: int|
                            0 <= q < old_segs.len() ==> (#[trigger] segs@[q]) == old_segs[q]);
                    }
                }
            } else {
                proof {
                    assert(segs@ =~= elf_load_segments(data@, i + 1));
                }
            }
            i = i + 1;
        }
        let entry64 = match elf_entry_point(data) {
            Some(x) => x,
            None => {
                return None;
            },
        };
        if entry64 > usize::MAX as u64 {
            return None;
        }
        let entry = entry64 as usize;
        Some(MemorySet::from_image(&segs, data, entry, strampoline_ppn))
    }
}

/// The loadable segment the image's `i`-th program header describes, as the
/// named header fields spell it; the user-accessible bit is always forced.
pub open spec fn elf_segment_of(data: Seq<u8>, i: u16) -> ImageSegment {
    ImageSegment {
        vaddr: elf_ph_vaddr(data, i) as usize,
        mem_size: elf_ph_mem_size(data, i) as usize,
        offset: elf_ph_offset(data, i) as usize,
        file_size: elf_ph_file_size(data, i) as usize,
        readable: elf_ph_flags(data, i) & 4 != 0,
        writable: elf_ph_flags(data, i) & 2 != 0,
        executable: elf_ph_flags(data, i) & 1 != 0,
    }
}

/// The image's loadable segments among its first `n` program headers, in
/// header order.
pub open spec fn elf_load_segments(data: Seq<u8>, n: int) -> Seq<ImageSegment>
    decreases n,
{
    if n <= 0 {
        Seq::empty()
    } else if elf_ph_is_load(data, (n - 1) as u16) {
        elf_load_segments(data, n - 1).push(elf_segment_of(data, (n - 1) as u16))
    } else {
        elf_load_segments(data, n - 1)
    }
}

pub uninterp spec fn elf_ph_count_of(data: Seq<u8>) -> u16;

pub uninterp spec fn elf_entry_of(data: Seq<u8>) -> u64;

pub uninterp spec fn elf_ph_is_load(data: Seq<u8>, i: u16) -> bool;

pub uninterp spec fn elf_ph_vaddr(data: Seq<u8>, i: u16) -> u64;

pub uninterp spec fn elf_ph_mem_size(data: Seq<u8>, i: u16) -> u64;

pub uninterp spec fn elf_ph_offset(data: Seq<u8>, i: u16) -> u64;

pub uninterp spec fn elf_ph_file_size(data: Seq<u8>, i: u16) -> u64;

pub uninterp spec fn elf_ph_flags(data: Seq<u8>, i: u16) -> u32;

/// Relies on the `magic` field of xmas_elf's parsed header: the image's
/// first four bytes, which `ElfFile::new` has already length-checked. `None`
/// where parsing rejects the image, or where the buffer's placement would
/// misalign the parser's raw header reads (those reads assert 8-byte
/// address alignment).
#[verifier::external_body]
fn elf_magic(data: &[u8]) -> (r: Option<[u8; 4]>)
    ensures
        r.is_some() ==> data@.len() >= 4 && r.unwrap()@ =~= data@.subrange(0, 4),
{
    if data.as_ptr() as usize % 8 != 0 {
        return None;
    }
    xmas_elf::ElfFile::new(data).ok().map(|elf| elf.header.pt1.magic)
}

/// Relies on xmas_elf's `ph_count` header getter, reached through
/// `ElfFile::new` on the same bytes: the count is a function of the bytes
/// alone. `None` as for `elf_magic`.
#[verifier::external_body]
fn elf_ph_count(data: &[u8]) -> (r: Option<u16>)
    ensures
        r.is_some() ==> r.unwrap() == elf_ph_count_of(data@),
{
    if data.as_ptr() as usize % 8 != 0 {
        return None;
    }
    xmas_elf::ElfFile::new(data).ok().map(|elf| elf.header.pt2.ph_count())
}

/// Relies on xmas_elf's `entry_point` header getter: the image's declared
/// entry-point address, a function of the bytes alone. `None` as for
/// `elf_magic`.
#[verifier::external_body]
fn elf_entry_point(data: &[u8]) -> (r: Option<u64>)
    ensures
        r.is_some() ==> r.unwrap() == elf_entry_of(data@),
{
    if data.as_ptr() as usize % 8 != 0 {
        return None;
    }
    xmas_elf::ElfFile::new(data).ok().map(|elf| elf.header.pt2.entry_point())
}

/// Relies on xmas_elf's `get_type` on the `i`-th program header: whether it
/// marks a loadable segment, a function of the bytes alone. `None` where
/// parsing rejects the image or header, or where the header-declared
/// offsets would make the parser's unchecked slice and raw reads panic
/// (out-of-bounds `ph_offset`/`ph_entry_size`, misalignment, or an entry
/// shorter than the header record).
#[verifier::external_body]
fn ph_is_load(data: &[u8], i: u16) -> (r: Option<bool>)
    ensures
        r.is_some() ==> r.unwrap() == elf_ph_is_load(data@, i),
{
    let elf = match ph_guard(data, i) {
        Some(elf) => elf,
        None => return None,
    };
    elf.program_header(i).ok().map(
        |ph| matches!(ph.get_type(), Ok(xmas_elf::program::Type::Load)),
    )
}

/// Relies on xmas_elf's `virtual_addr` program-header getter, a function of
/// the bytes alone; `None` as for `ph_is_load`.
#[verifier::external_body]
fn ph_virtual_addr(data: &[u8], i: u16) -> (r: Option<u64>)
    ensures
        r.is_some() ==> r.unwrap() == elf_ph_vaddr(data@, i),
{
    let elf = match ph_guard(data, i) {
        Some(elf) => elf,
        None => return None,
    };
    elf.program_header(i).ok().map(|ph| ph.virtual_addr())
}

/// Relies on xmas_elf's `mem_size` program-header getter, a function of the
/// bytes alone; `None` as for `ph_is_load`.
#[verifier::external_body]
fn ph_mem_size(data: &[u8], i: u16) -> (r: Option<u64>)
    ensures
        r.is_some() ==> r.unwrap() == elf_ph_mem_size(data@, i),
{
    let elf = match ph_guard(data, i) {
        Some(elf) => elf,
        None => return None,
    };
    elf.program_header(i).ok().map(|ph| ph.mem_size())
}

/// Relies on xmas_elf's `offset` program-header getter, a function of the
/// bytes alone; `None` as for `ph_is_load`.
#[verifier::external_body]
fn ph_offset(data: &[u8], i: u16) -> (r: Option<u64>)
    ensures
        r.is_some() ==> r.unwrap() == elf_ph_offset(data@, i),
{
    let elf = match ph_guard(data, i) {
        Some(elf) => elf,
        None => return None,
    };
    elf.program_header(i).ok().map(|ph| ph.offset())
}

/// Relies on xmas_elf's `file_size` program-header getter, a function of
/// the bytes alone; `None` as for `ph_is_load`.
#[verifier::external_body]
fn ph_file_size(data: &[u8], i: u16) -> (r: Option<u64>)
    ensures
        r.is_some() ==> r.unwrap() == elf_ph_file_size(data@, i),
{
    let elf = match ph_guard(data, i) {
        Some(elf) => elf,
        None => return None,
    };
    elf.program_header(i).ok().map(|ph| ph.file_size())
}

/// Relies on xmas_elf's `flags` program-header getter, handing its raw bits
/// out, a function of the bytes alone; `None` as for `ph_is_load`.
#[verifier::external_body]
fn ph_flags_bits(data: &[u8], i: u16) -> (r: Option<u32>)
    ensures
        r.is_some() ==> r.unwrap() == elf_ph_flags(data@, i),
{
    let elf = match ph_guard(data, i) {
        Some(elf) => elf,
        None => return None,
    };
    elf.program_header(i).ok().map(|ph| ph.flags().0)
}

#[verifier::external_type_specification]
#[verifier::external_body]
pub struct ExElfFile<'a>(xmas_elf::ElfFile<'a>);

/// Shared guard of the program-header wrappers. Relies on
/// `xmas_elf::ElfFile::new` and the header getters it re-reads, and checks,
/// before xmas_elf's unchecked slice and raw reads run, what would make
/// them panic: buffer misalignment, header-declared offsets or entry sizes
/// that are misaligned for the image's class, shorter than its header
/// record, or past the end of the image. Promises nothing of its result.
#[verifier::external_body]
fn ph_guard<'a>(data: &'a [u8], i: u16) -> (r: Option<xmas_elf::ElfFile<'a>>) {
    if data.as_ptr() as usize % 8 != 0 {
        return None;
    }
    let elf = xmas_elf::ElfFile::new(data).ok()?;
    let (al, min_sz): (u64, u64) = match elf.header.pt1.class() {
        xmas_elf::header::Class::SixtyFour => (8, 56),
        xmas_elf::header::Class::ThirtyTwo => (4, 32),
        _ => return None,
    };
    let off = elf.header.pt2.ph_offset();
    let sz = elf.header.pt2.ph_entry_size() as u64;
    let end = off.checked_add((i as u64).checked_add(1)?.checked_mul(sz)?)?;
    if off % al != 0 || sz % al != 0 || sz < min_sz || end > data.len() as u64 { return None; }
    Some(elf)
}

} // verus!
