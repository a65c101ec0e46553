//! The physical frame pool: hands out zeroed physical pages with strictly
//! increasing page numbers and stores the byte contents of every page it has
//! handed out, so that copying into a mapped frame and reading it back are
//! meaningful operations.

use vstd::prelude::*;

use crate::types::PAGE_SIZE;

verus! {

/// A handle owning one allocated physical page.
#[derive(Clone, Copy, PartialEq, Eq, Structural, Debug)]
pub struct FrameTracker {
    pub ppn: usize,
}

/// The frame arena denoted by an association list of page-number keyed
/// handles, later pairs taking precedence (irrelevant once keys are
/// distinct).
pub open spec fn tracker_map(s: Seq<(usize, FrameTracker)>) -> Map<nat, FrameTracker>
    decreases s.len(),
{
    if s.len() == 0 {
        Map::empty()
    } else {
        tracker_map(s.drop_last()).insert(s.last().0 as nat, s.last().1)
    }
}

/// No page number keys two entries of the arena.
pub open spec fn tracker_keys_distinct(s: Seq<(usize, FrameTracker)>) -> bool {
    forall|i: int, j: int|
        0 <= i < s.len() && 0 <= j < s.len() && i != j ==> (#[trigger] s[i]).0 != (
        #[trigger] s[j]).0
}

/// A key is in the denoted arena exactly when some pair of the list holds
/// it.
pub proof fn lemma_tracker_map_domain(s: Seq<(usize, FrameTracker)>, k: nat)
    ensures
        tracker_map(s).contains_key(k) <==> exists|i: int|
            0 <= i < s.len() && (#[trigger] s[i]).0 == k,
    decreases s.len(),
{
    if s.len() > 0 {
        lemma_tracker_map_domain(s.drop_last(), k);
        if s.last().0 == k {
            assert(s[s.len() - 1].0 == k);
        } else if tracker_map(s).contains_key(k) {
            let i = choose|i: int|
                0 <= i < s.drop_last().len() && (#[trigger] s.drop_last()[i]).0 == k;
            assert(s[i].0 == k);
        } else {
            assert forall|i: int| 0 <= i < s.len() && (#[trigger] s[i]).0 == k implies false by {
                if i < s.len() - 1 {
                    assert(s.drop_last()[i].0 == k);
                }
            }
        }
    }
}

/// With distinct keys, removing the pair at an index removes exactly its
/// key from the denoted arena.
pub proof fn lemma_tracker_map_remove(s: Seq<(usize, FrameTracker)>, i: int)
    requires
        tracker_keys_distinct(s),
        0 <= i < s.len(),
    ensures
        tracker_map(s.remove(i)) =~= tracker_map(s).remove(s[i].0 as nat),
    decreases s.len(),
{
    if i == s.len() - 1 {
        assert(s.remove(i) =~= s.drop_last());
        lemma_tracker_map_domain(s.drop_last(), s[i].0 as nat);
        assert(!tracker_map(s.drop_last()).contains_key(s[i].0 as nat));
        assert(tracker_map(s.drop_last()) =~= tracker_map(s).remove(s[i].0 as nat));
    } else {
        assert(tracker_keys_distinct(s.drop_last()));
        lemma_tracker_map_remove(s.drop_last(), i);
        assert(s.remove(i).drop_last() =~= s.drop_last().remove(i));
        assert(s.remove(i).last() == s.last());
        assert(tracker_map(s.remove(i)) =~= tracker_map(s.drop_last().remove(i)).insert(
            s.last().0 as nat,
            s.last().1,
        ));
        assert(s[i].0 != s.last().0);
    }
}

/// The pool of physical pages available for framed mappings, together with
/// the contents of every page it has handed out. Pages are handed out in
/// ascending order starting at `base`; the pool is exhausted at `end`.
///
/// The model never returns a page to the pool: dropping an owner releases
/// nothing, so the pool can run out where a recycling allocator would not.
/// No contract here depends on reuse.
pub struct FrameAllocator {
    base: usize,
    end: usize,
    pages: Vec<Vec<u8>>,
}

impl FrameAllocator {
    pub closed spec fn wf(&self) -> bool {
        &&& self.base + self.pages@.len() <= self.end
        &&& forall|i: int| 0 <= i < self.pages@.len() ==> (#[trigger] self.pages@[i])@.len() == PAGE_SIZE
    }

    /// First page number of the pool.
    pub closed spec fn spec_base(&self) -> int {
        self.base as int
    }

    /// Page number the next allocation returns.
    pub closed spec fn next(&self) -> int {
        self.base + self.pages@.len()
    }

    /// How many pages the pool can still hand out.
    pub open spec fn frames_left(&self) -> int {
        self.spec_end() - self.next()
    }

    /// One-past-the-last page number of the pool.
    pub closed spec fn spec_end(&self) -> int {
        self.end as int
    }

    /// Whether this pool has handed the page out.
    pub open spec fn owns(&self, ppn: int) -> bool {
        self.spec_base() <= ppn < self.next()
    }

    /// Byte contents of an owned page.
    pub closed spec fn page(&self, ppn: int) -> Seq<u8> {
        self.pages@[ppn - self.spec_base()]@
    }

    /// A well-formed pool's next page lies between its bounds.
    pub proof fn lemma_wf_bounds(&self)
        requires
            self.wf(),
        ensures
            0 <= self.spec_base(),
            self.spec_base() <= self.next(),
            self.next() <= self.spec_end(),
            self.spec_end() <= usize::MAX,
    {
    }

    pub fn new(base: usize, end: usize) -> (a: FrameAllocator)
        requires
            base <= end,
        ensures
            a.wf(),
            a.spec_base() == base,
            a.spec_end() == end,
            a.next() == base,
    {
        FrameAllocator { base, end, pages: Vec::new() }
    }

    /// Hand out the next physical page, zero-filled; `None` exactly when the
    /// pool is exhausted.
    pub fn allocate(&mut self) -> (r: Option<FrameTracker>)
        requires
            old(self).wf(),
        ensures
            final(self).wf(),
            final(self).spec_base() == old(self).spec_base(),
            final(self).spec_end() == old(self).spec_end(),
            r.is_some() <==> old(self).frames_left() > 0,
            r.is_some() ==> {
                &&& r.unwrap().ppn == old(self).next()
                &&& final(self).next() == old(self).next() + 1
                &&& final(self).page(old(self).next()) =~= Seq::new(PAGE_SIZE as nat, |i: int| 0u8)
            },
            r.is_none() ==> final(self).next() == old(self).next(),
            forall|p: int| old(self).owns(p) ==> final(self).page(p) == old(self).page(p),
    {
        if self.base + self.pages.len() < self.end {
            let mut page: Vec<u8> = Vec::new();
            let mut i: usize = 0;
            while i < PAGE_SIZE
                invariant
                    0 <= i <= PAGE_SIZE,
                    page@.len() == i,
                    forall|j: int| 0 <= j < i ==> page@[j] == 0u8,
                decreases PAGE_SIZE - i,
            {
                page.push(0u8);
                i = i + 1;
            }
            let ppn = self.base + self.pages.len();
            self.pages.push(page);
            Some(FrameTracker { ppn })
        } else {
            None
        }
    }

    /// Write the given bytes at the start of an owned page; the rest of the
    /// page keeps its previous contents.
    pub fn write_page(&mut self, ppn: usize, src: &[u8])
        requires
            old(self).wf(),
            old(self).owns(ppn as int),
            src@.len() <= PAGE_SIZE,
        ensures
            final(self).wf(),
            final(self).spec_base() == old(self).spec_base(),
            final(self).spec_end() == old(self).spec_end(),
            final(self).next() == old(self).next(),
            final(self).page(ppn as int) =~= src@ + old(self).page(ppn as int).skip(src@.len() as int),
            forall|p: int|
                old(self).owns(p) && p != ppn ==> final(self).page(p) == old(self).page(p),
    {
        let idx = ppn - self.base;
        let n = src.len();
        let mut j: usize = 0;
        while j < n
            invariant
                self.wf(),
                n == src@.len(),
                n <= PAGE_SIZE,
                0 <= j <= n,
                0 <= idx < self.pages@.len(),
                self.base == old(self).base,
                self.end == old(self).end,
                self.pages@.len() == old(self).pages@.len(),
                forall|p: int|
                    0 <= p < self.pages@.len() && p != idx ==> (#[trigger] self.pages@[p])
                        == old(self).pages@[p],
                self.pages@[idx as int]@.len() == PAGE_SIZE,
                forall|k: int| 0 <= k < j ==> (#[trigger] self.pages@[idx as int]@[k]) == src@[k],
                forall|k: int|
                    j <= k < PAGE_SIZE ==> (#[trigger] self.pages@[idx as int]@[k])
                        == old(self).pages@[idx as int]@[k],
            decreases n - j,
        {
            let b = src[j];
            let page = &mut self.pages[idx];
            page.set(j, b);
            j = j + 1;
        }
    }

    /// Read one byte of an owned page.
    pub fn read_byte(&self, ppn: usize, offset: usize) -> (r: u8)
        requires
            self.wf(),
            self.owns(ppn as int),
            offset < PAGE_SIZE,
        ensures
            r == self.page(ppn as int)[offset as int],
    {
        let idx = ppn - self.base;
        self.pages[idx][offset]
    }
}

} // verus!
