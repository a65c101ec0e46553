//! The page-table abstraction: a finite partial mapping from virtual page
//! numbers to valid entries, stored as an association list with distinct
//! keys. Its view is the `Map` of valid translations; `map` inserts an entry
//! with the Valid bit forced on, `unmap` removes one, `translate` looks one
//! up, and `token` yields the opaque hardware root value.

use vstd::prelude::*;

use crate::types::{PageTableEntry, PteFlags};

verus! {

/// The `Map` denoted by an association list, later pairs taking precedence
/// (irrelevant once keys are distinct).
pub open spec fn entries_map(s: Seq<(usize, PageTableEntry)>) -> Map<nat, PageTableEntry>
    decreases s.len(),
{
    if s.len() == 0 {
        Map::empty()
    } else {
        entries_map(s.drop_last()).insert(s.last().0 as nat, s.last().1)
    }
}

/// No virtual page number occurs twice in the list.
pub open spec fn distinct_keys(s: Seq<(usize, PageTableEntry)>) -> bool {
    forall|i: int, j: int|
        0 <= i < s.len() && 0 <= j < s.len() && i != j ==> (#[trigger] s[i]).0 != (#[trigger] s[j]).0
}

/// A key is in the denoted map exactly when some pair of the list holds it.
pub proof fn lemma_entries_map_domain(s: Seq<(usize, PageTableEntry)>, k: nat)
    ensures
        entries_map(s).contains_key(k) <==> exists|i: int| 0 <= i < s.len() && (#[trigger] s[i]).0 == k,
    decreases s.len(),
{
    if s.len() > 0 {
        lemma_entries_map_domain(s.drop_last(), k);
        if s.last().0 == k {
            assert(s[s.len() - 1].0 == k);
        } else if entries_map(s).contains_key(k) {
            let i = choose|i: int| 0 <= i < s.drop_last().len() && (#[trigger] s.drop_last()[i]).0 == k;
            assert(s[i].0 == k);
        } else {
            assert forall|i: int| 0 <= i < s.len() && (#[trigger] s[i]).0 == k implies false by {
                if i < s.len() - 1 {
                    assert(s.drop_last()[i].0 == k);
                }
            }
        }
    }
}

/// With distinct keys, the pair at any index gives the value the denoted map
/// holds for its key.
pub proof fn lemma_entries_map_index(s: Seq<(usize, PageTableEntry)>, i: int)
    requires
        distinct_keys(s),
        0 <= i < s.len(),
    ensures
        entries_map(s).contains_key(s[i].0 as nat),
        entries_map(s)[s[i].0 as nat] == s[i].1,
    decreases s.len(),
{
    if i == s.len() - 1 {
    } else {
        assert(distinct_keys(s.drop_last()));
        lemma_entries_map_index(s.drop_last(), i);
        assert(s.drop_last()[i] == s[i]);
        assert(s.last().0 != s[i].0);
    }
}

/// With distinct keys, removing the pair at an index removes exactly its key
/// from the denoted map.
pub proof fn lemma_entries_map_remove(s: Seq<(usize, PageTableEntry)>, i: int)
    requires
        distinct_keys(s),
        0 <= i < s.len(),
    ensures
        entries_map(s.remove(i)) =~= entries_map(s).remove(s[i].0 as nat),
    decreases s.len(),
{
    if i == s.len() - 1 {
        assert(s.remove(i) =~= s.drop_last());
        lemma_entries_map_domain(s.drop_last(), s[i].0 as nat);
        assert(!entries_map(s.drop_last()).contains_key(s[i].0 as nat));
        assert(entries_map(s.drop_last()) =~= entries_map(s).remove(s[i].0 as nat));
    } else {
        assert(distinct_keys(s.drop_last()));
        lemma_entries_map_remove(s.drop_last(), i);
        assert(s.remove(i).drop_last() =~= s.drop_last().remove(i));
        assert(s.remove(i).last() == s.last());
        assert(entries_map(s.remove(i)) =~= entries_map(s.drop_last().remove(i)).insert(
            s.last().0 as nat,
            s.last().1,
        ));
        assert(s[i].0 != s.last().0);
    }
}

/// One address space's translation structure. Only valid entries are stored:
/// `translate` answers `None` for every page number that was never mapped or
/// was unmapped since.
pub struct PageTable {
    root_ppn: usize,
    entries: Vec<(usize, PageTableEntry)>,
}

impl PageTable {
    /// The finite partial map of valid translations.
    pub closed spec fn view(&self) -> Map<nat, PageTableEntry> {
        entries_map(self.entries@)
    }

    pub closed spec fn wf(&self) -> bool {
        distinct_keys(self.entries@)
    }

    /// Physical page number of the root translation structure.
    pub closed spec fn spec_root_ppn(&self) -> usize {
        self.root_ppn
    }

    /// An empty page table rooted at the given physical page.
    pub fn new(root_ppn: usize) -> (pt: PageTable)
        ensures
            pt.wf(),
            pt@ =~= Map::<nat, PageTableEntry>::empty(),
            pt.spec_root_ppn() == root_ppn,
    {
        PageTable { root_ppn, entries: Vec::new() }
    }

    /// The opaque hardware root value: addressing-mode tag plus root page
    /// number.
    pub fn token(&self) -> (r: u64)
        ensures
            r == self.spec_root_ppn() as u64 | 8u64 << 60,
    {
        self.root_ppn as u64 | 8u64 << 60
    }

    /// Establish one translation. The entry is stored with the Valid bit on,
    /// whatever the given flags say.
    pub fn map(&mut self, vpn: usize, ppn: usize, flags: PteFlags)
        requires
            old(self).wf(),
            !old(self)@.contains_key(vpn as nat),
        ensures
            final(self).wf(),
            final(self)@ == old(self)@.insert(
                vpn as nat,
                PageTableEntry { ppn, flags: PteFlags { v: true, ..flags } },
            ),
            final(self).spec_root_ppn() == old(self).spec_root_ppn(),
    {
        let entry = PageTableEntry { ppn, flags: PteFlags { v: true, ..flags } };
        proof {
            lemma_entries_map_domain(self.entries@, vpn as nat);
            assert(forall|i: int|
                0 <= i < self.entries@.len() ==> (#[trigger] self.entries@[i]).0 != vpn);
        }
        self.entries.push((vpn, entry));
        proof {
            assert(self.entries@.drop_last() =~= old(self).entries@);
        }
    }

    /// Remove one translation.
    pub fn unmap(&mut self, vpn: usize)
        requires
            old(self).wf(),
            old(self)@.contains_key(vpn as nat),
        ensures
            final(self).wf(),
            final(self)@ == old(self)@.remove(vpn as nat),
            final(self).spec_root_ppn() == old(self).spec_root_ppn(),
    {
        let n = self.entries.len();
        let mut i: usize = 0;
        proof {
            lemma_entries_map_domain(self.entries@, vpn as nat);
        }
        while i < n && self.entries[i].0 != vpn
            invariant
                n == self.entries@.len(),
                0 <= i <= n,
                forall|j: int| 0 <= j < i ==> (#[trigger] self.entries@[j]).0 != vpn,
                exists|j: int| 0 <= j < n && (#[trigger] self.entries@[j]).0 == vpn,
            decreases n - i,
        {
            i = i + 1;
        }
        assert(i < n && self.entries@[i as int].0 == vpn);
        let ghost s_old = self.entries@;
        proof {
            lemma_entries_map_remove(s_old, i as int);
            s_old.remove_ensures(i as int);
        }
        let _ = self.entries.remove(i);
        proof {
            assert forall|a: int, b: int|
                0 <= a < self.entries@.len() && 0 <= b < self.entries@.len() && a != b implies (
            #[trigger] self.entries@[a]).0 != (#[trigger] self.entries@[b]).0 by {
                let oa: int = if a < i { a } else { a + 1 };
                let ob: int = if b < i { b } else { b + 1 };
                assert(self.entries@[a] == s_old[oa]);
                assert(self.entries@[b] == s_old[ob]);
            }
        }
    }

    /// Look one translation up; read-only.
    pub fn translate(&self, vpn: usize) -> (r: Option<PageTableEntry>)
        requires
            self.wf(),
        ensures
            r == if self@.contains_key(vpn as nat) {
                Some(self@[vpn as nat])
            } else {
                Option::<PageTableEntry>::None
            },
    {
        let n = self.entries.len();
        let mut i: usize = 0;
        while i < n
            invariant
                self.wf(),
                n == self.entries@.len(),
                0 <= i <= n,
                forall|j: int| 0 <= j < i ==> (#[trigger] self.entries@[j]).0 != vpn,
            decreases n - i,
        {
            if self.entries[i].0 == vpn {
                proof {
                    lemma_entries_map_index(self.entries@, i as int);
                }
                return Some(self.entries[i].1);
            }
            i = i + 1;
        }
        proof {
            lemma_entries_map_domain(self.entries@, vpn as nat);
        }
        None
    }
}

} // verus!
