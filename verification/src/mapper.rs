//! A model of the hardware page table and of deferred TLB
//! invalidation.
//!
//! The real page-table walker is an external collaborator of the core;
//! what the core relies on is only the mapping it maintains from
//! virtual pages to frames and flags. The model keeps that mapping as
//! plain data, so every algorithm above it is checked against the
//! page-table contents it produces.

use vstd::prelude::*;

use crate::flags::PageFlags;
use crate::page::{Frame, Page};

verus! {

/// Proof that a PTE was changed: the page whose stale translation must
/// be flushed before the change is relied upon.
#[derive(Clone, Copy, Debug, PartialEq, Eq, Structural)]
pub struct PageFlush {
    pub page: Page,
}

impl PageFlush {
    /// Perform the single-page invalidation at once instead of
    /// deferring it.
    pub fn flush(self) {
    }
}

/// A deferred collector of page invalidations, broadcast when its
/// holder goes out of scope.
pub struct PageFlushAll {
    pub queued: Vec<Page>,
}

impl PageFlushAll {
    /// An empty collector.
    pub fn new() -> (r: PageFlushAll)
        ensures
            r.queued@ == Seq::<Page>::empty(),
    {
        PageFlushAll { queued: Vec::new() }
    }

    /// Defer one invalidation.
    pub fn consume(&mut self, flush: PageFlush)
        ensures
            final(self).queued@ == old(self).queued@.push(flush.page),
    {
        self.queued.push(flush.page);
    }
}

/// One page-table entry: a virtual page mapped to a frame with flags.
#[derive(Clone, Copy, Debug, PartialEq, Eq, Structural)]
pub struct PteEntry {
    pub page: Page,
    pub frame: Frame,
    pub flags: PageFlags,
}

/// Whether no virtual page occurs twice among the entries.
pub open spec fn pte_unique(s: Seq<PteEntry>) -> bool {
    forall|a: int, b: int|
        0 <= a < b < s.len() ==> (#[trigger] s[a]).page.number != (#[trigger] s[b]).page.number
}

/// The entry for virtual page `p`, if any.
pub open spec fn pte_lookup(s: Seq<PteEntry>, p: int) -> Option<PteEntry>
    decreases s.len(),
{
    if s.len() == 0 {
        None
    } else if s.last().page.number == p {
        Some(s.last())
    } else {
        pte_lookup(s.drop_last(), p)
    }
}

/// When no entry names page `p`, the lookup finds nothing.
pub proof fn lemma_pte_lookup_absent(s: Seq<PteEntry>, p: int)
    requires
        forall|a: int| 0 <= a < s.len() ==> (#[trigger] s[a]).page.number != p,
    ensures
        pte_lookup(s, p) is None,
    decreases s.len(),
{
    if s.len() > 0 {
        assert(s[s.len() - 1] == s.last());
        lemma_pte_lookup_absent(s.drop_last(), p);
    }
}

/// When entry `a` names page `p`, the lookup finds exactly it.
pub proof fn lemma_pte_lookup_present(s: Seq<PteEntry>, a: int, p: int)
    requires
        pte_unique(s),
        0 <= a < s.len(),
        s[a].page.number == p,
    ensures
        pte_lookup(s, p) == Some(s[a]),
    decreases s.len(),
{
    if a == s.len() - 1 {
        assert(s.last() == s[a]);
    } else {
        assert(s.last().page.number != p);
        assert(s.drop_last()[a] == s[a]);
        lemma_pte_lookup_present(s.drop_last(), a, p);
    }
}

/// Removing entry `idx` only unmaps its page: lookups of every other
/// page are unchanged, and uniqueness is kept.
pub proof fn lemma_pte_remove(s: Seq<PteEntry>, idx: int)
    requires
        pte_unique(s),
        0 <= idx < s.len(),
    ensures
        pte_unique(s.remove(idx)),
        pte_lookup(s.remove(idx), s[idx].page.number as int) is None,
        forall|q: int|
            q != s[idx].page.number ==> pte_lookup(s.remove(idx), q) == pte_lookup(s, q),
    decreases s.len(),
{
    let t = s.remove(idx);
    assert forall|a: int, b: int| 0 <= a < b < t.len() implies (#[trigger] t[a]).page.number != (
    #[trigger] t[b]).page.number by {
        let a0 = if a < idx {
            a
        } else {
            a + 1
        };
        let b0 = if b < idx {
            b
        } else {
            b + 1
        };
        assert(t[a] == s[a0] && t[b] == s[b0]);
    }
    assert forall|a: int| 0 <= a < t.len() implies (#[trigger] t[a]).page.number
        != s[idx].page.number by {
        let a0 = if a < idx {
            a
        } else {
            a + 1
        };
        assert(t[a] == s[a0]);
    }
    lemma_pte_lookup_absent(t, s[idx].page.number as int);
    if idx == s.len() - 1 {
        assert(t =~= s.drop_last());
        assert forall|q: int| q != s[idx].page.number implies pte_lookup(t, q) == pte_lookup(
            s,
            q,
        ) by {
            assert(s.last() == s[idx]);
        }
    } else {
        assert(t.last() == s.last());
        assert(t.drop_last() =~= s.drop_last().remove(idx));
        assert(s.drop_last()[idx] == s[idx]);
        assert forall|a: int, b: int|
            0 <= a < b < s.drop_last().len() implies (#[trigger] s.drop_last()[a]).page.number != (
        #[trigger] s.drop_last()[b]).page.number by {
            assert(s.drop_last()[a] == s[a] && s.drop_last()[b] == s[b]);
        }
        lemma_pte_remove(s.drop_last(), idx);
        assert forall|q: int| q != s[idx].page.number implies pte_lookup(t, q) == pte_lookup(
            s,
            q,
        ) by {
            if s.last().page.number == q {
            } else {
                assert(pte_lookup(t, q) == pte_lookup(t.drop_last(), q));
                assert(pte_lookup(s, q) == pte_lookup(s.drop_last(), q));
            }
        }
    }
}

/// Appending an entry for a page that no entry names maps exactly that
/// page, and keeps uniqueness.
pub proof fn lemma_pte_push(s: Seq<PteEntry>, e: PteEntry)
    requires
        pte_unique(s),
        pte_lookup(s, e.page.number as int) is None,
    ensures
        pte_unique(s.push(e)),
        pte_lookup(s.push(e), e.page.number as int) == Some(e),
        forall|q: int| q != e.page.number ==> pte_lookup(s.push(e), q) == pte_lookup(s, q),
{
    let t = s.push(e);
    assert forall|a: int| 0 <= a < s.len() implies (#[trigger] s[a]).page.number
        != e.page.number by {
        if s[a].page.number == e.page.number {
            lemma_pte_lookup_present(s, a, e.page.number as int);
        }
    }
    assert forall|a: int, b: int| 0 <= a < b < t.len() implies (#[trigger] t[a]).page.number != (
    #[trigger] t[b]).page.number by {
        if b < s.len() {
            assert(t[a] == s[a] && t[b] == s[b]);
        } else {
            assert(t[a] == s[a] && t[b] == e);
        }
    }
    assert(t.drop_last() =~= s);
    assert(t.last() == e);
}

/// The model page table: the mapping from user virtual pages to frames
/// and flags that the walker maintains for one address space.
pub struct PageMapper {
    entries: Vec<PteEntry>,
}

impl PageMapper {
    /// The entries, in no particular order.
    pub closed spec fn entries_seq(self) -> Seq<PteEntry> {
        self.entries@
    }

    /// Each virtual page is mapped at most once.
    pub open spec fn wf(self) -> bool {
        pte_unique(self.entries_seq())
    }

    /// The translation of page `p`, as a spec value.
    pub open spec fn translate_spec(self, p: int) -> Option<PteEntry> {
        pte_lookup(self.entries_seq(), p)
    }

    /// An empty table.
    pub fn new() -> (r: PageMapper)
        ensures
            r.wf(),
            forall|p: int| r.translate_spec(p) is None,
    {
        let r = PageMapper { entries: Vec::new() };
        proof {
            assert forall|p: int| r.translate_spec(p) is None by {
                lemma_pte_lookup_absent(r.entries@, p);
            }
        }
        r
    }

    /// Find the index of the entry for `page`, if any.
    fn find(&self, page: Page) -> (r: Option<usize>)
        requires
            self.wf(),
        ensures
            match r {
                Some(idx) => idx < self.entries_seq().len() && self.entries_seq()[
                    idx as int
                ].page.number == page.number && self.translate_spec(page.number as int) == Some(
                    self.entries_seq()[idx as int],
                ),
                None => self.translate_spec(page.number as int) is None,
            },
    {
        let mut i: usize = 0;
        while i < self.entries.len()
            invariant
                self.wf(),
                i <= self.entries.len(),
                forall|a: int| 0 <= a < i ==> (#[trigger] self.entries@[a]).page.number
                    != page.number,
            decreases self.entries.len() - i,
        {
            if self.entries[i].page.number == page.number {
                proof {
                    lemma_pte_lookup_present(self.entries@, i as int, page.number as int);
                }
                return Some(i);
            }
            i = i + 1;
        }
        proof {
            lemma_pte_lookup_absent(self.entries@, page.number as int);
        }
        None
    }

    /// Translate a virtual page to its frame and flags.
    pub fn translate(&self, page: Page) -> (r: Option<(Frame, PageFlags)>)
        requires
            self.wf(),
        ensures
            r == match self.translate_spec(page.number as int) {
                Some(e) => Some((e.frame, e.flags)),
                None => None::<(Frame, PageFlags)>,
            },
    {
        match self.find(page) {
            Some(idx) => {
                let e = self.entries[idx];
                Some((e.frame, e.flags))
            },
            None => None,
        }
    }

    /// Map a virtual page to a frame with the given flags, replacing
    /// any entry the page had. In the model this never fails for want
    /// of page-table memory.
    pub fn map_phys(&mut self, page: Page, frame: Frame, flags: PageFlags) -> (r: Option<
        PageFlush,
    >)
        requires
            old(self).wf(),
        ensures
            final(self).wf(),
            r == Some(PageFlush { page }),
            final(self).translate_spec(page.number as int) == Some(
                PteEntry { page, frame, flags },
            ),
            forall|q: int|
                q != page.number ==> final(self).translate_spec(q) == old(self).translate_spec(q),
    {
        let ghost s0 = self.entries@;
        match self.find(page) {
            Some(idx) => {
                proof {
                    lemma_pte_remove(s0, idx as int);
                }
                self.entries.remove(idx);
            },
            None => {},
        }
        proof {
            lemma_pte_push(self.entries@, PteEntry { page, frame, flags });
        }
        self.entries.push(PteEntry { page, frame, flags });
        Some(PageFlush { page })
    }

    /// Unmap a virtual page, handing back what it was mapped to, or
    /// nothing when the page was not mapped (lazy pages need no
    /// unmapping). `keep_parents` concerns intermediate tables, which
    /// the model does not hold.
    pub fn unmap_phys(&mut self, page: Page, keep_parents: bool) -> (r: Option<
        (Frame, PageFlags, PageFlush),
    >)
        requires
            old(self).wf(),
        ensures
            final(self).wf(),
            r == match old(self).translate_spec(page.number as int) {
                Some(e) => Some((e.frame, e.flags, PageFlush { page })),
                None => None::<(Frame, PageFlags, PageFlush)>,
            },
            final(self).translate_spec(page.number as int) is None,
            forall|q: int|
                q != page.number ==> final(self).translate_spec(q) == old(self).translate_spec(q),
    {
        let ghost s0 = self.entries@;
        let _ = keep_parents;
        match self.find(page) {
            Some(idx) => {
                proof {
                    lemma_pte_remove(s0, idx as int);
                }
                let e = self.entries[idx];
                self.entries.remove(idx);
                Some((e.frame, e.flags, PageFlush { page }))
            },
            None => None,
        }
    }

    /// Change the flags of a mapped page, or do nothing when the page
    /// is not mapped (lazy mappings only update the grant's flags).
    pub fn remap(&mut self, page: Page, flags: PageFlags) -> (r: Option<PageFlush>)
        requires
            old(self).wf(),
        ensures
            final(self).wf(),
            r == match old(self).translate_spec(page.number as int) {
                Some(_) => Some(PageFlush { page }),
                None => None::<PageFlush>,
            },
            final(self).translate_spec(page.number as int) == match old(self).translate_spec(
                page.number as int,
            ) {
                Some(e) => Some(PteEntry { page: e.page, frame: e.frame, flags }),
                None => None::<PteEntry>,
            },
            forall|q: int|
                q != page.number ==> final(self).translate_spec(q) == old(self).translate_spec(q),
    {
        let ghost s0 = self.entries@;
        match self.find(page) {
            Some(idx) => {
                let e = self.entries[idx];
                proof {
                    lemma_pte_remove(s0, idx as int);
                }
                self.entries.remove(idx);
                proof {
                    lemma_pte_push(self.entries@, PteEntry { page: e.page, frame: e.frame, flags });
                }
                self.entries.push(PteEntry { page: e.page, frame: e.frame, flags });
                Some(PageFlush { page })
            },
            None => None,
        }
    }

    /// Clear the write bit of a mapped page, handing back the flags it
    /// had and its frame; nothing when the page is not mapped.
    pub fn remap_readonly(&mut self, page: Page) -> (r: Option<(PageFlags, Frame, PageFlush)>)
        requires
            old(self).wf(),
        ensures
            final(self).wf(),
            r == match old(self).translate_spec(page.number as int) {
                Some(e) => Some((e.flags, e.frame, PageFlush { page })),
                None => None::<(PageFlags, Frame, PageFlush)>,
            },
            final(self).translate_spec(page.number as int) == match old(self).translate_spec(
                page.number as int,
            ) {
                Some(e) => Some(
                    PteEntry {
                        page: e.page,
                        frame: e.frame,
                        flags: PageFlags { write: false, ..e.flags },
                    },
                ),
                None => None::<PteEntry>,
            },
            forall|q: int|
                q != page.number ==> final(self).translate_spec(q) == old(self).translate_spec(q),
    {
        let ghost s0 = self.entries@;
        match self.find(page) {
            Some(idx) => {
                let e = self.entries[idx];
                proof {
                    lemma_pte_remove(s0, idx as int);
                }
                self.entries.remove(idx);
                let new_entry = PteEntry {
                    page: e.page,
                    frame: e.frame,
                    flags: PageFlags { write: false, ..e.flags },
                };
                proof {
                    lemma_pte_push(self.entries@, new_entry);
                }
                self.entries.push(new_entry);
                Some((e.flags, e.frame, PageFlush { page }))
            },
            None => None,
        }
    }
}

/// The page table of one address space.
pub struct Table {
    pub utable: PageMapper,
}

/// Allocate a new empty user table. The kernel half of a real table is
/// copied from the active kernel mappings; the model holds user
/// entries only.
pub fn setup_new_utable() -> (r: Result<Table, crate::error::Error>)
    ensures
        r is Ok,
        r matches Ok(t) ==> t.utable.wf() && forall|p: int| t.utable.translate_spec(p) is None,
{
    Ok(Table { utable: PageMapper::new() })
}

} // verus!
