//! Address spaces: one page table and one grant collection, with the
//! `mmap`, `mprotect` and `munmap` operations, and the set of address
//! spaces with `try_clone`, cross-space borrowing and the page fault
//! handler.

use vstd::prelude::*;

use crate::error::Error;
use crate::flags::{mprotect_flags, page_flags, page_flags_spec, MapFlags};
use crate::grant::{
    can_have_flags_spec, g_end, g_start, grant_contains, grant_valid, Grant, GrantFileRef,
    GrantInfo, Provider,
};
use crate::mapper::{PageFlushAll, Table};
use crate::page::{Frame, Page, MMAP_MIN_DEFAULT, PAGE_SIZE, USER_END_PAGE};
use crate::span::PageSpan;
use crate::user_grants::{
    conflicts_spec, find_free_at_post, grant_overlaps, grants_cover, insert_post, lemma_at_insert,
    lemma_conflicts_complete, lemma_conflicts_elements, lemma_conflicts_sorted,
    lemma_covering_index, lemma_grants_disjoint, lemma_grants_sorted, lemma_holes_canonical,
    lemma_remove_keep_outside, lemma_replace_with_pieces, page_state, UserGrants,
};

verus! {

/// What should back a fresh mapping: lazily zero-filled anonymous
/// memory, or a fixed physical range.
#[derive(Clone, Copy, Debug, PartialEq, Eq, Structural)]
pub enum MapSource {
    Zeroed,
    Physmap { base: Frame },
}

impl MapSource {
    /// The provider the new grant carries.
    pub open spec fn provider_spec(self) -> Provider {
        match self {
            MapSource::Zeroed => Provider::Allocated,
            MapSource::Physmap { base } => Provider::PhysBorrowed { base },
        }
    }
}

/// One address space: its page table, its grants with their holes, and
/// the lower bound for automatically placed mappings.
pub struct AddrSpace {
    pub table: Table,
    pub grants: UserGrants,
    /// Lowest offset for `mmap` invocations where the caller has not
    /// already specified the address.
    pub mmap_min: usize,
}

impl AddrSpace {
    /// The space's invariant: grants and holes dual, table consistent,
    /// placement bound page aligned.
    pub open spec fn wf(self) -> bool {
        &&& self.grants.wf()
        &&& self.table.utable.wf()
        &&& self.mmap_min % PAGE_SIZE == 0
    }

    /// An empty address space: no grants, an empty table, and the
    /// default placement bound of one page.
    pub fn new() -> (r: Result<AddrSpace, Error>)
        ensures
            r is Ok,
            r matches Ok(a) ==> a.wf() && a.grants.grants_seq() == Seq::<Grant>::empty()
                && a.grants.holes_seq() == seq![
                crate::user_grants::Hole { start: 0, count: USER_END_PAGE },
            ] && (forall|p: int| a.table.utable.translate_spec(p) is None) && a.mmap_min
                == MMAP_MIN_DEFAULT,
    {
        let table = match crate::mapper::setup_new_utable() {
            Ok(t) => t,
            Err(e) => {
                return Err(e);
            },
        };
        Ok(AddrSpace { grants: UserGrants::new(), table, mmap_min: MMAP_MIN_DEFAULT })
    }

    /// Map `page_count` fresh pages: resolve the destination from the
    /// hint and the placement flags, build the grant from `source`,
    /// record it, and return its base. The page table is untouched;
    /// first touches fault.
    pub fn mmap(
        &mut self,
        page: Option<Page>,
        page_count: usize,
        flags: MapFlags,
        source: MapSource,
    ) -> (r: Result<Page, Error>)
        requires
            old(self).wf(),
            page_count > 0,
            page matches Some(b) ==> b.number + page_count <= USER_END_PAGE,
            source matches MapSource::Physmap { base } ==> base.number + page_count <= usize::MAX,
        ensures
            final(self).wf(),
            final(self).mmap_min == old(self).mmap_min,
            final(self).table == old(self).table,
            r matches Err(e) ==> *final(self) == *old(self) && find_free_at_post(
                old(self).grants.grants_seq(),
                old(self).grants.holes_seq(),
                (old(self).mmap_min / PAGE_SIZE) as int,
                page,
                page_count as int,
                flags,
                Err(e),
            ),
            r matches Ok(base) ==> exists|span: PageSpan|
                #[trigger] find_free_at_post(
                    old(self).grants.grants_seq(),
                    old(self).grants.holes_seq(),
                    (old(self).mmap_min / PAGE_SIZE) as int,
                    page,
                    page_count as int,
                    flags,
                    Ok(span),
                ) && span.base == base && span.count == page_count && insert_post(
                    old(self).grants,
                    final(self).grants,
                    Grant {
                        base,
                        info: GrantInfo {
                            page_count,
                            flags: page_flags_spec(flags),
                            mapped: true,
                            provider: source.provider_spec(),
                        },
                    },
                ),
    {
        let selected_span = match self.grants.find_free_at(self.mmap_min, page, page_count, flags) {
            Ok(span) => span,
            Err(e) => {
                return Err(e);
            },
        };
        let mut flusher = PageFlushAll::new();
        let grant = match source {
            MapSource::Zeroed => {
                match Grant::zeroed(
                    selected_span,
                    page_flags(flags),
                    &mut self.table.utable,
                    &mut flusher,
                ) {
                    Ok(g) => g,
                    Err(_) => {
                        return Err(Error::NoMemory);
                    },
                }
            },
            MapSource::Physmap { base } => {
                match Grant::physmap(
                    base,
                    selected_span,
                    page_flags(flags),
                    &mut self.table.utable,
                    &mut flusher,
                ) {
                    Ok(g) => g,
                    Err(_) => {
                        return Err(Error::NoMemory);
                    },
                }
            },
        };
        self.grants.insert(grant);
        Ok(selected_span.base)
    }
}

/// One page-table entry with its flags replaced, when there is one.
pub open spec fn mprotect_pte(
    e: Option<crate::mapper::PteEntry>,
    f: crate::flags::PageFlags,
) -> Option<crate::mapper::PteEntry> {
    match e {
        Some(e) => Some(crate::mapper::PteEntry { page: e.page, frame: e.frame, flags: f }),
        None => None,
    }
}

/// Whether one of the first `n` listed grants covers page `p`.
pub open spec fn covered_by_prefix(cs: Seq<Grant>, n: int, p: int) -> bool {
    exists|m: int| 0 <= m < n && grant_contains(#[trigger] cs[m], p)
}

/// Whether `e` is one of the pieces an `mprotect` of `span` with the
/// given flags makes out of the grant `g`: the part before the
/// overlap, the overlap itself with the new write and execute bits,
/// or the part after it.
pub open spec fn is_mprotect_piece(e: Grant, g: Grant, span: PageSpan, flags: MapFlags) -> bool {
    let inter = g.span_spec().inter_spec(span);
    ||| (g.span_spec().before(inter) matches Some(bs) && e == g.piece_spec(bs))
    ||| e == (Grant {
        base: inter.base,
        info: GrantInfo { flags: mprotect_flags(g.info.flags, flags), ..g.piece_spec(inter).info },
    })
    ||| (g.span_spec().after(inter) matches Some(as_) && e == g.piece_spec(as_))
}

/// Whether `e` is one of the pieces a `munmap` of `span` keeps of the
/// grant `g`: the part before the overlap or the part after it.
pub open spec fn is_munmap_piece(e: Grant, g: Grant, span: PageSpan) -> bool {
    let inter = g.span_spec().inter_spec(span);
    ||| (g.span_spec().before(inter) matches Some(bs) && e == g.piece_spec(bs))
    ||| (g.span_spec().after(inter) matches Some(as_) && e == g.piece_spec(as_))
}

/// Every piece of a grant starts inside the grant's own span.
pub proof fn lemma_mprotect_piece_within(e: Grant, g: Grant, span: PageSpan, flags: MapFlags)
    requires
        is_mprotect_piece(e, g, span, flags),
        grant_overlaps(g, span),
        grant_valid(g),
        span.wf(),
    ensures
        g_start(g) <= g_start(e) < g_end(g),
{
    let inter = g.span_spec().inter_spec(span);
    let p = choose|p: int| grant_contains(g, p) && span.contains_spec(p);
    assert(inter.contains_spec(p));
    let bspan = g.span_spec().before(inter);
    let aspan = g.span_spec().after(inter);
    if bspan is Some && e == g.piece_spec(bspan.unwrap()) {
        assert(g_start(e) == g_start(g));
    } else if aspan is Some && e == g.piece_spec(aspan.unwrap()) {
        assert(g_start(e) == inter.end_spec());
    } else {
        assert(g_start(e) == inter.start_spec());
        assert(inter.start_spec() <= p < g_end(g));
    }
}

/// So does every kept piece of an unmap.
pub proof fn lemma_munmap_piece_within(e: Grant, g: Grant, span: PageSpan)
    requires
        is_munmap_piece(e, g, span),
        grant_overlaps(g, span),
        grant_valid(g),
        span.wf(),
    ensures
        g_start(g) <= g_start(e) < g_end(g),
{
    let inter = g.span_spec().inter_spec(span);
    let p = choose|p: int| grant_contains(g, p) && span.contains_spec(p);
    assert(inter.contains_spec(p));
    let bspan = g.span_spec().before(inter);
    let aspan = g.span_spec().after(inter);
    if bspan is Some && e == g.piece_spec(bspan.unwrap()) {
        assert(g_start(e) == g_start(g));
    } else {
        assert(aspan is Some && e == g.piece_spec(aspan.unwrap()));
        assert(g_start(e) == inter.end_spec());
    }
}

/// The unchanging context of an `mprotect`: the initial state and its
/// conflict list.
pub open spec fn mprotect_ctx(
    s0: Seq<Grant>,
    hs0: Seq<crate::user_grants::Hole>,
    m0: crate::mapper::PageMapper,
    cs: Seq<Grant>,
    span: PageSpan,
) -> bool {
    &&& span.wf()
    &&& crate::user_grants::grants_wf(s0)
    &&& crate::user_grants::holes_wf(hs0)
    &&& crate::user_grants::duality(s0, hs0)
    &&& m0.wf()
    &&& cs == conflicts_spec(s0, span)
    &&& forall|j: int|
        0 <= j < cs.len() ==> grant_valid(#[trigger] cs[j]) && grant_overlaps(cs[j], span)
            && s0.contains(cs[j])
    &&& forall|a: int, b: int|
        0 <= a < b < cs.len() ==> g_end(#[trigger] cs[a]) <= g_start(#[trigger] cs[b])
    &&& forall|p: int| span.contains_spec(p) ==> (grants_cover(cs, p) <==> grants_cover(s0, p))
    &&& forall|i: int|
        0 <= i < s0.len() && grant_overlaps(#[trigger] s0[i], span) ==> cs.contains(s0[i])
}

/// The state after the first `n` conflicts of an `mprotect` have been
/// reprotected: coverage identical, later conflicts untouched, pages
/// of handled overlaps carrying the new flags, everything else as it
/// was.
pub open spec fn mprotect_parts(
    gs: Seq<Grant>,
    m: crate::mapper::PageMapper,
    s0: Seq<Grant>,
    m0: crate::mapper::PageMapper,
    cs: Seq<Grant>,
    span: PageSpan,
    flags: MapFlags,
    n: int,
) -> bool {
    &&& forall|m2: int| n <= m2 < cs.len() ==> gs.contains(#[trigger] cs[m2])
    &&& forall|p: int| grants_cover(gs, p) <==> grants_cover(s0, p)
    &&& forall|p: int|
        !(span.contains_spec(p) && covered_by_prefix(cs, n, p)) ==> page_state(gs, p)
            == page_state(s0, p)
    &&& forall|p: int|
        span.contains_spec(p) && covered_by_prefix(cs, n, p) ==> page_state(gs, p) == Some(
            (
                mprotect_flags(crate::user_grants::flags_at(s0, p), flags),
                crate::user_grants::provider_at(s0, p),
            ),
        )
    &&& forall|p: int|
        !(span.contains_spec(p) && covered_by_prefix(cs, n, p)) ==> m.translate_spec(p)
            == m0.translate_spec(p)
    &&& forall|p: int|
        span.contains_spec(p) && covered_by_prefix(cs, n, p) ==> m.translate_spec(p)
            == mprotect_pte(
            m0.translate_spec(p),
            mprotect_flags(crate::user_grants::flags_at(s0, p), flags),
        )
    &&& forall|e: Grant|
        #[trigger] gs.contains(e) <==> ((s0.contains(e) && !grant_overlaps(e, span)) || (
        exists|m2: int| 0 <= m2 < n && is_mprotect_piece(e, #[trigger] cs[m2], span, flags)) || (
        exists|m2: int| n <= m2 < cs.len() && e == #[trigger] cs[m2]))
}

/// The loop invariant of `mprotect`, over the whole space.
pub open spec fn mprotect_inv(
    space: AddrSpace,
    s0: Seq<Grant>,
    fun0: Seq<(Page, (usize, Page))>,
    m0: crate::mapper::PageMapper,
    cs: Seq<Grant>,
    span: PageSpan,
    flags: MapFlags,
    n: int,
    min0: usize,
) -> bool {
    &&& space.wf()
    &&& space.mmap_min == min0
    &&& space.grants.funmap_seq() == fun0
    &&& mprotect_parts(space.grants.grants_seq(), space.table.utable, s0, m0, cs, span, flags, n)
}

impl AddrSpace {
    /// Handle one conflict of an `mprotect`: take the grant out, split
    /// it around its overlap with the span, put the outer pieces back
    /// unchanged, and remap the overlap to the new flags — or, when the
    /// request would widen a borrowed grant, put the grant back whole
    /// and report the denial.
    #[verifier::rlimit(100)]
    #[verifier::spinoff_prover]
    fn mprotect_step(
        &mut self,
        requested_span: PageSpan,
        flags: MapFlags,
        grant_base: Page,
        grant_info: GrantInfo,
        flusher: &mut PageFlushAll,
        Ghost(s0): Ghost<Seq<Grant>>,
        Ghost(hs0): Ghost<Seq<crate::user_grants::Hole>>,
        Ghost(fun0): Ghost<Seq<(Page, (usize, Page))>>,
        Ghost(m0): Ghost<crate::mapper::PageMapper>,
        Ghost(cs): Ghost<Seq<Grant>>,
        Ghost(n): Ghost<int>,
        Ghost(min0): Ghost<usize>,
    )
        requires
            mprotect_ctx(s0, hs0, m0, cs, requested_span),
            mprotect_inv(*old(self), s0, fun0, m0, cs, requested_span, flags, n, min0),
            0 <= n < cs.len(),
            cs[n] == (Grant { base: grant_base, info: grant_info }),
            can_have_flags_spec(cs[n].info, flags),
        ensures
            mprotect_inv(*final(self), s0, fun0, m0, cs, requested_span, flags, n + 1, min0),
    {
        let ghost cur = self.grants.grants_seq();
        let ghost m_iter = self.table.utable;

        // Take the grant out; it is still present, under its base.
        let grant = match self.grants.remove(grant_base) {
            Some(g) => g,
            None => {
                proof {
                    let j = choose|j: int| 0 <= j < cur.len() && cur[j] == cs[n];
                    assert(g_start(cur[j]) == grant_base.number);
                    assert(false);
                }
                vstd::pervasive::unreached()
            },
        };
        let ghost rk = choose|k: int|
            0 <= k < cur.len() && cur[k] == grant && self.grants.grants_seq() == cur.remove(k);
        proof {
            // The removed grant is exactly the conflict: bases are
            // unique in a well-formed list.
            let j = choose|j: int| 0 <= j < cur.len() && cur[j] == cs[n];
            if j != rk {
                if j < rk {
                    lemma_grants_sorted(cur, j, rk);
                } else {
                    lemma_grants_sorted(cur, rk, j);
                }
                assert(false);
            }
            assert(grant == cs[n]);
        }
        let ghost after_remove = self.grants.grants_seq();

        let intersection = grant.span().intersection(requested_span);
        proof {
            let p = choose|p: int| grant_contains(cs[n], p) && requested_span.contains_spec(p);
            assert(intersection.contains_spec(p));
        }

        let extracted = grant.extract(intersection);
        let (before, mut mid, after) = match extracted {
            Some(t) => t,
            None => {
                proof {
                    assert(false);
                }
                vstd::pervasive::unreached()
            },
        };

        if let Some(b) = before {
            proof {
                assert forall|p: int| grant_contains(b, p) implies !grants_cover(
                    self.grants.grants_seq(),
                    p,
                ) by {
                    assert(grant_contains(grant, p));
                }
            }
            self.grants.insert(b);
        }
        let ghost after_before = self.grants.grants_seq();
        if let Some(a) = after {
            proof {
                assert forall|p: int| grant_contains(a, p) implies !grants_cover(
                    self.grants.grants_seq(),
                    p,
                ) by {
                    assert(grant_contains(grant, p));
                    assert(!grants_cover(after_remove, p));
                    match before {
                        Some(b) => {
                            assert(!grant_contains(b, p));
                        },
                        None => {},
                    }
                }
            }
            self.grants.insert(a);
        }
        let ghost after_after = self.grants.grants_seq();

        let new_flags = mid.info.flags().execute(flags.prot_exec).write(flags.prot_write);
        mid.remap(&mut self.table.utable, flusher, new_flags);
        proof {
            assert forall|p: int| grant_contains(mid, p) implies !grants_cover(
                self.grants.grants_seq(),
                p,
            ) by {
                assert(grant_contains(grant, p));
                assert(!grants_cover(after_remove, p));
                match before {
                    Some(b) => {
                        assert(!grant_contains(b, p));
                    },
                    None => {},
                }
                match after {
                    Some(a) => {
                        assert(!grant_contains(a, p));
                    },
                    None => {},
                }
            }
        }
        self.grants.insert(mid);
        let ghost done = self.grants.grants_seq();

        proof {
            let g = cs[n];
            // One surgery step: out with the grant, in with its
            // pieces, the overlap carrying the new flags.
            lemma_replace_with_pieces(
                cur,
                rk,
                g,
                intersection,
                after_remove,
                after_before,
                after_after,
                done,
                new_flags,
                Grant {
                    base: intersection.base,
                    info: GrantInfo { flags: new_flags, ..g.piece_spec(intersection).info },
                },
            );
            assert(intersection == g.span_spec().inter_spec(requested_span));
            lemma_mprotect_restep(
                s0,
                m0,
                cs,
                requested_span,
                flags,
                n,
                intersection,
                cur,
                m_iter,
                done,
                self.table.utable,
                new_flags,
            );
        }
    }
}

impl AddrSpace {
    /// Change the protection of every granted page in the span. Every
    /// overlapping grant is checked first: if the request would widen
    /// the protection of a borrowed or file-backed grant,
    /// `AccessDenied` is returned and nothing at all changes. Otherwise
    /// each overlapping grant is taken out, split around the overlap,
    /// its outer pieces put back unchanged, and the overlap reinserted
    /// and remapped with the new write and execute bits. Coverage and
    /// holes are identical afterwards in every case, and the resulting
    /// grant list is pinned exactly: the untouched grants plus, per
    /// overlapping grant, its pieces.
    #[verifier::rlimit(100)]
    #[verifier::spinoff_prover]
    pub fn mprotect(&mut self, requested_span: PageSpan, flags: MapFlags) -> (r: Result<
        (),
        Error,
    >)
        requires
            old(self).wf(),
            requested_span.wf(),
        ensures
            final(self).wf(),
            final(self).mmap_min == old(self).mmap_min,
            final(self).grants.funmap_seq() == old(self).grants.funmap_seq(),
            forall|p: int|
                grants_cover(final(self).grants.grants_seq(), p) <==> grants_cover(
                    old(self).grants.grants_seq(),
                    p,
                ),
            final(self).grants.holes_seq() == old(self).grants.holes_seq(),
            forall|p: int|
                !requested_span.contains_spec(p) ==> page_state(final(self).grants.grants_seq(), p)
                    == page_state(old(self).grants.grants_seq(), p) && final(self).table.utable.translate_spec(p) == old(self).table.utable.translate_spec(p),
            (r is Ok <==> (forall|i: int|
                0 <= i < old(self).grants.grants_seq().len() && grant_overlaps(
                    #[trigger] old(self).grants.grants_seq()[i],
                    requested_span,
                ) ==> can_have_flags_spec(old(self).grants.grants_seq()[i].info, flags))),
            r matches Err(e) ==> e == Error::AccessDenied && *final(self) == *old(self),
            r is Ok ==> forall|e: Grant|
                #[trigger] final(self).grants.grants_seq().contains(e) <==> ((old(
                    self,
                ).grants.grants_seq().contains(e) && !grant_overlaps(e, requested_span)) || (exists|
                    m: int,
                |
                    0 <= m < conflicts_spec(old(self).grants.grants_seq(), requested_span).len()
                        && is_mprotect_piece(
                        e,
                        #[trigger] conflicts_spec(
                            old(self).grants.grants_seq(),
                            requested_span,
                        )[m],
                        requested_span,
                        flags,
                    ))),
            r is Ok ==> forall|p: int|
                requested_span.contains_spec(p) && #[trigger] grants_cover(
                    old(self).grants.grants_seq(),
                    p,
                ) ==> page_state(final(self).grants.grants_seq(), p) == Some(
                    (
                        mprotect_flags(
                            crate::user_grants::flags_at(old(self).grants.grants_seq(), p),
                            flags,
                        ),
                        crate::user_grants::provider_at(old(self).grants.grants_seq(), p),
                    ),
                ) && final(self).table.utable.translate_spec(p) == match old(self).table.utable.translate_spec(p) {
                    Some(e) => Some(
                        crate::mapper::PteEntry {
                            page: e.page,
                            frame: e.frame,
                            flags: mprotect_flags(
                                crate::user_grants::flags_at(old(self).grants.grants_seq(), p),
                                flags,
                            ),
                        },
                    ),
                    None => None::<crate::mapper::PteEntry>,
                },
            forall|p: int|
                requested_span.contains_spec(p) && !(#[trigger] grants_cover(
                    old(self).grants.grants_seq(),
                    p,
                )) ==> final(self).table.utable.translate_spec(p) == old(self).table.utable.translate_spec(p),
    {
        let ghost s0 = self.grants.grants_seq();
        let ghost hs0 = self.grants.holes_seq();
        let ghost m0 = self.table.utable;
        let ghost fun0 = self.grants.funmap_seq();
        let ghost min0 = self.mmap_min;
        let ghost cs = conflicts_spec(s0, requested_span);
        proof {
            lemma_conflicts_sorted(s0, requested_span);
            lemma_conflicts_complete(s0, requested_span);
            lemma_conflicts_elements(s0, requested_span);
            assert forall|p: int| requested_span.contains_spec(p) implies (grants_cover(cs, p)
                <==> grants_cover(s0, p)) by {
                crate::user_grants::lemma_conflicts_cover(s0, requested_span, p);
            }
        }
        let conflicting = self.grants.conflicts(requested_span);

        // Refuse the whole request before touching anything: an error
        // must leave no partial state.
        let mut pre: usize = 0;
        while pre < conflicting.len()
            invariant
                s0 == old(self).grants.grants_seq(),
                *self == *old(self),
                self.wf(),
                cs == conflicts_spec(s0, requested_span),
                conflicting.len() == cs.len(),
                pre <= cs.len(),
                forall|j: int| 0 <= j < cs.len() ==> #[trigger] conflicting[j] == (
                    cs[j].base,
                    cs[j].info,
                ),
                forall|j: int|
                    0 <= j < cs.len() ==> grant_valid(#[trigger] cs[j]) && grant_overlaps(
                        cs[j],
                        requested_span,
                    ) && s0.contains(cs[j]),
                forall|m: int| 0 <= m < pre ==> can_have_flags_spec(
                    (#[trigger] cs[m]).info,
                    flags,
                ),
            decreases conflicting.len() - pre,
        {
            let (_grant_base, grant_info) = conflicting[pre];
            if !grant_info.can_have_flags(flags) {
                proof {
                    assert(cs[pre as int].info == grant_info);
                    let i = choose|i: int| 0 <= i < s0.len() && s0[i] == cs[pre as int];
                    assert(grant_overlaps(s0[i], requested_span));
                    assert(!can_have_flags_spec(s0[i].info, flags));
                }
                return Err(Error::AccessDenied);
            }
            pre = pre + 1;
        }

        let mut flusher = PageFlushAll::new();
        proof {
            // The grant list before the surgery: exactly the untouched
            // grants plus every conflict, still whole.
            assert forall|e: Grant| true implies (#[trigger] self.grants.grants_seq().contains(e)
                <==> ((s0.contains(e) && !grant_overlaps(e, requested_span)) || (exists|m2: int|
                0 <= m2 < 0 && is_mprotect_piece(e, #[trigger] cs[m2], requested_span, flags)) || (
            exists|m2: int|
                0 <= m2 < cs.len() && e == #[trigger] cs[m2]))) by {
                if s0.contains(e) && grant_overlaps(e, requested_span) {
                    let i = choose|i: int| 0 <= i < s0.len() && s0[i] == e;
                    assert(cs.contains(s0[i]));
                    let m = choose|m: int| 0 <= m < cs.len() && cs[m] == s0[i];
                    assert(e == cs[m]);
                }
                if exists|m2: int| 0 <= m2 < cs.len() && e == #[trigger] cs[m2] {
                    let m2 = choose|m2: int| 0 <= m2 < cs.len() && e == #[trigger] cs[m2];
                    assert(s0.contains(cs[m2]));
                }
            }
        }

        let mut n: usize = 0;
        while n < conflicting.len()
            invariant
                s0 == old(self).grants.grants_seq(),
                hs0 == old(self).grants.holes_seq(),
                m0 == old(self).table.utable,
                fun0 == old(self).grants.funmap_seq(),
                min0 == old(self).mmap_min,
                mprotect_ctx(s0, hs0, m0, cs, requested_span),
                mprotect_inv(*self, s0, fun0, m0, cs, requested_span, flags, n as int, min0),
                conflicting.len() == cs.len(),
                n <= cs.len(),
                forall|j: int| 0 <= j < cs.len() ==> #[trigger] conflicting[j] == (
                    cs[j].base,
                    cs[j].info,
                ),
                forall|m: int| 0 <= m < cs.len() ==> can_have_flags_spec(
                    (#[trigger] cs[m]).info,
                    flags,
                ),
            decreases conflicting.len() - n,
        {
            let (grant_base, grant_info) = conflicting[n];
            self.mprotect_step(
                requested_span,
                flags,
                grant_base,
                grant_info,
                &mut flusher,
                Ghost(s0),
                Ghost(hs0),
                Ghost(fun0),
                Ghost(m0),
                Ghost(cs),
                Ghost(n as int),
                Ghost(min0),
            );
            n = n + 1;
        }
        proof {
            assert forall|i: int|
                0 <= i < s0.len() && grant_overlaps(#[trigger] s0[i], requested_span) implies
                can_have_flags_spec(s0[i].info, flags) by {
                let m = choose|m: int| 0 <= m < cs.len() && cs[m] == s0[i];
            }
            assert forall|p: int|
                requested_span.contains_spec(p) && #[trigger] grants_cover(s0, p) implies
                covered_by_prefix(cs, cs.len() as int, p) by {
                assert(grants_cover(cs, p));
            }
            assert forall|e: Grant| true implies (#[trigger] self.grants.grants_seq().contains(e)
                <==> ((s0.contains(e) && !grant_overlaps(e, requested_span)) || (exists|m: int|
                0 <= m < cs.len() && is_mprotect_piece(
                    e,
                    #[trigger] cs[m],
                    requested_span,
                    flags,
                )))) by {
            }
            lemma_mprotect_final(
                *self,
                s0,
                hs0,
                fun0,
                m0,
                cs,
                requested_span,
                flags,
                cs.len() as int,
                min0,
            );
        }
        Ok(())
    }
}

/// The holes of a state that covers the same pages as the initial one
/// are the initial holes.
pub proof fn lemma_mprotect_final(
    space: AddrSpace,
    s0: Seq<Grant>,
    hs0: Seq<crate::user_grants::Hole>,
    fun0: Seq<(Page, (usize, Page))>,
    m0: crate::mapper::PageMapper,
    cs: Seq<Grant>,
    span: PageSpan,
    flags: MapFlags,
    n: int,
    min0: usize,
)
    requires
        mprotect_ctx(s0, hs0, m0, cs, span),
        mprotect_inv(space, s0, fun0, m0, cs, span, flags, n, min0),
    ensures
        space.grants.holes_seq() == hs0,
{
    assert forall|p: int| true implies (crate::user_grants::holes_cover(
        space.grants.holes_seq(),
        p,
    ) <==> crate::user_grants::holes_cover(hs0, p)) by {
        if 0 <= p < crate::page::USER_END_PAGE {
            assert(grants_cover(space.grants.grants_seq(), p) <==> grants_cover(s0, p));
        } else {
            if crate::user_grants::holes_cover(space.grants.holes_seq(), p) {
                let i = choose|i: int|
                    0 <= i < space.grants.holes_seq().len()
                        && crate::user_grants::hole_contains(
                        #[trigger] space.grants.holes_seq()[i],
                        p,
                    );
            }
            if crate::user_grants::holes_cover(hs0, p) {
                let i = choose|i: int|
                    0 <= i < hs0.len() && crate::user_grants::hole_contains(
                        #[trigger] hs0[i],
                        p,
                    );
            }
        }
    }
    lemma_holes_canonical(space.grants.holes_seq(), hs0);
}


} // verus!

verus! {

/// One `mprotect` surgery step carries the loop invariant from `n` to
/// `n + 1`, given the effects of the grant surgery and of the remap.
#[verifier::rlimit(100)]
pub proof fn lemma_mprotect_restep(
    s0: Seq<Grant>,
    m0: crate::mapper::PageMapper,
    cs: Seq<Grant>,
    span: PageSpan,
    flags: MapFlags,
    n: int,
    inter: PageSpan,
    cur: Seq<Grant>,
    m_iter: crate::mapper::PageMapper,
    done: Seq<Grant>,
    m_new: crate::mapper::PageMapper,
    new_flags: crate::flags::PageFlags,
)
    requires
        crate::user_grants::grants_wf(s0),
        span.wf(),
        cs == conflicts_spec(s0, span),
        forall|j: int|
            0 <= j < cs.len() ==> grant_valid(#[trigger] cs[j]) && grant_overlaps(cs[j], span)
                && s0.contains(cs[j]),
        forall|a: int, b: int|
            0 <= a < b < cs.len() ==> g_end(#[trigger] cs[a]) <= g_start(#[trigger] cs[b]),
        0 <= n < cs.len(),
        mprotect_parts(cur, m_iter, s0, m0, cs, span, flags, n),
        inter == cs[n].span_spec().inter_spec(span),
        forall|p: int| inter.contains_spec(p) <==> grant_contains(cs[n], p) && span.contains_spec(p),
        new_flags == mprotect_flags(cs[n].info.flags, flags),
        forall|e: Grant|
            #[trigger] done.contains(e) <==> ((cur.contains(e) && e != cs[n]) || (
            cs[n].span_spec().before(inter) matches Some(bs) && e == cs[n].piece_spec(bs)) || e
                == (Grant {
                base: inter.base,
                info: GrantInfo { flags: new_flags, ..cs[n].piece_spec(inter).info },
            }) || (cs[n].span_spec().after(inter) matches Some(as_) && e == cs[n].piece_spec(
                as_,
            ))),
        forall|p: int| grants_cover(done, p) <==> grants_cover(cur, p),
        forall|p: int|
            !grant_contains(cs[n], p) ==> #[trigger] page_state(done, p) == page_state(cur, p),
        forall|p: int|
            grant_contains(cs[n], p) ==> #[trigger] page_state(done, p) == Some(
                (
                    if inter.contains_spec(p) {
                        new_flags
                    } else {
                        cs[n].info.flags
                    },
                    crate::user_grants::grant_provider_at(cs[n], p),
                ),
            ),
        forall|e: Grant| cur.contains(e) && e != cs[n] ==> #[trigger] done.contains(e),
        forall|p: int|
            inter.contains_spec(p) ==> #[trigger] m_new.translate_spec(p) == mprotect_pte(
                m_iter.translate_spec(p),
                new_flags,
            ),
        forall|p: int|
            !inter.contains_spec(p) ==> #[trigger] m_new.translate_spec(p)
                == m_iter.translate_spec(p),
    ensures
        mprotect_parts(done, m_new, s0, m0, cs, span, flags, n + 1),
{
    let g = cs[n];
    // What the old list says about the grant's pages.
    assert forall|p: int| grant_contains(g, p) implies crate::user_grants::flags_at(s0, p)
        == g.info.flags && crate::user_grants::provider_at(s0, p)
        == crate::user_grants::grant_provider_at(g, p) && grants_cover(s0, p) by {
        let i = choose|i: int| 0 <= i < s0.len() && s0[i] == g;
        crate::user_grants::lemma_covering_index(s0, i, p);
        assert(grant_contains(s0[i], p));
    }
    // The grant list holds exactly the untouched grants, the pieces of
    // the conflicts handled so far, and the conflicts still to come.
    assert forall|e: Grant| true implies (#[trigger] done.contains(e) <==> ((s0.contains(e)
        && !grant_overlaps(e, span)) || (exists|m2: int|
        0 <= m2 < n + 1 && is_mprotect_piece(e, #[trigger] cs[m2], span, flags)) || (exists|
        m2: int|
        n + 1 <= m2 < cs.len() && e == #[trigger] cs[m2]))) by {
        if done.contains(e) {
            if is_mprotect_piece(e, g, span, flags) {
                assert(0 <= n < n + 1 && is_mprotect_piece(e, cs[n], span, flags));
            } else {
                assert(cur.contains(e) && e != g);
                if s0.contains(e) && !grant_overlaps(e, span) {
                } else if exists|m2: int|
                    0 <= m2 < n && is_mprotect_piece(e, #[trigger] cs[m2], span, flags) {
                    let m2 = choose|m2: int|
                        0 <= m2 < n && is_mprotect_piece(e, #[trigger] cs[m2], span, flags);
                    assert(0 <= m2 < n + 1 && is_mprotect_piece(e, cs[m2], span, flags));
                } else {
                    let m2 = choose|m2: int| n <= m2 < cs.len() && e == #[trigger] cs[m2];
                    assert(m2 != n);
                    assert(n + 1 <= m2 < cs.len() && e == cs[m2]);
                }
            }
        }
        if s0.contains(e) && !grant_overlaps(e, span) {
            assert(cur.contains(e));
            assert(e != g);
            assert(done.contains(e));
        }
        if exists|m2: int| 0 <= m2 < n + 1 && is_mprotect_piece(e, #[trigger] cs[m2], span, flags) {
            let m2 = choose|m2: int|
                0 <= m2 < n + 1 && is_mprotect_piece(e, #[trigger] cs[m2], span, flags);
            if m2 == n {
                assert(done.contains(e));
            } else {
                assert(exists|m3: int|
                    0 <= m3 < n && is_mprotect_piece(e, #[trigger] cs[m3], span, flags));
                assert(cur.contains(e));
                lemma_mprotect_piece_within(e, cs[m2], span, flags);
                assert(g_end(cs[m2]) <= g_start(g));
                assert(e != g);
                assert(done.contains(e));
            }
        }
        if exists|m2: int| n + 1 <= m2 < cs.len() && e == #[trigger] cs[m2] {
            let m2 = choose|m2: int| n + 1 <= m2 < cs.len() && e == #[trigger] cs[m2];
            assert(exists|m3: int| n <= m3 < cs.len() && e == #[trigger] cs[m3]);
            assert(cur.contains(e));
            assert(g_end(g) <= g_start(cs[m2]));
            assert(e != g);
            assert(done.contains(e));
        }
    }
    // Prefix coverage unfolds by one conflict.
    assert forall|p: int| true implies (covered_by_prefix(cs, n + 1, p) <==> (covered_by_prefix(
        cs,
        n,
        p,
    ) || grant_contains(g, p))) by {
        if covered_by_prefix(cs, n + 1, p) {
            let m = choose|m: int| 0 <= m < n + 1 && grant_contains(#[trigger] cs[m], p);
            if m < n {
                assert(covered_by_prefix(cs, n, p));
            }
        }
        if covered_by_prefix(cs, n, p) {
            let m = choose|m: int| 0 <= m < n && grant_contains(#[trigger] cs[m], p);
            assert(grant_contains(cs[m], p));
        }
    }
    // Pages of earlier conflicts are not pages of this one.
    assert forall|p: int| covered_by_prefix(cs, n, p) implies !grant_contains(g, p) by {
        let m = choose|m: int| 0 <= m < n && grant_contains(#[trigger] cs[m], p);
        let im = choose|i: int| 0 <= i < s0.len() && s0[i] == cs[m];
        let ig = choose|i: int| 0 <= i < s0.len() && s0[i] == g;
        if im != ig {
            crate::user_grants::lemma_grants_disjoint(s0, im, ig, p);
        } else {
            assert(g_end(cs[m]) <= g_start(g));
            assert(false);
        }
    }
    // Remaining conflicts survive.
    assert forall|m: int| n + 1 <= m < cs.len() implies done.contains(#[trigger] cs[m]) by {
        assert(g_end(cs[n]) <= g_start(cs[m]));
        assert(cs[m] != g);
        assert(cur.contains(cs[m]));
    }
    // Page-state clauses for the grown prefix.
    assert forall|p: int|
        !(span.contains_spec(p) && covered_by_prefix(cs, n + 1, p)) implies page_state(done, p)
        == page_state(s0, p) by {
        if grant_contains(g, p) {
            if span.contains_spec(p) {
                assert(covered_by_prefix(cs, n + 1, p));
            }
            assert(!inter.contains_spec(p));
            assert(page_state(done, p) == Some(
                (g.info.flags, crate::user_grants::grant_provider_at(g, p)),
            ));
        } else {
            assert(page_state(done, p) == page_state(cur, p));
            if span.contains_spec(p) && covered_by_prefix(cs, n, p) {
                assert(covered_by_prefix(cs, n + 1, p));
            }
        }
    }
    assert forall|p: int|
        span.contains_spec(p) && covered_by_prefix(cs, n + 1, p) implies page_state(done, p)
        == Some(
        (
            mprotect_flags(crate::user_grants::flags_at(s0, p), flags),
            crate::user_grants::provider_at(s0, p),
        ),
    ) by {
        if grant_contains(g, p) {
            assert(inter.contains_spec(p));
        } else {
            assert(covered_by_prefix(cs, n, p));
            assert(page_state(done, p) == page_state(cur, p));
        }
    }
    // Page-table clauses.
    assert forall|p: int|
        !(span.contains_spec(p) && covered_by_prefix(cs, n + 1, p)) implies m_new.translate_spec(
        p,
    ) == m0.translate_spec(p) by {
        if inter.contains_spec(p) {
            assert(grant_contains(g, p));
            assert(covered_by_prefix(cs, n + 1, p));
        } else {
            assert(m_new.translate_spec(p) == m_iter.translate_spec(p));
            if span.contains_spec(p) && covered_by_prefix(cs, n, p) {
                assert(covered_by_prefix(cs, n + 1, p));
            }
        }
    }
    assert forall|p: int|
        span.contains_spec(p) && covered_by_prefix(cs, n + 1, p) implies m_new.translate_spec(p)
        == mprotect_pte(
        m0.translate_spec(p),
        mprotect_flags(crate::user_grants::flags_at(s0, p), flags),
    ) by {
        if grant_contains(g, p) {
            assert(inter.contains_spec(p));
            assert(!covered_by_prefix(cs, n, p));
            assert(m_iter.translate_spec(p) == m0.translate_spec(p));
        } else {
            assert(covered_by_prefix(cs, n, p));
            assert(!inter.contains_spec(p));
            assert(m_new.translate_spec(p) == m_iter.translate_spec(p));
        }
    }
}

} // verus!


verus! {

/// The loop state of a `munmap` after the first `n` conflicts: their
/// overlaps with the span are uncovered and unmapped, every other page
/// is untouched, and the frame table has followed the unmap chain.
pub open spec fn munmap_parts(
    gs: Seq<Grant>,
    m: crate::mapper::PageMapper,
    fr: Seq<crate::frames::PageInfo>,
    s0: Seq<Grant>,
    m0: crate::mapper::PageMapper,
    fr0: Seq<crate::frames::PageInfo>,
    cs: Seq<Grant>,
    span: PageSpan,
    n: int,
) -> bool {
    &&& forall|m2: int| n <= m2 < cs.len() ==> gs.contains(#[trigger] cs[m2])
    &&& forall|p: int|
        grants_cover(gs, p) <==> grants_cover(s0, p) && !(span.contains_spec(p)
            && covered_by_prefix(cs, n, p))
    &&& forall|p: int| grants_cover(gs, p) ==> page_state(gs, p) == page_state(s0, p)
    &&& forall|p: int|
        !(span.contains_spec(p) && covered_by_prefix(cs, n, p)) ==> m.translate_spec(p)
            == m0.translate_spec(p)
    &&& forall|p: int|
        span.contains_spec(p) && covered_by_prefix(cs, n, p) ==> m.translate_spec(p) is None
    &&& fr == crate::grant::munmap_frames_chain(fr0, m0, cs.take(n), span)
    &&& forall|e: Grant|
        #[trigger] gs.contains(e) <==> ((s0.contains(e) && !grant_overlaps(e, span)) || (exists|
            m2: int,
        |
            0 <= m2 < n && is_munmap_piece(e, #[trigger] cs[m2], span)) || (exists|m2: int|
            n <= m2 < cs.len() && e == #[trigger] cs[m2]))
}

/// One `munmap` surgery step carries the loop state from `n` to
/// `n + 1`, given the effects of the grant surgery and of the unmap.
#[verifier::rlimit(100)]
pub proof fn lemma_munmap_restep(
    s0: Seq<Grant>,
    m0: crate::mapper::PageMapper,
    fr0: Seq<crate::frames::PageInfo>,
    cs: Seq<Grant>,
    span: PageSpan,
    n: int,
    inter: PageSpan,
    cur: Seq<Grant>,
    m_iter: crate::mapper::PageMapper,
    fr_prev: Seq<crate::frames::PageInfo>,
    done: Seq<Grant>,
    m_new: crate::mapper::PageMapper,
    fr_new: Seq<crate::frames::PageInfo>,
)
    requires
        crate::user_grants::grants_wf(s0),
        span.wf(),
        cs == conflicts_spec(s0, span),
        forall|j: int|
            0 <= j < cs.len() ==> grant_valid(#[trigger] cs[j]) && grant_overlaps(cs[j], span)
                && s0.contains(cs[j]),
        forall|a: int, b: int|
            0 <= a < b < cs.len() ==> g_end(#[trigger] cs[a]) <= g_start(#[trigger] cs[b]),
        0 <= n < cs.len(),
        munmap_parts(cur, m_iter, fr_prev, s0, m0, fr0, cs, span, n),
        inter == cs[n].span_spec().inter_spec(span),
        forall|e: Grant|
            #[trigger] done.contains(e) <==> ((cur.contains(e) && e != cs[n]) || (
            cs[n].span_spec().before(inter) matches Some(bs) && e == cs[n].piece_spec(bs)) || (
            cs[n].span_spec().after(inter) matches Some(as_) && e == cs[n].piece_spec(as_))),
        forall|p: int| inter.contains_spec(p) <==> grant_contains(cs[n], p) && span.contains_spec(p),
        inter.count > 0,
        forall|p: int| grants_cover(done, p) <==> grants_cover(cur, p) && !inter.contains_spec(p),
        forall|p: int|
            !grant_contains(cs[n], p) ==> #[trigger] page_state(done, p) == page_state(cur, p),
        forall|p: int|
            grant_contains(cs[n], p) && !inter.contains_spec(p) ==> #[trigger] page_state(done, p)
                == Some(
                (cs[n].info.flags, crate::user_grants::grant_provider_at(cs[n], p)),
            ),
        forall|e: Grant| cur.contains(e) && e != cs[n] ==> #[trigger] done.contains(e),
        forall|p: int| inter.contains_spec(p) ==> #[trigger] m_new.translate_spec(p) is None,
        forall|p: int|
            !inter.contains_spec(p) ==> #[trigger] m_new.translate_spec(p)
                == m_iter.translate_spec(p),
        fr_new == crate::grant::unmap_frames_spec(
            fr_prev,
            m_iter,
            cs[n].piece_spec(inter),
            inter.count as int,
        ),
    ensures
        munmap_parts(done, m_new, fr_new, s0, m0, fr0, cs, span, n + 1),
{
    let g = cs[n];
    let mid = g.piece_spec(inter);
    assert forall|p: int| grant_contains(g, p) implies crate::user_grants::flags_at(s0, p)
        == g.info.flags && crate::user_grants::provider_at(s0, p)
        == crate::user_grants::grant_provider_at(g, p) && grants_cover(s0, p) by {
        let i = choose|i: int| 0 <= i < s0.len() && s0[i] == g;
        lemma_covering_index(s0, i, p);
        assert(grant_contains(s0[i], p));
    }
    // The grant list holds exactly the untouched grants, the kept
    // pieces of the conflicts handled so far, and the conflicts still
    // to come.
    assert forall|e: Grant| true implies (#[trigger] done.contains(e) <==> ((s0.contains(e)
        && !grant_overlaps(e, span)) || (exists|m2: int|
        0 <= m2 < n + 1 && is_munmap_piece(e, #[trigger] cs[m2], span)) || (exists|m2: int|
        n + 1 <= m2 < cs.len() && e == #[trigger] cs[m2]))) by {
        if done.contains(e) {
            if is_munmap_piece(e, g, span) {
                assert(0 <= n < n + 1 && is_munmap_piece(e, cs[n], span));
            } else {
                assert(cur.contains(e) && e != g);
                if s0.contains(e) && !grant_overlaps(e, span) {
                } else if exists|m2: int|
                    0 <= m2 < n && is_munmap_piece(e, #[trigger] cs[m2], span) {
                    let m2 = choose|m2: int|
                        0 <= m2 < n && is_munmap_piece(e, #[trigger] cs[m2], span);
                    assert(0 <= m2 < n + 1 && is_munmap_piece(e, cs[m2], span));
                } else {
                    let m2 = choose|m2: int| n <= m2 < cs.len() && e == #[trigger] cs[m2];
                    assert(m2 != n);
                    assert(n + 1 <= m2 < cs.len() && e == cs[m2]);
                }
            }
        }
        if s0.contains(e) && !grant_overlaps(e, span) {
            assert(cur.contains(e));
            assert(e != g);
            assert(done.contains(e));
        }
        if exists|m2: int| 0 <= m2 < n + 1 && is_munmap_piece(e, #[trigger] cs[m2], span) {
            let m2 = choose|m2: int|
                0 <= m2 < n + 1 && is_munmap_piece(e, #[trigger] cs[m2], span);
            if m2 == n {
                assert(done.contains(e));
            } else {
                assert(exists|m3: int|
                    0 <= m3 < n && is_munmap_piece(e, #[trigger] cs[m3], span));
                assert(cur.contains(e));
                lemma_munmap_piece_within(e, cs[m2], span);
                assert(g_end(cs[m2]) <= g_start(g));
                assert(e != g);
                assert(done.contains(e));
            }
        }
        if exists|m2: int| n + 1 <= m2 < cs.len() && e == #[trigger] cs[m2] {
            let m2 = choose|m2: int| n + 1 <= m2 < cs.len() && e == #[trigger] cs[m2];
            assert(exists|m3: int| n <= m3 < cs.len() && e == #[trigger] cs[m3]);
            assert(cur.contains(e));
            assert(g_end(g) <= g_start(cs[m2]));
            assert(e != g);
            assert(done.contains(e));
        }
    }
    assert forall|p: int| true implies (covered_by_prefix(cs, n + 1, p) <==> (covered_by_prefix(
        cs,
        n,
        p,
    ) || grant_contains(g, p))) by {
        if covered_by_prefix(cs, n + 1, p) {
            let m = choose|m: int| 0 <= m < n + 1 && grant_contains(#[trigger] cs[m], p);
            if m < n {
                assert(covered_by_prefix(cs, n, p));
            }
        }
        if covered_by_prefix(cs, n, p) {
            let m = choose|m: int| 0 <= m < n && grant_contains(#[trigger] cs[m], p);
            assert(grant_contains(cs[m], p));
        }
    }
    assert forall|p: int| covered_by_prefix(cs, n, p) implies !grant_contains(g, p) by {
        let m = choose|m: int| 0 <= m < n && grant_contains(#[trigger] cs[m], p);
        let im = choose|i: int| 0 <= i < s0.len() && s0[i] == cs[m];
        let ig = choose|i: int| 0 <= i < s0.len() && s0[i] == g;
        if im != ig {
            crate::user_grants::lemma_grants_disjoint(s0, im, ig, p);
        } else {
            assert(g_end(cs[m]) <= g_start(g));
            assert(false);
        }
    }
    assert forall|m: int| n + 1 <= m < cs.len() implies done.contains(#[trigger] cs[m]) by {
        assert(g_end(cs[n]) <= g_start(cs[m]));
        assert(cs[m] != g);
        assert(cur.contains(cs[m]));
    }
    assert forall|p: int| true implies (grants_cover(done, p) <==> grants_cover(s0, p) && !(
    span.contains_spec(p) && covered_by_prefix(cs, n + 1, p))) by {
        if grant_contains(g, p) {
            if span.contains_spec(p) {
                assert(inter.contains_spec(p));
                assert(!grants_cover(done, p));
                assert(covered_by_prefix(cs, n + 1, p));
            } else {
                assert(!inter.contains_spec(p));
                assert(page_state(done, p) == Some(
                    (g.info.flags, crate::user_grants::grant_provider_at(g, p)),
                ));
                assert(grants_cover(done, p));
            }
        }
    }
    assert forall|p: int| grants_cover(done, p) implies page_state(done, p) == page_state(
        s0,
        p,
    ) by {
        if grant_contains(g, p) {
            assert(!inter.contains_spec(p));
        } else {
            assert(grants_cover(cur, p));
        }
    }
    assert forall|p: int|
        !(span.contains_spec(p) && covered_by_prefix(cs, n + 1, p)) implies m_new.translate_spec(
        p,
    ) == m0.translate_spec(p) by {
        if inter.contains_spec(p) {
            assert(covered_by_prefix(cs, n + 1, p));
        } else {
            if span.contains_spec(p) && covered_by_prefix(cs, n, p) {
                assert(covered_by_prefix(cs, n + 1, p));
            }
        }
    }
    assert forall|p: int|
        span.contains_spec(p) && covered_by_prefix(cs, n + 1, p) implies m_new.translate_spec(
        p,
    ) is None by {
        if grant_contains(g, p) {
            assert(inter.contains_spec(p));
        } else {
            assert(covered_by_prefix(cs, n, p));
            assert(!inter.contains_spec(p));
            assert(m_new.translate_spec(p) == m_iter.translate_spec(p));
        }
    }
    // The frame table follows the chain.
    assert forall|idx: int| 0 <= idx < inter.count implies #[trigger] m_iter.translate_spec(
        g_start(mid) + idx,
    ) == m0.translate_spec(g_start(mid) + idx) by {
        let p = g_start(mid) + idx;
        assert(inter.contains_spec(p));
        assert(grant_contains(g, p) && span.contains_spec(p));
        assert(!covered_by_prefix(cs, n, p));
    }
    crate::grant::lemma_unmap_frames_congruent(fr_prev, m_iter, m0, mid, inter.count as int);
    crate::grant::lemma_chain_prefix(fr0, m0, cs, span, n);
    assert(fr_new == crate::grant::munmap_frames_chain(fr0, m0, cs.take(n + 1), span));
}

impl AddrSpace {
    /// Handle one conflict of a `munmap`: take the grant out, keep its
    /// pieces outside the span, note the file reference of a
    /// file-backed overlap, and unmap the overlap, dropping the frame
    /// references its provider held.
    #[verifier::rlimit(100)]
    #[verifier::spinoff_prover]
    fn munmap_step(
        &mut self,
        requested_span: PageSpan,
        grant_base: Page,
        grant_info: GrantInfo,
        flusher: &mut PageFlushAll,
        frames: &mut crate::frames::FrameInfos,
        notify: &mut Vec<(GrantFileRef, PageSpan)>,
        Ghost(s0): Ghost<Seq<Grant>>,
        Ghost(m0): Ghost<crate::mapper::PageMapper>,
        Ghost(fr0): Ghost<Seq<crate::frames::PageInfo>>,
        Ghost(cs): Ghost<Seq<Grant>>,
        Ghost(n): Ghost<int>,
    )
        requires
            requested_span.wf(),
            crate::user_grants::grants_wf(s0),
            cs == conflicts_spec(s0, requested_span),
            forall|j: int|
                0 <= j < cs.len() ==> grant_valid(#[trigger] cs[j]) && grant_overlaps(
                    cs[j],
                    requested_span,
                ) && s0.contains(cs[j]),
            forall|a: int, b: int|
                0 <= a < b < cs.len() ==> g_end(#[trigger] cs[a]) <= g_start(#[trigger] cs[b]),
            0 <= n < cs.len(),
            cs[n] == (Grant { base: grant_base, info: grant_info }),
            old(self).wf(),
            munmap_parts(
                old(self).grants.grants_seq(),
                old(self).table.utable,
                old(frames).infos_seq(),
                s0,
                m0,
                fr0,
                cs,
                requested_span,
                n,
            ),
            crate::grant::munmap_frames_chain_ok(fr0, m0, cs, requested_span),
        ensures
            final(self).wf(),
            final(self).mmap_min == old(self).mmap_min,
            final(self).grants.funmap_seq() == old(self).grants.funmap_seq(),
            munmap_parts(
                final(self).grants.grants_seq(),
                final(self).table.utable,
                final(frames).infos_seq(),
                s0,
                m0,
                fr0,
                cs,
                requested_span,
                n + 1,
            ),
            final(notify)@ == match cs[n].info.provider {
                Provider::Fmap { desc } => old(notify)@.push(
                    (desc, cs[n].span_spec().inter_spec(requested_span)),
                ),
                _ => old(notify)@,
            },
    {
        let ghost cur = self.grants.grants_seq();
        let ghost m_iter = self.table.utable;
        let ghost fr_prev = frames.infos_seq();

        let grant = match self.grants.remove(grant_base) {
            Some(g) => g,
            None => {
                proof {
                    let j = choose|j: int| 0 <= j < cur.len() && cur[j] == cs[n];
                    assert(g_start(cur[j]) == grant_base.number);
                    assert(false);
                }
                vstd::pervasive::unreached()
            },
        };
        let ghost rk = choose|k: int|
            0 <= k < cur.len() && cur[k] == grant && self.grants.grants_seq() == cur.remove(k);
        proof {
            let j = choose|j: int| 0 <= j < cur.len() && cur[j] == cs[n];
            if j != rk {
                if j < rk {
                    lemma_grants_sorted(cur, j, rk);
                } else {
                    lemma_grants_sorted(cur, rk, j);
                }
                assert(false);
            }
            assert(grant == cs[n]);
        }
        let ghost after_remove = self.grants.grants_seq();

        let intersection = grant.span().intersection(requested_span);
        proof {
            let p = choose|p: int| grant_contains(cs[n], p) && requested_span.contains_spec(p);
            assert(intersection.contains_spec(p));
        }

        let extracted = grant.extract(intersection);
        let (before, mid, after) = match extracted {
            Some(t) => t,
            None => {
                proof {
                    assert(false);
                }
                vstd::pervasive::unreached()
            },
        };

        // Note the file reference of a file-backed overlap, to be
        // forwarded to its scheme and closed outside the lock.
        if let Provider::Fmap { desc } = mid.info.provider {
            notify.push((desc, intersection));
        }

        if let Some(b) = before {
            proof {
                assert forall|p: int| grant_contains(b, p) implies !grants_cover(
                    self.grants.grants_seq(),
                    p,
                ) by {
                    assert(grant_contains(grant, p));
                }
            }
            self.grants.insert(b);
        }
        let ghost after_before = self.grants.grants_seq();
        if let Some(a) = after {
            proof {
                assert forall|p: int| grant_contains(a, p) implies !grants_cover(
                    self.grants.grants_seq(),
                    p,
                ) by {
                    assert(grant_contains(grant, p));
                    assert(!grants_cover(after_remove, p));
                    match before {
                        Some(b) => {
                            assert(!grant_contains(b, p));
                        },
                        None => {},
                    }
                }
            }
            self.grants.insert(a);
        }
        let ghost done = self.grants.grants_seq();

        proof {
            crate::grant::lemma_chain_ok_at(fr0, m0, cs, requested_span, n);
            let g = cs[n];
            let midg = g.piece_spec(intersection);
            assert forall|idx: int| 0 <= idx < midg.info.page_count implies
                #[trigger] self.table.utable.translate_spec(g_start(midg) + idx)
                == m0.translate_spec(g_start(midg) + idx) by {
                let p = g_start(midg) + idx;
                assert(intersection.contains_spec(p));
                assert(grant_contains(g, p) && requested_span.contains_spec(p));
                assert forall|mm: int|
                    0 <= mm < n implies !grant_contains(#[trigger] cs[mm], p) by {
                    let im = choose|i: int| 0 <= i < s0.len() && s0[i] == cs[mm];
                    let ig = choose|i: int| 0 <= i < s0.len() && s0[i] == g;
                    if im != ig {
                        crate::user_grants::lemma_grants_disjoint(s0, ig, im, p);
                        assert(!grant_contains(s0[im], p));
                    } else {
                        assert(g_end(cs[mm]) <= g_start(g));
                        assert(false);
                    }
                }
                assert(!covered_by_prefix(cs, n, p));
            }
            crate::grant::lemma_unmap_ok_congruent(fr_prev, m0, self.table.utable, midg);
        }
        let unmap_result = mid.unmap(&mut self.table.utable, flusher, frames);
        let _ = unmap_result;

        proof {
            let g = cs[n];
            lemma_remove_keep_outside(
                cur,
                rk,
                g,
                intersection,
                after_remove,
                after_before,
                done,
            );
            crate::grant::lemma_unmap_frames_congruent(
                fr_prev,
                m_iter,
                m_iter,
                g.piece_spec(intersection),
                intersection.count as int,
            );
            lemma_munmap_restep(
                s0,
                m0,
                fr0,
                cs,
                requested_span,
                n,
                intersection,
                cur,
                m_iter,
                fr_prev,
                done,
                self.table.utable,
                frames.infos_seq(),
            );
        }
    }

    /// Release every granted page in the span: each overlapping grant
    /// is taken out, its pieces outside the span are kept, and the
    /// overlap is unmapped, dropping the frame references its provider
    /// held. The file references of file-backed overlaps are returned
    /// so the caller can notify the owning schemes and close them
    /// after releasing the space's lock.
    #[verifier::rlimit(100)]
    #[verifier::spinoff_prover]
    pub fn munmap(&mut self, requested_span: PageSpan, frames: &mut crate::frames::FrameInfos)
        -> (r: Vec<(GrantFileRef, PageSpan)>)
        requires
            old(self).wf(),
            requested_span.wf(),
            crate::grant::munmap_frames_chain_ok(
                old(frames).infos_seq(),
                old(self).table.utable,
                conflicts_spec(old(self).grants.grants_seq(), requested_span),
                requested_span,
            ),
        ensures
            final(self).wf(),
            final(self).mmap_min == old(self).mmap_min,
            final(self).grants.funmap_seq() == old(self).grants.funmap_seq(),
            forall|p: int|
                grants_cover(final(self).grants.grants_seq(), p) <==> grants_cover(
                    old(self).grants.grants_seq(),
                    p,
                ) && !requested_span.contains_spec(p),
            forall|p: int|
                grants_cover(final(self).grants.grants_seq(), p) ==> page_state(
                    final(self).grants.grants_seq(),
                    p,
                ) == page_state(old(self).grants.grants_seq(), p),
            forall|p: int|
                !(requested_span.contains_spec(p) && grants_cover(
                    old(self).grants.grants_seq(),
                    p,
                )) ==> final(self).table.utable.translate_spec(p) == old(self).table.utable.translate_spec(p),
            forall|p: int|
                requested_span.contains_spec(p) && grants_cover(
                    old(self).grants.grants_seq(),
                    p,
                ) ==> final(self).table.utable.translate_spec(p) is None,
            final(frames).infos_seq() == crate::grant::munmap_frames_chain(
                old(frames).infos_seq(),
                old(self).table.utable,
                conflicts_spec(old(self).grants.grants_seq(), requested_span),
                requested_span,
            ),
            r@ == crate::grant::fmap_notes(
                conflicts_spec(old(self).grants.grants_seq(), requested_span),
                requested_span,
            ),
            forall|e: Grant|
                #[trigger] final(self).grants.grants_seq().contains(e) <==> ((old(
                    self,
                ).grants.grants_seq().contains(e) && !grant_overlaps(e, requested_span)) || (exists|
                    m: int,
                |
                    0 <= m < conflicts_spec(old(self).grants.grants_seq(), requested_span).len()
                        && is_munmap_piece(
                        e,
                        #[trigger] conflicts_spec(
                            old(self).grants.grants_seq(),
                            requested_span,
                        )[m],
                        requested_span,
                    ))),
    {
        let ghost s0 = self.grants.grants_seq();
        let ghost m0 = self.table.utable;
        let ghost fr0 = frames.infos_seq();
        let ghost fun0 = self.grants.funmap_seq();
        let ghost min0 = self.mmap_min;
        let ghost cs = conflicts_spec(s0, requested_span);
        proof {
            lemma_conflicts_sorted(s0, requested_span);
            lemma_conflicts_complete(s0, requested_span);
            lemma_conflicts_elements(s0, requested_span);
            assert forall|p: int| requested_span.contains_spec(p) implies (grants_cover(cs, p)
                <==> grants_cover(s0, p)) by {
                crate::user_grants::lemma_conflicts_cover(s0, requested_span, p);
            }
            assert(cs.take(0) =~= Seq::<Grant>::empty());
            // The grant list before the surgery: exactly the untouched
            // grants plus every conflict, still whole.
            assert forall|e: Grant| true implies (#[trigger] self.grants.grants_seq().contains(e)
                <==> ((s0.contains(e) && !grant_overlaps(e, requested_span)) || (exists|m2: int|
                0 <= m2 < 0 && is_munmap_piece(e, #[trigger] cs[m2], requested_span)) || (exists|
                m2: int,
            |
                0 <= m2 < cs.len() && e == #[trigger] cs[m2]))) by {
                if s0.contains(e) && grant_overlaps(e, requested_span) {
                    let i = choose|i: int| 0 <= i < s0.len() && s0[i] == e;
                    assert(cs.contains(s0[i]));
                    let m = choose|m: int| 0 <= m < cs.len() && cs[m] == s0[i];
                    assert(e == cs[m]);
                }
                if exists|m2: int| 0 <= m2 < cs.len() && e == #[trigger] cs[m2] {
                    let m2 = choose|m2: int| 0 <= m2 < cs.len() && e == #[trigger] cs[m2];
                    assert(s0.contains(cs[m2]));
                }
            }
        }
        let conflicting = self.grants.conflicts(requested_span);
        let mut flusher = PageFlushAll::new();
        let mut notify_files: Vec<(GrantFileRef, PageSpan)> = Vec::new();

        let mut n: usize = 0;
        while n < conflicting.len()
            invariant
                s0 == old(self).grants.grants_seq(),
                m0 == old(self).table.utable,
                fr0 == old(frames).infos_seq(),
                fun0 == old(self).grants.funmap_seq(),
                min0 == old(self).mmap_min,
                requested_span.wf(),
                crate::user_grants::grants_wf(s0),
                m0.wf(),
                cs == conflicts_spec(s0, requested_span),
                crate::grant::munmap_frames_chain_ok(fr0, m0, cs, requested_span),
                conflicting.len() == cs.len(),
                n <= cs.len(),
                forall|j: int| 0 <= j < cs.len() ==> #[trigger] conflicting[j] == (
                    cs[j].base,
                    cs[j].info,
                ),
                forall|j: int|
                    0 <= j < cs.len() ==> grant_valid(#[trigger] cs[j]) && grant_overlaps(
                        cs[j],
                        requested_span,
                    ) && s0.contains(cs[j]),
                forall|a: int, b: int|
                    0 <= a < b < cs.len() ==> g_end(#[trigger] cs[a]) <= g_start(#[trigger] cs[b]),
                forall|p: int|
                    requested_span.contains_spec(p) ==> (grants_cover(cs, p) <==> grants_cover(
                        s0,
                        p,
                    )),
                self.wf(),
                self.mmap_min == min0,
                self.grants.funmap_seq() == fun0,
                munmap_parts(
                    self.grants.grants_seq(),
                    self.table.utable,
                    frames.infos_seq(),
                    s0,
                    m0,
                    fr0,
                    cs,
                    requested_span,
                    n as int,
                ),
                notify_files@ == crate::grant::fmap_notes(cs.take(n as int), requested_span),
            decreases conflicting.len() - n,
        {
            let (grant_base, grant_info) = conflicting[n];
            self.munmap_step(
                requested_span,
                grant_base,
                grant_info,
                &mut flusher,
                frames,
                &mut notify_files,
                Ghost(s0),
                Ghost(m0),
                Ghost(fr0),
                Ghost(cs),
                Ghost(n as int),
            );
            proof {
                assert(cs.take(n + 1).drop_last() =~= cs.take(n as int));
                assert(cs.take(n + 1).last() == cs[n as int]);
            }
            n = n + 1;
        }
        proof {
            assert(cs.take(cs.len() as int) =~= cs);
            assert forall|p: int|
                requested_span.contains_spec(p) && #[trigger] grants_cover(s0, p) implies
                covered_by_prefix(cs, cs.len() as int, p) by {
                assert(grants_cover(cs, p));
            }
            assert forall|e: Grant| true implies (#[trigger] self.grants.grants_seq().contains(e)
                <==> ((s0.contains(e) && !grant_overlaps(e, requested_span)) || (exists|m: int|
                0 <= m < cs.len() && is_munmap_piece(e, #[trigger] cs[m], requested_span)))) by {
            }
        }
        notify_files
    }
}

} // verus!

verus! {

/// The set of address spaces, indexed by the identifiers that
/// `External` providers name.
pub struct AddrSpaces {
    pub spaces: Vec<AddrSpace>,
}

/// Whether the fault must be refused outright: no such space, no grant
/// at the page, or an access the grant's flags do not allow.
pub open spec fn segv_cond(
    spaces: Seq<AddrSpace>,
    current: int,
    pn: int,
    access: crate::flags::AccessMode,
) -> bool {
    ||| !(0 <= current < spaces.len())
    ||| !grants_cover(spaces[current].grants.grants_seq(), pn)
    ||| {
        let fl = crate::user_grants::flags_at(spaces[current].grants.grants_seq(), pn);
        (access is Write && !fl.write) || (access is InstrFetch && !fl.execute)
    }
}

/// The grant flags with the write bit additionally gated.
pub open spec fn fault_flags(fl: crate::flags::PageFlags, w: bool) -> crate::flags::PageFlags {
    crate::flags::PageFlags { write: fl.write && w, ..fl }
}

impl AddrSpaces {
    /// Every space well formed.
    pub open spec fn wf(self) -> bool {
        forall|i: int| 0 <= i < self.spaces@.len() ==> (#[trigger] self.spaces@[i]).wf()
    }

    /// An empty set.
    pub fn new() -> (r: AddrSpaces)
        ensures
            r.wf(),
            r.spaces@.len() == 0,
    {
        AddrSpaces { spaces: Vec::new() }
    }

    /// How many spaces exist.
    pub fn len(&self) -> (r: usize)
        ensures
            r == self.spaces@.len(),
    {
        self.spaces.len()
    }

    /// A shared view of one space.
    pub fn space(&self, i: usize) -> (r: &AddrSpace)
        requires
            i < self.spaces@.len(),
        ensures
            *r == self.spaces@[i as int],
    {
        &self.spaces[i]
    }

    /// Create a fresh empty address space and hand back its index.
    pub fn new_addrspace(&mut self) -> (r: Result<usize, Error>)
        requires
            old(self).wf(),
        ensures
            final(self).wf(),
            r is Ok,
            r matches Ok(id) ==> id == old(self).spaces@.len() && final(self).spaces@.len() == old(self).spaces@.len() + 1 && (forall|i: int|
                0 <= i < old(self).spaces@.len() ==> final(self).spaces@[i] == old(self).spaces@[i]) && final(self).spaces@[id as int].wf() && final(self).spaces@[id as int].grants.grants_seq() == Seq::<Grant>::empty() && (forall|p: int|
                final(self).spaces@[id as int].table.utable.translate_spec(p) is None),
    {
        let id = self.spaces.len();
        let space = match AddrSpace::new() {
            Ok(s) => s,
            Err(e) => {
                return Err(e);
            },
        };
        self.spaces.push(space);
        Ok(id)
    }

    /// Resolve a page fault in space `current` at `faulting_page` for
    /// the given access: check the grant and its flags, then allocate,
    /// share or reuse a frame as the grant's provider prescribes, map
    /// the page, and flush its stale translation.
    #[verifier::rlimit(100)]
    #[verifier::spinoff_prover]
    pub fn try_correcting_page_tables(
        &mut self,
        current: usize,
        faulting_page: Page,
        access: crate::flags::AccessMode,
        frames: &mut crate::frames::FrameInfos,
    ) -> (r: Result<(), crate::error::PfError>)
        requires
            old(self).wf(),
        ensures
            final(self).wf(),
            r == Err::<(), crate::error::PfError>(crate::error::PfError::Segv) <==> segv_cond(
                old(self).spaces@,
                current as int,
                faulting_page.number as int,
                access,
            ),
            r is Err ==> *final(self) == *old(self) && final(frames).infos_seq() == old(frames).infos_seq(),
            !segv_cond(old(self).spaces@, current as int, faulting_page.number as int, access)
                ==> r == ({
                let pn = faulting_page.number as int;
                let sp0 = old(self).spaces@[current as int];
                let s = sp0.grants.grants_seq();
                let fr = old(frames).infos_seq();
                let t = sp0.table.utable.translate_spec(pn);
                match crate::user_grants::provider_at(s, pn) {
                    Provider::PhysBorrowed { .. } => Ok::<(), crate::error::PfError>(()),
                    Provider::Fmap { .. } => Err(crate::error::PfError::NonfatalInternalError),
                    Provider::Allocated => match t {
                        Some(e) => {
                            if !(e.frame.number < fr.len() && fr[e.frame.number as int].allocated) {
                                Err(crate::error::PfError::NonfatalInternalError)
                            } else {
                                let info = fr[e.frame.number as int];
                                if access is Write && info.cow_refcount != 1 {
                                    if info.cow_refcount == 0 || info.refcount == 0 {
                                        Err(crate::error::PfError::NonfatalInternalError)
                                    } else if !old(frames).has_free_frame() {
                                        Err(crate::error::PfError::Oom)
                                    } else {
                                        Ok(())
                                    }
                                } else {
                                    Ok(())
                                }
                            }
                        },
                        None => if old(frames).has_free_frame() {
                            Ok(())
                        } else {
                            Err(crate::error::PfError::Oom)
                        },
                    },
                    Provider::External { address_space, src_base } => {
                        if address_space >= old(self).spaces@.len() {
                            Err(crate::error::PfError::NonfatalInternalError)
                        } else {
                            let st = old(
                                self,
                            ).spaces@[address_space as int].table.utable.translate_spec(
                                src_base.number as int,
                            );
                            match st {
                                Some(e2) => {
                                    if !(e2.frame.number < fr.len()
                                        && fr[e2.frame.number as int].allocated) {
                                        Err(crate::error::PfError::NonfatalInternalError)
                                    } else if fr[e2.frame.number as int].refcount == usize::MAX {
                                        Err(crate::error::PfError::NonfatalInternalError)
                                    } else {
                                        Ok(())
                                    }
                                },
                                None => if old(frames).has_free_frame() {
                                    Ok(())
                                } else {
                                    Err(crate::error::PfError::Oom)
                                },
                            }
                        }
                    },
                }
            }),
            r is Ok ==> ({
                let pn = faulting_page.number as int;
                let sp0 = old(self).spaces@[current as int];
                let s = sp0.grants.grants_seq();
                let fl = crate::user_grants::flags_at(s, pn);
                let fr = old(frames).infos_seq();
                let t = sp0.table.utable.translate_spec(pn);
                &&& final(self).spaces@.len() == old(self).spaces@.len()
                &&& (forall|i: int|
                    0 <= i < old(self).spaces@.len() && i != current ==> final(self).spaces@[i]
                        == old(self).spaces@[i])
                &&& final(self).spaces@[current as int].grants == sp0.grants
                &&& final(self).spaces@[current as int].mmap_min == sp0.mmap_min
                &&& (forall|q: int|
                    q != pn ==> final(self).spaces@[current as int].table.utable.translate_spec(q)
                        == sp0.table.utable.translate_spec(q))
                &&& (match crate::user_grants::provider_at(s, pn) {
                    Provider::PhysBorrowed { base } => {
                        &&& final(self).spaces@[current as int].table.utable.translate_spec(pn) == Some(
                            crate::mapper::PteEntry {
                                page: faulting_page,
                                frame: base,
                                flags: fault_flags(fl, true),
                            },
                        )
                        &&& final(frames).infos_seq() == fr
                    },
                    Provider::Allocated => match t {
                        Some(e) => {
                            let info = fr[e.frame.number as int];
                            if access is Write && info.cow_refcount != 1 {
                                // A copy-on-write break: a fresh frame
                                // takes one reference of each kind, the
                                // old frame loses one of each.
                                exists|f2: int|
                                    0 <= f2 < fr.len() && !(#[trigger] fr[f2]).allocated
                                        && final(frames).infos_seq() == fr.update(
                                        f2,
                                        crate::frames::PageInfo {
                                            allocated: true,
                                            refcount: 1,
                                            cow_refcount: 1,
                                        },
                                    ).update(
                                        e.frame.number as int,
                                        if info.refcount == 1 {
                                            crate::frames::PageInfo {
                                                allocated: false,
                                                refcount: 0,
                                                cow_refcount: 0,
                                            }
                                        } else {
                                            crate::frames::PageInfo {
                                                allocated: true,
                                                refcount: (info.refcount - 1) as usize,
                                                cow_refcount: (info.cow_refcount - 1) as usize,
                                            }
                                        },
                                    ) && final(self).spaces@[current as int].table.utable.translate_spec(pn)
                                        == Some(
                                        crate::mapper::PteEntry {
                                            page: faulting_page,
                                            frame: Frame { number: f2 as usize },
                                            flags: fault_flags(fl, true),
                                        },
                                    )
                            } else {
                                // The frame is reused; writability is
                                // gated on sole ownership.
                                &&& final(frames).infos_seq() == fr
                                &&& final(self).spaces@[current as int].table.utable.translate_spec(pn) == Some(
                                    crate::mapper::PteEntry {
                                        page: faulting_page,
                                        frame: e.frame,
                                        flags: fault_flags(fl, info.cow_refcount == 1),
                                    },
                                )
                            }
                        },
                        None => exists|f2: int|
                            0 <= f2 < fr.len() && !(#[trigger] fr[f2]).allocated && final(frames).infos_seq() == fr.update(
                                f2,
                                crate::frames::PageInfo {
                                    allocated: true,
                                    refcount: 1,
                                    cow_refcount: 1,
                                },
                            ) && final(self).spaces@[current as int].table.utable.translate_spec(pn) == Some(
                                crate::mapper::PteEntry {
                                    page: faulting_page,
                                    frame: Frame { number: f2 as usize },
                                    flags: fault_flags(fl, access is Write),
                                },
                            ),
                    },
                    Provider::External { address_space, src_base } => {
                        let st = old(self).spaces@[address_space as int].table.utable.translate_spec(
                            src_base.number as int,
                        );
                        match st {
                            Some(e2) => {
                                &&& final(frames).infos_seq() == fr.update(
                                    e2.frame.number as int,
                                    crate::frames::PageInfo {
                                        allocated: true,
                                        refcount: (fr[e2.frame.number as int].refcount
                                            + 1) as usize,
                                        cow_refcount: fr[e2.frame.number as int].cow_refcount,
                                    },
                                )
                                &&& final(self).spaces@[current as int].table.utable.translate_spec(pn) == Some(
                                    crate::mapper::PteEntry {
                                        page: faulting_page,
                                        frame: e2.frame,
                                        flags: fault_flags(fl, true),
                                    },
                                )
                            },
                            None => exists|f2: int|
                                0 <= f2 < fr.len() && !(#[trigger] fr[f2]).allocated && final(frames).infos_seq() == fr.update(
                                    f2,
                                    crate::frames::PageInfo {
                                        allocated: true,
                                        refcount: 1,
                                        cow_refcount: 1,
                                    },
                                ) && final(self).spaces@[current as int].table.utable.translate_spec(pn) == Some(
                                    crate::mapper::PteEntry {
                                        page: faulting_page,
                                        frame: Frame { number: f2 as usize },
                                        flags: fault_flags(fl, access is Write),
                                    },
                                ),
                        }
                    },
                    Provider::Fmap { .. } => false,
                })
            }),
    {
        if current >= self.spaces.len() {
            return Err(crate::error::PfError::Segv);
        }
        let ghost s = self.spaces@[current as int].grants.grants_seq();
        let ghost pn = faulting_page.number as int;

        let (grant_base, grant_info) = match self.spaces[current].grants.contains(faulting_page) {
            Some(t) => t,
            None => {
                return Err(crate::error::PfError::Segv);
            },
        };
        proof {
            let i = choose|i: int|
                0 <= i < s.len() && #[trigger] s[i] == (Grant { base: grant_base, info: grant_info })
                    && grant_contains(s[i], pn);
            lemma_covering_index(s, i, pn);
        }

        let grant_flags = grant_info.flags();
        if access == crate::flags::AccessMode::Write && !grant_flags.has_write() {
            return Err(crate::error::PfError::Segv);
        }
        if access == crate::flags::AccessMode::InstrFetch && !grant_flags.has_execute() {
            return Err(crate::error::PfError::Segv);
        }

        let pages_from_grant_start = faulting_page.offset_from(grant_base);
        let translation = self.spaces[current].table.utable.translate(faulting_page);

        let mut allow_writable = true;
        let frame = match grant_info.provider {
            Provider::Allocated => {
                match translation {
                    Some((frame0, _pte_flags)) => {
                        let info = match frames.get_page_info(frame0) {
                            Some(i) => i,
                            None => {
                                return Err(crate::error::PfError::NonfatalInternalError);
                            },
                        };
                        if access == crate::flags::AccessMode::Write {
                            if info.cow_refcount == 1 {
                                frame0
                            } else {
                                if info.cow_refcount == 0 || info.refcount == 0 {
                                    return Err(crate::error::PfError::NonfatalInternalError);
                                }
                                // Copy-on-write break: the writer gets a
                                // private copy of the shared frame.
                                let new_frame = match frames.init_frame() {
                                    Ok(f) => f,
                                    Err(e) => {
                                        return Err(e);
                                    },
                                };
                                frames.remove_ref(frame0, true);
                                new_frame
                            }
                        } else {
                            allow_writable = info.cow_refcount == 1;
                            frame0
                        }
                    },
                    None => {
                        let f = match frames.init_frame() {
                            Ok(f) => f,
                            Err(e) => {
                                return Err(e);
                            },
                        };
                        if access != crate::flags::AccessMode::Write {
                            allow_writable = false;
                        }
                        f
                    },
                }
            },
            Provider::PhysBorrowed { base } => base.next_by(pages_from_grant_start),
            Provider::External { address_space, src_base } => {
                if address_space >= self.spaces.len() {
                    return Err(crate::error::PfError::NonfatalInternalError);
                }
                let src_page = src_base.next_by(pages_from_grant_start);
                let src_translation = self.spaces[address_space].table.utable.translate(src_page);
                match src_translation {
                    Some((phys, _)) => {
                        let info = match frames.get_page_info(phys) {
                            Some(i) => i,
                            None => {
                                return Err(crate::error::PfError::NonfatalInternalError);
                            },
                        };
                        if info.refcount == usize::MAX {
                            return Err(crate::error::PfError::NonfatalInternalError);
                        }
                        frames.add_ref(phys, false);
                        phys
                    },
                    None => {
                        let f = match frames.init_frame() {
                            Ok(f) => f,
                            Err(e) => {
                                return Err(e);
                            },
                        };
                        if access != crate::flags::AccessMode::Write {
                            allow_writable = false;
                        }
                        f
                    },
                }
            },
            Provider::Fmap { .. } => {
                return Err(crate::error::PfError::NonfatalInternalError);
            },
        };

        let new_flags = grant_flags.write(grant_flags.has_write() && allow_writable);
        let space = &mut self.spaces[current];
        let flush = space.table.utable.map_phys(faulting_page, frame, new_flags);
        match flush {
            Some(f) => f.flush(),
            None => {},
        }
        Ok(())
    }
}

} // verus!

verus! {

/// Whether one of the first `n` listed grants is `Allocated` and
/// covers page `p`.
pub open spec fn allocated_prefix_cover(gs: Seq<Grant>, n: int, p: int) -> bool {
    exists|m: int|
        0 <= m < n && (#[trigger] gs[m]).info.provider is Allocated && grant_contains(gs[m], p)
}

/// A page-table entry a clone writes: the source frame, mapped
/// read-only under the grant's flags.
pub open spec fn cow_pte(
    e: Option<crate::mapper::PteEntry>,
    p: int,
    fl: crate::flags::PageFlags,
) -> Option<crate::mapper::PteEntry> {
    match e {
        Some(e) => Some(
            crate::mapper::PteEntry {
                page: Page { number: p as usize },
                frame: e.frame,
                flags: crate::flags::PageFlags { write: false, ..fl },
            },
        ),
        None => None,
    }
}

impl AddrSpaces {
    /// Clone address space `src` so that all its mappings are copied:
    /// a physically borrowed grant is borrowed again, an `Allocated`
    /// grant becomes a copy-on-write copy (both sides read-only on the
    /// same frames), and an `External` grant's reference is copied.
    /// The clone is appended to the set and its index returned. This
    /// is a fork; file-backed grants are not supported here.
    #[verifier::rlimit(100)]
    #[verifier::spinoff_prover]
    pub fn try_clone(&mut self, src: usize, frames: &mut crate::frames::FrameInfos) -> (r: Result<
        usize,
        Error,
    >)
        requires
            old(self).wf(),
            src < old(self).spaces@.len(),
            forall|j: int|
                0 <= j < old(self).spaces@[src as int].grants.grants_seq().len() ==> !(
                #[trigger] old(self).spaces@[src as int].grants.grants_seq()[j]).info.provider.is_fmap(),
            crate::grant::clone_frames_chain_ok(
                old(frames).infos_seq(),
                old(self).spaces@[src as int].table.utable,
                old(self).spaces@[src as int].grants.grants_seq(),
            ),
        ensures
            final(self).wf(),
            r is Ok,
            r matches Ok(id) ==> ({
                let src_gs = old(self).spaces@[src as int].grants.grants_seq();
                let m0 = old(self).spaces@[src as int].table.utable;
                let fr0 = old(frames).infos_seq();
                &&& id == old(self).spaces@.len()
                &&& final(self).spaces@.len() == old(self).spaces@.len() + 1
                &&& (forall|j: int|
                    0 <= j < old(self).spaces@.len() && j != src ==> final(self).spaces@[j] == old(self).spaces@[j])
                &&& final(self).spaces@[src as int].grants == old(self).spaces@[src as int].grants
                &&& final(self).spaces@[src as int].mmap_min == old(self).spaces@[src as int].mmap_min
                &&& (forall|p: int|
                    allocated_prefix_cover(src_gs, src_gs.len() as int, p) ==> final(self).spaces@[src as int].table.utable.translate_spec(p) == match m0.translate_spec(
                        p,
                    ) {
                        Some(e) => Some(
                            crate::mapper::PteEntry {
                                page: e.page,
                                frame: e.frame,
                                flags: crate::flags::PageFlags { write: false, ..e.flags },
                            },
                        ),
                        None => None::<crate::mapper::PteEntry>,
                    })
                &&& (forall|p: int|
                    !allocated_prefix_cover(src_gs, src_gs.len() as int, p) ==> final(self).spaces@[src as int].table.utable.translate_spec(p) == m0.translate_spec(p))
                &&& final(self).spaces@[id as int].grants.grants_seq() == src_gs
                &&& final(self).spaces@[id as int].grants.holes_seq() == old(self).spaces@[src as int].grants.holes_seq()
                &&& final(self).spaces@[id as int].mmap_min == MMAP_MIN_DEFAULT
                &&& (forall|p: int|
                    allocated_prefix_cover(src_gs, src_gs.len() as int, p) ==> final(self).spaces@[id as int].table.utable.translate_spec(p) == cow_pte(
                        m0.translate_spec(p),
                        p,
                        crate::user_grants::flags_at(src_gs, p),
                    ))
                &&& (forall|p: int|
                    !allocated_prefix_cover(src_gs, src_gs.len() as int, p) ==> final(self).spaces@[id as int].table.utable.translate_spec(p) is None)
                &&& final(frames).infos_seq() == crate::grant::clone_frames_chain(
                    fr0,
                    m0,
                    src_gs,
                )
            }),
    {
        let ghost src_gs = self.spaces@[src as int].grants.grants_seq();
        let ghost m0 = self.spaces@[src as int].table.utable;
        let ghost fr0 = frames.infos_seq();
        let ghost spaces0 = self.spaces@;

        let glist = self.spaces[src].grants.iter();
        let mut new_space = match AddrSpace::new() {
            Ok(s) => s,
            Err(e) => {
                return Err(e);
            },
        };
        let mut this_flusher = PageFlushAll::new();
        let mut dst_flusher = PageFlushAll::new();

        proof {
            assert(src_gs.take(0) =~= Seq::<Grant>::empty());
        }

        let mut i: usize = 0;
        while i < glist.len()
            invariant
                src < spaces0.len(),
                src_gs == spaces0[src as int].grants.grants_seq(),
                m0 == spaces0[src as int].table.utable,
                crate::user_grants::grants_wf(src_gs),
                m0.wf(),
                forall|j: int| 0 <= j < src_gs.len() ==> !(
                #[trigger] src_gs[j]).info.provider.is_fmap(),
                crate::grant::clone_frames_chain_ok(fr0, m0, src_gs),
                glist.len() == src_gs.len(),
                forall|j: int| 0 <= j < src_gs.len() ==> #[trigger] glist[j] == (
                    src_gs[j].base,
                    src_gs[j].info,
                ),
                i <= src_gs.len(),
                self.spaces@.len() == spaces0.len(),
                forall|j: int|
                    0 <= j < spaces0.len() && j != src ==> #[trigger] self.spaces@[j]
                        == spaces0[j],
                self.spaces@[src as int].grants == spaces0[src as int].grants,
                self.spaces@[src as int].mmap_min == spaces0[src as int].mmap_min,
                self.spaces@[src as int].wf(),
                forall|p: int|
                    allocated_prefix_cover(src_gs, i as int, p)
                        ==> self.spaces@[src as int].table.utable.translate_spec(p)
                        == match m0.translate_spec(p) {
                        Some(e) => Some(
                            crate::mapper::PteEntry {
                                page: e.page,
                                frame: e.frame,
                                flags: crate::flags::PageFlags { write: false, ..e.flags },
                            },
                        ),
                        None => None::<crate::mapper::PteEntry>,
                    },
                forall|p: int|
                    !allocated_prefix_cover(src_gs, i as int, p)
                        ==> self.spaces@[src as int].table.utable.translate_spec(p)
                        == m0.translate_spec(p),
                new_space.wf(),
                new_space.mmap_min == MMAP_MIN_DEFAULT,
                new_space.grants.grants_seq() == src_gs.take(i as int),
                forall|p: int|
                    allocated_prefix_cover(src_gs, i as int, p)
                        ==> new_space.table.utable.translate_spec(p) == cow_pte(
                        m0.translate_spec(p),
                        p,
                        crate::user_grants::flags_at(src_gs, p),
                    ),
                forall|p: int|
                    !allocated_prefix_cover(src_gs, i as int, p)
                        ==> new_space.table.utable.translate_spec(p) is None,
                frames.infos_seq() == crate::grant::clone_frames_chain(
                    fr0,
                    m0,
                    src_gs.take(i as int),
                ),
            decreases glist.len() - i,
        {
            let (grant_base, grant_info) = glist[i];
            let ghost g = src_gs[i as int];
            proof {
                assert(g == Grant { base: grant_base, info: grant_info });
                // This grant's span is untouched by earlier clone
                // steps: earlier grants end before it starts.
                assert forall|idx: int| 0 <= idx < g.info.page_count implies
                    !(#[trigger] allocated_prefix_cover(src_gs, i as int, g_start(g) + idx)) by {
                    let p = g_start(g) + idx;
                    if allocated_prefix_cover(src_gs, i as int, p) {
                        let m = choose|m: int|
                            0 <= m < i && (#[trigger] src_gs[m]).info.provider is Allocated
                                && grant_contains(src_gs[m], p);
                        lemma_grants_sorted(src_gs, m, i as int);
                        assert(false);
                    }
                }
                assert forall|idx: int| 0 <= idx < g.info.page_count implies
                    #[trigger] self.spaces@[src as int].table.utable.translate_spec(
                    g_start(g) + idx,
                ) == m0.translate_spec(g_start(g) + idx) by {
                    assert(!allocated_prefix_cover(src_gs, i as int, g_start(g) + idx));
                }
            }
            let ghost m_src_iter = self.spaces@[src as int].table.utable;
            let ghost fr_prev = frames.infos_seq();
            let ghost m_dst_iter = new_space.table.utable;

            let new_grant = match grant_info.provider {
                Provider::PhysBorrowed { base } => {
                    match Grant::physmap(
                        base,
                        PageSpan::new(grant_base, grant_info.page_count),
                        grant_info.flags,
                        &mut new_space.table.utable,
                        &mut dst_flusher,
                    ) {
                        Ok(gr) => gr,
                        Err(_) => {
                            return Err(Error::NoMemory);
                        },
                    }
                },
                Provider::Allocated => {
                    proof {
                        crate::grant::lemma_clone_chain_ok_at(fr0, m0, src_gs, i as int);
                        crate::grant::lemma_cow_ok_congruent(
                            fr_prev,
                            m0,
                            m_src_iter,
                            g_start(g),
                            g.info.page_count as int,
                        );
                    }
                    let src_space = &mut self.spaces[src];
                    match Grant::cow(
                        grant_base,
                        grant_base,
                        grant_info.page_count,
                        grant_info.flags,
                        &mut src_space.table.utable,
                        &mut new_space.table.utable,
                        &mut this_flusher,
                        &mut dst_flusher,
                        frames,
                    ) {
                        Ok(gr) => gr,
                        Err(_) => {
                            return Err(Error::NoMemory);
                        },
                    }
                },
                Provider::External { address_space, src_base } => {
                    match Grant::borrow_grant(
                        address_space,
                        src_base,
                        grant_base,
                        &grant_info,
                        &mut new_space.table.utable,
                        &mut dst_flusher,
                        false,
                    ) {
                        Ok(gr) => gr,
                        Err(_) => {
                            return Err(Error::NoMemory);
                        },
                    }
                },
                Provider::Fmap { .. } => {
                    proof {
                        assert(false);
                    }
                    vstd::pervasive::unreached()
                },
            };
            proof {
                assert(new_grant == g);
                assert forall|p: int| grant_contains(g, p) implies !grants_cover(
                    new_space.grants.grants_seq(),
                    p,
                ) by {
                    if grants_cover(src_gs.take(i as int), p) {
                        let m = choose|m: int|
                            0 <= m < i && grant_contains(#[trigger] src_gs.take(i as int)[m], p);
                        assert(src_gs.take(i as int)[m] == src_gs[m]);
                        lemma_grants_sorted(src_gs, m, i as int);
                        assert(false);
                    }
                }
            }
            new_space.grants.insert(new_grant);
            proof {
                // The new grant lands at the end: everything before it
                // starts lower.
                let k = choose|k: int|
                    0 <= k <= src_gs.take(i as int).len() && (forall|j: int|
                        0 <= j < k ==> g_start(#[trigger] src_gs.take(i as int)[j]) < g_start(g))
                        && (forall|j: int|
                        k <= j < src_gs.take(i as int).len() ==> g_start(g) < g_start(
                            #[trigger] src_gs.take(i as int)[j],
                        )) && new_space.grants.grants_seq() == src_gs.take(i as int).insert(k, g);
                if k < i {
                    assert(g_start(g) < g_start(src_gs.take(i as int)[k]));
                    assert(src_gs.take(i as int)[k] == src_gs[k]);
                    lemma_grants_sorted(src_gs, k, i as int);
                    assert(false);
                }
                assert(new_space.grants.grants_seq() =~= src_gs.take(i + 1));

                // The frame table follows the clone chain.
                if g.info.provider is Allocated {
                    crate::grant::lemma_cow_frames_congruent(
                        fr_prev,
                        m_src_iter,
                        m0,
                        g_start(g),
                        g.info.page_count as int,
                    );
                }
                crate::grant::lemma_clone_chain_prefix(fr0, m0, src_gs, i as int);

                // Prefix coverage unfolds by one grant.
                assert forall|p: int| true implies (allocated_prefix_cover(src_gs, i + 1, p) <==> (
                allocated_prefix_cover(src_gs, i as int, p) || (g.info.provider is Allocated
                    && grant_contains(g, p)))) by {
                    if allocated_prefix_cover(src_gs, i + 1, p) {
                        let m = choose|m: int|
                            0 <= m < i + 1 && (#[trigger] src_gs[m]).info.provider is Allocated
                                && grant_contains(src_gs[m], p);
                        if m < i {
                            assert(allocated_prefix_cover(src_gs, i as int, p));
                        }
                    }
                    if allocated_prefix_cover(src_gs, i as int, p) {
                        let m = choose|m: int|
                            0 <= m < i && (#[trigger] src_gs[m]).info.provider is Allocated
                                && grant_contains(src_gs[m], p);
                    }
                }
                assert forall|p: int| grant_contains(g, p) implies crate::user_grants::flags_at(
                    src_gs,
                    p,
                ) == g.info.flags by {
                    lemma_covering_index(src_gs, i as int, p);
                }
                assert forall|p: int|
                    allocated_prefix_cover(src_gs, i as int, p) implies !grant_contains(
                    g,
                    p,
                ) by {
                    let m = choose|m: int|
                        0 <= m < i && (#[trigger] src_gs[m]).info.provider is Allocated
                            && grant_contains(src_gs[m], p);
                    lemma_grants_disjoint(src_gs, m, i as int, p);
                }
                // Re-establish the two page-table invariants for the
                // grown prefix.
                assert forall|p: int| allocated_prefix_cover(src_gs, i + 1, p) implies
                    self.spaces@[src as int].table.utable.translate_spec(p) == (
                match m0.translate_spec(p) {
                    Some(e) => Some(
                        crate::mapper::PteEntry {
                            page: e.page,
                            frame: e.frame,
                            flags: crate::flags::PageFlags { write: false, ..e.flags },
                        },
                    ),
                    None => None::<crate::mapper::PteEntry>,
                }) by {
                    if g.info.provider is Allocated && grant_contains(g, p) {
                        let idx = p - g_start(g);
                        assert(0 <= idx < g.info.page_count);
                        assert(m_src_iter.translate_spec(g_start(g) + idx) == m0.translate_spec(
                            g_start(g) + idx,
                        ));
                    } else {
                        assert(allocated_prefix_cover(src_gs, i as int, p));
                        if g.info.provider is Allocated {
                            assert(!(g_start(g) <= p < g_start(g) + g.info.page_count));
                        }
                    }
                }
                assert forall|p: int| allocated_prefix_cover(src_gs, i + 1, p) implies
                    new_space.table.utable.translate_spec(p) == cow_pte(
                    m0.translate_spec(p),
                    p,
                    crate::user_grants::flags_at(src_gs, p),
                ) by {
                    if g.info.provider is Allocated && grant_contains(g, p) {
                        let idx = p - g_start(g);
                        assert(0 <= idx < g.info.page_count);
                        assert(m_src_iter.translate_spec(g_start(g) + idx) == m0.translate_spec(
                            g_start(g) + idx,
                        ));
                        assert(crate::user_grants::flags_at(src_gs, p) == g.info.flags);
                    } else {
                        assert(allocated_prefix_cover(src_gs, i as int, p));
                        if g.info.provider is Allocated {
                            assert(!(g_start(g) <= p < g_start(g) + g.info.page_count));
                        }
                    }
                }
                assert forall|p: int| !allocated_prefix_cover(src_gs, i + 1, p) implies
                    new_space.table.utable.translate_spec(p) is None by {
                    assert(!allocated_prefix_cover(src_gs, i as int, p));
                    if g.info.provider is Allocated {
                        assert(!grant_contains(g, p));
                    }
                }
            }
            i = i + 1;
        }
        proof {
            assert(src_gs.take(src_gs.len() as int) =~= src_gs);
            // The clone's holes equal the source's: both lists are
            // maximal and cover the complement of the same grants.
            assert forall|p: int| true implies (crate::user_grants::holes_cover(
                new_space.grants.holes_seq(),
                p,
            ) <==> crate::user_grants::holes_cover(
                spaces0[src as int].grants.holes_seq(),
                p,
            )) by {
                if 0 <= p < crate::page::USER_END_PAGE {
                } else {
                    if crate::user_grants::holes_cover(new_space.grants.holes_seq(), p) {
                        let a = choose|a: int|
                            0 <= a < new_space.grants.holes_seq().len()
                                && crate::user_grants::hole_contains(
                                #[trigger] new_space.grants.holes_seq()[a],
                                p,
                            );
                    }
                    if crate::user_grants::holes_cover(
                        spaces0[src as int].grants.holes_seq(),
                        p,
                    ) {
                        let a = choose|a: int|
                            0 <= a < spaces0[src as int].grants.holes_seq().len()
                                && crate::user_grants::hole_contains(
                                #[trigger] spaces0[src as int].grants.holes_seq()[a],
                                p,
                            );
                    }
                }
            }
            lemma_holes_canonical(
                new_space.grants.holes_seq(),
                spaces0[src as int].grants.holes_seq(),
            );
        }
        let id = self.spaces.len();
        self.spaces.push(new_space);
        Ok(id)
    }
}

} // verus!

verus! {

/// The destination grants that borrowing a source span produces, one
/// per overlapping source grant.
pub open spec fn borrowed_set(
    src_gs: Seq<Grant>,
    src_span: PageSpan,
    dst_base: Page,
    fl: crate::flags::PageFlags,
    src_id: usize,
) -> Seq<Grant> {
    Seq::new(
        conflicts_spec(src_gs, src_span).len(),
        |m: int|
            crate::grant::borrowed_grant(
                conflicts_spec(src_gs, src_span)[m],
                src_span,
                dst_base,
                fl,
                src_id,
            ),
    )
}

impl AddrSpaces {
    /// Map, into space `dst`, a borrow of the pages
    /// `[src_base, src_base + page_count)` of space `src`: the
    /// destination is resolved like any `mmap`, and one grant per
    /// overlapping source grant is recorded, lazily mirroring the
    /// source. A space cannot borrow from itself; file-backed source
    /// grants are unsupported.
    #[verifier::rlimit(100)]
    #[verifier::spinoff_prover]
    pub fn mmap_multiple(
        &mut self,
        dst: usize,
        src: usize,
        src_base: Page,
        page: Option<Page>,
        page_count: usize,
        flags: MapFlags,
    ) -> (r: Result<Page, Error>)
        requires
            old(self).wf(),
            dst < old(self).spaces@.len(),
            src < old(self).spaces@.len(),
            dst != src,
            page_count > 0,
            src_base.number + page_count <= USER_END_PAGE,
            page matches Some(b) ==> b.number + page_count <= USER_END_PAGE,
            forall|i: int|
                0 <= i < old(self).spaces@[src as int].grants.grants_seq().len() && grant_overlaps(
                    #[trigger] old(self).spaces@[src as int].grants.grants_seq()[i],
                    PageSpan { base: src_base, count: page_count },
                ) ==> !old(self).spaces@[src as int].grants.grants_seq()[i].info.provider.is_fmap(),
        ensures
            final(self).wf(),
            final(self).spaces@.len() == old(self).spaces@.len(),
            forall|j: int|
                0 <= j < old(self).spaces@.len() && j != dst ==> final(self).spaces@[j] == old(self).spaces@[j],
            r matches Err(e) ==> final(self).spaces@[dst as int] == old(self).spaces@[dst as int]
                && find_free_at_post(
                old(self).spaces@[dst as int].grants.grants_seq(),
                old(self).spaces@[dst as int].grants.holes_seq(),
                (old(self).spaces@[dst as int].mmap_min / PAGE_SIZE) as int,
                page,
                page_count as int,
                flags,
                Err(e),
            ),
            r matches Ok(base) ==> exists|span: PageSpan|
                #[trigger] find_free_at_post(
                    old(self).spaces@[dst as int].grants.grants_seq(),
                    old(self).spaces@[dst as int].grants.holes_seq(),
                    (old(self).spaces@[dst as int].mmap_min / PAGE_SIZE) as int,
                    page,
                    page_count as int,
                    flags,
                    Ok(span),
                ) && span.base == base && ({
                    let bs = borrowed_set(
                        old(self).spaces@[src as int].grants.grants_seq(),
                        PageSpan { base: src_base, count: page_count },
                        span.base,
                        page_flags_spec(flags),
                        src,
                    );
                    &&& (forall|p: int|
                        grants_cover(final(self).spaces@[dst as int].grants.grants_seq(), p)
                            <==> grants_cover(old(self).spaces@[dst as int].grants.grants_seq(), p)
                            || grants_cover(bs, p))
                    &&& (forall|m: int|
                        0 <= m < bs.len() ==> final(self).spaces@[dst as int].grants.grants_seq().contains(#[trigger] bs[m]))
                    &&& (forall|p: int|
                        grants_cover(old(self).spaces@[dst as int].grants.grants_seq(), p)
                            ==> page_state(final(self).spaces@[dst as int].grants.grants_seq(), p)
                            == page_state(old(self).spaces@[dst as int].grants.grants_seq(), p))
                    &&& final(self).spaces@[dst as int].table == old(self).spaces@[dst as int].table
                    &&& final(self).spaces@[dst as int].mmap_min == old(self).spaces@[dst as int].mmap_min
                }),
    {
        let ghost spaces0 = self.spaces@;
        let ghost dst_gs0 = self.spaces@[dst as int].grants.grants_seq();
        let ghost src_gs = self.spaces@[src as int].grants.grants_seq();
        let src_span = PageSpan::new(src_base, page_count);

        let selected_span = {
            let dst_space = &self.spaces[dst];
            match dst_space.grants.find_free_at(dst_space.mmap_min, page, page_count, flags) {
                Ok(span) => span,
                Err(e) => {
                    return Err(e);
                },
            }
        };

        let mut dst_flusher = PageFlushAll::new();
        proof {
            assert forall|i: int|
                0 <= i < src_gs.len() && grant_overlaps(#[trigger] src_gs[i], src_span) implies
                !src_gs[i].info.provider.is_fmap() && crate::grant::provider_shift_ok(
                src_gs[i],
            ) by {
            }
        }
        // The borrow writes no page-table entries (mirroring is lazy),
        // so it works against a scratch table.
        let mut scratch_table = crate::mapper::PageMapper::new();
        let borrowed = {
            let src_space = &self.spaces[src];
            match Grant::borrow(
                src,
                &src_space.grants,
                src_base,
                selected_span.base,
                page_count,
                page_flags(flags),
                &mut scratch_table,
                &mut dst_flusher,
                false,
            ) {
                Ok(v) => v,
                Err(_) => {
                    return Err(Error::NoMemory);
                },
            }
        };
        let ghost bs = borrowed_set(
            src_gs,
            src_span,
            selected_span.base,
            page_flags_spec(flags),
            src,
        );
        proof {
            assert(bs =~= borrowed@);
            assert(crate::user_grants::grants_wf(borrowed@));
        }

        let mut j: usize = 0;
        while j < borrowed.len()
            invariant
                dst < spaces0.len(),
                src < spaces0.len(),
                dst != src,
                bs == borrowed@,
                crate::user_grants::grants_wf(bs),
                selected_span.wf(),
                forall|i: int|
                    0 <= i < bs.len() ==> selected_span.base.number <= g_start(#[trigger] bs[i])
                        && g_end(bs[i]) <= selected_span.base.number + selected_span.count,
                forall|p: int| selected_span.contains_spec(p) ==> !grants_cover(dst_gs0, p),
                dst_gs0 == spaces0[dst as int].grants.grants_seq(),
                j <= bs.len(),
                self.spaces@.len() == spaces0.len(),
                forall|i: int|
                    0 <= i < spaces0.len() && i != dst ==> #[trigger] self.spaces@[i]
                        == spaces0[i],
                self.spaces@[dst as int].wf(),
                self.spaces@[dst as int].table == spaces0[dst as int].table,
                self.spaces@[dst as int].mmap_min == spaces0[dst as int].mmap_min,
                forall|p: int|
                    grants_cover(self.spaces@[dst as int].grants.grants_seq(), p) <==> grants_cover(
                        dst_gs0,
                        p,
                    ) || exists|m: int|
                        0 <= m < j && grant_contains(#[trigger] bs[m], p),
                forall|m: int|
                    0 <= m < j ==> self.spaces@[dst as int].grants.grants_seq().contains(
                        #[trigger] bs[m],
                    ),
                forall|p: int|
                    grants_cover(dst_gs0, p) ==> page_state(
                        self.spaces@[dst as int].grants.grants_seq(),
                        p,
                    ) == page_state(dst_gs0, p),
            decreases borrowed.len() - j,
        {
            let g = borrowed[j];
            let ghost cur = self.spaces@[dst as int].grants.grants_seq();
            proof {
                assert(g == bs[j as int]);
                assert forall|p: int| grant_contains(g, p) implies !grants_cover(cur, p) by {
                    assert(selected_span.contains_spec(p));
                    if exists|m: int| 0 <= m < j && grant_contains(#[trigger] bs[m], p) {
                        let m = choose|m: int| 0 <= m < j && grant_contains(#[trigger] bs[m], p);
                        crate::user_grants::lemma_grants_disjoint(bs, m, j as int, p);
                    }
                }
            }
            let dst_space = &mut self.spaces[dst];
            dst_space.grants.insert(g);
            proof {
                let k = choose|k: int|
                    0 <= k <= cur.len() && (forall|a: int|
                        0 <= a < k ==> g_start(#[trigger] cur[a]) < g_start(g)) && (forall|a: int|
                        k <= a < cur.len() ==> g_start(g) < g_start(#[trigger] cur[a]))
                        && self.spaces@[dst as int].grants.grants_seq() == cur.insert(k, g);
                let done = self.spaces@[dst as int].grants.grants_seq();
                assert(done[k] == g);
                assert(done.contains(g));
                assert forall|m: int| 0 <= m < j implies done.contains(#[trigger] bs[m]) by {
                    crate::user_grants::lemma_insert_retains(cur, k, g, bs[m]);
                }
                assert forall|p: int| true implies (grants_cover(done, p) <==> grants_cover(
                    cur,
                    p,
                ) || grant_contains(g, p)) by {
                    crate::user_grants::lemma_cover_insert(cur, k, g, p);
                }
                assert forall|p: int| grants_cover(dst_gs0, p) implies page_state(done, p)
                    == page_state(cur, p) by {
                    lemma_at_insert(cur, k, g, p);
                }
                assert forall|p: int| true implies ((exists|m: int|
                    0 <= m < j + 1 && grant_contains(#[trigger] bs[m], p)) <==> ((exists|m: int|
                    0 <= m < j && grant_contains(#[trigger] bs[m], p)) || grant_contains(
                    g,
                    p,
                ))) by {
                    if exists|m: int| 0 <= m < j + 1 && grant_contains(#[trigger] bs[m], p) {
                        let m = choose|m: int|
                            0 <= m < j + 1 && grant_contains(#[trigger] bs[m], p);
                        if m < j {
                            assert(exists|m2: int|
                                0 <= m2 < j && grant_contains(#[trigger] bs[m2], p));
                        }
                    }
                }
            }
            j = j + 1;
        }
        proof {
            assert forall|p: int| true implies ((exists|m: int|
                0 <= m < bs.len() && grant_contains(#[trigger] bs[m], p)) <==> grants_cover(
                bs,
                p,
            )) by {
            }
        }
        Ok(selected_span.base)
    }
}

} // verus!

verus! {

/// Allocate a fresh zeroed frame, owned by its first user, and map the
/// given page to it. Fails with `Oom` exactly when the frame allocator
/// is exhausted. Whether the mapping is writable is decided by the
/// flags the caller passes.
pub fn map_zeroed(
    mapper: &mut crate::mapper::PageMapper,
    page: Page,
    page_flags: crate::flags::PageFlags,
    writable: bool,
    frames: &mut crate::frames::FrameInfos,
) -> (r: Result<Frame, crate::error::PfError>)
    requires
        old(mapper).wf(),
    ensures
        final(mapper).wf(),
        r is Ok <==> old(frames).has_free_frame(),
        r matches Err(e) ==> e == crate::error::PfError::Oom && *final(mapper) == *old(mapper)
            && final(frames).infos_seq() == old(frames).infos_seq(),
        r matches Ok(f) ==> f.number < old(frames).infos_seq().len() && !old(frames).infos_seq()[f.number as int].allocated && final(frames).infos_seq() == old(frames).infos_seq().update(
            f.number as int,
            crate::frames::PageInfo { allocated: true, refcount: 1, cow_refcount: 1 },
        ) && final(mapper).translate_spec(page.number as int) == Some(
            crate::mapper::PteEntry { page, frame: f, flags: page_flags },
        ) && (forall|q: int|
            q != page.number ==> final(mapper).translate_spec(q) == old(mapper).translate_spec(
                q,
            )),
{
    let _ = writable;
    let new_frame = match frames.init_frame() {
        Ok(f) => f,
        Err(e) => {
            return Err(e);
        },
    };
    match mapper.map_phys(page, new_frame, page_flags) {
        Some(flush) => flush.flush(),
        None => {},
    }
    Ok(new_frame)
}

} // verus!
