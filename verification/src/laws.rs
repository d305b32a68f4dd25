//! The stated laws of the library: properties that relate several
//! operations, each proved once and for all.

use vstd::prelude::*;

use crate::flags::{mprotect_flags, MapFlags};
use crate::frames::PageInfo;
use crate::grant::{
    cow_frames_spec, g_start, grant_contains, grant_valid, munmap_frames_chain,
    unmap_frames_spec, Grant,
};
use crate::mapper::{PageMapper, PteEntry};
use crate::page::USER_END_PAGE;
use crate::span::PageSpan;
use crate::user_grants::{
    flags_at, grants_cover, hole_contains, holes_cover, lemma_grants_disjoint,
    lemma_holes_canonical, lemma_holes_disjoint, page_state, provider_at, UserGrants,
};

verus! {

/// The spans of any two distinct grants of a well-formed collection
/// are disjoint: no page belongs to both.
pub proof fn lemma_grant_spans_disjoint(ug: UserGrants)
    requires
        ug.wf(),
    ensures
        forall|i: int, j: int, p: int|
            0 <= i < ug.grants_seq().len() && 0 <= j < ug.grants_seq().len() && i != j
                && #[trigger] grant_contains(ug.grants_seq()[i], p) ==> !(
            #[trigger] grant_contains(ug.grants_seq()[j], p)),
{
    assert forall|i: int, j: int, p: int|
        0 <= i < ug.grants_seq().len() && 0 <= j < ug.grants_seq().len() && i != j
            && #[trigger] grant_contains(ug.grants_seq()[i], p) implies !(
    #[trigger] grant_contains(ug.grants_seq()[j], p)) by {
        lemma_grants_disjoint(ug.grants_seq(), i, j, p);
    }
}

/// Grant spans and holes partition the user address range exactly:
/// every user page lies in a grant or in a hole, never in both, and
/// the summands are pairwise disjoint.
pub proof fn lemma_coverage_partition(ug: UserGrants)
    requires
        ug.wf(),
    ensures
        forall|p: int|
            0 <= p < USER_END_PAGE ==> (grants_cover(ug.grants_seq(), p) <==> !holes_cover(
                ug.holes_seq(),
                p,
            )),
        forall|i: int, j: int, p: int|
            0 <= i < ug.holes_seq().len() && 0 <= j < ug.holes_seq().len() && i != j
                && #[trigger] hole_contains(ug.holes_seq()[i], p) ==> !(#[trigger] hole_contains(
                ug.holes_seq()[j],
                p,
            )),
{
    assert forall|i: int, j: int, p: int|
        0 <= i < ug.holes_seq().len() && 0 <= j < ug.holes_seq().len() && i != j
            && #[trigger] hole_contains(ug.holes_seq()[i], p) implies !(#[trigger] hole_contains(
        ug.holes_seq()[j],
        p,
    )) by {
        lemma_holes_disjoint(ug.holes_seq(), i, j, p);
    }
}

/// Mapping a fresh span and then unmapping exactly that span returns
/// the address space to its initial state: the hole map, the page
/// table and the frame refcounts are restored (the states are related
/// by the contracts of `mmap` with a zeroed source and of `munmap` of
/// the returned span; the initial table must hold no stale entries
/// outside its grants).
#[verifier::rlimit(100)]
pub proof fn lemma_mmap_munmap_roundtrip(
    a: crate::addr_space::AddrSpace,
    b: crate::addr_space::AddrSpace,
    c: crate::addr_space::AddrSpace,
    span: PageSpan,
    g: Grant,
    fr0: Seq<PageInfo>,
    fr2: Seq<PageInfo>,
)
    requires
        a.wf(),
        b.wf(),
        c.wf(),
        span.count > 0,
        g.base == span.base,
        g.info.page_count == span.count,
        grant_valid(g),
        forall|p: int| !grants_cover(a.grants.grants_seq(), p) ==> a.table.utable.translate_spec(p) is None,
        forall|p: int| span.contains_spec(p) ==> !grants_cover(a.grants.grants_seq(), p),
        // What mmap's contract gives for the mapping step.
        crate::user_grants::insert_post(a.grants, b.grants, g),
        b.table == a.table,
        b.mmap_min == a.mmap_min,
        // What munmap's contract gives for the unmapping step.
        forall|p: int|
            grants_cover(c.grants.grants_seq(), p) <==> grants_cover(b.grants.grants_seq(), p)
                && !span.contains_spec(p),
        forall|p: int|
            !(span.contains_spec(p) && grants_cover(b.grants.grants_seq(), p))
                ==> c.table.utable.translate_spec(p) == b.table.utable.translate_spec(p),
        forall|p: int|
            span.contains_spec(p) && grants_cover(b.grants.grants_seq(), p)
                ==> c.table.utable.translate_spec(p) is None,
        fr2 == munmap_frames_chain(
            fr0,
            b.table.utable,
            crate::user_grants::conflicts_spec(b.grants.grants_seq(), span),
            span,
        ),
    ensures
        c.grants.holes_seq() == a.grants.holes_seq(),
        forall|p: int| c.table.utable.translate_spec(p) == a.table.utable.translate_spec(p),
        fr2 == fr0,
        forall|p: int|
            grants_cover(c.grants.grants_seq(), p) <==> grants_cover(a.grants.grants_seq(), p),
{
    // Coverage returns to the initial coverage: the inserted grant is
    // exactly the span taken away again.
    assert forall|p: int| true implies (grants_cover(c.grants.grants_seq(), p) <==> grants_cover(
        a.grants.grants_seq(),
        p,
    )) by {
        assert(grants_cover(b.grants.grants_seq(), p) <==> grants_cover(a.grants.grants_seq(), p)
            || grant_contains(g, p));
        assert(grant_contains(g, p) <==> span.contains_spec(p));
    }
    // Hence the holes are the initial holes, by canonicity.
    assert forall|p: int| true implies (holes_cover(c.grants.holes_seq(), p) <==> holes_cover(
        a.grants.holes_seq(),
        p,
    )) by {
        if 0 <= p < USER_END_PAGE {
        } else {
            if holes_cover(c.grants.holes_seq(), p) {
                let i = choose|i: int|
                    0 <= i < c.grants.holes_seq().len() && hole_contains(
                        #[trigger] c.grants.holes_seq()[i],
                        p,
                    );
            }
            if holes_cover(a.grants.holes_seq(), p) {
                let i = choose|i: int|
                    0 <= i < a.grants.holes_seq().len() && hole_contains(
                        #[trigger] a.grants.holes_seq()[i],
                        p,
                    );
            }
        }
    }
    lemma_holes_canonical(c.grants.holes_seq(), a.grants.holes_seq());
    // The page table is restored: the span held no entries to begin
    // with, and nothing outside it was touched.
    assert forall|p: int| true implies c.table.utable.translate_spec(p)
        == a.table.utable.translate_spec(p) by {
        if span.contains_spec(p) {
            assert(grant_contains(g, p));
            assert(grants_cover(b.grants.grants_seq(), p));
            assert(a.table.utable.translate_spec(p) is None);
        }
    }
    // No frame reference changes: every page the unmap chain visits
    // lies in the span, where the table was empty.
    let cs = crate::user_grants::conflicts_spec(b.grants.grants_seq(), span);
    lemma_chain_noop_in_span(fr0, b.table.utable, cs, span);
}

/// An unmap chain over grants whose overlap with the span holds no
/// page-table entries changes nothing.
proof fn lemma_chain_noop_in_span(
    fr: Seq<PageInfo>,
    m: PageMapper,
    cs: Seq<Grant>,
    span: PageSpan,
)
    requires
        forall|p: int| span.contains_spec(p) ==> #[trigger] m.translate_spec(p) is None,
        span.wf(),
    ensures
        munmap_frames_chain(fr, m, cs, span) == fr,
    decreases cs.len(),
{
    if cs.len() > 0 {
        lemma_chain_noop_in_span(fr, m, cs.drop_last(), span);
        let g = cs.last();
        let mid = g.piece_spec(g.span_spec().inter_spec(span));
        assert forall|idx: int| 0 <= idx < mid.info.page_count implies #[trigger] m.translate_spec(
            g_start(mid) + idx,
        ) is None by {
            assert(span.contains_spec(g_start(mid) + idx));
        }
        crate::grant::lemma_unmap_frames_noop(
            munmap_frames_chain(fr, m, cs.drop_last(), span),
            m,
            mid,
            mid.info.page_count as int,
        );
    }
}

/// Reprotecting a span and then reprotecting it back restores every
/// page's flags: after an `mprotect` to new flags and a second one to
/// the original protection, each page reads exactly as it began;
/// coverage and holes are identical throughout, though the grants may
/// be more finely split.
pub proof fn lemma_mprotect_roundtrip(
    a: Seq<Grant>,
    b: Seq<Grant>,
    c: Seq<Grant>,
    span: PageSpan,
    f1: MapFlags,
    f2: MapFlags,
)
    requires
        // The second request restores the original write and execute
        // bits of every page in the span.
        forall|p: int|
            span.contains_spec(p) && #[trigger] grants_cover(a, p) ==> flags_at(a, p).write
                == f2.prot_write && flags_at(a, p).execute == f2.prot_exec,
        // What the first mprotect's contract gives.
        forall|p: int| grants_cover(b, p) <==> grants_cover(a, p),
        forall|p: int|
            span.contains_spec(p) && #[trigger] grants_cover(a, p) ==> page_state(b, p) == Some(
                (mprotect_flags(flags_at(a, p), f1), provider_at(a, p)),
            ),
        forall|p: int|
            !span.contains_spec(p) ==> #[trigger] page_state(b, p) == page_state(a, p),
        // What the second mprotect's contract gives.
        forall|p: int| grants_cover(c, p) <==> grants_cover(b, p),
        forall|p: int|
            span.contains_spec(p) && #[trigger] grants_cover(b, p) ==> page_state(c, p) == Some(
                (mprotect_flags(flags_at(b, p), f2), provider_at(b, p)),
            ),
        forall|p: int|
            !span.contains_spec(p) ==> #[trigger] page_state(c, p) == page_state(b, p),
    ensures
        forall|p: int| grants_cover(c, p) <==> grants_cover(a, p),
        forall|p: int| #[trigger] page_state(c, p) == page_state(a, p),
{
    assert forall|p: int| true implies #[trigger] page_state(c, p) == page_state(a, p) by {
        if span.contains_spec(p) && grants_cover(a, p) {
            assert(page_state(b, p) == Some(
                (mprotect_flags(flags_at(a, p), f1), provider_at(a, p)),
            ));
            assert(flags_at(b, p) == mprotect_flags(flags_at(a, p), f1));
            assert(provider_at(b, p) == provider_at(a, p));
            assert(mprotect_flags(mprotect_flags(flags_at(a, p), f1), f2) == flags_at(a, p));
        } else if !grants_cover(a, p) {
            assert(page_state(a, p) is None);
            assert(page_state(c, p) is None);
        }
    }
}

/// Cloning one mapped page copy-on-write and then unmapping the clone
/// leaks nothing: the source frame's reference counts return to what
/// they were before the clone.
pub proof fn lemma_clone_unmap_no_leak(
    fr: Seq<PageInfo>,
    src_m: PageMapper,
    dst_m: PageMapper,
    src_page: int,
    clone_grant: Grant,
    e: PteEntry,
)
    requires
        clone_grant.info.page_count == 1,
        clone_grant.info.provider is Allocated,
        src_m.translate_spec(src_page) == Some(e),
        0 <= e.frame.number < fr.len(),
        fr[e.frame.number as int].allocated,
        fr[e.frame.number as int].refcount >= 1,
        fr[e.frame.number as int].refcount + 1 <= usize::MAX,
        fr[e.frame.number as int].cow_refcount + 1 <= usize::MAX,
        // The clone's page table maps its single page to the shared
        // frame, as the copy-on-write clone leaves it.
        (match dst_m.translate_spec(g_start(clone_grant)) {
            Some(d) => d.frame == e.frame,
            None => false,
        }),
    ensures
        unmap_frames_spec(
            cow_frames_spec(fr, src_m, src_page, 1),
            dst_m,
            clone_grant,
            1,
        ) == fr,
{
    let fr1 = cow_frames_spec(fr, src_m, src_page, 1);
    let f = e.frame.number as int;
    assert(cow_frames_spec(fr, src_m, src_page, 0) == fr);
    assert(fr1 == fr.update(
        f,
        PageInfo {
            allocated: true,
            refcount: (fr[f].refcount + 1) as usize,
            cow_refcount: (fr[f].cow_refcount + 1) as usize,
        },
    ));
    let fr2 = unmap_frames_spec(fr1, dst_m, clone_grant, 1);
    assert(unmap_frames_spec(fr1, dst_m, clone_grant, 0) == fr1);
    assert(fr1[f].refcount == fr[f].refcount + 1);
    assert(fr1[f].refcount != 1);
    let d = dst_m.translate_spec(g_start(clone_grant)).unwrap();
    assert(d.frame.number == e.frame.number);
    assert(fr2 == fr1.update(
        f,
        PageInfo {
            allocated: true,
            refcount: (fr1[f].refcount - 1) as usize,
            cow_refcount: (fr1[f].cow_refcount - 1) as usize,
        },
    ));
    assert(fr2 =~= fr);
}

} // verus!

verus! {

/// A span found by the first-fit search overlaps no grant and never
/// starts below the requested lower bound.
pub proof fn lemma_find_free_disjoint(ug: UserGrants, minp: int, span: PageSpan)
    requires
        ug.wf(),
        minp >= 0,
        crate::user_grants::find_free_post(ug.holes_seq(), minp, span.count as int, Some(span)),
    ensures
        span.base.number >= minp,
        forall|p: int| span.contains_spec(p) ==> !grants_cover(ug.grants_seq(), p),
{
    crate::user_grants::lemma_find_free_fits(ug.grants_seq(), ug.holes_seq(), minp, span);
}

} // verus!

verus! {

/// The first-fit search returns the least usable position: at every
/// lower position that respects the bound, the requested run does not
/// fit — some page of it is already granted.
pub proof fn lemma_find_free_first_fit(ug: UserGrants, minp: int, span: PageSpan, q: int)
    requires
        ug.wf(),
        minp >= 0,
        span.count > 0,
        crate::user_grants::find_free_post(ug.holes_seq(), minp, span.count as int, Some(span)),
        minp <= q < span.base.number,
    ensures
        exists|p: int| q <= p < q + span.count && grants_cover(ug.grants_seq(), p),
{
    let hs = ug.holes_seq();
    let count = span.count as int;
    crate::user_grants::lemma_find_free_fits(ug.grants_seq(), hs, minp, span);
    let i = choose|i: int|
        0 <= i < hs.len() && crate::user_grants::hole_fits(#[trigger] hs[i], minp, count)
            && span.base.number == crate::user_grants::fit_start(hs[i], minp) && (forall|a: int|
            0 <= a < i ==> !crate::user_grants::hole_fits(#[trigger] hs[a], minp, count));
    if forall|p: int| q <= p < q + count ==> !(#[trigger] grants_cover(ug.grants_seq(), p)) {
        // Every page of the run would be free, so the whole run would
        // lie inside one hole, which would then fit below the result.
        assert forall|p: int| q <= p < q + count implies crate::user_grants::holes_cover(
            hs,
            p,
        ) by {
            assert(!grants_cover(ug.grants_seq(), p));
            assert(0 <= p < crate::page::USER_END_PAGE);
        }
        assert(crate::user_grants::holes_cover(hs, q));
        let j = choose|j: int|
            0 <= j < hs.len() && crate::user_grants::hole_contains(#[trigger] hs[j], q);
        crate::user_grants::lemma_span_in_hole(hs, j, q, count);
        assert(hs[j].start <= q && q + count <= hs[j].start + hs[j].count);
        if j < i {
            assert(!crate::user_grants::hole_fits(hs[j], minp, count));
            assert(q >= crate::user_grants::fit_start(hs[j], minp));
            assert(false);
        } else if j == i {
            assert(q >= crate::user_grants::fit_start(hs[i], minp));
            assert(false);
        } else {
            crate::user_grants::lemma_holes_sorted(hs, i, j);
            assert(crate::user_grants::hole_fits(hs[i], minp, count));
            assert(span.base.number < hs[i].start + hs[i].count);
            assert(q >= hs[j].start);
            assert(false);
        }
    }
}

} // verus!
