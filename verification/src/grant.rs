//! Grants: contiguous regions of identical protection and backing.

use vstd::prelude::*;

use crate::error::{Enomem, Error};
use crate::flags::{MapFlags, PageFlags};
use crate::frames::{FrameInfos, PageInfo};
use crate::mapper::{PageFlushAll, PageMapper, PteEntry};
use crate::page::{Frame, Page, USER_END_PAGE};
use crate::span::PageSpan;
use crate::user_grants::{
    conflicts_spec, grant_overlaps, lemma_conflicts_sorted, UserGrants,
};

verus! {

/// Handle to an open file description, as the scheme layer knows it.
/// The core only carries it around; opening and closing are the scheme
/// layer's business.
#[derive(Clone, Copy, Debug, PartialEq, Eq, Structural)]
pub struct FileDescriptor {
    pub id: usize,
}

/// Reference to the file backing an `Fmap` grant.
#[derive(Clone, Copy, Debug, PartialEq, Eq, Structural)]
pub struct GrantFileRef {
    pub desc: FileDescriptor,
    pub offset: usize,
    pub flags: MapFlags,
}

/// The origin of a grant's content.
#[derive(Clone, Copy, Debug, PartialEq, Eq, Structural)]
pub enum Provider {
    /// Lazily zero-filled memory; the grant owns references to the
    /// frames that back it.
    Allocated,
    /// A fixed physical range that does not belong to the frame
    /// allocator; no frame ownership, no reference counting.
    PhysBorrowed { base: Frame },
    /// Memory lazily mirrored from another address space, named by its
    /// index in the set of address spaces.
    External { address_space: usize, src_base: Page },
    /// File-backed memory managed by a scheme; on unmap the scheme is
    /// notified and the descriptor is closed.
    Fmap { desc: GrantFileRef },
}

impl Provider {
    /// Whether this is the `Fmap` variant.
    pub open spec fn is_fmap(self) -> bool {
        matches!(self, Provider::Fmap { .. })
    }
}

/// Everything known about a grant except its base page.
#[derive(Clone, Copy, Debug, PartialEq, Eq, Structural)]
pub struct GrantInfo {
    pub page_count: usize,
    pub flags: PageFlags,
    pub mapped: bool,
    pub provider: Provider,
}

/// A grant: a base page together with its info.
#[derive(Clone, Copy, Debug, PartialEq, Eq, Structural)]
pub struct Grant {
    pub base: Page,
    pub info: GrantInfo,
}

/// What `Grant::unmap` hands back: the file reference of an `Fmap`
/// grant, for the caller to notify and close outside the space's lock.
#[derive(Clone, Copy, Debug, PartialEq, Eq, Structural)]
pub struct UnmapResult {
    pub file_desc: Option<GrantFileRef>,
}

/// First page index of the grant.
pub open spec fn g_start(g: Grant) -> int {
    g.base.number as int
}

/// One past the last page index of the grant.
pub open spec fn g_end(g: Grant) -> int {
    g.base.number + g.info.page_count
}

/// Whether the grant covers page index `p`.
pub open spec fn grant_contains(g: Grant, p: int) -> bool {
    g_start(g) <= p < g_end(g)
}

/// Validity of a single grant while it is reachable from a
/// `UserGrants`: nonempty, below the user ceiling, and mapped.
pub open spec fn grant_valid(g: Grant) -> bool {
    &&& g.info.page_count > 0
    &&& g_end(g) <= USER_END_PAGE
    &&& g.info.mapped
    &&& provider_shift_ok(g)
}

/// Whether the grant's provider holds frame references that `unmap`
/// must drop.
pub open spec fn provider_takes_refs(p: Provider) -> bool {
    p is Allocated || p is External
}

/// Whether dropped references also count on the copy-on-write counter.
pub open spec fn provider_is_cow(p: Provider) -> bool {
    p is Allocated
}

/// The frame table after unmapping the first `n` pages of the grant:
/// for each page that the table `m` maps, and whose provider takes
/// references, one reference is dropped; the frame is freed when its
/// total refcount reaches zero.
pub open spec fn unmap_frames_spec(fr: Seq<PageInfo>, m: PageMapper, g: Grant, n: int) -> Seq<
    PageInfo,
>
    decreases n,
{
    if n <= 0 {
        fr
    } else {
        let prev = unmap_frames_spec(fr, m, g, n - 1);
        match m.translate_spec(g_start(g) + (n - 1)) {
            Some(e) => {
                if provider_takes_refs(g.info.provider) {
                    let f = e.frame.number as int;
                    if prev[f].refcount == 1 {
                        prev.update(f, PageInfo { allocated: false, refcount: 0, cow_refcount: 0 })
                    } else {
                        prev.update(
                            f,
                            PageInfo {
                                allocated: true,
                                refcount: (prev[f].refcount - 1) as usize,
                                cow_refcount: if provider_is_cow(g.info.provider) {
                                    (prev[f].cow_refcount - 1) as usize
                                } else {
                                    prev[f].cow_refcount
                                },
                            },
                        )
                    }
                } else {
                    prev
                }
            },
            None => prev,
        }
    }
}

/// Whether step `idx` of the unmap finds the frame it must release in
/// an accountable state: allocated, with a positive refcount.
pub open spec fn unmap_step_ok(fr: Seq<PageInfo>, m: PageMapper, g: Grant, idx: int) -> bool {
    let prev = unmap_frames_spec(fr, m, g, idx);
    match m.translate_spec(g_start(g) + idx) {
        Some(e) => provider_takes_refs(g.info.provider) ==> {
            let f = e.frame.number as int;
            &&& 0 <= f < prev.len()
            &&& prev[f].allocated
            &&& prev[f].refcount > 0
            &&& (provider_is_cow(g.info.provider) ==> prev[f].cow_refcount > 0)
        },
        None => true,
    }
}

/// Whether the whole unmap of the grant is accountable.
pub open spec fn unmap_frames_ok(fr: Seq<PageInfo>, m: PageMapper, g: Grant) -> bool {
    forall|idx: int| 0 <= idx < g.info.page_count ==> unmap_step_ok(fr, m, g, idx)
}

/// Whether a grant with this info may take the requested protection.
pub open spec fn can_have_flags_spec(info: GrantInfo, flags: MapFlags) -> bool {
    match info.provider {
        Provider::Allocated => true,
        _ => (info.flags.write || !flags.prot_write) && (info.flags.execute || !flags.prot_exec),
    }
}

/// The unmap of a grant depends on the page table only through the
/// translations of the grant's own pages.
pub proof fn lemma_unmap_frames_congruent(
    fr: Seq<PageInfo>,
    m1: PageMapper,
    m2: PageMapper,
    g: Grant,
    n: int,
)
    requires
        forall|idx: int|
            0 <= idx < n ==> #[trigger] m1.translate_spec(g_start(g) + idx) == m2.translate_spec(
                g_start(g) + idx,
            ),
    ensures
        unmap_frames_spec(fr, m1, g, n) == unmap_frames_spec(fr, m2, g, n),
    decreases n,
{
    if n > 0 {
        lemma_unmap_frames_congruent(fr, m1, m2, g, n - 1);
    }
}

/// So does its accountability.
pub proof fn lemma_unmap_ok_congruent(fr: Seq<PageInfo>, m1: PageMapper, m2: PageMapper, g: Grant)
    requires
        forall|idx: int|
            0 <= idx < g.info.page_count ==> #[trigger] m1.translate_spec(g_start(g) + idx)
                == m2.translate_spec(g_start(g) + idx),
        unmap_frames_ok(fr, m1, g),
    ensures
        unmap_frames_ok(fr, m2, g),
{
    assert forall|idx: int| 0 <= idx < g.info.page_count implies unmap_step_ok(fr, m2, g, idx) by {
        assert(unmap_step_ok(fr, m1, g, idx));
        lemma_unmap_frames_congruent(fr, m1, m2, g, idx);
    }
}

/// Unmapping a grant none of whose pages are mapped leaves the frame
/// table alone.
pub proof fn lemma_unmap_frames_noop(fr: Seq<PageInfo>, m: PageMapper, g: Grant, n: int)
    requires
        forall|idx: int| 0 <= idx < n ==> #[trigger] m.translate_spec(g_start(g) + idx) is None,
    ensures
        unmap_frames_spec(fr, m, g, n) == fr,
    decreases n,
{
    if n > 0 {
        lemma_unmap_frames_noop(fr, m, g, n - 1);
    }
}

/// The frame table after unmapping, in order, the overlap of each
/// listed grant with the requested span.
pub open spec fn munmap_frames_chain(
    fr: Seq<PageInfo>,
    m: PageMapper,
    cs: Seq<Grant>,
    span: PageSpan,
) -> Seq<PageInfo>
    decreases cs.len(),
{
    if cs.len() == 0 {
        fr
    } else {
        let prev = munmap_frames_chain(fr, m, cs.drop_last(), span);
        let g = cs.last();
        let mid = g.piece_spec(g.span_spec().inter_spec(span));
        unmap_frames_spec(prev, m, mid, mid.info.page_count as int)
    }
}

/// Whether that whole chain of unmaps is accountable.
pub open spec fn munmap_frames_chain_ok(
    fr: Seq<PageInfo>,
    m: PageMapper,
    cs: Seq<Grant>,
    span: PageSpan,
) -> bool
    decreases cs.len(),
{
    if cs.len() == 0 {
        true
    } else {
        let prev = munmap_frames_chain(fr, m, cs.drop_last(), span);
        let g = cs.last();
        let mid = g.piece_spec(g.span_spec().inter_spec(span));
        munmap_frames_chain_ok(fr, m, cs.drop_last(), span) && unmap_frames_ok(prev, m, mid)
    }
}

/// The scheme notifications a munmap of the span produces: for each
/// file-backed grant among the listed ones, its file reference and its
/// overlap with the span, in order.
pub open spec fn fmap_notes(cs: Seq<Grant>, span: PageSpan) -> Seq<(GrantFileRef, PageSpan)>
    decreases cs.len(),
{
    if cs.len() == 0 {
        Seq::empty()
    } else {
        let rest = fmap_notes(cs.drop_last(), span);
        match cs.last().info.provider {
            Provider::Fmap { desc } => rest.push(
                (desc, cs.last().span_spec().inter_spec(span)),
            ),
            _ => rest,
        }
    }
}

/// Unfolding one step of the unmap chain at position `n`.
pub proof fn lemma_chain_prefix(
    fr: Seq<PageInfo>,
    m: PageMapper,
    cs: Seq<Grant>,
    span: PageSpan,
    n: int,
)
    requires
        0 <= n < cs.len(),
    ensures
        ({
            let g = cs[n];
            let mid = g.piece_spec(g.span_spec().inter_spec(span));
            munmap_frames_chain(fr, m, cs.take(n + 1), span) == unmap_frames_spec(
                munmap_frames_chain(fr, m, cs.take(n), span),
                m,
                mid,
                mid.info.page_count as int,
            )
        }),
{
    assert(cs.take(n + 1).drop_last() =~= cs.take(n));
    assert(cs.take(n + 1).last() == cs[n]);
}

/// Each step of an accountable chain is itself accountable.
pub proof fn lemma_chain_ok_at(
    fr: Seq<PageInfo>,
    m: PageMapper,
    cs: Seq<Grant>,
    span: PageSpan,
    n: int,
)
    requires
        munmap_frames_chain_ok(fr, m, cs, span),
        0 <= n < cs.len(),
    ensures
        ({
            let g = cs[n];
            let mid = g.piece_spec(g.span_spec().inter_spec(span));
            unmap_frames_ok(munmap_frames_chain(fr, m, cs.take(n), span), m, mid)
        }),
    decreases cs.len(),
{
    if n == cs.len() - 1 {
        assert(cs.take(n) =~= cs.drop_last());
    } else {
        assert(cs.drop_last()[n] == cs[n]);
        assert(cs.drop_last().take(n) =~= cs.take(n));
        lemma_chain_ok_at(fr, m, cs.drop_last(), span, n);
    }
}

/// The copy-on-write clone depends on the source table only through
/// the translations of the cloned span.
pub proof fn lemma_cow_frames_congruent(
    fr: Seq<PageInfo>,
    m1: PageMapper,
    m2: PageMapper,
    src_base: int,
    n: int,
)
    requires
        forall|idx: int|
            0 <= idx < n ==> #[trigger] m1.translate_spec(src_base + idx) == m2.translate_spec(
                src_base + idx,
            ),
    ensures
        cow_frames_spec(fr, m1, src_base, n) == cow_frames_spec(fr, m2, src_base, n),
    decreases n,
{
    if n > 0 {
        lemma_cow_frames_congruent(fr, m1, m2, src_base, n - 1);
    }
}

/// So does its accountability.
pub proof fn lemma_cow_ok_congruent(
    fr: Seq<PageInfo>,
    m1: PageMapper,
    m2: PageMapper,
    src_base: int,
    count: int,
)
    requires
        forall|idx: int|
            0 <= idx < count ==> #[trigger] m1.translate_spec(src_base + idx) == m2.translate_spec(
                src_base + idx,
            ),
        cow_frames_ok(fr, m1, src_base, count),
    ensures
        cow_frames_ok(fr, m2, src_base, count),
{
    assert forall|idx: int| 0 <= idx < count implies cow_step_ok(
        fr,
        #[trigger] m2.translate_spec(src_base + idx),
        count,
    ) by {
        assert(cow_step_ok(fr, m1.translate_spec(src_base + idx), count));
    }
}

/// The frame table after cloning the listed grants in order: each
/// `Allocated` grant's span is copied on write, the others take no
/// references.
pub open spec fn clone_frames_chain(fr: Seq<PageInfo>, src: PageMapper, gs: Seq<Grant>) -> Seq<
    PageInfo,
>
    decreases gs.len(),
{
    if gs.len() == 0 {
        fr
    } else {
        let prev = clone_frames_chain(fr, src, gs.drop_last());
        let g = gs.last();
        if g.info.provider is Allocated {
            cow_frames_spec(prev, src, g_start(g), g.info.page_count as int)
        } else {
            prev
        }
    }
}

/// Whether that whole chain of clones is accountable.
pub open spec fn clone_frames_chain_ok(fr: Seq<PageInfo>, src: PageMapper, gs: Seq<Grant>) -> bool
    decreases gs.len(),
{
    if gs.len() == 0 {
        true
    } else {
        let prev = clone_frames_chain(fr, src, gs.drop_last());
        let g = gs.last();
        clone_frames_chain_ok(fr, src, gs.drop_last()) && (g.info.provider is Allocated
            ==> cow_frames_ok(prev, src, g_start(g), g.info.page_count as int))
    }
}

/// Unfolding one step of the clone chain at position `n`.
pub proof fn lemma_clone_chain_prefix(fr: Seq<PageInfo>, src: PageMapper, gs: Seq<Grant>, n: int)
    requires
        0 <= n < gs.len(),
    ensures
        clone_frames_chain(fr, src, gs.take(n + 1)) == ({
            let prev = clone_frames_chain(fr, src, gs.take(n));
            if gs[n].info.provider is Allocated {
                cow_frames_spec(prev, src, g_start(gs[n]), gs[n].info.page_count as int)
            } else {
                prev
            }
        }),
{
    assert(gs.take(n + 1).drop_last() =~= gs.take(n));
    assert(gs.take(n + 1).last() == gs[n]);
}

/// Each step of an accountable clone chain is itself accountable.
pub proof fn lemma_clone_chain_ok_at(fr: Seq<PageInfo>, src: PageMapper, gs: Seq<Grant>, n: int)
    requires
        clone_frames_chain_ok(fr, src, gs),
        0 <= n < gs.len(),
        gs[n].info.provider is Allocated,
    ensures
        cow_frames_ok(
            clone_frames_chain(fr, src, gs.take(n)),
            src,
            g_start(gs[n]),
            gs[n].info.page_count as int,
        ),
    decreases gs.len(),
{
    if n == gs.len() - 1 {
        assert(gs.take(n) =~= gs.drop_last());
    } else {
        assert(gs.drop_last()[n] == gs[n]);
        assert(gs.drop_last().take(n) =~= gs.take(n));
        lemma_clone_chain_ok_at(fr, src, gs.drop_last(), n);
    }
}

/// Whether the provider's physical or source base can be advanced by
/// any offset inside the grant without overflowing.
pub open spec fn provider_shift_ok(g: Grant) -> bool {
    match g.info.provider {
        Provider::PhysBorrowed { base } => base.number + g.info.page_count <= usize::MAX,
        Provider::External { address_space: _, src_base } => src_base.number + g.info.page_count
            <= usize::MAX,
        _ => true,
    }
}

/// The destination grant that borrowing carves out of one source
/// grant: the overlap of the source grant with the requested source
/// span, re-based into the destination. An `Allocated` source becomes
/// an `External` reference to the source space; a `PhysBorrowed` or
/// `External` source keeps its kind with its base advanced to the
/// overlap.
pub open spec fn borrowed_grant(
    g: Grant,
    src_span: PageSpan,
    dst_base: Page,
    flags: PageFlags,
    src_address_space: usize,
) -> Grant {
    let common_start = if g_start(g) >= src_span.start_spec() {
        g_start(g)
    } else {
        src_span.start_spec()
    };
    let common_end = if g_end(g) <= src_span.end_spec() {
        g_end(g)
    } else {
        src_span.end_spec()
    };
    let off_in_grant = common_start - g_start(g);
    let off_in_span = common_start - src_span.start_spec();
    Grant {
        base: Page { number: (dst_base.number + off_in_span) as usize },
        info: GrantInfo {
            page_count: (common_end - common_start) as usize,
            flags,
            mapped: true,
            provider: match g.info.provider {
                Provider::Allocated => Provider::External {
                    address_space: src_address_space,
                    src_base: Page { number: common_start as usize },
                },
                Provider::PhysBorrowed { base } => Provider::PhysBorrowed {
                    base: Frame { number: (base.number + off_in_grant) as usize },
                },
                Provider::External { address_space, src_base } => Provider::External {
                    address_space,
                    src_base: Page { number: (src_base.number + off_in_grant) as usize },
                },
                Provider::Fmap { desc } => Provider::Fmap { desc },
            },
        },
    }
}

/// Whether one translated page can be cloned against the frame table:
/// if mapped, its frame is allocated and its counters have room for
/// `count` more references.
pub open spec fn cow_step_ok(fr: Seq<PageInfo>, t: Option<PteEntry>, count: int) -> bool {
    match t {
        Some(e) => {
            let f = e.frame.number as int;
            &&& 0 <= f < fr.len()
            &&& fr[f].allocated
            &&& fr[f].refcount + count <= usize::MAX
            &&& fr[f].cow_refcount + count <= usize::MAX
        },
        None => true,
    }
}

/// Whether borrowing from the source frame table can account for every
/// page of the cloned span.
pub open spec fn cow_frames_ok(fr: Seq<PageInfo>, src: PageMapper, src_base: int, count: int) -> bool {
    forall|idx: int|
        0 <= idx < count ==> cow_step_ok(fr, #[trigger] src.translate_spec(src_base + idx), count)
}

/// The frame table after the first `n` pages of a copy-on-write clone:
/// each mapped source page adds one total and one copy-on-write
/// reference to its frame.
pub open spec fn cow_frames_spec(fr: Seq<PageInfo>, src: PageMapper, src_base: int, n: int) -> Seq<
    PageInfo,
>
    decreases n,
{
    if n <= 0 {
        fr
    } else {
        let prev = cow_frames_spec(fr, src, src_base, n - 1);
        match src.translate_spec(src_base + (n - 1)) {
            Some(e) => {
                let f = e.frame.number as int;
                prev.update(
                    f,
                    PageInfo {
                        allocated: true,
                        refcount: (prev[f].refcount + 1) as usize,
                        cow_refcount: (prev[f].cow_refcount + 1) as usize,
                    },
                )
            },
            None => prev,
        }
    }
}

/// A copy-on-write clone raises each frame's counters by at most the
/// number of pages processed, keeps the allocation map, and never
/// changes the table's length.
pub proof fn lemma_cow_frames_bounds(
    fr: Seq<PageInfo>,
    src: PageMapper,
    src_base: int,
    count: int,
    n: int,
)
    requires
        cow_frames_ok(fr, src, src_base, count),
        0 <= n <= count,
    ensures
        cow_frames_spec(fr, src, src_base, n).len() == fr.len(),
        forall|f: int|
            0 <= f < fr.len() ==> {
                let cur = #[trigger] cow_frames_spec(fr, src, src_base, n)[f];
                &&& cur.allocated == fr[f].allocated
                &&& fr[f].refcount <= cur.refcount <= fr[f].refcount + n
                &&& fr[f].cow_refcount <= cur.cow_refcount <= fr[f].cow_refcount + n
            },
    decreases n,
{
    if n > 0 {
        lemma_cow_frames_bounds(fr, src, src_base, count, n - 1);
        assert(match src.translate_spec(src_base + (n - 1)) {
            Some(e) => {
                let f = e.frame.number as int;
                0 <= f < fr.len() && fr[f].allocated
            },
            None => true,
        });
    }
}

/// An accountable unmap never changes the frame table's length.
pub proof fn lemma_unmap_frames_bounds(fr: Seq<PageInfo>, m: PageMapper, g: Grant, n: int)
    requires
        unmap_frames_ok(fr, m, g),
        n <= g.info.page_count,
    ensures
        unmap_frames_spec(fr, m, g, n).len() == fr.len(),
    decreases n,
{
    if n > 0 {
        lemma_unmap_frames_bounds(fr, m, g, n - 1);
        assert(unmap_step_ok(fr, m, g, n - 1));
    }
}

impl GrantInfo {
    /// The grant's page-table flags.
    pub fn flags(&self) -> (r: PageFlags)
        ensures
            r == self.flags,
    {
        self.flags
    }

    /// The grant's length in pages.
    pub fn page_count(&self) -> (r: usize)
        ensures
            r == self.page_count,
    {
        self.page_count
    }

    /// Whether the grant may take the requested protection: an
    /// `Allocated` grant may take any flags, while a borrowed or
    /// file-backed grant may only be downgraded (write or execute may
    /// be dropped, never added).
    pub fn can_have_flags(&self, flags: MapFlags) -> (r: bool)
        ensures
            r == match self.provider {
                Provider::Allocated => true,
                _ => (self.flags.write || !flags.prot_write) && (self.flags.execute
                    || !flags.prot_exec),
            },
    {
        let is_downgrade = (self.flags.has_write() || !flags.prot_write) && (
        self.flags.has_execute() || !flags.prot_exec);
        match self.provider {
            Provider::Allocated => true,
            _ => is_downgrade,
        }
    }

    /// Whether two adjacent grants could be fused into one. Merging is
    /// disabled, so this is conservative: no pair qualifies.
    pub fn can_be_merged_if_adjacent(&self, with: &GrantInfo) -> (r: bool)
        requires
            !(self.provider.is_fmap() && with.provider.is_fmap()),
        ensures
            !r,
    {
        if self.mapped != with.mapped || self.flags != with.flags {
            return false;
        }
        false
    }
}

impl Grant {
    /// The span the grant covers.
    pub fn span(&self) -> (r: PageSpan)
        ensures
            r == (PageSpan { base: self.base, count: self.info.page_count }),
    {
        PageSpan::new(self.base, self.info.page_count)
    }

    /// The span the grant covers, as a spec value.
    pub open spec fn span_spec(self) -> PageSpan {
        PageSpan { base: self.base, count: self.info.page_count }
    }

    /// The piece of `self` that covers `span`, with the provider
    /// carried over: a `PhysBorrowed` physical base or an `External`
    /// source base is advanced by the piece's offset, so each page of
    /// the piece keeps the exact backing it had; an `Fmap` file
    /// reference is shared by every piece.
    pub open spec fn piece_spec(self, span: PageSpan) -> Grant {
        Grant {
            base: span.base,
            info: GrantInfo {
                page_count: span.count,
                flags: self.info.flags,
                mapped: self.info.mapped,
                provider: match self.info.provider {
                    Provider::PhysBorrowed { base } => Provider::PhysBorrowed {
                        base: Frame {
                            number: (base.number + (span.base.number - self.base.number)) as usize,
                        },
                    },
                    Provider::External { address_space, src_base } => Provider::External {
                        address_space,
                        src_base: Page {
                            number: (src_base.number + (span.base.number
                                - self.base.number)) as usize,
                        },
                    },
                    other => other,
                },
            },
        }
    }

    /// The piece for an optional span: absent exactly when the span is.
    pub open spec fn piece_opt_spec(self, span: Option<PageSpan>) -> Option<Grant> {
        match span {
            Some(s) => Some(self.piece_spec(s)),
            None => None,
        }
    }

    /// Build a grant borrowing a fixed physical range: `span` maps
    /// one-to-one onto the frames from `phys` on. No frame references
    /// are taken, and the page-table entries are left to the fault
    /// handler.
    pub fn physmap(
        phys: Frame,
        span: PageSpan,
        flags: PageFlags,
        mapper: &mut PageMapper,
        flusher: &mut PageFlushAll,
    ) -> (r: Result<Grant, Error>)
        ensures
            *final(mapper) == *old(mapper),
            *final(flusher) == *old(flusher),
            r == Ok::<Grant, Error>(
                Grant {
                    base: span.base,
                    info: GrantInfo {
                        page_count: span.count,
                        flags,
                        mapped: true,
                        provider: Provider::PhysBorrowed { base: phys },
                    },
                },
            ),
    {
        Ok(
            Grant {
                base: span.base,
                info: GrantInfo {
                    page_count: span.count,
                    flags,
                    mapped: true,
                    provider: Provider::PhysBorrowed { base: phys },
                },
            },
        )
    }

    /// Build a lazily zero-filled grant. No page-table entries are
    /// written: the first touch of each page faults, and the fault
    /// handler allocates and zeroes a frame for it.
    pub fn zeroed(
        span: PageSpan,
        flags: PageFlags,
        mapper: &mut PageMapper,
        flusher: &mut PageFlushAll,
    ) -> (r: Result<Grant, Enomem>)
        ensures
            *final(mapper) == *old(mapper),
            *final(flusher) == *old(flusher),
            r == Ok::<Grant, Enomem>(
                Grant {
                    base: span.base,
                    info: GrantInfo {
                        page_count: span.count,
                        flags,
                        mapped: true,
                        provider: Provider::Allocated,
                    },
                },
            ),
    {
        Ok(
            Grant {
                base: span.base,
                info: GrantInfo {
                    page_count: span.count,
                    flags,
                    mapped: true,
                    provider: Provider::Allocated,
                },
            },
        )
    }

    /// Build a single grant that lazily mirrors one grant of another
    /// address space, named by its index. The page-table entries are
    /// left to the fault handler.
    pub fn borrow_grant(
        src_address_space: usize,
        src_base: Page,
        dst_base: Page,
        src_info: &GrantInfo,
        mapper: &mut PageMapper,
        dst_flusher: &mut PageFlushAll,
        eager: bool,
    ) -> (r: Result<Grant, Enomem>)
        ensures
            *final(mapper) == *old(mapper),
            *final(dst_flusher) == *old(dst_flusher),
            r == Ok::<Grant, Enomem>(
                Grant {
                    base: dst_base,
                    info: GrantInfo {
                        page_count: src_info.page_count,
                        flags: src_info.flags,
                        mapped: true,
                        provider: Provider::External { address_space: src_address_space, src_base },
                    },
                },
            ),
    {
        let _ = eager;
        Ok(
            Grant {
                base: dst_base,
                info: GrantInfo {
                    page_count: src_info.page_count,
                    flags: src_info.flags,
                    mapped: true,
                    provider: Provider::External { address_space: src_address_space, src_base },
                },
            },
        )
    }

    /// Borrow all pages in `[src_base, src_base + page_count)` from the
    /// source space's grants, emitting one destination grant per
    /// overlapping source grant, re-based into
    /// `[dst_base, dst_base + page_count)`. The destination pages will
    /// lazily read the source's page tables. `Fmap` sources are
    /// unsupported here.
    pub fn borrow(
        src_address_space: usize,
        src: &UserGrants,
        src_base: Page,
        dst_base: Page,
        page_count: usize,
        flags: PageFlags,
        dst_mapper: &mut PageMapper,
        dst_flusher: &mut PageFlushAll,
        eager: bool,
    ) -> (r: Result<Vec<Grant>, Enomem>)
        requires
            src.wf(),
            src_base.number + page_count <= USER_END_PAGE,
            dst_base.number + page_count <= USER_END_PAGE,
            forall|i: int|
                0 <= i < src.grants_seq().len() && grant_overlaps(
                    #[trigger] src.grants_seq()[i],
                    PageSpan { base: src_base, count: page_count },
                ) ==> !src.grants_seq()[i].info.provider.is_fmap() && provider_shift_ok(
                    src.grants_seq()[i],
                ),
        ensures
            *final(dst_mapper) == *old(dst_mapper),
            *final(dst_flusher) == *old(dst_flusher),
            r is Ok,
            r matches Ok(v) ==> {
                let cs = conflicts_spec(
                    src.grants_seq(),
                    PageSpan { base: src_base, count: page_count },
                );
                &&& v.len() == cs.len()
                &&& forall|i: int|
                    0 <= i < v.len() ==> #[trigger] v[i] == borrowed_grant(
                        cs[i],
                        PageSpan { base: src_base, count: page_count },
                        dst_base,
                        flags,
                        src_address_space,
                    )
                &&& forall|i: int|
                    0 <= i < v.len() ==> grant_valid(#[trigger] v[i]) && dst_base.number <= g_start(
                        v[i],
                    ) && g_end(v[i]) <= dst_base.number + page_count
                &&& forall|i: int|
                    0 <= i && i + 1 < v.len() ==> g_end(v[i]) <= g_start(#[trigger] v[i + 1])
            },
    {
        let _ = eager;
        let src_span = PageSpan::new(src_base, page_count);
        let ghost cs = conflicts_spec(src.grants_seq(), src_span);
        proof {
            lemma_conflicts_sorted(src.grants_seq(), src_span);
            crate::user_grants::lemma_conflicts_elements(src.grants_seq(), src_span);
        }
        let conflicting = src.conflicts(src_span);
        let mut dst_grants: Vec<Grant> = Vec::new();
        let mut idx: usize = 0;
        while idx < conflicting.len()
            invariant
                src_span == (PageSpan { base: src_base, count: page_count }),
                src_base.number + page_count <= USER_END_PAGE,
                dst_base.number + page_count <= USER_END_PAGE,
                conflicting.len() == cs.len(),
                forall|j: int| 0 <= j < cs.len() ==> #[trigger] conflicting[j] == (
                    cs[j].base,
                    cs[j].info,
                ),
                forall|j: int|
                    0 <= j < cs.len() ==> grant_valid(#[trigger] cs[j]) && grant_overlaps(
                        cs[j],
                        src_span,
                    ),
                forall|j: int|
                    0 <= j < cs.len() ==> !(#[trigger] cs[j]).info.provider.is_fmap()
                        && provider_shift_ok(cs[j]),
                idx <= cs.len(),
                dst_grants.len() == idx,
                forall|j: int|
                    0 <= j < idx ==> #[trigger] dst_grants[j] == borrowed_grant(
                        cs[j],
                        src_span,
                        dst_base,
                        flags,
                        src_address_space,
                    ),
            decreases conflicting.len() - idx,
        {
            let (grant_base, grant_info) = conflicting[idx];
            proof {
                assert(cs[idx as int] == Grant { base: grant_base, info: grant_info });
            }
            let grant_span = PageSpan::new(grant_base, grant_info.page_count);
            let common = src_span.intersection(grant_span);
            proof {
                let p = choose|p: int|
                    grant_contains(cs[idx as int], p) && src_span.contains_spec(p);
                assert(common.contains_spec(p));
            }
            let off_in_span = common.base.number - src_base.number;
            let off_in_grant = common.base.number - grant_base.number;
            let provider = match grant_info.provider {
                Provider::Allocated => Provider::External {
                    address_space: src_address_space,
                    src_base: common.base,
                },
                Provider::PhysBorrowed { base } => Provider::PhysBorrowed {
                    base: base.next_by(off_in_grant),
                },
                Provider::External { address_space, src_base: inner_base } => Provider::External {
                    address_space,
                    src_base: inner_base.next_by(off_in_grant),
                },
                Provider::Fmap { desc } => Provider::Fmap { desc },
            };
            dst_grants.push(
                Grant {
                    base: dst_base.next_by(off_in_span),
                    info: GrantInfo {
                        page_count: common.count,
                        flags,
                        mapped: true,
                        provider,
                    },
                },
            );
            idx = idx + 1;
        }
        proof {
            assert forall|i: int| 0 <= i < dst_grants.len() implies grant_valid(
                #[trigger] dst_grants[i],
            ) && dst_base.number <= g_start(dst_grants[i]) && g_end(dst_grants[i])
                <= dst_base.number + page_count by {
                let p = choose|p: int| grant_contains(cs[i], p) && src_span.contains_spec(p);
            }
            assert forall|i: int| 0 <= i && i + 1 < dst_grants.len() implies g_end(dst_grants[i])
                <= g_start(#[trigger] dst_grants[i + 1]) by {
                assert(g_end(cs[i]) <= g_start(cs[i + 1]));
                let p = choose|p: int| grant_contains(cs[i], p) && src_span.contains_spec(p);
                let q = choose|q: int| grant_contains(cs[i + 1], q) && src_span.contains_spec(q);
            }
        }
        Ok(dst_grants)
    }

    /// Clone `[src_base, src_base + page_count)` of the source space
    /// into `[dst_base, dst_base + page_count)` of the destination as
    /// copy-on-write: each already mapped source page is downgraded to
    /// read-only, gains one total and one copy-on-write reference, and
    /// is mapped read-only at the corresponding destination page.
    /// Unmapped source pages are skipped; the fault handler will later
    /// lazily zero both sides. The result is one `Allocated` grant in
    /// the destination.
    pub fn cow(
        src_base: Page,
        dst_base: Page,
        page_count: usize,
        flags: PageFlags,
        src_mapper: &mut PageMapper,
        dst_mapper: &mut PageMapper,
        src_flusher: &mut PageFlushAll,
        dst_flusher: &mut PageFlushAll,
        frames: &mut FrameInfos,
    ) -> (r: Result<Grant, Enomem>)
        requires
            src_base.number + page_count <= USER_END_PAGE,
            dst_base.number + page_count <= USER_END_PAGE,
            old(src_mapper).wf(),
            old(dst_mapper).wf(),
            cow_frames_ok(
                old(frames).infos_seq(),
                *old(src_mapper),
                src_base.number as int,
                page_count as int,
            ),
        ensures
            final(src_mapper).wf(),
            final(dst_mapper).wf(),
            r == Ok::<Grant, Enomem>(
                Grant {
                    base: dst_base,
                    info: GrantInfo {
                        page_count,
                        flags,
                        mapped: true,
                        provider: Provider::Allocated,
                    },
                },
            ),
            forall|idx: int|
                0 <= idx < page_count ==> (#[trigger] final(src_mapper).translate_spec(
                    src_base.number + idx,
                )) == match old(src_mapper).translate_spec(src_base.number + idx) {
                    Some(e) => Some(
                        PteEntry {
                            page: e.page,
                            frame: e.frame,
                            flags: PageFlags { write: false, ..e.flags },
                        },
                    ),
                    None => None::<PteEntry>,
                },
            forall|p: int|
                !(src_base.number <= p < src_base.number + page_count) ==> final(src_mapper).translate_spec(p) == old(src_mapper).translate_spec(p),
            forall|idx: int|
                0 <= idx < page_count ==> (#[trigger] final(dst_mapper).translate_spec(
                    dst_base.number + idx,
                )) == match old(src_mapper).translate_spec(src_base.number + idx) {
                    Some(e) => Some(
                        PteEntry {
                            page: Page { number: (dst_base.number + idx) as usize },
                            frame: e.frame,
                            flags: PageFlags { write: false, ..flags },
                        },
                    ),
                    None => old(dst_mapper).translate_spec(dst_base.number + idx),
                },
            forall|p: int|
                !(dst_base.number <= p < dst_base.number + page_count) ==> final(dst_mapper).translate_spec(p) == old(dst_mapper).translate_spec(p),
            final(frames).infos_seq() == cow_frames_spec(
                old(frames).infos_seq(),
                *old(src_mapper),
                src_base.number as int,
                page_count as int,
            ),
            old(src_flusher).queued@.is_prefix_of(final(src_flusher).queued@),
            old(dst_flusher).queued@.is_prefix_of(final(dst_flusher).queued@),
    {
        let mut page_idx: usize = 0;
        while page_idx < page_count
            invariant
                src_base.number + page_count <= USER_END_PAGE,
                dst_base.number + page_count <= USER_END_PAGE,
                src_mapper.wf(),
                dst_mapper.wf(),
                cow_frames_ok(
                    old(frames).infos_seq(),
                    *old(src_mapper),
                    src_base.number as int,
                    page_count as int,
                ),
                page_idx <= page_count,
                forall|idx: int|
                    0 <= idx < page_idx ==> (#[trigger] src_mapper.translate_spec(
                        src_base.number + idx,
                    )) == match old(src_mapper).translate_spec(src_base.number + idx) {
                        Some(e) => Some(
                            PteEntry {
                                page: e.page,
                                frame: e.frame,
                                flags: PageFlags { write: false, ..e.flags },
                            },
                        ),
                        None => None::<PteEntry>,
                    },
                forall|p: int|
                    !(src_base.number <= p < src_base.number + page_idx) ==> src_mapper
                        .translate_spec(p) == old(src_mapper).translate_spec(p),
                forall|idx: int|
                    0 <= idx < page_idx ==> (#[trigger] dst_mapper.translate_spec(
                        dst_base.number + idx,
                    )) == match old(src_mapper).translate_spec(src_base.number + idx) {
                        Some(e) => Some(
                            PteEntry {
                                page: Page { number: (dst_base.number + idx) as usize },
                                frame: e.frame,
                                flags: PageFlags { write: false, ..flags },
                            },
                        ),
                        None => old(dst_mapper).translate_spec(dst_base.number + idx),
                    },
                forall|p: int|
                    !(dst_base.number <= p < dst_base.number + page_idx) ==> dst_mapper
                        .translate_spec(p) == old(dst_mapper).translate_spec(p),
                frames.infos_seq() == cow_frames_spec(
                    old(frames).infos_seq(),
                    *old(src_mapper),
                    src_base.number as int,
                    page_idx as int,
                ),
                old(src_flusher).queued@.is_prefix_of(src_flusher.queued@),
                old(dst_flusher).queued@.is_prefix_of(dst_flusher.queued@),
            decreases page_count - page_idx,
        {
            let src_page = src_base.next_by(page_idx);
            let dst_page = dst_base.next_by(page_idx);
            proof {
                lemma_cow_frames_bounds(
                    old(frames).infos_seq(),
                    *old(src_mapper),
                    src_base.number as int,
                    page_count as int,
                    page_idx as int,
                );
                assert(src_mapper.translate_spec(src_page.number as int) == old(src_mapper).translate_spec(src_page.number as int));
            }
            match src_mapper.remap_readonly(src_page) {
                Some((_old_flags, src_frame, flush)) => {
                    src_flusher.consume(flush);
                    frames.add_ref(src_frame, true);
                    let write_false = PageFlags { write: false, ..flags };
                    match dst_mapper.map_phys(dst_page, src_frame, write_false) {
                        Some(map_result) => {
                            dst_flusher.consume(map_result);
                        },
                        None => {},
                    }
                },
                None => {},
            }
            page_idx = page_idx + 1;
        }
        Ok(
            Grant {
                base: dst_base,
                info: GrantInfo {
                    page_count,
                    flags,
                    mapped: true,
                    provider: Provider::Allocated,
                },
            },
        )
    }

    /// Change the grant's protection to `flags`: every already mapped
    /// page of the span is remapped (lazy pages need nothing but the
    /// recorded flags), and the stale translations are queued on the
    /// flusher.
    pub fn remap(&mut self, mapper: &mut PageMapper, flusher: &mut PageFlushAll, flags: PageFlags)
        requires
            old(self).info.mapped,
            old(self).base.number + old(self).info.page_count <= USER_END_PAGE,
            old(mapper).wf(),
        ensures
            final(mapper).wf(),
            *final(self) == (Grant {
                base: old(self).base,
                info: GrantInfo { flags, ..old(self).info },
            }),
            forall|p: int|
                g_start(*old(self)) <= p < g_end(*old(self)) ==> final(mapper).translate_spec(p)
                    == match old(mapper).translate_spec(p) {
                    Some(e) => Some(PteEntry { page: e.page, frame: e.frame, flags }),
                    None => None::<PteEntry>,
                },
            forall|p: int|
                !(g_start(*old(self)) <= p < g_end(*old(self))) ==> final(mapper).translate_spec(p)
                    == old(mapper).translate_spec(p),
            old(flusher).queued@.is_prefix_of(final(flusher).queued@),
    {
        let count = self.info.page_count;
        let mut idx: usize = 0;
        while idx < count
            invariant
                mapper.wf(),
                count == self.info.page_count,
                self == old(self),
                idx <= count,
                self.base.number + count <= USER_END_PAGE,
                forall|p: int|
                    g_start(*self) <= p < g_start(*self) + idx ==> mapper.translate_spec(p)
                        == match old(mapper).translate_spec(p) {
                        Some(e) => Some(PteEntry { page: e.page, frame: e.frame, flags }),
                        None => None::<PteEntry>,
                    },
                forall|p: int|
                    !(g_start(*self) <= p < g_start(*self) + idx) ==> mapper.translate_spec(p)
                        == old(mapper).translate_spec(p),
                old(flusher).queued@.is_prefix_of(flusher.queued@),
            decreases count - idx,
        {
            let page = self.base.next_by(idx);
            match mapper.remap(page, flags) {
                Some(flush) => {
                    flusher.consume(flush);
                },
                None => {},
            }
            idx = idx + 1;
        }
        self.info.flags = flags;
    }

    /// Release the span: every mapped page is unmapped, and for an
    /// `Allocated` or `External` provider the frame's references are
    /// dropped (a frame whose total refcount reaches zero goes back to
    /// the allocator). The grant is consumed; for an `Fmap` grant the
    /// file reference is handed back so the caller can notify the
    /// scheme and close it outside the space's lock.
    pub fn unmap(
        self,
        mapper: &mut PageMapper,
        flusher: &mut PageFlushAll,
        frames: &mut FrameInfos,
    ) -> (r: UnmapResult)
        requires
            self.info.mapped,
            self.base.number + self.info.page_count <= USER_END_PAGE,
            old(mapper).wf(),
            unmap_frames_ok(old(frames).infos_seq(), *old(mapper), self),
        ensures
            final(mapper).wf(),
            forall|p: int|
                g_start(self) <= p < g_end(self) ==> final(mapper).translate_spec(p) is None,
            forall|p: int|
                !(g_start(self) <= p < g_end(self)) ==> final(mapper).translate_spec(p) == old(mapper).translate_spec(p),
            final(frames).infos_seq() == unmap_frames_spec(
                old(frames).infos_seq(),
                *old(mapper),
                self,
                self.info.page_count as int,
            ),
            old(flusher).queued@.is_prefix_of(final(flusher).queued@),
            r == (UnmapResult {
                file_desc: match self.info.provider {
                    Provider::Fmap { desc } => Some(desc),
                    _ => None::<GrantFileRef>,
                },
            }),
    {
        let count = self.info.page_count;
        let takes_refs = match self.info.provider {
            Provider::Allocated => true,
            Provider::External { .. } => true,
            _ => false,
        };
        let is_cow = match self.info.provider {
            Provider::Allocated => true,
            _ => false,
        };
        let mut idx: usize = 0;
        while idx < count
            invariant
                mapper.wf(),
                count == self.info.page_count,
                idx <= count,
                self.base.number + count <= USER_END_PAGE,
                takes_refs == match self.info.provider {
                    Provider::Allocated => true,
                    Provider::External { .. } => true,
                    _ => false,
                },
                is_cow == (self.info.provider == Provider::Allocated),
                unmap_frames_ok(old(frames).infos_seq(), *old(mapper), self),
                frames.infos_seq() == unmap_frames_spec(
                    old(frames).infos_seq(),
                    *old(mapper),
                    self,
                    idx as int,
                ),
                forall|p: int|
                    g_start(self) <= p < g_start(self) + idx ==> mapper.translate_spec(p) is None,
                forall|p: int|
                    !(g_start(self) <= p < g_start(self) + idx) ==> mapper.translate_spec(p)
                        == old(mapper).translate_spec(p),
                old(flusher).queued@.is_prefix_of(flusher.queued@),
            decreases count - idx,
        {
            let page = self.base.next_by(idx);
            proof {
                lemma_unmap_frames_bounds(
                    old(frames).infos_seq(),
                    *old(mapper),
                    self,
                    idx as int,
                );
                assert(unmap_step_ok(old(frames).infos_seq(), *old(mapper), self, idx as int));
                assert(mapper.translate_spec(page.number as int) == old(mapper).translate_spec(
                    page.number as int,
                ));
            }
            match mapper.unmap_phys(page, true) {
                Some((phys, _flags, flush)) => {
                    if takes_refs {
                        frames.remove_ref(phys, is_cow);
                    }
                    flusher.consume(flush);
                },
                None => {},
            }
            idx = idx + 1;
        }
        UnmapResult {
            file_desc: match self.info.provider {
                Provider::Fmap { desc } => Some(desc),
                _ => None,
            },
        }
    }

    /// Split the grant into the piece before `span`, the piece covering
    /// exactly `span`, and the piece after it. The outer pieces are
    /// absent when `span` reaches the respective end of the grant.
    ///
    /// A `PhysBorrowed` provider's physical base and an `External`
    /// provider's source base are advanced piecewise, so every page
    /// keeps the exact backing it had; an `Fmap` provider's file
    /// reference is shared by every piece.
    pub fn extract(self, span: PageSpan) -> (r: Option<(Option<Grant>, Grant, Option<Grant>)>)
        requires
            grant_valid(self),
            g_start(self) <= span.start_spec(),
            span.end_spec() <= g_end(self),
            self.base.number + self.info.page_count <= usize::MAX,
            provider_shift_ok(self),
        ensures
            r matches Some((before, mid, after)),
            r matches Some((before, mid, after)) ==> {
                &&& before == self.piece_opt_spec(self.span_spec().before(span))
                &&& mid == self.piece_spec(span)
                &&& after == self.piece_opt_spec(self.span_spec().after(span))
            },
    {
        let this_span = self.span();
        let (before_span, _, after_span) = this_span.slice(span);

        let mut mid = self;
        let before_grant = match before_span {
            Some(s) => Some(
                Grant {
                    base: s.base,
                    info: GrantInfo {
                        page_count: s.count,
                        flags: self.info.flags,
                        mapped: self.info.mapped,
                        provider: self.info.provider,
                    },
                },
            ),
            None => None,
        };

        let skip = match before_grant {
            Some(g) => g.info.page_count,
            None => 0,
        };
        match mid.info.provider {
            Provider::PhysBorrowed { base } => {
                mid.info.provider = Provider::PhysBorrowed { base: base.next_by(skip) };
            },
            Provider::External { address_space, src_base } => {
                mid.info.provider = Provider::External {
                    address_space,
                    src_base: src_base.next_by(skip),
                };
            },
            _ => {},
        }

        let after_grant = match after_span {
            Some(s) => Some(
                Grant {
                    base: s.base,
                    info: GrantInfo {
                        page_count: s.count,
                        flags: self.info.flags,
                        mapped: self.info.mapped,
                        provider: match mid.info.provider {
                            Provider::PhysBorrowed { base } => Provider::PhysBorrowed {
                                base: base.next_by(span.count),
                            },
                            Provider::External { address_space, src_base } => Provider::External {
                                address_space,
                                src_base: src_base.next_by(span.count),
                            },
                            other => other,
                        },
                    },
                },
            ),
            None => None,
        };

        mid.base = span.base;
        mid.info.page_count = span.count;

        Some((before_grant, mid, after_grant))
    }
}

} // verus!
