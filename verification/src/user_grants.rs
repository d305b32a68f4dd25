//! The per-address-space collection of grants and its dual hole map.
//!
//! The master invariant is duality: at all times the union of the grant
//! spans and the holes is exactly `[0, USER_END_OFFSET)`, with no
//! overlap anywhere. Every mutation restores it.

use vstd::prelude::*;

use crate::error::Error;
use crate::flags::MapFlags;
use crate::grant::{g_end, g_start, grant_contains, grant_valid, Grant, GrantInfo};
use crate::page::{Page, PAGE_SIZE, USER_END_OFFSET, USER_END_PAGE};
use crate::span::PageSpan;

verus! {

/// A maximal gap between grants: `count` pages starting at page `start`.
#[derive(Clone, Copy, Debug, PartialEq, Eq, Structural)]
pub struct Hole {
    pub start: usize,
    pub count: usize,
}

/// Whether the hole covers page index `p`.
pub open spec fn hole_contains(h: Hole, p: int) -> bool {
    h.start <= p < h.start + h.count
}

/// Well-formedness of the grant list: every grant valid, and the list
/// sorted by base with consecutive grants disjoint.
pub open spec fn grants_wf(s: Seq<Grant>) -> bool {
    &&& forall|i: int| 0 <= i < s.len() ==> grant_valid(#[trigger] s[i])
    &&& forall|i: int| 0 <= i && i + 1 < s.len() ==> g_end(s[i]) <= g_start(#[trigger] s[i + 1])
}

/// Well-formedness of the hole list: every hole nonempty and below the
/// ceiling, and the list sorted with a strict gap between consecutive
/// holes (holes are maximal, so two holes never touch).
pub open spec fn holes_wf(hs: Seq<Hole>) -> bool {
    &&& forall|i: int|
        0 <= i < hs.len() ==> (#[trigger] hs[i]).count > 0 && hs[i].start + hs[i].count
            <= USER_END_PAGE
    &&& forall|i: int|
        0 <= i && i + 1 < hs.len() ==> hs[i].start + hs[i].count < (#[trigger] hs[i + 1]).start
}

/// Whether some grant of `s` covers page index `p`.
pub open spec fn grants_cover(s: Seq<Grant>, p: int) -> bool {
    exists|i: int| 0 <= i < s.len() && grant_contains(#[trigger] s[i], p)
}

/// Whether some hole of `hs` covers page index `p`.
pub open spec fn holes_cover(hs: Seq<Hole>, p: int) -> bool {
    exists|i: int| 0 <= i < hs.len() && hole_contains(#[trigger] hs[i], p)
}

/// Duality: each user page is covered by exactly one of the two maps.
pub open spec fn duality(s: Seq<Grant>, hs: Seq<Hole>) -> bool {
    forall|p: int| 0 <= p < USER_END_PAGE ==> (grants_cover(s, p) <==> !holes_cover(hs, p))
}

/// In a sorted grant list, any earlier grant ends before a later one
/// starts.
pub proof fn lemma_grants_sorted(s: Seq<Grant>, i: int, j: int)
    requires
        grants_wf(s),
        0 <= i < j < s.len(),
    ensures
        g_end(s[i]) <= g_start(s[j]),
    decreases j - i,
{
    if i + 1 == j {
    } else {
        lemma_grants_sorted(s, i + 1, j);
    }
}

/// Two distinct grants of a well-formed list share no page.
pub proof fn lemma_grants_disjoint(s: Seq<Grant>, i: int, j: int, p: int)
    requires
        grants_wf(s),
        0 <= i < s.len(),
        0 <= j < s.len(),
        i != j,
        grant_contains(s[i], p),
    ensures
        !grant_contains(s[j], p),
{
    if i < j {
        lemma_grants_sorted(s, i, j);
    } else {
        lemma_grants_sorted(s, j, i);
    }
}

/// In a sorted hole list, any earlier hole ends strictly before a later
/// one starts.
pub proof fn lemma_holes_sorted(hs: Seq<Hole>, i: int, j: int)
    requires
        holes_wf(hs),
        0 <= i < j < hs.len(),
    ensures
        hs[i].start + hs[i].count < hs[j].start,
    decreases j - i,
{
    if i + 1 == j {
    } else {
        lemma_holes_sorted(hs, i + 1, j);
    }
}

/// At most one hole covers any page.
pub proof fn lemma_holes_disjoint(hs: Seq<Hole>, i: int, j: int, p: int)
    requires
        holes_wf(hs),
        0 <= i < hs.len(),
        0 <= j < hs.len(),
        i != j,
        hole_contains(hs[i], p),
    ensures
        !hole_contains(hs[j], p),
{
    if i < j {
        lemma_holes_sorted(hs, i, j);
    } else {
        lemma_holes_sorted(hs, j, i);
    }
}

/// A contiguous run of hole-covered pages lies inside a single hole:
/// the hole that covers the run's first page covers the whole run.
pub proof fn lemma_span_in_hole(hs: Seq<Hole>, i: int, start: int, count: int)
    requires
        holes_wf(hs),
        0 <= i < hs.len(),
        hole_contains(hs[i], start),
        count > 0,
        forall|p: int| start <= p < start + count ==> holes_cover(hs, p),
    ensures
        start + count <= hs[i].start + hs[i].count,
    decreases count,
{
    if count > 1 {
        lemma_span_in_hole(hs, i, start, count - 1);
        let p = start + count - 1;
        assert(holes_cover(hs, p));
        let j = choose|j: int| 0 <= j < hs.len() && hole_contains(#[trigger] hs[j], p);
        if j != i {
            if j < i {
                lemma_holes_sorted(hs, j, i);
            } else {
                lemma_holes_sorted(hs, i, j);
            }
            assert(hole_contains(hs[i], p - 1));
            assert(false);
        }
    }
}

/// Covering is preserved under insertion of one grant.
pub proof fn lemma_cover_insert(s: Seq<Grant>, k: int, g: Grant, p: int)
    requires
        0 <= k <= s.len(),
    ensures
        grants_cover(s.insert(k, g), p) <==> grants_cover(s, p) || grant_contains(g, p),
{
    let t = s.insert(k, g);
    if grants_cover(s, p) {
        let i = choose|i: int| 0 <= i < s.len() && grant_contains(#[trigger] s[i], p);
        if i < k {
            assert(t[i] == s[i]);
            assert(grant_contains(t[i], p));
        } else {
            assert(t[i + 1] == s[i]);
            assert(grant_contains(t[i + 1], p));
        }
    }
    if grant_contains(g, p) {
        assert(t[k] == g);
        assert(grant_contains(t[k], p));
    }
    if grants_cover(t, p) {
        let i = choose|i: int| 0 <= i < t.len() && grant_contains(#[trigger] t[i], p);
        if i < k {
            assert(s[i] == t[i]);
            assert(grant_contains(s[i], p));
        } else if i == k {
        } else {
            assert(s[i - 1] == t[i]);
            assert(grant_contains(s[i - 1], p));
        }
    }
}

/// Covering after removal of one grant, in a well-formed list.
pub proof fn lemma_cover_remove(s: Seq<Grant>, k: int, p: int)
    requires
        grants_wf(s),
        0 <= k < s.len(),
    ensures
        grants_cover(s.remove(k), p) <==> grants_cover(s, p) && !grant_contains(s[k], p),
{
    let t = s.remove(k);
    if grants_cover(t, p) {
        let i = choose|i: int| 0 <= i < t.len() && grant_contains(#[trigger] t[i], p);
        if i < k {
            assert(s[i] == t[i]);
            assert(grant_contains(s[i], p));
            lemma_grants_disjoint(s, i, k, p);
        } else {
            assert(s[i + 1] == t[i]);
            assert(grant_contains(s[i + 1], p));
            lemma_grants_disjoint(s, i + 1, k, p);
        }
    }
    if grants_cover(s, p) && !grant_contains(s[k], p) {
        let i = choose|i: int| 0 <= i < s.len() && grant_contains(#[trigger] s[i], p);
        if i < k {
            assert(t[i] == s[i]);
            assert(grant_contains(t[i], p));
        } else {
            assert(t[i - 1] == s[i]);
            assert(grant_contains(t[i - 1], p));
        }
    }
}

/// Whether the grant shares a page with the span.
pub open spec fn grant_overlaps(g: Grant, span: PageSpan) -> bool {
    exists|p: int| grant_contains(g, p) && span.contains_spec(p)
}

/// The grants of `s` that share a page with `span`, in order.
pub open spec fn conflicts_spec(s: Seq<Grant>, span: PageSpan) -> Seq<Grant>
    decreases s.len(),
{
    if s.len() == 0 {
        Seq::empty()
    } else {
        let rest = conflicts_spec(s.drop_last(), span);
        if grant_overlaps(s.last(), span) {
            rest.push(s.last())
        } else {
            rest
        }
    }
}

/// Every conflict is a grant of `s` that overlaps the span.
pub proof fn lemma_conflicts_elements(s: Seq<Grant>, span: PageSpan)
    ensures
        forall|j: int| 0 <= j < conflicts_spec(s, span).len() ==> s.contains(
            #[trigger] conflicts_spec(s, span)[j],
        ) && grant_overlaps(conflicts_spec(s, span)[j], span),
    decreases s.len(),
{
    if s.len() > 0 {
        lemma_conflicts_elements(s.drop_last(), span);
        let cs = conflicts_spec(s, span);
        let rest = conflicts_spec(s.drop_last(), span);
        assert forall|j: int| 0 <= j < cs.len() implies s.contains(#[trigger] cs[j])
            && grant_overlaps(cs[j], span) by {
            if j < rest.len() {
                assert(rest[j] == cs[j]);
                let i = choose|i: int| 0 <= i < s.drop_last().len() && s.drop_last()[i] == rest[j];
                assert(s[i] == rest[j]);
            } else {
                assert(cs[j] == s.last());
                assert(s[s.len() - 1] == s.last());
            }
        }
    }
}

/// Every grant of `s` that overlaps the span is among the conflicts.
pub proof fn lemma_conflicts_complete(s: Seq<Grant>, span: PageSpan)
    ensures
        forall|i: int|
            0 <= i < s.len() && grant_overlaps(#[trigger] s[i], span) ==> conflicts_spec(
                s,
                span,
            ).contains(s[i]),
    decreases s.len(),
{
    if s.len() > 0 {
        lemma_conflicts_complete(s.drop_last(), span);
        let cs = conflicts_spec(s, span);
        let rest = conflicts_spec(s.drop_last(), span);
        assert forall|i: int|
            0 <= i < s.len() && grant_overlaps(#[trigger] s[i], span) implies cs.contains(
            s[i],
        ) by {
            if i < s.len() - 1 {
                assert(s.drop_last()[i] == s[i]);
                assert(rest.contains(s[i]));
                let j = choose|j: int| 0 <= j < rest.len() && rest[j] == s[i];
                if grant_overlaps(s.last(), span) {
                    assert(cs[j] == s[i]);
                } else {
                    assert(cs[j] == s[i]);
                }
            } else {
                assert(grant_overlaps(s.last(), span));
                assert(cs.last() == s.last());
            }
        }
    }
}

/// The conflicts of a well-formed grant list are valid, overlap the
/// span, and are sorted and pairwise disjoint like the list itself.
pub proof fn lemma_conflicts_sorted(s: Seq<Grant>, span: PageSpan)
    requires
        grants_wf(s),
    ensures
        forall|j: int|
            0 <= j < conflicts_spec(s, span).len() ==> grant_valid(
                #[trigger] conflicts_spec(s, span)[j],
            ) && grant_overlaps(conflicts_spec(s, span)[j], span),
        forall|a: int, b: int|
            0 <= a < b < conflicts_spec(s, span).len() ==> g_end(
                #[trigger] conflicts_spec(s, span)[a],
            ) <= g_start(#[trigger] conflicts_spec(s, span)[b]),
    decreases s.len(),
{
    let cs = conflicts_spec(s, span);
    if s.len() > 0 {
        assert forall|a: int|
            0 <= a && a + 1 < s.drop_last().len() implies g_end(s.drop_last()[a]) <= g_start(
            #[trigger] s.drop_last()[a + 1]) by {
            assert(s.drop_last()[a] == s[a] && s.drop_last()[a + 1] == s[a + 1]);
        }
        assert forall|a: int| 0 <= a < s.drop_last().len() implies grant_valid(
            #[trigger] s.drop_last()[a],
        ) by {
            assert(s.drop_last()[a] == s[a]);
        }
        lemma_conflicts_sorted(s.drop_last(), span);
        lemma_conflicts_elements(s.drop_last(), span);
        let rest = conflicts_spec(s.drop_last(), span);
        if grant_overlaps(s.last(), span) {
            assert(cs == rest.push(s.last()));
            assert(s[s.len() - 1] == s.last());
            assert forall|j: int| 0 <= j < cs.len() implies grant_valid(#[trigger] cs[j])
                && grant_overlaps(cs[j], span) by {
                if j < rest.len() {
                    assert(cs[j] == rest[j]);
                } else {
                    assert(cs[j] == s.last());
                }
            }
            assert forall|a: int, b: int| 0 <= a < b < cs.len() implies g_end(
                #[trigger] cs[a],
            ) <= g_start(#[trigger] cs[b]) by {
                if b < rest.len() {
                    assert(cs[a] == rest[a] && cs[b] == rest[b]);
                } else {
                    assert(cs[a] == rest[a] && cs[b] == s.last());
                    let i = choose|i: int|
                        0 <= i < s.drop_last().len() && s.drop_last()[i] == rest[a];
                    assert(s[i] == rest[a]);
                    lemma_grants_sorted(s, i, s.len() - 1);
                }
            }
        } else {
            assert(cs == rest);
        }
    }
}

/// Inside the span, the conflicts cover exactly the pages the grants
/// cover.
pub proof fn lemma_conflicts_cover(s: Seq<Grant>, span: PageSpan, p: int)
    requires
        span.contains_spec(p),
    ensures
        grants_cover(conflicts_spec(s, span), p) <==> grants_cover(s, p),
    decreases s.len(),
{
    if s.len() > 0 {
        lemma_conflicts_cover(s.drop_last(), span, p);
        let cs = conflicts_spec(s, span);
        let rest = conflicts_spec(s.drop_last(), span);
        if grants_cover(s, p) {
            let i = choose|i: int| 0 <= i < s.len() && grant_contains(#[trigger] s[i], p);
            if i < s.len() - 1 {
                assert(grant_contains(s.drop_last()[i], p));
                let j = choose|j: int| 0 <= j < rest.len() && grant_contains(#[trigger] rest[j], p);
                if grant_overlaps(s.last(), span) {
                    assert(cs[j] == rest[j]);
                } else {
                }
                assert(grants_cover(cs, p));
            } else {
                assert(grant_overlaps(s.last(), span));
                assert(cs.last() == s.last());
                assert(grant_contains(cs[cs.len() - 1], p));
            }
        }
        if grants_cover(cs, p) {
            let j = choose|j: int| 0 <= j < cs.len() && grant_contains(#[trigger] cs[j], p);
            if grant_overlaps(s.last(), span) {
                if j < rest.len() {
                    assert(cs[j] == rest[j]);
                    assert(grants_cover(rest, p));
                    let i = choose|i: int|
                        0 <= i < s.drop_last().len() && grant_contains(
                            #[trigger] s.drop_last()[i],
                            p,
                        );
                    assert(grant_contains(s[i], p));
                } else {
                    assert(cs[j] == s.last());
                    assert(grant_contains(s[s.len() - 1], p));
                }
            } else {
                assert(grants_cover(rest, p));
                let i = choose|i: int|
                    0 <= i < s.drop_last().len() && grant_contains(#[trigger] s.drop_last()[i], p);
                assert(grant_contains(s[i], p));
            }
        }
    }
}

/// The hole list after a span of `count` pages starting at `start` is
/// taken out of hole `i`: the hole is replaced by its part before the
/// span and its part after it, either of which may be empty.
pub open spec fn reserve_splice(hs: Seq<Hole>, i: int, start: int, count: int) -> Seq<Hole> {
    let h = hs[i];
    let left = Hole { start: h.start, count: (start - h.start) as usize };
    let right = Hole {
        start: (start + count) as usize,
        count: (h.start + h.count - (start + count)) as usize,
    };
    hs.take(i) + (if left.count > 0 {
        seq![left]
    } else {
        Seq::empty()
    }) + (if right.count > 0 {
        seq![right]
    } else {
        Seq::empty()
    }) + hs.skip(i + 1)
}

/// Taking a span out of the hole that contains it keeps the hole list
/// well formed, and uncovers exactly the span's pages.
pub proof fn lemma_reserve(hs: Seq<Hole>, i: int, start: int, count: int)
    requires
        holes_wf(hs),
        0 <= i < hs.len(),
        hole_contains(hs[i], start),
        count > 0,
        start + count <= hs[i].start + hs[i].count,
    ensures
        holes_wf(reserve_splice(hs, i, start, count)),
        forall|p: int|
            holes_cover(reserve_splice(hs, i, start, count), p) <==> holes_cover(hs, p) && !(start
                <= p < start + count),
{
    let n = reserve_splice(hs, i, start, count);
    let h = hs[i];
    let left = Hole { start: h.start, count: (start - h.start) as usize };
    let right = Hole {
        start: (start + count) as usize,
        count: (h.start + h.count - (start + count)) as usize,
    };
    let l: int = if left.count > 0 {
        1
    } else {
        0
    };
    let r: int = if right.count > 0 {
        1
    } else {
        0
    };
    assert(n.len() == hs.len() - 1 + l + r);
    assert(forall|j: int| 0 <= j < i ==> n[j] == hs[j]);
    assert(l == 1 ==> n[i] == left);
    assert(r == 1 ==> n[i + l] == right);
    assert(forall|j: int| i + l + r <= j < n.len() ==> n[j] == hs[j + 1 - l - r]);

    assert forall|j: int| 0 <= j < n.len() implies (#[trigger] n[j]).count > 0 && n[j].start
        + n[j].count <= USER_END_PAGE by {
        if j < i {
        } else if l == 1 && j == i {
        } else if r == 1 && j == i + l {
        } else {
            assert(n[j] == hs[j + 1 - l - r]);
        }
    }
    assert forall|j: int| 0 <= j && j + 1 < n.len() implies n[j].start + n[j].count < (
    #[trigger] n[j + 1]).start by {
        assert(h.count > 0);
        assert(i + 1 < hs.len() ==> h.start + h.count < hs[i + 1].start);
        if j + 1 < i {
            assert(n[j] == hs[j] && n[j + 1] == hs[j + 1]);
        } else if j + 1 == i {
            assert(n[j] == hs[j]);
            assert(hs[i - 1].start + hs[i - 1].count < h.start);
            if l == 1 {
                assert(n[j + 1] == left);
            } else if r == 1 {
                assert(n[j + 1] == right);
                assert(right.start == start + count);
                assert(h.start <= start);
            } else {
                assert(n[j + 1] == hs[i + 1]);
            }
        } else if l == 1 && j == i {
            assert(n[j] == left);
            assert(left.start + left.count == start);
            if r == 1 {
                assert(n[j + 1] == right);
            } else {
                assert(start + count == h.start + h.count);
                assert(n[j + 1] == hs[i + 1]);
            }
        } else if r == 1 && j == i + l {
            assert(n[j] == right);
            assert(right.start + right.count == h.start + h.count);
            assert(n[j + 1] == hs[i + 1]);
        } else {
            assert(j >= i + l + r);
            assert(n[j] == hs[j + 1 - l - r]);
            assert(n[j + 1] == hs[j + 2 - l - r]);
            assert(hs[j + 1 - l - r].start + hs[j + 1 - l - r].count < hs[(j + 1 - l - r) + 1].start);
        }
    }

    assert forall|p: int| holes_cover(n, p) implies holes_cover(hs, p) && !(start <= p < start
        + count) by {
        let j = choose|j: int| 0 <= j < n.len() && hole_contains(#[trigger] n[j], p);
        if j < i {
            assert(hole_contains(hs[j], p));
            if start <= p < start + count {
                lemma_holes_disjoint(hs, i, j, p);
            }
        } else if l == 1 && j == i {
            assert(hole_contains(hs[i], p));
        } else if r == 1 && j == i + l {
            assert(hole_contains(hs[i], p));
        } else {
            assert(n[j] == hs[j + 1 - l - r]);
            assert(hole_contains(hs[j + 1 - l - r], p));
            if start <= p < start + count {
                lemma_holes_disjoint(hs, i, j + 1 - l - r, p);
            }
        }
    }
    assert forall|p: int| holes_cover(hs, p) && !(start <= p < start + count) implies holes_cover(
        n,
        p,
    ) by {
        let j = choose|j: int| 0 <= j < hs.len() && hole_contains(#[trigger] hs[j], p);
        if j < i {
            assert(hole_contains(n[j], p));
        } else if j == i {
            if p < start {
                assert(left.count > 0);
                assert(hole_contains(n[i], p));
            } else {
                assert(p >= start + count);
                assert(right.count > 0);
                assert(hole_contains(n[i + l], p));
            }
        } else {
            assert(n[j - 1 + l + r] == hs[j]);
            assert(hole_contains(n[j - 1 + l + r], p));
        }
    }
}

/// The hole list after a span of `count` pages starting at `start` is
/// given back, where `j` is the number of holes below `start`: the
/// freed span is coalesced with the hole ending exactly at its start
/// and the hole starting exactly at its end, if either exists.
pub open spec fn unreserve_splice(hs: Seq<Hole>, j: int, start: int, count: int) -> Seq<Hole> {
    let merge_left = j > 0 && hs[j - 1].start + hs[j - 1].count == start;
    let merge_right = j < hs.len() && start + count == hs[j].start;
    if merge_left && merge_right {
        hs.take(j - 1) + seq![
            Hole {
                start: hs[j - 1].start,
                count: (hs[j - 1].count + count + hs[j].count) as usize,
            },
        ] + hs.skip(j + 1)
    } else if merge_left {
        hs.take(j - 1) + seq![
            Hole { start: hs[j - 1].start, count: (hs[j - 1].count + count) as usize },
        ] + hs.skip(j)
    } else if merge_right {
        hs.take(j) + seq![Hole { start: start as usize, count: (count + hs[j].count) as usize }]
            + hs.skip(j + 1)
    } else {
        hs.insert(j, Hole { start: start as usize, count: count as usize })
    }
}

/// Giving back a span that no hole covers keeps the hole list well
/// formed and maximal, and covers exactly the span's pages in
/// addition.
#[verifier::rlimit(60)]
pub proof fn lemma_unreserve(hs: Seq<Hole>, j: int, start: int, count: int)
    requires
        holes_wf(hs),
        0 <= j <= hs.len(),
        forall|a: int| 0 <= a < j ==> (#[trigger] hs[a]).start < start,
        forall|a: int| j <= a < hs.len() ==> start < (#[trigger] hs[a]).start,
        count > 0,
        start >= 0,
        start + count <= USER_END_PAGE,
        forall|p: int| start <= p < start + count ==> !holes_cover(hs, p),
    ensures
        holes_wf(unreserve_splice(hs, j, start, count)),
        forall|p: int|
            holes_cover(unreserve_splice(hs, j, start, count), p) <==> holes_cover(hs, p) || (start
                <= p < start + count),
{
    let n = unreserve_splice(hs, j, start, count);
    // Holes below `j` end at or before `start`; holes from `j` on begin
    // at or after the end of the span.
    assert forall|a: int| 0 <= a < j implies hs[a].start + (#[trigger] hs[a]).count <= start by {
        if hs[a].start + hs[a].count > start {
            assert(hole_contains(hs[a], start));
            assert(holes_cover(hs, start));
        }
    }
    assert forall|a: int| j <= a < hs.len() implies start + count <= (#[trigger] hs[a]).start by {
        if hs[a].start < start + count {
            assert(hole_contains(hs[a], hs[a].start as int));
            assert(holes_cover(hs, hs[a].start as int));
        }
    }
    let ml = j > 0 && hs[j - 1].start + hs[j - 1].count == start;
    let mr = j < hs.len() && start + count == hs[j].start;
    if ml && mr {
        let merged = Hole {
            start: hs[j - 1].start,
            count: (hs[j - 1].count + count + hs[j].count) as usize,
        };
        assert(n.len() == hs.len() - 1);
        assert(forall|a: int| 0 <= a < j - 1 ==> n[a] == hs[a]);
        assert(n[j - 1] == merged);
        assert(forall|a: int| j <= a < n.len() ==> n[a] == hs[a + 1]);
        assert forall|a: int| 0 <= a && a + 1 < n.len() implies n[a].start + n[a].count < (
        #[trigger] n[a + 1]).start by {
            if a + 1 < j - 1 {
                assert(n[a] == hs[a] && n[a + 1] == hs[a + 1]);
            } else if a + 1 == j - 1 {
                assert(n[a] == hs[a] && n[a + 1] == merged);
            } else if a == j - 1 {
                assert(n[a] == merged && n[a + 1] == hs[j + 1]);
                assert(merged.start + merged.count == hs[j].start + hs[j].count);
                assert(hs[j].start + hs[j].count < hs[j + 1].start);
            } else {
                assert(n[a] == hs[a + 1] && n[a + 1] == hs[a + 2]);
                assert(hs[a + 1].start + hs[a + 1].count < hs[(a + 1) + 1].start);
            }
        }
        assert forall|p: int| holes_cover(n, p) implies holes_cover(hs, p) || (start <= p < start
            + count) by {
            let a = choose|a: int| 0 <= a < n.len() && hole_contains(#[trigger] n[a], p);
            if a < j - 1 {
                assert(hole_contains(hs[a], p));
            } else if a == j - 1 {
                if p < start {
                    assert(hole_contains(hs[j - 1], p));
                } else if p >= start + count {
                    assert(hole_contains(hs[j], p));
                }
            } else {
                assert(hole_contains(hs[a + 1], p));
            }
        }
        assert forall|p: int| holes_cover(hs, p) || (start <= p < start + count) implies
            holes_cover(n, p) by {
            if start <= p < start + count {
                assert(hole_contains(n[j - 1], p));
            } else {
                let a = choose|a: int| 0 <= a < hs.len() && hole_contains(#[trigger] hs[a], p);
                if a < j - 1 {
                    assert(hole_contains(n[a], p));
                } else if a == j - 1 || a == j {
                    assert(hole_contains(n[j - 1], p));
                } else {
                    assert(hole_contains(n[a - 1], p));
                }
            }
        }
    } else if ml {
        let merged = Hole { start: hs[j - 1].start, count: (hs[j - 1].count + count) as usize };
        assert(n.len() == hs.len());
        assert(forall|a: int| 0 <= a < j - 1 ==> n[a] == hs[a]);
        assert(n[j - 1] == merged);
        assert(forall|a: int| j <= a < n.len() ==> n[a] == hs[a]);
        assert forall|a: int| 0 <= a && a + 1 < n.len() implies n[a].start + n[a].count < (
        #[trigger] n[a + 1]).start by {
            if a + 1 < j - 1 {
                assert(n[a] == hs[a] && n[a + 1] == hs[a + 1]);
            } else if a + 1 == j - 1 {
                assert(n[a] == hs[a] && n[a + 1] == merged);
            } else if a == j - 1 {
                assert(n[a] == merged && n[a + 1] == hs[j]);
                assert(merged.start + merged.count == start + count);
                assert(start + count <= hs[j].start);
                assert(start + count != hs[j].start);
            } else {
                assert(n[a] == hs[a] && n[a + 1] == hs[a + 1]);
            }
        }
        assert forall|p: int| holes_cover(n, p) implies holes_cover(hs, p) || (start <= p < start
            + count) by {
            let a = choose|a: int| 0 <= a < n.len() && hole_contains(#[trigger] n[a], p);
            if a == j - 1 {
                if p < start {
                    assert(hole_contains(hs[j - 1], p));
                }
            } else {
                assert(hole_contains(hs[a], p));
            }
        }
        assert forall|p: int| holes_cover(hs, p) || (start <= p < start + count) implies
            holes_cover(n, p) by {
            if start <= p < start + count {
                assert(hole_contains(n[j - 1], p));
            } else {
                let a = choose|a: int| 0 <= a < hs.len() && hole_contains(#[trigger] hs[a], p);
                if a == j - 1 {
                    assert(hole_contains(n[j - 1], p));
                } else {
                    assert(hole_contains(n[a], p));
                }
            }
        }
    } else if mr {
        let merged = Hole { start: start as usize, count: (count + hs[j].count) as usize };
        assert(n.len() == hs.len());
        assert(forall|a: int| 0 <= a < j ==> n[a] == hs[a]);
        assert(n[j] == merged);
        assert(forall|a: int| j < a < n.len() ==> n[a] == hs[a]);
        assert forall|a: int| 0 <= a && a + 1 < n.len() implies n[a].start + n[a].count < (
        #[trigger] n[a + 1]).start by {
            if a + 1 < j {
                assert(n[a] == hs[a] && n[a + 1] == hs[a + 1]);
            } else if a + 1 == j {
                assert(n[a] == hs[a] && n[a + 1] == merged);
                assert(hs[a].start + hs[a].count <= start);
                assert(hs[a].start + hs[a].count != start);
            } else if a == j {
                assert(n[a] == merged && n[a + 1] == hs[j + 1]);
                assert(merged.start + merged.count == hs[j].start + hs[j].count);
            } else {
                assert(n[a] == hs[a] && n[a + 1] == hs[a + 1]);
            }
        }
        assert forall|p: int| holes_cover(n, p) implies holes_cover(hs, p) || (start <= p < start
            + count) by {
            let a = choose|a: int| 0 <= a < n.len() && hole_contains(#[trigger] n[a], p);
            if a == j {
                if p >= start + count {
                    assert(hole_contains(hs[j], p));
                }
            } else {
                assert(hole_contains(hs[a], p));
            }
        }
        assert forall|p: int| holes_cover(hs, p) || (start <= p < start + count) implies
            holes_cover(n, p) by {
            if start <= p < start + count {
                assert(hole_contains(n[j], p));
            } else {
                let a = choose|a: int| 0 <= a < hs.len() && hole_contains(#[trigger] hs[a], p);
                if a == j {
                    assert(hole_contains(n[j], p));
                } else {
                    assert(hole_contains(n[a], p));
                }
            }
        }
    } else {
        let fresh = Hole { start: start as usize, count: count as usize };
        assert(n.len() == hs.len() + 1);
        assert(forall|a: int| 0 <= a < j ==> n[a] == hs[a]);
        assert(n[j] == fresh);
        assert(forall|a: int| j < a < n.len() ==> n[a] == hs[a - 1]);
        assert forall|a: int| 0 <= a && a + 1 < n.len() implies n[a].start + n[a].count < (
        #[trigger] n[a + 1]).start by {
            if a + 1 < j {
                assert(n[a] == hs[a] && n[a + 1] == hs[a + 1]);
            } else if a + 1 == j {
                assert(n[a] == hs[a] && n[a + 1] == fresh);
                assert(hs[a].start + hs[a].count <= start);
                assert(hs[a].start + hs[a].count != start);
            } else if a == j {
                assert(n[a] == fresh && n[a + 1] == hs[j]);
                assert(start + count <= hs[j].start);
                assert(start + count != hs[j].start);
            } else {
                assert(n[a] == hs[a - 1] && n[a + 1] == hs[a]);
                assert(hs[a - 1].start + hs[a - 1].count < hs[(a - 1) + 1].start);
            }
        }
        assert forall|p: int| holes_cover(n, p) implies holes_cover(hs, p) || (start <= p < start
            + count) by {
            let a = choose|a: int| 0 <= a < n.len() && hole_contains(#[trigger] n[a], p);
            if a < j {
                assert(hole_contains(hs[a], p));
            } else if a == j {
            } else {
                assert(hole_contains(hs[a - 1], p));
            }
        }
        assert forall|p: int| holes_cover(hs, p) || (start <= p < start + count) implies
            holes_cover(n, p) by {
            if start <= p < start + count {
                assert(hole_contains(n[j], p));
            } else {
                let a = choose|a: int| 0 <= a < hs.len() && hole_contains(#[trigger] hs[a], p);
                if a < j {
                    assert(hole_contains(n[a], p));
                } else {
                    assert(hole_contains(n[a + 1], p));
                }
            }
        }
    }
}

/// The first page of a hole that is usable under the lower bound
/// `minp`.
pub open spec fn fit_start(h: Hole, minp: int) -> int {
    if h.start >= minp {
        h.start as int
    } else {
        minp
    }
}

/// Whether a hole can provide `count` pages at or above page `minp`.
pub open spec fn hole_fits(h: Hole, minp: int, count: int) -> bool {
    fit_start(h, minp) + count <= h.start + h.count
}

/// First-fit search result: either the usable tail of the first hole
/// that fits, or no hole fits at all.
pub open spec fn find_free_post(hs: Seq<Hole>, minp: int, count: int, r: Option<PageSpan>) -> bool {
    match r {
        Some(span) => span.count == count && exists|i: int|
            0 <= i < hs.len() && hole_fits(#[trigger] hs[i], minp, count) && span.base.number
                == fit_start(hs[i], minp) && (forall|a: int|
                0 <= a < i ==> !hole_fits(#[trigger] hs[a], minp, count)),
        None => forall|i: int| 0 <= i < hs.len() ==> !hole_fits(#[trigger] hs[i], minp, count),
    }
}

/// Whether some page of the span is already granted.
pub open spec fn span_conflicts(s: Seq<Grant>, span: PageSpan) -> bool {
    exists|p: int| span.contains_spec(p) && grants_cover(s, p)
}

/// The conflict list is nonempty exactly when some page of the span is
/// granted.
pub proof fn lemma_conflicts_nonempty(s: Seq<Grant>, span: PageSpan)
    ensures
        conflicts_spec(s, span).len() != 0 <==> span_conflicts(s, span),
{
    let cs = conflicts_spec(s, span);
    if cs.len() != 0 {
        lemma_conflicts_elements(s, span);
        assert(s.contains(cs[0]) && grant_overlaps(cs[0], span));
        let p = choose|p: int| grant_contains(cs[0], p) && span.contains_spec(p);
        let i = choose|i: int| 0 <= i < s.len() && s[i] == cs[0];
        assert(grant_contains(s[i], p));
        assert(grants_cover(s, p));
    }
    if span_conflicts(s, span) {
        let p = choose|p: int| span.contains_spec(p) && grants_cover(s, p);
        lemma_conflicts_cover(s, span, p);
        assert(grants_cover(cs, p));
        let i = choose|i: int| 0 <= i < cs.len() && grant_contains(#[trigger] cs[i], p);
    }
}

/// What `find_free_at` promises: the requested span when it is free,
/// the placement-policy error when it is not, or a first-fit span.
pub open spec fn find_free_at_post(
    s: Seq<Grant>,
    hs: Seq<Hole>,
    minp: int,
    base: Option<Page>,
    count: int,
    flags: MapFlags,
    r: Result<PageSpan, Error>,
) -> bool {
    match base {
        None => unhinted_post(hs, minp, count, r),
        Some(b) => {
            let span = PageSpan { base: b, count: count as usize };
            if !span_conflicts(s, span) {
                r == Ok::<PageSpan, Error>(span)
            } else if flags.map_fixed_noreplace {
                r == Err::<PageSpan, Error>(Error::AlreadyExists)
            } else if flags.map_fixed {
                r == Err::<PageSpan, Error>(Error::NotSupported)
            } else {
                unhinted_post(hs, minp, count, r)
            }
        },
    }
}

/// The result of falling back to the first-fit search: a span on
/// success, `NoMemory` exactly when no hole fits.
pub open spec fn unhinted_post(
    hs: Seq<Hole>,
    minp: int,
    count: int,
    r: Result<PageSpan, Error>,
) -> bool {
    match r {
        Ok(span) => find_free_post(hs, minp, count, Some(span)),
        Err(e) => e == Error::NoMemory && find_free_post(hs, minp, count, None::<PageSpan>),
    }
}

/// A span found by the first-fit search lies in a hole: it overlaps no
/// grant, starts at or above the bound, and is well formed.
pub proof fn lemma_find_free_fits(s: Seq<Grant>, hs: Seq<Hole>, minp: int, span: PageSpan)
    requires
        holes_wf(hs),
        duality(s, hs),
        minp >= 0,
        find_free_post(hs, minp, span.count as int, Some(span)),
    ensures
        span.wf(),
        span.base.number >= minp,
        forall|p: int| span.contains_spec(p) ==> !grants_cover(s, p),
{
    let i = choose|i: int|
        0 <= i < hs.len() && hole_fits(#[trigger] hs[i], minp, span.count as int)
            && span.base.number == fit_start(hs[i], minp) && (forall|a: int|
            0 <= a < i ==> !hole_fits(#[trigger] hs[a], minp, span.count as int));
    assert forall|p: int| span.contains_spec(p) implies !grants_cover(s, p) by {
        assert(hole_contains(hs[i], p));
        assert(holes_cover(hs, p));
    }
}

/// Maximal hole lists are canonical: two well-formed lists that cover
/// the same pages are equal.
pub proof fn lemma_holes_canonical(h1: Seq<Hole>, h2: Seq<Hole>)
    requires
        holes_wf(h1),
        holes_wf(h2),
        forall|p: int| holes_cover(h1, p) <==> holes_cover(h2, p),
    ensures
        h1 == h2,
    decreases h1.len(),
{
    if h1.len() == 0 {
        if h2.len() > 0 {
            assert(hole_contains(h2[0], h2[0].start as int));
            assert(holes_cover(h2, h2[0].start as int));
            assert(false);
        }
        assert(h1 =~= h2);
    } else {
        if h2.len() == 0 {
            assert(hole_contains(h1[0], h1[0].start as int));
            assert(holes_cover(h1, h1[0].start as int));
            assert(false);
        }
        // The first holes start together: each start is covered by the
        // other list, and every hole but the first starts later.
        assert(hole_contains(h1[0], h1[0].start as int));
        assert(holes_cover(h2, h1[0].start as int));
        let j1 = choose|j: int| 0 <= j < h2.len() && hole_contains(#[trigger] h2[j], h1[0].start as int);
        if j1 > 0 {
            lemma_holes_sorted(h2, 0, j1);
        }
        assert(hole_contains(h2[0], h2[0].start as int));
        assert(holes_cover(h1, h2[0].start as int));
        let j2 = choose|j: int| 0 <= j < h1.len() && hole_contains(#[trigger] h1[j], h2[0].start as int);
        if j2 > 0 {
            lemma_holes_sorted(h1, 0, j2);
        }
        assert(h1[0].start == h2[0].start);
        // And they end together: the page after the shorter one's end
        // would be covered by one list only.
        if h1[0].count < h2[0].count {
            let p = h1[0].start + h1[0].count;
            assert(hole_contains(h2[0], p));
            assert(holes_cover(h1, p));
            let j = choose|j: int| 0 <= j < h1.len() && hole_contains(#[trigger] h1[j], p);
            if j > 0 {
                lemma_holes_sorted(h1, 0, j);
            }
            assert(false);
        }
        if h2[0].count < h1[0].count {
            let p = h2[0].start + h2[0].count;
            assert(hole_contains(h1[0], p));
            assert(holes_cover(h2, p));
            let j = choose|j: int| 0 <= j < h2.len() && hole_contains(#[trigger] h2[j], p);
            if j > 0 {
                lemma_holes_sorted(h2, 0, j);
            }
            assert(false);
        }
        assert(h1[0] == h2[0]);
        // Drop the first holes and recurse.
        let t1 = h1.drop_first();
        let t2 = h2.drop_first();
        assert(forall|a: int| 0 <= a < t1.len() ==> #[trigger] t1[a] == h1[a + 1]);
        assert(forall|a: int| 0 <= a < t2.len() ==> #[trigger] t2[a] == h2[a + 1]);
        assert forall|p: int| holes_cover(t1, p) <==> holes_cover(t2, p) by {
            if holes_cover(t1, p) {
                let a = choose|a: int| 0 <= a < t1.len() && hole_contains(#[trigger] t1[a], p);
                assert(hole_contains(h1[a + 1], p));
                assert(holes_cover(h1, p));
                assert(holes_cover(h2, p));
                let b = choose|b: int| 0 <= b < h2.len() && hole_contains(#[trigger] h2[b], p);
                if b == 0 {
                    lemma_holes_disjoint(h1, a + 1, 0, p);
                    assert(false);
                }
                assert(hole_contains(t2[b - 1], p));
            }
            if holes_cover(t2, p) {
                let a = choose|a: int| 0 <= a < t2.len() && hole_contains(#[trigger] t2[a], p);
                assert(hole_contains(h2[a + 1], p));
                assert(holes_cover(h2, p));
                assert(holes_cover(h1, p));
                let b = choose|b: int| 0 <= b < h1.len() && hole_contains(#[trigger] h1[b], p);
                if b == 0 {
                    lemma_holes_disjoint(h2, a + 1, 0, p);
                    assert(false);
                }
                assert(hole_contains(t1[b - 1], p));
            }
        }
        lemma_holes_canonical(t1, t2);
        assert(t1 == t2);
        assert(h1.len() == h2.len());
        assert forall|a: int| 0 <= a < h1.len() implies h1[a] == h2[a] by {
            if a > 0 {
                assert(t1[a - 1] == h1[a]);
                assert(t2[a - 1] == h2[a]);
            }
        }
        assert(h1 =~= h2);
    }
}

/// The grant that covers page `p`, as an index into the list.
pub open spec fn covering_index(s: Seq<Grant>, p: int) -> int {
    choose|i: int| 0 <= i < s.len() && grant_contains(#[trigger] s[i], p)
}

/// The flags of the grant covering page `p` (meaningful when some
/// grant covers it).
pub open spec fn flags_at(s: Seq<Grant>, p: int) -> crate::flags::PageFlags {
    s[covering_index(s, p)].info.flags
}

/// The backing the grant gives to page `p`, normalized to the page
/// itself: a borrowed physical or source base is advanced to the
/// page's offset, so the value does not depend on how the grant
/// happens to be split.
pub open spec fn grant_provider_at(g: Grant, p: int) -> crate::grant::Provider {
    match g.info.provider {
        crate::grant::Provider::PhysBorrowed { base } => crate::grant::Provider::PhysBorrowed {
            base: crate::page::Frame { number: (base.number + (p - g_start(g))) as usize },
        },
        crate::grant::Provider::External { address_space, src_base } => crate::grant::Provider::External {
            address_space,
            src_base: Page { number: (src_base.number + (p - g_start(g))) as usize },
        },
        other => other,
    }
}

/// The backing of page `p` under the grant list.
pub open spec fn provider_at(s: Seq<Grant>, p: int) -> crate::grant::Provider {
    grant_provider_at(s[covering_index(s, p)], p)
}

/// The per-page reading of a grant list: flags and normalized backing
/// where a grant covers the page, nothing where none does.
pub open spec fn page_state(s: Seq<Grant>, p: int) -> Option<(crate::flags::PageFlags, crate::grant::Provider)> {
    if grants_cover(s, p) {
        Some((flags_at(s, p), provider_at(s, p)))
    } else {
        None
    }
}

/// Inserting a grant elsewhere does not change which grant covers `p`.
pub proof fn lemma_at_insert(s: Seq<Grant>, k: int, g: Grant, p: int)
    requires
        grants_wf(s),
        grants_wf(s.insert(k, g)),
        0 <= k <= s.len(),
        grants_cover(s, p),
        !grant_contains(g, p),
    ensures
        grants_cover(s.insert(k, g), p),
        s.insert(k, g)[covering_index(s.insert(k, g), p)] == s[covering_index(s, p)],
        page_state(s.insert(k, g), p) == page_state(s, p),
{
    let i = covering_index(s, p);
    assert(0 <= i < s.len() && grant_contains(s[i], p));
    let t = s.insert(k, g);
    if i < k {
        assert(t[i] == s[i]);
        lemma_covering_index(t, i, p);
    } else {
        assert(t[i + 1] == s[i]);
        lemma_covering_index(t, i + 1, p);
    }
}

/// Removing a grant that does not cover `p` does not change which
/// grant covers it.
pub proof fn lemma_at_remove(s: Seq<Grant>, k: int, p: int)
    requires
        grants_wf(s),
        0 <= k < s.len(),
        grants_cover(s, p),
        !grant_contains(s[k], p),
    ensures
        grants_cover(s.remove(k), p),
        s.remove(k)[covering_index(s.remove(k), p)] == s[covering_index(s, p)],
        page_state(s.remove(k), p) == page_state(s, p),
{
    let i = covering_index(s, p);
    assert(0 <= i < s.len() && grant_contains(s[i], p));
    lemma_grants_disjoint(s, i, k, p);
    let t = s.remove(k);
    assert forall|a: int| 0 <= a && a + 1 < t.len() implies g_end(t[a]) <= g_start(
        #[trigger] t[a + 1]) by {
        let a0 = if a < k { a } else { a + 1 };
        let b0 = if a + 1 < k { a + 1 } else { a + 2 };
        assert(t[a] == s[a0] && t[a + 1] == s[b0]);
        if b0 > a0 + 1 {
            lemma_grants_sorted(s, a0, b0);
        } else {
            assert(g_end(s[a0]) <= g_start(s[a0 + 1]));
        }
    }
    assert forall|a: int| 0 <= a < t.len() implies grant_valid(#[trigger] t[a]) by {
        let a0 = if a < k { a } else { a + 1 };
        assert(t[a] == s[a0]);
    }
    if i < k {
        assert(t[i] == s[i]);
        lemma_covering_index(t, i, p);
    } else {
        assert(t[i - 1] == s[i]);
        lemma_covering_index(t, i - 1, p);
    }
}

/// In a well-formed list the covering index is the only one.
pub proof fn lemma_covering_index(s: Seq<Grant>, i: int, p: int)
    requires
        grants_wf(s),
        0 <= i < s.len(),
        grant_contains(s[i], p),
    ensures
        covering_index(s, p) == i,
{
    let j = covering_index(s, p);
    assert(0 <= j < s.len() && grant_contains(s[j], p));
    if i != j {
        lemma_grants_disjoint(s, i, j, p);
    }
}

/// Inserting adds exactly one element: afterwards the list holds `e`
/// iff it held it before or `e` is the inserted grant.
pub proof fn lemma_insert_contains(s: Seq<Grant>, k: int, x: Grant, e: Grant)
    requires
        0 <= k <= s.len(),
    ensures
        s.insert(k, x).contains(e) <==> (s.contains(e) || e == x),
{
    let t = s.insert(k, x);
    if t.contains(e) {
        let j = choose|j: int| 0 <= j < t.len() && t[j] == e;
        if j < k {
            assert(s[j] == e);
        } else if j == k {
        } else {
            assert(s[j - 1] == e);
        }
    }
    if s.contains(e) {
        lemma_insert_retains(s, k, x, e);
    }
    if e == x {
        assert(t[k] == e);
    }
}

/// In a well-formed list, whose bases are all distinct, removing the
/// grant at `k` takes away exactly that grant.
pub proof fn lemma_remove_unique_contains(s: Seq<Grant>, k: int, e: Grant)
    requires
        grants_wf(s),
        0 <= k < s.len(),
    ensures
        s.remove(k).contains(e) <==> (s.contains(e) && e != s[k]),
{
    let t = s.remove(k);
    if t.contains(e) {
        let j = choose|j: int| 0 <= j < t.len() && t[j] == e;
        let j0 = if j < k {
            j
        } else {
            j + 1
        };
        assert(s[j0] == e);
        if e == s[k] {
            // Two equal grants would share a base, which sortedness
            // with nonempty spans forbids.
            if j0 < k {
                lemma_grants_sorted(s, j0, k);
            } else {
                lemma_grants_sorted(s, k, j0);
            }
            assert(false);
        }
    }
    if s.contains(e) && e != s[k] {
        let j0 = choose|j: int| 0 <= j < s.len() && s[j] == e;
        assert(j0 != k);
        lemma_remove_retains(s, k, j0);
    }
}

/// Inserting keeps every element the list already had.
pub proof fn lemma_insert_retains(s: Seq<Grant>, k: int, x: Grant, e: Grant)
    requires
        0 <= k <= s.len(),
        s.contains(e),
    ensures
        s.insert(k, x).contains(e),
{
    let j = choose|j: int| 0 <= j < s.len() && s[j] == e;
    if j < k {
        assert(s.insert(k, x)[j] == e);
    } else {
        assert(s.insert(k, x)[j + 1] == e);
    }
}

/// Removing one element keeps every other.
pub proof fn lemma_remove_retains(s: Seq<Grant>, k: int, j: int)
    requires
        0 <= k < s.len(),
        0 <= j < s.len(),
        j != k,
    ensures
        s.remove(k).contains(s[j]),
{
    if j < k {
        assert(s.remove(k)[j] == s[j]);
    } else {
        assert(s.remove(k)[j - 1] == s[j]);
    }
}

/// Taking one grant out and putting back its pieces — the part before
/// an inner span, the part after it, and the inner part itself with
/// possibly different flags — keeps coverage identical, leaves every
/// other page's state alone, gives the grant's own pages the piece
/// flags with their backing unchanged, and keeps every other grant.
#[verifier::rlimit(100)]
pub proof fn lemma_replace_with_pieces(
    cur: Seq<Grant>,
    rk: int,
    g: Grant,
    inter: PageSpan,
    s1: Seq<Grant>,
    s2: Seq<Grant>,
    s3: Seq<Grant>,
    done: Seq<Grant>,
    new_flags: crate::flags::PageFlags,
    mid2: Grant,
)
    requires
        grants_wf(cur),
        0 <= rk < cur.len(),
        cur[rk] == g,
        g_start(g) <= inter.start_spec(),
        inter.end_spec() <= g_end(g),
        inter.count > 0,
        s1 == cur.remove(rk),
        match g.span_spec().before(inter) {
            Some(bs) => grants_insert_rel(s1, s2, g.piece_spec(bs)),
            None => s2 == s1,
        },
        match g.span_spec().after(inter) {
            Some(as_) => grants_insert_rel(s2, s3, g.piece_spec(as_)),
            None => s3 == s2,
        },
        mid2 == (Grant {
            base: inter.base,
            info: crate::grant::GrantInfo { flags: new_flags, ..g.piece_spec(inter).info },
        }),
        grants_insert_rel(s3, done, mid2),
        grants_wf(s1),
        grants_wf(s2),
        grants_wf(s3),
        grants_wf(done),
    ensures
        forall|p: int| grants_cover(done, p) <==> grants_cover(cur, p),
        forall|p: int|
            !grant_contains(g, p) ==> #[trigger] page_state(done, p) == page_state(cur, p),
        forall|p: int|
            grant_contains(g, p) ==> #[trigger] page_state(done, p) == Some(
                (
                    if inter.contains_spec(p) {
                        new_flags
                    } else {
                        g.info.flags
                    },
                    grant_provider_at(g, p),
                ),
            ),
        forall|e: Grant| cur.contains(e) && e != g ==> #[trigger] done.contains(e),
        forall|e: Grant|
            #[trigger] done.contains(e) <==> ((cur.contains(e) && e != g) || (
            g.span_spec().before(inter) matches Some(bs) && e == g.piece_spec(bs)) || e == (Grant {
                base: inter.base,
                info: crate::grant::GrantInfo { flags: new_flags, ..g.piece_spec(inter).info },
            }) || (g.span_spec().after(inter) matches Some(as_) && e == g.piece_spec(as_))),
{
    let bspan = g.span_spec().before(inter);
    let aspan = g.span_spec().after(inter);
    // Cover through each step.
    assert forall|p: int| true implies (grants_cover(s1, p) <==> grants_cover(cur, p)
        && !grant_contains(g, p)) by {
        lemma_cover_remove(cur, rk, p);
    }
    // Element-level characterization of each step.
    assert forall|e: Grant| true implies (#[trigger] s1.contains(e) <==> (cur.contains(e) && e
        != g)) by {
        lemma_remove_unique_contains(cur, rk, e);
    }
    assert forall|e: Grant| true implies (#[trigger] s2.contains(e) <==> (s1.contains(e) || (
    bspan matches Some(bs) && e == g.piece_spec(bs)))) by {
        match bspan {
            Some(bs) => {
                let b = g.piece_spec(bs);
                let k = choose|k: int|
                    0 <= k <= s1.len() && (forall|j: int|
                        0 <= j < k ==> g_start(#[trigger] s1[j]) < g_start(b)) && (forall|j: int|
                        k <= j < s1.len() ==> g_start(b) < g_start(#[trigger] s1[j])) && s2
                        == s1.insert(k, b);
                lemma_insert_contains(s1, k, b, e);
            },
            None => {},
        }
    }
    assert forall|e: Grant| true implies (#[trigger] s3.contains(e) <==> (s2.contains(e) || (
    aspan matches Some(as_) && e == g.piece_spec(as_)))) by {
        match aspan {
            Some(as_) => {
                let a = g.piece_spec(as_);
                let k = choose|k: int|
                    0 <= k <= s2.len() && (forall|j: int|
                        0 <= j < k ==> g_start(#[trigger] s2[j]) < g_start(a)) && (forall|j: int|
                        k <= j < s2.len() ==> g_start(a) < g_start(#[trigger] s2[j])) && s3
                        == s2.insert(k, a);
                lemma_insert_contains(s2, k, a, e);
            },
            None => {},
        }
    }
    if bspan is Some {
        let bs = bspan.unwrap();
        let b = g.piece_spec(bs);
        let k = choose|k: int|
            0 <= k <= s1.len() && (forall|j: int|
                0 <= j < k ==> g_start(#[trigger] s1[j]) < g_start(b)) && (forall|j: int|
                k <= j < s1.len() ==> g_start(b) < g_start(#[trigger] s1[j])) && s2 == s1.insert(
                k,
                b,
            );
        assert forall|p: int| true implies (grants_cover(s2, p) <==> grants_cover(s1, p)
            || grant_contains(b, p)) by {
            lemma_cover_insert(s1, k, b, p);
        }
        assert forall|p: int| grants_cover(s1, p) implies page_state(s2, p) == page_state(
            s1,
            p,
        ) by {
            lemma_at_insert(s1, k, b, p);
        }
    }
    if aspan is Some {
        let as_ = aspan.unwrap();
        let a = g.piece_spec(as_);
        let k = choose|k: int|
            0 <= k <= s2.len() && (forall|j: int|
                0 <= j < k ==> g_start(#[trigger] s2[j]) < g_start(a)) && (forall|j: int|
                k <= j < s2.len() ==> g_start(a) < g_start(#[trigger] s2[j])) && s3 == s2.insert(
                k,
                a,
            );
        assert forall|p: int| true implies (grants_cover(s3, p) <==> grants_cover(s2, p)
            || grant_contains(a, p)) by {
            lemma_cover_insert(s2, k, a, p);
        }
        assert forall|p: int| grants_cover(s2, p) implies page_state(s3, p) == page_state(
            s2,
            p,
        ) by {
            lemma_at_insert(s2, k, a, p);
        }
    }
    let mk = choose|k: int|
        0 <= k <= s3.len() && (forall|j: int|
            0 <= j < k ==> g_start(#[trigger] s3[j]) < g_start(mid2)) && (forall|j: int|
            k <= j < s3.len() ==> g_start(mid2) < g_start(#[trigger] s3[j])) && done == s3.insert(
            k,
            mid2,
        );
    assert(done == s3.insert(mk, mid2));
    assert forall|e: Grant| true implies (#[trigger] done.contains(e) <==> (s3.contains(e) || e
        == mid2)) by {
        lemma_insert_contains(s3, mk, mid2, e);
    }
    assert forall|p: int| true implies (grants_cover(done, p) <==> grants_cover(s3, p)
        || grant_contains(mid2, p)) by {
        lemma_cover_insert(s3, mk, mid2, p);
    }
    assert forall|p: int| grants_cover(s3, p) implies page_state(done, p) == page_state(
        s3,
        p,
    ) by {
        lemma_at_insert(s3, mk, mid2, p);
    }

    // Coverage is identical: the three pieces tile the grant exactly.
    assert forall|p: int| true implies (grants_cover(done, p) <==> grants_cover(cur, p)) by {
        if grant_contains(g, p) {
            assert(grants_cover(cur, p));
            if inter.contains_spec(p) {
                assert(grant_contains(mid2, p));
            } else if p < inter.start_spec() {
                assert(bspan matches Some(bs) && grant_contains(g.piece_spec(bs), p));
            } else {
                assert(aspan matches Some(as_) && grant_contains(g.piece_spec(as_), p));
            }
        }
    }

    // Pages outside the grant keep their state.
    assert forall|p: int| !grant_contains(g, p) implies #[trigger] page_state(done, p)
        == page_state(cur, p) by {
        if grants_cover(cur, p) {
            lemma_at_remove(cur, rk, p);
        }
    }

    // Pages of the grant read their piece.
    assert forall|p: int| grant_contains(g, p) implies #[trigger] page_state(done, p) == Some(
        (
            if inter.contains_spec(p) {
                new_flags
            } else {
                g.info.flags
            },
            grant_provider_at(g, p),
        ),
    ) by {
        let piece = if inter.contains_spec(p) {
            mid2
        } else if p < inter.start_spec() {
            g.piece_spec(bspan.unwrap())
        } else {
            g.piece_spec(aspan.unwrap())
        };
        assert(grant_contains(piece, p));
        assert(done.contains(piece)) by {
            if inter.contains_spec(p) {
                assert(done[mk] == mid2);
            } else if p < inter.start_spec() {
                let b = g.piece_spec(bspan.unwrap());
                let k = choose|k: int|
                    0 <= k <= s1.len() && (forall|j: int|
                        0 <= j < k ==> g_start(#[trigger] s1[j]) < g_start(b)) && (forall|j: int|
                        k <= j < s1.len() ==> g_start(b) < g_start(#[trigger] s1[j])) && s2
                        == s1.insert(k, b);
                assert(s2[k] == b);
                assert(s2.contains(b));
                match aspan {
                    Some(as_) => {
                        let k2 = choose|k2: int|
                            0 <= k2 <= s2.len() && (forall|j: int|
                                0 <= j < k2 ==> g_start(#[trigger] s2[j]) < g_start(
                                    g.piece_spec(as_),
                                )) && (forall|j: int|
                                k2 <= j < s2.len() ==> g_start(g.piece_spec(as_)) < g_start(
                                    #[trigger] s2[j],
                                )) && s3 == s2.insert(k2, g.piece_spec(as_));
                        lemma_insert_retains(s2, k2, g.piece_spec(as_), b);
                    },
                    None => {},
                }
                lemma_insert_retains(s3, mk, mid2, b);
            } else {
                let a = g.piece_spec(aspan.unwrap());
                let k2 = choose|k2: int|
                    0 <= k2 <= s2.len() && (forall|j: int|
                        0 <= j < k2 ==> g_start(#[trigger] s2[j]) < g_start(a)) && (forall|j: int|
                        k2 <= j < s2.len() ==> g_start(a) < g_start(#[trigger] s2[j])) && s3
                        == s2.insert(k2, a);
                assert(s3[k2] == a);
                assert(s3.contains(a));
                lemma_insert_retains(s3, mk, mid2, a);
            }
        }
        let j = choose|j: int| 0 <= j < done.len() && done[j] == piece;
        lemma_covering_index(done, j, p);
        assert(crate::user_grants::grant_provider_at(piece, p) == grant_provider_at(g, p));
    }

    // Every other grant survives the surgery.
    assert forall|e: Grant| cur.contains(e) && e != g implies #[trigger] done.contains(e) by {
        let j0 = choose|j: int| 0 <= j < cur.len() && cur[j] == e;
        if j0 != rk {
            lemma_remove_retains(cur, rk, j0);
        } else {
            assert(false);
        }
        assert(s1.contains(e));
        match bspan {
            Some(bs) => {
                let k = choose|k: int|
                    0 <= k <= s1.len() && (forall|j: int|
                        0 <= j < k ==> g_start(#[trigger] s1[j]) < g_start(g.piece_spec(bs))) && (
                    forall|j: int|
                        k <= j < s1.len() ==> g_start(g.piece_spec(bs)) < g_start(
                            #[trigger] s1[j],
                        )) && s2 == s1.insert(k, g.piece_spec(bs));
                lemma_insert_retains(s1, k, g.piece_spec(bs), e);
            },
            None => {},
        }
        assert(s2.contains(e));
        match aspan {
            Some(as_) => {
                let k = choose|k: int|
                    0 <= k <= s2.len() && (forall|j: int|
                        0 <= j < k ==> g_start(#[trigger] s2[j]) < g_start(g.piece_spec(as_))) && (
                    forall|j: int|
                        k <= j < s2.len() ==> g_start(g.piece_spec(as_)) < g_start(
                            #[trigger] s2[j],
                        )) && s3 == s2.insert(k, g.piece_spec(as_));
                lemma_insert_retains(s2, k, g.piece_spec(as_), e);
            },
            None => {},
        }
        assert(s3.contains(e));
        lemma_insert_retains(s3, mk, mid2, e);
    }
}

/// Taking one grant out and putting back only its pieces outside an
/// inner span uncovers exactly the grant's overlap with that span,
/// leaves every other page's state alone, and keeps every other
/// grant.
#[verifier::rlimit(100)]
pub proof fn lemma_remove_keep_outside(
    cur: Seq<Grant>,
    rk: int,
    g: Grant,
    inter: PageSpan,
    s1: Seq<Grant>,
    s2: Seq<Grant>,
    done: Seq<Grant>,
)
    requires
        grants_wf(cur),
        0 <= rk < cur.len(),
        cur[rk] == g,
        g_start(g) <= inter.start_spec(),
        inter.end_spec() <= g_end(g),
        inter.count > 0,
        s1 == cur.remove(rk),
        match g.span_spec().before(inter) {
            Some(bs) => grants_insert_rel(s1, s2, g.piece_spec(bs)),
            None => s2 == s1,
        },
        match g.span_spec().after(inter) {
            Some(as_) => grants_insert_rel(s2, done, g.piece_spec(as_)),
            None => done == s2,
        },
        grants_wf(s1),
        grants_wf(s2),
        grants_wf(done),
    ensures
        forall|p: int|
            grants_cover(done, p) <==> grants_cover(cur, p) && !inter.contains_spec(p),
        forall|p: int|
            !grant_contains(g, p) ==> #[trigger] page_state(done, p) == page_state(cur, p),
        forall|p: int|
            grant_contains(g, p) && !inter.contains_spec(p) ==> #[trigger] page_state(done, p)
                == Some((g.info.flags, grant_provider_at(g, p))),
        forall|e: Grant| cur.contains(e) && e != g ==> #[trigger] done.contains(e),
        forall|e: Grant|
            #[trigger] done.contains(e) <==> ((cur.contains(e) && e != g) || (
            g.span_spec().before(inter) matches Some(bs) && e == g.piece_spec(bs)) || (
            g.span_spec().after(inter) matches Some(as_) && e == g.piece_spec(as_))),
{
    let bspan = g.span_spec().before(inter);
    let aspan = g.span_spec().after(inter);
    assert forall|p: int| true implies (grants_cover(s1, p) <==> grants_cover(cur, p)
        && !grant_contains(g, p)) by {
        lemma_cover_remove(cur, rk, p);
    }
    // Element-level characterization of each step.
    assert forall|e: Grant| true implies (#[trigger] s1.contains(e) <==> (cur.contains(e) && e
        != g)) by {
        lemma_remove_unique_contains(cur, rk, e);
    }
    assert forall|e: Grant| true implies (#[trigger] s2.contains(e) <==> (s1.contains(e) || (
    bspan matches Some(bs) && e == g.piece_spec(bs)))) by {
        match bspan {
            Some(bs) => {
                let b = g.piece_spec(bs);
                let k = choose|k: int|
                    0 <= k <= s1.len() && (forall|j: int|
                        0 <= j < k ==> g_start(#[trigger] s1[j]) < g_start(b)) && (forall|j: int|
                        k <= j < s1.len() ==> g_start(b) < g_start(#[trigger] s1[j])) && s2
                        == s1.insert(k, b);
                lemma_insert_contains(s1, k, b, e);
            },
            None => {},
        }
    }
    assert forall|e: Grant| true implies (#[trigger] done.contains(e) <==> (s2.contains(e) || (
    aspan matches Some(as_) && e == g.piece_spec(as_)))) by {
        match aspan {
            Some(as_) => {
                let a = g.piece_spec(as_);
                let k = choose|k: int|
                    0 <= k <= s2.len() && (forall|j: int|
                        0 <= j < k ==> g_start(#[trigger] s2[j]) < g_start(a)) && (forall|j: int|
                        k <= j < s2.len() ==> g_start(a) < g_start(#[trigger] s2[j])) && done
                        == s2.insert(k, a);
                lemma_insert_contains(s2, k, a, e);
            },
            None => {},
        }
    }
    if bspan is Some {
        let bs = bspan.unwrap();
        let b = g.piece_spec(bs);
        let k = choose|k: int|
            0 <= k <= s1.len() && (forall|j: int|
                0 <= j < k ==> g_start(#[trigger] s1[j]) < g_start(b)) && (forall|j: int|
                k <= j < s1.len() ==> g_start(b) < g_start(#[trigger] s1[j])) && s2 == s1.insert(
                k,
                b,
            );
        assert forall|p: int| true implies (grants_cover(s2, p) <==> grants_cover(s1, p)
            || grant_contains(b, p)) by {
            lemma_cover_insert(s1, k, b, p);
        }
        assert forall|p: int| grants_cover(s1, p) implies page_state(s2, p) == page_state(
            s1,
            p,
        ) by {
            lemma_at_insert(s1, k, b, p);
        }
        assert(s2[k] == b);
        assert(s2.contains(b));
    }
    if aspan is Some {
        let as_ = aspan.unwrap();
        let a = g.piece_spec(as_);
        let k = choose|k: int|
            0 <= k <= s2.len() && (forall|j: int|
                0 <= j < k ==> g_start(#[trigger] s2[j]) < g_start(a)) && (forall|j: int|
                k <= j < s2.len() ==> g_start(a) < g_start(#[trigger] s2[j])) && done == s2.insert(
                k,
                a,
            );
        assert forall|p: int| true implies (grants_cover(done, p) <==> grants_cover(s2, p)
            || grant_contains(a, p)) by {
            lemma_cover_insert(s2, k, a, p);
        }
        assert forall|p: int| grants_cover(s2, p) implies page_state(done, p) == page_state(
            s2,
            p,
        ) by {
            lemma_at_insert(s2, k, a, p);
        }
        assert(done[k] == a);
        assert(done.contains(a));
    }

    assert forall|p: int| true implies (grants_cover(done, p) <==> grants_cover(cur, p)
        && !inter.contains_spec(p)) by {
        if grant_contains(g, p) && !inter.contains_spec(p) {
            if p < inter.start_spec() {
                assert(bspan matches Some(bs) && grant_contains(g.piece_spec(bs), p));
            } else {
                assert(aspan matches Some(as_) && grant_contains(g.piece_spec(as_), p));
            }
        }
        if inter.contains_spec(p) {
            assert(grant_contains(g, p));
            match bspan {
                Some(bs) => {
                    assert(!grant_contains(g.piece_spec(bs), p));
                },
                None => {},
            }
            match aspan {
                Some(as_) => {
                    assert(!grant_contains(g.piece_spec(as_), p));
                },
                None => {},
            }
        }
    }

    assert forall|p: int| !grant_contains(g, p) implies #[trigger] page_state(done, p)
        == page_state(cur, p) by {
        if grants_cover(cur, p) {
            lemma_at_remove(cur, rk, p);
        }
    }

    assert forall|p: int|
        grant_contains(g, p) && !inter.contains_spec(p) implies #[trigger] page_state(done, p)
        == Some((g.info.flags, grant_provider_at(g, p))) by {
        let piece = if p < inter.start_spec() {
            g.piece_spec(bspan.unwrap())
        } else {
            g.piece_spec(aspan.unwrap())
        };
        assert(grant_contains(piece, p));
        assert(done.contains(piece)) by {
            if p < inter.start_spec() {
                let b = g.piece_spec(bspan.unwrap());
                assert(s2.contains(b));
                match aspan {
                    Some(as_) => {
                        let k = choose|k: int|
                            0 <= k <= s2.len() && (forall|j: int|
                                0 <= j < k ==> g_start(#[trigger] s2[j]) < g_start(
                                    g.piece_spec(as_),
                                )) && (forall|j: int|
                                k <= j < s2.len() ==> g_start(g.piece_spec(as_)) < g_start(
                                    #[trigger] s2[j],
                                )) && done == s2.insert(k, g.piece_spec(as_));
                        lemma_insert_retains(s2, k, g.piece_spec(as_), b);
                    },
                    None => {},
                }
            }
        }
        let j = choose|j: int| 0 <= j < done.len() && done[j] == piece;
        lemma_covering_index(done, j, p);
        assert(grant_provider_at(piece, p) == grant_provider_at(g, p));
    }

    assert forall|e: Grant| cur.contains(e) && e != g implies #[trigger] done.contains(e) by {
        let j0 = choose|j: int| 0 <= j < cur.len() && cur[j] == e;
        assert(j0 != rk);
        lemma_remove_retains(cur, rk, j0);
        match bspan {
            Some(bs) => {
                let k = choose|k: int|
                    0 <= k <= s1.len() && (forall|j: int|
                        0 <= j < k ==> g_start(#[trigger] s1[j]) < g_start(g.piece_spec(bs))) && (
                    forall|j: int|
                        k <= j < s1.len() ==> g_start(g.piece_spec(bs)) < g_start(
                            #[trigger] s1[j],
                        )) && s2 == s1.insert(k, g.piece_spec(bs));
                lemma_insert_retains(s1, k, g.piece_spec(bs), e);
            },
            None => {},
        }
        assert(s2.contains(e));
        match aspan {
            Some(as_) => {
                let k = choose|k: int|
                    0 <= k <= s2.len() && (forall|j: int|
                        0 <= j < k ==> g_start(#[trigger] s2[j]) < g_start(g.piece_spec(as_))) && (
                    forall|j: int|
                        k <= j < s2.len() ==> g_start(g.piece_spec(as_)) < g_start(
                            #[trigger] s2[j],
                        )) && done == s2.insert(k, g.piece_spec(as_));
                lemma_insert_retains(s2, k, g.piece_spec(as_), e);
            },
            None => {},
        }
    }
}

/// The sorted-insertion relation: `post` is `pre` with the grant at
/// the position its base orders it to.
pub open spec fn grants_insert_rel(pre: Seq<Grant>, post: Seq<Grant>, grant: Grant) -> bool {
    exists|k: int|
        0 <= k <= pre.len() && (forall|j: int|
            0 <= j < k ==> g_start(#[trigger] pre[j]) < g_start(grant)) && (forall|j: int|
            k <= j < pre.len() ==> g_start(grant) < g_start(#[trigger] pre[j])) && post
            == pre.insert(k, grant)
}

/// What `UserGrants::insert` does: the grant is placed at its sorted
/// position, and the hole that held its span is split or shrunk.
pub open spec fn insert_post(pre: UserGrants, post: UserGrants, grant: Grant) -> bool {
    &&& post.wf()
    &&& post.funmap_seq() == pre.funmap_seq()
    &&& grants_insert_rel(pre.grants_seq(), post.grants_seq(), grant)
    &&& exists|i: int|
        0 <= i < pre.holes_seq().len() && hole_contains(pre.holes_seq()[i], g_start(grant))
            && g_end(grant) <= pre.holes_seq()[i].start + pre.holes_seq()[i].count
            && post.holes_seq() == reserve_splice(
            pre.holes_seq(),
            i,
            g_start(grant),
            grant.info.page_count as int,
        )
    &&& forall|p: int|
        grants_cover(post.grants_seq(), p) <==> grants_cover(pre.grants_seq(), p)
            || grant_contains(grant, p)
}

/// What `UserGrants::remove` does: nothing when no grant has the given
/// base; otherwise that grant leaves the list and its span is given
/// back to the hole map, coalesced with its neighbours.
pub open spec fn remove_post(pre: UserGrants, post: UserGrants, base: Page, r: Option<
    Grant,
>) -> bool {
    &&& post.funmap_seq() == pre.funmap_seq()
    &&& (r.is_some() <==> exists|k: int|
        0 <= k < pre.grants_seq().len() && g_start(#[trigger] pre.grants_seq()[k]) == base.number)
    &&& (r is None ==> post == pre)
    &&& (r matches Some(g) ==> g.base == base && exists|k: int|
        0 <= k < pre.grants_seq().len() && pre.grants_seq()[k] == g && post.grants_seq()
            == pre.grants_seq().remove(k))
    &&& (r matches Some(g) ==> exists|j: int|
        0 <= j <= pre.holes_seq().len() && (forall|a: int|
            0 <= a < j ==> (#[trigger] pre.holes_seq()[a]).start < g_start(g)) && (forall|a: int|
            j <= a < pre.holes_seq().len() ==> g_start(g) < (
            #[trigger] pre.holes_seq()[a]).start) && post.holes_seq() == unreserve_splice(
            pre.holes_seq(),
            j,
            g_start(g),
            g.info.page_count as int,
        ))
    &&& (r matches Some(g) ==> forall|p: int|
        grants_cover(post.grants_seq(), p) <==> grants_cover(pre.grants_seq(), p)
            && !grant_contains(g, p))
}

/// Inserting a grant and then removing it by its base restores the
/// collection exactly: the grant list, the hole map (splits undone,
/// neighbours re-coalesced) and the `funmap` table are all equal to
/// what they were before.
#[verifier::rlimit(100)]
pub proof fn lemma_insert_remove_restores(
    pre: UserGrants,
    mid: UserGrants,
    post: UserGrants,
    grant: Grant,
    r: Option<Grant>,
)
    requires
        pre.wf(),
        grant_valid(grant),
        forall|p: int| grant_contains(grant, p) ==> !grants_cover(pre.grants_seq(), p),
        insert_post(pre, mid, grant),
        remove_post(mid, post, grant.base, r),
    ensures
        r == Some(grant),
        post.grants_seq() == pre.grants_seq(),
        post.holes_seq() == pre.holes_seq(),
        post.funmap_seq() == pre.funmap_seq(),
{
    let s0 = pre.grants_seq();
    let hs0 = pre.holes_seq();
    let b = g_start(grant);
    let c = grant.info.page_count as int;
    let k = choose|k: int|
        0 <= k <= s0.len() && (forall|j: int| 0 <= j < k ==> g_start(#[trigger] s0[j]) < b) && (
        forall|j: int| k <= j < s0.len() ==> b < g_start(#[trigger] s0[j])) && mid.grants_seq()
            == s0.insert(k, grant);
    let i = choose|i: int|
        0 <= i < hs0.len() && hole_contains(hs0[i], b) && g_end(grant) <= hs0[i].start
            + hs0[i].count && mid.holes_seq() == reserve_splice(hs0, i, b, c);
    let s1 = mid.grants_seq();
    let hs1 = mid.holes_seq();

    // The grant sits at index `k` of the intermediate list, so the
    // removal finds it, and only it, at that base.
    assert(s1[k] == grant);
    assert(g_start(s1[k]) == grant.base.number);
    assert(r.is_some());
    let g2 = r.unwrap();
    let k2 = choose|k2: int|
        0 <= k2 < s1.len() && s1[k2] == g2 && post.grants_seq() == s1.remove(k2);
    if k2 != k {
        assert(grants_wf(s1));
        if k2 < k {
            lemma_grants_sorted(s1, k2, k);
        } else {
            lemma_grants_sorted(s1, k, k2);
        }
        assert(g_start(s1[k2]) == b);
        assert(false);
    }
    assert(g2 == grant);
    assert(post.grants_seq() =~= s0);

    // The hole splice is undone: the freed span coalesces with the
    // left and right fragments of the original hole.
    let h = hs0[i];
    let left = Hole { start: h.start, count: (b - h.start) as usize };
    let right = Hole { start: (b + c) as usize, count: (h.start + h.count - (b + c)) as usize };
    let l: int = if left.count > 0 {
        1
    } else {
        0
    };
    let rr: int = if right.count > 0 {
        1
    } else {
        0
    };
    assert(hs1.len() == hs0.len() - 1 + l + rr);
    assert(forall|a: int| 0 <= a < i ==> hs1[a] == hs0[a]);
    assert(l == 1 ==> hs1[i] == left);
    assert(rr == 1 ==> hs1[i + l] == right);
    assert(forall|a: int| i + l + rr <= a < hs1.len() ==> hs1[a] == hs0[a + 1 - l - rr]);

    let j = choose|j: int|
        0 <= j <= hs1.len() && (forall|a: int| 0 <= a < j ==> (#[trigger] hs1[a]).start < b) && (
        forall|a: int| j <= a < hs1.len() ==> b < (#[trigger] hs1[a]).start) && post.holes_seq()
            == unreserve_splice(hs1, j, b, c);
    // The removal position is exactly after the left fragment.
    let jstar = i + l;
    assert forall|a: int| 0 <= a < jstar implies (#[trigger] hs1[a]).start < b by {
        if a < i {
            assert(hs1[a] == hs0[a]);
            lemma_holes_sorted(hs0, a, i);
        } else {
            assert(hs1[a] == left);
        }
    }
    assert forall|a: int| jstar <= a < hs1.len() implies b < (#[trigger] hs1[a]).start by {
        if rr == 1 && a == i + l {
            assert(hs1[a] == right);
        } else {
            assert(a >= i + l + rr);
            assert(hs1[a] == hs0[a + 1 - l - rr]);
            lemma_holes_sorted(hs0, i, a + 1 - l - rr);
        }
    }
    if j < jstar {
        assert(hs1[j].start < b && b < hs1[j].start);
        assert(false);
    }
    if j > jstar {
        assert(hs1[jstar].start < b && b < hs1[jstar].start);
        assert(false);
    }
    assert(j == jstar);

    let merge_left = j > 0 && hs1[j - 1].start + hs1[j - 1].count == b;
    let merge_right = j < hs1.len() && b + c == hs1[j].start;
    if l == 1 {
        assert(hs1[j - 1] == left);
        assert(left.start + left.count == b);
        assert(merge_left);
    } else {
        if j > 0 {
            assert(hs1[j - 1] == hs0[i - 1]);
            assert(hs0[i - 1].start + hs0[i - 1].count < hs0[i].start);
            assert(hs0[i].start == b);
            assert(!merge_left);
        }
    }
    if rr == 1 {
        assert(hs1[j] == right);
        assert(merge_right);
    } else {
        if j < hs1.len() {
            assert(hs1[j] == hs0[i + 1]);
            assert(hs0[i].start + hs0[i].count < hs0[i + 1].start);
            assert(b + c == hs0[i].start + hs0[i].count);
            assert(!merge_right);
        }
    }
    assert(post.holes_seq() == unreserve_splice(hs1, j, b, c));
    if l == 1 && rr == 1 {
        assert(post.holes_seq() =~= hs0);
    } else if l == 1 {
        assert(post.holes_seq() =~= hs0);
    } else if rr == 1 {
        assert(post.holes_seq() =~= hs0);
    } else {
        assert(post.holes_seq() =~= hs0);
    }
}

/// The collection of grants of one address space, with the dual map of
/// holes and the auxiliary `funmap` correlation table.
pub struct UserGrants {
    inner: Vec<Grant>,
    holes: Vec<Hole>,
    /// Auxiliary mapping used by schemes to correlate fmap addresses;
    /// opaque to the core algorithms.
    pub funmap: Vec<(Page, (usize, Page))>,
}

impl UserGrants {
    /// The grants, sorted by base page.
    pub closed spec fn grants_seq(self) -> Seq<Grant> {
        self.inner@
    }

    /// The holes, sorted by start page.
    pub closed spec fn holes_seq(self) -> Seq<Hole> {
        self.holes@
    }

    /// The `funmap` entries, in insertion order.
    pub closed spec fn funmap_seq(self) -> Seq<(Page, (usize, Page))> {
        self.funmap@
    }

    /// The master invariant.
    pub open spec fn wf(self) -> bool {
        &&& grants_wf(self.grants_seq())
        &&& holes_wf(self.holes_seq())
        &&& duality(self.grants_seq(), self.holes_seq())
    }

    /// An empty collection: no grants, one hole spanning the whole user
    /// address space.
    pub fn new() -> (r: UserGrants)
        ensures
            r.wf(),
            r.grants_seq() == Seq::<Grant>::empty(),
            r.holes_seq() == seq![Hole { start: 0, count: USER_END_PAGE }],
            r.funmap_seq() == Seq::<(Page, (usize, Page))>::empty(),
    {
        let mut holes: Vec<Hole> = Vec::new();
        holes.push(Hole { start: 0, count: USER_END_PAGE });
        let r = UserGrants { inner: Vec::new(), holes, funmap: Vec::new() };
        proof {
            assert(r.holes_seq() =~= seq![Hole { start: 0, count: USER_END_PAGE }]);
            assert forall|p: int| 0 <= p < USER_END_PAGE implies !grants_cover(r.grants_seq(), p)
                && holes_cover(r.holes_seq(), p) by {
                assert(hole_contains(r.holes_seq()[0], p));
            }
        }
        r
    }

    /// Whether no grant exists.
    pub fn is_empty(&self) -> (r: bool)
        ensures
            r == (self.grants_seq().len() == 0),
    {
        self.inner.len() == 0
    }

    /// The grants, in ascending base order.
    pub fn iter(&self) -> (r: Vec<(Page, GrantInfo)>)
        ensures
            r.len() == self.grants_seq().len(),
            forall|i: int| 0 <= i < r.len() ==> #[trigger] r[i] == (
                self.grants_seq()[i].base,
                self.grants_seq()[i].info,
            ),
    {
        let mut r: Vec<(Page, GrantInfo)> = Vec::new();
        let mut i: usize = 0;
        while i < self.inner.len()
            invariant
                i <= self.inner.len(),
                r.len() == i,
                forall|j: int| 0 <= j < i ==> #[trigger] r[j] == (
                    self.inner@[j].base,
                    self.inner@[j].info,
                ),
            decreases self.inner.len() - i,
        {
            let g = self.inner[i];
            r.push((g.base, g.info));
            i = i + 1;
        }
        r
    }

    /// The grants, consumed, in ascending base order.
    pub fn into_iter(self) -> (r: Vec<Grant>)
        ensures
            r@ == self.grants_seq(),
    {
        let UserGrants { inner, holes: _, funmap: _ } = self;
        inner
    }

    /// The holes, in ascending order, as `(start address, size)` pairs
    /// in bytes.
    pub fn holes(&self) -> (r: Vec<(usize, usize)>)
        requires
            holes_wf(self.holes_seq()),
        ensures
            r.len() == self.holes_seq().len(),
            forall|i: int| 0 <= i < r.len() ==> #[trigger] r[i] == (
                (self.holes_seq()[i].start * PAGE_SIZE) as usize,
                (self.holes_seq()[i].count * PAGE_SIZE) as usize,
            ),
    {
        let mut r: Vec<(usize, usize)> = Vec::new();
        let mut i: usize = 0;
        while i < self.holes.len()
            invariant
                holes_wf(self.holes@),
                i <= self.holes.len(),
                r.len() == i,
                forall|j: int| 0 <= j < i ==> #[trigger] r[j] == (
                    (self.holes@[j].start * PAGE_SIZE) as usize,
                    (self.holes@[j].count * PAGE_SIZE) as usize,
                ),
            decreases self.holes.len() - i,
        {
            let h = self.holes[i];
            proof {
                assert(h.start + h.count <= USER_END_PAGE);
                assert(h.start * PAGE_SIZE + h.count * PAGE_SIZE <= USER_END_PAGE * PAGE_SIZE)
                    by (nonlinear_arith)
                    requires
                        h.start + h.count <= USER_END_PAGE,
                        PAGE_SIZE > 0,
                ;
            }
            r.push((h.start * PAGE_SIZE, h.count * PAGE_SIZE));
            i = i + 1;
        }
        r
    }

    /// Find the index of the grant that covers `page`, if any.
    fn contains_index(&self, page: Page) -> (r: Option<usize>)
        requires
            grants_wf(self.grants_seq()),
        ensures
            match r {
                Some(i) => i < self.grants_seq().len() && grant_contains(
                    self.grants_seq()[i as int],
                    page.number as int,
                ),
                None => !grants_cover(self.grants_seq(), page.number as int),
            },
    {
        let mut i: usize = 0;
        while i < self.inner.len()
            invariant
                grants_wf(self.inner@),
                i <= self.inner.len(),
                forall|j: int| 0 <= j < i ==> !grant_contains(self.inner@[j], page.number as int),
            decreases self.inner.len() - i,
        {
            let g = self.inner[i];
            if g.base.number <= page.number && page.number - g.base.number < g.info.page_count {
                return Some(i);
            }
            i = i + 1;
        }
        None
    }

    /// All grants that occupy some part of the requested span, in
    /// ascending base order.
    pub fn conflicts(&self, span: PageSpan) -> (r: Vec<(Page, GrantInfo)>)
        requires
            grants_wf(self.grants_seq()),
            span.wf(),
        ensures
            r.len() == conflicts_spec(self.grants_seq(), span).len(),
            forall|j: int| 0 <= j < r.len() ==> #[trigger] r[j] == (
                conflicts_spec(self.grants_seq(), span)[j].base,
                conflicts_spec(self.grants_seq(), span)[j].info,
            ),
    {
        let ghost s = self.grants_seq();
        let mut r: Vec<(Page, GrantInfo)> = Vec::new();
        let mut i: usize = 0;
        while i < self.inner.len()
            invariant
                grants_wf(s),
                span.wf(),
                s == self.inner@,
                i <= self.inner.len(),
                r.len() == conflicts_spec(s.take(i as int), span).len(),
                forall|j: int| 0 <= j < r.len() ==> #[trigger] r[j] == (
                    conflicts_spec(s.take(i as int), span)[j].base,
                    conflicts_spec(s.take(i as int), span)[j].info,
                ),
            decreases self.inner.len() - i,
        {
            let g = self.inner[i];
            proof {
                assert(s.take(i + 1).drop_last() =~= s.take(i as int));
                assert(s.take(i + 1).last() == s[i as int]);
            }
            if g.span().intersects(span) {
                r.push((g.base, g.info));
            }
            i = i + 1;
        }
        proof {
            assert(s.take(s.len() as int) =~= s);
        }
        r
    }

    /// Record a grant. The caller must have made sure that the grant
    /// conflicts with no existing grant; the hole it occupies is split
    /// or shrunk accordingly. Merging of adjacent identical grants is
    /// deliberately not performed.
    pub fn insert(&mut self, grant: Grant)
        requires
            old(self).wf(),
            grant_valid(grant),
            forall|p: int| grant_contains(grant, p) ==> !grants_cover(old(self).grants_seq(), p),
        ensures
            final(self).wf(),
            insert_post(*old(self), *final(self), grant),
    {
        let ghost s = self.inner@;
        let ghost hs = self.holes@;
        let start = grant.base.number;
        let count = grant.info.page_count;

        proof {
            assert(grant_contains(grant, start as int));
            assert forall|p: int| start <= p < start + count implies holes_cover(hs, p) by {
                assert(grant_contains(grant, p));
            }
            assert(holes_cover(hs, start as int));
        }

        // Find the hole that contains the new grant's first page; by
        // duality and the absence of conflicts it exists and, being
        // maximal, holds the whole span.
        let mut i: usize = 0;
        while i < self.holes.len() && !(self.holes[i].start <= start && start - self.holes[i].start
            < self.holes[i].count)
            invariant
                holes_wf(hs),
                hs == self.holes@,
                i <= hs.len(),
                forall|j: int| 0 <= j < i ==> !hole_contains(#[trigger] hs[j], start as int),
            decreases hs.len() - i,
        {
            i = i + 1;
        }
        proof {
            if i == hs.len() {
                let j = choose|j: int|
                    0 <= j < hs.len() && hole_contains(#[trigger] hs[j], start as int);
                assert(false);
            }
        }
        let ghost hi = i as int;
        let h = self.holes[i];
        proof {
            assert(hole_contains(hs[hi], start as int));
            lemma_span_in_hole(hs, hi, start as int, count as int);
        }

        // Split or shrink the hole.
        let left_count = start - h.start;
        let right_start = start + count;
        let right_count = h.start + h.count - right_start;
        self.holes.remove(i);
        if right_count > 0 {
            self.holes.insert(i, Hole { start: right_start, count: right_count });
        }
        if left_count > 0 {
            self.holes.insert(i, Hole { start: h.start, count: left_count });
        }
        proof {
            assert(self.holes@ =~= reserve_splice(hs, hi, start as int, count as int));
            lemma_reserve(hs, hi, start as int, count as int);
        }

        // Find the insertion position among the sorted grants.
        let mut k: usize = 0;
        while k < self.inner.len() && self.inner[k].base.number < start
            invariant
                grants_wf(s),
                s == self.inner@,
                k <= s.len(),
                forall|j: int| 0 <= j < k ==> g_start(#[trigger] s[j]) < start,
            decreases self.inner.len() - k,
        {
            k = k + 1;
        }
        proof {
            if k < s.len() {
                if g_start(s[k as int]) == start {
                    assert(grant_contains(s[k as int], start as int));
                    assert(grants_cover(s, start as int));
                    assert(false);
                }
            }
            assert forall|j: int| k <= j < s.len() implies start < g_start(#[trigger] s[j]) by {
                if j > k {
                    lemma_grants_sorted(s, k as int, j);
                }
                if g_start(s[j]) <= start {
                    assert(grant_contains(s[j], start as int));
                    assert(grants_cover(s, start as int));
                }
            }
        }
        self.inner.insert(k, grant);
        proof {
            let t = self.inner@;
            assert(t == s.insert(k as int, grant));
            // Sortedness around the insertion point.
            assert forall|a: int| 0 <= a && a + 1 < t.len() implies g_end(t[a]) <= g_start(
                #[trigger] t[a + 1],
            ) by {
                if a + 1 < k {
                    assert(t[a] == s[a] && t[a + 1] == s[a + 1]);
                } else if a + 1 == k {
                    assert(t[a] == s[a] && t[a + 1] == grant);
                    if g_end(s[a]) > start {
                        assert(grant_contains(s[a], start as int));
                        assert(grants_cover(s, start as int));
                    }
                } else if a == k {
                    assert(t[a] == grant && t[a + 1] == s[a]);
                    if g_end(grant) > g_start(s[a]) {
                        assert(grant_contains(grant, g_start(s[a])));
                        assert(grant_contains(s[a], g_start(s[a])));
                        assert(grants_cover(s, g_start(s[a])));
                    }
                } else {
                    assert(t[a] == s[a - 1] && t[a + 1] == s[a]);
                    assert(g_end(s[a - 1]) <= g_start(s[(a - 1) + 1]));
                }
            }
            assert forall|a: int| 0 <= a < t.len() implies grant_valid(#[trigger] t[a]) by {
                if a < k {
                    assert(t[a] == s[a]);
                } else if a == k {
                } else {
                    assert(t[a] == s[a - 1]);
                }
            }
            // Cover characterization and duality.
            assert forall|p: int|
                grants_cover(t, p) <==> grants_cover(s, p) || grant_contains(grant, p) by {
                lemma_cover_insert(s, k as int, grant, p);
            }
            assert forall|p: int| 0 <= p < USER_END_PAGE implies (grants_cover(t, p)
                <==> !holes_cover(self.holes@, p)) by {
                assert(grants_cover(t, p) <==> grants_cover(s, p) || grant_contains(grant, p));
            }
        }
    }

    /// Take out the grant whose base is exactly `base`, if any, and
    /// coalesce the freed span with any adjacent hole on either side
    /// into one hole.
    pub fn remove(&mut self, base: Page) -> (r: Option<Grant>)
        requires
            old(self).wf(),
        ensures
            final(self).wf(),
            remove_post(*old(self), *final(self), base, r),
    {
        let ghost s = self.inner@;
        let ghost hs = self.holes@;

        // Find the grant with this exact base.
        let mut k: usize = 0;
        while k < self.inner.len() && self.inner[k].base.number != base.number
            invariant
                s == self.inner@,
                k <= s.len(),
                forall|a: int| 0 <= a < k ==> g_start(#[trigger] s[a]) != base.number,
            decreases self.inner.len() - k,
        {
            k = k + 1;
        }
        if k >= self.inner.len() {
            return None;
        }
        let g = self.inner.remove(k);
        proof {
            assert(g == s[k as int]);
            assert(self.inner@ == s.remove(k as int));
            let t = self.inner@;
            assert forall|a: int| 0 <= a && a + 1 < t.len() implies g_end(t[a]) <= g_start(
                #[trigger] t[a + 1],
            ) by {
                if a + 1 < k {
                    assert(t[a] == s[a] && t[a + 1] == s[a + 1]);
                } else if a + 1 == k {
                    assert(t[a] == s[a] && t[a + 1] == s[a + 1 + 1]);
                    lemma_grants_sorted(s, a, a + 2);
                } else {
                    assert(t[a] == s[a + 1] && t[a + 1] == s[a + 2]);
                    assert(g_end(s[a + 1]) <= g_start(s[(a + 1) + 1]));
                }
            }
            assert forall|a: int| 0 <= a < t.len() implies grant_valid(#[trigger] t[a]) by {
                if a < k {
                    assert(t[a] == s[a]);
                } else {
                    assert(t[a] == s[a + 1]);
                }
            }
        }

        // Give the span back to the hole map, coalescing neighbours.
        let start = g.base.number;
        let count = g.info.page_count;
        let mut j: usize = 0;
        while j < self.holes.len() && self.holes[j].start < start
            invariant
                hs == self.holes@,
                j <= hs.len(),
                forall|a: int| 0 <= a < j ==> (#[trigger] hs[a]).start < start,
            decreases self.holes.len() - j,
        {
            j = j + 1;
        }
        proof {
            assert forall|p: int| start <= p < start + count implies !holes_cover(hs, p) by {
                assert(grant_contains(s[k as int], p));
                assert(grants_cover(s, p));
            }
            assert forall|a: int| j <= a < hs.len() implies start < (#[trigger] hs[a]).start by {
                if a > j {
                    lemma_holes_sorted(hs, j as int, a);
                }
                if hs[a].start == start {
                    assert(hole_contains(hs[a], start as int));
                    assert(holes_cover(hs, start as int));
                }
            }
            lemma_unreserve(hs, j as int, start as int, count as int);
        }

        let merge_left = j > 0 && {
            let prev = self.holes[j - 1];
            prev.start + prev.count == start
        };
        let merge_right = j < self.holes.len() && start + count == self.holes[j].start;
        if merge_left && merge_right {
            let prev = self.holes[j - 1];
            let next = self.holes[j];
            self.holes.remove(j);
            self.holes[j - 1] = Hole {
                start: prev.start,
                count: prev.count + count + next.count,
            };
        } else if merge_left {
            let prev = self.holes[j - 1];
            self.holes[j - 1] = Hole { start: prev.start, count: prev.count + count };
        } else if merge_right {
            let next = self.holes[j];
            self.holes[j] = Hole { start, count: count + next.count };
        } else {
            self.holes.insert(j, Hole { start, count });
        }
        proof {
            assert(self.holes@ =~= unreserve_splice(hs, j as int, start as int, count as int));
            assert(self.holes@ == unreserve_splice(hs, j as int, start as int, count as int));
            assert forall|p: int|
                grants_cover(self.inner@, p) <==> grants_cover(s, p) && !grant_contains(
                    g,
                    p,
                ) by {
                lemma_cover_remove(s, k as int, p);
            }
            assert(0 <= j as int <= hs.len() && (forall|a: int|
                0 <= a < j as int ==> (#[trigger] hs[a]).start < g_start(g)) && (forall|a: int|
                j as int <= a < hs.len() ==> g_start(g) < (#[trigger] hs[a]).start)
                && self.holes@ == unreserve_splice(hs, j as int, g_start(g), g.info.page_count as int));
            assert forall|p: int| 0 <= p < USER_END_PAGE implies (grants_cover(self.inner@, p)
                <==> !holes_cover(self.holes@, p)) by {
                assert(grants_cover(self.inner@, p) <==> grants_cover(s, p) && !grant_contains(
                    g,
                    p,
                ));
                assert(holes_cover(self.holes@, p) <==> holes_cover(hs, p) || (start <= p < start
                    + count));
            }
        }
        Some(g)
    }

    /// Return a free span of `page_count` pages: the usable tail of the
    /// first hole that can hold it at or above the byte address `min`.
    /// The bound keeps automatic placement away from the zero page.
    pub fn find_free(&self, min: usize, page_count: usize) -> (r: Option<PageSpan>)
        requires
            holes_wf(self.holes_seq()),
            min % PAGE_SIZE == 0,
        ensures
            find_free_post(self.holes_seq(), (min / PAGE_SIZE) as int, page_count as int, r),
            r matches Some(span) ==> span.wf() && span.base.number >= min / PAGE_SIZE,
    {
        let minp = min / PAGE_SIZE;
        let ghost hs = self.holes@;
        let mut i: usize = 0;
        while i < self.holes.len()
            invariant
                holes_wf(hs),
                hs == self.holes@,
                i <= hs.len(),
                minp == min / PAGE_SIZE,
                forall|a: int| 0 <= a < i ==> !hole_fits(#[trigger] hs[a], minp as int,
                page_count as int),
            decreases self.holes.len() - i,
        {
            let h = self.holes[i];
            let usable_start = if h.start >= minp {
                h.start
            } else {
                minp
            };
            let hole_end = h.start + h.count;
            if usable_start <= hole_end && page_count <= hole_end - usable_start {
                proof {
                    assert(h == hs[i as int]);
                    assert(minp == min / PAGE_SIZE);
                    assert(usable_start as int == fit_start(h, minp as int));
                    assert(usable_start + page_count <= h.start + h.count);
                    assert(hole_fits(hs[i as int], minp as int, page_count as int));
                    assert(hs[i as int].start + hs[i as int].count <= USER_END_PAGE);
                }
                return Some(PageSpan::new(Page::new(usable_start), page_count));
            }
            i = i + 1;
        }
        None
    }

    /// Return a free span, respecting the caller's hinted base address
    /// and placement flags. With no hint this is `find_free`; a free
    /// hinted span is returned as requested; a conflicting hint fails
    /// with `AlreadyExists` under `MAP_FIXED_NOREPLACE`, with
    /// `NotSupported` under `MAP_FIXED` (replacement is out of scope),
    /// and otherwise falls back to `find_free`.
    pub fn find_free_at(&self, min: usize, base: Option<Page>, page_count: usize, flags: MapFlags)
        -> (r: Result<PageSpan, Error>)
        requires
            self.wf(),
            min % PAGE_SIZE == 0,
            base matches Some(b) ==> b.number + page_count <= USER_END_PAGE,
        ensures
            find_free_at_post(
                self.grants_seq(),
                self.holes_seq(),
                (min / PAGE_SIZE) as int,
                base,
                page_count as int,
                flags,
                r,
            ),
            r matches Ok(span) ==> span.wf() && span.count == page_count && forall|p: int|
                span.contains_spec(p) ==> !grants_cover(self.grants_seq(), p),
    {
        let requested_base = match base {
            Some(b) => b,
            None => {
                let r = match self.find_free(min, page_count) {
                    Some(span) => Ok(span),
                    None => Err(Error::NoMemory),
                };
                proof {
                    match r {
                        Ok(span) => lemma_find_free_fits(
                            self.grants_seq(),
                            self.holes@,
                            (min / PAGE_SIZE) as int,
                            span,
                        ),
                        Err(_) => (),
                    }
                }
                return r;
            },
        };

        let requested_span = PageSpan::new(requested_base, page_count);
        let conflicting = self.conflicts(requested_span);
        proof {
            lemma_conflicts_nonempty(self.grants_seq(), requested_span);
        }
        if conflicting.len() > 0 {
            if flags.map_fixed_noreplace {
                return Err(Error::AlreadyExists);
            }
            if flags.map_fixed {
                return Err(Error::NotSupported);
            }
            let r = match self.find_free(min, page_count) {
                Some(span) => Ok(span),
                None => Err(Error::NoMemory),
            };
            proof {
                match r {
                    Ok(span) => lemma_find_free_fits(
                        self.grants_seq(),
                        self.holes@,
                        (min / PAGE_SIZE) as int,
                        span,
                    ),
                    Err(_) => (),
                }
            }
            return r;
        }
        proof {
            assert forall|p: int| requested_span.contains_spec(p) implies !grants_cover(
                self.grants_seq(),
                p,
            ) by {
            }
        }
        Ok(requested_span)
    }

    /// The grant, if any, which occupies the specified page.
    pub fn contains(&self, page: Page) -> (r: Option<(Page, GrantInfo)>)
        requires
            grants_wf(self.grants_seq()),
        ensures
            r.is_some() <==> grants_cover(self.grants_seq(), page.number as int),
            r matches Some((base, info)) ==> exists|i: int|
                0 <= i < self.grants_seq().len() && #[trigger] self.grants_seq()[i] == (Grant {
                    base,
                    info,
                }) && grant_contains(self.grants_seq()[i], page.number as int),
    {
        match self.contains_index(page) {
            Some(i) => {
                let g = self.inner[i];
                proof {
                    assert(self.grants_seq()[i as int] == Grant { base: g.base, info: g.info });
                }
                Some((g.base, g.info))
            },
            None => None,
        }
    }
}

} // verus!
