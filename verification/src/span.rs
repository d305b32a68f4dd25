//! Half-open spans of virtual pages: `[base, base + count)`.

use vstd::prelude::*;

use crate::page::{Page, PAGE_SIZE, USER_END_OFFSET, USER_END_PAGE};

verus! {

/// A contiguous run of `count` virtual pages starting at `base`.
///
/// The invariant of a well-formed span is that `base + count` does not
/// exceed the user-address ceiling; empty spans (`count == 0`) are
/// permitted as sentinel results of intersection.
#[derive(Clone, Copy, Debug, PartialEq, Eq, Structural)]
pub struct PageSpan {
    pub base: Page,
    pub count: usize,
}

impl PageSpan {
    /// First page index of the span.
    pub open spec fn start_spec(self) -> int {
        self.base.number as int
    }

    /// One past the last page index of the span.
    pub open spec fn end_spec(self) -> int {
        self.base.number + self.count
    }

    /// Whether page index `p` lies inside the span.
    pub open spec fn contains_spec(self, p: int) -> bool {
        self.start_spec() <= p < self.end_spec()
    }

    /// Well-formedness: the span lies below the user-address ceiling.
    pub open spec fn wf(self) -> bool {
        self.end_spec() <= USER_END_PAGE
    }

    /// The span of `count` pages starting at `base`.
    pub fn new(base: Page, count: usize) -> (r: PageSpan)
        ensures
            r == (PageSpan { base, count }),
    {
        PageSpan { base, count }
    }

    /// Like `validate`, but an empty span is rejected too.
    pub fn validate_nonempty(address: usize, size: usize) -> (r: Option<PageSpan>)
        ensures
            r == if address % PAGE_SIZE == 0 && size % PAGE_SIZE == 0
                    && address + size <= USER_END_OFFSET && size != 0 {
                Some(PageSpan {
                    base: Page { number: address / PAGE_SIZE },
                    count: size / PAGE_SIZE,
                })
            } else {
                None::<PageSpan>
            },
    {
        match Self::validate(address, size) {
            Some(span) => {
                proof {
                    vstd::arithmetic::div_mod::lemma_fundamental_div_mod(
                        size as int,
                        PAGE_SIZE as int,
                    );
                }
                if !span.is_empty() {
                    Some(span)
                } else {
                    None
                }
            },
            None => None,
        }
    }

    /// Check a user-supplied address and size: both must be page aligned
    /// and end at or below the user-address ceiling; then the span of
    /// whole pages they describe is returned.
    pub fn validate(address: usize, size: usize) -> (r: Option<PageSpan>)
        ensures
            r == if address % PAGE_SIZE == 0 && size % PAGE_SIZE == 0
                    && address + size <= USER_END_OFFSET {
                Some(PageSpan {
                    base: Page { number: address / PAGE_SIZE },
                    count: size / PAGE_SIZE,
                })
            } else {
                None::<PageSpan>
            },
    {
        if address % PAGE_SIZE != 0 || size % PAGE_SIZE != 0 {
            return None;
        }
        if size > USER_END_OFFSET || address > USER_END_OFFSET - size {
            return None;
        }
        Some(Self::new(Page::containing_address(address), size / PAGE_SIZE))
    }

    /// Whether the span holds no page.
    pub fn is_empty(&self) -> (r: bool)
        ensures
            r == (self.count == 0),
    {
        self.count == 0
    }

    /// The overlap of two spans, as a spec value: from the greater of
    /// the starts to the lesser of the ends, clamped empty when they
    /// are disjoint.
    pub open spec fn inter_spec(self, with: PageSpan) -> PageSpan {
        let start = if self.base.number >= with.base.number {
            self.base.number as int
        } else {
            with.base.number as int
        };
        let end = if self.end_spec() <= with.end_spec() {
            self.end_spec()
        } else {
            with.end_spec()
        };
        PageSpan {
            base: Page { number: start as usize },
            count: if end >= start {
                (end - start) as usize
            } else {
                0
            },
        }
    }

    /// The overlap of two spans: from the greater of the starts to the
    /// lesser of the ends, clamped to an empty span when they are
    /// disjoint.
    pub fn intersection(&self, with: PageSpan) -> (r: PageSpan)
        requires
            self.wf(),
            with.wf(),
        ensures
            r == self.inter_spec(with),
            r.base.number == if self.base.number >= with.base.number {
                self.base.number
            } else {
                with.base.number
            },
            r.end_spec() == if self.end_spec() <= with.end_spec() && !r.is_empty_spec() {
                self.end_spec()
            } else if !r.is_empty_spec() {
                with.end_spec()
            } else {
                r.start_spec()
            },
            forall|p: int| r.contains_spec(p) <==> self.contains_spec(p) && with.contains_spec(p),
            r.wf(),
    {
        let start = if self.base.number >= with.base.number {
            self.base
        } else {
            with.base
        };
        let self_end = self.end();
        let with_end = with.end();
        let end = if self_end.number <= with_end.number {
            self_end
        } else {
            with_end
        };
        Self::between(start, end)
    }

    /// Whether a span is empty, as a spec-level shorthand.
    pub open spec fn is_empty_spec(self) -> bool {
        self.count == 0
    }

    /// Whether two spans share a page.
    pub fn intersects(&self, with: PageSpan) -> (r: bool)
        requires
            self.wf(),
            with.wf(),
        ensures
            r == exists|p: int| self.contains_spec(p) && with.contains_spec(p),
    {
        let inter = self.intersection(with);
        let r = !inter.is_empty();
        proof {
            if r {
                assert(self.contains_spec(inter.start_spec()) && with.contains_spec(
                    inter.start_spec(),
                ));
            }
        }
        r
    }

    /// Whether the span holds the given page.
    pub fn contains(&self, page: Page) -> (r: bool)
        requires
            self.wf(),
            page.number < USER_END_PAGE,
        ensures
            r == self.contains_spec(page.number as int),
    {
        self.intersects(Self::new(page, 1))
    }

    /// Split the span around a fully contained inner span, into the part
    /// before it, the inner span itself, and the part after it.
    pub fn slice(&self, inner_span: PageSpan) -> (r: (Option<PageSpan>, PageSpan, Option<
        PageSpan,
    >))
        requires
            self.wf(),
            self.start_spec() <= inner_span.start_spec(),
            inner_span.end_spec() <= self.end_spec(),
        ensures
            r.0 == self.before(inner_span),
            r.1 == inner_span,
            r.2 == self.after(inner_span),
    {
        (self.before_exec(inner_span), inner_span, self.after_exec(inner_span))
    }

    /// The pages of the span, in ascending order.
    pub fn pages(self) -> (r: Vec<Page>)
        requires
            self.wf(),
        ensures
            r.len() == self.count,
            forall|i: int| 0 <= i < self.count ==> r[i].number == self.base.number + i,
    {
        let mut r: Vec<Page> = Vec::new();
        let mut i: usize = 0;
        while i < self.count
            invariant
                self.wf(),
                i <= self.count,
                r.len() == i,
                forall|j: int| 0 <= j < i ==> r[j].number == self.base.number + j,
            decreases self.count - i,
        {
            r.push(self.base.next_by(i));
            i = i + 1;
        }
        r
    }

    /// One past the last page of the span.
    pub fn end(&self) -> (r: Page)
        requires
            self.base.number + self.count <= usize::MAX,
        ensures
            r.number == self.end_spec(),
    {
        self.base.next_by(self.count)
    }

    /// The span from the start of `self` until the start of `span`, or
    /// `None` when that part is empty.
    pub open spec fn before(self, span: PageSpan) -> Option<PageSpan> {
        if self.start_spec() < span.start_spec() {
            Some(
                PageSpan {
                    base: self.base,
                    count: (span.base.number - self.base.number) as usize,
                },
            )
        } else {
            None
        }
    }

    /// The span from the end of `span` until the end of `self`, or
    /// `None` when that part is empty.
    pub open spec fn after(self, span: PageSpan) -> Option<PageSpan> {
        if span.end_spec() < self.end_spec() {
            Some(
                PageSpan {
                    base: Page { number: (span.base.number + span.count) as usize },
                    count: (self.end_spec() - span.end_spec()) as usize,
                },
            )
        } else {
            None
        }
    }

    /// Executable form of `before`.
    pub fn before_exec(self, span: PageSpan) -> (r: Option<PageSpan>)
        requires
            self.wf(),
            self.start_spec() <= span.start_spec(),
        ensures
            r == self.before(span),
    {
        let r = Self::between(self.base, span.base);
        if r.is_empty() {
            None
        } else {
            Some(r)
        }
    }

    /// Executable form of `after`.
    pub fn after_exec(self, span: PageSpan) -> (r: Option<PageSpan>)
        requires
            self.wf(),
            span.end_spec() <= self.end_spec(),
        ensures
            r == self.after(span),
    {
        let r = Self::between(span.end(), self.end());
        if r.is_empty() {
            None
        } else {
            Some(r)
        }
    }

    /// The span `[start, end)`, truncated to an empty span at `start`
    /// when `end` is below `start`.
    pub fn between(start: Page, end: Page) -> (r: PageSpan)
        ensures
            r.base == start,
            r.count == if start.number <= end.number {
                end.number - start.number
            } else {
                0
            },
    {
        let count = if end.number >= start.number {
            end.number - start.number
        } else {
            0
        };
        Self::new(start, count)
    }

    /// Carry a page at some offset inside `self` over to the same offset
    /// inside `new_base`.
    pub fn rebase(self, new_base: Self, page: Page) -> (r: Page)
        requires
            self.start_spec() <= page.number,
            new_base.base.number + (page.number - self.base.number) <= usize::MAX,
        ensures
            r.number == new_base.base.number + (page.number - self.base.number),
    {
        let offset = page.offset_from(self.base);
        new_base.base.next_by(offset)
    }
}

} // verus!
