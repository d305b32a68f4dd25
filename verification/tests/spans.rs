use usermem::page::{Page, PAGE_SIZE, USER_END_OFFSET};
use usermem::span::PageSpan;

#[test]
fn region_collides() {
    assert!(PageSpan::new(Page::new(0), 2).intersects(PageSpan::new(Page::new(0), 1)));
    assert!(PageSpan::new(Page::new(0), 2).intersects(PageSpan::new(Page::new(1), 1)));
    assert!(!PageSpan::new(Page::new(0), 2).intersects(PageSpan::new(Page::new(2), 1)));
    assert!(!PageSpan::new(Page::new(0), 2).intersects(PageSpan::new(Page::new(3), 1)));
}

#[test]
fn intersection_clamps_to_empty() {
    let a = PageSpan::new(Page::new(0), 2);
    let b = PageSpan::new(Page::new(5), 3);
    let i = a.intersection(b);
    assert!(i.is_empty());
}

#[test]
fn intersection_overlap() {
    let a = PageSpan::new(Page::new(2), 6);
    let b = PageSpan::new(Page::new(5), 10);
    let i = a.intersection(b);
    assert_eq!(i.base.number, 5);
    assert_eq!(i.count, 3);
}

#[test]
fn validate_rejects_unaligned() {
    assert!(PageSpan::validate(123, PAGE_SIZE).is_none());
    assert!(PageSpan::validate(PAGE_SIZE, 123).is_none());
}

#[test]
fn validate_rejects_beyond_end() {
    assert!(PageSpan::validate(USER_END_OFFSET - PAGE_SIZE, 2 * PAGE_SIZE).is_none());
    assert!(PageSpan::validate(USER_END_OFFSET - PAGE_SIZE, PAGE_SIZE).is_some());
}

#[test]
fn validate_nonempty_rejects_empty() {
    assert!(PageSpan::validate(2 * PAGE_SIZE, 0).is_some());
    assert!(PageSpan::validate_nonempty(2 * PAGE_SIZE, 0).is_none());
    let span = PageSpan::validate_nonempty(2 * PAGE_SIZE, 3 * PAGE_SIZE).unwrap();
    assert_eq!(span.base.number, 2);
    assert_eq!(span.count, 3);
}

#[test]
fn slice_splits_around_inner() {
    let outer = PageSpan::new(Page::new(10), 10);
    let inner = PageSpan::new(Page::new(13), 4);
    let (before, mid, after) = outer.slice(inner);
    let before = before.unwrap();
    let after = after.unwrap();
    assert_eq!((before.base.number, before.count), (10, 3));
    assert_eq!((mid.base.number, mid.count), (13, 4));
    assert_eq!((after.base.number, after.count), (17, 3));
}

#[test]
fn rebase_keeps_offset() {
    let old = PageSpan::new(Page::new(10), 4);
    let new = PageSpan::new(Page::new(100), 4);
    assert_eq!(old.rebase(new, Page::new(12)).number, 102);
}

#[test]
fn pages_enumerates_in_order() {
    let span = PageSpan::new(Page::new(7), 3);
    let pages = span.pages();
    assert_eq!(pages.len(), 3);
    assert_eq!(pages[0].number, 7);
    assert_eq!(pages[2].number, 9);
}
