use usermem::flags::{MapFlags, PageFlags};
use usermem::grant::{FileDescriptor, Grant, GrantFileRef, GrantInfo, Provider};
use usermem::page::{Page, PAGE_SIZE, USER_END_OFFSET};
use usermem::user_grants::UserGrants;

fn anon_grant(base: usize, count: usize) -> Grant {
    Grant {
        base: Page::new(base),
        info: GrantInfo {
            page_count: count,
            flags: PageFlags::new().user(true).write(true),
            mapped: true,
            provider: Provider::Allocated,
        },
    }
}

#[test]
fn new_grants_have_one_full_hole() {
    let ug = UserGrants::new();
    assert!(ug.is_empty());
    assert_eq!(ug.holes(), vec![(0, USER_END_OFFSET)]);
}

#[test]
fn insert_splits_hole() {
    let mut ug = UserGrants::new();
    ug.insert(anon_grant(5, 2));
    assert_eq!(
        ug.holes(),
        vec![(0, 5 * PAGE_SIZE), (7 * PAGE_SIZE, USER_END_OFFSET - 7 * PAGE_SIZE)]
    );
}

#[test]
fn insert_at_hole_start() {
    let mut ug = UserGrants::new();
    ug.insert(anon_grant(0, 3));
    assert_eq!(ug.holes(), vec![(3 * PAGE_SIZE, USER_END_OFFSET - 3 * PAGE_SIZE)]);
}

#[test]
fn insert_at_hole_end() {
    let mut ug = UserGrants::new();
    let last = USER_END_OFFSET / PAGE_SIZE - 2;
    ug.insert(anon_grant(last, 2));
    assert_eq!(ug.holes(), vec![(0, last * PAGE_SIZE)]);
}

#[test]
fn insert_exactly_fills_hole() {
    let mut ug = UserGrants::new();
    ug.insert(anon_grant(0, 4));
    ug.insert(anon_grant(8, 2));
    // The gap between the two grants is one hole of four pages.
    ug.insert(anon_grant(4, 4));
    assert_eq!(ug.holes(), vec![(10 * PAGE_SIZE, USER_END_OFFSET - 10 * PAGE_SIZE)]);
}

#[test]
fn remove_merges_adjacent_holes() {
    let mut ug = UserGrants::new();
    ug.insert(anon_grant(4, 4));
    let removed = ug.remove(Page::new(4)).unwrap();
    assert_eq!(removed.base.number, 4);
    assert_eq!(removed.info.page_count, 4);
    assert_eq!(ug.holes(), vec![(0, USER_END_OFFSET)]);
    assert!(ug.is_empty());
}

#[test]
fn remove_merges_left_only() {
    let mut ug = UserGrants::new();
    ug.insert(anon_grant(4, 2));
    ug.insert(anon_grant(6, 2));
    ug.remove(Page::new(4)).unwrap();
    assert_eq!(
        ug.holes(),
        vec![(0, 6 * PAGE_SIZE), (8 * PAGE_SIZE, USER_END_OFFSET - 8 * PAGE_SIZE)]
    );
}

#[test]
fn remove_missing_base_is_none() {
    let mut ug = UserGrants::new();
    ug.insert(anon_grant(4, 2));
    assert!(ug.remove(Page::new(5)).is_none());
    assert_eq!(ug.iter().len(), 1);
}

#[test]
fn contains_finds_covering_grant() {
    let mut ug = UserGrants::new();
    ug.insert(anon_grant(4, 3));
    let (base, info) = ug.contains(Page::new(6)).unwrap();
    assert_eq!(base.number, 4);
    assert_eq!(info.page_count, 3);
    assert!(ug.contains(Page::new(7)).is_none());
    assert!(ug.contains(Page::new(3)).is_none());
}

#[test]
fn conflicts_starts_at_covering_grant() {
    let mut ug = UserGrants::new();
    ug.insert(anon_grant(2, 4));
    ug.insert(anon_grant(8, 2));
    ug.insert(anon_grant(20, 1));
    let c = ug.conflicts(usermem::span::PageSpan::new(Page::new(4), 6));
    assert_eq!(c.len(), 2);
    assert_eq!(c[0].0.number, 2);
    assert_eq!(c[1].0.number, 8);
}

#[test]
fn find_free_first_fit_respects_min() {
    let mut ug = UserGrants::new();
    ug.insert(anon_grant(4, 4));
    // Holes: [0,4) and [8, end). With min of one page, the first hole
    // offers pages [1,4).
    let span = ug.find_free(PAGE_SIZE, 3).unwrap();
    assert_eq!(span.base.number, 1);
    let span = ug.find_free(PAGE_SIZE, 4).unwrap();
    assert_eq!(span.base.number, 8);
}

#[test]
fn find_free_at_honours_free_hint() {
    let ug = UserGrants::new();
    let span = ug
        .find_free_at(PAGE_SIZE, Some(Page::new(9)), 2, MapFlags::new())
        .unwrap();
    assert_eq!((span.base.number, span.count), (9, 2));
}

#[test]
fn error_names_are_stable() {
    assert_eq!(usermem::error::Error::NoMemory.as_str(), "out of memory");
    assert_eq!(usermem::error::Error::AccessDenied.as_str(), "access denied");
    assert_eq!(usermem::error::Error::AlreadyExists.as_str(), "already exists");
    assert_eq!(usermem::error::Error::NotSupported.as_str(), "not supported");
    assert_eq!(usermem::error::Error::Invalid.as_str(), "invalid argument");
}

#[test]
fn find_free_at_noreplace_conflict() {
    let mut ug = UserGrants::new();
    ug.insert(anon_grant(9, 2));
    let mut flags = MapFlags::new();
    flags.map_fixed_noreplace = true;
    let r = ug.find_free_at(PAGE_SIZE, Some(Page::new(10)), 2, flags);
    assert_eq!(r, Err(usermem::error::Error::AlreadyExists));
}

#[test]
fn find_free_at_fixed_conflict_unsupported() {
    let mut ug = UserGrants::new();
    ug.insert(anon_grant(9, 2));
    let mut flags = MapFlags::new();
    flags.map_fixed = true;
    let r = ug.find_free_at(PAGE_SIZE, Some(Page::new(10)), 2, flags);
    assert_eq!(r, Err(usermem::error::Error::NotSupported));
}

#[test]
fn extract_shifts_borrowed_bases() {
    let g = Grant {
        base: Page::new(10),
        info: GrantInfo {
            page_count: 8,
            flags: PageFlags::new().user(true),
            mapped: true,
            provider: Provider::PhysBorrowed { base: usermem::page::Frame::new(100) },
        },
    };
    let inner = usermem::span::PageSpan::new(Page::new(13), 2);
    let (before, mid, after) = g.extract(inner).unwrap();
    let before = before.unwrap();
    let after = after.unwrap();
    assert_eq!(before.base.number, 10);
    match before.info.provider {
        Provider::PhysBorrowed { base } => assert_eq!(base.number, 100),
        _ => panic!("wrong provider"),
    }
    match mid.info.provider {
        Provider::PhysBorrowed { base } => assert_eq!(base.number, 103),
        _ => panic!("wrong provider"),
    }
    match after.info.provider {
        Provider::PhysBorrowed { base } => assert_eq!(base.number, 105),
        _ => panic!("wrong provider"),
    }
}

#[test]
fn can_have_flags_on_borrowed_grants() {
    let mut flags = MapFlags::new();
    flags.prot_write = true;
    let info = GrantInfo {
        page_count: 1,
        flags: PageFlags::new().user(true),
        mapped: true,
        provider: Provider::PhysBorrowed { base: usermem::page::Frame::new(7) },
    };
    // Widening write on a borrowed grant is refused.
    assert!(!info.can_have_flags(flags));
    let anon = GrantInfo { provider: Provider::Allocated, ..info };
    assert!(anon.can_have_flags(flags));
}

#[test]
fn fmap_ref_survives_round_trip() {
    let desc = GrantFileRef {
        desc: FileDescriptor { id: 42 },
        offset: 0,
        flags: MapFlags::new(),
    };
    let g = Grant {
        base: Page::new(3),
        info: GrantInfo {
            page_count: 2,
            flags: PageFlags::new().user(true),
            mapped: true,
            provider: Provider::Fmap { desc },
        },
    };
    let mut ug = UserGrants::new();
    ug.insert(g);
    let got = ug.remove(Page::new(3)).unwrap();
    match got.info.provider {
        Provider::Fmap { desc } => assert_eq!(desc.desc.id, 42),
        _ => panic!("wrong provider"),
    }
}
