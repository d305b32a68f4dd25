use usermem::addr_space::{AddrSpace, AddrSpaces, MapSource};
use usermem::error::Error;
use usermem::flags::{AccessMode, MapFlags};
use usermem::frames::FrameInfos;
use usermem::grant::{FileDescriptor, Grant, GrantFileRef, GrantInfo, Provider};
use usermem::page::{Frame, Page, PAGE_SIZE, USER_END_OFFSET};
use usermem::span::PageSpan;

fn prot(read: bool, write: bool, exec: bool) -> MapFlags {
    let mut f = MapFlags::new();
    f.prot_read = read;
    f.prot_write = write;
    f.prot_exec = exec;
    f
}

#[test]
fn mmap_auto_placement_skips_zero_page() {
    let mut space = AddrSpace::new().unwrap();
    let base = space.mmap(None, 2, prot(true, true, false), MapSource::Zeroed).unwrap();
    assert_eq!(base.number * PAGE_SIZE, PAGE_SIZE);
    assert_eq!(
        space.grants.holes(),
        vec![(0, PAGE_SIZE), (3 * PAGE_SIZE, USER_END_OFFSET - 3 * PAGE_SIZE)]
    );
}

#[test]
fn mmap_hint_is_honoured() {
    let mut space = AddrSpace::new().unwrap();
    space.mmap(None, 2, prot(true, true, false), MapSource::Zeroed).unwrap();
    let base = space
        .mmap(Some(Page::new(5)), 1, prot(true, false, false), MapSource::Zeroed)
        .unwrap();
    assert_eq!(base.number * PAGE_SIZE, 5 * PAGE_SIZE);
    let grants = space.grants.iter();
    assert_eq!(grants.len(), 2);
    assert_eq!(grants[0].0.number, 1);
    assert_eq!(grants[1].0.number, 5);
}

#[test]
fn mmap_exhaustion_is_no_memory() {
    let mut space = AddrSpace::new().unwrap();
    let too_many = USER_END_OFFSET / PAGE_SIZE;
    let r = space.mmap(None, too_many, prot(true, true, false), MapSource::Zeroed);
    assert_eq!(r, Err(Error::NoMemory));
}

#[test]
fn mprotect_splits_into_three_grants() {
    let mut space = AddrSpace::new().unwrap();
    // One Allocated grant over [4096, 17*4096).
    space
        .mmap(Some(Page::new(1)), 16, prot(true, true, false), MapSource::Zeroed)
        .unwrap();
    space
        .mprotect(PageSpan::new(Page::new(7), 4), prot(true, false, true))
        .unwrap();
    let grants = space.grants.iter();
    assert_eq!(grants.len(), 3);
    assert_eq!((grants[0].0.number, grants[0].1.page_count), (1, 6));
    assert!(grants[0].1.flags.write && !grants[0].1.flags.execute);
    assert_eq!((grants[1].0.number, grants[1].1.page_count), (7, 4));
    assert!(!grants[1].1.flags.write && grants[1].1.flags.execute);
    assert_eq!((grants[2].0.number, grants[2].1.page_count), (11, 6));
    assert!(grants[2].1.flags.write && !grants[2].1.flags.execute);
}

#[test]
fn mprotect_widening_borrowed_is_denied() {
    let mut space = AddrSpace::new().unwrap();
    space
        .mmap(
            Some(Page::new(1)),
            4,
            prot(true, false, false),
            MapSource::Physmap { base: Frame::new(50) },
        )
        .unwrap();
    let r = space.mprotect(PageSpan::new(Page::new(1), 4), prot(true, true, false));
    assert_eq!(r, Err(Error::AccessDenied));
    // Coverage is intact.
    assert_eq!(space.grants.iter().len(), 1);
}

#[test]
fn mprotect_round_trip_restores_flags() {
    let mut space = AddrSpace::new().unwrap();
    space
        .mmap(Some(Page::new(1)), 16, prot(true, true, false), MapSource::Zeroed)
        .unwrap();
    space
        .mprotect(PageSpan::new(Page::new(7), 4), prot(true, false, true))
        .unwrap();
    space
        .mprotect(PageSpan::new(Page::new(7), 4), prot(true, true, false))
        .unwrap();
    let grants = space.grants.iter();
    // Possibly more grants than at the start, but every page reads RW.
    for (_, info) in grants {
        assert!(info.flags.write && !info.flags.execute);
    }
}

#[test]
fn munmap_leaves_hole_between_grants() {
    let mut space = AddrSpace::new().unwrap();
    let mut frames = FrameInfos::new(8);
    space
        .mmap(Some(Page::new(1)), 16, prot(true, true, false), MapSource::Zeroed)
        .unwrap();
    let notes = space.munmap(PageSpan::new(Page::new(7), 4), &mut frames);
    assert!(notes.is_empty());
    let grants = space.grants.iter();
    assert_eq!(grants.len(), 2);
    assert_eq!((grants[0].0.number, grants[0].1.page_count), (1, 6));
    assert_eq!((grants[1].0.number, grants[1].1.page_count), (11, 6));
    let free = space.grants.find_free(PAGE_SIZE, 4).unwrap();
    assert_eq!(free.base.number * PAGE_SIZE, 7 * 4096);
}

#[test]
fn mmap_munmap_round_trip_restores_state() {
    let mut space = AddrSpace::new().unwrap();
    let mut frames = FrameInfos::new(8);
    let base = space.mmap(None, 3, prot(true, true, false), MapSource::Zeroed).unwrap();
    space.munmap(PageSpan::new(base, 3), &mut frames);
    assert!(space.grants.is_empty());
    assert_eq!(space.grants.holes(), vec![(0, USER_END_OFFSET)]);
    assert_eq!(frames.get_page_info(Frame::new(0)), None);
}

#[test]
fn fault_outside_any_grant_is_segv() {
    let mut set = AddrSpaces::new();
    let mut frames = FrameInfos::new(8);
    let id = set.new_addrspace().unwrap();
    let r = set.try_correcting_page_tables(id, Page::new(33), AccessMode::Read, &mut frames);
    assert_eq!(r, Err(usermem::error::PfError::Segv));
}

#[test]
fn fault_write_on_readonly_grant_is_segv() {
    let mut set = AddrSpaces::new();
    let mut frames = FrameInfos::new(8);
    let id = set.new_addrspace().unwrap();
    set.spaces[id]
        .mmap(Some(Page::new(2)), 1, prot(true, false, false), MapSource::Zeroed)
        .unwrap();
    let r = set.try_correcting_page_tables(id, Page::new(2), AccessMode::Write, &mut frames);
    assert_eq!(r, Err(usermem::error::PfError::Segv));
}

#[test]
fn fault_allocates_zeroed_frame_lazily() {
    let mut set = AddrSpaces::new();
    let mut frames = FrameInfos::new(8);
    let id = set.new_addrspace().unwrap();
    set.spaces[id]
        .mmap(Some(Page::new(2)), 2, prot(true, true, false), MapSource::Zeroed)
        .unwrap();
    assert!(set.spaces[id].table.utable.translate(Page::new(2)).is_none());
    set.try_correcting_page_tables(id, Page::new(2), AccessMode::Write, &mut frames)
        .unwrap();
    let (frame, flags) = set.spaces[id].table.utable.translate(Page::new(2)).unwrap();
    assert!(flags.write);
    let info = frames.get_page_info(frame).unwrap();
    assert_eq!((info.refcount, info.cow_refcount), (1, 1));
}

#[test]
fn fault_oom_when_no_frame_is_free() {
    let mut set = AddrSpaces::new();
    let mut frames = FrameInfos::new(0);
    let id = set.new_addrspace().unwrap();
    set.spaces[id]
        .mmap(Some(Page::new(2)), 1, prot(true, true, false), MapSource::Zeroed)
        .unwrap();
    let r = set.try_correcting_page_tables(id, Page::new(2), AccessMode::Write, &mut frames);
    assert_eq!(r, Err(usermem::error::PfError::Oom));
}

#[test]
fn fork_copies_on_write() {
    let mut set = AddrSpaces::new();
    let mut frames = FrameInfos::new(8);
    let parent = set.new_addrspace().unwrap();
    set.spaces[parent]
        .mmap(Some(Page::new(2)), 1, prot(true, true, false), MapSource::Zeroed)
        .unwrap();
    // Dirty the page: frame F exists with refcount 1.
    set.try_correcting_page_tables(parent, Page::new(2), AccessMode::Write, &mut frames)
        .unwrap();
    let (f, _) = set.spaces[parent].table.utable.translate(Page::new(2)).unwrap();
    let info = frames.get_page_info(f).unwrap();
    assert_eq!((info.refcount, info.cow_refcount), (1, 1));

    let child = set.try_clone(parent, &mut frames).unwrap();

    // Both sides read-only on the shared frame, both counters at two.
    let (pf, pflags) = set.spaces[parent].table.utable.translate(Page::new(2)).unwrap();
    let (cf, cflags) = set.spaces[child].table.utable.translate(Page::new(2)).unwrap();
    assert_eq!(pf, f);
    assert_eq!(cf, f);
    assert!(!pflags.write);
    assert!(!cflags.write);
    let info = frames.get_page_info(f).unwrap();
    assert_eq!((info.refcount, info.cow_refcount), (2, 2));

    // The child writes: the copy breaks.
    set.try_correcting_page_tables(child, Page::new(2), AccessMode::Write, &mut frames)
        .unwrap();
    let (cf2, cflags2) = set.spaces[child].table.utable.translate(Page::new(2)).unwrap();
    assert_ne!(cf2, f);
    assert!(cflags2.write);
    let old_info = frames.get_page_info(f).unwrap();
    assert_eq!((old_info.refcount, old_info.cow_refcount), (1, 1));
    let new_info = frames.get_page_info(cf2).unwrap();
    assert_eq!((new_info.refcount, new_info.cow_refcount), (1, 1));
}

#[test]
fn clone_then_unmap_clone_leaks_nothing() {
    let mut set = AddrSpaces::new();
    let mut frames = FrameInfos::new(8);
    let parent = set.new_addrspace().unwrap();
    set.spaces[parent]
        .mmap(Some(Page::new(2)), 1, prot(true, true, false), MapSource::Zeroed)
        .unwrap();
    set.try_correcting_page_tables(parent, Page::new(2), AccessMode::Write, &mut frames)
        .unwrap();
    let (f, _) = set.spaces[parent].table.utable.translate(Page::new(2)).unwrap();
    let before = frames.get_page_info(f).unwrap();

    let child = set.try_clone(parent, &mut frames).unwrap();
    set.spaces[child].munmap(PageSpan::new(Page::new(2), 1), &mut frames);

    let after = frames.get_page_info(f).unwrap();
    assert_eq!(
        (after.refcount, after.cow_refcount),
        (before.refcount, before.cow_refcount)
    );
}

#[test]
fn borrowed_physical_fault_maps_offset_frame() {
    let mut set = AddrSpaces::new();
    let mut frames = FrameInfos::new(8);
    let a = set.new_addrspace().unwrap();
    let b = set.new_addrspace().unwrap();
    // Space A maps physical frames [100, 104) at page 10.
    set.spaces[a]
        .mmap(
            Some(Page::new(10)),
            4,
            prot(true, true, false),
            MapSource::Physmap { base: Frame::new(100) },
        )
        .unwrap();
    // Space B borrows A's pages [10, 14) at page 20.
    let base = set
        .mmap_multiple(b, a, Page::new(10), Some(Page::new(20)), 4, prot(true, true, false))
        .unwrap();
    assert_eq!(base.number, 20);
    // A fault two pages in resolves to the physical frame two on, with
    // the grant's flags, and takes no frame references.
    set.try_correcting_page_tables(b, Page::new(22), AccessMode::Read, &mut frames)
        .unwrap();
    let (frame, flags) = set.spaces[b].table.utable.translate(Page::new(22)).unwrap();
    assert_eq!(frame.number, 102);
    assert!(flags.user);
    assert_eq!(frames.get_page_info(frame), None);
}

#[test]
fn fault_on_file_backed_grant_escalates() {
    let mut set = AddrSpaces::new();
    let mut frames = FrameInfos::new(8);
    let id = set.new_addrspace().unwrap();
    let desc = GrantFileRef {
        desc: FileDescriptor { id: 7 },
        offset: 0,
        flags: MapFlags::new(),
    };
    set.spaces[id].grants.insert(Grant {
        base: Page::new(3),
        info: GrantInfo {
            page_count: 2,
            flags: usermem::flags::PageFlags::new().user(true),
            mapped: true,
            provider: Provider::Fmap { desc },
        },
    });
    let r = set.try_correcting_page_tables(id, Page::new(3), AccessMode::Read, &mut frames);
    assert_eq!(r, Err(usermem::error::PfError::NonfatalInternalError));
}

#[test]
fn munmap_notifies_file_backed_overlap() {
    let mut space = AddrSpace::new().unwrap();
    let mut frames = FrameInfos::new(8);
    let desc = GrantFileRef {
        desc: FileDescriptor { id: 9 },
        offset: 0,
        flags: MapFlags::new(),
    };
    space.grants.insert(Grant {
        base: Page::new(3),
        info: GrantInfo {
            page_count: 4,
            flags: usermem::flags::PageFlags::new().user(true),
            mapped: true,
            provider: Provider::Fmap { desc },
        },
    });
    let notes = space.munmap(PageSpan::new(Page::new(4), 1), &mut frames);
    assert_eq!(notes.len(), 1);
    assert_eq!(notes[0].0.desc.id, 9);
    assert_eq!((notes[0].1.base.number, notes[0].1.count), (4, 1));
    // The untouched parts of the grant stay.
    assert_eq!(space.grants.iter().len(), 2);
}

#[test]
fn borrowed_anonymous_fault_shares_frame() {
    let mut set = AddrSpaces::new();
    let mut frames = FrameInfos::new(8);
    let a = set.new_addrspace().unwrap();
    let b = set.new_addrspace().unwrap();
    set.spaces[a]
        .mmap(Some(Page::new(4)), 2, prot(true, true, false), MapSource::Zeroed)
        .unwrap();
    // A touches its page, getting frame F.
    set.try_correcting_page_tables(a, Page::new(5), AccessMode::Write, &mut frames)
        .unwrap();
    let (f, _) = set.spaces[a].table.utable.translate(Page::new(5)).unwrap();
    // B borrows A's span; a fault in B shares F and takes one total
    // reference, but no copy-on-write reference.
    let base = set
        .mmap_multiple(b, a, Page::new(4), Some(Page::new(30)), 2, prot(true, false, false))
        .unwrap();
    assert_eq!(base.number, 30);
    set.try_correcting_page_tables(b, Page::new(31), AccessMode::Read, &mut frames)
        .unwrap();
    let (bf, _) = set.spaces[b].table.utable.translate(Page::new(31)).unwrap();
    assert_eq!(bf, f);
    let info = frames.get_page_info(f).unwrap();
    assert_eq!((info.refcount, info.cow_refcount), (2, 1));
}

#[test]
fn mprotect_denial_changes_nothing_at_all() {
    let mut space = AddrSpace::new().unwrap();
    // An anonymous grant, then a read-only physically borrowed one.
    space
        .mmap(Some(Page::new(1)), 2, prot(true, true, false), MapSource::Zeroed)
        .unwrap();
    space
        .mmap(
            Some(Page::new(3)),
            2,
            prot(true, false, false),
            MapSource::Physmap { base: Frame::new(60) },
        )
        .unwrap();
    let before = space.grants.iter();
    // Widening write over both grants fails on the borrowed one, and
    // the anonymous grant is left untouched too: no partial state.
    let r = space.mprotect(PageSpan::new(Page::new(1), 4), prot(true, true, false));
    assert_eq!(r, Err(Error::AccessDenied));
    assert_eq!(space.grants.iter(), before);
    assert_eq!(
        space.grants.holes(),
        vec![(0, PAGE_SIZE), (5 * PAGE_SIZE, USER_END_OFFSET - 5 * PAGE_SIZE)]
    );
}
