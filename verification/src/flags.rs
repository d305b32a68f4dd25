//! Page-table entry flags and the `mmap` protection/placement flags.

use vstd::prelude::*;

verus! {

/// Flags of one page-table entry: user accessibility, writability and
/// executability. Readability is implied by presence.
#[derive(Clone, Copy, Debug, PartialEq, Eq, Structural)]
pub struct PageFlags {
    pub user: bool,
    pub write: bool,
    pub execute: bool,
}

impl PageFlags {
    /// Flags with every bit cleared.
    pub fn new() -> (r: PageFlags)
        ensures
            r == (PageFlags { user: false, write: false, execute: false }),
    {
        PageFlags { user: false, write: false, execute: false }
    }

    /// The same flags with the user bit set to `b`.
    pub fn user(self, b: bool) -> (r: PageFlags)
        ensures
            r == (PageFlags { user: b, ..self }),
    {
        PageFlags { user: b, ..self }
    }

    /// The same flags with the write bit set to `b`.
    pub fn write(self, b: bool) -> (r: PageFlags)
        ensures
            r == (PageFlags { write: b, ..self }),
    {
        PageFlags { write: b, ..self }
    }

    /// The same flags with the execute bit set to `b`.
    pub fn execute(self, b: bool) -> (r: PageFlags)
        ensures
            r == (PageFlags { execute: b, ..self }),
    {
        PageFlags { execute: b, ..self }
    }

    /// Whether the write bit is set.
    pub fn has_write(self) -> (r: bool)
        ensures
            r == self.write,
    {
        self.write
    }

    /// Whether the execute bit is set.
    pub fn has_execute(self) -> (r: bool)
        ensures
            r == self.execute,
    {
        self.execute
    }
}

/// Flags a caller hands to `mmap`, `mprotect` and `find_free_at`:
/// the requested protection and the placement policy.
#[derive(Clone, Copy, Debug, PartialEq, Eq, Structural)]
pub struct MapFlags {
    pub prot_read: bool,
    pub prot_write: bool,
    pub prot_exec: bool,
    pub map_fixed: bool,
    pub map_fixed_noreplace: bool,
}

impl MapFlags {
    /// Flags with every bit cleared.
    pub fn new() -> (r: MapFlags)
        ensures
            r == (MapFlags {
                prot_read: false,
                prot_write: false,
                prot_exec: false,
                map_fixed: false,
                map_fixed_noreplace: false,
            }),
    {
        MapFlags {
            prot_read: false,
            prot_write: false,
            prot_exec: false,
            map_fixed: false,
            map_fixed_noreplace: false,
        }
    }
}

/// The page-table flags that an `mmap` request with the given flags
/// asks for, as a spec value.
pub open spec fn page_flags_spec(flags: MapFlags) -> PageFlags {
    PageFlags { user: true, write: flags.prot_write, execute: flags.prot_exec }
}

/// The protection flags with write and execute replaced as an
/// `mprotect` request asks, the rest kept.
pub open spec fn mprotect_flags(old: PageFlags, flags: MapFlags) -> PageFlags {
    PageFlags { write: flags.prot_write, execute: flags.prot_exec, ..old }
}

/// The page-table flags that an `mmap` request with the given flags asks
/// for: user pages, writable and executable as requested.
pub fn page_flags(flags: MapFlags) -> (r: PageFlags)
    ensures
        r == page_flags_spec(flags),
{
    PageFlags::new().user(true).execute(flags.prot_exec).write(flags.prot_write)
}

/// The protection flags that describe existing page-table flags; present
/// pages are always readable.
pub fn map_flags(page_flags: PageFlags) -> (r: MapFlags)
    ensures
        r == (MapFlags {
            prot_read: true,
            prot_write: page_flags.write,
            prot_exec: page_flags.execute,
            map_fixed: false,
            map_fixed_noreplace: false,
        }),
{
    let mut flags = MapFlags::new();
    flags.prot_read = true;
    if page_flags.has_write() {
        flags.prot_write = true;
    }
    if page_flags.has_execute() {
        flags.prot_exec = true;
    }
    flags
}

/// The access that caused a page fault.
#[derive(Clone, Copy, Debug, PartialEq, Eq, Structural)]
pub enum AccessMode {
    Read,
    Write,
    InstrFetch,
}

} // verus!
