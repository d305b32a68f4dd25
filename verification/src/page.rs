//! Pages, frames and the user address-space bounds.
//!
//! A `Page` is the index of a virtual page (address divided by the page
//! size); a `Frame` is the index of a physical page. Both are plain
//! integers wrapped in newtypes.

use vstd::prelude::*;

verus! {

/// Size of one page, in bytes.
pub const PAGE_SIZE: usize = 4096;

/// Upper bound (exclusive) of the user virtual address space, in bytes.
pub const USER_END_OFFSET: usize = 0x8000_0000;

/// Upper bound (exclusive) of the user virtual address space, in pages.
pub const USER_END_PAGE: usize = 0x80000;

/// Default lower bound for automatically placed mappings, in bytes.
pub const MMAP_MIN_DEFAULT: usize = PAGE_SIZE;

/// The two forms of the user-address ceiling agree.
pub proof fn lemma_user_end_agrees()
    ensures
        USER_END_PAGE * PAGE_SIZE == USER_END_OFFSET,
{
}

/// Index of a virtual page.
#[derive(Clone, Copy, Debug, PartialEq, Eq, Structural)]
pub struct Page {
    pub number: usize,
}

/// Index of a physical page.
#[derive(Clone, Copy, Debug, PartialEq, Eq, Structural)]
pub struct Frame {
    pub number: usize,
}

impl Page {
    /// The page with the given index.
    pub fn new(number: usize) -> (r: Page)
        ensures
            r.number == number,
    {
        Page { number }
    }

    /// The page that contains the given virtual address.
    pub fn containing_address(address: usize) -> (r: Page)
        ensures
            r.number == address / PAGE_SIZE,
    {
        Page { number: address / PAGE_SIZE }
    }

    /// The first address of this page.
    pub fn start_address(self) -> (r: usize)
        requires
            self.number * PAGE_SIZE <= usize::MAX,
        ensures
            r == self.number * PAGE_SIZE,
    {
        self.number * PAGE_SIZE
    }

    /// The page `n` pages above this one.
    pub fn next_by(self, n: usize) -> (r: Page)
        requires
            self.number + n <= usize::MAX,
        ensures
            r.number == self.number + n,
    {
        Page { number: self.number + n }
    }

    /// How many pages this page lies above `other`.
    pub fn offset_from(self, other: Page) -> (r: usize)
        requires
            other.number <= self.number,
        ensures
            r == self.number - other.number,
    {
        self.number - other.number
    }
}

impl Frame {
    /// The frame with the given index.
    pub fn new(number: usize) -> (r: Frame)
        ensures
            r.number == number,
    {
        Frame { number }
    }

    /// The frame that contains the given physical address.
    pub fn containing_address(address: usize) -> (r: Frame)
        ensures
            r.number == address / PAGE_SIZE,
    {
        Frame { number: address / PAGE_SIZE }
    }

    /// The first physical address of this frame.
    pub fn start_address(self) -> (r: usize)
        requires
            self.number * PAGE_SIZE <= usize::MAX,
        ensures
            r == self.number * PAGE_SIZE,
    {
        self.number * PAGE_SIZE
    }

    /// The frame `n` frames above this one.
    pub fn next_by(self, n: usize) -> (r: Frame)
        requires
            self.number + n <= usize::MAX,
        ensures
            r.number == self.number + n,
    {
        Frame { number: self.number + n }
    }
}

} // verus!
