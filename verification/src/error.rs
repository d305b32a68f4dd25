//! The error kinds that the address-space operations surface.

use vstd::prelude::*;

verus! {

/// Errors returned to the caller of an address-space operation.
#[derive(Clone, Copy, Debug, PartialEq, Eq, Structural)]
pub enum Error {
    /// The frame allocator is exhausted, or no free range was found.
    NoMemory,
    /// `mprotect` would widen protection on a borrowed grant.
    AccessDenied,
    /// A `MAP_FIXED_NOREPLACE` request conflicts with an existing grant.
    AlreadyExists,
    /// `MAP_FIXED` replacement of existing grants is unsupported.
    NotSupported,
    /// Unaligned address or length, or a span beyond the user ceiling.
    Invalid,
}

impl Error {
    /// A short name for the error, for callers that report it.
    pub fn as_str(self) -> (r: &'static str)
        ensures
            r@ == match self {
                Error::NoMemory => "out of memory"@,
                Error::AccessDenied => "access denied"@,
                Error::AlreadyExists => "already exists"@,
                Error::NotSupported => "not supported"@,
                Error::Invalid => "invalid argument"@,
            },
    {
        match self {
            Error::NoMemory => "out of memory",
            Error::AccessDenied => "access denied",
            Error::AlreadyExists => "already exists",
            Error::NotSupported => "not supported",
            Error::Invalid => "invalid argument",
        }
    }
}

/// Failure of the page fault handler.
#[derive(Clone, Copy, Debug, PartialEq, Eq, Structural)]
pub enum PfError {
    /// The fault lies outside every grant, or the access mode is
    /// incompatible with the grant's flags.
    Segv,
    /// A frame allocation failed while resolving the fault.
    Oom,
    /// The frame table and the page table disagree; not fatal to the
    /// kernel, but the fault cannot be resolved.
    NonfatalInternalError,
}

/// Allocation failure during grant construction.
#[derive(Clone, Copy, Debug, PartialEq, Eq, Structural)]
pub struct Enomem;

} // verus!
