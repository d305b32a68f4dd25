//! Per-address-space virtual memory bookkeeping for a microkernel core:
//! page spans, user grants with their dual hole map, address-space
//! operations (`mmap`, `mprotect`, `munmap`, `try_clone`) and the page
//! fault handler, verified against a model page table and frame table.

pub mod addr_space;
pub mod error;
pub mod flags;
pub mod frames;
pub mod grant;
pub mod laws;
pub mod mapper;
pub mod page;
pub mod span;
pub mod user_grants;
