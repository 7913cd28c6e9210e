//! The requests of the control interface.

use vstd::prelude::*;

verus! {

/// A window `[start, end)` of virtual addresses.
#[derive(Debug, Clone, Copy, PartialEq, Eq, Structural)]
pub struct Addr {
    pub start: u64,
    pub end: u64,
}

/// The request to register a process, with the window its tracking is to
/// be restricted to, if any.
#[derive(Debug, Clone, Copy, PartialEq, Eq, Structural)]
pub struct AddRequest {
    pub pid: u64,
    pub addr: Option<Addr>,
}

/// The request to take a process out of the registry.
#[derive(Debug, Clone, Copy, PartialEq, Eq, Structural)]
pub struct DelRequest {
    pub pid: u64,
}

} // verus!
