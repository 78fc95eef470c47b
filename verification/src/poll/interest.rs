//! What to watch a source for.

use vstd::prelude::*;

verus! {

/// The `epoll` flag for a source that can be read (`EPOLLIN`).
pub const EPOLLIN: u32 = 0x001;

/// The `epoll` flag for a source that can be written (`EPOLLOUT`).
pub const EPOLLOUT: u32 = 0x004;

/// The `epoll` flag for a source in error (`EPOLLERR`).
pub const EPOLLERR: u32 = 0x008;

/// A set of `epoll` event flags to watch for.
#[derive(Copy, Clone, Debug, PartialEq, Eq, Structural)]
pub struct Interest(u32);

impl Interest {
    /// The flags, as a number.
    pub closed spec fn bits(self) -> u32 {
        self.0
    }

    /// Interest in reading.
    pub fn readable() -> (r: Interest)
        ensures
            r.bits() == EPOLLIN,
    {
        Interest(EPOLLIN)
    }

    /// Interest in writing.
    pub fn writable() -> (r: Interest)
        ensures
            r.bits() == EPOLLOUT,
    {
        Interest(EPOLLOUT)
    }

    /// The flags to hand to `epoll`.
    pub fn flags(&self) -> (r: u32)
        ensures
            r == self.bits(),
    {
        self.0
    }

    /// Interest in everything that either is interested in.
    pub fn or(self, other: Interest) -> (r: Interest)
        ensures
            r.bits() == self.bits() | other.bits(),
    {
        Interest(self.0 | other.0)
    }
}

} // verus!
