//! Readiness events as Linux `epoll` reports them.

pub mod event;
pub mod interest;
