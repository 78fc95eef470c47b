//! The engine of a single-torrent BitTorrent client: piece store, wire
//! codec, timer queue, request scheduler and the event handlers that tie
//! them together. Everything here works on plain values; sockets, files,
//! threads and clocks belong to the program that drives the engine.
//!
//! - [`file`]: the piece store, which knows what is missing and checks
//!   each piece against its digest.
//! - [`peers`] and [`session`]: the wire messages, the handshake, and one
//!   peer session as a machine.
//! - [`timer`]: the queue of pending timers.
//! - [`strategy`]: the scheduler that picks the blocks to ask for.
//! - [`engine`]: the peer records, the requests in flight, and what each
//!   event leads to.
//! - [`tracker`], [`http`] and [`torrent`]: what the engine exchanges with
//!   the tracker and reads from the descriptor.
//!
//! Four crates do work that is taken on trust: `bitvec` keeps the
//! bitfields ([`bits`]), `sha1` hashes the pieces ([`digest`]), `rand`
//! orders the peers and makes the tokens, and `urlencoding` escapes the
//! query of an announce. Each call into them is a small private function
//! whose contract says what is taken on trust.

pub mod args;
pub mod bits;
pub mod digest;
pub mod engine;
pub mod file;
pub mod http;
pub mod peers;
pub mod poll;
pub mod requests;
pub mod session;
pub mod strategy;
pub mod timer;
pub mod torrent;
pub mod tracker;
pub mod utils;
pub mod wire;
