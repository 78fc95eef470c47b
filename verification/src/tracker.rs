//! What goes to the tracker and what comes back.

use crate::http::Parameter;
use crate::wire::{from_be32, read_be32};
use vstd::prelude::*;
use vstd::string::StringSliceAdditionalSpecFns;

verus! {

/// What an announce reports to have happened.
#[derive(Clone, Copy, Debug, PartialEq, Eq, Structural)]
pub enum Event {
    Started,
    Completed,
    Stopped,
}

/// An announce.
#[derive(Debug)]
pub struct Request {
    pub info_hash: [u8; 20],
    pub peer_id: [u8; 20],
    pub my_port: u16,
    pub uploaded: usize,
    pub downloaded: usize,
    pub left: usize,
    pub event: Option<Event>,
}

/// A peer as the tracker names it.
#[derive(Debug, PartialEq)]
pub struct Peer {
    pub ip: String,
    pub port: u16,
}

/// The tracker's answer.
#[derive(Debug, PartialEq)]
pub struct Response {
    /// Seconds to wait before the next announce.
    pub interval: u64,
    pub peers: Vec<Peer>,
    pub failure_reason: String,
}

/// An announce and where to send it.
#[derive(Debug)]
pub struct TrackerRequest {
    pub url: String,
    pub request: Request,
}


/// The decimal digits of `n`, in ASCII.
pub open spec fn digits_of(n: nat) -> Seq<u8>
    decreases n,
{
    if n < 10 {
        seq![(0x30 + n) as u8]
    } else {
        digits_of(n / 10).push((0x30 + n % 10) as u8)
    }
}

fn push_decimal(buf: &mut Vec<u8>, n: u64)
    ensures
        final(buf)@ == old(buf)@ + digits_of(n as nat),
    decreases n,
{
    if n >= 10 {
        push_decimal(buf, n / 10);
    }
    buf.push(0x30 + (n % 10) as u8);
    assert(buf@ =~= old(buf)@ + digits_of(n as nat));
}

/// `n` in decimal digits.
pub fn decimal(n: u64) -> (r: Vec<u8>)
    ensures
        r@ == digits_of(n as nat),
{
    let mut buf: Vec<u8> = Vec::new();
    push_decimal(&mut buf, n);
    assert(buf@ =~= digits_of(n as nat));
    buf
}

/// The word that an announce has for its event.
pub open spec fn event_name(event: Option<Event>) -> Seq<u8> {
    match event {
        Some(Event::Started) => "started".spec_bytes(),
        Some(Event::Completed) => "completed".spec_bytes(),
        Some(Event::Stopped) => "stopped".spec_bytes(),
        None => "empty".spec_bytes(),
    }
}

/// The parameters as mathematical values.
pub open spec fn parameter_views(parameters: Seq<Parameter>) -> Seq<(Seq<u8>, Seq<u8>)> {
    Seq::new(parameters.len(), |i: int| (parameters[i].0@, parameters[i].1@))
}

fn pair(name: &str, value: Vec<u8>) -> (r: Parameter)
    ensures
        r.0@ == name.spec_bytes(),
        r.1@ == value@,
{
    (vstd::slice::slice_to_vec(name.as_bytes()), value)
}

impl Request {
    /// The query of the announce, name by name.
    pub open spec fn query_of(self) -> Seq<(Seq<u8>, Seq<u8>)> {
        seq![
            ("info_hash".spec_bytes(), self.info_hash@),
            ("peer_id".spec_bytes(), self.peer_id@),
            ("port".spec_bytes(), digits_of(self.my_port as nat)),
            ("uploaded".spec_bytes(), digits_of(self.uploaded as nat)),
            ("downloaded".spec_bytes(), digits_of(self.downloaded as nat)),
            ("left".spec_bytes(), digits_of(self.left as nat)),
            ("event".spec_bytes(), event_name(self.event)),
        ]
    }

    /// The query parameters of the announce: the info-hash and the peer id
    /// as they are, the numbers in decimal, and the event by its word.
    pub fn query(&self) -> (r: Vec<Parameter>)
        ensures
            parameter_views(r@) == self.query_of(),
    {
        let event = match self.event {
            Some(Event::Started) => "started",
            Some(Event::Completed) => "completed",
            Some(Event::Stopped) => "stopped",
            None => "empty",
        };
        let mut out: Vec<Parameter> = Vec::new();
        out.push(pair("info_hash", vstd::slice::slice_to_vec(self.info_hash.as_slice())));
        out.push(pair("peer_id", vstd::slice::slice_to_vec(self.peer_id.as_slice())));
        out.push(pair("port", decimal(self.my_port as u64)));
        out.push(pair("uploaded", decimal(self.uploaded as u64)));
        out.push(pair("downloaded", decimal(self.downloaded as u64)));
        out.push(pair("left", decimal(self.left as u64)));
        out.push(pair("event", vstd::slice::slice_to_vec(event.as_bytes())));
        assert(parameter_views(out@) =~= self.query_of());
        out
    }
}

impl Response {
    /// Whether the tracker reports a failure: it gave no interval.
    pub open spec fn failed(self) -> bool {
        self.interval == 0
    }

    /// The answer if it is a good one, or the tracker's reason if it
    /// reports a failure.
    pub fn settle(self) -> (r: Result<Response, String>)
        ensures
            self.failed() ==> r == Err::<Response, String>(self.failure_reason),
            !self.failed() ==> r == Ok::<Response, String>(self),
    {
        if self.interval == 0 {
            Err(self.failure_reason)
        } else {
            Ok(self)
        }
    }
}

/// Why an entry of a tracker's peer list was turned down.
#[derive(Clone, Copy, Debug, PartialEq, Eq, Structural)]
pub enum PeerError {
    /// The port is not a number from 0 to 65535.
    PortOutOfRange,
}

impl Peer {
    /// The peer that an entry of the tracker's list names, with the
    /// address as the list gives it. Fails if the port is none.
    pub fn listed(ip: String, port: i64) -> (r: Result<Peer, PeerError>)
        ensures
            0 <= port <= u16::MAX ==> r is Ok && r->Ok_0.ip == ip && r->Ok_0.port == port,
            !(0 <= port <= u16::MAX) ==> r == Err::<Peer, PeerError>(PeerError::PortOutOfRange),
    {
        if 0 <= port && port <= 65535 {
            Ok(Peer { ip, port: port as u16 })
        } else {
            Err(PeerError::PortOutOfRange)
        }
    }
}

/// A peer as the compact form gives it: an IPv4 address and a port.
pub type CompactPeer = (u32, u16);

/// The port whose two bytes, the high one first, stand at `at` in `s`.
pub open spec fn from_be16(s: Seq<u8>, at: int) -> u16 {
    ((s[at] as u16) << 8) | (s[at + 1] as u16)
}

/// The peers that the compact form lists: six bytes for each, four of
/// address and two of port, both big-endian. Bytes after the last whole
/// entry are passed over.
pub open spec fn compact_peers_of(bytes: Seq<u8>) -> Seq<CompactPeer> {
    Seq::new((bytes.len() / 6) as nat, |k: int| (from_be32(bytes, 6 * k), from_be16(bytes, 6 * k + 4)))
}

/// Reads the peers of a tracker response in compact form.
pub fn compact_peers(bytes: &[u8]) -> (r: Vec<CompactPeer>)
    ensures
        r@ == compact_peers_of(bytes@),
{
    let len = bytes.len();
    let mut out: Vec<CompactPeer> = Vec::new();
    let mut at: usize = 0;
    let ghost mut k: int = 0;
    assert(out@ =~= compact_peers_of(bytes@).take(0));
    while len - at >= 6
        invariant
            len == bytes@.len(),
            at <= len,
            at == 6 * k,
            0 <= k <= len as int / 6,
            out@ == compact_peers_of(bytes@).take(k),
        decreases len - at,
    {
        let ip = read_be32(bytes, at);
        let port = ((bytes[at + 4] as u16) << 8) | (bytes[at + 5] as u16);
        out.push((ip, port));
        at += 6;
        proof {
            k = k + 1;
            assert(out@ =~= compact_peers_of(bytes@).take(k));
        }
    }
    proof {
        assert(k == len as int / 6);
        assert(compact_peers_of(bytes@).take(k) =~= compact_peers_of(bytes@));
    }
    out
}

} // verus!
