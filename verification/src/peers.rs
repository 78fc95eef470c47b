//! The peer wire protocol: the handshake and the length-prefixed messages.

use crate::wire::{append, be32, copy_range, from_be32, lemma_be32_round_trip, push_be32, read_be32, same_bytes};
use vstd::prelude::*;

verus! {

/// The socket address of a peer, as plain numbers.
///
/// An IPv4 address occupies the low 32 bits of `ip`; `flowinfo` and
/// `scope_id` are zero for it.
#[derive(Clone, Copy, Debug, PartialEq, Eq, Structural, Hash)]
pub struct PeerAddr {
    pub v6: bool,
    pub ip: u128,
    pub port: u16,
    pub flowinfo: u32,
    pub scope_id: u32,
}

/// A message of the peer wire protocol.
#[derive(Clone, Debug, PartialEq, Eq)]
pub enum Message {
    Keepalive,
    Choke,
    Unchoke,
    Interested,
    NotInterested,
    Have(u32),
    Bitfield(Vec<u8>),
    Request(u32, u32, u32),
    Piece(u32, u32, Vec<u8>),
    Cancel(u32, u32, u32),
}

/// A message as a mathematical value.
pub enum MessageView {
    Keepalive,
    Choke,
    Unchoke,
    Interested,
    NotInterested,
    Have(u32),
    Bitfield(Seq<u8>),
    Request(u32, u32, u32),
    Piece(u32, u32, Seq<u8>),
    Cancel(u32, u32, u32),
}

impl View for Message {
    type V = MessageView;

    open spec fn view(&self) -> MessageView {
        match *self {
            Message::Keepalive => MessageView::Keepalive,
            Message::Choke => MessageView::Choke,
            Message::Unchoke => MessageView::Unchoke,
            Message::Interested => MessageView::Interested,
            Message::NotInterested => MessageView::NotInterested,
            Message::Have(index) => MessageView::Have(index),
            Message::Bitfield(bytes) => MessageView::Bitfield(bytes@),
            Message::Request(index, begin, length) => MessageView::Request(index, begin, length),
            Message::Piece(index, begin, data) => MessageView::Piece(index, begin, data@),
            Message::Cancel(index, begin, length) => MessageView::Cancel(index, begin, length),
        }
    }
}

/// What the engine asks of a peer session.
#[derive(Debug, PartialEq)]
pub enum PeerRequest {
    SendMessage(Message),
}

/// What a peer session reports.
#[derive(Debug, PartialEq)]
pub enum PeerResponse {
    MessageReceived(PeerAddr, Message),
    Heartbeat,
    Death,
}

/// Why a message could not be framed or a body could not be parsed.
#[derive(Clone, Copy, Debug, PartialEq, Eq, Structural)]
pub enum WireError {
    /// The body does not fit the four-byte length prefix.
    TooLong,
    InvalidHave,
    InvalidRequest,
    InvalidPiece,
    InvalidCancel,
    UnsupportedType,
}

/// The type byte of `Choke`.
pub const CHOKE: u8 = 0;

/// The type byte of `Unchoke`.
pub const UNCHOKE: u8 = 1;

/// The type byte of `Interested`.
pub const INTERESTED: u8 = 2;

/// The type byte of `NotInterested`.
pub const NOT_INTERESTED: u8 = 3;

/// The type byte of `Have`.
pub const HAVE: u8 = 4;

/// The type byte of `Bitfield`.
pub const BITFIELD: u8 = 5;

/// The type byte of `Request`.
pub const REQUEST: u8 = 6;

/// The type byte of `Piece`.
pub const PIECE: u8 = 7;

/// The type byte of `Cancel`.
pub const CANCEL: u8 = 8;

/// The body of a message: its type byte and what follows it. A keep-alive
/// has no body.
pub open spec fn body_of(m: MessageView) -> Seq<u8> {
    match m {
        MessageView::Keepalive => Seq::<u8>::empty(),
        MessageView::Choke => seq![CHOKE],
        MessageView::Unchoke => seq![UNCHOKE],
        MessageView::Interested => seq![INTERESTED],
        MessageView::NotInterested => seq![NOT_INTERESTED],
        MessageView::Have(index) => seq![HAVE] + be32(index),
        MessageView::Bitfield(bytes) => seq![BITFIELD] + bytes,
        MessageView::Request(index, begin, length) => seq![REQUEST] + be32(index) + be32(begin) + be32(
            length,
        ),
        MessageView::Piece(index, begin, data) => seq![PIECE] + be32(index) + be32(begin) + data,
        MessageView::Cancel(index, begin, length) => seq![CANCEL] + be32(index) + be32(begin) + be32(
            length,
        ),
    }
}

/// A message on the wire: the length of its body in four bytes, then the body.
pub open spec fn frame_of(m: MessageView) -> Seq<u8> {
    be32(body_of(m).len() as u32) + body_of(m)
}

/// What a body means. An empty body is a keep-alive; otherwise the first
/// byte selects the message and the rest must have the shape it calls for.
pub open spec fn parse_body(s: Seq<u8>) -> Result<MessageView, WireError> {
    if s.len() == 0 {
        Ok(MessageView::Keepalive)
    } else if s[0] == CHOKE {
        Ok(MessageView::Choke)
    } else if s[0] == UNCHOKE {
        Ok(MessageView::Unchoke)
    } else if s[0] == INTERESTED {
        Ok(MessageView::Interested)
    } else if s[0] == NOT_INTERESTED {
        Ok(MessageView::NotInterested)
    } else if s[0] == HAVE {
        if s.len() == 5 {
            Ok(MessageView::Have(from_be32(s, 1)))
        } else {
            Err(WireError::InvalidHave)
        }
    } else if s[0] == BITFIELD {
        Ok(MessageView::Bitfield(s.subrange(1, s.len() as int)))
    } else if s[0] == REQUEST {
        if s.len() == 13 {
            Ok(MessageView::Request(from_be32(s, 1), from_be32(s, 5), from_be32(s, 9)))
        } else {
            Err(WireError::InvalidRequest)
        }
    } else if s[0] == PIECE {
        if s.len() >= 9 {
            Ok(MessageView::Piece(from_be32(s, 1), from_be32(s, 5), s.subrange(9, s.len() as int)))
        } else {
            Err(WireError::InvalidPiece)
        }
    } else if s[0] == CANCEL {
        if s.len() == 13 {
            Ok(MessageView::Cancel(from_be32(s, 1), from_be32(s, 5), from_be32(s, 9)))
        } else {
            Err(WireError::InvalidCancel)
        }
    } else {
        Err(WireError::UnsupportedType)
    }
}

/// What the front of a byte stream holds: nothing yet (`Ok(None)`) while the
/// length prefix or the body it announces is incomplete, else the first
/// message and the number of bytes it took, or the reason its body is bad.
pub open spec fn parse_stream(s: Seq<u8>) -> Result<Option<(MessageView, int)>, WireError> {
    if s.len() < 4 {
        Ok(None)
    } else if s.len() < 4 + from_be32(s, 0) {
        Ok(None)
    } else {
        match parse_body(s.subrange(4, 4 + from_be32(s, 0))) {
            Ok(m) => Ok(Some((m, 4 + from_be32(s, 0)))),
            Err(e) => Err(e),
        }
    }
}

proof fn lemma_be32_at(s: Seq<u8>, at: int, x: u32)
    requires
        0 <= at,
        at + 4 <= s.len(),
        s.subrange(at, at + 4) == be32(x),
    ensures
        from_be32(s, at) == x,
{
    lemma_be32_round_trip(x);
    let t = s.subrange(at, at + 4);
    assert(t[0] == s[at] && t[1] == s[at + 1] && t[2] == s[at + 2] && t[3] == s[at + 3]);
}

/// Parsing the body of a message gives the message back.
pub proof fn lemma_parse_body_of(m: MessageView)
    ensures
        parse_body(body_of(m)) == Ok::<MessageView, WireError>(m),
{
    let s = body_of(m);
    match m {
        MessageView::Have(index) => {
            lemma_be32_round_trip(index);
            assert(s.subrange(1, 5) =~= be32(index));
            lemma_be32_at(s, 1, index);
        },
        MessageView::Bitfield(bytes) => {
            assert(s.subrange(1, s.len() as int) =~= bytes);
        },
        MessageView::Request(index, begin, length) => {
            lemma_be32_round_trip(index);
            lemma_be32_round_trip(begin);
            lemma_be32_round_trip(length);
            assert(s.subrange(1, 5) =~= be32(index));
            assert(s.subrange(5, 9) =~= be32(begin));
            assert(s.subrange(9, 13) =~= be32(length));
            lemma_be32_at(s, 1, index);
            lemma_be32_at(s, 5, begin);
            lemma_be32_at(s, 9, length);
        },
        MessageView::Piece(index, begin, data) => {
            lemma_be32_round_trip(index);
            lemma_be32_round_trip(begin);
            assert(s.subrange(1, 5) =~= be32(index));
            assert(s.subrange(5, 9) =~= be32(begin));
            assert(s.subrange(9, s.len() as int) =~= data);
            lemma_be32_at(s, 1, index);
            lemma_be32_at(s, 5, begin);
        },
        MessageView::Cancel(index, begin, length) => {
            lemma_be32_round_trip(index);
            lemma_be32_round_trip(begin);
            lemma_be32_round_trip(length);
            assert(s.subrange(1, 5) =~= be32(index));
            assert(s.subrange(5, 9) =~= be32(begin));
            assert(s.subrange(9, 13) =~= be32(length));
            lemma_be32_at(s, 1, index);
            lemma_be32_at(s, 5, begin);
            lemma_be32_at(s, 9, length);
        },
        _ => {},
    }
}

/// Decoding what was encoded gives the message back, and takes the whole
/// frame: for every message whose body fits the length prefix, whatever
/// follows the frame in the stream.
pub proof fn lemma_decode_encode(m: MessageView, rest: Seq<u8>)
    requires
        body_of(m).len() <= u32::MAX,
    ensures
        parse_stream(frame_of(m) + rest) == Ok::<Option<(MessageView, int)>, WireError>(
            Some((m, frame_of(m).len() as int)),
        ),
{
    let body = body_of(m);
    let n = body.len() as u32;
    let s = frame_of(m) + rest;
    lemma_be32_round_trip(n);
    assert(s.subrange(0, 4) =~= be32(n));
    lemma_be32_at(s, 0, n);
    assert(s.subrange(4, 4 + n) =~= body);
    lemma_parse_body_of(m);
}

impl Message {
    /// The message as it goes on the wire.
    ///
    /// Fails only for a payload so long that the body's length does not
    /// fit in four bytes.
    pub fn encode(&self) -> (r: Result<Vec<u8>, WireError>)
        ensures
            body_of(self@).len() <= u32::MAX ==> r is Ok && r->Ok_0@ == frame_of(self@),
            body_of(self@).len() > u32::MAX ==> r == Err::<Vec<u8>, WireError>(WireError::TooLong),
    {
        let mut buf: Vec<u8> = Vec::new();
        match self {
            Message::Keepalive => {
                push_be32(&mut buf, 0);
            },
            Message::Choke => {
                push_be32(&mut buf, 1);
                buf.push(CHOKE);
            },
            Message::Unchoke => {
                push_be32(&mut buf, 1);
                buf.push(UNCHOKE);
            },
            Message::Interested => {
                push_be32(&mut buf, 1);
                buf.push(INTERESTED);
            },
            Message::NotInterested => {
                push_be32(&mut buf, 1);
                buf.push(NOT_INTERESTED);
            },
            Message::Have(index) => {
                push_be32(&mut buf, 5);
                buf.push(HAVE);
                push_be32(&mut buf, *index);
            },
            Message::Bitfield(bytes) => {
                if bytes.len() as u64 > 0xffff_fffe {
                    return Err(WireError::TooLong);
                }
                push_be32(&mut buf, (bytes.len() as u64 + 1) as u32);
                buf.push(BITFIELD);
                append(&mut buf, bytes.as_slice());
            },
            Message::Request(index, begin, length) => {
                push_be32(&mut buf, 13);
                buf.push(REQUEST);
                push_be32(&mut buf, *index);
                push_be32(&mut buf, *begin);
                push_be32(&mut buf, *length);
            },
            Message::Piece(index, begin, data) => {
                if data.len() as u64 > 0xffff_fff6 {
                    return Err(WireError::TooLong);
                }
                push_be32(&mut buf, (data.len() as u64 + 9) as u32);
                buf.push(PIECE);
                push_be32(&mut buf, *index);
                push_be32(&mut buf, *begin);
                append(&mut buf, data.as_slice());
            },
            Message::Cancel(index, begin, length) => {
                push_be32(&mut buf, 13);
                buf.push(CANCEL);
                push_be32(&mut buf, *index);
                push_be32(&mut buf, *begin);
                push_be32(&mut buf, *length);
            },
        }
        assert(buf@ =~= frame_of(self@));
        Ok(buf)
    }

    /// The message that a body holds: the bytes that follow the length
    /// prefix, as many as it announced.
    pub fn decode(body: &[u8]) -> (r: Result<Message, WireError>)
        ensures
            r matches Ok(m) ==> parse_body(body@) == Ok::<MessageView, WireError>(m@),
            r matches Err(e) ==> parse_body(body@) == Err::<MessageView, WireError>(e),
    {
        if body.len() == 0 {
            return Ok(Message::Keepalive);
        }
        let kind = body[0];
        if kind == CHOKE {
            Ok(Message::Choke)
        } else if kind == UNCHOKE {
            Ok(Message::Unchoke)
        } else if kind == INTERESTED {
            Ok(Message::Interested)
        } else if kind == NOT_INTERESTED {
            Ok(Message::NotInterested)
        } else if kind == HAVE {
            if body.len() == 5 {
                Ok(Message::Have(read_be32(body, 1)))
            } else {
                Err(WireError::InvalidHave)
            }
        } else if kind == BITFIELD {
            Ok(Message::Bitfield(copy_range(body, 1, body.len())))
        } else if kind == REQUEST {
            if body.len() == 13 {
                Ok(Message::Request(read_be32(body, 1), read_be32(body, 5), read_be32(body, 9)))
            } else {
                Err(WireError::InvalidRequest)
            }
        } else if kind == PIECE {
            if body.len() >= 9 {
                Ok(Message::Piece(read_be32(body, 1), read_be32(body, 5), copy_range(body, 9, body.len())))
            } else {
                Err(WireError::InvalidPiece)
            }
        } else if kind == CANCEL {
            if body.len() == 13 {
                Ok(Message::Cancel(read_be32(body, 1), read_be32(body, 5), read_be32(body, 9)))
            } else {
                Err(WireError::InvalidCancel)
            }
        } else {
            Err(WireError::UnsupportedType)
        }
    }

    /// The length of the body that a four-byte prefix announces.
    pub fn frame_len(prefix: &[u8]) -> (n: u32)
        requires
            prefix@.len() >= 4,
        ensures
            n == from_be32(prefix@, 0),
    {
        read_be32(prefix, 0)
    }

    /// Takes the first message off the front of `buf`, the bytes received
    /// so far. Returns it with the number of bytes it occupied, or `None`
    /// while the frame is still incomplete.
    pub fn recv(buf: &[u8]) -> (r: Result<Option<(Message, usize)>, WireError>)
        ensures
            match r {
                Ok(Some((m, used))) => parse_stream(buf@) == Ok::<Option<(MessageView, int)>, WireError>(
                    Some((m@, used as int)),
                ),
                Ok(None) => parse_stream(buf@) == Ok::<Option<(MessageView, int)>, WireError>(None),
                Err(e) => parse_stream(buf@) == Err::<Option<(MessageView, int)>, WireError>(e),
            },
    {
        if buf.len() < 4 {
            return Ok(None);
        }
        let n = Self::frame_len(buf);
        if ((buf.len() - 4) as u64) < n as u64 {
            return Ok(None);
        }
        let end: usize = 4 + n as usize;
        let body = vstd::slice::slice_subrange(buf, 4, end);
        match Self::decode(body) {
            Ok(m) => Ok(Some((m, end))),
            Err(e) => Err(e),
        }
    }
}

impl WireError {
    /// The error in words.
    pub fn message(&self) -> (r: &'static str)
        ensures
            r@ == (match *self {
                WireError::TooLong => "Message too long to frame"@,
                WireError::InvalidHave => "Received invalid Have message"@,
                WireError::InvalidRequest => "Received invalid Request message"@,
                WireError::InvalidPiece => "Received invalid Piece message"@,
                WireError::InvalidCancel => "Received invalid Cancel message"@,
                WireError::UnsupportedType => "Received unsupported message type"@,
            }),
    {
        match self {
            WireError::TooLong => "Message too long to frame",
            WireError::InvalidHave => "Received invalid Have message",
            WireError::InvalidRequest => "Received invalid Request message",
            WireError::InvalidPiece => "Received invalid Piece message",
            WireError::InvalidCancel => "Received invalid Cancel message",
            WireError::UnsupportedType => "Received unsupported message type",
        }
    }
}

/// Length of a handshake: one length byte, the protocol name, eight reserved
/// bytes, the info-hash and the peer id.
pub const HANDSHAKE_LEN: usize = 68;

/// `"BitTorrent protocol"` in ASCII.
pub open spec fn protocol_name() -> Seq<u8> {
    seq![
        66u8, 105u8, 116u8, 84u8, 111u8, 114u8, 114u8, 101u8, 110u8, 116u8, 32u8, 112u8, 114u8,
        111u8, 116u8, 111u8, 99u8, 111u8, 108u8,
    ]
}

/// The handshake that a client with this info-hash and peer id sends.
pub open spec fn handshake_of(info_hash: Seq<u8>, peer_id: Seq<u8>) -> Seq<u8> {
    seq![19u8] + protocol_name() + Seq::new(8, |i: int| 0u8) + info_hash + peer_id
}

/// Why a handshake was turned down.
#[derive(Clone, Copy, Debug, PartialEq, Eq, Structural)]
pub enum HandshakeError {
    /// Not 68 bytes.
    BadLength,
    /// The peer serves another torrent.
    InfoHashMismatch,
}

/// The 68 bytes that open a session.
pub fn do_handshake(info_hash: &[u8; 20], peer_id: &[u8; 20]) -> (r: Vec<u8>)
    ensures
        r@ == handshake_of(info_hash@, peer_id@),
        r@.len() == HANDSHAKE_LEN,
{
    let mut buf: Vec<u8> = vec![
        19u8, 66u8, 105u8, 116u8, 84u8, 111u8, 114u8, 114u8, 101u8, 110u8, 116u8, 32u8, 112u8,
        114u8, 111u8, 116u8, 111u8, 99u8, 111u8, 108u8, 0u8, 0u8, 0u8, 0u8, 0u8, 0u8, 0u8, 0u8,
    ];
    append(&mut buf, info_hash.as_slice());
    append(&mut buf, peer_id.as_slice());
    assert(buf@ =~= handshake_of(info_hash@, peer_id@));
    buf
}

/// Judges the handshake that the peer sent back. It is accepted when it has
/// the length of a handshake and carries our info-hash; the result is then
/// the peer's id, which is recorded and not examined.
pub fn check_handshake(received: &[u8], info_hash: &[u8; 20]) -> (r: Result<Vec<u8>, HandshakeError>)
    ensures
        received@.len() != HANDSHAKE_LEN ==> r == Err::<Vec<u8>, HandshakeError>(HandshakeError::BadLength),
        received@.len() == HANDSHAKE_LEN && received@.subrange(28, 48) != info_hash@ ==> r == Err::<
            Vec<u8>,
            HandshakeError,
        >(HandshakeError::InfoHashMismatch),
        received@.len() == HANDSHAKE_LEN && received@.subrange(28, 48) == info_hash@ ==> r is Ok
            && r->Ok_0@ == received@.subrange(48, 68),
{
    if received.len() != HANDSHAKE_LEN {
        return Err(HandshakeError::BadLength);
    }
    let theirs = vstd::slice::slice_subrange(received, 28, 48);
    if !same_bytes(theirs, info_hash.as_slice()) {
        return Err(HandshakeError::InfoHashMismatch);
    }
    Ok(copy_range(received, 48, 68))
}

} // verus!
