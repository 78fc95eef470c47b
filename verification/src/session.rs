//! One peer session, as a machine that is fed what happens on the socket
//! and on the command channel and says what to write, what to pass on to
//! the engine, and when to stop.

use crate::digest::DIGEST_SIZE;
use crate::peers::{
    body_of, check_handshake, do_handshake, frame_of, handshake_of, parse_stream, Message, MessageView, PeerAddr,
    PeerRequest, HANDSHAKE_LEN,
};
use crate::wire::{append, copy_range};
use vstd::prelude::*;

verus! {

/// Where a session stands.
#[derive(Clone, Copy, Debug, PartialEq, Eq, Structural)]
pub enum SessionState {
    /// Our handshake is out; the peer's has not come in full.
    Handshaking,
    /// Messages flow.
    Running,
    /// The session is over.
    Closed,
}

/// What happens to a session.
#[derive(Debug)]
pub enum SessionEvent {
    /// Bytes came in from the socket.
    Received(Vec<u8>),
    /// A read ran into its time limit. This is no fault: it only shows
    /// that the session is alive.
    TimedOut,
    /// A read failed for good.
    ReadFailed,
    /// The engine asks for something.
    Command(PeerRequest),
    /// A write failed.
    WriteFailed,
    /// The engine closed the command channel.
    ChannelClosed,
}

/// What a session asks of its driver.
#[derive(Debug, PartialEq)]
pub enum Output {
    /// Write the bytes to the socket and flush.
    Write(Vec<u8>),
    /// Pass the message, received from the peer, on to the engine.
    Deliver(PeerAddr, Message),
    /// Close the socket and end.
    Close,
}

/// An output as a mathematical value.
pub enum OutputView {
    Write(Seq<u8>),
    Deliver(PeerAddr, MessageView),
    Close,
}

impl View for Output {
    type V = OutputView;

    open spec fn view(&self) -> OutputView {
        match *self {
            Output::Write(bytes) => OutputView::Write(bytes@),
            Output::Deliver(addr, message) => OutputView::Deliver(addr, message@),
            Output::Close => OutputView::Close,
        }
    }
}

/// The outputs as mathematical values.
pub open spec fn output_views(outputs: Seq<Output>) -> Seq<OutputView> {
    Seq::new(outputs.len(), |i: int| outputs[i]@)
}

/// A session.
pub struct Session {
    addr: PeerAddr,
    info_hash: [u8; DIGEST_SIZE],
    state: SessionState,
    buffer: Vec<u8>,
    remote_id: Vec<u8>,
}

/// A session as a mathematical value.
#[verifier::ext_equal]
pub struct SessionView {
    /// The peer's address.
    pub addr: PeerAddr,
    /// The info-hash of our torrent.
    pub info_hash: Seq<u8>,
    pub state: SessionState,
    /// The bytes received and not yet made sense of.
    pub buffer: Seq<u8>,
    /// The peer's id, once its handshake is in; empty before.
    pub remote_id: Seq<u8>,
}

impl View for Session {
    type V = SessionView;

    closed spec fn view(&self) -> SessionView {
        SessionView {
            addr: self.addr,
            info_hash: self.info_hash@,
            state: self.state,
            buffer: self.buffer@,
            remote_id: self.remote_id@,
        }
    }
}

/// The messages that stand complete at the front of `buf`, what is left
/// after them, and whether a frame with a bad body put an end to it.
pub open spec fn frames(buf: Seq<u8>) -> (Seq<MessageView>, Seq<u8>, bool)
    decreases buf.len(),
{
    match parse_stream(buf) {
        Ok(Some((m, used))) => if 0 < used <= buf.len() {
            let (more, rest, failed) = frames(buf.skip(used));
            (seq![m] + more, rest, failed)
        } else {
            (Seq::empty(), buf, false)
        },
        Ok(None) => (Seq::empty(), buf, false),
        Err(_) => (Seq::empty(), Seq::empty(), true),
    }
}

/// The deliveries of `messages`, in order, as coming from `addr`.
pub open spec fn deliveries(addr: PeerAddr, messages: Seq<MessageView>) -> Seq<OutputView> {
    Seq::new(messages.len(), |i: int| OutputView::Deliver(addr, messages[i]))
}

impl SessionView {
    /// The session closed, with nothing kept.
    pub open spec fn closed(self) -> SessionView {
        SessionView { state: SessionState::Closed, buffer: Seq::empty(), ..self }
    }

    /// What the bytes `buf`, all that is at hand, lead to in a running
    /// session: every complete message is passed on; a bad frame closes
    /// the session; what is left waits for more.
    pub open spec fn parsed(self, buf: Seq<u8>) -> (SessionView, Seq<OutputView>) {
        let (messages, rest, failed) = frames(buf);
        if failed {
            (self.closed(), deliveries(self.addr, messages).push(OutputView::Close))
        } else {
            (SessionView { state: SessionState::Running, buffer: rest, ..self }, deliveries(self.addr, messages))
        }
    }

    /// What bytes from the socket lead to.
    ///
    /// While the handshake is awaited they are kept until 68 are there. A
    /// handshake for another torrent closes the session. Our own torrent's
    /// starts the flow of messages, with the peer's id put on record and
    /// not looked at further.
    pub open spec fn received(self, bytes: Seq<u8>) -> (SessionView, Seq<OutputView>) {
        let buf = self.buffer + bytes;
        match self.state {
            SessionState::Closed => (self, Seq::empty()),
            SessionState::Running => self.parsed(buf),
            SessionState::Handshaking => if buf.len() < HANDSHAKE_LEN {
                (SessionView { buffer: buf, ..self }, Seq::empty())
            } else if buf.subrange(28, 48) != self.info_hash {
                (self.closed(), seq![OutputView::Close])
            } else {
                SessionView { remote_id: buf.subrange(48, 68), ..self }.parsed(buf.skip(HANDSHAKE_LEN as int))
            },
        }
    }

    /// What an event leads to. A session that is closed stays so and asks
    /// for nothing.
    pub open spec fn stepped(self, event: SessionEventView) -> (SessionView, Seq<OutputView>) {
        if self.state == SessionState::Closed {
            (self, Seq::empty())
        } else {
            match event {
                SessionEventView::Received(bytes) => self.received(bytes),
                SessionEventView::TimedOut => (self, Seq::empty()),
                SessionEventView::Command(message) => if body_of(message).len() <= u32::MAX {
                    (self, seq![OutputView::Write(frame_of(message))])
                } else {
                    (self.closed(), seq![OutputView::Close])
                },
                SessionEventView::ReadFailed => (self.closed(), seq![OutputView::Close]),
                SessionEventView::WriteFailed => (self.closed(), seq![OutputView::Close]),
                SessionEventView::ChannelClosed => (self.closed(), seq![OutputView::Close]),
            }
        }
    }
}

/// An event as a mathematical value.
pub enum SessionEventView {
    Received(Seq<u8>),
    TimedOut,
    ReadFailed,
    Command(MessageView),
    WriteFailed,
    ChannelClosed,
}

impl View for SessionEvent {
    type V = SessionEventView;

    open spec fn view(&self) -> SessionEventView {
        match *self {
            SessionEvent::Received(bytes) => SessionEventView::Received(bytes@),
            SessionEvent::TimedOut => SessionEventView::TimedOut,
            SessionEvent::ReadFailed => SessionEventView::ReadFailed,
            SessionEvent::Command(PeerRequest::SendMessage(message)) => SessionEventView::Command(message@),
            SessionEvent::WriteFailed => SessionEventView::WriteFailed,
            SessionEvent::ChannelClosed => SessionEventView::ChannelClosed,
        }
    }
}

fn put(outputs: &mut Vec<Output>, output: Output)
    ensures
        output_views(final(outputs)@) == output_views(old(outputs)@).push(output@),
{
    outputs.push(output);
    assert(output_views(outputs@) =~= output_views(old(outputs)@).push(output@));
}

impl Session {
    /// A session with the peer at `addr` for the torrent `info_hash`,
    /// and the handshake to write to the peer first.
    pub fn start(addr: PeerAddr, info_hash: &[u8; DIGEST_SIZE], peer_id: &[u8; DIGEST_SIZE]) -> (r: (Session, Vec<u8>))
        ensures
            r.0@ == (SessionView {
                addr,
                info_hash: info_hash@,
                state: SessionState::Handshaking,
                buffer: Seq::empty(),
                remote_id: Seq::empty(),
            }),
            r.1@ == handshake_of(info_hash@, peer_id@),
    {
        let session = Session {
            addr,
            info_hash: *info_hash,
            state: SessionState::Handshaking,
            buffer: Vec::new(),
            remote_id: Vec::new(),
        };
        (session, do_handshake(info_hash, peer_id))
    }

    /// Where the session stands.
    pub fn state(&self) -> (r: SessionState)
        ensures
            r == self@.state,
    {
        self.state
    }

    /// The peer's id as its handshake gave it; empty before that.
    pub fn remote_id(&self) -> (r: &[u8])
        ensures
            r@ == self@.remote_id,
    {
        self.remote_id.as_slice()
    }

    fn close(&mut self, outputs: &mut Vec<Output>)
        ensures
            final(self)@ == old(self)@.closed(),
            output_views(final(outputs)@) == output_views(old(outputs)@).push(OutputView::Close),
    {
        self.state = SessionState::Closed;
        self.buffer = Vec::new();
        put(outputs, Output::Close);
    }

    /// Makes sense of `buf[from ..]` in a running session.
    fn parse(&mut self, buf: &Vec<u8>, from: usize, outputs: &mut Vec<Output>)
        requires
            from <= buf@.len(),
        ensures
            final(self)@ == old(self)@.parsed(buf@.skip(from as int)).0,
            output_views(final(outputs)@) == output_views(old(outputs)@) + old(self)@.parsed(buf@.skip(from as int)).1,
    {
        let addr = self.addr;
        let ghost start = buf@.skip(from as int);
        let ghost base = output_views(outputs@);
        let ghost mut got: Seq<MessageView> = Seq::empty();
        let mut pos = from;
        let mut done = false;
        let mut failed = false;
        proof {
            assert(got + frames(start).0 =~= frames(start).0);
            assert(output_views(outputs@) =~= base + deliveries(addr, got));
        }
        while !done
            invariant
                from <= pos <= buf@.len(),
                self@ == old(self)@,
                addr == self@.addr,
                start == buf@.skip(from as int),
                frames(start).0 == got + frames(buf@.skip(pos as int)).0,
                frames(start).1 == frames(buf@.skip(pos as int)).1,
                frames(start).2 == frames(buf@.skip(pos as int)).2,
                output_views(outputs@) == base + deliveries(addr, got),
                !done ==> !failed,
                done ==> frames(buf@.skip(pos as int)).0.len() == 0,
                done ==> failed == frames(buf@.skip(pos as int)).2,
                done && !failed ==> frames(buf@.skip(pos as int)).1 == buf@.skip(pos as int),
            decreases buf@.len() - pos + (if done { 0int } else { 1int }),
        {
            let rest = vstd::slice::slice_subrange(buf.as_slice(), pos, buf.len());
            let ghost cur = buf@.skip(pos as int);
            assert(rest@ =~= cur);
            match Message::recv(rest) {
                Ok(Some((message, used))) => {
                    proof {
                        assert(cur.skip(used as int) =~= buf@.skip(pos + used));
                        let more = frames(cur.skip(used as int)).0;
                        assert(got + (seq![message@] + more) =~= got.push(message@) + more);
                        assert(deliveries(addr, got).push(OutputView::Deliver(addr, message@)) =~= deliveries(
                            addr,
                            got.push(message@),
                        ));
                        got = got.push(message@);
                    }
                    put(outputs, Output::Deliver(addr, message));
                    pos += used;
                    assert(output_views(outputs@) =~= base + deliveries(addr, got));
                },
                Ok(None) => {
                    done = true;
                },
                Err(_) => {
                    done = true;
                    failed = true;
                },
            }
        }
        proof {
            assert(got + Seq::<MessageView>::empty() =~= got);
            assert(frames(start).0 =~= got);
        }
        if failed {
            self.close(outputs);
            assert(output_views(outputs@) =~= base + deliveries(addr, got).push(OutputView::Close));
        } else {
            self.state = SessionState::Running;
            self.buffer = copy_range(buf.as_slice(), pos, buf.len());
            assert(self.buffer@ =~= buf@.skip(pos as int));
        }
    }

    fn receive(&mut self, bytes: &[u8], outputs: &mut Vec<Output>)
        requires
            old(outputs)@.len() == 0,
        ensures
            final(self)@ == old(self)@.received(bytes@).0,
            output_views(final(outputs)@) == old(self)@.received(bytes@).1,
    {
        match self.state {
            SessionState::Closed => {
                assert(output_views(outputs@) =~= old(self)@.received(bytes@).1);
            },
            SessionState::Running => {
                let mut buf: Vec<u8> = Vec::new();
                core::mem::swap(&mut buf, &mut self.buffer);
                append(&mut buf, bytes);
                assert(buf@.skip(0) =~= buf@);
                self.parse(&buf, 0, outputs);
                assert(output_views(outputs@) =~= old(self)@.received(bytes@).1);
            },
            SessionState::Handshaking => {
                append(&mut self.buffer, bytes);
                if self.buffer.len() < HANDSHAKE_LEN {
                    assert(output_views(outputs@) =~= old(self)@.received(bytes@).1);
                    return ;
                }
                let mut buf: Vec<u8> = Vec::new();
                core::mem::swap(&mut buf, &mut self.buffer);
                let head = vstd::slice::slice_subrange(buf.as_slice(), 0, HANDSHAKE_LEN);
                proof {
                    assert(head@.subrange(28, 48) =~= buf@.subrange(28, 48));
                    assert(head@.subrange(48, 68) =~= buf@.subrange(48, 68));
                }
                match check_handshake(head, &self.info_hash) {
                    Err(_) => {
                        self.close(outputs);
                        assert(output_views(outputs@) =~= old(self)@.received(bytes@).1);
                    },
                    Ok(id) => {
                        self.remote_id = id;
                        self.parse(&buf, HANDSHAKE_LEN, outputs);
                        assert(output_views(outputs@) =~= old(self)@.received(bytes@).1);
                    },
                }
            },
        }
    }

    /// Takes in an event, and returns what it calls for, in order. See
    /// [`SessionView::stepped`].
    pub fn step(&mut self, event: SessionEvent) -> (r: Vec<Output>)
        ensures
            final(self)@ == old(self)@.stepped(event@).0,
            output_views(r@) == old(self)@.stepped(event@).1,
    {
        let mut outputs: Vec<Output> = Vec::new();
        assert(output_views(outputs@) =~= Seq::<OutputView>::empty());
        match self.state {
            SessionState::Closed => {
                return outputs;
            },
            _ => {},
        }
        match event {
            SessionEvent::Received(bytes) => {
                self.receive(bytes.as_slice(), &mut outputs);
            },
            SessionEvent::TimedOut => {},
            SessionEvent::Command(PeerRequest::SendMessage(message)) => {
                match message.encode() {
                    Ok(frame) => {
                        put(&mut outputs, Output::Write(frame));
                    },
                    Err(_) => {
                        self.close(&mut outputs);
                    },
                }
            },
            SessionEvent::ReadFailed => {
                self.close(&mut outputs);
            },
            SessionEvent::WriteFailed => {
                self.close(&mut outputs);
            },
            SessionEvent::ChannelClosed => {
                self.close(&mut outputs);
            },
        }
        assert(output_views(outputs@) =~= old(self)@.stepped(event@).1);
        outputs
    }
}

} // verus!
