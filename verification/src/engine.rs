//! The engine's state and the decisions it takes on each event.
//!
//! The engine owns the piece store, the peer records and the table of
//! requests in flight. It does no input or output: each handler takes one
//! event, changes the state, and returns the [`Action`]s that the event
//! calls for. Whoever drives the engine carries them out and reports back
//! what came of them.

use crate::args::Args;
use crate::bits::{byte_len, packed, unpack, Bitfield};
use crate::digest::{sha1, sha1_of, DIGEST_SIZE};
use crate::file::{BlockInfo, DownloadFile, FileSpan, Placement, StoreError, StoreView};
use crate::peers::{Message, MessageView, PeerAddr, PeerResponse};
use crate::file::lemma_digest_unused;
use crate::requests::{
    count_to, dropped, holds_token, kept, lemma_nothing_dropped, lemma_split, lemma_without_peer, token_index,
    tokens_to, without_peer, without_token, Entry, Pending, RequestTable, Selector,
};
use crate::timer::{TimerInfo, TimerRequest, TimerResponse, Token};
use crate::strategy::{pick_blocks, picks_in_order};
use crate::tracker::Event;
use rand::Rng;
use vstd::prelude::*;

verus! {

/// What the engine keeps about one connected peer.
pub struct PeerInfo {
    /// The peer's address, by which it is known.
    pub addr: PeerAddr,
    /// Whether we refuse to serve the peer.
    pub choked: bool,
    /// Whether we want something the peer has.
    pub interested: bool,
    /// Whether the peer refuses to serve us.
    pub peer_choked: bool,
    /// Whether the peer wants something we have.
    pub peer_interested: bool,
    /// Which pieces the peer has.
    pub has: Bitfield,
    /// Bytes the peer sent us.
    pub uploaded: usize,
    /// Bytes we sent the peer.
    pub downloaded: usize,
    /// Bytes the peer sent us since the last tracker response.
    pub uploaded_recently: usize,
    /// Bytes we sent the peer since the last tracker response.
    pub downloaded_recently: usize,
}

/// A peer record as a mathematical value.
#[verifier::ext_equal]
pub struct PeerView {
    pub addr: PeerAddr,
    pub choked: bool,
    pub interested: bool,
    pub peer_choked: bool,
    pub peer_interested: bool,
    pub has: Seq<bool>,
    pub uploaded: int,
    pub downloaded: int,
    pub uploaded_recently: int,
    pub downloaded_recently: int,
}

impl View for PeerInfo {
    type V = PeerView;

    open spec fn view(&self) -> PeerView {
        PeerView {
            addr: self.addr,
            choked: self.choked,
            interested: self.interested,
            peer_choked: self.peer_choked,
            peer_interested: self.peer_interested,
            has: self.has@,
            uploaded: self.uploaded as int,
            downloaded: self.downloaded as int,
            uploaded_recently: self.uploaded_recently as int,
            downloaded_recently: self.downloaded_recently as int,
        }
    }
}

/// The record of a peer that has just connected.
pub open spec fn new_peer(addr: PeerAddr, piece_count: int) -> PeerView {
    PeerView {
        addr,
        choked: false,
        interested: false,
        peer_choked: true,
        peer_interested: false,
        has: Seq::new(piece_count as nat, |i: int| false),
        uploaded: 0,
        downloaded: 0,
        uploaded_recently: 0,
        downloaded_recently: 0,
    }
}

impl PeerInfo {
    /// The record of a peer that has just connected: we do not choke it and
    /// are not interested, it chokes us and is not interested, and it has
    /// no piece.
    pub fn new(addr: PeerAddr, piece_count: usize) -> (r: Self)
        requires
            piece_count <= Bitfield::max_len(),
        ensures
            r@ == new_peer(addr, piece_count as int),
            r.has.wf(),
    {
        PeerInfo {
            addr,
            choked: false,
            interested: false,
            peer_choked: true,
            peer_interested: false,
            has: Bitfield::new(piece_count),
            uploaded: 0,
            downloaded: 0,
            uploaded_recently: 0,
            downloaded_recently: 0,
        }
    }
}

/// Something for the driver of the engine to do.
#[derive(Debug, PartialEq)]
pub enum Action {
    /// Hand the message to the peer's session. If that fails, report it
    /// with [`MainState::evict`].
    Send(PeerAddr, Message),
    /// Hand the request to the timer service.
    Timer(TimerRequest),
    /// Write `data` at `placement.position`; if `placement.verify` names a
    /// span, read it back; then report with [`MainState::block_stored`].
    Store { peer: PeerAddr, piece: u32, begin: u32, data: Vec<u8>, placement: Placement },
    /// Read `span` from the file and report with
    /// [`MainState::block_loaded`].
    Load { peer: PeerAddr, piece: u32, begin: u32, span: FileSpan },
    /// Open a connection to the address.
    Dial(PeerAddr),
    /// Announce to the tracker.
    Announce { uploaded: usize, downloaded: usize, left: usize, event: Option<Event> },
    /// End the session with the peer.
    Drop(PeerAddr),
    /// End the run.
    Exit,
}

/// An action as a mathematical value.
pub enum ActionView {
    Send(PeerAddr, MessageView),
    Timer(TimerRequest),
    Store { peer: PeerAddr, piece: u32, begin: u32, data: Seq<u8>, placement: Placement },
    Load { peer: PeerAddr, piece: u32, begin: u32, span: FileSpan },
    Dial(PeerAddr),
    Announce { uploaded: usize, downloaded: usize, left: usize, event: Option<Event> },
    Drop(PeerAddr),
    Exit,
}

impl View for Action {
    type V = ActionView;

    open spec fn view(&self) -> ActionView {
        match *self {
            Action::Send(addr, message) => ActionView::Send(addr, message@),
            Action::Timer(request) => ActionView::Timer(request),
            Action::Store { peer, piece, begin, data, placement } => ActionView::Store {
                peer,
                piece,
                begin,
                data: data@,
                placement,
            },
            Action::Load { peer, piece, begin, span } => ActionView::Load { peer, piece, begin, span },
            Action::Dial(addr) => ActionView::Dial(addr),
            Action::Announce { uploaded, downloaded, left, event } => ActionView::Announce {
                uploaded,
                downloaded,
                left,
                event,
            },
            Action::Drop(addr) => ActionView::Drop(addr),
            Action::Exit => ActionView::Exit,
        }
    }
}

/// The actions as mathematical values.
pub open spec fn views(actions: Seq<Action>) -> Seq<ActionView> {
    Seq::new(actions.len(), |i: int| actions[i]@)
}

/// Why the engine turned an event down.
#[derive(Clone, Copy, Debug, PartialEq, Eq, Structural)]
pub enum EngineError {
    /// The message came from an address that has no peer record.
    UnknownPeer,
}

/// Everything the engine owns.
pub struct MainState {
    /// The connected peers.
    pub peers: Vec<PeerInfo>,
    /// The piece store.
    pub file: DownloadFile,
    /// The requests in flight.
    pub requested: RequestTable,
    /// The settings of the run.
    pub args: Args,
    /// The token of the timer that calls for the next announce.
    pub tracker_timer_id: Token,
}

/// The engine's state as a mathematical value.
#[verifier::ext_equal]
pub struct EngineView {
    pub peers: Seq<PeerView>,
    pub store: StoreView,
    pub requested: Seq<Entry>,
    /// Requests a peer may have in flight.
    pub depth: int,
    /// Seconds a request may take.
    pub request_timeout: u64,
    /// Connections to keep at most.
    pub max_connections: int,
    /// Whether the run ends when the file is complete.
    pub leaves_when_done: bool,
    pub tracker_timer_id: Token,
}

impl View for MainState {
    type V = EngineView;

    open spec fn view(&self) -> EngineView {
        EngineView {
            peers: Seq::new(self.peers@.len(), |i: int| self.peers@[i]@),
            store: self.file@,
            requested: self.requested@,
            depth: self.args.pipeline_depth as int,
            request_timeout: self.args.request_timeout,
            max_connections: self.args.max_connections as int,
            leaves_when_done: !self.args.seed && !self.args.seed_existing,
            tracker_timer_id: self.tracker_timer_id,
        }
    }
}

/// Whether some peer has the address `addr`.
pub open spec fn has_peer(peers: Seq<PeerView>, addr: PeerAddr) -> bool {
    exists|i: int| 0 <= i < peers.len() && (#[trigger] peers[i]).addr == addr
}

/// The place of the peer with the address `addr`.
pub open spec fn peer_index(peers: Seq<PeerView>, addr: PeerAddr) -> int {
    choose|i: int| 0 <= i < peers.len() && (#[trigger] peers[i]).addr == addr
}

/// Whether no two peers share an address.
pub open spec fn distinct_addrs(peers: Seq<PeerView>) -> bool {
    forall|i: int, j: int| 0 <= i < j < peers.len() ==> (#[trigger] peers[i]).addr != (#[trigger] peers[j]).addr
}

/// The addresses of the peers, in their order.
pub open spec fn addrs_of(peers: Seq<PeerView>) -> Seq<PeerAddr> {
    Seq::new(peers.len(), |i: int| peers[i].addr)
}

/// Whether every request in flight is to a peer that has a record.
pub open spec fn requests_have_peers(peers: Seq<PeerView>, requested: Seq<Entry>) -> bool {
    forall|k: int| 0 <= k < requested.len() ==> has_peer(peers, (#[trigger] requested[k]).1.1)
}

/// `a + b`, or the largest `usize` if that is less.
pub open spec fn sat_add(a: int, b: int) -> int {
    if a + b > usize::MAX {
        usize::MAX as int
    } else {
        a + b
    }
}

/// Whether the peer has a piece that we lack.
pub open spec fn wants_from(theirs: Seq<bool>, ours: Seq<bool>) -> bool {
    exists|i: int| 0 <= i < theirs.len() && i < ours.len() && #[trigger] theirs[i] && !ours[i]
}

/// The timer requests that cancel `tokens`, in order.
pub open spec fn cancels(tokens: Seq<Token>) -> Seq<ActionView> {
    Seq::new(tokens.len(), |i: int| ActionView::Timer(TimerRequest::Cancel(tokens[i])))
}

/// The block that a `Piece` or `Request` message speaks of.
pub open spec fn block_of(piece: u32, begin: u32, length: int) -> BlockInfo {
    BlockInfo { piece: piece as usize, range: (begin as usize)..((begin + length) as usize) }
}

/// The `Have` messages that tell of `piece`, for the first `k` peers: one
/// to each peer that is not known to have it.
pub open spec fn broadcast(peers: Seq<PeerView>, piece: u32, k: int) -> Seq<ActionView>
    decreases k,
{
    if k <= 0 {
        Seq::empty()
    } else if piece < peers[k - 1].has.len() && peers[k - 1].has[piece as int] {
        broadcast(peers, piece, k - 1)
    } else {
        broadcast(peers, piece, k - 1).push(ActionView::Send(peers[k - 1].addr, MessageView::Have(piece)))
    }
}

impl EngineView {
    /// The state with the peer at `i` replaced.
    pub open spec fn with_peer(self, i: int, peer: PeerView) -> EngineView {
        EngineView { peers: self.peers.update(i, peer), ..self }
    }

    /// What a new look at our interest in the peer at `i` leads to: if it
    /// has a piece that we lack and we had not said so, or the other way
    /// round, we say so now.
    pub open spec fn rescanned(self, i: int) -> (EngineView, Seq<ActionView>) {
        let peer = self.peers[i];
        let want = wants_from(peer.has, self.store.bits);
        if want != peer.interested {
            (
                self.with_peer(i, PeerView { interested: want, ..peer }),
                seq![
                    ActionView::Send(
                        peer.addr,
                        if want {
                            MessageView::Interested
                        } else {
                            MessageView::NotInterested
                        },
                    ),
                ],
            )
        } else {
            (self, Seq::empty())
        }
    }

    /// The state once the peer at `addr` is gone: its record is removed,
    /// its requests are forfeited and their timers cancelled, and its
    /// session is ended.
    pub open spec fn evicted(self, addr: PeerAddr) -> (EngineView, Seq<ActionView>) {
        let cancelled = cancels(tokens_to(self.requested, addr));
        let requested = without_peer(self.requested, addr);
        if has_peer(self.peers, addr) {
            (
                EngineView { peers: self.peers.remove(peer_index(self.peers, addr)), requested, ..self },
                cancelled.push(ActionView::Drop(addr)),
            )
        } else {
            (EngineView { requested, ..self }, cancelled)
        }
    }

    /// What a new connection from `addr` leads to: nothing if the address
    /// is known, else a record for the peer, our bitfield and an unchoke.
    pub open spec fn connected(self, addr: PeerAddr) -> (EngineView, Seq<ActionView>) {
        if has_peer(self.peers, addr) {
            (self, Seq::empty())
        } else {
            (
                EngineView { peers: self.peers.push(new_peer(addr, self.store.len())), ..self },
                seq![
                    ActionView::Send(addr, MessageView::Bitfield(packed(self.store.bits))),
                    ActionView::Send(addr, MessageView::Unchoke),
                ],
            )
        }
    }

    /// What `Have(piece)` from the peer at `i` leads to.
    pub open spec fn on_have(self, i: int, piece: u32) -> (EngineView, Seq<ActionView>) {
        let peer = self.peers[i];
        let has = if piece < peer.has.len() {
            peer.has.update(piece as int, true)
        } else {
            peer.has
        };
        if !peer.interested && piece < self.store.len() && !self.store.bits[piece as int] {
            (
                self.with_peer(i, PeerView { has, interested: true, ..peer }),
                seq![ActionView::Send(peer.addr, MessageView::Interested)],
            )
        } else {
            (self.with_peer(i, PeerView { has, ..peer }), Seq::empty())
        }
    }

    /// What `Bitfield(bytes)` from the peer at `i` leads to: it is taken
    /// only if it is as long as our own.
    pub open spec fn on_bitfield(self, i: int, bytes: Seq<u8>) -> (EngineView, Seq<ActionView>) {
        let peer = self.peers[i];
        if bytes.len() == byte_len(peer.has.len() as int) {
            self.with_peer(i, PeerView { has: unpack(bytes), ..peer }).rescanned(i)
        } else {
            (self, Seq::empty())
        }
    }

    /// What the receipt of `length` bytes from the peer at `addr` leads to,
    /// once the store has taken them in: they are counted, and our interest
    /// in the peer is looked at again.
    pub open spec fn credited(self, addr: PeerAddr, length: int) -> (EngineView, Seq<ActionView>) {
        if has_peer(self.peers, addr) {
            let i = peer_index(self.peers, addr);
            let peer = self.peers[i];
            self.with_peer(
                i,
                PeerView {
                    uploaded: sat_add(peer.uploaded, length),
                    uploaded_recently: sat_add(peer.uploaded_recently, length),
                    ..peer
                },
            ).rescanned(i)
        } else {
            (self, Seq::empty())
        }
    }

    /// What follows once a block from `addr` is in the file and, if it
    /// filled its piece, the piece read back hashes to `digest`.
    ///
    /// The store records the block. The peer is credited. If the piece
    /// became verified by it, every peer not known to have the piece is
    /// told. Nothing happens for a piece that does not exist.
    pub open spec fn recorded(self, addr: PeerAddr, piece: u32, begin: u32, length: int, digest: Seq<u8>) -> (
        EngineView,
        Seq<ActionView>,
    ) {
        if piece >= self.store.len() {
            (self, Seq::empty())
        } else {
            let store = self.store.after_block(piece as int, begin as int, begin + length, digest);
            let (next, told) = EngineView { store, ..self }.credited(addr, length);
            if !self.store.bits[piece as int] && store.bits[piece as int] {
                (next, told + broadcast(next.peers, piece, next.peers.len() as int))
            } else {
                (next, told)
            }
        }
    }

    /// What `Piece(piece, begin, data)` from the peer at `addr` leads to.
    ///
    /// A block that was not asked of this peer is dropped. Else its request
    /// leaves the table and its timer is cancelled. If the store wants the
    /// block, it is to be written; if not, it only counts for the peer.
    pub open spec fn on_piece(self, addr: PeerAddr, piece: u32, begin: u32, data: Seq<u8>) -> (
        EngineView,
        Seq<ActionView>,
    ) {
        let sel = Selector::Value(block_of(piece, begin, data.len() as int), addr);
        let answered = dropped(self.requested, sel);
        if begin + data.len() > usize::MAX || answered.len() == 0 {
            (self, Seq::empty())
        } else {
            let cancel = ActionView::Timer(TimerRequest::Cancel(answered.last().0));
            let next = EngineView { requested: kept(self.requested, sel), ..self };
            match self.store.plan(piece as int, begin as int, begin + data.len()) {
                Err(_) => (next, seq![cancel]),
                Ok(Some(placement)) => (
                    next,
                    seq![cancel, ActionView::Store { peer: addr, piece, begin, data, placement }],
                ),
                Ok(None) => {
                    let (last, told) = next.credited(addr, data.len() as int);
                    (last, seq![cancel] + told)
                },
            }
        }
    }

    /// What `Request(piece, begin, length)` from the peer at `i` leads to:
    /// nothing while we choke the peer; the block is to be read if it may
    /// be served; the peer is evicted if it may not.
    pub open spec fn on_request(self, i: int, piece: u32, begin: u32, length: u32) -> (EngineView, Seq<ActionView>) {
        let peer = self.peers[i];
        if peer.choked {
            (self, Seq::empty())
        } else {
            match self.store.locate(piece as int, begin as int, begin + length) {
                Ok(span) => (self, seq![ActionView::Load { peer: peer.addr, piece, begin, span }]),
                Err(_) => self.evicted(peer.addr),
            }
        }
    }

    /// What a message from the peer at `addr` leads to.
    pub open spec fn on_message(self, addr: PeerAddr, message: MessageView) -> (EngineView, Seq<ActionView>) {
        let i = peer_index(self.peers, addr);
        let peer = self.peers[i];
        match message {
            MessageView::Choke => (self.with_peer(i, PeerView { peer_choked: true, ..peer }), Seq::empty()),
            MessageView::Unchoke => (self.with_peer(i, PeerView { peer_choked: false, ..peer }), Seq::empty()),
            MessageView::Interested => (
                self.with_peer(i, PeerView { peer_interested: true, ..peer }),
                Seq::empty(),
            ),
            MessageView::NotInterested => (
                self.with_peer(i, PeerView { peer_interested: false, ..peer }),
                Seq::empty(),
            ),
            MessageView::Have(piece) => self.on_have(i, piece),
            MessageView::Bitfield(bytes) => self.on_bitfield(i, bytes),
            MessageView::Piece(piece, begin, data) => self.on_piece(addr, piece, begin, data),
            MessageView::Request(piece, begin, length) => self.on_request(i, piece, begin, length),
            MessageView::Cancel(_, _, _) => (self, Seq::empty()),
            MessageView::Keepalive => (self, Seq::empty()),
        }
    }

    /// What follows once `data`, asked for by the peer at `addr`, is read
    /// from the file: it is counted for the peer and sent to it.
    pub open spec fn loaded(self, addr: PeerAddr, piece: u32, begin: u32, data: Seq<u8>) -> (
        EngineView,
        Seq<ActionView>,
    ) {
        if has_peer(self.peers, addr) {
            let i = peer_index(self.peers, addr);
            let peer = self.peers[i];
            (
                self.with_peer(
                    i,
                    PeerView {
                        downloaded: sat_add(peer.downloaded, data.len() as int),
                        downloaded_recently: sat_add(peer.downloaded_recently, data.len() as int),
                        ..peer
                    },
                ),
                seq![ActionView::Send(addr, MessageView::Piece(piece, begin, data))],
            )
        } else {
            (self, Seq::empty())
        }
    }
}


impl MainState {
    /// The engine's invariant: a sound store and request table, peers with
    /// different addresses, and for each peer a bitfield as long in bytes
    /// as our own.
    pub open spec fn wf(&self) -> bool {
        &&& self.file.wf()
        &&& self@.store.wf()
        &&& self.requested.wf()
        &&& distinct_addrs(self@.peers)
        &&& requests_have_peers(self@.peers, self@.requested)
        &&& forall|i: int|
            0 <= i < self.peers@.len() ==> {
                &&& (#[trigger] self.peers@[i]).has.wf()
                &&& self.peers@[i].has@.len() <= Bitfield::max_len()
                &&& byte_len(self.peers@[i].has@.len() as int) == byte_len(self@.store.len())
            }
    }

    /// The place of the peer with the address `addr`, if it is connected.
    pub fn find_peer(&self, addr: PeerAddr) -> (r: Option<usize>)
        ensures
            r is Some <==> has_peer(self@.peers, addr),
            r matches Some(i) ==> i < self@.peers.len() && self@.peers[i as int].addr == addr,
            distinct_addrs(self@.peers) ==> (r matches Some(i) ==> i == peer_index(self@.peers, addr)),
    {
        let mut i: usize = 0;
        while i < self.peers.len()
            invariant
                i <= self.peers@.len(),
                forall|k: int| 0 <= k < i ==> (#[trigger] self@.peers[k]).addr != addr,
            decreases self.peers@.len() - i,
        {
            if self.peers[i].addr == addr {
                assert(self@.peers[i as int].addr == addr);
                return Some(i);
            }
            i += 1;
        }
        None
    }
}


fn emit(actions: &mut Vec<Action>, action: Action)
    ensures
        views(final(actions)@) == views(old(actions)@).push(action@),
{
    actions.push(action);
    assert(views(actions@) =~= views(old(actions)@).push(action@));
}

fn add_saturating(a: usize, b: usize) -> (r: usize)
    ensures
        r == sat_add(a as int, b as int),
{
    if b > usize::MAX - a {
        usize::MAX
    } else {
        a + b
    }
}

/// Whether `theirs` has a bit set that `ours` has cleared.
pub fn interest(theirs: &Bitfield, ours: &Bitfield) -> (r: bool)
    ensures
        r == wants_from(theirs@, ours@),
{
    let n = if theirs.len() < ours.len() {
        theirs.len()
    } else {
        ours.len()
    };
    let mut i: usize = 0;
    while i < n
        invariant
            i <= n,
            n <= theirs@.len(),
            n <= ours@.len(),
            n == theirs@.len() || n == ours@.len(),
            forall|k: int| 0 <= k < i ==> !(#[trigger] theirs@[k] && !ours@[k]),
        decreases n - i,
    {
        let t = theirs.get(i);
        let o = ours.get(i);
        if t == Some(true) && o == Some(false) {
            assert(theirs@[i as int] && !ours@[i as int]);
            return true;
        }
        i += 1;
    }
    false
}

impl MainState {
    fn rescan(&mut self, i: usize, actions: &mut Vec<Action>)
        requires
            old(self).wf(),
            i < old(self).peers@.len(),
        ensures
            final(self).wf(),
            final(self)@ == old(self)@.rescanned(i as int).0,
            views(final(actions)@) == views(old(actions)@) + old(self)@.rescanned(i as int).1,
    {
        let want = interest(&self.peers[i].has, self.file.bitvec());
        if want != self.peers[i].interested {
            self.peers[i].interested = want;
            let message = if want {
                Message::Interested
            } else {
                Message::NotInterested
            };
            emit(actions, Action::Send(self.peers[i].addr, message));
            proof {
                lemma_peers_kept(old(self)@.peers, self@.peers, self@.requested);
                assert(self@.peers =~= old(self)@.rescanned(i as int).0.peers);
                assert(views(actions@) =~= views(old(actions)@) + old(self)@.rescanned(i as int).1);
            }
        } else {
            assert(views(actions@) =~= views(old(actions)@) + old(self)@.rescanned(i as int).1);
        }
    }

    fn credit(&mut self, addr: PeerAddr, length: usize, actions: &mut Vec<Action>)
        requires
            old(self).wf(),
        ensures
            final(self).wf(),
            final(self)@ == old(self)@.credited(addr, length as int).0,
            views(final(actions)@) == views(old(actions)@) + old(self)@.credited(addr, length as int).1,
    {
        match self.find_peer(addr) {
            None => {
                assert(views(actions@) =~= views(old(actions)@) + old(self)@.credited(addr, length as int).1);
            },
            Some(i) => {
                self.peers[i].uploaded = add_saturating(self.peers[i].uploaded, length);
                self.peers[i].uploaded_recently = add_saturating(self.peers[i].uploaded_recently, length);
                proof {
                    let peer = old(self)@.peers[i as int];
                    let next = old(self)@.with_peer(
                        i as int,
                        PeerView {
                            uploaded: sat_add(peer.uploaded, length as int),
                            uploaded_recently: sat_add(peer.uploaded_recently, length as int),
                            ..peer
                        },
                    );
                    lemma_peers_kept(old(self)@.peers, self@.peers, self@.requested);
                    assert(self@.peers =~= next.peers);
                    assert(self@ == next);
                }
                self.rescan(i, actions);
            },
        }
    }

    fn evict_into(&mut self, addr: PeerAddr, actions: &mut Vec<Action>)
        requires
            old(self).wf(),
        ensures
            final(self).wf(),
            final(self)@ == old(self)@.evicted(addr).0,
            views(final(actions)@) == views(old(actions)@) + old(self)@.evicted(addr).1,
    {
        let tokens = self.requested.remove_peer(addr);
        let mut k: usize = 0;
        while k < tokens.len()
            invariant
                k <= tokens@.len(),
                views(actions@) == views(old(actions)@) + cancels(tokens@).take(k as int),
            decreases tokens@.len() - k,
        {
            emit(actions, Action::Timer(TimerRequest::Cancel(tokens[k])));
            k += 1;
            assert(views(actions@) =~= views(old(actions)@) + cancels(tokens@).take(k as int));
        }
        assert(cancels(tokens@).take(k as int) =~= cancels(tokens@));
        proof {
            lemma_evicted_purges(old(self)@, addr);
        }
        match self.find_peer(addr) {
            None => {
                assert(self@.peers =~= old(self)@.evicted(addr).0.peers);
            },
            Some(i) => {
                self.peers.remove(i);
                emit(actions, Action::Drop(addr));
                proof {
                    assert(self@.peers =~= old(self)@.peers.remove(i as int));
                    assert(views(actions@) =~= views(old(actions)@) + old(self)@.evicted(addr).1);
                }
            },
        }
    }

    /// Lets go of the peer at `addr`: because a message could not be handed
    /// to its session, or because the session ended. Its record is removed,
    /// its requests are forfeited and their timers cancelled.
    pub fn evict(&mut self, addr: PeerAddr) -> (r: Vec<Action>)
        requires
            old(self).wf(),
        ensures
            final(self).wf(),
            final(self)@ == old(self)@.evicted(addr).0,
            views(r@) == old(self)@.evicted(addr).1,
    {
        let mut actions: Vec<Action> = Vec::new();
        self.evict_into(addr, &mut actions);
        assert(views(actions@) =~= old(self)@.evicted(addr).1);
        actions
    }

    /// Takes in a connection that was established, inbound or outbound.
    ///
    /// An address that is connected already gets nothing: no action comes
    /// back, and the new socket is to be dropped. Any other gets a record,
    /// and is sent our bitfield and an unchoke.
    pub fn on_connection(&mut self, addr: PeerAddr) -> (r: Vec<Action>)
        requires
            old(self).wf(),
        ensures
            final(self).wf(),
            final(self)@ == old(self)@.connected(addr).0,
            views(r@) == old(self)@.connected(addr).1,
    {
        let mut actions: Vec<Action> = Vec::new();
        if self.find_peer(addr).is_some() {
            assert(views(actions@) =~= old(self)@.connected(addr).1);
            return actions;
        }
        let peer = PeerInfo::new(addr, self.file.num_pieces());
        self.peers.push(peer);
        let bytes = vstd::slice::slice_to_vec(self.file.bitfield());
        emit(&mut actions, Action::Send(addr, Message::Bitfield(bytes)));
        emit(&mut actions, Action::Send(addr, Message::Unchoke));
        proof {
            lemma_peers_grown(old(self)@.peers, new_peer(addr, old(self)@.store.len()), old(self)@.requested);
            assert(self@.peers =~= old(self)@.connected(addr).0.peers);
            assert(views(actions@) =~= old(self)@.connected(addr).1);
        }
        actions
    }

    fn have(&mut self, i: usize, piece: u32, actions: &mut Vec<Action>)
        requires
            old(self).wf(),
            i < old(self).peers@.len(),
            old(actions)@.len() == 0,
        ensures
            final(self).wf(),
            final(self)@ == old(self)@.on_have(i as int, piece).0,
            views(final(actions)@) == old(self)@.on_have(i as int, piece).1,
    {
        let p = piece as usize;
        if p < self.peers[i].has.len() {
            self.peers[i].has.set(p, true);
        }
        let ours = self.file.bitvec().get(p);
        if !self.peers[i].interested && ours == Some(false) {
            self.peers[i].interested = true;
            emit(actions, Action::Send(self.peers[i].addr, Message::Interested));
        }
        proof {
            lemma_peers_kept(old(self)@.peers, self@.peers, self@.requested);
            assert(self@.peers =~= old(self)@.on_have(i as int, piece).0.peers);
            assert(views(actions@) =~= old(self)@.on_have(i as int, piece).1);
        }
    }

    fn bitfield(&mut self, i: usize, bytes: Vec<u8>, actions: &mut Vec<Action>)
        requires
            old(self).wf(),
            i < old(self).peers@.len(),
            old(actions)@.len() == 0,
        ensures
            final(self).wf(),
            final(self)@ == old(self)@.on_bitfield(i as int, bytes@).0,
            views(final(actions)@) == old(self)@.on_bitfield(i as int, bytes@).1,
    {
        if bytes.len() == self.peers[i].has.as_raw_slice().len() {
            self.peers[i].has = Bitfield::from_bytes(bytes.as_slice());
            proof {
                let peer = old(self)@.peers[i as int];
                let next = old(self)@.with_peer(i as int, PeerView { has: unpack(bytes@), ..peer });
                lemma_peers_kept(old(self)@.peers, self@.peers, self@.requested);
                assert(self@.peers =~= next.peers);
                assert(self@ == next);
            }
            self.rescan(i, actions);
            assert(views(actions@) =~= old(self)@.on_bitfield(i as int, bytes@).1);
        } else {
            assert(views(actions@) =~= old(self)@.on_bitfield(i as int, bytes@).1);
        }
    }

    fn piece(&mut self, addr: PeerAddr, piece: u32, begin: u32, data: Vec<u8>, actions: &mut Vec<Action>)
        requires
            old(self).wf(),
            old(actions)@.len() == 0,
        ensures
            final(self).wf(),
            final(self)@ == old(self)@.on_piece(addr, piece, begin, data@).0,
            views(final(actions)@) == old(self)@.on_piece(addr, piece, begin, data@).1,
    {
        let length = data.len();
        let end = match (begin as usize).checked_add(length) {
            Some(end) => end,
            None => {
                assert(views(actions@) =~= old(self)@.on_piece(addr, piece, begin, data@).1);
                return ;
            },
        };
        let sel = Selector::Value(BlockInfo { piece: piece as usize, range: (begin as usize)..end }, addr);
        let mut answered = self.requested.extract(&sel);
        proof {
            lemma_split(old(self)@.requested, sel);
            if answered@.len() == 0 {
                lemma_nothing_dropped(old(self)@.requested, sel);
            }
            lemma_requests_kept(self@.peers, old(self)@.requested, self@.requested);
        }
        let token = match answered.pop() {
            Some(entry) => entry.0,
            None => {
                assert(views(actions@) =~= old(self)@.on_piece(addr, piece, begin, data@).1);
                return ;
            },
        };
        emit(actions, Action::Timer(TimerRequest::Cancel(token)));
        match self.file.plan_range(piece as usize, begin as usize, end) {
            Err(_) => {},
            Ok(Some(placement)) => {
                emit(actions, Action::Store { peer: addr, piece, begin, data, placement });
            },
            Ok(None) => {
                self.credit(addr, length, actions);
            },
        }
        assert(views(actions@) =~= old(self)@.on_piece(addr, piece, begin, data@).1);
    }

    fn request(&mut self, i: usize, piece: u32, begin: u32, length: u32, actions: &mut Vec<Action>)
        requires
            old(self).wf(),
            i < old(self).peers@.len(),
            old(actions)@.len() == 0,
        ensures
            final(self).wf(),
            final(self)@ == old(self)@.on_request(i as int, piece, begin, length).0,
            views(final(actions)@) == old(self)@.on_request(i as int, piece, begin, length).1,
    {
        if self.peers[i].choked {
            assert(views(actions@) =~= old(self)@.on_request(i as int, piece, begin, length).1);
            return ;
        }
        let addr = self.peers[i].addr;
        let ghost expected = old(self)@.store.locate(piece as int, begin as int, begin + length);
        let located = match (begin as usize).checked_add(length as usize) {
            Some(end) => self.file.get_block(BlockInfo { piece: piece as usize, range: (begin as usize)..end }),
            None => {
                proof {
                    if piece < old(self)@.store.len() {
                        crate::file::lemma_piece_within(old(self)@.store, piece as int);
                    }
                    assert(expected is Err);
                }
                Err(StoreError::RangeInvalid)
            },
        };
        assert(located is Ok ==> located == expected);
        assert(located is Err ==> expected is Err);
        match located {
            Ok(span) => {
                emit(actions, Action::Load { peer: addr, piece, begin, span });
                assert(views(actions@) =~= seq![ActionView::Load { peer: addr, piece, begin, span }]);
            },
            Err(_) => {
                self.evict_into(addr, actions);
                assert(views(actions@) =~= old(self)@.evicted(addr).1);
            },
        }
    }

    /// Takes in what a peer session reports.
    ///
    /// A message from a peer that has a record is handled as
    /// [`EngineView::on_message`] says. A message from an address that has
    /// none is refused, and changes nothing. Heartbeats and deaths call for
    /// nothing.
    pub fn handle_peer_response(&mut self, resp: PeerResponse) -> (r: Result<Vec<Action>, EngineError>)
        requires
            old(self).wf(),
        ensures
            final(self).wf(),
            match resp {
                PeerResponse::MessageReceived(addr, message) => if has_peer(old(self)@.peers, addr) {
                    &&& r is Ok
                    &&& final(self)@ == old(self)@.on_message(addr, message@).0
                    &&& views(r->Ok_0@) == old(self)@.on_message(addr, message@).1
                } else {
                    r == Err::<Vec<Action>, EngineError>(EngineError::UnknownPeer) && final(self)@ == old(self)@
                },
                _ => r is Ok && r->Ok_0@.len() == 0 && final(self)@ == old(self)@,
            },
    {
        let mut actions: Vec<Action> = Vec::new();
        let (addr, message) = match resp {
            PeerResponse::MessageReceived(addr, message) => (addr, message),
            _ => {
                return Ok(actions);
            },
        };
        let i = match self.find_peer(addr) {
            Some(i) => i,
            None => {
                return Err(EngineError::UnknownPeer);
            },
        };
        match message {
            Message::Choke => {
                self.peers[i].peer_choked = true;
                proof {
                    lemma_peers_kept(old(self)@.peers, self@.peers, self@.requested);
                }
            },
            Message::Unchoke => {
                self.peers[i].peer_choked = false;
                proof {
                    lemma_peers_kept(old(self)@.peers, self@.peers, self@.requested);
                }
            },
            Message::Interested => {
                self.peers[i].peer_interested = true;
                proof {
                    lemma_peers_kept(old(self)@.peers, self@.peers, self@.requested);
                }
            },
            Message::NotInterested => {
                self.peers[i].peer_interested = false;
                proof {
                    lemma_peers_kept(old(self)@.peers, self@.peers, self@.requested);
                }
            },
            Message::Have(piece) => {
                self.have(i, piece, &mut actions);
            },
            Message::Bitfield(bytes) => {
                self.bitfield(i, bytes, &mut actions);
            },
            Message::Piece(piece, begin, data) => {
                self.piece(addr, piece, begin, data, &mut actions);
            },
            Message::Request(piece, begin, length) => {
                self.request(i, piece, begin, length, &mut actions);
            },
            Message::Cancel(_, _, _) => {},
            Message::Keepalive => {},
        }
        proof {
            assert(self@.peers =~= old(self)@.on_message(addr, message@).0.peers);
            assert(views(actions@) =~= old(self)@.on_message(addr, message@).1);
        }
        Ok(actions)
    }

    /// Takes in the digest of a piece read back, for a block from `addr`
    /// that is in the file: `length` bytes at `begin` in `piece`. See
    /// [`EngineView::recorded`].
    pub fn block_recorded(&mut self, addr: PeerAddr, piece: u32, begin: u32, length: usize, digest: &[u8; DIGEST_SIZE]) -> (r:
        Vec<Action>)
        requires
            old(self).wf(),
        ensures
            final(self).wf(),
            final(self)@ == old(self)@.recorded(addr, piece, begin, length as int, digest@).0,
            views(r@) == old(self)@.recorded(addr, piece, begin, length as int, digest@).1,
    {
        let mut actions: Vec<Action> = Vec::new();
        let p = piece as usize;
        let was = match self.file.piece_is_complete(p) {
            Ok(bit) => bit,
            Err(_) => {
                assert(views(actions@) =~= old(self)@.recorded(addr, piece, begin, length as int, digest@).1);
                return actions;
            },
        };
        match (begin as usize).checked_add(length) {
            Some(end) => {
                let info = BlockInfo { piece: p, range: (begin as usize)..end };
                let _ = self.file.record_block(&info, digest);
            },
            None => {},
        }
        proof {
            self.file.lemma_view_wf();
        }
        let now = match self.file.piece_is_complete(p) {
            Ok(bit) => bit,
            Err(_) => false,
        };
        self.credit(addr, length, &mut actions);
        let ghost told = views(actions@);
        if !was && now {
            let mut k: usize = 0;
            while k < self.peers.len()
                invariant
                    k <= self.peers@.len(),
                    p == piece,
                    views(actions@) == told + broadcast(self@.peers, piece, k as int),
                decreases self.peers@.len() - k,
            {
                match self.peers[k].has.get(p) {
                    Some(true) => {},
                    _ => {
                        emit(&mut actions, Action::Send(self.peers[k].addr, Message::Have(piece)));
                    },
                }
                k += 1;
                assert(views(actions@) =~= told + broadcast(self@.peers, piece, k as int));
            }
        }
        assert(views(actions@) =~= old(self)@.recorded(addr, piece, begin, length as int, digest@).1);
        actions
    }

    /// Takes in a block from `addr` that was written where the `Store`
    /// action said: `length` bytes at `begin` in `piece`. `stored` holds
    /// the piece as read back from the file if the action asked for that;
    /// otherwise it is not looked at.
    ///
    /// This is [`MainState::block_recorded`] with the SHA-1 digest of
    /// `stored`.
    pub fn block_stored(&mut self, addr: PeerAddr, piece: u32, begin: u32, length: usize, stored: &[u8]) -> (r: Vec<
        Action,
    >)
        requires
            old(self).wf(),
        ensures
            final(self).wf(),
            final(self)@ == old(self)@.recorded(addr, piece, begin, length as int, sha1_of(stored@)).0,
            views(r@) == old(self)@.recorded(addr, piece, begin, length as int, sha1_of(stored@)).1,
    {
        let completes = match (begin as usize).checked_add(length) {
            Some(end) => match self.file.plan_range(piece as usize, begin as usize, end) {
                Ok(Some(placement)) => placement.verify.is_some(),
                _ => false,
            },
            None => false,
        };
        let digest: [u8; DIGEST_SIZE] = if completes {
            sha1(stored)
        } else {
            [0u8, 0u8, 0u8, 0u8, 0u8, 0u8, 0u8, 0u8, 0u8, 0u8, 0u8, 0u8, 0u8, 0u8, 0u8, 0u8, 0u8, 0u8, 0u8, 0u8]
        };
        proof {
            if !completes {
                lemma_digest_unused(
                    self@.store,
                    piece as int,
                    begin as int,
                    begin + length,
                    digest@,
                    sha1_of(stored@),
                );
            }
        }
        self.block_recorded(addr, piece, begin, length, &digest)
    }

    /// Takes in `data` read from the file for a request of the peer at
    /// `addr`: it is counted for the peer and sent to it as a `Piece`.
    /// Nothing is done for a peer that is gone.
    pub fn block_loaded(&mut self, addr: PeerAddr, piece: u32, begin: u32, data: Vec<u8>) -> (r: Vec<Action>)
        requires
            old(self).wf(),
        ensures
            final(self).wf(),
            final(self)@ == old(self)@.loaded(addr, piece, begin, data@).0,
            views(r@) == old(self)@.loaded(addr, piece, begin, data@).1,
    {
        let mut actions: Vec<Action> = Vec::new();
        match self.find_peer(addr) {
            None => {},
            Some(i) => {
                self.peers[i].downloaded = add_saturating(self.peers[i].downloaded, data.len());
                self.peers[i].downloaded_recently = add_saturating(self.peers[i].downloaded_recently, data.len());
                emit(&mut actions, Action::Send(addr, Message::Piece(piece, begin, data)));
                proof {
                    lemma_peers_kept(old(self)@.peers, self@.peers, self@.requested);
                }
                assert(self@.peers =~= old(self)@.loaded(addr, piece, begin, data@).0.peers);
            },
        }
        assert(views(actions@) =~= old(self)@.loaded(addr, piece, begin, data@).1);
        actions
    }
}


/// Milliseconds between a tracker response and the next announce.
pub const ANNOUNCE_INTERVAL_MS: u64 = 20000;

/// `secs` seconds in milliseconds, or the largest `u64` if that is less.
pub open spec fn timeout_ms(secs: u64) -> u64 {
    if secs > u64::MAX / 1000 {
        u64::MAX
    } else {
        (secs * 1000) as u64
    }
}

/// The `Request` message that asks for `block`, if the block can be named
/// in the 32-bit fields of the message.
pub open spec fn request_message(block: BlockInfo) -> Option<MessageView> {
    if block.range.start <= block.range.end && block.piece <= u32::MAX && block.range.start <= u32::MAX
        && block.range.end - block.range.start <= u32::MAX {
        Some(
            MessageView::Request(
                block.piece as u32,
                block.range.start as u32,
                (block.range.end - block.range.start) as u32,
            ),
        )
    } else {
        None
    }
}

/// The bytes that the first `k` peers sent us, counted together.
pub open spec fn sum_uploaded(peers: Seq<PeerView>, k: int) -> int
    decreases k,
{
    if k <= 0 {
        0
    } else {
        sat_add(sum_uploaded(peers, k - 1), peers[k - 1].uploaded)
    }
}

/// The bytes that we sent the first `k` peers, counted together.
pub open spec fn sum_downloaded(peers: Seq<PeerView>, k: int) -> int
    decreases k,
{
    if k <= 0 {
        0
    } else {
        sat_add(sum_downloaded(peers, k - 1), peers[k - 1].downloaded)
    }
}

/// The place, among the first `k` peers, of the one that sent us the least
/// of late; the first of them if there are several.
pub open spec fn least_recent(peers: Seq<PeerView>, k: int) -> int
    decreases k,
{
    if k <= 1 {
        0
    } else {
        let m = least_recent(peers, k - 1);
        if peers[k - 1].uploaded_recently < peers[m].uploaded_recently {
            k - 1
        } else {
            m
        }
    }
}

/// The peers with their recent counts back at zero.
pub open spec fn recent_reset(peers: Seq<PeerView>) -> Seq<PeerView> {
    Seq::new(peers.len(), |i: int| PeerView { uploaded_recently: 0, downloaded_recently: 0, ..peers[i] })
}

/// The connections to open for the first `k` addresses that the tracker
/// gave: one for each that is not connected.
pub open spec fn dials(known: Seq<PeerView>, found: Seq<PeerAddr>, k: int) -> Seq<ActionView>
    decreases k,
{
    if k <= 0 {
        Seq::empty()
    } else if has_peer(known, found[k - 1]) {
        dials(known, found, k - 1)
    } else {
        dials(known, found, k - 1).push(ActionView::Dial(found[k - 1]))
    }
}

impl EngineView {
    /// The announce that reports where the download stands.
    pub open spec fn announce(self, left: int, event: Option<Event>) -> ActionView {
        ActionView::Announce {
            uploaded: sum_uploaded(self.peers, self.peers.len() as int) as usize,
            downloaded: sum_downloaded(self.peers, self.peers.len() as int) as usize,
            left: left as usize,
            event,
        }
    }

    /// What the firing of the timer `token` leads to. The announce timer
    /// calls for an announce. The timer of a request in flight forfeits
    /// the request and evicts the peer that did not answer. Any other
    /// token is a late fire, and is passed over.
    pub open spec fn timer_fired(self, token: Token) -> (EngineView, Seq<ActionView>) {
        if token == self.tracker_timer_id {
            (self, seq![self.announce(self.store.total - self.store.verified, None)])
        } else if holds_token(self.requested, token) {
            let addr = self.requested[token_index(self.requested, token)].1.1;
            EngineView { requested: without_token(self.requested, token), ..self }.evicted(addr)
        } else {
            (self, Seq::empty())
        }
    }

    /// What one pick of the scheduler leads to, with `token` for its timer:
    /// nothing if the peer is gone or the block cannot be named in a
    /// message; else the request is sent, its timer is started, and it
    /// enters the table.
    pub open spec fn issued_one(self, pick: Pending, token: Token) -> (EngineView, Seq<ActionView>) {
        if !has_peer(self.peers, pick.1) {
            (self, Seq::empty())
        } else {
            match request_message(pick.0) {
                None => (self, Seq::empty()),
                Some(message) => (
                    EngineView { requested: without_token(self.requested, token).push((token, pick)), ..self },
                    seq![
                        ActionView::Send(pick.1, message),
                        ActionView::Timer(
                            TimerRequest::Timer(
                                TimerInfo { timer_len: timeout_ms(self.request_timeout), id: token, repeat: false },
                            ),
                        ),
                    ],
                ),
            }
        }
    }

    /// What the first `k` picks lead to, each with the token of the same
    /// place.
    pub open spec fn issued(self, picks: Seq<Pending>, tokens: Seq<Token>, k: int) -> (EngineView, Seq<ActionView>)
        decreases k,
    {
        if k <= 0 {
            (self, Seq::empty())
        } else {
            let (mid, acts) = self.issued(picks, tokens, k - 1);
            let (next, more) = mid.issued_one(picks[k - 1], tokens[k - 1]);
            (next, acts + more)
        }
    }

    /// Whether the run is over: every piece is verified, and we were not
    /// asked to go on seeding.
    pub open spec fn finished(self) -> bool {
        self.leaves_when_done && forall|i: int| 0 <= i < self.store.bits.len() ==> self.store.bits[i]
    }

    /// What the end of the run calls for: a last announce, and leaving.
    pub open spec fn farewell(self) -> Seq<ActionView> {
        if self.finished() {
            seq![self.announce(0, Some(Event::Completed)), ActionView::Exit]
        } else {
            Seq::empty()
        }
    }

    /// The state after `count` evictions, each of the peer that sent us the
    /// least of late.
    pub open spec fn pruned(self, count: int) -> (EngineView, Seq<ActionView>)
        decreases count,
    {
        if count <= 0 || self.peers.len() == 0 {
            (self, Seq::empty())
        } else {
            let addr = self.peers[least_recent(self.peers, self.peers.len() as int)].addr;
            let (next, acts) = self.evicted(addr);
            let (last, more) = next.pruned(count - 1);
            (last, acts + more)
        }
    }

    /// What a tracker response that names the addresses `found` leads to.
    ///
    /// The timer for the next announce is started. The peers beyond half
    /// the connection limit are evicted, those that sent us the least of
    /// late first, and the recent counts start again. Then, unless the
    /// limit is reached, a connection is opened to each address that is not
    /// connected.
    pub open spec fn tracker_answered(self, found: Seq<PeerAddr>) -> (EngineView, Seq<ActionView>) {
        let timer = ActionView::Timer(
            TimerRequest::Timer(TimerInfo { timer_len: ANNOUNCE_INTERVAL_MS, id: self.tracker_timer_id, repeat: false }),
        );
        let (kept_state, evictions) = self.pruned(self.peers.len() - self.max_connections / 2);
        let next = EngineView { peers: recent_reset(kept_state.peers), ..kept_state };
        let calls = if next.peers.len() >= self.max_connections {
            Seq::empty()
        } else {
            dials(next.peers, found, found.len() as int)
        };
        (next, seq![timer] + evictions + calls)
    }
}

proof fn lemma_peers_kept(before: Seq<PeerView>, after: Seq<PeerView>, requested: Seq<Entry>)
    requires
        requests_have_peers(before, requested),
        before.len() == after.len(),
        forall|i: int| 0 <= i < before.len() ==> (#[trigger] after[i]).addr == before[i].addr,
    ensures
        requests_have_peers(after, requested),
{
    assert forall|k: int| 0 <= k < requested.len() implies has_peer(after, (#[trigger] requested[k]).1.1) by {
        let i = peer_index(before, requested[k].1.1);
        assert(after[i].addr == requested[k].1.1);
    }
}

proof fn lemma_peers_grown(before: Seq<PeerView>, peer: PeerView, requested: Seq<Entry>)
    requires
        requests_have_peers(before, requested),
    ensures
        requests_have_peers(before.push(peer), requested),
{
    let after = before.push(peer);
    assert forall|k: int| 0 <= k < requested.len() implies has_peer(after, (#[trigger] requested[k]).1.1) by {
        let i = peer_index(before, requested[k].1.1);
        assert(after[i].addr == requested[k].1.1);
    }
}

proof fn lemma_requests_kept(peers: Seq<PeerView>, before: Seq<Entry>, after: Seq<Entry>)
    requires
        requests_have_peers(peers, before),
        forall|k: int| 0 <= k < after.len() ==> before.contains(#[trigger] after[k]),
    ensures
        requests_have_peers(peers, after),
{
    assert forall|k: int| 0 <= k < after.len() implies has_peer(peers, (#[trigger] after[k]).1.1) by {
        let j = choose|j: int| 0 <= j < before.len() && before[j] == after[k];
        assert(has_peer(peers, before[j].1.1));
    }
}

/// Once a peer is evicted it has no record, and no request to it is in
/// flight; every request that is left is to a peer that has a record, if
/// that was so before.
pub proof fn lemma_evicted_purges(e: EngineView, addr: PeerAddr)
    requires
        distinct_addrs(e.peers),
    ensures
        !has_peer(e.evicted(addr).0.peers, addr),
        count_to(e.evicted(addr).0.requested, addr) == 0,
        distinct_addrs(e.evicted(addr).0.peers),
        requests_have_peers(e.peers, e.requested) ==> requests_have_peers(
            e.evicted(addr).0.peers,
            e.evicted(addr).0.requested,
        ),
{
    lemma_without_peer(e.requested, addr);
    let after = e.evicted(addr).0.peers;
    let left = e.evicted(addr).0.requested;
    lemma_split(e.requested, Selector::Peer(addr));
    if requests_have_peers(e.peers, e.requested) {
        assert forall|k: int| 0 <= k < left.len() implies has_peer(after, (#[trigger] left[k]).1.1) by {
            let other = left[k].1.1;
            assert(e.requested.contains(left[k]));
            let j = choose|j: int| 0 <= j < e.requested.len() && e.requested[j] == left[k];
            assert(has_peer(e.peers, e.requested[j].1.1));
            let i0 = peer_index(e.peers, other);
            if has_peer(e.peers, addr) {
                let i = peer_index(e.peers, addr);
                if i0 < i {
                    assert(after[i0] == e.peers[i0]);
                } else {
                    assert(after[i0 - 1] == e.peers[i0]);
                }
            }
        }
    }
    if has_peer(e.peers, addr) {
        let i = peer_index(e.peers, addr);
        assert forall|j: int| 0 <= j < after.len() implies (#[trigger] after[j]).addr != addr by {
            let j0 = if j < i { j } else { j + 1 };
            assert(after[j] == e.peers[j0]);
        }
        assert forall|a: int, b: int| 0 <= a < b < after.len() implies (#[trigger] after[a]).addr != (
        #[trigger] after[b]).addr by {
            let a0 = if a < i { a } else { a + 1 };
            let b0 = if b < i { b } else { b + 1 };
            assert(after[a] == e.peers[a0] && after[b] == e.peers[b0]);
        }
    }
}

/// Evictions leave the store and the settings as they were, and add no peer.
pub proof fn lemma_pruned_frame(e: EngineView, count: int)
    ensures
        e.pruned(count).0.store == e.store,
        e.pruned(count).0.depth == e.depth,
        e.pruned(count).0.request_timeout == e.request_timeout,
        e.pruned(count).0.max_connections == e.max_connections,
        e.pruned(count).0.leaves_when_done == e.leaves_when_done,
        e.pruned(count).0.tracker_timer_id == e.tracker_timer_id,
        e.pruned(count).0.peers.len() <= e.peers.len(),
    decreases count,
{
    if count > 0 && e.peers.len() > 0 {
        let addr = e.peers[least_recent(e.peers, e.peers.len() as int)].addr;
        lemma_pruned_frame(e.evicted(addr).0, count - 1);
    }
}

/// `rand::thread_rng().gen::<u64>()`: a token that chance decides.
#[verifier::external_body]
fn fresh_token() -> Token {
    rand::thread_rng().gen()
}

fn to_ms(secs: u64) -> (r: u64)
    ensures
        r == timeout_ms(secs),
{
    if secs > u64::MAX / 1000 {
        u64::MAX
    } else {
        secs * 1000
    }
}

fn fits_u32(n: usize) -> (r: bool)
    ensures
        r == (n <= u32::MAX),
{
    n as u64 <= 0xffff_ffff
}

impl MainState {
    /// The engine at the start of a run: no peer, no request in flight,
    /// and a token for the announce timer that chance decides.
    pub fn new(file: DownloadFile, args: Args) -> (r: Self)
        requires
            file.wf(),
        ensures
            r.wf(),
            r@.peers.len() == 0,
            r@.requested.len() == 0,
            r@.store == file@,
            r.args == args,
    {
        proof {
            file.lemma_view_wf();
        }
        MainState { peers: Vec::new(), file, requested: RequestTable::new(), args, tracker_timer_id: fresh_token() }
    }

    /// The bytes that the peers sent us, counted together.
    pub fn uploaded(&self) -> (r: usize)
        ensures
            r == sum_uploaded(self@.peers, self@.peers.len() as int),
    {
        let mut total: usize = 0;
        let mut i: usize = 0;
        while i < self.peers.len()
            invariant
                i <= self.peers@.len(),
                total == sum_uploaded(self@.peers, i as int),
            decreases self.peers@.len() - i,
        {
            total = add_saturating(total, self.peers[i].uploaded);
            i += 1;
        }
        total
    }

    /// The bytes that we sent the peers, counted together.
    pub fn downloaded(&self) -> (r: usize)
        ensures
            r == sum_downloaded(self@.peers, self@.peers.len() as int),
    {
        let mut total: usize = 0;
        let mut i: usize = 0;
        while i < self.peers.len()
            invariant
                i <= self.peers@.len(),
                total == sum_downloaded(self@.peers, i as int),
            decreases self.peers@.len() - i,
        {
            total = add_saturating(total, self.peers[i].downloaded);
            i += 1;
        }
        total
    }

    fn announce(&self, left: usize, event: Option<Event>) -> (r: Action)
        ensures
            r@ == self@.announce(left as int, event),
    {
        Action::Announce { uploaded: self.uploaded(), downloaded: self.downloaded(), left, event }
    }

    /// Takes in the firing of a timer. See [`EngineView::timer_fired`].
    pub fn on_timer(&mut self, fired: TimerResponse) -> (r: Vec<Action>)
        requires
            old(self).wf(),
        ensures
            final(self).wf(),
            final(self)@ == old(self)@.timer_fired(fired.id).0,
            views(r@) == old(self)@.timer_fired(fired.id).1,
    {
        let mut actions: Vec<Action> = Vec::new();
        if fired.id == self.tracker_timer_id {
            let left = self.file.left();
            let action = self.announce(left, None);
            emit(&mut actions, action);
            assert(views(actions@) =~= old(self)@.timer_fired(fired.id).1);
            return actions;
        }
        match self.requested.remove(fired.id) {
            None => {
                proof {
                    crate::requests::lemma_absent_token(old(self)@.requested, fired.id);
                    assert(self@.peers =~= old(self)@.peers);
                }
            },
            Some(pending) => {
                proof {
                    lemma_split(old(self)@.requested, Selector::Token(fired.id));
                    lemma_requests_kept(self@.peers, old(self)@.requested, self@.requested);
                    let mid = EngineView { requested: without_token(old(self)@.requested, fired.id), ..old(self)@ };
                    assert(self@.peers =~= mid.peers);
                    assert(self@ == mid);
                }
                self.evict_into(pending.1, &mut actions);
            },
        }
        assert(views(actions@) =~= old(self)@.timer_fired(fired.id).1);
        actions
    }

    fn issue_one(&mut self, pick: &Pending, token: Token, actions: &mut Vec<Action>)
        requires
            old(self).wf(),
        ensures
            final(self).wf(),
            final(self)@ == old(self)@.issued_one(*pick, token).0,
            views(final(actions)@) == views(old(actions)@) + old(self)@.issued_one(*pick, token).1,
    {
        let block = &pick.0;
        let addr = pick.1;
        if self.find_peer(addr).is_none() || block.range.start > block.range.end || !fits_u32(block.piece) || !fits_u32(
            block.range.start,
        ) || !fits_u32(block.range.end - block.range.start) {
            assert(views(actions@) =~= views(old(actions)@) + old(self)@.issued_one(*pick, token).1);
            return ;
        }
        let message = Message::Request(
            block.piece as u32,
            block.range.start as u32,
            (block.range.end - block.range.start) as u32,
        );
        emit(actions, Action::Send(addr, message));
        emit(
            actions,
            Action::Timer(
                TimerRequest::Timer(TimerInfo { timer_len: to_ms(self.args.request_timeout), id: token, repeat: false }),
            ),
        );
        let _ = self.requested.insert(token, (block.clone(), addr));
        proof {
            let before = old(self)@.requested;
            let base = without_token(before, token);
            lemma_split(before, Selector::Token(token));
            lemma_requests_kept(self@.peers, before, base);
            assert forall|k: int| 0 <= k < self@.requested.len() implies has_peer(
                self@.peers,
                (#[trigger] self@.requested[k]).1.1,
            ) by {
                if k < base.len() {
                    assert(self@.requested[k] == base[k]);
                }
            }
        }
        assert(views(actions@) =~= views(old(actions)@) + old(self)@.issued_one(*pick, token).1);
    }

    /// Sends out the picks of a scheduling pass, the `k`-th with the
    /// `k`-th token for its timer. See [`EngineView::issued`].
    pub fn issue(&mut self, picks: &Vec<Pending>, tokens: &Vec<Token>) -> (r: Vec<Action>)
        requires
            old(self).wf(),
            tokens@.len() == picks@.len(),
        ensures
            final(self).wf(),
            final(self)@ == old(self)@.issued(picks@, tokens@, picks@.len() as int).0,
            views(r@) == old(self)@.issued(picks@, tokens@, picks@.len() as int).1,
    {
        let mut actions: Vec<Action> = Vec::new();
        let mut k: usize = 0;
        assert(views(actions@) =~= Seq::<ActionView>::empty());
        while k < picks.len()
            invariant
                k <= picks@.len(),
                tokens@.len() == picks@.len(),
                self.wf(),
                self@ == old(self)@.issued(picks@, tokens@, k as int).0,
                views(actions@) == old(self)@.issued(picks@, tokens@, k as int).1,
            decreases picks@.len() - k,
        {
            self.issue_one(&picks[k], tokens[k], &mut actions);
            k += 1;
        }
        actions
    }

    /// One scheduling pass: picks the blocks to ask for, as
    /// [`pick_blocks`] does, and sends the requests out, each with a fresh
    /// token for its timer.
    pub fn schedule(&mut self) -> (r: Vec<Action>)
        requires
            old(self).wf(),
        ensures
            final(self).wf(),
            exists|order: Seq<PeerAddr>, tokens: Seq<Token>|
                {
                    &&& order.to_multiset() == addrs_of(old(self)@.peers).to_multiset()
                    &&& tokens.len() == picks_in_order(old(self)@, order).len()
                    &&& final(self)@ == (#[trigger] old(self)@.issued(
                        picks_in_order(old(self)@, order),
                        tokens,
                        tokens.len() as int,
                    )).0
                    &&& views(r@) == old(self)@.issued(picks_in_order(old(self)@, order), tokens, tokens.len() as int).1
                },
    {
        let picks = pick_blocks(self);
        let mut tokens: Vec<Token> = Vec::new();
        while tokens.len() < picks.len()
            invariant
                tokens@.len() <= picks@.len(),
            decreases picks@.len() - tokens@.len(),
        {
            tokens.push(fresh_token());
        }
        self.issue(&picks, &tokens)
    }

    /// Whether the run is over. See [`EngineView::finished`].
    pub fn finished(&self) -> (r: bool)
        ensures
            r == self@.finished(),
    {
        let leaves = self.args.leaves_when_done();
        let complete = self.file.is_complete();
        proof {
            let bits = self@.store.bits;
            if complete {
                assert forall|i: int| 0 <= i < bits.len() implies bits[i] by {}
            } else {
                let i = choose|i: int| 0 <= i < bits.len() && !bits[i];
                assert(!self@.store.bits[i]);
            }
        }
        leaves && complete
    }

    /// What the end of the run calls for, if it has come: a last announce
    /// that reports the download as completed, and leaving.
    pub fn completion(&self) -> (r: Vec<Action>)
        ensures
            views(r@) == self@.farewell(),
    {
        let mut actions: Vec<Action> = Vec::new();
        if self.finished() {
            let action = self.announce(0, Some(Event::Completed));
            emit(&mut actions, action);
            emit(&mut actions, Action::Exit);
        }
        assert(views(actions@) =~= self@.farewell());
        actions
    }

    fn least_recent(&self) -> (r: usize)
        requires
            self.peers@.len() > 0,
        ensures
            r == least_recent(self@.peers, self@.peers.len() as int),
            r < self.peers@.len(),
    {
        let mut m: usize = 0;
        let mut k: usize = 1;
        while k < self.peers.len()
            invariant
                1 <= k <= self.peers@.len(),
                m < k,
                m == least_recent(self@.peers, k as int),
            decreases self.peers@.len() - k,
        {
            if self.peers[k].uploaded_recently < self.peers[m].uploaded_recently {
                m = k;
            }
            k += 1;
        }
        m
    }

    fn prune(&mut self, count: usize, actions: &mut Vec<Action>)
        requires
            old(self).wf(),
        ensures
            final(self).wf(),
            final(self)@ == old(self)@.pruned(count as int).0,
            views(final(actions)@) == views(old(actions)@) + old(self)@.pruned(count as int).1,
        decreases count,
    {
        if count == 0 || self.peers.len() == 0 {
            assert(views(actions@) =~= views(old(actions)@) + old(self)@.pruned(count as int).1);
            return ;
        }
        let m = self.least_recent();
        let addr = self.peers[m].addr;
        self.evict_into(addr, actions);
        self.prune(count - 1, actions);
        assert(views(actions@) =~= views(old(actions)@) + old(self)@.pruned(count as int).1);
    }

    fn reset_recent(&mut self, i: usize)
        requires
            old(self).wf(),
            i < old(self).peers@.len(),
        ensures
            final(self).wf(),
            final(self)@ == old(self)@.with_peer(
                i as int,
                PeerView { uploaded_recently: 0, downloaded_recently: 0, ..old(self)@.peers[i as int] },
            ),
    {
        self.peers[i].uploaded_recently = 0;
        self.peers[i].downloaded_recently = 0;
        proof {
            let next = old(self)@.with_peer(
                i as int,
                PeerView { uploaded_recently: 0, downloaded_recently: 0, ..old(self)@.peers[i as int] },
            );
            lemma_peers_kept(old(self)@.peers, self@.peers, self@.requested);
            assert(self@.peers =~= next.peers);
        }
    }

    /// Takes in a tracker response that names the addresses `found`. See
    /// [`EngineView::tracker_answered`].
    pub fn on_tracker(&mut self, found: &Vec<PeerAddr>) -> (r: Vec<Action>)
        requires
            old(self).wf(),
        ensures
            final(self).wf(),
            final(self)@ == old(self)@.tracker_answered(found@).0,
            views(r@) == old(self)@.tracker_answered(found@).1,
    {
        let mut actions: Vec<Action> = Vec::new();
        emit(
            &mut actions,
            Action::Timer(
                TimerRequest::Timer(
                    TimerInfo { timer_len: ANNOUNCE_INTERVAL_MS, id: self.tracker_timer_id, repeat: false },
                ),
            ),
        );
        let keep = self.args.max_connections / 2;
        let excess = if self.peers.len() > keep {
            self.peers.len() - keep
        } else {
            0
        };
        let ghost timer = ActionView::Timer(
            TimerRequest::Timer(
                TimerInfo { timer_len: ANNOUNCE_INTERVAL_MS, id: self.tracker_timer_id, repeat: false },
            ),
        );
        assert(views(actions@) =~= seq![timer]);
        self.prune(excess, &mut actions);
        let ghost kept_state = self@;
        let ghost so_far = views(actions@);
        proof {
            let count = old(self)@.peers.len() - old(self)@.max_connections / 2;
            lemma_pruned_frame(old(self)@, count);
            assert(old(self)@.pruned(count) == old(self)@.pruned(excess as int));
            assert(so_far =~= seq![timer] + old(self)@.pruned(count).1);
            assert(kept_state == old(self)@.pruned(count).0);
        }
        let mut i: usize = 0;
        while i < self.peers.len()
            invariant
                i <= self.peers@.len(),
                self.wf(),
                self@.peers.len() == kept_state.peers.len(),
                self@ == (EngineView { peers: self@.peers, ..kept_state }),
                forall|j: int| 0 <= j < i ==> #[trigger] self@.peers[j] == recent_reset(kept_state.peers)[j],
                forall|j: int| i <= j < self@.peers.len() ==> #[trigger] self@.peers[j] == kept_state.peers[j],
            decreases self.peers@.len() - i,
        {
            self.reset_recent(i);
            i += 1;
        }
        assert(self@.peers =~= recent_reset(kept_state.peers));
        if self.peers.len() < self.args.max_connections {
            let mut k: usize = 0;
            while k < found.len()
                invariant
                    k <= found@.len(),
                    views(actions@) == so_far + dials(self@.peers, found@, k as int),
                decreases found@.len() - k,
            {
                if self.find_peer(found[k]).is_none() {
                    emit(&mut actions, Action::Dial(found[k]));
                }
                k += 1;
                assert(views(actions@) =~= so_far + dials(self@.peers, found@, k as int));
            }
        }
        proof {
            let next = EngineView { peers: recent_reset(kept_state.peers), ..kept_state };
            assert(self@ == next);
            if self@.peers.len() >= self@.max_connections {
                assert(views(actions@) =~= so_far + Seq::<ActionView>::empty());
            }
        }
        assert(views(actions@) =~= old(self)@.tracker_answered(found@).1);
        actions
    }
}

} // verus!
