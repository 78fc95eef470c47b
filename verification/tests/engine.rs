use swarm_core::args::Args;
use swarm_core::engine::{Action, EngineError, MainState};
use swarm_core::file::{DownloadFile, FileSpan, Placement, BLOCK_SIZE};
use swarm_core::peers::{Message, PeerAddr, PeerResponse};
use swarm_core::timer::{TimerInfo, TimerRequest, TimerResponse};
use swarm_core::tracker::Event;

const DIGEST_SIZE: usize = 20;

fn hex(text: &str) -> [u8; DIGEST_SIZE] {
    let mut out = [0u8; DIGEST_SIZE];
    for i in 0..DIGEST_SIZE {
        out[i] = u8::from_str_radix(&text[2 * i..2 * i + 2], 16).unwrap();
    }
    out
}

fn addr(last: u8) -> PeerAddr {
    PeerAddr { v6: false, ip: 0x0a00_0000 + last as u128, port: 6881, flowinfo: 0, scope_id: 0 }
}

fn args() -> Args {
    Args::new(String::from("some.torrent"), 6881)
}

/// Two pieces of two blocks each; the first is all zeros, the second all ones.
fn two_pieces() -> MainState {
    let hashes = [
        hex("5188431849b4613152fd7bdba6a3ff0a4fd6424b"),
        hex("d3a26f5cc20679c826302154ccd89edd238cfaca"),
    ];
    MainState::new(DownloadFile::new(&hashes, BLOCK_SIZE * 2, BLOCK_SIZE * 4).unwrap(), args())
}

fn say(state: &mut MainState, from: PeerAddr, message: Message) -> Vec<Action> {
    state.handle_peer_response(PeerResponse::MessageReceived(from, message)).unwrap()
}

/// The tokens of the timers that the actions start.
fn started(actions: &[Action]) -> Vec<u64> {
    let mut out = Vec::new();
    for action in actions {
        if let Action::Timer(TimerRequest::Timer(info)) = action {
            out.push(info.id);
        }
    }
    out
}

#[test]
fn a_new_peer_gets_our_bitfield_and_an_unchoke() {
    let mut state = two_pieces();
    let actions = state.on_connection(addr(1));
    assert_eq!(
        actions,
        vec![Action::Send(addr(1), Message::Bitfield(vec![0x00])), Action::Send(addr(1), Message::Unchoke)]
    );
    assert_eq!(state.peers.len(), 1);
    let peer = &state.peers[0];
    assert_eq!(peer.addr, addr(1));
    assert!(!peer.choked);
    assert!(!peer.interested);
    assert!(peer.peer_choked);
    assert!(!peer.peer_interested);
    assert_eq!(peer.has.len(), 2);
    assert_eq!(peer.has.as_raw_slice(), &[0x00]);
    assert_eq!((peer.uploaded, peer.downloaded), (0, 0));

    // the same address again: the socket is to be dropped
    assert_eq!(state.on_connection(addr(1)), vec![]);
    assert_eq!(state.peers.len(), 1);
}

#[test]
fn flags_follow_the_messages() {
    let mut state = two_pieces();
    state.on_connection(addr(1));
    assert_eq!(say(&mut state, addr(1), Message::Unchoke), vec![]);
    assert!(!state.peers[0].peer_choked);
    assert_eq!(say(&mut state, addr(1), Message::Interested), vec![]);
    assert!(state.peers[0].peer_interested);
    assert_eq!(say(&mut state, addr(1), Message::Choke), vec![]);
    assert!(state.peers[0].peer_choked);
    assert_eq!(say(&mut state, addr(1), Message::NotInterested), vec![]);
    assert!(!state.peers[0].peer_interested);
    assert_eq!(say(&mut state, addr(1), Message::Keepalive), vec![]);
    assert_eq!(say(&mut state, addr(1), Message::Cancel(0, 0, 16384)), vec![]);
    assert_eq!(state.handle_peer_response(PeerResponse::Heartbeat), Ok(vec![]));
    assert_eq!(state.handle_peer_response(PeerResponse::Death), Ok(vec![]));
}

#[test]
fn a_message_from_nobody_is_refused() {
    let mut state = two_pieces();
    state.on_connection(addr(1));
    assert_eq!(
        state.handle_peer_response(PeerResponse::MessageReceived(addr(2), Message::Unchoke)),
        Err(EngineError::UnknownPeer)
    );
    assert!(state.peers[0].peer_choked);
}

#[test]
fn have_makes_us_interested_once() {
    let mut state = two_pieces();
    state.on_connection(addr(1));
    assert_eq!(say(&mut state, addr(1), Message::Have(1)), vec![Action::Send(addr(1), Message::Interested)]);
    assert!(state.peers[0].interested);
    assert_eq!(state.peers[0].has.as_raw_slice(), &[0x40]);
    // already interested: nothing is said
    assert_eq!(say(&mut state, addr(1), Message::Have(0)), vec![]);
    assert_eq!(state.peers[0].has.as_raw_slice(), &[0xC0]);
    // a piece that does not exist: nothing is set, nothing is said
    assert_eq!(say(&mut state, addr(1), Message::Have(99)), vec![]);
    assert_eq!(state.peers[0].has.as_raw_slice(), &[0xC0]);
}

#[test]
fn bitfield_is_taken_only_at_our_length() {
    let mut state = two_pieces();
    state.on_connection(addr(1));
    assert_eq!(say(&mut state, addr(1), Message::Bitfield(vec![0xC0, 0x00])), vec![]);
    assert_eq!(state.peers[0].has.as_raw_slice(), &[0x00]);
    assert_eq!(say(&mut state, addr(1), Message::Bitfield(vec![])), vec![]);
    assert_eq!(
        say(&mut state, addr(1), Message::Bitfield(vec![0x80])),
        vec![Action::Send(addr(1), Message::Interested)]
    );
    assert_eq!(state.peers[0].has.len(), 8);
    assert!(state.peers[0].interested);
    // nothing we lack any more: we say so
    assert_eq!(
        say(&mut state, addr(1), Message::Bitfield(vec![0x00])),
        vec![Action::Send(addr(1), Message::NotInterested)]
    );
    assert!(!state.peers[0].interested);
}

#[test]
fn request_timeout_eviction() {
    let mut state = two_pieces();
    state.args.pipeline_depth = 1;
    state.on_connection(addr(1));
    say(&mut state, addr(1), Message::Bitfield(vec![0xC0]));
    say(&mut state, addr(1), Message::Unchoke);

    let actions = state.schedule();
    assert_eq!(actions.len(), 2);
    assert_eq!(actions[0], Action::Send(addr(1), Message::Request(0, 0, 16384)));
    let token = started(&actions)[0];
    assert_eq!(
        actions[1],
        Action::Timer(TimerRequest::Timer(TimerInfo { timer_len: 12000, id: token, repeat: false }))
    );
    assert_eq!(state.requested.len(), 1);
    assert_eq!(state.requested.count_to(addr(1)), 1);

    // the pipeline is full: a second pass asks for nothing
    assert_eq!(state.schedule(), vec![]);

    // the timer fires before the block came
    let actions = state.on_timer(TimerResponse { id: token });
    assert_eq!(actions, vec![Action::Drop(addr(1))]);
    assert_eq!(state.requested.len(), 0);
    assert_eq!(state.peers.len(), 0);

    // a late fire of the same token is passed over
    assert_eq!(state.on_timer(TimerResponse { id: token }), vec![]);
}

#[test]
fn eviction_forfeits_every_request_of_the_peer() {
    let mut state = two_pieces();
    state.args.pipeline_depth = 3;
    state.on_connection(addr(1));
    state.on_connection(addr(2));
    say(&mut state, addr(1), Message::Bitfield(vec![0xC0]));
    say(&mut state, addr(1), Message::Unchoke);
    let tokens = started(&state.schedule());
    assert_eq!(tokens.len(), 3);
    assert_eq!(state.requested.count_to(addr(1)), 3);

    let actions = state.on_timer(TimerResponse { id: tokens[1] });
    assert_eq!(
        actions,
        vec![
            Action::Timer(TimerRequest::Cancel(tokens[0])),
            Action::Timer(TimerRequest::Cancel(tokens[2])),
            Action::Drop(addr(1)),
        ]
    );
    assert_eq!(state.requested.len(), 0);
    assert_eq!(state.peers.len(), 1);
    assert_eq!(state.peers[0].addr, addr(2));

    // letting go of a peer that is not there asks for nothing
    assert_eq!(state.evict(addr(1)), vec![]);
    assert_eq!(state.evict(addr(2)), vec![Action::Drop(addr(2))]);
    assert_eq!(state.peers.len(), 0);
}

#[test]
fn a_piece_goes_from_request_to_have() {
    let zeros = vec![0u8; BLOCK_SIZE * 2];
    let mut disk = vec![0xEEu8; BLOCK_SIZE * 4];
    let mut state = two_pieces();
    state.args.pipeline_depth = 2;
    state.on_connection(addr(1));
    state.on_connection(addr(2));
    say(&mut state, addr(1), Message::Bitfield(vec![0x80]));
    say(&mut state, addr(1), Message::Unchoke);
    say(&mut state, addr(2), Message::Have(1));

    let actions = state.schedule();
    assert_eq!(actions[0], Action::Send(addr(1), Message::Request(0, 0, 16384)));
    assert_eq!(actions[2], Action::Send(addr(1), Message::Request(0, 16384, 16384)));
    let tokens = started(&actions);
    assert_eq!(tokens.len(), 2);

    // a block that nobody asked for is dropped
    assert_eq!(say(&mut state, addr(2), Message::Piece(0, 0, zeros[..BLOCK_SIZE].to_vec())), vec![]);
    assert_eq!(state.requested.len(), 2);

    // the second block comes first
    let actions = say(&mut state, addr(1), Message::Piece(0, 16384, zeros[BLOCK_SIZE..].to_vec()));
    assert_eq!(
        actions,
        vec![
            Action::Timer(TimerRequest::Cancel(tokens[1])),
            Action::Store {
                peer: addr(1),
                piece: 0,
                begin: 16384,
                data: zeros[BLOCK_SIZE..].to_vec(),
                placement: Placement { position: 16384, verify: None },
            },
        ]
    );
    assert_eq!(state.requested.len(), 1);
    disk[16384..32768].copy_from_slice(&zeros[BLOCK_SIZE..]);
    assert_eq!(state.block_stored(addr(1), 0, 16384, BLOCK_SIZE, &[]), vec![]);
    assert_eq!(state.peers[0].uploaded, BLOCK_SIZE);
    assert_eq!(state.peers[0].uploaded_recently, BLOCK_SIZE);
    assert_eq!(state.file.piece_is_complete(0), Ok(false));

    // then the first, which fills the piece
    let actions = say(&mut state, addr(1), Message::Piece(0, 0, zeros[..BLOCK_SIZE].to_vec()));
    assert_eq!(
        actions[1],
        Action::Store {
            peer: addr(1),
            piece: 0,
            begin: 0,
            data: zeros[..BLOCK_SIZE].to_vec(),
            placement: Placement { position: 0, verify: Some(FileSpan { position: 0, length: 32768 }) },
        }
    );
    disk[0..16384].copy_from_slice(&zeros[..BLOCK_SIZE]);
    let actions = state.block_stored(addr(1), 0, 0, BLOCK_SIZE, &disk[0..32768]);
    // we want nothing more of the first peer, and tell the second of the piece
    assert_eq!(
        actions,
        vec![Action::Send(addr(1), Message::NotInterested), Action::Send(addr(2), Message::Have(0))]
    );
    assert_eq!(state.file.piece_is_complete(0), Ok(true));
    assert_eq!(state.file.bitfield(), &[0x80]);
    assert_eq!(state.file.left(), 32768);
    assert_eq!(state.peers[0].uploaded, 2 * BLOCK_SIZE);
    assert!(!state.peers[0].interested);
    assert_eq!(state.uploaded(), 2 * BLOCK_SIZE);
    assert_eq!(state.downloaded(), 0);
    assert_eq!(state.requested.len(), 0);
}

#[test]
fn a_piece_that_fails_its_digest_is_open_again() {
    let mut state = two_pieces();
    state.args.pipeline_depth = 2;
    state.on_connection(addr(1));
    say(&mut state, addr(1), Message::Bitfield(vec![0x80]));
    say(&mut state, addr(1), Message::Unchoke);
    state.schedule();
    say(&mut state, addr(1), Message::Piece(0, 0, vec![5u8; BLOCK_SIZE]));
    state.block_stored(addr(1), 0, 0, BLOCK_SIZE, &[]);
    say(&mut state, addr(1), Message::Piece(0, 16384, vec![5u8; BLOCK_SIZE]));
    let actions = state.block_stored(addr(1), 0, 16384, BLOCK_SIZE, &vec![5u8; 2 * BLOCK_SIZE]);
    assert_eq!(actions, vec![]);
    assert_eq!(state.file.piece_is_complete(0), Ok(false));
    assert_eq!(state.file.get_unfilled(0).unwrap(), &[0..16384, 16384..32768]);
    assert_eq!(state.file.left(), 65536);
    // the blocks are asked for again
    let actions = state.schedule();
    assert_eq!(actions[0], Action::Send(addr(1), Message::Request(0, 0, 16384)));
}

#[test]
fn block_recorded_takes_the_digest_as_given() {
    let mut state = two_pieces();
    state.on_connection(addr(1));
    state.on_connection(addr(2));
    say(&mut state, addr(2), Message::Have(0));
    let digest = hex("5188431849b4613152fd7bdba6a3ff0a4fd6424b");
    assert_eq!(state.block_recorded(addr(1), 0, 0, BLOCK_SIZE, &digest), vec![]);
    // the last block with a digest that is not the piece's: the piece is open again
    assert_eq!(state.block_recorded(addr(1), 0, 16384, BLOCK_SIZE, &[1u8; DIGEST_SIZE]), vec![]);
    assert_eq!(state.file.get_unfilled(0).unwrap(), &[0..16384, 16384..32768]);
    state.block_recorded(addr(1), 0, 0, BLOCK_SIZE, &digest);
    // with the piece's digest: verified, and told to the peer that lacks it
    assert_eq!(
        state.block_recorded(addr(1), 0, 16384, BLOCK_SIZE, &digest),
        vec![Action::Send(addr(1), Message::Have(0))]
    );
    assert_eq!(state.file.piece_is_complete(0), Ok(true));
    assert_eq!(state.peers[0].uploaded, 4 * BLOCK_SIZE);
    // a piece that does not exist: nothing happens
    assert_eq!(state.block_recorded(addr(1), 7, 0, BLOCK_SIZE, &digest), vec![]);
    assert_eq!(state.peers[0].uploaded, 4 * BLOCK_SIZE);
}

#[test]
fn requests_are_served_from_verified_pieces() {
    let hashes = [[0u8; DIGEST_SIZE]; 2];
    let file = DownloadFile::new_seeding(&hashes, BLOCK_SIZE * 2, BLOCK_SIZE * 3).unwrap();
    let mut state = MainState::new(file, args());
    assert_eq!(
        state.on_connection(addr(1)),
        vec![Action::Send(addr(1), Message::Bitfield(vec![0xC0])), Action::Send(addr(1), Message::Unchoke)]
    );

    let actions = say(&mut state, addr(1), Message::Request(1, 100, 500));
    assert_eq!(
        actions,
        vec![Action::Load {
            peer: addr(1),
            piece: 1,
            begin: 100,
            span: FileSpan { position: 2 * BLOCK_SIZE + 100, length: 500 },
        }]
    );
    let actions = state.block_loaded(addr(1), 1, 100, vec![3u8; 500]);
    assert_eq!(actions, vec![Action::Send(addr(1), Message::Piece(1, 100, vec![3u8; 500]))]);
    assert_eq!(state.peers[0].downloaded, 500);
    assert_eq!(state.peers[0].downloaded_recently, 500);
    assert_eq!(state.downloaded(), 500);

    // while we choke the peer its requests are passed over
    state.peers[0].choked = true;
    assert_eq!(say(&mut state, addr(1), Message::Request(0, 0, 16384)), vec![]);
    state.peers[0].choked = false;

    // data for a peer that is gone is not sent
    assert_eq!(state.block_loaded(addr(9), 1, 100, vec![3u8; 500]), vec![]);

    // a request past the end of the short last piece ends the peer
    let actions = say(&mut state, addr(1), Message::Request(1, 16000, 16384));
    assert_eq!(actions, vec![Action::Drop(addr(1))]);
    assert_eq!(state.peers.len(), 0);
}

#[test]
fn a_request_for_what_we_lack_ends_the_peer() {
    let mut state = two_pieces();
    state.on_connection(addr(1));
    assert_eq!(say(&mut state, addr(1), Message::Request(0, 0, 16384)), vec![Action::Drop(addr(1))]);
    state.on_connection(addr(2));
    assert_eq!(say(&mut state, addr(2), Message::Request(5, 0, 16384)), vec![Action::Drop(addr(2))]);
    assert_eq!(state.peers.len(), 0);
}

#[test]
fn the_announce_timer_asks_for_an_announce() {
    let mut state = two_pieces();
    state.on_connection(addr(1));
    state.peers[0].uploaded = 700;
    state.peers[0].downloaded = 30;
    let token = state.tracker_timer_id;
    assert_eq!(
        state.on_timer(TimerResponse { id: token }),
        vec![Action::Announce { uploaded: 700, downloaded: 30, left: 65536, event: None }]
    );
    assert_eq!(state.peers.len(), 1);
}

#[test]
fn a_tracker_response_dials_the_unknown() {
    let mut state = two_pieces();
    state.args.max_connections = 4;
    state.on_connection(addr(1));
    state.peers[0].uploaded_recently = 9;
    state.peers[0].downloaded_recently = 9;
    let token = state.tracker_timer_id;
    let actions = state.on_tracker(&vec![addr(1), addr(2), addr(3)]);
    assert_eq!(
        actions,
        vec![
            Action::Timer(TimerRequest::Timer(TimerInfo { timer_len: 20000, id: token, repeat: false })),
            Action::Dial(addr(2)),
            Action::Dial(addr(3)),
        ]
    );
    assert_eq!(state.peers[0].uploaded_recently, 0);
    assert_eq!(state.peers[0].downloaded_recently, 0);
}

#[test]
fn a_tracker_response_keeps_the_best_half() {
    let mut state = two_pieces();
    state.args.max_connections = 4;
    for (last, recent) in [(1u8, 50usize), (2, 10), (3, 70), (4, 10)] {
        state.on_connection(addr(last));
        let at = state.peers.len() - 1;
        state.peers[at].uploaded_recently = recent;
    }
    let token = state.tracker_timer_id;
    let actions = state.on_tracker(&vec![addr(2), addr(7)]);
    // the two that sent the least go, the first of equals first
    assert_eq!(
        actions,
        vec![
            Action::Timer(TimerRequest::Timer(TimerInfo { timer_len: 20000, id: token, repeat: false })),
            Action::Drop(addr(2)),
            Action::Drop(addr(4)),
            Action::Dial(addr(2)),
            Action::Dial(addr(7)),
        ]
    );
    assert_eq!(state.peers.len(), 2);
    assert_eq!(state.peers[0].addr, addr(1));
    assert_eq!(state.peers[1].addr, addr(3));
    assert_eq!(state.peers[1].uploaded_recently, 0);
}

#[test]
fn no_dial_at_the_connection_limit() {
    // with no connection allowed every peer goes and nobody is dialled
    let mut state = two_pieces();
    state.args.max_connections = 0;
    state.on_connection(addr(1));
    let actions = state.on_tracker(&vec![addr(5)]);
    assert_eq!(actions.len(), 2);
    assert_eq!(actions[1], Action::Drop(addr(1)));
    assert_eq!(state.peers.len(), 0);

    // half the limit, rounded down, is kept; the first of equals goes first
    let mut state = two_pieces();
    state.args.max_connections = 3;
    state.on_connection(addr(1));
    state.on_connection(addr(2));
    let actions = state.on_tracker(&vec![addr(5)]);
    assert_eq!(actions.len(), 3);
    assert_eq!(actions[1], Action::Drop(addr(1)));
    assert_eq!(actions[2], Action::Dial(addr(5)));
    assert_eq!(state.peers.len(), 1);
    assert_eq!(state.peers[0].addr, addr(2));
}

#[test]
fn the_run_ends_when_the_file_is_complete() {
    let mut state = two_pieces();
    assert!(!state.finished());
    assert_eq!(state.completion(), vec![]);

    let hashes = [[0u8; DIGEST_SIZE]; 2];
    let file = DownloadFile::new_seeding(&hashes, 1024, 2048).unwrap();
    let mut done = MainState::new(file, args());
    done.on_connection(addr(1));
    done.peers[0].uploaded = 11;
    done.peers[0].downloaded = 22;
    assert!(done.finished());
    assert_eq!(
        done.completion(),
        vec![
            Action::Announce { uploaded: 11, downloaded: 22, left: 0, event: Some(Event::Completed) },
            Action::Exit,
        ]
    );
    // asked to go on seeding: the run goes on
    done.args.seed = true;
    assert!(!done.finished());
    assert_eq!(done.completion(), vec![]);
    state.args.seed_existing = true;
    assert!(!state.finished());
}

#[test]
fn counters_stop_at_the_top() {
    let mut state = two_pieces();
    state.on_connection(addr(1));
    state.on_connection(addr(2));
    state.peers[0].uploaded = usize::MAX - 5;
    state.peers[1].uploaded = 100;
    assert_eq!(state.uploaded(), usize::MAX);
    state.peers[0].downloaded = usize::MAX - 5;
    assert_eq!(state.block_loaded(addr(1), 0, 0, vec![0u8; 10]).len(), 1);
    assert_eq!(state.peers[0].downloaded, usize::MAX);
    assert_eq!(state.peers[0].downloaded_recently, 10);
}

#[test]
fn issue_uses_the_tokens_in_order() {
    let mut state = two_pieces();
    state.args.request_timeout = 3;
    state.on_connection(addr(1));
    let picks = vec![
        (swarm_core::file::BlockInfo { piece: 1, range: 0..16384 }, addr(1)),
        // to a peer that is gone: passed over, its token unused
        (swarm_core::file::BlockInfo { piece: 1, range: 16384..32768 }, addr(2)),
        (swarm_core::file::BlockInfo { piece: 0, range: 16384..32768 }, addr(1)),
    ];
    let actions = state.issue(&picks, &vec![100, 200, 300]);
    assert_eq!(
        actions,
        vec![
            Action::Send(addr(1), Message::Request(1, 0, 16384)),
            Action::Timer(TimerRequest::Timer(TimerInfo { timer_len: 3000, id: 100, repeat: false })),
            Action::Send(addr(1), Message::Request(0, 16384, 16384)),
            Action::Timer(TimerRequest::Timer(TimerInfo { timer_len: 3000, id: 300, repeat: false })),
        ]
    );
    assert_eq!(state.requested.len(), 2);
    assert_eq!(state.requested.get(100), Some(&(swarm_core::file::BlockInfo { piece: 1, range: 0..16384 }, addr(1))));
    assert_eq!(state.requested.get(200), None);
    assert!(state.requested.holds_block(&swarm_core::file::BlockInfo { piece: 0, range: 16384..32768 }));
}
