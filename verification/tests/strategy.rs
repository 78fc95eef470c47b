use swarm_core::args::Args;
use swarm_core::engine::MainState;
use swarm_core::file::{BlockInfo, DownloadFile, BLOCK_SIZE};
use swarm_core::peers::{Message, PeerAddr, PeerResponse};
use swarm_core::strategy::{pick_blocks, pick_in_order};

const DIGEST_SIZE: usize = 20;

fn addr(last: u8) -> PeerAddr {
    PeerAddr { v6: false, ip: 0x0a00_0000 + last as u128, port: 6881, flowinfo: 0, scope_id: 0 }
}

/// Three pieces of three blocks each.
fn engine(depth: usize) -> MainState {
    let hashes = [[0u8; DIGEST_SIZE]; 3];
    let file = DownloadFile::new(&hashes, BLOCK_SIZE * 3, BLOCK_SIZE * 9).unwrap();
    let mut args = Args::new(String::from("some.torrent"), 6881);
    args.pipeline_depth = depth;
    MainState::new(file, args)
}

fn join(state: &mut MainState, who: PeerAddr, bitfield: u8) {
    state.on_connection(who);
    state.handle_peer_response(PeerResponse::MessageReceived(who, Message::Bitfield(vec![bitfield]))).unwrap();
    state.handle_peer_response(PeerResponse::MessageReceived(who, Message::Unchoke)).unwrap();
}

fn block(piece: usize, index: usize) -> BlockInfo {
    BlockInfo { piece, range: index * BLOCK_SIZE..(index + 1) * BLOCK_SIZE }
}

#[test]
fn blocks_go_by_piece_then_offset() {
    let mut state = engine(4);
    join(&mut state, addr(1), 0b1010_0000);
    let picks = pick_in_order(&state, &[addr(1)]);
    assert_eq!(
        picks,
        vec![(block(0, 0), addr(1)), (block(0, 1), addr(1)), (block(0, 2), addr(1)), (block(2, 0), addr(1))]
    );
}

#[test]
fn no_block_is_asked_of_two_peers() {
    let mut state = engine(2);
    join(&mut state, addr(1), 0b1110_0000);
    join(&mut state, addr(2), 0b1110_0000);
    join(&mut state, addr(3), 0b0100_0000);
    let picks = pick_in_order(&state, &[addr(2), addr(1), addr(3)]);
    assert_eq!(
        picks,
        vec![
            (block(0, 0), addr(2)),
            (block(0, 1), addr(2)),
            (block(0, 2), addr(1)),
            (block(1, 0), addr(1)),
            (block(1, 1), addr(3)),
            (block(1, 2), addr(3)),
        ]
    );
}

#[test]
fn choked_and_unknown_peers_get_nothing() {
    let mut state = engine(2);
    join(&mut state, addr(1), 0b1110_0000);
    state.handle_peer_response(PeerResponse::MessageReceived(addr(1), Message::Choke)).unwrap();
    assert_eq!(pick_in_order(&state, &[addr(1), addr(9)]), vec![]);
    assert_eq!(pick_blocks(&state), vec![]);
}

#[test]
fn requests_in_flight_count_against_the_depth_and_are_not_repeated() {
    let mut state = engine(3);
    join(&mut state, addr(1), 0b1000_0000);
    join(&mut state, addr(2), 0b1100_0000);
    state.issue(&vec![(block(0, 1), addr(1)), (block(1, 2), addr(1))], &vec![1, 2]);
    let picks = pick_in_order(&state, &[addr(1), addr(2)]);
    assert_eq!(
        picks,
        vec![(block(0, 0), addr(1)), (block(0, 2), addr(2)), (block(1, 0), addr(2)), (block(1, 1), addr(2))]
    );
    // together with what is in flight no peer passes the depth
    for who in [addr(1), addr(2)] {
        let new = picks.iter().filter(|(_, to)| *to == who).count();
        assert!(state.requested.count_to(who) + new <= 3);
    }
}

#[test]
fn a_pass_in_random_order_is_sound() {
    let mut state = engine(2);
    for last in 1..=5 {
        join(&mut state, addr(last), 0b1110_0000);
    }
    state.issue(&vec![(block(1, 1), addr(4))], &vec![77]);
    for _ in 0..20 {
        let picks = pick_blocks(&state);
        // nine blocks, one in flight, five peers of depth two with one slot taken
        assert_eq!(picks.len(), 8);
        for (i, (what, who)) in picks.iter().enumerate() {
            assert!(!state.requested.holds_block(what));
            assert!(picks[..i].iter().all(|(other, _)| other != what));
            let new = picks.iter().filter(|(_, to)| to == who).count();
            assert!(state.requested.count_to(*who) + new <= 2);
        }
    }
}

#[test]
fn a_depth_of_zero_asks_for_nothing() {
    let mut state = engine(0);
    join(&mut state, addr(1), 0b1110_0000);
    assert_eq!(pick_blocks(&state), vec![]);
}
