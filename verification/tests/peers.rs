use swarm_core::peers::{check_handshake, do_handshake, HandshakeError, Message, WireError};

#[test]
fn peer_msg_test() {
    let test_messages: [Message; 10] = [
        Message::Keepalive,
        Message::Choke,
        Message::Unchoke,
        Message::Interested,
        Message::NotInterested,
        Message::Have(12345678),
        Message::Bitfield(vec![
            102, 117, 99, 107, 32, 98, 114, 97, 109, 32, 99, 111, 104, 101, 110,
        ]),
        Message::Request(123, 456, 789),
        Message::Piece(5810134, 215970, vec![204, 10, 0]),
        Message::Cancel(789, 456, 123),
    ];

    // everything that was sent, as the receiving end sees it
    let mut pipe: Vec<u8> = Vec::new();

    for msg in test_messages {
        // send the message
        pipe.extend(msg.encode().unwrap());

        // what did the other end receive?
        let (received, used) = Message::recv(&pipe).unwrap().unwrap();
        assert_eq!(msg, received);
        assert_eq!(used, pipe.len());
        pipe.clear();
    }
}

#[test]
fn frames_have_the_exact_bytes() {
    assert_eq!(Message::Keepalive.encode().unwrap(), vec![0, 0, 0, 0]);
    assert_eq!(Message::Choke.encode().unwrap(), vec![0, 0, 0, 1, 0]);
    assert_eq!(Message::Unchoke.encode().unwrap(), vec![0, 0, 0, 1, 1]);
    assert_eq!(Message::Interested.encode().unwrap(), vec![0, 0, 0, 1, 2]);
    assert_eq!(Message::NotInterested.encode().unwrap(), vec![0, 0, 0, 1, 3]);
    assert_eq!(Message::Have(0x01020304).encode().unwrap(), vec![0, 0, 0, 5, 4, 1, 2, 3, 4]);
    assert_eq!(Message::Bitfield(vec![0xC0, 0x01]).encode().unwrap(), vec![0, 0, 0, 3, 5, 0xC0, 0x01]);
    assert_eq!(
        Message::Request(1, 16384, 16384).encode().unwrap(),
        vec![0, 0, 0, 13, 6, 0, 0, 0, 1, 0, 0, 0x40, 0, 0, 0, 0x40, 0]
    );
    assert_eq!(
        Message::Piece(2, 0x00010000, vec![9, 8, 7]).encode().unwrap(),
        vec![0, 0, 0, 12, 7, 0, 0, 0, 2, 0, 1, 0, 0, 9, 8, 7]
    );
    assert_eq!(
        Message::Cancel(0xffffffff, 0, 1).encode().unwrap(),
        vec![0, 0, 0, 13, 8, 255, 255, 255, 255, 0, 0, 0, 0, 0, 0, 0, 1]
    );
}

#[test]
fn bodies_decode_to_messages() {
    assert_eq!(Message::decode(&[]), Ok(Message::Keepalive));
    assert_eq!(Message::decode(&[0]), Ok(Message::Choke));
    assert_eq!(Message::decode(&[4, 0, 0x12, 0x34, 0x56]), Ok(Message::Have(0x123456)));
    assert_eq!(Message::decode(&[5]), Ok(Message::Bitfield(vec![])));
    assert_eq!(Message::decode(&[7, 0, 0, 0, 1, 0, 0, 0, 2]), Ok(Message::Piece(1, 2, vec![])));
    // a body longer than its type needs is taken for the type alone
    assert_eq!(Message::decode(&[1, 77, 78]), Ok(Message::Unchoke));
    assert_eq!(Message::frame_len(&[0, 0, 1, 2]), 258);
}

#[test]
fn each_wire_error_has_an_input() {
    assert_eq!(Message::decode(&[4, 1, 2, 3]), Err(WireError::InvalidHave));
    assert_eq!(Message::decode(&[4, 1, 2, 3, 4, 5]), Err(WireError::InvalidHave));
    assert_eq!(Message::decode(&[6, 0, 0, 0, 1]), Err(WireError::InvalidRequest));
    assert_eq!(Message::decode(&[7, 0, 0, 0, 1, 0, 0, 0]), Err(WireError::InvalidPiece));
    assert_eq!(Message::decode(&[8]), Err(WireError::InvalidCancel));
    assert_eq!(Message::decode(&[9]), Err(WireError::UnsupportedType));
    assert_eq!(Message::decode(&[255, 1, 2]), Err(WireError::UnsupportedType));
    assert_eq!(Message::recv(&[0, 0, 0, 1, 20]), Err(WireError::UnsupportedType));
    assert_eq!(WireError::UnsupportedType.message(), "Received unsupported message type");
    assert_eq!(WireError::InvalidHave.message(), "Received invalid Have message");
}

#[test]
fn recv_waits_for_whole_frames() {
    let mut stream = Message::Have(7).encode().unwrap();
    stream.extend(Message::Unchoke.encode().unwrap());
    for cut in 0..9 {
        assert_eq!(Message::recv(&stream[..cut]), Ok(None));
    }
    assert_eq!(Message::recv(&stream[..9]), Ok(Some((Message::Have(7), 9))));
    assert_eq!(Message::recv(&stream), Ok(Some((Message::Have(7), 9))));
    assert_eq!(Message::recv(&stream[9..]), Ok(Some((Message::Unchoke, 5))));
    assert_eq!(Message::recv(&[0, 0, 0, 0, 99]), Ok(Some((Message::Keepalive, 4))));
}

#[test]
fn handshake_has_the_exact_layout() {
    let info_hash = [0xAAu8; 20];
    let peer_id = [0x42u8; 20];
    let bytes = do_handshake(&info_hash, &peer_id);
    assert_eq!(bytes.len(), 68);
    assert_eq!(bytes[0], 19);
    assert_eq!(&bytes[1..20], "BitTorrent protocol".as_bytes());
    assert_eq!(&bytes[20..28], &[0u8; 8]);
    assert_eq!(&bytes[28..48], &info_hash);
    assert_eq!(&bytes[48..68], &peer_id);
}

#[test]
fn handshake_mismatch() {
    let ours = [0xAAu8; 20];
    let mut theirs = ours;
    theirs[19] ^= 1;
    let reply = do_handshake(&theirs, &[7u8; 20]);
    assert_eq!(check_handshake(&reply, &ours), Err(HandshakeError::InfoHashMismatch));
    let good = do_handshake(&ours, &[7u8; 20]);
    assert_eq!(check_handshake(&good, &ours), Ok(vec![7u8; 20]));
    assert_eq!(check_handshake(&good[..67], &ours), Err(HandshakeError::BadLength));
    assert_eq!(check_handshake(&[], &ours), Err(HandshakeError::BadLength));
}
