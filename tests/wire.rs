use rustorrent::wire::{Handshake, Message, MessageFrame, MessageTag, Piece, Request, WireError};

#[test]
fn frame_decode_piece_with_empty_block() {
    let mut buf = vec![0, 0, 0, 5, 7, 0, 0, 0, 0];
    let m = MessageFrame.decode(&mut buf).unwrap().unwrap();
    assert_eq!(m.tag, MessageTag::Piece);
    assert_eq!(m.payload, vec![0, 0, 0, 0]);
    assert!(buf.is_empty());
    let mut payload = m.payload.clone();
    payload.extend_from_slice(&[0, 0, 0, 0]);
    let p = Piece::ref_from_bytes(&payload).unwrap();
    assert_eq!(p.index(), 0);
    assert_eq!(p.begin(), 0);
    assert!(p.block().is_empty());
}

#[test]
fn keep_alive_then_interested() {
    let mut buf = vec![0, 0, 0, 0, 0, 0, 0, 1, 2];
    let m = MessageFrame.decode(&mut buf).unwrap().unwrap();
    assert_eq!(m.tag, MessageTag::Interested);
    assert!(m.payload.is_empty());
    assert!(buf.is_empty());
    assert!(MessageFrame.decode(&mut buf).unwrap().is_none());
}

#[test]
fn keep_alive_with_length_five_header_needs_more() {
    // a keep-alive followed by the start of a 5-byte frame
    let mut buf = vec![0, 0, 0, 0, 0, 0, 0, 5, 2];
    assert!(MessageFrame.decode(&mut buf).unwrap().is_none());
    assert_eq!(buf, vec![0, 0, 0, 5, 2]);
}

#[test]
fn partial_frame_is_kept() {
    let mut buf = vec![0, 0, 0, 3, 4, 1];
    assert!(MessageFrame.decode(&mut buf).unwrap().is_none());
    assert_eq!(buf, vec![0, 0, 0, 3, 4, 1]);
}

#[test]
fn oversized_and_unknown_frames_are_invalid() {
    let mut big = vec![0, 1, 0, 1, 7];
    assert_eq!(MessageFrame.decode(&mut big).unwrap_err(), WireError::ProtocolInvalid);
    assert_eq!(big, vec![0, 1, 0, 1, 7]);
    let mut unknown = vec![0, 0, 0, 1, 9];
    assert_eq!(MessageFrame.decode(&mut unknown).unwrap_err(), WireError::ProtocolInvalid);
}

#[test]
fn encode_then_decode_in_chunks() {
    let mut wire = Vec::new();
    MessageFrame.encode(Message { tag: MessageTag::Have, payload: vec![0, 0, 0, 9] }, &mut wire).unwrap();
    MessageFrame.encode(Message { tag: MessageTag::Unchoke, payload: vec![] }, &mut wire).unwrap();
    assert_eq!(wire, vec![0, 0, 0, 5, 4, 0, 0, 0, 9, 0, 0, 0, 1, 1]);
    let mut buf = Vec::new();
    let mut got = Vec::new();
    for chunk in wire.chunks(3) {
        buf.extend_from_slice(chunk);
        while let Some(m) = MessageFrame.decode(&mut buf).unwrap() {
            got.push((m.tag, m.payload));
        }
    }
    assert_eq!(got, vec![(MessageTag::Have, vec![0, 0, 0, 9]), (MessageTag::Unchoke, vec![])]);
    assert!(buf.is_empty());
}

#[test]
fn encode_refuses_oversized_payload() {
    let mut dst = vec![1];
    let r = MessageFrame.encode(Message { tag: MessageTag::Piece, payload: vec![0; 1 << 16] }, &mut dst);
    assert_eq!(r, Err(WireError::ProtocolInvalid));
    assert_eq!(dst, vec![1]);
}

#[test]
fn handshake_echo() {
    let h = Handshake::new([7; 20], *b"-MB2025-100101070501");
    let bytes = h.to_bytes();
    assert_eq!(bytes.len(), 68);
    assert_eq!(bytes[0], 19);
    assert_eq!(&bytes[1..20], b"BitTorrent protocol");
    assert_eq!(&bytes[20..28], &[0u8; 8]);
    let back = Handshake::from_bytes(&bytes).unwrap();
    assert_eq!(back.info_hash, [7; 20]);
    assert_eq!(back.peer_id, *b"-MB2025-100101070501");
    let mut wrong = bytes.clone();
    wrong[0] = 20;
    assert!(matches!(Handshake::from_bytes(&wrong), Err(WireError::ProtocolInvalid)));
    let mut wrong_name = bytes.clone();
    wrong_name[5] = b'x';
    assert!(Handshake::from_bytes(&wrong_name).is_err());
}

#[test]
fn request_layout() {
    let r = Request::new(1, 16384, 0x01020304);
    assert_eq!(r.to_bytes(), vec![0, 0, 0, 1, 0, 0, 0x40, 0, 1, 2, 3, 4]);
    assert_eq!(r.index(), 1);
    assert_eq!(r.begin(), 16384);
    assert_eq!(r.length(), 0x01020304);
}

#[test]
fn piece_payload_split() {
    let p = Piece::ref_from_bytes(&[0, 0, 0, 2, 0, 0, 0x40, 0, 9, 8]).unwrap();
    assert_eq!(p.index(), 2);
    assert_eq!(p.begin(), 16384);
    assert_eq!(p.block(), &[9, 8]);
    assert!(Piece::ref_from_bytes(&[0, 0, 0]).is_none());
}

#[test]
fn tags_round_trip() {
    for b in 0u8..9 {
        assert_eq!(MessageTag::from_byte(b).unwrap().to_byte(), b);
    }
    assert!(MessageTag::from_byte(9).is_none());
}
