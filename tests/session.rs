use rustorrent::download::PieceAssembly;
use rustorrent::session::{expect_bitfield, session_step, SessionAction, SessionError, SessionInput, SessionState};
use rustorrent::wire::{Message, MessageTag};

fn msg(tag: MessageTag, payload: Vec<u8>) -> SessionInput {
    SessionInput::Received(Message { tag, payload })
}

fn piece_msg(index: u32, begin: u32, data: &[u8]) -> SessionInput {
    let mut p = index.to_be_bytes().to_vec();
    p.extend_from_slice(&begin.to_be_bytes());
    p.extend_from_slice(data);
    msg(MessageTag::Piece, p)
}

#[test]
fn session_runs_through_a_block() {
    let size = 16384 + 10;
    let s = SessionState::new();
    let (s, a) = session_step(s, &SessionInput::Start, 0, size);
    assert_eq!(a, SessionAction::SendInterested);
    let (s, a) = session_step(s, &SessionInput::NextBlock(0), 0, size);
    assert_eq!(a, SessionAction::Requeue(0));
    let (s, _) = session_step(s, &msg(MessageTag::Unchoke, vec![]), 0, size);
    assert!(!s.choked);
    let (s, a) = session_step(s, &SessionInput::NextBlock(1), 0, size);
    assert_eq!(a, SessionAction::SendRequest(1));
    let (s, a) = session_step(s, &piece_msg(0, 0, &[1; 10]), 0, size);
    assert_eq!(a, SessionAction::Ignore);
    let (s, a) = session_step(s, &msg(MessageTag::Have, vec![0, 0, 1, 0]), 0, size);
    assert_eq!(a, SessionAction::SetHave(256));
    let (s, a) = session_step(s, &piece_msg(0, 16384, &[1; 10]), 0, size);
    assert_eq!(a, SessionAction::Deliver(1));
    assert_eq!(s.outstanding, None);
}

#[test]
fn choke_mid_block_requeues() {
    let s = SessionState { choked: false, interested: true, outstanding: Some(3) };
    let (s, a) = session_step(s, &msg(MessageTag::Choke, vec![]), 0, 1 << 16);
    assert_eq!(a, SessionAction::Requeue(3));
    assert!(s.choked);
    assert_eq!(s.outstanding, None);
}

#[test]
fn unexpected_and_invalid_messages() {
    let s = SessionState::new();
    let (_, a) = session_step(s, &msg(MessageTag::Bitfield, vec![1]), 0, 10);
    assert_eq!(a, SessionAction::Fail(SessionError::ProtocolUnexpected));
    let (_, a) = session_step(s, &msg(MessageTag::Piece, vec![1, 2]), 0, 10);
    assert_eq!(a, SessionAction::Fail(SessionError::ProtocolInvalid));
    let (_, a) = session_step(s, &msg(MessageTag::Request, vec![0; 12]), 0, 10);
    assert_eq!(a, SessionAction::Ignore);
    let (_, a) = session_step(s, &SessionInput::Timeout, 0, 10);
    assert_eq!(a, SessionAction::Abandon(None));
    assert!(expect_bitfield(Message { tag: MessageTag::Bitfield, payload: vec![0x80] }).unwrap().has_piece(0));
    assert_eq!(
        expect_bitfield(Message { tag: MessageTag::Unchoke, payload: vec![] }).unwrap_err(),
        SessionError::ProtocolUnexpected
    );
}

#[test]
fn two_peers_one_choking_assemble_same_piece() {
    // piece of three blocks; peer A delivers block 0 then is choked holding
    // block 1, peer B takes the requeued block 1 and then block 2.
    let size = 3 * 16384;
    let data: Vec<u8> = (0..size).map(|i| (i % 251) as u8).collect();
    let mut work = vec![2usize, 1, 0];
    let mut assembly = PieceAssembly::new(size);
    let mut a = SessionState { choked: false, interested: true, outstanding: None };
    let mut b = SessionState { choked: false, interested: true, outstanding: None };
    let blk = |k: usize| &data[k * 16384..(k + 1) * 16384];

    let k = work.pop().unwrap();
    let (s, act) = session_step(a, &SessionInput::NextBlock(k), 0, size);
    a = s;
    assert_eq!(act, SessionAction::SendRequest(0));
    let (s, act) = session_step(a, &piece_msg(0, 0, blk(0)), 0, size);
    a = s;
    assert_eq!(act, SessionAction::Deliver(0));
    assert_eq!(assembly.accept(0, blk(0)), Some(false));

    let k = work.pop().unwrap();
    let (s, _) = session_step(a, &SessionInput::NextBlock(k), 0, size);
    a = s;
    let (s, act) = session_step(a, &msg(MessageTag::Choke, vec![]), 0, size);
    a = s;
    assert!(a.choked);
    if let SessionAction::Requeue(back) = act {
        work.push(back);
    }
    for _ in 0..2 {
        let k = work.pop().unwrap();
        let (s, act) = session_step(b, &SessionInput::NextBlock(k), 0, size);
        b = s;
        assert_eq!(act, SessionAction::SendRequest(k));
        let (s, act) = session_step(b, &piece_msg(0, (k * 16384) as u32, blk(k)), 0, size);
        b = s;
        assert_eq!(act, SessionAction::Deliver(k));
        assembly.accept(k * 16384, blk(k));
    }
    assert!(work.is_empty());
    assert_eq!(assembly.received, size);
    assert_eq!(assembly.buffer, data);
}
