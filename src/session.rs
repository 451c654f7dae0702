//! The per-peer session rules: from the session state and one event to the
//! next state and the action to take.
use vstd::prelude::*;
use crate::wire::{BLOCK_MAX, Bitfield, Message, MessageTag, Piece, be32};
use crate::scheduler::block_size_of;

verus! {

/// What a session knows once its handshake is done.
#[derive(Debug, Clone, Copy, PartialEq, Eq, Structural)]
pub struct SessionState {
    /// The peer has choked us (initially true).
    pub choked: bool,
    /// We told the peer we are interested (initially false).
    pub interested: bool,
    /// The block we requested and have not yet received.
    pub outstanding: Option<usize>,
}

/// Something that happened to a session.
#[derive(Debug)]
pub enum SessionInput {
    /// A download that this peer is to take part in begins.
    Start,
    /// A block index taken from the work channel.
    NextBlock(usize),
    /// A message from the peer.
    Received(Message),
    /// The outstanding request took too long.
    Timeout,
}

/// Why a session ends.
#[derive(Debug, Clone, Copy, PartialEq, Eq, Structural)]
pub enum SessionError {
    /// A message that is not allowed at this point.
    ProtocolUnexpected,
    /// A malformed message.
    ProtocolInvalid,
}

/// What the session must do next.
#[derive(Debug, Clone, Copy, PartialEq, Eq, Structural)]
pub enum SessionAction {
    SendInterested,
    /// Send a Request for this block of the piece.
    SendRequest(usize),
    /// The awaited block arrived: hand the Piece message on.
    Deliver(usize),
    /// Put this block back on the work channel.
    Requeue(usize),
    /// The peer now has this piece.
    SetHave(u32),
    /// Give up on this piece; put the block back if there is one.
    Abandon(Option<usize>),
    Ignore,
    Fail(SessionError),
}

impl SessionState {
    pub fn new() -> (r: SessionState)
        ensures
            r.choked,
            !r.interested,
            r.outstanding is None,
    {
        SessionState { choked: true, interested: false, outstanding: None }
    }
}

/// The state and action that follow `input` in `s`, for piece `piece_i`
/// of `piece_size` bytes.
pub open spec fn session_next(s: SessionState, input: SessionInput, piece_i: int, piece_size: int) -> (
    SessionState,
    SessionAction,
) {
    match input {
        SessionInput::Start => if s.interested {
            (s, SessionAction::Ignore)
        } else {
            (SessionState { interested: true, ..s }, SessionAction::SendInterested)
        },
        SessionInput::NextBlock(b) => if !s.choked && s.outstanding is None {
            (SessionState { outstanding: Some(b), ..s }, SessionAction::SendRequest(b))
        } else {
            (s, SessionAction::Requeue(b))
        },
        SessionInput::Timeout => (SessionState { outstanding: None, ..s }, SessionAction::Abandon(s.outstanding)),
        SessionInput::Received(m) => {
            let p = m.payload@;
            match m.tag {
                MessageTag::Bitfield => (s, SessionAction::Fail(SessionError::ProtocolUnexpected)),
                MessageTag::Unchoke => (SessionState { choked: false, ..s }, SessionAction::Ignore),
                MessageTag::Choke => (
                    SessionState { choked: true, outstanding: None, ..s },
                    match s.outstanding {
                        Some(b) => SessionAction::Requeue(b),
                        None => SessionAction::Ignore,
                    },
                ),
                MessageTag::Have => if p.len() == 4 {
                    (s, SessionAction::SetHave(be32(p) as u32))
                } else {
                    (s, SessionAction::Fail(SessionError::ProtocolInvalid))
                },
                MessageTag::Piece => if p.len() < 8 {
                    (s, SessionAction::Fail(SessionError::ProtocolInvalid))
                } else if s.outstanding is Some && be32(p.subrange(0, 4)) == piece_i && be32(
                    p.subrange(4, 8),
                ) == s.outstanding->0 * BLOCK_MAX && p.len() - 8 == block_size_of(
                    piece_size,
                    s.outstanding->0 as int,
                ) {
                    (SessionState { outstanding: None, ..s }, SessionAction::Deliver(s.outstanding->0))
                } else {
                    (s, SessionAction::Ignore)
                },
                _ => (s, SessionAction::Ignore),
            }
        },
    }
}

/// Applies one event to a session.
pub fn session_step(s: SessionState, input: &SessionInput, piece_i: usize, piece_size: usize) -> (r: (
    SessionState,
    SessionAction,
))
    requires
        1 <= piece_size,
        piece_size + BLOCK_MAX - 1 <= usize::MAX,
    ensures
        r == session_next(s, *input, piece_i as int, piece_size as int),
{
    match input {
        SessionInput::Start => if s.interested {
            (s, SessionAction::Ignore)
        } else {
            (SessionState { interested: true, ..s }, SessionAction::SendInterested)
        },
        SessionInput::NextBlock(b) => if !s.choked && s.outstanding.is_none() {
            (SessionState { outstanding: Some(*b), ..s }, SessionAction::SendRequest(*b))
        } else {
            (s, SessionAction::Requeue(*b))
        },
        SessionInput::Timeout => (SessionState { outstanding: None, ..s }, SessionAction::Abandon(s.outstanding)),
        SessionInput::Received(m) => {
            match m.tag {
                MessageTag::Bitfield => (s, SessionAction::Fail(SessionError::ProtocolUnexpected)),
                MessageTag::Unchoke => (SessionState { choked: false, ..s }, SessionAction::Ignore),
                MessageTag::Choke => {
                    let action = match s.outstanding {
                        Some(b) => SessionAction::Requeue(b),
                        None => SessionAction::Ignore,
                    };
                    (SessionState { choked: true, outstanding: None, ..s }, action)
                },
                MessageTag::Have => if m.payload.len() == 4 {
                    let v: u32 = (m.payload[0] as u32) * 16777216 + (m.payload[1] as u32) * 65536
                        + (m.payload[2] as u32) * 256 + (m.payload[3] as u32);
                    (s, SessionAction::SetHave(v))
                } else {
                    (s, SessionAction::Fail(SessionError::ProtocolInvalid))
                },
                MessageTag::Piece => {
                    match Piece::ref_from_bytes(m.payload.as_slice()) {
                        None => (s, SessionAction::Fail(SessionError::ProtocolInvalid)),
                        Some(piece) => {
                            match s.outstanding {
                                None => (s, SessionAction::Ignore),
                                Some(b) => {
                                    let index = piece.index() as usize;
                                    let begin = piece.begin() as usize;
                                    let n = (piece_size + (BLOCK_MAX - 1)) / BLOCK_MAX;
                                    let expected = if b < n - 1 {
                                        BLOCK_MAX
                                    } else {
                                        (piece_size - 1) % BLOCK_MAX + 1
                                    };
                                    let at_block = begin % BLOCK_MAX == 0 && begin / BLOCK_MAX == b;
                                    assert(at_block == (begin == b * BLOCK_MAX)) by (nonlinear_arith)
                                        requires
                                            at_block == (begin % BLOCK_MAX == 0 && begin / BLOCK_MAX == b),
                                            BLOCK_MAX == 16384,
                                    {
                                        assert(begin == BLOCK_MAX * (begin / BLOCK_MAX) + begin % BLOCK_MAX);
                                        if begin == b * BLOCK_MAX {
                                            assert(begin as int / (BLOCK_MAX as int) == b as int);
                                        }
                                    }
                                    assert(piece.index@ =~= m.payload@.subrange(0, 4));
                                    if index == piece_i && at_block && piece.block.len() == expected {
                                        (SessionState { outstanding: None, ..s }, SessionAction::Deliver(b))
                                    } else {
                                        (s, SessionAction::Ignore)
                                    }
                                },
                            }
                        },
                    }
                },
                _ => (s, SessionAction::Ignore),
            }
        },
    }
}

/// A peer that chokes us while a block is outstanding gives that block back
/// to the work channel, and the session waits to be unchoked again.
pub proof fn lemma_choke_requeues_outstanding(s: SessionState, m: Message, piece_i: int, piece_size: int)
    requires
        m.tag == MessageTag::Choke,
        s.outstanding is Some,
    ensures
        session_next(s, SessionInput::Received(m), piece_i, piece_size) == (
            SessionState { choked: true, outstanding: None, ..s },
            SessionAction::Requeue(s.outstanding->0),
        ),
{
}

/// The first message after the handshake must be a bitfield.
pub fn expect_bitfield(m: Message) -> (r: Result<Bitfield, SessionError>)
    ensures
        match r {
            Ok(b) => m.tag == MessageTag::Bitfield && b@ == m.payload@,
            Err(e) => m.tag != MessageTag::Bitfield && e == SessionError::ProtocolUnexpected,
        },
{
    if m.tag == MessageTag::Bitfield {
        Ok(Bitfield::from_payload(m.payload))
    } else {
        Err(SessionError::ProtocolUnexpected)
    }
}

} // verus!
