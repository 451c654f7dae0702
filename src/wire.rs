//! Peer wire records: the handshake, request and piece layouts, the
//! length-prefixed message framing, and the bitfield.
use vstd::prelude::*;

verus! {

/// Size of a standard block within a piece.
pub const BLOCK_MAX: usize = 16384;

/// Largest frame length the decoder accepts, and the encoder produces.
pub const MAX_FRAME: usize = 65536;

/// The big-endian number held in four bytes.
pub open spec fn be32(b: Seq<u8>) -> int {
    b[0] * 16777216 + b[1] * 65536 + b[2] * 256 + b[3]
}

/// The four big-endian bytes of `x`.
pub open spec fn be32_bytes(x: u32) -> Seq<u8> {
    seq![
        (x / 16777216) as u8,
        ((x / 65536) % 256) as u8,
        ((x / 256) % 256) as u8,
        (x % 256) as u8,
    ]
}

proof fn lemma_be32_round_trip(x: u32)
    ensures
        be32(be32_bytes(x)) == x,
{
    let a = x as int;
    assert(a == (a / 16777216) * 16777216 + ((a / 65536) % 256) * 65536 + ((a / 256) % 256) * 256
        + a % 256) by (nonlinear_arith)
        requires
            0 <= a < 4294967296,
    ;
}

fn to_be(x: u32) -> (r: [u8; 4])
    ensures
        r@ == be32_bytes(x),
{
    let r = [(x / 16777216) as u8, ((x / 65536) % 256) as u8, ((x / 256) % 256) as u8, (x % 256) as u8];
    assert(r@ =~= be32_bytes(x));
    r
}

fn from_be(b: &[u8; 4]) -> (r: u32)
    ensures
        r as int == be32(b@),
{
    (b[0] as u32) * 16777216 + (b[1] as u32) * 65536 + (b[2] as u32) * 256 + (b[3] as u32)
}

/// The protocol name sent in every handshake.
pub open spec fn protocol_name() -> Seq<u8> {
    seq![66u8, 105, 116, 84, 111, 114, 114, 101, 110, 116, 32, 112, 114, 111, 116, 111, 99, 111, 108]
}

/// The opening record each side of a connection sends.
pub struct Handshake {
    pub length: u8,
    pub bittorrent: [u8; 19],
    pub reserved: [u8; 8],
    pub info_hash: [u8; 20],
    pub peer_id: [u8; 20],
}

/// The 68 bytes of a handshake.
pub open spec fn handshake_bytes(info_hash: Seq<u8>, peer_id: Seq<u8>) -> Seq<u8> {
    seq![19u8] + protocol_name() + Seq::new(8, |i: int| 0u8) + info_hash + peer_id
}

/// Why bytes from a peer were refused.
#[derive(Debug, PartialEq, Eq, Structural)]
pub enum WireError {
    /// A malformed record or frame.
    ProtocolInvalid,
}

impl Handshake {
    pub fn new(info_hash: [u8; 20], peer_id: [u8; 20]) -> (r: Self)
        ensures
            r.length == 19,
            r.bittorrent@ == protocol_name(),
            r.reserved@ == Seq::new(8, |i: int| 0u8),
            r.info_hash == info_hash,
            r.peer_id == peer_id,
    {
        let bittorrent: [u8; 19] = [66u8, 105, 116, 84, 111, 114, 114, 101, 110, 116, 32, 112, 114, 111, 116, 111, 99, 111, 108];
        let reserved: [u8; 8] = [0u8; 8];
        assert(bittorrent@ =~= protocol_name());
        assert(reserved@ =~= Seq::new(8, |i: int| 0u8));
        Handshake { length: 19, bittorrent, reserved, info_hash, peer_id }
    }

    /// The record as sent on the wire.
    pub fn to_bytes(&self) -> (r: Vec<u8>)
        ensures
            r@ == seq![self.length] + self.bittorrent@ + self.reserved@ + self.info_hash@ + self.peer_id@,
    {
        let mut out: Vec<u8> = Vec::new();
        out.push(self.length);
        push_array(&mut out, &self.bittorrent);
        push_array(&mut out, &self.reserved);
        push_array(&mut out, &self.info_hash);
        push_array(&mut out, &self.peer_id);
        out
    }

    /// Reads a handshake received from a peer. The length byte must be 19 and
    /// the protocol name must match; the peer id is not checked.
    pub fn from_bytes(b: &[u8]) -> (r: Result<Handshake, WireError>)
        ensures
            match r {
                Ok(h) => b@.len() == 68 && b@[0] == 19 && b@.subrange(1, 20) == protocol_name()
                    && h.length == 19 && h.bittorrent@ == protocol_name()
                    && h.reserved@ == b@.subrange(20, 28)
                    && h.info_hash@ == b@.subrange(28, 48) && h.peer_id@ == b@.subrange(48, 68),
                Err(e) => e == WireError::ProtocolInvalid && !(b@.len() == 68 && b@[0] == 19
                    && b@.subrange(1, 20) == protocol_name()),
            },
    {
        if b.len() != 68 || b[0] != 19 {
            return Err(WireError::ProtocolInvalid);
        }
        let expected: [u8; 19] = [66u8, 105, 116, 84, 111, 114, 114, 101, 110, 116, 32, 112, 114, 111, 116, 111, 99, 111, 108];
        assert(expected@ =~= protocol_name());
        let mut i: usize = 0;
        while i < 19
            invariant
                i <= 19,
                b@.len() == 68,
                expected@ == protocol_name(),
                forall|k: int| 0 <= k < i ==> b@[1 + k] == expected@[k],
            decreases 19 - i,
        {
            if b[1 + i] != expected[i] {
                assert(b@.subrange(1, 20)[i as int] != protocol_name()[i as int]);
                return Err(WireError::ProtocolInvalid);
            }
            i += 1;
        }
        assert(b@.subrange(1, 20) =~= protocol_name());
        let mut reserved: [u8; 8] = [0u8; 8];
        let mut info_hash: [u8; 20] = [0u8; 20];
        let mut peer_id: [u8; 20] = [0u8; 20];
        let mut j: usize = 0;
        while j < 20
            invariant
                j <= 20,
                b@.len() == 68,
                forall|k: int| 0 <= k < j ==> info_hash@[k] == b@[28 + k] && peer_id@[k] == b@[48 + k],
                forall|k: int| 0 <= k < j && k < 8 ==> reserved@[k] == b@[20 + k],
            decreases 20 - j,
        {
            info_hash[j] = b[28 + j];
            peer_id[j] = b[48 + j];
            if j < 8 {
                reserved[j] = b[20 + j];
            }
            j += 1;
        }
        assert(info_hash@ =~= b@.subrange(28, 48));
        assert(peer_id@ =~= b@.subrange(48, 68));
        assert(reserved@ =~= b@.subrange(20, 28));
        Ok(Handshake { length: 19, bittorrent: expected, reserved, info_hash, peer_id })
    }
}

fn push_array<const N: usize>(out: &mut Vec<u8>, a: &[u8; N])
    ensures
        final(out)@ == old(out)@ + a@,
{
    let mut i: usize = 0;
    while i < N
        invariant
            i <= N,
            a@.len() == N,
            out@ == old(out)@ + a@.subrange(0, i as int),
        decreases N - i,
    {
        out.push(a[i]);
        i += 1;
        assert(out@ =~= old(out)@ + a@.subrange(0, i as int));
    }
    assert(a@.subrange(0, N as int) =~= a@);
}

/// A request for `length` bytes at offset `begin` of piece `index`, each
/// held big-endian.
pub struct Request {
    pub index: [u8; 4],
    pub begin: [u8; 4],
    pub length: [u8; 4],
}

impl Request {
    pub fn new(index: u32, begin: u32, length: u32) -> (r: Self)
        ensures
            r.index@ == be32_bytes(index),
            r.begin@ == be32_bytes(begin),
            r.length@ == be32_bytes(length),
            be32(r.index@) == index,
            be32(r.begin@) == begin,
            be32(r.length@) == length,
    {
        proof {
            lemma_be32_round_trip(index);
            lemma_be32_round_trip(begin);
            lemma_be32_round_trip(length);
        }
        Request { index: to_be(index), begin: to_be(begin), length: to_be(length) }
    }

    pub fn index(&self) -> (r: u32)
        ensures
            r as int == be32(self.index@),
    {
        from_be(&self.index)
    }

    pub fn begin(&self) -> (r: u32)
        ensures
            r as int == be32(self.begin@),
    {
        from_be(&self.begin)
    }

    pub fn length(&self) -> (r: u32)
        ensures
            r as int == be32(self.length@),
    {
        from_be(&self.length)
    }

    /// The 12-byte payload of a Request message.
    pub fn to_bytes(&self) -> (r: Vec<u8>)
        ensures
            r@ == self.index@ + self.begin@ + self.length@,
    {
        let mut out: Vec<u8> = Vec::new();
        push_array(&mut out, &self.index);
        push_array(&mut out, &self.begin);
        push_array(&mut out, &self.length);
        assert(out@ =~= self.index@ + self.begin@ + self.length@);
        out
    }
}

/// A delivered block: piece index and offset, big-endian, then the bytes.
pub struct Piece {
    pub index: [u8; 4],
    pub begin: [u8; 4],
    pub block: Vec<u8>,
}

impl Piece {
    pub fn index(&self) -> (r: u32)
        ensures
            r as int == be32(self.index@),
    {
        from_be(&self.index)
    }

    pub fn begin(&self) -> (r: u32)
        ensures
            r as int == be32(self.begin@),
    {
        from_be(&self.begin)
    }

    pub fn block(&self) -> (r: &[u8])
        ensures
            r@ == self.block@,
    {
        self.block.as_slice()
    }

    /// Splits a Piece payload: the first eight bytes are the header and the
    /// block follows. `None` when the payload is shorter than the header.
    pub fn ref_from_bytes(data: &[u8]) -> (r: Option<Piece>)
        ensures
            match r {
                Some(p) => data@.len() >= 8 && p.index@ == data@.subrange(0, 4)
                    && p.begin@ == data@.subrange(4, 8) && p.block@ == data@.subrange(8, data@.len() as int),
                None => data@.len() < 8,
            },
    {
        if data.len() < 8 {
            return None;
        }
        let index: [u8; 4] = [data[0], data[1], data[2], data[3]];
        let begin: [u8; 4] = [data[4], data[5], data[6], data[7]];
        let mut block: Vec<u8> = Vec::new();
        let mut i: usize = 8;
        while i < data.len()
            invariant
                8 <= i <= data@.len(),
                block@ == data@.subrange(8, i as int),
            decreases data@.len() - i,
        {
            block.push(data[i]);
            i += 1;
            assert(block@ =~= data@.subrange(8, i as int));
        }
        assert(index@ =~= data@.subrange(0, 4));
        assert(begin@ =~= data@.subrange(4, 8));
        Some(Piece { index, begin, block })
    }
}


/// The kind of a peer message.
#[derive(Debug, Clone, Copy, PartialEq, Eq, Structural)]
pub enum MessageTag {
    Choke,
    Unchoke,
    Interested,
    NotInterested,
    Have,
    Bitfield,
    Request,
    Piece,
    Cancel,
}

/// The tag byte of each message kind.
pub open spec fn tag_byte(t: MessageTag) -> u8 {
    match t {
        MessageTag::Choke => 0,
        MessageTag::Unchoke => 1,
        MessageTag::Interested => 2,
        MessageTag::NotInterested => 3,
        MessageTag::Have => 4,
        MessageTag::Bitfield => 5,
        MessageTag::Request => 6,
        MessageTag::Piece => 7,
        MessageTag::Cancel => 8,
    }
}

/// The message kind a tag byte stands for.
pub open spec fn tag_of(b: u8) -> Option<MessageTag> {
    if b == 0 {
        Some(MessageTag::Choke)
    } else if b == 1 {
        Some(MessageTag::Unchoke)
    } else if b == 2 {
        Some(MessageTag::Interested)
    } else if b == 3 {
        Some(MessageTag::NotInterested)
    } else if b == 4 {
        Some(MessageTag::Have)
    } else if b == 5 {
        Some(MessageTag::Bitfield)
    } else if b == 6 {
        Some(MessageTag::Request)
    } else if b == 7 {
        Some(MessageTag::Piece)
    } else if b == 8 {
        Some(MessageTag::Cancel)
    } else {
        None
    }
}

impl MessageTag {
    pub fn from_byte(b: u8) -> (r: Option<MessageTag>)
        ensures
            r == tag_of(b),
    {
        if b == 0 {
            Some(MessageTag::Choke)
        } else if b == 1 {
            Some(MessageTag::Unchoke)
        } else if b == 2 {
            Some(MessageTag::Interested)
        } else if b == 3 {
            Some(MessageTag::NotInterested)
        } else if b == 4 {
            Some(MessageTag::Have)
        } else if b == 5 {
            Some(MessageTag::Bitfield)
        } else if b == 6 {
            Some(MessageTag::Request)
        } else if b == 7 {
            Some(MessageTag::Piece)
        } else if b == 8 {
            Some(MessageTag::Cancel)
        } else {
            None
        }
    }

    pub fn to_byte(&self) -> (r: u8)
        ensures
            r == tag_byte(*self),
            tag_of(r) == Some(*self),
    {
        match self {
            MessageTag::Choke => 0,
            MessageTag::Unchoke => 1,
            MessageTag::Interested => 2,
            MessageTag::NotInterested => 3,
            MessageTag::Have => 4,
            MessageTag::Bitfield => 5,
            MessageTag::Request => 6,
            MessageTag::Piece => 7,
            MessageTag::Cancel => 8,
        }
    }
}

/// A peer message: its kind and the bytes after the tag.
#[derive(Debug)]
pub struct Message {
    pub tag: MessageTag,
    pub payload: Vec<u8>,
}

/// What the decoder finds at `pos` of a buffer.
pub enum FrameStep {
    /// No whole message yet; the bytes before the index are keep-alives.
    NeedMore(int),
    /// A frame that is too long or has an unknown tag.
    Invalid,
    /// A message, and the index just past its frame.
    Frame(MessageTag, Seq<u8>, int),
}

/// Decoding from `pos`: zero-length frames are skipped.
pub open spec fn frame_step(s: Seq<u8>, pos: int) -> FrameStep
    decreases s.len() - pos,
{
    if pos < 0 || pos + 4 > s.len() {
        FrameStep::NeedMore(pos)
    } else {
        let n = be32(s.subrange(pos, pos + 4));
        if n == 0 {
            frame_step(s, pos + 4)
        } else if pos + 5 > s.len() {
            FrameStep::NeedMore(pos)
        } else if n > MAX_FRAME {
            FrameStep::Invalid
        } else if pos + 4 + n > s.len() {
            FrameStep::NeedMore(pos)
        } else {
            match tag_of(s[pos + 4]) {
                None => FrameStep::Invalid,
                Some(t) => FrameStep::Frame(t, s.subrange(pos + 5, pos + 4 + n), pos + 4 + n),
            }
        }
    }
}

/// The frame of a message: its big-endian length, its tag byte, its payload.
pub open spec fn frame_bytes(tag: MessageTag, payload: Seq<u8>) -> Seq<u8> {
    be32_bytes((payload.len() + 1) as u32) + seq![tag_byte(tag)] + payload
}

/// The length-prefixed message codec.
#[derive(Debug)]
pub struct MessageFrame;

impl MessageFrame {
    /// Takes the next message off the front of `src`. Keep-alive frames are
    /// dropped; `Ok(None)` means more bytes are needed. On error `src` is left
    /// as it was.
    pub fn decode(&mut self, src: &mut Vec<u8>) -> (r: Result<Option<Message>, WireError>)
        ensures
            match frame_step(old(src)@, 0) {
                FrameStep::NeedMore(p) => r == Ok::<Option<Message>, WireError>(None) && final(src)@ == old(src)@.skip(p),
                FrameStep::Invalid => r == Err::<Option<Message>, WireError>(WireError::ProtocolInvalid) && final(src)@ == old(src)@,
                FrameStep::Frame(t, payload, p) => r is Ok && r->Ok_0 is Some && r->Ok_0->Some_0.tag == t
                    && r->Ok_0->Some_0.payload@ == payload && final(src)@ == old(src)@.skip(p),
            },
    {
        let mut pos: usize = 0;
        let ghost s = src@;
        loop
            invariant
                src@ == s,
                s == old(src)@,
                pos <= s.len(),
                frame_step(s, 0) == frame_step(s, pos as int),
            decreases s.len() - pos,
        {
            if src.len() - pos < 4 {
                drop_front(src, pos);
                return Ok(None);
            }
            let len_bytes: [u8; 4] = [src[pos], src[pos + 1], src[pos + 2], src[pos + 3]];
            assert(len_bytes@ =~= s.subrange(pos as int, pos + 4));
            let n = from_be(&len_bytes) as usize;
            if n == 0 {
                pos = pos + 4;
            } else if src.len() - pos < 5 {
                drop_front(src, pos);
                return Ok(None);
            } else if n > MAX_FRAME {
                return Err(WireError::ProtocolInvalid);
            } else if src.len() - pos - 4 < n {
                drop_front(src, pos);
                return Ok(None);
            } else {
                match MessageTag::from_byte(src[pos + 4]) {
                    None => {
                        return Err(WireError::ProtocolInvalid);
                    },
                    Some(tag) => {
                        let mut payload: Vec<u8> = Vec::new();
                        let mut i: usize = pos + 5;
                        let end: usize = pos + 4 + n;
                        while i < end
                            invariant
                                src@ == s,
                                end == pos + 4 + n,
                                pos + 5 <= i <= end <= s.len(),
                                payload@ == s.subrange(pos + 5, i as int),
                            decreases end - i,
                        {
                            payload.push(src[i]);
                            i += 1;
                            assert(payload@ =~= s.subrange(pos + 5, i as int));
                        }
                        drop_front(src, end);
                        return Ok(Some(Message { tag, payload }));
                    },
                }
            }
        }
    }

    /// Appends the frame of `item` to `dst`. A payload that would make the
    /// frame longer than the decoder accepts is refused and `dst` is kept.
    pub fn encode(&mut self, item: Message, dst: &mut Vec<u8>) -> (r: Result<(), WireError>)
        ensures
            item.payload@.len() + 1 > MAX_FRAME ==> r == Err::<(), WireError>(WireError::ProtocolInvalid)
                && final(dst)@ == old(dst)@,
            item.payload@.len() + 1 <= MAX_FRAME ==> r is Ok && final(dst)@ == old(dst)@ + frame_bytes(
                item.tag,
                item.payload@,
            ),
    {
        if item.payload.len() >= MAX_FRAME {
            return Err(WireError::ProtocolInvalid);
        }
        let len_bytes = to_be((item.payload.len() + 1) as u32);
        push_array(dst, &len_bytes);
        dst.push(item.tag.to_byte());
        let mut i: usize = 0;
        let ghost mid = dst@;
        while i < item.payload.len()
            invariant
                i <= item.payload@.len(),
                dst@ == mid + item.payload@.subrange(0, i as int),
            decreases item.payload@.len() - i,
        {
            dst.push(item.payload[i]);
            i += 1;
            assert(dst@ =~= mid + item.payload@.subrange(0, i as int));
        }
        assert(item.payload@.subrange(0, i as int) =~= item.payload@);
        assert(dst@ =~= old(dst)@ + frame_bytes(item.tag, item.payload@));
        Ok(())
    }
}

/// Removes the first `n` bytes of `v`.
fn drop_front(v: &mut Vec<u8>, n: usize)
    requires
        n <= old(v)@.len(),
    ensures
        final(v)@ == old(v)@.skip(n as int),
{
    let mut rest: Vec<u8> = Vec::new();
    let mut i: usize = n;
    while i < v.len()
        invariant
            n <= i <= v@.len(),
            rest@ == v@.subrange(n as int, i as int),
        decreases v@.len() - i,
    {
        rest.push(v[i]);
        i += 1;
        assert(rest@ =~= v@.subrange(n as int, i as int));
    }
    assert(rest@ =~= old(v)@.skip(n as int));
    *v = rest;
}


/// `frame_step` on a buffer with `pre` in front: the same outcome, its
/// indices moved by the length of `pre`.
pub open spec fn shifted(r: FrameStep, d: int) -> FrameStep {
    match r {
        FrameStep::NeedMore(p) => FrameStep::NeedMore(p + d),
        FrameStep::Invalid => FrameStep::Invalid,
        FrameStep::Frame(t, payload, p) => FrameStep::Frame(t, payload, p + d),
    }
}

proof fn lemma_frame_step_shift(pre: Seq<u8>, rest: Seq<u8>, p: int)
    requires
        0 <= p <= rest.len(),
    ensures
        frame_step(pre + rest, pre.len() + p) == shifted(frame_step(rest, p), pre.len() as int),
    decreases rest.len() - p,
{
    let s = pre + rest;
    let q = pre.len() + p;
    if q + 4 <= s.len() {
        assert(s.subrange(q, q + 4) =~= rest.subrange(p, p + 4));
        let n = be32(rest.subrange(p, p + 4));
        if n == 0 {
            lemma_frame_step_shift(pre, rest, p + 4);
        } else if q + 5 <= s.len() && n <= MAX_FRAME && q + 4 + n <= s.len() {
            assert(s[q + 4] == rest[p + 4]);
            assert(s.subrange(q + 5, q + 4 + n) =~= rest.subrange(p + 5, p + 4 + n));
        }
    }
}

/// A keep-alive frame carries no message: decoding a buffer that starts with
/// one gives what decoding the rest gives, four bytes further on.
pub proof fn lemma_keep_alive_skipped(rest: Seq<u8>)
    ensures
        frame_step(seq![0u8, 0u8, 0u8, 0u8] + rest, 0) == shifted(frame_step(rest, 0), 4),
{
    let s = seq![0u8, 0u8, 0u8, 0u8] + rest;
    assert(s.subrange(0, 4) =~= seq![0u8, 0u8, 0u8, 0u8]);
    lemma_frame_step_shift(seq![0u8, 0u8, 0u8, 0u8], rest, 0);
}

/// A buffer that holds only part of a frame of declared length `N`
/// (`0 < N <= MAX_FRAME`) gives "need more" and consumes nothing.
pub proof fn lemma_partial_frame_needs_more(s: Seq<u8>)
    requires
        s.len() >= 4,
        0 < be32(s.subrange(0, 4)) <= MAX_FRAME,
        s.len() < 4 + be32(s.subrange(0, 4)),
    ensures
        frame_step(s, 0) == FrameStep::NeedMore(0),
{
}

/// The concatenated frames of a sequence of messages.
pub open spec fn frames_bytes(ms: Seq<(MessageTag, Seq<u8>)>) -> Seq<u8>
    decreases ms.len(),
{
    if ms.len() == 0 {
        Seq::empty()
    } else {
        frame_bytes(ms[0].0, ms[0].1) + frames_bytes(ms.drop_first())
    }
}

/// Decoding the frames of a message sequence yields its first message and
/// leaves exactly the frames of the others; no bytes gives "need more".
pub proof fn lemma_frames_decode_in_order(ms: Seq<(MessageTag, Seq<u8>)>)
    requires
        forall|i: int| 0 <= i < ms.len() ==> #[trigger] ms[i].1.len() + 1 <= MAX_FRAME,
    ensures
        ms.len() == 0 ==> frame_step(frames_bytes(ms), 0) == FrameStep::NeedMore(0),
        ms.len() > 0 ==> frame_step(frames_bytes(ms), 0) == FrameStep::Frame(
            ms[0].0,
            ms[0].1,
            ms[0].1.len() + 5int,
        ) && frames_bytes(ms).skip(ms[0].1.len() + 5int) == frames_bytes(ms.drop_first()),
{
    if ms.len() > 0 {
        assert(ms[0].1.len() + 1 <= MAX_FRAME);
        lemma_frame_decodes(ms[0].0, ms[0].1, frames_bytes(ms.drop_first()));
        assert(frames_bytes(ms).skip(ms[0].1.len() + 5int) =~= frames_bytes(ms.drop_first()));
    }
}

/// One whole frame in front of any bytes decodes to its message.
pub proof fn lemma_frame_decodes(tag: MessageTag, payload: Seq<u8>, rest: Seq<u8>)
    requires
        payload.len() + 1 <= MAX_FRAME,
    ensures
        frame_step(frame_bytes(tag, payload) + rest, 0) == FrameStep::Frame(tag, payload, payload.len() + 5int),
{
    let s = frame_bytes(tag, payload) + rest;
    let n = (payload.len() + 1) as u32;
    lemma_be32_round_trip(n);
    assert(s.subrange(0, 4) =~= be32_bytes(n));
    assert(s[4] == tag_byte(tag));
    assert(s.subrange(5, 4 + n) =~= payload);
}

/// Every strict prefix of a frame decodes to "need more" and keeps its bytes.
pub proof fn lemma_frame_prefix_needs_more(tag: MessageTag, payload: Seq<u8>, k: int)
    requires
        payload.len() + 1 <= MAX_FRAME,
        0 <= k < payload.len() + 5,
    ensures
        frame_step(frame_bytes(tag, payload).subrange(0, k), 0) == FrameStep::NeedMore(0),
{
    let s = frame_bytes(tag, payload).subrange(0, k);
    let n = (payload.len() + 1) as u32;
    if k >= 4 {
        lemma_be32_round_trip(n);
        assert(s.subrange(0, 4) =~= be32_bytes(n));
    }
}

/// Whether bit `j` (0 = least significant) of `b` is set.
pub open spec fn bit_set(b: u8, j: int) -> bool {
    (b >> (j as u8)) & 1u8 == 1u8
}

/// Whether a bitfield payload marks piece `k`: the `(k mod 8)`-th most
/// significant bit of byte `k div 8`.
pub open spec fn holds_piece(payload: Seq<u8>, k: int) -> bool {
    0 <= k && k / 8 < payload.len() && bit_set(payload[k / 8], 7 - k % 8)
}

/// The pieces a peer announced that it holds.
#[derive(Debug)]
pub struct Bitfield {
    pub payload: Vec<u8>,
}

impl View for Bitfield {
    type V = Seq<u8>;

    open spec fn view(&self) -> Seq<u8> {
        self.payload@
    }
}

impl Bitfield {
    pub fn from_payload(payload: Vec<u8>) -> (r: Bitfield)
        ensures
            r@ == payload@,
    {
        Bitfield { payload }
    }

    /// Whether piece `piece_i` is marked; pieces past the payload are not.
    pub fn has_piece(&self, piece_i: usize) -> (r: bool)
        ensures
            r == holds_piece(self@, piece_i as int),
    {
        let byte_i = piece_i / 8;
        let bit_i = (piece_i % 8) as u8;
        if byte_i >= self.payload.len() {
            return false;
        }
        let byte = self.payload[byte_i];
        let r = byte & (128u8 >> bit_i) != 0;
        let sh: u8 = 7 - bit_i;
        assert(r == ((byte >> sh) & 1u8 == 1u8)) by (bit_vector)
            requires
                bit_i < 8,
                sh == 7 - bit_i,
                r == (byte & (128u8 >> bit_i) != 0),
        ;
        assert(sh as int == 7 - piece_i as int % 8);
        r
    }

    /// Marks piece `piece_i`; a piece past the payload is not recorded.
    pub fn set_piece(&mut self, piece_i: usize)
        ensures
            final(self)@.len() == old(self)@.len(),
            forall|k: int|
                0 <= k ==> (holds_piece(final(self)@, k) <==> (holds_piece(old(self)@, k) || (k == piece_i
                    && piece_i / 8 < old(self)@.len()))),
    {
        let byte_i = piece_i / 8;
        let bit_i = (piece_i % 8) as u8;
        if byte_i >= self.payload.len() {
            return;
        }
        let old_byte = self.payload[byte_i];
        let new_byte = old_byte | (128u8 >> bit_i);
        self.payload[byte_i] = new_byte;
        proof {
            assert forall|k: int| 0 <= k implies (holds_piece(self@, k) <==> (holds_piece(old(self)@, k) || (k
                == piece_i && piece_i / 8 < old(self)@.len()))) by {
                if k / 8 == byte_i as int {
                    let y = (k % 8) as u8;
                    let sh: u8 = (7 - k % 8) as u8;
                    assert(((new_byte >> sh) & 1u8 == 1u8) == (((old_byte >> sh) & 1u8 == 1u8) || bit_i == y))
                        by (bit_vector)
                        requires
                            bit_i < 8,
                            y < 8,
                            sh == 7 - y,
                            new_byte == old_byte | (128u8 >> bit_i),
                    ;
                    assert((k == piece_i) == (y == bit_i));
                }
            }
        }
    }

    /// Every marked piece, in ascending order.
    pub fn pieces(&self) -> (r: Vec<usize>)
        requires
            self@.len() * 8 <= usize::MAX,
        ensures
            forall|i: int, j: int| 0 <= i < j < r@.len() ==> r@[i] < r@[j],
            forall|k: usize| r@.contains(k) <==> holds_piece(self@, k as int),
    {
        let n: usize = self.payload.len() * 8;
        let mut out: Vec<usize> = Vec::new();
        let mut i: usize = 0;
        while i < n
            invariant
                n == self@.len() * 8,
                i <= n,
                forall|a: int, b: int| 0 <= a < b < out@.len() ==> out@[a] < out@[b],
                forall|a: int| 0 <= a < out@.len() ==> out@[a] < i,
                forall|k: usize| k < i ==> (out@.contains(k) <==> holds_piece(self@, k as int)),
                forall|k: usize| out@.contains(k) ==> k < i,
            decreases n - i,
        {
            let ghost before = out@;
            if self.has_piece(i) {
                out.push(i);
                proof {
                    assert(out@[before.len() as int] == i);
                    assert forall|k: usize| out@.contains(k) <==> (before.contains(k) || k == i) by {
                        if before.contains(k) {
                            let w = choose|w: int| 0 <= w < before.len() && before[w] == k;
                            assert(out@[w] == k);
                        }
                        if out@.contains(k) && k != i {
                            let w = choose|w: int| 0 <= w < out@.len() && out@[w] == k;
                            assert(before[w] == k);
                        }
                    }
                }
            }
            i += 1;
        }
        proof {
            assert forall|k: usize| out@.contains(k) <==> holds_piece(self@, k as int) by {
                if k >= n {
                    assert(!holds_piece(self@, k as int));
                }
            }
        }
        out
    }
}

} // verus!


