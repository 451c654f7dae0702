//! The tracker exchange: the announce query, the compact peer list, and the
//! info digest that names a torrent.
use vstd::prelude::*;
use crate::bencode::{BValue, hex_lower, normalized, BencodeError, OwnedValue, decode, decode_result, encode, encoding, field, decimal, push_bytes, push_decimal};
use crate::metainfo::{bytes_of, size_of, key_info, extract_info_field};

verus! {

/// The SHA-1 digest of a byte sequence.
pub uninterp spec fn sha1_of(data: Seq<u8>) -> Seq<u8>;

/// Relies on `sha1::Sha1::digest` (through `digest::Digest`): the 20-byte
/// SHA-1 digest of the input, a function of the input alone.
#[verifier::external_body]
fn sha1_digest(data: &[u8]) -> (r: [u8; 20])
    ensures
        r@ == sha1_of(data@),
{
    let d = <sha1::Sha1 as sha1::Digest>::digest(data);
    d.into()
}

/// Whether a computed digest equals the expected one.
pub fn digest_matches(digest: &[u8; 20], expected: &[u8; 20]) -> (r: bool)
    ensures
        r == (digest@ == expected@),
{
    let mut i: usize = 0;
    while i < 20
        invariant
            i <= 20,
            forall|k: int| 0 <= k < i ==> digest@[k] == expected@[k],
        decreases 20 - i,
    {
        if digest[i] != expected[i] {
            return false;
        }
        i += 1;
    }
    assert(digest@ =~= expected@);
    true
}

/// Whether the bytes of a downloaded piece have the expected digest.
pub fn piece_verified(data: &[u8], expected: &[u8; 20]) -> (r: bool)
    ensures
        r == (sha1_of(data@) == expected@),
{
    let d = sha1_digest(data);
    digest_matches(&d, expected)
}

/// The canonical encoding of the `info` sub-dictionary of a metainfo value.
pub fn encode_info_field(dict: &OwnedValue) -> (r: Option<Vec<u8>>)
    ensures
        match r {
            Some(b) => field(dict@, key_info()) matches Some(BValue::Dict(_)) && b@ == encoding(
                normalized(field(dict@, key_info())->0),
            ),
            None => !(field(dict@, key_info()) matches Some(BValue::Dict(_))),
        },
{
    match extract_info_field(dict) {
        Some(info) => Some(encode(info)),
        None => None,
    }
}

/// The digest that names a torrent: SHA-1 over the canonical encoding of its
/// `info` sub-dictionary.
pub fn info_hash(dict: &OwnedValue) -> (r: Option<[u8; 20]>)
    ensures
        match r {
            Some(h) => field(dict@, key_info()) matches Some(BValue::Dict(_)) && h@ == sha1_of(
                encoding(normalized(field(dict@, key_info())->0)),
            ),
            None => !(field(dict@, key_info()) matches Some(BValue::Dict(_))),
        },
{
    match encode_info_field(dict) {
        Some(b) => Some(sha1_digest(b.as_slice())),
        None => None,
    }
}

/// `%xx` for every byte.
pub open spec fn percent_encoding(b: Seq<u8>) -> Seq<u8>
    decreases b.len(),
{
    if b.len() == 0 {
        Seq::empty()
    } else {
        percent_encoding(b.drop_last()) + seq![37u8, hex_lower(b.last() / 16), hex_lower(b.last() % 16)]
    }
}

fn hex_digit_exec(d: u8) -> (r: u8)
    requires
        d < 16,
    ensures
        r == hex_lower(d),
{
    if d < 10 {
        48 + d
    } else {
        87 + d
    }
}

fn push_percent_encoded(out: &mut Vec<u8>, b: &[u8])
    ensures
        final(out)@ == old(out)@ + percent_encoding(b@),
{
    let mut i: usize = 0;
    assert(b@.subrange(0, 0) =~= Seq::<u8>::empty());
    while i < b.len()
        invariant
            i <= b@.len(),
            out@ == old(out)@ + percent_encoding(b@.subrange(0, i as int)),
        decreases b@.len() - i,
    {
        out.push(37u8);
        out.push(hex_digit_exec(b[i] / 16));
        out.push(hex_digit_exec(b[i] % 16));
        proof {
            let p = b@.subrange(0, i + 1);
            assert(p.drop_last() =~= b@.subrange(0, i as int));
            assert(out@ =~= old(out)@ + percent_encoding(p));
        }
        i += 1;
    }
    assert(b@.subrange(0, i as int) =~= b@);
}

/// The text `?info_hash=`.
pub open spec fn text_info_hash_param() -> Seq<u8> {
    seq![63u8, 105, 110, 102, 111, 95, 104, 97, 115, 104, 61]
}

fn push_info_hash_param(out: &mut Vec<u8>)
    ensures
        final(out)@ == old(out)@ + text_info_hash_param(),
{
    let t: Vec<u8> = vec![63u8, 105, 110, 102, 111, 95, 104, 97, 115, 104, 61];
    assert(t@ =~= text_info_hash_param());
    push_bytes(out, &t);
}

/// The text `&peer_id=`.
pub open spec fn text_peer_id_param() -> Seq<u8> {
    seq![38u8, 112, 101, 101, 114, 95, 105, 100, 61]
}

fn push_peer_id_param(out: &mut Vec<u8>)
    ensures
        final(out)@ == old(out)@ + text_peer_id_param(),
{
    let t: Vec<u8> = vec![38u8, 112, 101, 101, 114, 95, 105, 100, 61];
    assert(t@ =~= text_peer_id_param());
    push_bytes(out, &t);
}

/// The text `&port=`.
pub open spec fn text_port_param() -> Seq<u8> {
    seq![38u8, 112, 111, 114, 116, 61]
}

fn push_port_param(out: &mut Vec<u8>)
    ensures
        final(out)@ == old(out)@ + text_port_param(),
{
    let t: Vec<u8> = vec![38u8, 112, 111, 114, 116, 61];
    assert(t@ =~= text_port_param());
    push_bytes(out, &t);
}

/// The text `&uploaded=`.
pub open spec fn text_uploaded_param() -> Seq<u8> {
    seq![38u8, 117, 112, 108, 111, 97, 100, 101, 100, 61]
}

fn push_uploaded_param(out: &mut Vec<u8>)
    ensures
        final(out)@ == old(out)@ + text_uploaded_param(),
{
    let t: Vec<u8> = vec![38u8, 117, 112, 108, 111, 97, 100, 101, 100, 61];
    assert(t@ =~= text_uploaded_param());
    push_bytes(out, &t);
}

/// The text `&downloaded=`.
pub open spec fn text_downloaded_param() -> Seq<u8> {
    seq![38u8, 100, 111, 119, 110, 108, 111, 97, 100, 101, 100, 61]
}

fn push_downloaded_param(out: &mut Vec<u8>)
    ensures
        final(out)@ == old(out)@ + text_downloaded_param(),
{
    let t: Vec<u8> = vec![38u8, 100, 111, 119, 110, 108, 111, 97, 100, 101, 100, 61];
    assert(t@ =~= text_downloaded_param());
    push_bytes(out, &t);
}

/// The text `&left=`.
pub open spec fn text_left_param() -> Seq<u8> {
    seq![38u8, 108, 101, 102, 116, 61]
}

fn push_left_param(out: &mut Vec<u8>)
    ensures
        final(out)@ == old(out)@ + text_left_param(),
{
    let t: Vec<u8> = vec![38u8, 108, 101, 102, 116, 61];
    assert(t@ =~= text_left_param());
    push_bytes(out, &t);
}

/// The text `&compact=`.
pub open spec fn text_compact_param() -> Seq<u8> {
    seq![38u8, 99, 111, 109, 112, 97, 99, 116, 61]
}

fn push_compact_param(out: &mut Vec<u8>)
    ensures
        final(out)@ == old(out)@ + text_compact_param(),
{
    let t: Vec<u8> = vec![38u8, 99, 111, 109, 112, 97, 99, 116, 61];
    assert(t@ =~= text_compact_param());
    push_bytes(out, &t);
}

/// The key `interval`.
pub open spec fn key_interval() -> Seq<u8> {
    seq![105u8, 110, 116, 101, 114, 118, 97, 108]
}

fn key_interval_bytes() -> (r: Vec<u8>)
    ensures
        r@ == key_interval(),
{
    let r: Vec<u8> = vec![105u8, 110, 116, 101, 114, 118, 97, 108];
    assert(r@ =~= key_interval());
    r
}

/// The key `peers`.
pub open spec fn key_peers() -> Seq<u8> {
    seq![112u8, 101, 101, 114, 115]
}

fn key_peers_bytes() -> (r: Vec<u8>)
    ensures
        r@ == key_peers(),
{
    let r: Vec<u8> = vec![112u8, 101, 101, 114, 115];
    assert(r@ =~= key_peers());
    r
}

/// The announce query parameters.
pub struct TrackerRequest {
    pub peer_id: Vec<u8>,
    pub port: u16,
    pub uploaded: usize,
    pub downloaded: usize,
    pub left: usize,
    pub compact: u8,
}

/// The announce URL with its query.
pub open spec fn tracker_url_bytes(announce: Seq<u8>, info_hash: Seq<u8>, request: TrackerRequest) -> Seq<u8> {
    announce + text_info_hash_param() + percent_encoding(info_hash) + text_peer_id_param() + request.peer_id@
        + text_port_param() + decimal(request.port as nat) + text_uploaded_param() + decimal(
        request.uploaded as nat,
    ) + text_downloaded_param() + decimal(request.downloaded as nat) + text_left_param() + decimal(
        request.left as nat,
    ) + text_compact_param() + decimal(request.compact as nat)
}

/// Builds `{announce}?info_hash=..&peer_id=..&port=..&uploaded=..&downloaded=..&left=..&compact=..`,
/// with every byte of the digest written `%xx`.
pub fn tracker_url(announce: &Vec<u8>, info_hash: &[u8; 20], request: &TrackerRequest) -> (r: Vec<u8>)
    ensures
        r@ == tracker_url_bytes(announce@, info_hash@, *request),
{
    let mut out: Vec<u8> = Vec::new();
    push_bytes(&mut out, announce);
    push_info_hash_param(&mut out);
    push_percent_encoded(&mut out, info_hash);
    push_peer_id_param(&mut out);
    push_bytes(&mut out, &request.peer_id);
    push_port_param(&mut out);
    push_decimal(&mut out, request.port as u64);
    push_uploaded_param(&mut out);
    push_decimal(&mut out, request.uploaded as u64);
    push_downloaded_param(&mut out);
    push_decimal(&mut out, request.downloaded as u64);
    push_left_param(&mut out);
    push_decimal(&mut out, request.left as u64);
    push_compact_param(&mut out);
    push_decimal(&mut out, request.compact as u64);
    assert(out@ =~= tracker_url_bytes(announce@, info_hash@, *request));
    out
}

/// An IPv4 peer.
#[derive(Debug, Clone, Copy)]
pub struct PeerAddress {
    pub ip: [u8; 4],
    pub port: u16,
}

/// The peers a tracker returned.
#[derive(Debug)]
pub struct Peers(pub Vec<PeerAddress>);

/// Why a tracker answer was refused.
#[derive(Debug, PartialEq, Eq, Structural)]
pub enum TrackerError {
    /// The answer is not a dictionary with `interval` and `peers`.
    TrackerDecode,
    /// The peer list length is not a multiple of 6.
    TrackerPeerList,
}

/// `peers` is the compact list `b`: `ip[4] || port_be[2]` per peer.
pub open spec fn compact_describes(b: Seq<u8>, peers: Seq<PeerAddress>) -> bool {
    &&& peers.len() * 6 == b.len()
    &&& forall|k: int|
        0 <= k < peers.len() ==> #[trigger] peers[k].ip@ == b.subrange(6 * k, 6 * k + 4)
            && peers[k].port == b[6 * k + 4] * 256 + b[6 * k + 5]
}

impl Peers {
    /// The compact list of these peers: `ip[4] || port_be[2]` each.
    pub fn to_compact(&self) -> (r: Vec<u8>)
        requires
            self.0@.len() * 6 <= usize::MAX,
        ensures
            compact_describes(r@, self.0@),
    {
        let mut out: Vec<u8> = Vec::new();
        let mut k: usize = 0;
        while k < self.0.len()
            invariant
                k <= self.0@.len(),
                out@.len() == 6 * k,
                forall|j: int|
                    0 <= j < k ==> #[trigger] self.0@[j].ip@ == out@.subrange(6 * j, 6 * j + 4)
                        && self.0@[j].port == out@[6 * j + 4] * 256 + out@[6 * j + 5],
            decreases self.0@.len() - k,
        {
            let p = self.0[k];
            let ghost before = out@;
            out.push(p.ip[0]);
            out.push(p.ip[1]);
            out.push(p.ip[2]);
            out.push(p.ip[3]);
            out.push((p.port / 256) as u8);
            out.push((p.port % 256) as u8);
            proof {
                assert forall|j: int|
                    0 <= j < k + 1 implies #[trigger] self.0@[j].ip@ == out@.subrange(6 * j, 6 * j + 4)
                        && self.0@[j].port == out@[6 * j + 4] * 256 + out@[6 * j + 5] by {
                    if j < k {
                        assert(out@.subrange(6 * j, 6 * j + 4) =~= before.subrange(6 * j, 6 * j + 4));
                        assert(out@[6 * j + 4] == before[6 * j + 4]);
                        assert(out@[6 * j + 5] == before[6 * j + 5]);
                    } else {
                        assert(out@.subrange(6 * j, 6 * j + 4) =~= p.ip@);
                        assert(out@[6 * j + 4] == (p.port / 256) as u8);
                        assert(out@[6 * j + 5] == (p.port % 256) as u8);
                        assert(p == self.0@[j]);
                    }
                }
            }
            k += 1;
        }
        out
    }

    /// Splits a compact peer list.
    pub fn from_compact(b: &[u8]) -> (r: Result<Peers, TrackerError>)
        ensures
            match r {
                Ok(p) => compact_describes(b@, p.0@),
                Err(e) => e == TrackerError::TrackerPeerList && b@.len() % 6 != 0,
            },
    {
        if b.len() % 6 != 0 {
            return Err(TrackerError::TrackerPeerList);
        }
        let n = b.len() / 6;
        assert(n * 6 == b@.len()) by (nonlinear_arith)
            requires
                n == b@.len() / 6,
                b@.len() % 6 == 0,
        {
            assert(b@.len() == 6 * (b@.len() / 6) + b@.len() % 6);
        }
        let blen = b.len();
        let mut out: Vec<PeerAddress> = Vec::new();
        let mut k: usize = 0;
        while k < n
            invariant
                n * 6 == b@.len(),
                blen == b@.len(),
                k <= n,
                out@.len() == k,
                forall|j: int|
                    0 <= j < k ==> #[trigger] out@[j].ip@ == b@.subrange(6 * j, 6 * j + 4)
                        && out@[j].port == b@[6 * j + 4] * 256 + b@[6 * j + 5],
            decreases n - k,
        {
            assert(6 * k + 6 <= blen) by (nonlinear_arith)
                requires
                    k < n,
                    n * 6 == blen,
            ;
            let s = 6 * k;
            let ip: [u8; 4] = [b[s], b[s + 1], b[s + 2], b[s + 3]];
            assert(ip@ =~= b@.subrange(6 * k, 6 * k + 4));
            let port: u16 = (b[s + 4] as u16) * 256 + (b[s + 5] as u16);
            out.push(PeerAddress { ip, port });
            k += 1;
        }
        assert(out@.len() * 6 == b@.len());
        assert(compact_describes(b@, out@));
        Ok(Peers(out))
    }
}

/// The tracker's answer.
#[derive(Debug)]
pub struct TrackerResponse {
    pub interval: usize,
    pub peers: Peers,
}

/// Reads a tracker's bencoded answer.
pub fn parse_tracker_response(body: &Vec<u8>) -> (r: Result<TrackerResponse, TrackerError>)
    ensures
        match decode_result(body@) {
            Ok(v) => {
                let interval = size_of(field(v, key_interval()));
                let peers = bytes_of(field(v, key_peers()));
                if interval is None || peers is None {
                    r == Err::<TrackerResponse, TrackerError>(TrackerError::TrackerDecode)
                } else if peers->0.len() % 6 != 0 {
                    r == Err::<TrackerResponse, TrackerError>(TrackerError::TrackerPeerList)
                } else {
                    r is Ok && r->Ok_0.interval == interval->0 && compact_describes(peers->0, r->Ok_0.peers.0@)
                }
            },
            Err(_) => r == Err::<TrackerResponse, TrackerError>(TrackerError::TrackerDecode),
        },
{
    let v = match decode(body) {
        Ok(v) => v,
        Err(_) => {
            return Err(TrackerError::TrackerDecode);
        },
    };
    let interval: usize = match v.get(&key_interval_bytes()) {
        Some(OwnedValue::Integer(n)) => if *n >= 0 && (*n as u64) <= (usize::MAX as u64) {
            *n as usize
        } else {
            return Err(TrackerError::TrackerDecode);
        },
        _ => {
            return Err(TrackerError::TrackerDecode);
        },
    };
    match v.get(&key_peers_bytes()) {
        Some(OwnedValue::Str(b)) => {
            let peers = Peers::from_compact(b.as_slice())?;
            Ok(TrackerResponse { interval, peers })
        },
        _ => Err(TrackerError::TrackerDecode),
    }
}

} // verus!
