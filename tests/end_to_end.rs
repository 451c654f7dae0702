use rustorrent::bencode::decode;
use rustorrent::download::{place_piece, Downloaded, DownloadedIter, PieceAssembly};
use rustorrent::metainfo::{compute_length, parse_metainfo};
use rustorrent::scheduler::{PieceFile, PieceQueue};
use rustorrent::session::{session_step, SessionAction, SessionInput, SessionState};
use rustorrent::tracker::piece_verified;
use rustorrent::wire::{Bitfield, Message, MessageTag};
use sha1::Digest;

fn piece_msg(index: u32, begin: u32, data: &[u8]) -> SessionInput {
    let mut p = index.to_be_bytes().to_vec();
    p.extend_from_slice(&begin.to_be_bytes());
    p.extend_from_slice(data);
    SessionInput::Received(Message { tag: MessageTag::Piece, payload: p })
}

/// Three 16 KiB pieces from two simulated peers; the first peer chokes after
/// its first block and the second picks up the returned block.
#[test]
fn three_pieces_two_peers_one_chokes() {
    let file: Vec<u8> = (0..3 * 16384).map(|i| (i * 7 % 256) as u8).collect();
    let mut meta = b"d8:announce1:u4:infod6:lengthi49152e4:name3:out12:piece lengthi16384e6:pieces60:".to_vec();
    for k in 0..3 {
        let d: [u8; 20] = sha1::Sha1::digest(&file[k * 16384..(k + 1) * 16384]).into();
        meta.extend_from_slice(&d);
    }
    meta.extend_from_slice(b"ee");
    let m = parse_metainfo(&decode(&meta).unwrap()).unwrap();
    let bitfields = vec![Bitfield::from_payload(vec![0b1110_0000]), Bitfield::from_payload(vec![0b1110_0000])];
    let mut queue = PieceQueue::new((0..3).map(|i| PieceFile::new(i, &m.info, &bitfields)).collect());
    let mut all = vec![0u8; compute_length(&m.info)];
    let mut peers = [
        SessionState { choked: false, interested: true, outstanding: None },
        SessionState { choked: false, interested: true, outstanding: None },
    ];
    let mut delivered_by_first = 0;
    while let Some(piece) = queue.pop() {
        let i = piece.index();
        let size = piece.length();
        let mut work = vec![0usize];
        let mut assembly = PieceAssembly::new(size);
        let block = &file[i * 16384..i * 16384 + size];
        for p in 0..2 {
            while let Some(b) = work.pop() {
                let (s, a) = session_step(peers[p], &SessionInput::NextBlock(b), i, size);
                peers[p] = s;
                if a != SessionAction::SendRequest(b) {
                    work.push(b);
                    break;
                }
                let reply = if p == 0 && delivered_by_first == 1 {
                    SessionInput::Received(Message { tag: MessageTag::Choke, payload: vec![] })
                } else {
                    piece_msg(i as u32, 0, block)
                };
                let (s, a) = session_step(peers[p], &reply, i, size);
                peers[p] = s;
                match a {
                    SessionAction::Deliver(_) => {
                        assembly.accept(0, block);
                        if p == 0 {
                            delivered_by_first += 1;
                        }
                    }
                    SessionAction::Requeue(back) => work.push(back),
                    other => panic!("unexpected {:?}", other),
                }
            }
        }
        assert_eq!(assembly.received, size);
        assert!(piece_verified(&assembly.buffer, &piece.hash()));
        assert!(place_piece(&mut all, i, m.info.piece_length, &assembly.buffer));
    }
    assert!(peers[0].choked);
    let done = Downloaded::new(m.info, all);
    let mut it = DownloadedIter::new(&done);
    let f = it.next(&done).unwrap();
    assert_eq!(f.bytes(), &file[..]);
    assert!(it.next(&done).is_none());
}
