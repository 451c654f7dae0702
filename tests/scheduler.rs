use rustorrent::bencode::decode;
use rustorrent::metainfo::parse_metainfo;
use rustorrent::scheduler::{block_request, block_size, nblocks, scheduled_before, PieceFile, PieceQueue};
use rustorrent::wire::Bitfield;

fn piece(peers: Vec<usize>, index: usize) -> PieceFile {
    PieceFile { peers, piece_i: index, length: 100, hash: [0u8; 20] }
}

#[test]
fn rarest_piece_first() {
    let mut q = PieceQueue::new(vec![piece(vec![0, 1, 2], 0), piece(vec![1], 1), piece(vec![0, 2], 2)]);
    assert_eq!(q.pop().unwrap().index(), 1);
    assert_eq!(q.pop().unwrap().index(), 2);
    assert_eq!(q.pop().unwrap().index(), 0);
    assert!(q.pop().is_none());
}

#[test]
fn pieces_without_peers_are_set_aside() {
    let q = PieceQueue::new(vec![piece(vec![], 0), piece(vec![3], 1), piece(vec![], 2)]);
    assert_eq!(q.need.len(), 1);
    assert_eq!(q.no_peers.iter().map(|p| p.index()).collect::<Vec<_>>(), vec![0, 2]);
}

#[test]
fn ties_break_on_digest_then_length_then_index() {
    let mut a = piece(vec![1], 5);
    let mut b = piece(vec![2], 4);
    a.hash[0] = 2;
    b.hash[0] = 1;
    assert!(scheduled_before(&b, &a));
    b.hash[0] = 2;
    b.length = 200;
    assert!(scheduled_before(&a, &b));
    b.length = 100;
    assert!(scheduled_before(&b, &a));
    assert!(!scheduled_before(&a, &a));
}

#[test]
fn piece_descriptor_from_bitfields() {
    let mut bytes = b"d8:announce1:u4:infod6:lengthi70000e4:name1:n12:piece lengthi32768e6:pieces60:".to_vec();
    bytes.extend_from_slice(&[5u8; 60]);
    bytes.extend_from_slice(b"ee");
    let m = parse_metainfo(&decode(&bytes).unwrap()).unwrap();
    let bitfields = vec![
        Bitfield::from_payload(vec![0b1010_0000]),
        Bitfield::from_payload(vec![0b0010_0000]),
        Bitfield::from_payload(vec![]),
    ];
    let p = PieceFile::new(2, &m.info, &bitfields);
    assert_eq!(p.peers(), &vec![0, 1]);
    assert_eq!(p.length(), 4464);
    assert_eq!(p.hash(), [5u8; 20]);
    let p0 = PieceFile::new(0, &m.info, &bitfields);
    assert_eq!(p0.peers(), &vec![0]);
    assert_eq!(p0.length(), 32768);
}

#[test]
fn block_plan() {
    assert_eq!(nblocks(32768), 2);
    assert_eq!(nblocks(4464), 1);
    assert_eq!(nblocks(16385), 2);
    assert_eq!(block_size(16385, 1), 1);
    assert_eq!(block_size(4464, 0), 4464);
    assert_eq!(block_size(32768, 1), 16384);
    let r = block_request(3, 16385, 1);
    assert_eq!(r.index(), 3);
    assert_eq!(r.begin(), 16384);
    assert_eq!(r.length(), 1);
}
