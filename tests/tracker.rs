use rustorrent::tracker::{parse_tracker_response, tracker_url, Peers, TrackerError, TrackerRequest};

#[test]
fn query_string() {
    let req = TrackerRequest {
        peer_id: b"-MB2025-100101070501".to_vec(),
        port: 6881,
        uploaded: 0,
        downloaded: 0,
        left: 70000,
        compact: 1,
    };
    let mut hash = [0u8; 20];
    hash[0] = 0xab;
    hash[19] = 0x0f;
    let url = tracker_url(&b"http://t/a".to_vec(), &hash, &req);
    let mut expected = String::from("http://t/a?info_hash=%ab");
    for _ in 0..18 {
        expected.push_str("%00");
    }
    expected.push_str("%0f&peer_id=-MB2025-100101070501&port=6881&uploaded=0&downloaded=0&left=70000&compact=1");
    assert_eq!(String::from_utf8(url).unwrap(), expected);
}

#[test]
fn compact_peer_list() {
    let p = Peers::from_compact(&[10, 0, 0, 1, 0x1a, 0xe1, 192, 168, 1, 2, 0, 80]).unwrap();
    assert_eq!(p.0.len(), 2);
    assert_eq!(p.0[0].ip, [10, 0, 0, 1]);
    assert_eq!(p.0[0].port, 6881);
    assert_eq!(p.0[1].ip, [192, 168, 1, 2]);
    assert_eq!(p.0[1].port, 80);
    assert!(matches!(Peers::from_compact(&[1, 2, 3]), Err(TrackerError::TrackerPeerList)));
}

#[test]
fn tracker_answers() {
    let ok = b"d8:intervali900e5:peers6:\x7f\x00\x00\x01\x1a\xe1e".to_vec();
    let r = parse_tracker_response(&ok).unwrap();
    assert_eq!(r.interval, 900);
    assert_eq!(r.peers.0[0].ip, [127, 0, 0, 1]);
    assert_eq!(r.peers.0[0].port, 6881);
    let short = b"d8:intervali900e5:peers5:abcdee".to_vec();
    assert!(matches!(parse_tracker_response(&short), Err(TrackerError::TrackerPeerList)));
    let missing = b"d8:intervali900ee".to_vec();
    assert!(matches!(parse_tracker_response(&missing), Err(TrackerError::TrackerDecode)));
    let garbage = b"not bencode".to_vec();
    assert!(matches!(parse_tracker_response(&garbage), Err(TrackerError::TrackerDecode)));
}

#[test]
fn compact_list_round_trip() {
    let bytes = vec![1, 2, 3, 4, 0x12, 0x34, 5, 6, 7, 8, 0, 1];
    let p = Peers::from_compact(&bytes).unwrap();
    assert_eq!(p.to_compact(), bytes);
}
