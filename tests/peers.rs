use rustorrent::wire::Bitfield;

#[test]
fn bitfield_has() {
    let bf = Bitfield {
        payload: vec![0b10101010, 0b01010101],
    };
    assert!(bf.has_piece(0));
    assert!(!bf.has_piece(1));
    assert!(!bf.has_piece(7));
    assert!(!bf.has_piece(8));
    assert!(bf.has_piece(15));
}

#[test]
fn bitfield_iter() {
    let bf = Bitfield {
        payload: vec![0b10101010, 0b01010101],
    };
    let mut pieces = bf.pieces().into_iter();
    assert_eq!(pieces.next(), Some(0));
    assert_eq!(pieces.next(), Some(2));
    assert_eq!(pieces.next(), Some(4));
    assert_eq!(pieces.next(), Some(6));
    assert_eq!(pieces.next(), Some(9));
    assert_eq!(pieces.next(), Some(11));
    assert_eq!(pieces.next(), Some(13));
    assert_eq!(pieces.next(), Some(15));
    assert_eq!(pieces.next(), None);
}

#[test]
fn bitfield_bit_order_msb_first() {
    let bf = Bitfield::from_payload(vec![0b0100_0000, 0b0000_0001]);
    assert!(!bf.has_piece(0));
    assert!(bf.has_piece(1));
    assert!(bf.has_piece(15));
    assert!(!bf.has_piece(14));
    assert!(!bf.has_piece(16));
    assert!(!bf.has_piece(1000));
}

#[test]
fn have_sets_one_piece() {
    let mut bf = Bitfield::from_payload(vec![0, 0]);
    bf.set_piece(9);
    assert_eq!(bf.payload, vec![0, 0b0100_0000]);
    assert!(bf.has_piece(9));
    bf.set_piece(16);
    assert_eq!(bf.payload, vec![0, 0b0100_0000]);
}
