use rustorrent::bencode::{decode, encode, OwnedValue};
use rustorrent::metainfo::{compute_length, parse_metainfo, piece_size, MetainfoError};
use rustorrent::tracker::{encode_info_field, info_hash, piece_verified};

fn single_file(total: usize, piece_length: usize, npieces: usize) -> Vec<u8> {
    let mut out = Vec::new();
    out.extend_from_slice(b"d8:announce18:http://tracker/ann7:comment2:hi13:creation datei1700e4:infod6:lengthi");
    out.extend_from_slice(total.to_string().as_bytes());
    out.extend_from_slice(b"e4:name5:a.bin12:piece lengthi");
    out.extend_from_slice(piece_length.to_string().as_bytes());
    out.extend_from_slice(b"e6:pieces");
    out.extend_from_slice((20 * npieces).to_string().as_bytes());
    out.push(b':');
    for i in 0..npieces {
        out.extend_from_slice(&[i as u8; 20]);
    }
    out.extend_from_slice(b"ee");
    out
}

#[test]
fn piece_sizes_of_seventy_thousand_bytes() {
    let bytes = single_file(70000, 32768, 3);
    let m = parse_metainfo(&decode(&bytes).unwrap()).unwrap();
    assert_eq!(compute_length(&m.info), 70000);
    let sizes: Vec<usize> = (0..3).map(|i| piece_size(&m.info, i)).collect();
    assert_eq!(sizes, vec![32768, 32768, 4464]);
    assert_eq!(sizes.iter().sum::<usize>(), 70000);
}

#[test]
fn last_piece_full_when_divisible() {
    let bytes = single_file(65536, 32768, 2);
    let m = parse_metainfo(&decode(&bytes).unwrap()).unwrap();
    assert_eq!(piece_size(&m.info, 1), 32768);
}

#[test]
fn metainfo_fields() {
    let bytes = single_file(70000, 32768, 3);
    let m = parse_metainfo(&decode(&bytes).unwrap()).unwrap();
    assert_eq!(m.announce, b"http://tracker/ann".to_vec());
    assert_eq!(m.info.name, b"a.bin".to_vec());
    assert_eq!(m.info.piece_length, 32768);
    assert_eq!(m.info.pieces.len(), 3);
    assert_eq!(m.info.pieces[2], [2u8; 20]);
    assert!(m.info.files.is_none());
    assert_eq!(m.creation_date, Some(1700));
    assert_eq!(m.comment, Some(b"hi".to_vec()));
    assert_eq!(m.created_by, None);
}

#[test]
fn multi_file_metainfo() {
    let mut bytes = Vec::new();
    bytes.extend_from_slice(b"d8:announce3:url4:infod5:filesld6:lengthi3e4:pathl1:a1:beed6:lengthi5e6:md5sum2:zz4:pathl1:ceee");
    bytes.extend_from_slice(b"4:name3:dir12:piece lengthi4e6:pieces40:");
    bytes.extend_from_slice(&[1u8; 40]);
    bytes.extend_from_slice(b"ee");
    let m = parse_metainfo(&decode(&bytes).unwrap()).unwrap();
    let files = m.info.files.as_ref().unwrap();
    assert_eq!(files.len(), 2);
    assert_eq!(files[0].path, vec![b"a".to_vec(), b"b".to_vec()]);
    assert_eq!(files[1].md5sum, Some(b"zz".to_vec()));
    assert_eq!(compute_length(&m.info), 8);
    assert_eq!(piece_size(&m.info, 1), 4);
}

#[test]
fn shape_errors() {
    // pieces not a multiple of 20
    let mut bad = b"d8:announce1:u4:infod6:lengthi10e4:name1:n12:piece lengthi10e6:pieces19:".to_vec();
    bad.extend_from_slice(&[0u8; 19]);
    bad.extend_from_slice(b"ee");
    assert_eq!(parse_metainfo(&decode(&bad).unwrap()).unwrap_err(), MetainfoError::MetainfoShape);
    // wrong number of pieces for the length
    let wrong = single_file(70000, 32768, 2);
    assert_eq!(parse_metainfo(&decode(&wrong).unwrap()).unwrap_err(), MetainfoError::MetainfoShape);
    // not a dictionary
    assert!(parse_metainfo(&OwnedValue::Integer(1)).is_err());
    // neither length nor files
    let none = b"d8:announce1:u4:infod4:name1:n12:piece lengthi1e6:pieces0:ee".to_vec();
    assert!(parse_metainfo(&decode(&none).unwrap()).is_err());
}

#[test]
fn info_digest_uses_the_info_bytes() {
    let bytes = single_file(70000, 32768, 3);
    let v = decode(&bytes).unwrap();
    let info_bytes = encode_info_field(&v).unwrap();
    let start = bytes.windows(5).position(|w| w == b"4:inf").unwrap() + 6;
    assert_eq!(&bytes[start..bytes.len() - 1], &info_bytes[..]);
    let h = info_hash(&v).unwrap();
    assert!(piece_verified(&info_bytes, &h));
    assert_ne!(h, [0u8; 20]);
    assert!(info_hash(&decode(&b"de".to_vec()).unwrap()).is_none());
    assert_eq!(encode(&v), bytes);
}

#[test]
fn sha1_known_value() {
    let expected: [u8; 20] = [
        0xa9, 0x99, 0x3e, 0x36, 0x47, 0x06, 0x81, 0x6a, 0xba, 0x3e, 0x25, 0x71, 0x78, 0x50, 0xc2, 0x6c, 0x9c, 0xd0,
        0xd8, 0x9d,
    ];
    assert!(piece_verified(b"abc", &expected));
    assert!(!piece_verified(b"abd", &expected));
}
