use rustorrent::download::{place_piece, write_block, Downloaded, DownloadedIter, PieceAssembly};
use rustorrent::metainfo::{File, Info};

fn info(files: Option<Vec<File>>, length: usize) -> Info {
    Info { files, length, name: b"out".to_vec(), piece_length: 4, pieces: vec![] }
}

#[test]
fn single_file_layout() {
    let d = Downloaded::new(info(None, 6), vec![1, 2, 3, 4, 5, 6]);
    assert_eq!(d.files.len(), 1);
    assert_eq!(d.files[0].path, vec![b"out".to_vec()]);
    let mut it = DownloadedIter::new(&d);
    let f = it.next(&d).unwrap();
    assert_eq!(f.bytes(), &[1, 2, 3, 4, 5, 6]);
    assert!(it.next(&d).is_none());
}

#[test]
fn multi_file_layout() {
    let files = vec![
        File { length: 2, md5sum: None, path: vec![b"a".to_vec()] },
        File { length: 0, md5sum: None, path: vec![b"b".to_vec()] },
        File { length: 4, md5sum: None, path: vec![b"c".to_vec()] },
    ];
    let d = Downloaded::new(info(Some(files), 0), vec![1, 2, 3, 4, 5, 6]);
    let mut it = DownloadedIter::new(&d);
    let mut joined = Vec::new();
    let mut sizes = Vec::new();
    while let Some(f) = it.next(&d) {
        sizes.push(f.bytes().len());
        joined.extend_from_slice(f.bytes());
    }
    assert_eq!(sizes, vec![2, 0, 4]);
    assert_eq!(joined, d.bytes);
}

#[test]
fn assembly_rejects_out_of_range_blocks() {
    let mut a = PieceAssembly::new(4);
    assert_eq!(a.accept(3, &[1, 2]), None);
    assert_eq!(a.accept(2, &[1, 2]), Some(false));
    assert_eq!(a.accept(0, &[7, 8]), Some(true));
    assert_eq!(a.buffer, vec![7, 8, 1, 2]);
}

#[test]
fn pieces_land_at_their_offset() {
    let mut all = vec![0u8; 10];
    assert!(place_piece(&mut all, 1, 4, &[9, 9, 9, 9]));
    assert!(place_piece(&mut all, 2, 4, &[5, 5]));
    assert_eq!(all, vec![0, 0, 0, 0, 9, 9, 9, 9, 5, 5]);
    assert!(!place_piece(&mut all, 2, 4, &[1, 1, 1]));
    assert_eq!(all, vec![0, 0, 0, 0, 9, 9, 9, 9, 5, 5]);
    let mut b = vec![0u8; 3];
    write_block(&mut b, 1, &[4, 4]);
    assert_eq!(b, vec![0, 4, 4]);
}
