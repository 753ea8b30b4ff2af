use bittorrent::bencode::{decode, DecodeError, Field};
use bittorrent::torrent::{encode_info, info_from_bvalue, Info, InfoFile, InfoMultiple,
    InfoSingle, TorrentFile};

fn minimal_torrent() -> Vec<u8> {
    let mut t = b"d8:announce31:http://tracker.example/announce4:info".to_vec();
    t.extend_from_slice(&minimal_info());
    t.push(b'e');
    t
}

fn minimal_info() -> Vec<u8> {
    let mut i = b"d6:lengthi1024e4:name1:a12:piece lengthi16384e6:pieces20:".to_vec();
    i.extend_from_slice(&[0u8; 20]);
    i.push(b'e');
    i
}

#[test]
fn decode_minimal_single_file_torrent() {
    let t = TorrentFile::from_bytes(&minimal_torrent()).unwrap();
    assert_eq!(t.announce, b"http://tracker.example/announce".to_vec());
    match &t.info {
        Info::Single(s) => {
            assert_eq!(s.length, 1024);
            assert_eq!(s.piece_length, 16384);
            assert_eq!(s.name, b"a".to_vec());
            assert_eq!(s.pieces.len(), 20);
            assert!(s.private.is_none());
        },
        Info::Multiple(_) => panic!("expected the single-file variant"),
    }
    assert!(t.announce_list.is_none());
    assert!(t.comment.is_none());
}

#[test]
fn info_reencodes_byte_identically() {
    let t = TorrentFile::from_bytes(&minimal_torrent()).unwrap();
    assert_eq!(encode_info(&t.info), minimal_info());
}

#[test]
fn info_hash_matches_known_vector() {
    let t = TorrentFile::from_bytes(&minimal_torrent()).unwrap();
    let expected: Vec<u8> = vec![
        0x07, 0xf6, 0xcb, 0x92, 0x6f, 0xa0, 0x86, 0x76, 0x96, 0x5c, 0xf0, 0xe2, 0x89, 0x84,
        0x9e, 0x93, 0xda, 0x08, 0x37, 0x3e,
    ];
    assert_eq!(t.info_hash(), expected);
}

#[test]
fn info_hash_is_deterministic_and_input_sensitive() {
    let t = TorrentFile::from_bytes(&minimal_torrent()).unwrap();
    assert_eq!(t.info_hash(), t.info_hash());
    let mut other_bytes = minimal_torrent();
    // change one byte of the info substructure: the name "a" becomes "b"
    let pos = other_bytes.windows(8).position(|w| w == b"4:name1:").unwrap() + 8;
    other_bytes[pos] = b'b';
    let other = TorrentFile::from_bytes(&other_bytes).unwrap();
    assert_ne!(t.info_hash(), other.info_hash());
}

#[test]
fn piece_count_and_total_length() {
    let t = TorrentFile::from_bytes(&minimal_torrent()).unwrap();
    assert_eq!(t.info.piece_count(), 1);
    assert_eq!(t.info.piece_count() * 20, 20);
    assert_eq!(t.info.total_length(), 1024);
    assert_eq!(t.info.piece_length(), 16384);
}

#[test]
fn pieces_not_multiple_of_twenty_fails() {
    let mut i = b"d6:lengthi1024e4:name1:a12:piece lengthi16384e6:pieces19:".to_vec();
    i.extend_from_slice(&[0u8; 19]);
    i.push(b'e');
    let mut t = b"d8:announce31:http://tracker.example/announce4:info".to_vec();
    t.extend_from_slice(&i);
    t.push(b'e');
    assert_eq!(TorrentFile::from_bytes(&t).unwrap_err(), DecodeError::InvalidPieces);
}

fn multi_info_bytes() -> Vec<u8> {
    let mut i = b"d5:filesl".to_vec();
    i.extend_from_slice(b"d6:lengthi300e4:pathl3:dir5:a.txtee");
    i.extend_from_slice(b"d6:lengthi700e4:pathl5:b.binee");
    i.extend_from_slice(b"e4:name3:dir12:piece lengthi32768e6:pieces40:");
    i.extend_from_slice(&[7u8; 40]);
    i.push(b'e');
    i
}

#[test]
fn decode_multi_file_info() {
    let v = decode(&multi_info_bytes()).unwrap();
    let info = info_from_bvalue(&v).unwrap();
    match &info {
        Info::Multiple(m) => {
            assert_eq!(m.files.len(), 2);
            assert_eq!(m.files[0].length, 300);
            assert_eq!(m.files[0].path, vec![b"dir".to_vec(), b"a.txt".to_vec()]);
            assert_eq!(m.files[1].length, 700);
            assert_eq!(m.name, b"dir".to_vec());
        },
        Info::Single(_) => panic!("expected the multi-file variant"),
    }
    assert_eq!(info.total_length(), 1000);
    assert_eq!(info.piece_count(), 2);
}

#[test]
fn multi_file_total_length_is_sum() {
    let files = vec![
        InfoFile { length: 1, path: vec![b"x".to_vec()] },
        InfoFile { length: 2, path: vec![b"y".to_vec()] },
        InfoFile { length: 39, path: vec![b"z".to_vec()] },
    ];
    let info = Info::Multiple(InfoMultiple {
        piece_length: 16384,
        pieces: vec![0u8; 20],
        private: None,
        name: b"d".to_vec(),
        files,
    });
    assert_eq!(info.total_length(), 42);
}

#[test]
fn encode_then_decode_single_info_round_trips() {
    let info = Info::Single(InfoSingle {
        piece_length: 262144,
        pieces: vec![9u8; 60],
        private: Some(1),
        length: 123456,
        name: b"file.iso".to_vec(),
    });
    let e = encode_info(&info);
    let v = decode(&e).unwrap();
    let back = info_from_bvalue(&v).unwrap();
    match (&info, &back) {
        (Info::Single(a), Info::Single(b)) => {
            assert_eq!(a.piece_length, b.piece_length);
            assert_eq!(a.pieces, b.pieces);
            assert_eq!(a.private, b.private);
            assert_eq!(a.length, b.length);
            assert_eq!(a.name, b.name);
        },
        _ => panic!("variant changed across the round trip"),
    }
    assert_eq!(encode_info(&back), e);
}

#[test]
fn encode_then_decode_multi_info_round_trips() {
    let info = Info::Multiple(InfoMultiple {
        piece_length: 32768,
        pieces: vec![3u8; 20],
        private: None,
        name: b"dir".to_vec(),
        files: vec![InfoFile { length: 5, path: vec![b"p".to_vec(), b"q".to_vec()] }],
    });
    let e = encode_info(&info);
    let v = decode(&e).unwrap();
    let back = info_from_bvalue(&v).unwrap();
    assert_eq!(encode_info(&back), e);
    match back {
        Info::Multiple(m) => {
            assert_eq!(m.files.len(), 1);
            assert_eq!(m.files[0].path, vec![b"p".to_vec(), b"q".to_vec()]);
        },
        Info::Single(_) => panic!("variant changed across the round trip"),
    }
}

#[test]
fn missing_announce_fails() {
    let mut t = b"d4:info".to_vec();
    t.extend_from_slice(&minimal_info());
    t.push(b'e');
    assert_eq!(TorrentFile::from_bytes(&t).unwrap_err(), DecodeError::Shape(Field::Announce));
}

#[test]
fn optional_metadata_is_decoded() {
    let mut t = b"d8:announce31:http://tracker.example/announce13:announce-listll31:http://tracker.example/announceee7:comment5:hello13:creation datei1700000000e4:info".to_vec();
    t.extend_from_slice(&minimal_info());
    t.push(b'e');
    let t = TorrentFile::from_bytes(&t).unwrap();
    assert_eq!(t.comment, Some(b"hello".to_vec()));
    assert_eq!(t.creation_date, Some(1700000000));
    let al = t.announce_list.unwrap();
    assert_eq!(al.len(), 1);
    assert_eq!(al[0], vec![b"http://tracker.example/announce".to_vec()]);
}

#[test]
fn info_with_both_length_and_files_decodes_as_single() {
    // the single-file candidate is attempted first, so a dictionary
    // matching both candidate shapes takes the single-file variant
    let mut i = b"d5:filesld6:lengthi300e4:pathl1:aeee6:lengthi1024e4:name1:a12:piece lengthi16384e6:pieces20:".to_vec();
    i.extend_from_slice(&[0u8; 20]);
    i.push(b'e');
    let v = decode(&i).unwrap();
    match info_from_bvalue(&v).unwrap() {
        Info::Single(s) => assert_eq!(s.length, 1024),
        Info::Multiple(_) => panic!("the single-file candidate must win"),
    }
}

#[test]
fn info_with_malformed_length_falls_back_to_files() {
    // a negative length fails the single-file candidate; the multi-file
    // candidate is then attempted and ignores the extra length entry
    let mut i = b"d5:filesld6:lengthi300e4:pathl1:aeee6:lengthi-1e4:name1:a12:piece lengthi16384e6:pieces20:".to_vec();
    i.extend_from_slice(&[0u8; 20]);
    i.push(b'e');
    let v = decode(&i).unwrap();
    match info_from_bvalue(&v).unwrap() {
        Info::Multiple(m) => assert_eq!(m.files.len(), 1),
        Info::Single(_) => panic!("expected the multi-file fallback"),
    }
}

#[test]
fn info_with_unknown_keys_decodes() {
    let mut i = b"d6:lengthi1024e6:md5sum3:abc4:name1:a12:piece lengthi16384e6:pieces20:".to_vec();
    i.extend_from_slice(&[0u8; 20]);
    i.push(b'e');
    let v = decode(&i).unwrap();
    match info_from_bvalue(&v).unwrap() {
        Info::Single(s) => {
            assert_eq!(s.length, 1024);
            assert_eq!(s.name, b"a".to_vec());
        },
        Info::Multiple(_) => panic!("expected the single-file variant"),
    }
}

#[test]
fn info_with_unsorted_keys_decodes() {
    let mut i = b"d4:name1:a6:lengthi7e12:piece lengthi16384e6:pieces20:".to_vec();
    i.extend_from_slice(&[0u8; 20]);
    i.push(b'e');
    let v = decode(&i).unwrap();
    match info_from_bvalue(&v).unwrap() {
        Info::Single(s) => assert_eq!(s.length, 7),
        Info::Multiple(_) => panic!("expected the single-file variant"),
    }
}
