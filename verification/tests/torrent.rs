use bittorrent_client::bencode::{decode, encode, BError};
use bittorrent_client::torrent::{
    create_single_file_torrent, parse, single_file_torrent, torrent_name, FileEntry, FileLayout,
    PieceHasher, Torrent, TorrentError, HASH_LEN,
};
use sha1::{Digest, Sha1};

#[test]
fn parses_a_minimal_single_file_torrent() {
    let fake_piece_hash = [0xAAu8; HASH_LEN];
    let mut input = Vec::new();
    input.extend_from_slice(b"d8:announce19:http://tracker.test4:info");
    input.extend_from_slice(b"d6:lengthi123e4:name8:test.txt12:piece lengthi16384e6:pieces");
    input.extend_from_slice(format!("{}:", HASH_LEN).as_bytes());
    input.extend_from_slice(&fake_piece_hash);
    input.extend_from_slice(b"ee");

    let t = parse(&input).expect("should parse");
    assert_eq!(t.announce, "http://tracker.test");
    assert_eq!(t.name, "test.txt");
    assert_eq!(t.piece_length, 16384);
    assert_eq!(t.pieces, vec![fake_piece_hash]);
    assert_eq!(t.total_length(), 123);
    assert!(matches!(t.layout, FileLayout::Single { length: 123 }));
}

#[test]
fn rejects_missing_announce() {
    let input = b"d4:infod6:lengthi1e4:name1:x12:piece lengthi1e6:pieces0:ee";
    let err = parse(input).unwrap_err();
    assert!(matches!(err, TorrentError::MissingField("announce")));
}

#[test]
fn rejects_malformed_pieces_length() {
    let input = b"d8:announce4:test4:infod6:lengthi1e4:name1:x12:piece lengthi1e6:pieces5:abcdeee";
    let err = parse(input).unwrap_err();
    assert!(matches!(err, TorrentError::MalformedPieces));
}

#[test]
fn generated_torrent_round_trips_through_parse() {
    let content = vec![0x42u8; 50_000];
    let piece_length = 16384;
    let torrent_bytes = create_single_file_torrent(
        "bt_test_roundtrip.bin",
        &content,
        "http://tracker.test/announce",
        piece_length,
    );

    let parsed = parse(&torrent_bytes).expect("generated torrent should parse cleanly");

    assert_eq!(parsed.announce, "http://tracker.test/announce");
    assert_eq!(parsed.name, "bt_test_roundtrip.bin");
    assert_eq!(parsed.piece_length, piece_length);
    assert_eq!(parsed.total_length(), 50_000);
    assert_eq!(parsed.pieces.len(), 4);

    let expected_first_hash: [u8; HASH_LEN] =
        Sha1::digest(&content[0..piece_length as usize]).into();
    assert_eq!(parsed.pieces[0], expected_first_hash);
    let expected_last_hash: [u8; HASH_LEN] =
        Sha1::digest(&content[3 * piece_length as usize..]).into();
    assert_eq!(parsed.pieces[3], expected_last_hash);
}

#[test]
fn info_hash_is_deterministic() {
    let content = b"hello world, this is a test file";
    let name = "bt_test_hash_determinism.bin";
    let bytes1 = create_single_file_torrent(name, content, "http://a.test", 16384);
    let bytes2 = create_single_file_torrent(name, content, "http://a.test", 16384);

    let t1 = parse(&bytes1).unwrap();
    let t2 = parse(&bytes2).unwrap();
    assert_eq!(t1.info_hash, t2.info_hash, "same content must yield same info_hash");
}

#[test]
fn info_hash_is_the_digest_of_the_info_bytes() {
    let info: &[u8] = b"d6:lengthi1e4:name1:x12:piece lengthi1e6:pieces0:e";
    let mut file = b"d8:announce4:test4:info".to_vec();
    file.extend_from_slice(info);
    file.extend_from_slice(b"e");
    let t = parse(&file).unwrap();
    let expected: [u8; HASH_LEN] = Sha1::digest(info).into();
    assert_eq!(t.info_hash, expected);
    assert!(t.info_hash != [0u8; HASH_LEN]);

    let mut elsewhere = b"d8:announce5:other4:info".to_vec();
    elsewhere.extend_from_slice(info);
    elsewhere.extend_from_slice(b"e");
    assert_eq!(parse(&elsewhere).unwrap().info_hash, t.info_hash);
}

#[test]
fn info_hash_is_of_the_raw_bytes_where_they_are_not_canonical() {
    let infos: Vec<&[u8]> = vec![
        b"d4:name1:n6:lengthi3e12:piece lengthi4e6:pieces0:e",
        b"d6:lengthi003e4:name1:n12:piece lengthi4e6:pieces0:e",
        b"d6:lengthi3e4:name01:n12:piece lengthi+4e6:pieces00:e",
        b"d6:lengthi9e6:lengthi3e4:name1:n12:piece lengthi4e6:pieces0:e",
    ];
    for info in infos {
        let mut file = b"d8:announce1:a4:info".to_vec();
        file.extend_from_slice(info);
        file.extend_from_slice(b"e");
        let t = parse(&file).unwrap();
        assert_eq!(t.name, "n");
        assert_eq!(t.piece_length, 4);
        assert_eq!(t.total_length(), 3);
        let raw: [u8; HASH_LEN] = Sha1::digest(info).into();
        assert_eq!(t.info_hash, raw);
        let sorted: [u8; HASH_LEN] = Sha1::digest(encode(&decode(info).unwrap())).into();
        assert!(t.info_hash != sorted);
    }
}

#[test]
fn info_hash_is_of_the_info_that_counts() {
    let first: &[u8] = b"d6:lengthi1e4:name1:x12:piece lengthi4e6:pieces0:e";
    let last: &[u8] = b"d6:lengthi2e4:name1:y12:piece lengthi4e6:pieces0:e";
    let mut file = b"d04:info".to_vec();
    file.extend_from_slice(first);
    file.extend_from_slice(b"4:info");
    file.extend_from_slice(last);
    file.extend_from_slice(b"8:announce1:ae");
    let t = parse(&file).unwrap();
    assert_eq!(t.name, "y");
    let expected: [u8; HASH_LEN] = Sha1::digest(last).into();
    assert_eq!(t.info_hash, expected);
}

#[test]
fn info_hash_is_shown_in_hexadecimal() {
    let mut t = parse(b"d8:announce1:a4:infod6:lengthi1e4:name1:x12:piece lengthi1e6:pieces0:ee")
        .unwrap();
    let mut hash = [0u8; HASH_LEN];
    hash[0] = 0xa1;
    hash[1] = 0x0f;
    hash[19] = 0xff;
    t.info_hash = hash;
    assert_eq!(t.info_hash_hex(), "a10f0000000000000000000000000000000000ff");
}

#[test]
fn parses_a_torrent_of_several_files() {
    let input = b"d8:announce1:a4:infod5:filesld6:lengthi5e4:pathl3:sub5:a.txteed6:lengthi7e4:pathl5:b.txteee4:name3:dir12:piece lengthi16e6:pieces0:ee";
    let t = parse(input).unwrap();
    match &t.layout {
        FileLayout::Multi { files } => {
            assert_eq!(files.len(), 2);
            assert_eq!(files[0].length, 5);
            assert_eq!(files[0].path, vec!["sub".to_string(), "a.txt".to_string()]);
            assert_eq!(files[1].path, vec!["b.txt".to_string()]);
        }
        other => panic!("expected several files, got {:?}", other),
    }
    assert_eq!(t.total_length(), 12);
    assert_eq!(t.checked_total_length(), Some(12));
}

#[test]
fn a_length_makes_it_a_single_file() {
    let input = b"d8:announce1:a4:infod5:files1:x6:lengthi3e4:name1:n12:piece lengthi16e6:pieces0:ee";
    assert!(matches!(parse(input).unwrap().layout, FileLayout::Single { length: 3 }));
}

#[test]
fn fields_that_are_missing_or_wrong_are_named() {
    let cases: Vec<(&[u8], &str)> = vec![
        (b"i1e", "missing required field: announce"),
        (b"d8:announcei1ee", "field has wrong type: announce"),
        (b"d8:announce1:\xffe", "field has wrong type: announce"),
        (b"d8:announce1:ae", "missing required field: info"),
        (b"d8:announce1:a4:infodee", "missing required field: info.name"),
        (b"d8:announce1:a4:infod4:namei1eee", "field has wrong type: info.name"),
        (b"d8:announce1:a4:infod4:name1:nee", "missing required field: info.piece length"),
        (
            b"d8:announce1:a4:infod4:name1:n12:piece length1:xee",
            "field has wrong type: info.piece length",
        ),
        (
            b"d8:announce1:a4:infod4:name1:n12:piece lengthi1eee",
            "missing required field: info.pieces",
        ),
        (
            b"d8:announce1:a4:infod4:name1:n12:piece lengthi1e6:piecesi1eee",
            "field has wrong type: info.pieces",
        ),
        (
            b"d8:announce1:a4:infod4:name1:n12:piece lengthi1e6:pieces1:xee",
            "'pieces' length is not a multiple of 20",
        ),
        (
            b"d8:announce1:a4:infod4:name1:n12:piece lengthi1e6:pieces0:ee",
            "missing required field: info.length or info.files",
        ),
        (
            b"d8:announce1:a4:infod6:length1:x4:name1:n12:piece lengthi1e6:pieces0:ee",
            "field has wrong type: info.length",
        ),
        (
            b"d8:announce1:a4:infod5:filesi1e4:name1:n12:piece lengthi1e6:pieces0:ee",
            "field has wrong type: info.files",
        ),
        (
            b"d8:announce1:a4:infod5:filesld6:lengthi5eee4:name1:n12:piece lengthi1e6:pieces0:ee",
            "malformed entry in 'files' list",
        ),
        (b"i1eX", "bencode error: trailing data after top-level value"),
    ];
    for (input, message) in cases {
        assert_eq!(parse(input).unwrap_err().message(), message);
    }
}

#[test]
fn decoding_errors_are_passed_on() {
    assert!(matches!(parse(b"i1"), Err(TorrentError::Bencode(BError::UnexpectedEof))));
    assert!(matches!(TorrentError::from(BError::TrailingData), TorrentError::Bencode(BError::TrailingData)));
}

#[test]
fn lengths_that_do_not_add_up_are_noticed() {
    let t = Torrent {
        announce: String::new(),
        name: String::new(),
        piece_length: 1,
        pieces: vec![],
        layout: FileLayout::Multi {
            files: vec![
                FileEntry { length: i64::MAX, path: vec![] },
                FileEntry { length: 1, path: vec![] },
            ],
        },
        info_hash: [0u8; HASH_LEN],
    };
    assert_eq!(t.checked_total_length(), None);
}

#[test]
fn content_may_be_hashed_in_parts() {
    let content: Vec<u8> = (0..100u8).collect();
    let mut hasher = PieceHasher::new(30);
    hasher.update(&content[..7]);
    hasher.update(&content[7..65]);
    hasher.update(&[]);
    hasher.update(&content[65..]);
    let mut expected: Vec<u8> = Vec::new();
    for piece in content.chunks(30) {
        expected.extend_from_slice(&Sha1::digest(piece));
    }
    let hashes = hasher.finish();
    assert_eq!(hashes.len(), 80);
    assert_eq!(hashes, expected);
}

#[test]
fn pieces_have_at_least_one_byte() {
    let mut hasher = PieceHasher::new(0);
    hasher.update(b"ab");
    assert_eq!(hasher.finish().len(), 40);
    assert_eq!(PieceHasher::new(-5).finish().len(), 0);
}

#[test]
fn torrent_files_are_written_in_the_order_of_their_keys() {
    let file = single_file_torrent("http://a", "n", 4, 0, vec![]);
    assert_eq!(
        file,
        b"d8:announce8:http://a4:infod6:lengthi0e4:name1:n12:piece lengthi4e6:pieces0:ee"
    );
    assert_eq!(encode(&decode(&file).unwrap()), file);
}

#[test]
fn torrents_are_named_after_their_file() {
    assert_eq!(torrent_name(Some("a.bin".to_string())), "a.bin");
    assert_eq!(torrent_name(None), "unnamed");
}
