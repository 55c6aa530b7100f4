use bittorrent_client::download::{piece_offset, DownloadSession};
use bittorrent_client::orchestrate::{
    generate_peer_id, is_plannable, leech_outcome, peer_id_from_time, piece_len_for, plan_leech,
    seed_config,
};
use bittorrent_client::peer::PeerMessage;
use bittorrent_client::torrent::{create_single_file_torrent, parse, FileLayout, Torrent};

fn torrent(piece_length: i64, pieces: usize, length: i64) -> Torrent {
    Torrent {
        announce: String::new(),
        name: String::new(),
        piece_length,
        pieces: (0..pieces).map(|i| [i as u8; 20]).collect(),
        layout: FileLayout::Single { length },
        info_hash: [9u8; 20],
    }
}

#[test]
fn piece_len_for_handles_uneven_final_piece() {
    let num_pieces = 4;
    let piece_length = 300;
    let total = 1000;
    assert_eq!(piece_len_for(0, num_pieces, piece_length, total), 300);
    assert_eq!(piece_len_for(2, num_pieces, piece_length, total), 300);
    assert_eq!(piece_len_for(3, num_pieces, piece_length, total), 100);
}

#[test]
fn lengths_of_final_pieces_are_cut_to_32_bits() {
    assert_eq!(piece_len_for(0, 1, 10, 0x1_0000_0005), 5);
    assert_eq!(piece_len_for(1, 2, 10, 9), u32::MAX);
}

#[test]
fn peer_ids_have_a_prefix_and_the_time() {
    assert_eq!(
        peer_id_from_time(0x0102_0304_0506_0708, 0x090a_0b0c),
        *b"-RS0001-\x01\x02\x03\x04\x05\x06\x07\x08\x09\x0a\x0b\x0c"
    );
    assert_eq!(peer_id_from_time(0, 0), *b"-RS0001-\0\0\0\0\0\0\0\0\0\0\0\0");
    let seconds_now = || {
        std::time::SystemTime::now().duration_since(std::time::UNIX_EPOCH).unwrap().as_secs()
    };
    let before = seconds_now();
    let id = generate_peer_id();
    let after = seconds_now();
    assert_eq!(&id[..8], b"-RS0001-");
    let mut secs = [0u8; 8];
    secs.copy_from_slice(&id[8..16]);
    let secs = u64::from_be_bytes(secs);
    assert!(before <= secs && secs <= after);
    let nanos = u32::from_be_bytes([id[16], id[17], id[18], id[19]]);
    assert!(nanos < 1_000_000_000);
    assert_eq!(id, peer_id_from_time(secs, nanos));
}

#[test]
fn different_moments_have_different_peer_ids() {
    let moments = [(0, 0), (0, 1), (1, 0), (1, 1), (2, 0), (0x1_0000_0000, 0), (0, 256), (256, 0)];
    for (i, a) in moments.iter().enumerate() {
        for (j, b) in moments.iter().enumerate() {
            assert_eq!(peer_id_from_time(a.0, a.1) == peer_id_from_time(b.0, b.1), i == j);
        }
    }
}

#[test]
fn peers_take_turns() {
    let t = torrent(300, 4, 1000);
    assert!(is_plannable(&t));
    let plan = plan_leech(&t, 3).ok().unwrap();
    assert_eq!(plan.num_pieces, 4);
    assert_eq!(plan.piece_length, 300);
    assert_eq!(plan.total_length, 1000);
    assert_eq!(
        plan.assignments,
        vec![
            vec![(0, 300, [0u8; 20]), (3, 100, [3u8; 20])],
            vec![(1, 300, [1u8; 20])],
            vec![(2, 300, [2u8; 20])],
        ]
    );
}

#[test]
fn peers_without_pieces_have_nothing_to_do() {
    let plan = plan_leech(&torrent(10, 1, 5), 3).ok().unwrap();
    assert_eq!(plan.assignments, vec![vec![(0, 5, [0u8; 20])], vec![], vec![]]);
    let plan = plan_leech(&torrent(10, 0, 0), 2).ok().unwrap();
    assert_eq!(plan.assignments, vec![vec![], vec![]]);
}

#[test]
fn every_peer_is_connected_to() {
    let plan = plan_leech(&torrent(10, 1, 5), 3).ok().unwrap();
    assert_eq!(plan.peers_to_connect(), vec![0, 1, 2]);
    let plan = plan_leech(&torrent(10, 5, 41), 2).ok().unwrap();
    assert_eq!(plan.peers_to_connect(), vec![0, 1]);
    let asked: Vec<u32> = plan.assignments[0].iter().map(|a| a.0).collect();
    assert_eq!(asked, vec![0, 2, 4]);
}

#[test]
fn peers_are_needed() {
    let error = plan_leech(&torrent(10, 1, 5), 0).err().unwrap();
    assert_eq!(error, "no peers given -- pass at least one with --peers");
}

#[test]
fn sizes_that_cannot_be_computed_with_are_noticed() {
    assert!(is_plannable(&torrent(10, 2, i64::MIN + 10)));
    assert!(!is_plannable(&torrent(10, 2, i64::MIN + 9)));
    assert!(is_plannable(&torrent(0xffff_ffff, 3, 0)));
}

#[test]
fn seeders_know_their_torrent() {
    let t = torrent(0x1_0000_0010, 3, 40);
    let config = seed_config(&t, std::path::PathBuf::from("f"));
    assert_eq!(config.file_path, std::path::PathBuf::from("f"));
    assert_eq!(config.piece_length, 16);
    assert_eq!(config.num_pieces, 3);
    assert_eq!(config.info_hash, [9u8; 20]);
}

#[test]
fn downloads_are_complete_when_all_pieces_are_there() {
    assert_eq!(leech_outcome(4, 4), Ok(()));
    assert_eq!(leech_outcome(0, 0), Ok(()));
    assert_eq!(
        leech_outcome(3, 24),
        Err("only 3/24 pieces downloaded successfully".to_string())
    );
}

#[test]
fn a_file_is_reassembled_from_three_peers() {
    let piece_length: i64 = 65_536;
    let mut content: Vec<u8> = Vec::new();
    for i in 0..(piece_length * 24) {
        content.push((i % 256) as u8);
    }
    content.extend_from_slice(&[1, 2, 3]);
    let file = create_single_file_torrent("source.bin", &content, "http://test.invalid", piece_length);
    let t = parse(&file).unwrap();
    assert_eq!(t.pieces.len(), 25);

    let plan = plan_leech(&t, 3).ok().unwrap();
    let mut output = vec![0u8; content.len()];
    let mut done = 0;
    for assignments in plan.assignments.into_iter().rev() {
        let (session, _) = DownloadSession::start(assignments);
        let (mut session, mut requests) = session.on_received(Ok(PeerMessage::Unchoke)).unwrap();
        while !session.is_done() {
            let reply = match requests.remove(0) {
                PeerMessage::Request { index, begin, length } => {
                    let start = piece_offset(index, plan.piece_length) as usize + begin as usize;
                    let block = content[start..start + length as usize].to_vec();
                    PeerMessage::Piece { index, begin, block }
                }
                other => panic!("expected Request, got {:?}", other),
            };
            let (next, more) = session.on_received(Ok(reply)).unwrap();
            session = next;
            requests.extend(more);
        }
        for (index, data) in session.into_results() {
            let start = piece_offset(index, plan.piece_length) as usize;
            output[start..start + data.len()].copy_from_slice(&data);
            done += 1;
        }
    }
    assert_eq!(leech_outcome(done, plan.num_pieces), Ok(()));
    assert_eq!(output, content, "reassembled file must exactly match the source");
}
