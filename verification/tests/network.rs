use p2p_share::config::{PORT_FILE_SHARE, SCAN_REQUEST};
use p2p_share::download::DownloadSession;
use p2p_share::entities::{BlockInfo, FileSizeOrInfo, FileState};
use p2p_share::multicast::{
    is_scan_request, multicast_receiver, multicast_responder, parse_probe, probe_token,
    MulticastReaction,
};
use p2p_share::net::{PeerAddr, PeerIp};

#[test]
fn scan_request_text() {
    assert_eq!(&SCAN_REQUEST, b"UDP_Scan_Request_P2P");
    assert!(is_scan_request(&b"UDP_Scan_Request_P2P".to_vec()));
    assert!(!is_scan_request(&b"UDP_Scan_Request_P2Q".to_vec()));
}

#[test]
fn responder_answers_scans_of_others_only() {
    let mut data = FileState::new();
    data.shared.insert(String::from("a"), String::from("/a"));
    data.shared.insert(String::from("b"), String::from("/b"));
    let me = PeerIp::V4(1);
    let other = PeerIp::V4(2);
    let scan = SCAN_REQUEST.to_vec();
    assert!(matches!(multicast_responder(me, me, &scan, &data), MulticastReaction::Ignore));
    assert!(matches!(multicast_responder(me, other, &b"hi".to_vec(), &data), MulticastReaction::ConnectOnly));
    match multicast_responder(me, other, &scan, &data) {
        MulticastReaction::SendNames(mut names) => {
            names.sort();
            assert_eq!(names, vec!["a", "b"]);
        }
        _ => panic!("expected names"),
    }
}

#[test]
fn receiver_records_the_offering_peer() {
    let p = PeerAddr::from_octets([10, 1, 1, 1], 7647);
    let q = PeerAddr::from_octets([10, 1, 1, 2], 7647);
    let mut data = FileState::new();
    multicast_receiver(&mut data, &vec![String::from("a")], p);
    multicast_receiver(&mut data, &vec![String::from("a"), String::from("b")], q);
    let a = data.available.get(&String::from("a")).unwrap();
    let b = data.available.get(&String::from("b")).unwrap();
    assert_eq!(a, &vec![p, q]);
    assert_eq!(b, &vec![q]);
}

#[test]
fn probe_round_trip() {
    for token in [0u128, 7, 10, 123456789, u128::MAX] {
        let text = probe_token(token);
        assert_eq!(text, token.to_string().into_bytes());
        assert_eq!(parse_probe(&text), Some(token));
    }
    assert_eq!(parse_probe(&b"+42".to_vec()), Some(42));
    assert_eq!(parse_probe(&b"".to_vec()), None);
    assert_eq!(parse_probe(&b"+".to_vec()), None);
    assert_eq!(parse_probe(&b"4x2".to_vec()), None);
    assert_eq!(parse_probe(&b"340282366920938463463374607431768211456".to_vec()), None);
}

#[test]
fn download_session_rounds() {
    let a = PeerAddr::from_octets([10, 0, 0, 1], PORT_FILE_SHARE);
    let b = PeerAddr::from_octets([10, 0, 0, 2], PORT_FILE_SHARE);
    let c = PeerAddr::from_octets([10, 0, 0, 3], PORT_FILE_SHARE);
    let size: u64 = 4096 * 10 + 5;
    let mut s = DownloadSession::start(String::from("f"), vec![(a, size), (b, size), (c, 3)]).unwrap();
    assert_eq!(s.file_size(), size);
    assert_eq!(s.segment_count(), 2);
    assert!(s.is_active());
    let round = s.schedule_round().unwrap();
    let got: Vec<(PeerAddr, u32, u32)> = round.iter().map(|x| (x.peer, x.from_block, x.to_block)).collect();
    assert_eq!(got, vec![(a, 0, 5), (b, 5, 12)]);
    assert!(s.mark_done(0, 5));
    s.end_round();
    assert!(!s.is_complete());
    // Interrupted: the peer at the missing range's position leaves first.
    let round = s.schedule_round().unwrap();
    let got: Vec<(PeerAddr, u32, u32)> = round.iter().map(|x| (x.peer, x.from_block, x.to_block)).collect();
    assert_eq!(got, vec![(a, 5, 12)]);
    assert!(s.mark_done(5, 12));
    s.end_round();
    assert!(s.is_complete());
    assert!(!s.is_active());
}

#[test]
fn download_session_needs_peers() {
    assert!(DownloadSession::start(String::from("f"), Vec::new()).is_none());
    let a = PeerAddr::from_octets([10, 0, 0, 1], PORT_FILE_SHARE);
    assert!(DownloadSession::start(String::from("f"), vec![(a, u64::MAX)]).is_none());
}

#[test]
fn download_session_by_whole_blocks() {
    let a = PeerAddr::from_octets([10, 0, 0, 1], PORT_FILE_SHARE);
    let s = DownloadSession::start_whole_blocks(String::from("f"), vec![(a, 4096 * 3 + 1)]).unwrap();
    assert_eq!(s.segment_count(), 1);
    let mut s = s;
    let round = s.schedule_round().unwrap();
    assert_eq!((round[0].from_block, round[0].to_block), (0, 4));
}

#[test]
fn download_session_records_fetches() {
    let a = PeerAddr::from_octets([10, 0, 0, 1], PORT_FILE_SHARE);
    let b = PeerAddr::from_octets([10, 0, 0, 2], PORT_FILE_SHARE);
    let size: u64 = 4096 * 10 + 5;
    let mut s = DownloadSession::start(String::from("f"), vec![(a, size), (b, size)]).unwrap();
    let round = s.schedule_round().unwrap();
    let (request, plan) = s.range_request(&round[1]);
    assert_eq!(request.filename, "f");
    assert!(matches!(
        request.action,
        FileSizeOrInfo::Info(BlockInfo { from_block: 5, to_block: 12 })
    ));
    assert_eq!(plan.offset, 5 * 4096);
    assert_eq!((plan.full_chunks, plan.tail_chunks, plan.tail_len), (5, 1, 5));
    // A failed fetch leaves the range missing.
    assert!(!s.record_fetch(5, 12, false));
    s.end_round();
    assert!(!s.is_complete());
    assert!(s.record_fetch(0, 5, true));
    assert!(s.record_fetch(5, 12, true));
    assert!(s.is_complete());
}
