use std::collections::HashMap;

use p2p_share::classic::{command_processor, get_fsize_on_each_peer, Command, DataTemp};
use p2p_share::daemon::{
    action_processor, finish_downloading, get_fsizes, handle_handshake, is_servable,
    requested_range, start_downloading, DaemonEffect, HandshakeStep,
};
use p2p_share::entities::{
    Action, BlockInfo, FileInfo, FileSizeOrInfo, FileState, HandshakeRequest, PathMap, PeerMap,
    Response, TransferMap,
};
use p2p_share::name_map::NameMap;
use p2p_share::net::PeerAddr;

fn peer_map(m: &PeerMap) -> HashMap<String, Vec<PeerAddr>> {
    m.keys().iter().cloned().zip(m.values().iter().cloned()).collect()
}

fn path_map(m: &PathMap) -> HashMap<String, String> {
    m.keys().iter().cloned().zip(m.values().iter().cloned()).collect()
}

fn empty_transfers() -> TransferMap {
    NameMap::new()
}

#[test]
fn test_get_fsizes() {
    let v: Vec<(PeerAddr, FileInfo)> = Vec::new();
    let (o, _) = get_fsizes(&v);
    println!("{:?}", o);
    assert!(o.is_empty());
}

#[test]
fn test_get_fsizes_contain() {
    // The one peer, 224.0.0.123:1222, cannot be reached, so it gives no reply.
    let v: Vec<(PeerAddr, FileInfo)> = Vec::new();
    let (o, refresh) = get_fsizes(&v);
    println!("{:?}", o);
    assert!(o.is_empty());
    assert!(!refresh);
}

#[test]
fn test_get_fsize_on_each_peer() {
    let v: Vec<(PeerAddr, FileInfo)> = Vec::new();
    let (o, _) = get_fsize_on_each_peer(&v);
    println!("{:?}", o);
    assert!(o.is_empty());
}

#[test]
fn test_get_fsize_on_each_peer_contain() {
    // The one peer, 224.0.0.123:1222, cannot be reached, so it gives no reply.
    let v: Vec<(PeerAddr, FileInfo)> = Vec::new();
    let (o, _) = get_fsize_on_each_peer(&v);
    println!("{:?}", o);
    assert!(o.is_empty());
}

#[test]
fn get_fsizes_keeps_sizes_and_notices_missing_files() {
    let a = PeerAddr::from_octets([10, 0, 0, 1], 7648);
    let b = PeerAddr::from_octets([10, 0, 0, 2], 7648);
    let c = PeerAddr::from_octets([10, 0, 0, 3], 7648);
    let v = vec![(a, FileInfo::Size(10)), (b, FileInfo::NotExist), (c, FileInfo::Size(12))];
    let (o, refresh) = get_fsizes(&v);
    assert_eq!(o, vec![(a, 10), (c, 12)]);
    assert!(refresh);
}

#[test]
fn lib_test_share() {
    let share = Action::Share { file_path: String::from("fake\\path\\FILE.dat") };
    let mut dat = FileState::new();
    let tr = empty_transfers();
    let dow: Vec<String> = Vec::new();
    let (answ, effect) = action_processor(&share, &mut dat, &tr, &dow);
    assert!(matches!(answ, Response::Success));
    assert!(matches!(effect, DaemonEffect::Nothing));
    assert_eq!(
        path_map(&dat.shared).get(&String::from("FILE.dat")).unwrap(),
        &String::from("fake\\path\\FILE.dat")
    );
}

#[test]
fn daemon_test_share() {
    let com = Command::Share { file_path: String::from("fake\\path\\FILE.dat") };
    let mut dat = DataTemp::new();
    let tr = empty_transfers();
    let dow: Vec<String> = Vec::new();
    let (answ, _) = command_processor(&com, &mut dat, &tr, &dow);
    assert!(matches!(answ, Response::Success));
    assert_eq!(
        path_map(&dat.shared).get(&String::from("FILE.dat")).unwrap(),
        &String::from("fake\\path\\FILE.dat")
    );
}

#[test]
fn lib_test_download() {
    let download = Action::Download {
        file_name: String::from("FILE.dat"),
        save_path: String::from("fake\\path\\"),
        wait: false,
    };
    let mut dat = FileState::new();
    let tr = empty_transfers();
    let dow: Vec<String> = Vec::new();
    let (answ, _) = action_processor(&download, &mut dat, &tr, &dow);
    match answ {
        Response::Error(e) => assert_eq!(e, "File is not available to download!"),
        _ => panic!("An error occurred, unexpected answer"),
    }
}

#[test]
fn daemon_test_download() {
    let com = Command::Download {
        file_name: String::from("FILE.dat"),
        save_path: String::from("fake\\path\\"),
        wait: false,
    };
    let mut dat = DataTemp::new();
    let tr = empty_transfers();
    let dow: Vec<String> = Vec::new();
    let (answ, _) = command_processor(&com, &mut dat, &tr, &dow);
    match answ {
        Response::Error(e) => assert_eq!(e, "File is not available to download!"),
        _ => panic!("An error occurred, unexpected answer"),
    }
}

#[test]
fn lib_test_scan() {
    let mut dat = FileState::new();
    let tr = empty_transfers();
    let dow: Vec<String> = Vec::new();
    let (answ, effect) = action_processor(&Action::Scan, &mut dat, &tr, &dow);
    assert!(matches!(answ, Response::Success));
    assert!(matches!(effect, DaemonEffect::SendScanRequest));
}

#[test]
fn scan_forgets_available_files() {
    let mut dat = FileState::new();
    dat.available.insert(String::from("OLD.dat"), Vec::new());
    let tr = empty_transfers();
    let dow: Vec<String> = Vec::new();
    let (answ, _) = action_processor(&Action::Scan, &mut dat, &tr, &dow);
    assert!(matches!(answ, Response::Success));
    assert_eq!(dat.available.len(), 0);
}

#[test]
fn daemon_test_scan() {
    let mut dat = DataTemp::new();
    let tr = empty_transfers();
    let dow: Vec<String> = Vec::new();
    let (answ, _) = command_processor(&Command::Scan, &mut dat, &tr, &dow);
    assert!(matches!(answ, Response::Success));
}

#[test]
fn lib_test_ls() {
    let mut dat = FileState::new();
    dat.available.insert(String::from("FILE.dat"), Vec::new());
    let tr = empty_transfers();
    let dow: Vec<String> = Vec::new();
    let (answ, _) = action_processor(&Action::Ls, &mut dat, &tr, &dow);
    let mut t: HashMap<String, Vec<PeerAddr>> = HashMap::new();
    t.insert(String::from("FILE.dat"), Vec::new());
    match answ {
        Response::Ls { available_map } => assert_eq!(peer_map(&available_map), t),
        _ => panic!("An error occurred, unexpected answer"),
    }
}

#[test]
fn daemon_test_ls() {
    let mut dat = DataTemp::new();
    dat.available.insert(String::from("FILE.dat"), Vec::new());
    let tr = empty_transfers();
    let dow: Vec<String> = Vec::new();
    let (answ, _) = command_processor(&Command::Ls, &mut dat, &tr, &dow);
    let mut t: HashMap<String, Vec<PeerAddr>> = HashMap::new();
    t.insert(String::from("FILE.dat"), Vec::new());
    match answ {
        Response::Ls { available_map } => assert_eq!(peer_map(&available_map), t),
        _ => panic!("An error occurred, unexpected answer"),
    }
}

fn status_case(use_command: bool) {
    let mut dat = FileState::new();
    dat.shared
        .insert(String::from("FILE1.dat"), String::from("fake\\path\\FILE1.dat"));
    let mut tr = empty_transfers();
    tr.insert(String::from("FILE.dat"), Vec::new());
    let dow: Vec<String> = Vec::new();
    let (answ, _) = if use_command {
        command_processor(&Command::Status, &mut dat, &tr, &dow)
    } else {
        action_processor(&Action::Status, &mut dat, &tr, &dow)
    };
    let mut t: HashMap<String, Vec<PeerAddr>> = HashMap::new();
    t.insert(String::from("FILE.dat"), Vec::new());
    let mut sh: HashMap<String, String> = HashMap::new();
    sh.insert(String::from("FILE1.dat"), String::from("fake\\path\\FILE1.dat"));
    let dow_t: Vec<String> = Vec::new();
    match answ {
        Response::Status { transferring_map, shared_map, downloading_map } => {
            assert_eq!(peer_map(&transferring_map), t);
            assert_eq!(path_map(&shared_map), sh);
            assert_eq!(downloading_map, dow_t);
        }
        _ => panic!("An error occurred, unexpected answer"),
    }
}

#[test]
fn lib_test_status() {
    status_case(false);
}

#[test]
fn daemon_test_status() {
    status_case(true);
}

#[test]
fn download_refused_when_already_shared() {
    let peer = PeerAddr::from_octets([192, 168, 1, 5], 7647);
    let mut dat = FileState::new();
    dat.available.insert(String::from("a.txt"), vec![peer]);
    dat.shared.insert(String::from("a.txt"), String::from("/tmp/a.txt"));
    let tr = empty_transfers();
    let dow: Vec<String> = Vec::new();
    let req = Action::Download {
        file_name: String::from("a.txt"),
        save_path: String::new(),
        wait: true,
    };
    match action_processor(&req, &mut dat, &tr, &dow).0 {
        Response::Error(e) => assert_eq!(e, "You are already sharing this file!"),
        _ => panic!("expected a refusal"),
    }
    let com = Command::Download {
        file_name: String::from("a.txt"),
        save_path: String::new(),
        wait: true,
    };
    match command_processor(&com, &mut dat, &tr, &dow).0 {
        Response::Error(e) => assert_eq!(e, "You already own this file, and even sharing!"),
        _ => panic!("expected a refusal"),
    }
}

#[test]
fn download_started_with_the_peers_of_the_file() {
    let p1 = PeerAddr::from_octets([192, 168, 1, 5], 7647);
    let p2 = PeerAddr::from_octets([192, 168, 1, 6], 7647);
    let mut dat = FileState::new();
    dat.available.insert(String::from("a.txt"), vec![p1, p2]);
    let tr = empty_transfers();
    let dow: Vec<String> = Vec::new();
    let req = Action::Download {
        file_name: String::from("a.txt"),
        save_path: String::from("out"),
        wait: true,
    };
    let (answ, effect) = action_processor(&req, &mut dat, &tr, &dow);
    assert!(matches!(answ, Response::Success));
    match effect {
        DaemonEffect::StartDownload { file_name, save_path, peers, wait } => {
            assert_eq!(file_name, "a.txt");
            assert_eq!(save_path, "out");
            assert_eq!(peers, vec![p1, p2]);
            assert!(wait);
        }
        _ => panic!("expected a download"),
    }
}

#[test]
fn share_of_a_directory_cannot_be_served() {
    assert!(!is_servable(&Action::Share { file_path: String::from("..") }));
    assert!(is_servable(&Action::Share { file_path: String::from("dir/f.bin") }));
    assert!(is_servable(&Action::Ls));
}

#[test]
fn handshake_answers() {
    let mut shared: PathMap = NameMap::new();
    shared.insert(String::from("f.bin"), String::from("/data/f.bin"));
    let size_req = HandshakeRequest { filename: String::from("f.bin"), action: FileSizeOrInfo::Size };
    match handle_handshake(&shared, &size_req) {
        Some(HandshakeStep::ReportSize { filename, path }) => {
            assert_eq!(filename, "f.bin");
            assert_eq!(path, "/data/f.bin");
        }
        _ => panic!("expected a size report"),
    }
    let missing = HandshakeRequest { filename: String::from("g.bin"), action: FileSizeOrInfo::Size };
    match handle_handshake(&shared, &missing) {
        Some(HandshakeStep::Refuse { response }) => {
            assert_eq!(response.filename, "g.bin");
            assert_eq!(response.answer, FileInfo::NotExist);
        }
        _ => panic!("expected a refusal"),
    }
    let info = BlockInfo { from_block: 2, to_block: 5 };
    let blocks = HandshakeRequest { filename: String::from("f.bin"), action: FileSizeOrInfo::Info(info) };
    match handle_handshake(&shared, &blocks) {
        Some(HandshakeStep::Transfer { info: i, filename, path }) => {
            assert_eq!(i, info);
            assert_eq!(filename, "f.bin");
            assert_eq!(path, "/data/f.bin");
        }
        _ => panic!("expected a transfer"),
    }
    let unknown = HandshakeRequest { filename: String::from("g.bin"), action: FileSizeOrInfo::Info(info) };
    assert!(handle_handshake(&shared, &unknown).is_none());
}

#[test]
fn requested_range_of_requests() {
    assert_eq!(requested_range(&FileSizeOrInfo::Info(BlockInfo { from_block: 3, to_block: 9 })), (3, 9));
    assert_eq!(requested_range(&FileSizeOrInfo::Size), (0, 0));
}

#[test]
fn downloading_list_keeps_other_names() {
    let mut d = vec![String::from("a"), String::from("b")];
    start_downloading(&mut d, String::from("a"));
    assert_eq!(d, vec!["a", "b", "a"]);
    finish_downloading(&mut d, &String::from("a"));
    assert_eq!(d, vec!["b"]);
}

#[test]
fn shared_file_is_not_downloaded() {
    let peer = PeerAddr::from_octets([192, 168, 1, 9], 7647);
    let mut dat = FileState::new();
    dat.available.insert(String::from("x.bin"), vec![peer]);
    let tr = empty_transfers();
    let dow: Vec<String> = Vec::new();
    let share = Action::Share { file_path: String::from("/srv/x.bin") };
    assert!(matches!(action_processor(&share, &mut dat, &tr, &dow).0, Response::Success));
    let download = Action::Download {
        file_name: String::from("x.bin"),
        save_path: String::new(),
        wait: false,
    };
    let (answ, effect) = action_processor(&download, &mut dat, &tr, &dow);
    assert!(matches!(answ, Response::Error(_)));
    assert!(matches!(effect, DaemonEffect::Nothing));
}

#[test]
fn scan_then_ls_lists_nothing() {
    let peer = PeerAddr::from_octets([192, 168, 1, 9], 7647);
    let mut dat = FileState::new();
    dat.available.insert(String::from("x.bin"), vec![peer]);
    let tr = empty_transfers();
    let dow: Vec<String> = Vec::new();
    action_processor(&Action::Scan, &mut dat, &tr, &dow);
    match action_processor(&Action::Ls, &mut dat, &tr, &dow).0 {
        Response::Ls { available_map } => assert!(peer_map(&available_map).is_empty()),
        _ => panic!("expected a list"),
    }
}

#[test]
fn download_list_restored_after_download() {
    let mut d = vec![String::from("a"), String::from("b")];
    start_downloading(&mut d, String::from("c"));
    finish_downloading(&mut d, &String::from("c"));
    assert_eq!(d, vec!["a", "b"]);
}
