use p2p_share::cli::{process_actions, process_daemon_response, CliArgs, CliError, OutputLine};
use p2p_share::entities::{Action, Response, PeerMap, PathMap, TransferMap};
use p2p_share::name_map::NameMap;
use p2p_share::net::{PeerAddr, PeerIp};

fn args(sub: &str, present: bool, path: Option<&str>, name: Option<&str>, wait: bool) -> CliArgs {
    CliArgs {
        subcommand: Some(String::from(sub)),
        args_present: present,
        file_path: path.map(String::from),
        file_name: name.map(String::from),
        wait,
    }
}

#[test]
fn share_needs_an_existing_file() {
    match process_actions(&args("share", true, Some("a.txt"), None, false), true) {
        Ok(Action::Share { file_path }) => assert_eq!(file_path, "a.txt"),
        _ => panic!("expected a share request"),
    }
    assert!(matches!(
        process_actions(&args("share", true, Some("a.txt"), None, false), false),
        Err(CliError::FileDoesNotExist)
    ));
    assert!(matches!(
        process_actions(&args("share", false, None, None, false), false),
        Err(CliError::NoPathForSharing)
    ));
}

#[test]
fn download_defaults_to_current_directory() {
    match process_actions(&args("download", true, None, Some("f"), true), false) {
        Ok(Action::Download { file_name, save_path, wait }) => {
            assert_eq!(file_name, "f");
            assert_eq!(save_path, "");
            assert!(wait);
        }
        _ => panic!("expected a download request"),
    }
    match process_actions(&args("download", true, Some("out"), Some("f"), false), false) {
        Ok(Action::Download { save_path, wait, .. }) => {
            assert_eq!(save_path, "out");
            assert!(!wait);
        }
        _ => panic!("expected a download request"),
    }
    assert!(matches!(
        process_actions(&args("download", false, None, None, false), false),
        Err(CliError::NoFileName)
    ));
}

#[test]
fn plain_subcommands_and_wrong_ones() {
    assert!(matches!(process_actions(&args("scan", false, None, None, false), false), Ok(Action::Scan)));
    assert!(matches!(process_actions(&args("ls", false, None, None, false), false), Ok(Action::Ls)));
    assert!(matches!(process_actions(&args("status", false, None, None, false), false), Ok(Action::Status)));
    assert!(matches!(process_actions(&args("fly", false, None, None, false), false), Err(CliError::WrongAction)));
    let none = CliArgs { subcommand: None, args_present: false, file_path: None, file_name: None, wait: false };
    assert!(matches!(process_actions(&none, false), Err(CliError::WrongAction)));
}

#[test]
fn error_messages() {
    assert_eq!(CliError::NoPathForSharing.message(), "No path for sharing!");
    assert_eq!(CliError::FileDoesNotExist.message(), "File does not exists!");
    assert_eq!(CliError::NoFileName.message(), "No file name to download!");
    assert_eq!(CliError::WrongAction.message(), "Wrong action!");
}

fn describe(lines: &[OutputLine]) -> Vec<String> {
    lines
        .iter()
        .map(|l| match l {
            OutputLine::Heading(s) => format!("H {}", s),
            OutputLine::Failure(s) => format!("F {}", s),
            OutputLine::Entry(s) => format!("E {}", s),
            OutputLine::Peer(PeerIp::V4(ip)) => format!("P {}", ip),
            OutputLine::Peer(PeerIp::V6(ip)) => format!("P6 {}", ip),
        })
        .collect()
}

#[test]
fn ls_lines() {
    let mut m: PeerMap = NameMap::new();
    m.insert(String::from("a"), Vec::new());
    m.insert(String::from("b"), Vec::new());
    let lines = process_daemon_response(&Response::Ls { available_map: m });
    assert_eq!(describe(&lines), vec!["H Files available to download:", "E a", "E b"]);
}

#[test]
fn status_lines() {
    let p = PeerAddr::from_octets([0, 0, 0, 7], 1);
    let mut t: TransferMap = NameMap::new();
    t.insert(String::from("a"), vec![p]);
    let mut s: PathMap = NameMap::new();
    s.insert(String::from("a"), String::from("/x/a"));
    s.insert(String::from("b"), String::from("/x/b"));
    let lines = process_daemon_response(&Response::Status {
        transferring_map: t,
        shared_map: s,
        downloading_map: vec![String::from("c")],
    });
    assert_eq!(
        describe(&lines),
        vec!["H Sharing:", "E a", "P 7", "E b", "H Downloading:", "E c"]
    );
}

#[test]
fn error_and_success_lines() {
    let lines = process_daemon_response(&Response::Error(String::from("nope")));
    assert_eq!(describe(&lines), vec!["F nope"]);
    assert!(process_daemon_response(&Response::Success).is_empty());
}
