use p2p_share::config::CHUNK_SIZE;
use p2p_share::daemon::{begin_transfer, HandshakeStep};
use p2p_share::entities::BlockInfo;
use p2p_share::entities::TransferMap;
use p2p_share::blocks::fill_block_watcher;
use p2p_share::helpers::{blocks_count, create_buffer};
use p2p_share::logger::{Level, Logger};
use p2p_share::name_map::NameMap;
use p2p_share::net::{PeerAddr, PeerIp};
use p2p_share::paths::share_name;
use p2p_share::plans::{download_from_peer, transfer_to_peer, TransferPlan};
use p2p_share::transfer::TransferGuard;

#[test]
fn blocks_count_values() {
    assert_eq!(blocks_count(0, 4096), 1);
    assert_eq!(blocks_count(1, 4096), 1);
    assert_eq!(blocks_count(4096, 4096), 1);
    assert_eq!(blocks_count(4097, 4096), 2);
    assert_eq!(blocks_count(409600, 4096), 100);
    // The quotient is truncated to u32.
    assert_eq!(blocks_count(u32::MAX as u64 + 1, 1), 1);
    // The largest size whose rounded-up count fits in u64.
    assert_eq!(blocks_count(u64::MAX - 4095, 4096), u32::MAX);
}

#[test]
fn create_buffer_is_zeroed() {
    let b = create_buffer(CHUNK_SIZE);
    assert_eq!(b.len(), 4096);
    assert!(b.iter().all(|x| *x == 0));
    assert!(create_buffer(0).is_empty());
}

fn total(p: &TransferPlan) -> u64 {
    p.full_chunks as u64 * p.chunk_len as u64 + p.tail_chunks as u64 * p.tail_len as u64
}

#[test]
fn download_plan_reads_the_whole_file() {
    for size in [0u64, 1, 4095, 4096, 4097, 8192, 10000] {
        let p = download_from_peer(size, 4096, 0, blocks_count(size, 4096));
        assert_eq!(total(&p), size);
        assert_eq!(p.offset, 0);
    }
}

#[test]
fn download_plan_of_a_range() {
    let p = download_from_peer(10000, 4096, 1, 3);
    assert_eq!(
        p,
        TransferPlan { offset: 4096, full_chunks: 1, chunk_len: 4096, tail_chunks: 1, tail_len: 1808 }
    );
    // Past the end of the file, a range stops where the file does.
    let p = download_from_peer(10000, 4096, 0, 4);
    assert_eq!(p.full_chunks, 2);
    assert_eq!(p.tail_chunks, 1);
    assert_eq!(total(&p), 10000);
    let p = download_from_peer(10000, 4096, 3, 4);
    assert_eq!(total(&p), 0);
    assert_eq!(p.offset, 3 * 4096);
}

#[test]
fn transfer_plan_matches_download_plan() {
    for size in [0u64, 100, 4096, 8192, 10000] {
        for (from, to) in [(0u32, 1u32), (0, 2), (0, 3), (1, 3), (2, 4), (3, 3)] {
            assert_eq!(transfer_to_peer(size, 4096, from, to), download_from_peer(size, 4096, from, to));
        }
    }
}

#[test]
fn transfer_plan_of_a_whole_block_file_sends_the_block() {
    let p = transfer_to_peer(4096, 4096, 0, 1);
    assert_eq!(p.full_chunks, 1);
    assert_eq!(total(&p), 4096);
    // The split's last range reaches one block past the file; it still ends
    // with the file.
    let p = transfer_to_peer(100, 4096, 0, 2);
    assert_eq!(total(&p), 100);
    assert_eq!((p.full_chunks, p.tail_chunks, p.tail_len), (0, 1, 100));
}

#[test]
fn split_plans_read_the_file_in_order() {
    for size in [0u64, 100, 4096, 8192, 10000, 409600, 409601] {
        for peers in [1u32, 2, 3, 7] {
            let w = fill_block_watcher(blocks_count(size, 4096), peers).unwrap();
            let mut read: u64 = 0;
            for s in w.segments() {
                let p = transfer_to_peer(size, 4096, s.from_block, s.to_block);
                if total(&p) > 0 {
                    assert_eq!(p.offset, read);
                }
                read += total(&p);
            }
            assert_eq!(read, size);
        }
    }
}

fn lists(m: &TransferMap) -> Vec<(String, Vec<PeerAddr>)> {
    let mut v: Vec<(String, Vec<PeerAddr>)> =
        m.keys().iter().cloned().zip(m.values().iter().cloned()).collect();
    v.sort_by(|a, b| a.0.cmp(&b.0));
    v
}

#[test]
fn transfer_guard_release_undoes_new() {
    let a = PeerAddr::from_octets([10, 0, 0, 1], 5000);
    let b = PeerAddr::from_octets([10, 0, 0, 2], 5000);
    let mut m: TransferMap = NameMap::new();
    m.insert(String::from("f"), vec![a]);
    let before = lists(&m);
    let g = TransferGuard::new(&mut m, String::from("f"), b);
    assert_eq!(lists(&m), vec![(String::from("f"), vec![a, b])]);
    assert!(g.release(&mut m));
    assert_eq!(lists(&m), before);
}

#[test]
fn transfer_guard_last_peer_removes_the_file() {
    let a = PeerAddr::from_octets([10, 0, 0, 1], 5000);
    let mut m: TransferMap = NameMap::new();
    let g = TransferGuard::new(&mut m, String::from("f"), a);
    assert_eq!(m.len(), 1);
    assert!(g.release(&mut m));
    assert_eq!(m.len(), 0);
    // Nothing is left to release.
    assert!(!g.release(&mut m));
}

#[test]
fn transfer_guard_removes_first_occurrence() {
    let a = PeerAddr::from_octets([10, 0, 0, 1], 5000);
    let b = PeerAddr::from_octets([10, 0, 0, 2], 5000);
    let mut m: TransferMap = NameMap::new();
    m.insert(String::from("f"), vec![a, b]);
    let g = TransferGuard::new(&mut m, String::from("f"), a);
    assert!(g.release(&mut m));
    assert_eq!(lists(&m), vec![(String::from("f"), vec![b, a])]);
}

#[test]
fn begin_transfer_records_the_peer_for_a_transfer_only() {
    let a = PeerAddr::from_octets([10, 0, 0, 1], 5000);
    let mut m: TransferMap = NameMap::new();
    let step = HandshakeStep::Transfer {
        info: BlockInfo { from_block: 1, to_block: 3 },
        filename: String::from("f"),
        path: String::from("/tmp/f"),
    };
    let (g, plan) = begin_transfer(&mut m, &step, a, 10000).unwrap();
    assert_eq!(lists(&m), vec![(String::from("f"), vec![a])]);
    assert_eq!(g.filename, "f");
    assert_eq!(plan, transfer_to_peer(10000, 4096, 1, 3));
    assert!(g.release(&mut m));
    assert_eq!(m.len(), 0);
    let size = HandshakeStep::ReportSize { filename: String::from("f"), path: String::from("/tmp/f") };
    assert!(begin_transfer(&mut m, &size, a, 10000).is_none());
    assert_eq!(m.len(), 0);
}

#[test]
fn share_names() {
    assert_eq!(share_name("fake\\path\\FILE.dat"), Some(String::from("FILE.dat")));
    assert_eq!(share_name("/home/u/a.txt"), Some(String::from("a.txt")));
    assert_eq!(share_name("dir/sub/"), Some(String::from("sub")));
    assert_eq!(share_name("plain"), Some(String::from("plain")));
    assert_eq!(share_name(""), None);
    assert_eq!(share_name("/"), None);
    assert_eq!(share_name("a/.."), None);
    assert_eq!(share_name("notes.txt/."), Some(String::from("notes.txt")));
    assert_eq!(share_name("a/./"), Some(String::from("a")));
    assert_eq!(share_name("./b.txt"), Some(String::from("b.txt")));
    assert_eq!(share_name("."), None);
    assert_eq!(share_name("./"), None);
    assert_eq!(share_name(".hidden"), Some(String::from(".hidden")));
}

#[test]
fn levels_have_their_words() {
    assert_eq!(Level::info().as_str(), "INFO");
    assert_eq!(Level::debug().as_str(), "DEBUG");
    assert_eq!(Level::error().as_str(), "ERROR");
}

#[test]
fn compact_lines() {
    let l = Logger::compact("cli");
    assert_eq!(l.create_message(Level::debug(), "hello"), "d[cli] hello");
    assert_eq!(l.create_message(Level::error(), "bad"), "e[cli] bad");
    assert_eq!(l.create_message(Level::info(), "fine"), "[cli] fine");
}

#[test]
fn verbose_lines() {
    let l = Logger::verbose("daemon");
    assert_eq!(
        l.format_message(&Level::info(), "2024-01-02 03:04:05", "up"),
        "[daemon] 2024-01-02 03:04:05 INFO: up"
    );
    let line = l.create_message(Level::error(), "down");
    assert!(line.starts_with("[daemon] "));
    assert!(line.ends_with(" ERROR: down"));
    // The local time, as YYYY-MM-DD HH:MM:SS, stands between them.
    assert_eq!(line.len(), "[daemon] ".len() + 19 + " ERROR: down".len());
    let stamp: Vec<char> = line["[daemon] ".len().."[daemon] ".len() + 19].chars().collect();
    for (i, c) in stamp.iter().enumerate() {
        match i {
            4 | 7 => assert_eq!(*c, '-'),
            10 => assert_eq!(*c, ' '),
            13 | 16 => assert_eq!(*c, ':'),
            _ => assert!(c.is_ascii_digit()),
        }
    }
}

#[test]
fn peer_addresses() {
    let p = PeerAddr::from_octets([192, 168, 0, 1], 80);
    assert_eq!(p.ip(), PeerIp::V4(0xC0A80001));
    assert_eq!(p.port(), 80);
}
