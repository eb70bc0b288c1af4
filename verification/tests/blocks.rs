use std::collections::HashMap;

use p2p_share::blocks::BlockWatcher;
use p2p_share::classic;
use p2p_share::blocks::fill_block_watcher;

fn as_map(w: &BlockWatcher) -> HashMap<(u32, u32), bool> {
    w.segments().iter().map(|s| ((s.from_block, s.to_block), s.done)).collect()
}

#[test]
fn lib_test_fill_block_watcher_50_blocks_1_peers() {
    let mut res: HashMap<(u32, u32), bool> = HashMap::new();
    res.insert((0, 51), false);
    assert_eq!(res, as_map(&fill_block_watcher(50, 1).unwrap()));
}

#[test]
fn lib_test_fill_block_watcher_100_blocks_2_peers() {
    let mut res: HashMap<(u32, u32), bool> = HashMap::new();
    res.insert((0, 50), false);
    res.insert((50, 101), false);
    assert_eq!(res, as_map(&fill_block_watcher(100, 2).unwrap()));
}

#[test]
fn lib_test_fill_block_watcher_3_blocks_5_peers() {
    let mut res: HashMap<(u32, u32), bool> = HashMap::new();
    res.insert((0, 1), false);
    res.insert((1, 2), false);
    res.insert((2, 4), false);
    assert_eq!(res, as_map(&fill_block_watcher(3, 5).unwrap()));
}

#[test]
fn lib_test_fill_block_watcher_1_blocks_1_peers() {
    let mut res: HashMap<(u32, u32), bool> = HashMap::new();
    res.insert((0, 2), false);
    assert_eq!(res, as_map(&fill_block_watcher(1, 1).unwrap()));
}

#[test]
fn lib_test_fill_block_watcher_2_blocks_1_peers() {
    let mut res: HashMap<(u32, u32), bool> = HashMap::new();
    res.insert((0, 3), false);
    assert_eq!(res, as_map(&fill_block_watcher(2, 1).unwrap()));
}

#[test]
fn lib_test_fill_block_watcher_2_blocks_2_peers() {
    let mut res: HashMap<(u32, u32), bool> = HashMap::new();
    res.insert((0, 1), false);
    res.insert((1, 3), false);
    assert_eq!(res, as_map(&fill_block_watcher(2, 2).unwrap()));
}

#[test]
fn daemon_test_fill_block_watcher_50_blocks_1_peers() {
    let mut res: HashMap<(u32, u32), bool> = HashMap::new();
    res.insert((0, 51), false);
    assert_eq!(res, as_map(&classic::fill_block_watcher(50, 1).unwrap()));
}

#[test]
fn daemon_test_fill_block_watcher_100_blocks_2_peers() {
    let mut res: HashMap<(u32, u32), bool> = HashMap::new();
    res.insert((0, 50), false);
    res.insert((50, 101), false);
    assert_eq!(res, as_map(&classic::fill_block_watcher(100, 2).unwrap()));
}

#[test]
fn daemon_test_fill_block_watcher_3_blocks_5_peers() {
    let mut res: HashMap<(u32, u32), bool> = HashMap::new();
    res.insert((0, 1), false);
    res.insert((1, 2), false);
    res.insert((2, 4), false);
    assert_eq!(res, as_map(&classic::fill_block_watcher(3, 5).unwrap()));
}

#[test]
fn daemon_test_fill_block_watcher_1_blocks_1_peers() {
    let mut res: HashMap<(u32, u32), bool> = HashMap::new();
    res.insert((0, 2), false);
    assert_eq!(res, as_map(&classic::fill_block_watcher(1, 1).unwrap()));
}

#[test]
fn daemon_test_fill_block_watcher_2_blocks_1_peers() {
    let mut res: HashMap<(u32, u32), bool> = HashMap::new();
    res.insert((0, 3), false);
    assert_eq!(res, as_map(&classic::fill_block_watcher(2, 1).unwrap()));
}

#[test]
fn daemon_test_fill_block_watcher_2_blocks_2_peers() {
    let mut res: HashMap<(u32, u32), bool> = HashMap::new();
    res.insert((0, 1), false);
    res.insert((1, 3), false);
    assert_eq!(res, as_map(&classic::fill_block_watcher(2, 2).unwrap()));
}

#[test]
fn fill_block_watcher_segments_are_contiguous_and_ordered() {
    let w = fill_block_watcher(10, 3).unwrap();
    let got: Vec<(u32, u32)> = w.segments().iter().map(|s| (s.from_block, s.to_block)).collect();
    assert_eq!(got, vec![(0, 3), (3, 6), (6, 11)]);
}

#[test]
fn fill_block_watcher_no_blocks_gives_no_segments() {
    assert_eq!(fill_block_watcher(0, 4).unwrap().len(), 0);
}

#[test]
fn block_watcher_marks_ranges() {
    let mut w = fill_block_watcher(4, 2).unwrap();
    assert!(w.any_pending());
    assert!(w.mark_done(0, 2));
    assert!(!w.mark_done(1, 2));
    assert!(w.any_pending());
    assert!(w.mark_done(2, 5));
    assert!(!w.any_pending());
}

#[test]
fn whole_block_downloads_read_the_file() {
    let size: u64 = 10000;
    let w = classic::fill_block_watcher((size / 4096) as u32, 2).unwrap();
    let mut total: u64 = 0;
    for s in w.segments() {
        let p = classic::share_to_peer(size, 4096, s.from_block, s.to_block);
        total += p.full_chunks as u64 * p.chunk_len as u64 + p.tail_chunks as u64 * p.tail_len as u64;
    }
    assert_eq!(total, size);
}
