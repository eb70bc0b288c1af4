use p2p_share::classic::remove_other_fsizes_in_vec;
use p2p_share::config::LOCAL_NETWORK;
use p2p_share::fsizes::clear_fsizes;
use p2p_share::net::PeerAddr;

fn sock() -> PeerAddr {
    PeerAddr::from_octets(LOCAL_NETWORK, 80)
}

#[test]
fn test_clear_fsizes_contain() {
    let mut v: Vec<(PeerAddr, u64)> = Vec::new();
    let sa = PeerAddr::from_octets([224, 0, 0, 123], 1222);
    v.push((sa, 64));
    match clear_fsizes(v) {
        Ok(o) => println!("{:?}", o),
        Err(e) => panic!("{:?}", e),
    }
}

#[test]
fn test_clear_fsizes_two_16_one_32() {
    let s = sock();
    let v = vec![(s, 16), (s, 32), (s, 16)];
    let res = vec![(s, 16), (s, 16)];
    assert_eq!(clear_fsizes(v).unwrap(), res);
}

#[test]
fn test_clear_fsizes_two_16_three_32() {
    let s = sock();
    let v = vec![(s, 16), (s, 16), (s, 32), (s, 32), (s, 32)];
    let res = vec![(s, 32), (s, 32), (s, 32)];
    assert_eq!(clear_fsizes(v).unwrap(), res);
}

#[test]
fn test_clear_fsizes_one_16() {
    let s = sock();
    let v = vec![(s, 16)];
    let res = vec![(s, 16)];
    assert_eq!(clear_fsizes(v).unwrap(), res);
}

#[test]
fn test_clear_fsizes_two_16_two_32() {
    let s = sock();
    let v = vec![(s, 16), (s, 16), (s, 32), (s, 32)];
    let res = vec![(s, 32), (s, 32)];
    assert_eq!(clear_fsizes(v).unwrap(), res);
}

#[test]
fn test_clear_fsizes_one_16_one_32() {
    let s = sock();
    let v = vec![(s, 16), (s, 32)];
    let res = vec![(s, 32)];
    assert_eq!(clear_fsizes(v).unwrap(), res);
}

#[test]
fn test_remove_other_fsizes_in_vec_contain() {
    let mut v: Vec<(PeerAddr, u64)> = Vec::new();
    let sa = PeerAddr::from_octets([224, 0, 0, 123], 1222);
    v.push((sa, 64));
    match remove_other_fsizes_in_vec(v) {
        Ok(o) => println!("{:?}", o),
        Err(e) => panic!("{:?}", e),
    }
}

#[test]
fn test_remove_other_fsizes_in_vec_two_16_one_32() {
    let s = PeerAddr::from_octets([0, 0, 0, 0], 80);
    let v = vec![(s, 16), (s, 32), (s, 16)];
    let res = vec![(s, 16), (s, 16)];
    assert_eq!(remove_other_fsizes_in_vec(v).unwrap(), res);
}

#[test]
fn test_remove_other_fsizes_in_vec_two_16_three_32() {
    let s = PeerAddr::from_octets([0, 0, 0, 0], 80);
    let v = vec![(s, 16), (s, 16), (s, 32), (s, 32), (s, 32)];
    let res = vec![(s, 32), (s, 32), (s, 32)];
    assert_eq!(remove_other_fsizes_in_vec(v).unwrap(), res);
}

#[test]
fn test_remove_other_fsizes_in_vec_one_16() {
    let s = PeerAddr::from_octets([0, 0, 0, 0], 80);
    let v = vec![(s, 16)];
    let res = vec![(s, 16)];
    assert_eq!(remove_other_fsizes_in_vec(v).unwrap(), res);
}

#[test]
fn test_remove_other_fsizes_in_vec_two_16_two_32() {
    let s = PeerAddr::from_octets([0, 0, 0, 0], 80);
    let v = vec![(s, 16), (s, 16), (s, 32), (s, 32)];
    let res = vec![(s, 32), (s, 32)];
    assert_eq!(remove_other_fsizes_in_vec(v).unwrap(), res);
}

#[test]
fn test_remove_other_fsizes_in_vec_one_16_one_32() {
    let s = PeerAddr::from_octets([0, 0, 0, 0], 80);
    let v = vec![(s, 16), (s, 32)];
    let res = vec![(s, 32)];
    assert_eq!(remove_other_fsizes_in_vec(v).unwrap(), res);
}

#[test]
fn clear_fsizes_keeps_order_and_distinct_peers() {
    let a = PeerAddr::from_octets([10, 0, 0, 1], 7648);
    let b = PeerAddr::from_octets([10, 0, 0, 2], 7648);
    let c = PeerAddr::from_octets([10, 0, 0, 3], 7648);
    let d = PeerAddr::from_octets([10, 0, 0, 4], 7648);
    // 5 and 9 are equally common; 9 is first reported after 5, so 9 wins.
    let v = vec![(a, 5), (b, 9), (c, 5), (d, 9)];
    assert_eq!(clear_fsizes(v).unwrap(), vec![(b, 9), (d, 9)]);
}

#[test]
fn clear_fsizes_twice_is_once() {
    let a = PeerAddr::from_octets([10, 0, 0, 1], 1);
    let b = PeerAddr::from_octets([10, 0, 0, 2], 2);
    let v = vec![(a, 7), (b, 7), (a, 3)];
    let once = clear_fsizes(v).unwrap();
    let twice = clear_fsizes(once.clone()).unwrap();
    assert_eq!(once, twice);
    assert_eq!(once, vec![(a, 7), (b, 7)]);
}
