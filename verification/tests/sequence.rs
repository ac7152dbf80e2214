use reasm::hex::{decode, encode};
use reasm::seq::{OverlapPolicy, Seq32, SeqSpace};

#[test]
fn roundtrip() {
    let data = [0x00, 0xff, 0x10, 0xab];
    assert_eq!(encode(&data), "00ff10ab");
    assert_eq!(decode("00ff10ab").unwrap(), data);
    assert_eq!(decode("00FF10AB").unwrap(), data);
    assert!(decode("0").is_err());
    assert!(decode("zz").is_err());
}

#[test]
fn wrap_compare() {
    assert!(Seq32(10).lt(Seq32(11)));
    assert!(Seq32(0xffff_ffff).lt(Seq32(1)));
    assert!(Seq32(1).gt(Seq32(0xffff_ffff)));
    assert_eq!(Seq32(5).offset_from(Seq32(0xffff_ffff)), 6);
    assert_eq!(Seq32(0).add(0x1_0000_0000), Seq32(0));
}

#[test]
fn overlap_first_and_last() {
    let mut s = SeqSpace::new();
    s.insert(0, b"AAAA", 1, OverlapPolicy::FirstSeen);
    let r = s.insert(2, b"BB", 2, OverlapPolicy::FirstSeen);
    assert_eq!(r.new_cells.len(), 0);
    assert_eq!(r.collisions.len(), 2);
    assert!(r.collisions.iter().all(|c| !c.replaced));
    assert_eq!(s.prefix_bytes(), b"AAAA");

    let mut s2 = SeqSpace::new();
    s2.insert(0, b"AAAA", 1, OverlapPolicy::LastSeen);
    let r2 = s2.insert(2, b"BB", 2, OverlapPolicy::LastSeen);
    assert!(r2.collisions.iter().all(|c| c.replaced));
    assert_eq!(s2.prefix_bytes(), b"AABB");
}

#[test]
fn gaps_and_prefix() {
    let mut s = SeqSpace::new();
    s.insert(5, b"x", 0, OverlapPolicy::FirstSeen);
    s.insert(0, b"ab", 0, OverlapPolicy::FirstSeen);
    assert_eq!(s.contiguous_prefix(), 2);
    assert_eq!(s.gaps(), vec![(2, 5)]);
}

#[test]
fn runs_and_retransmissions() {
    assert!(Seq32(1).ge(Seq32(0xffff_ffff)));
    assert!(Seq32(7).ge(Seq32(7)));
    assert!(!Seq32(6).ge(Seq32(7)));
    let mut s = SeqSpace::new();
    let first = s.insert(3, b"xyz", 0, OverlapPolicy::FirstSeen);
    assert!(!first.is_pure_retransmit());
    assert!(s.insert(4, b"yz", 1, OverlapPolicy::FirstSeen).is_pure_retransmit());
    assert!(!s.insert(4, b"YZ", 2, OverlapPolicy::FirstSeen).is_pure_retransmit());
    s.insert(0, b"a", 3, OverlapPolicy::FirstSeen);
    assert_eq!(s.covered_runs(), vec![(0, 1), (3, 6)]);
}
