//! Fragment tables, frames that are ignored, and canonical fixtures.

use reasm::fixture::{parse_fixture, to_canonical_fixture};
use reasm::frag::{FragConfig, FragEmit, FragTable, QuarantineReason};
use reasm::parse::RawFrame;
use reasm::wire::{parse_frame, FragmentPiece, FrameOutcome, LINK_ETHERNET};

fn frag_frame(src: [u8; 4], dst: [u8; 4], id: u16, words: u16, more: bool, data: &[u8]) -> Vec<u8> {
    let mut f = vec![0u8; 14];
    f[12..14].copy_from_slice(&[0x08, 0x00]);
    let mut ip = vec![0u8; 20];
    ip[0] = 0x45;
    ip[2..4].copy_from_slice(&((20 + data.len()) as u16).to_be_bytes());
    ip[4..6].copy_from_slice(&id.to_be_bytes());
    let ff = words | if more { 0x2000 } else { 0 };
    ip[6..8].copy_from_slice(&ff.to_be_bytes());
    ip[8] = 64;
    ip[9] = 6;
    ip[12..16].copy_from_slice(&src);
    ip[16..20].copy_from_slice(&dst);
    f.extend_from_slice(&ip);
    f.extend_from_slice(data);
    f
}

fn piece(frame: &[u8], idx: usize) -> FragmentPiece {
    match parse_frame(frame, LINK_ETHERNET, idx).unwrap() {
        FrameOutcome::Fragment(p) => p,
        _ => panic!("expected a fragment"),
    }
}

#[test]
fn overlapping_ipv4_fragments_are_quarantined() {
    let mk = |offset: u16, more: bool, data: &[u8]| {
        frag_frame([10, 0, 0, 1], [10, 0, 0, 2], 0x9999, offset, more, data)
    };
    let f1 = mk(0, true, &[0u8; 16]);
    let f2 = mk(1, false, &[0u8; 8]);
    let mut table = FragTable::new();
    let cfg = FragConfig::default();
    assert!(matches!(table.add(piece(&f1, 0), 0, &cfg), FragEmit::Pending));
    match table.add(piece(&f2, 1), 1, &cfg) {
        FragEmit::Quarantined(q) => assert_eq!(q.reason, QuarantineReason::Overlap),
        _ => panic!("the datagram must be quarantined"),
    }
}

#[test]
fn oversize_fragment_budget_quarantines_and_does_not_touch_other_flow() {
    let mk = |id: u16, words: u16, more: bool, data: &[u8]| {
        frag_frame([10, 1, 1, 1], [10, 2, 2, 2], id, words, more, data)
    };
    let mut table = FragTable::new();
    let small = FragConfig { max_bytes: 32, max_pieces: 256 };
    let f1 = mk(0x1111, 0, true, &[b'a'; 16]);
    let f2 = mk(0x1111, 6, false, &[b'b'; 8]);
    assert!(matches!(table.add(piece(&f1, 0), 0, &small), FragEmit::Pending));
    match table.add(piece(&f2, 1), 1, &small) {
        FragEmit::Quarantined(q) => assert_eq!(q.reason, QuarantineReason::Oversize),
        _ => panic!("a datagram over the budget must be quarantined"),
    }
}

#[test]
fn non_ip_frames_are_ignored_not_errors() {
    let mut arp = vec![0u8; 14 + 28];
    arp[12..14].copy_from_slice(&[0x08, 0x06]);
    assert!(parse_frame(&arp, LINK_ETHERNET, 0).is_err());
    let mut udp = vec![0u8; 14];
    udp[12..14].copy_from_slice(&[0x08, 0x00]);
    let mut ip = vec![0u8; 20 + 8];
    ip[0] = 0x45;
    ip[2..4].copy_from_slice(&28u16.to_be_bytes());
    ip[8] = 64;
    ip[9] = 17;
    ip[12..16].copy_from_slice(&[1, 2, 3, 4]);
    ip[16..20].copy_from_slice(&[5, 6, 7, 8]);
    udp.extend_from_slice(&ip);
    match parse_frame(&udp, LINK_ETHERNET, 1).unwrap() {
        FrameOutcome::Ignored => {}
        _ => panic!("UDP is ignored"),
    }
}

#[test]
fn canonical_fixture_is_deterministic() {
    let frames = vec![
        RawFrame { index: 5, ts_micros: 10, data: vec![1, 2, 3] },
        RawFrame { index: 2, ts_micros: 10, data: vec![4, 5] },
        RawFrame { index: 0, ts_micros: 3, data: vec![9] },
    ];
    let a = to_canonical_fixture(&frames, "t");
    let b = to_canonical_fixture(&frames, "t");
    assert_eq!(a, b);
    let parsed = parse_fixture(&a).unwrap();
    assert_eq!(parsed.len(), 3);
    assert_eq!(parsed[0].ts_micros, 3);
    assert_eq!(parsed[0].index, 0);
    assert_eq!(parsed[1].index, 1);
    assert_eq!(parsed[1].data, vec![4, 5]);
    assert_eq!(parsed[2].data, vec![1, 2, 3]);
}

#[test]
fn groups_that_wait_are_told() {
    let mut table = FragTable::new();
    let cfg = FragConfig::default();
    assert!(table.incomplete_groups().is_empty());
    let f = frag_frame([10, 0, 0, 1], [10, 0, 0, 2], 7, 0, true, &[0u8; 16]);
    assert!(matches!(table.add(piece(&f, 4), 4, &cfg), FragEmit::Pending));
    let left = table.incomplete_groups();
    assert_eq!(left.len(), 1);
    assert_eq!(left[0].piece_count, 1);
    assert_eq!(left[0].frames, vec![4]);
}
