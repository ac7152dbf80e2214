//! The whole way of a capture: frames to packets, packets to datagrams, datagrams to
//! sessions, and sessions to the result that is told of them.

use vstd::prelude::*;
use vstd::utf8::encode_utf8;
use crate::bare::{
    bare, law_bare_is_plain, law_bare_of_canonical, law_sift_keeps, law_sift_push, sift, strip,
    volatile,
};
use crate::capture::{loaded, try_load, Capture, CaptureModel, Shot};
use crate::frame::{parse_tcp, tcp_parsed, SegmentModel, TcpSegment};
use crate::hash::{sha256_hex, sha256_of};
use crate::ipreasm::{
    by_frame, end_of, fed_all, law_by_frame, leftover, lists_keys, notes_of, packets, reassemble,
    FragNote, NoteModel,
};
use crate::json::{
    airy, canonical, entry_at, hex_encode, items_of, law_canonical_field, law_canonical_text_stable,
    law_parse_canonical, law_parse_written, law_whole_is_plain, parsed, plain, whole, written, Json,
    JsonModel, Step,
};
use crate::model::{IpPacket, PacketModel};
use crate::network::{
    ethernet_rest, ip_payload, ipv6_rest, link_datagram, parse_link, FragmentInfo, IpDatagram,
};
use crate::offsets::{lemma_frontier, lists_holes};
use crate::storage::{
    address, frame_ids, input_id, kept_at, kept_once, meta_json, version, with_meta, Artifact,
    Results, Store,
};
use crate::tcp::{
    canon_of, dir_models, is_extent, labelled, lemma_sound_frontier, lists_gaps, seg_models,
    session_models, DatagramFrame, DatagramModel, DirModel, DirState, Engine, EngineConfig,
    EngineModel, OverlapPolicy, SegModel, SegRecord, Session, SessionModel,
};
use crate::text::{hex_of, lossy, utf8_lossy, views};
use crate::textmap::{lemma_text_le_both, text_lt};
use crate::types::{Ip, LinkKind};

verus! {

/// How a capture is analysed.
#[derive(Debug, Clone, Copy)]
pub struct AnalysisOptions {
    pub policy: OverlapPolicy,
    pub timeout_us: i128,
}

/// The number of a link layer.
pub open spec fn link_code(link: LinkKind) -> u16 {
    match link {
        LinkKind::Ethernet => 1,
        LinkKind::LinuxSll => 113,
        LinkKind::Null => 0,
        _ => 101,
    }
}

fn code_of(link: LinkKind) -> (r: u16)
    ensures
        r == link_code(link),
{
    match link {
        LinkKind::Ethernet => 1,
        LinkKind::LinuxSll => 113,
        LinkKind::Null => 0,
        _ => 101,
    }
}

/// The version of an address.
pub open spec fn version_of(ip: Ip) -> u8 {
    match ip {
        Ip::V4(_) => 4,
        Ip::V6(_) => 6,
    }
}

/// The TCP segment in a whole datagram.
pub open spec fn segment_of(d: crate::network::DatagramModel) -> Option<SegmentModel> {
    if d.protocol == 6 && d.fragment is None {
        match tcp_parsed(d.payload) {
            Ok(t) => Some(t),
            Err(_) => None,
        }
    } else {
        None
    }
}

/// The packet that frame `i` carries.
pub open spec fn packet_of(d: crate::network::DatagramModel, i: usize) -> PacketModel {
    let f = match d.fragment {
        Some(f) => f,
        None => FragmentInfo { identification: 0, offset: 0, more_fragments: false },
    };
    PacketModel {
        frame_idx: i,
        ip_version: version_of(d.source),
        src: d.source.text(),
        dst: d.destination.text(),
        ip_id: f.identification,
        proto: d.protocol,
        frag_off: f.offset as int,
        mf: f.more_fragments,
        l4: d.payload,
        tcp: segment_of(d),
    }
}

/// The packets of the first `n` frames; a frame that carries none is left out.
pub open spec fn packets_upto(shots: Seq<Shot>, link: LinkKind, n: int) -> Seq<PacketModel>
    decreases n,
{
    if n <= 0 {
        seq![]
    } else {
        match link_datagram(shots[n - 1].bytes, link_code(link)) {
            Ok(d) => packets_upto(shots, link, n - 1).push(packet_of(d, (n - 1) as usize)),
            Err(_) => packets_upto(shots, link, n - 1),
        }
    }
}

proof fn lemma_ipv6_len(b: Seq<u8>, next: u8, cursor: int, end: int)
    requires
        0 <= cursor <= end <= b.len(),
    ensures
        ipv6_rest(b, next, cursor, end) matches Ok(d) ==> d.payload.len() <= end,
        ipv6_rest(b, next, cursor, end) matches Ok(d) ==> (d.fragment matches Some(f)
            ==> f.offset <= 0xffff),
    decreases end - cursor,
{
    if crate::network::is_extension(next) && next != 44 && cursor + 2 <= end {
        let length = if next == 51 {
            b[cursor + 1] * 4 + 2
        } else {
            (b[cursor + 1] + 1) * 8
        };
        if cursor + length <= end {
            lemma_ipv6_len(b, b[cursor], cursor + length, end);
        }
    }
}

proof fn lemma_ip_len(b: Seq<u8>, ether_type: int)
    ensures
        ip_payload(b, ether_type) matches Ok(d) ==> d.payload.len() <= 0x1_0100,
        ip_payload(b, ether_type) matches Ok(d) ==> (d.fragment matches Some(f) ==> f.offset
            <= 0xffff),
{
    if ether_type == 0x86dd && b.len() >= 40 {
        let end = 40 + crate::bytes::be16(b, 4);
        if end <= b.len() {
            lemma_ipv6_len(b, b[6], 40, end);
        }
    }
}

proof fn lemma_ethernet_len(b: Seq<u8>, ether_type: int)
    ensures
        ethernet_rest(b, ether_type) matches Ok(d) ==> d.payload.len() <= 0x1_0100,
        ethernet_rest(b, ether_type) matches Ok(d) ==> (d.fragment matches Some(f) ==> f.offset
            <= 0xffff),
    decreases b.len(),
{
    lemma_ip_len(b, ether_type);
    if b.len() >= 4 {
        lemma_ethernet_len(b.skip(4), crate::bytes::be16(b, 2));
    }
}

proof fn lemma_link_len(f: Seq<u8>, code: u16)
    ensures
        link_datagram(f, code) matches Ok(d) ==> d.payload.len() <= 0x1_0100,
        link_datagram(f, code) matches Ok(d) ==> (d.fragment matches Some(g) ==> g.offset
            <= 0xffff),
{
    lemma_ethernet_len(f.skip(14), crate::bytes::be16(f, 12));
    lemma_ip_len(f, 0x0800);
    lemma_ip_len(f, 0x86dd);
    lemma_ip_len(f.skip(16), crate::bytes::be16(f, 14));
    lemma_ip_len(f.skip(4), 0x0800);
    lemma_ip_len(f.skip(4), 0x86dd);
}

fn packet(d: IpDatagram, i: usize) -> (r: IpPacket)
    ensures
        r@ == packet_of(d@, i),
{
    let whole = d.fragment.is_none();
    let (ip_id, frag_off, mf) = match d.fragment {
        Some(f) => (f.identification, f.offset, f.more_fragments),
        None => (0u32, 0usize, false),
    };
    let tcp: Option<TcpSegment> = if d.protocol == 6 && whole {
        match parse_tcp(d.payload.as_slice()) {
            Ok(t) => Some(t),
            Err(_) => None,
        }
    } else {
        None
    };
    let ip_version: u8 = match d.source {
        Ip::V4(_) => 4,
        Ip::V6(_) => 6,
    };
    IpPacket {
        frame_idx: i,
        ip_version,
        src: d.source.to_text(),
        dst: d.destination.to_text(),
        ip_id,
        proto: d.protocol,
        frag_off,
        mf,
        l4: d.payload,
        tcp,
    }
}

/// The packets of a capture; a frame that carries none is left out.
pub fn packets_of(cap: &Capture) -> (r: Vec<IpPacket>)
    requires
        cap.wf(),
    ensures
        packets(r@) == packets_upto(cap@.shots, cap.link, cap@.shots.len() as int),
        forall|i: int| 0 <= i < r@.len() ==> end_of((#[trigger] r@[i])@) <= 0x3_0000,
{
    let ghost shots = cap@.shots;
    let code: u16 = code_of(cap.link);
    let mut r: Vec<IpPacket> = Vec::new();
    let mut i: usize = 0;
    assert(packets(r@) =~= packets_upto(shots, cap.link, 0));
    while i < cap.frames.len()
        invariant
            i <= cap.frames@.len(),
            cap.wf(),
            shots == cap@.shots,
            code == link_code(cap.link),
            packets(r@) == packets_upto(shots, cap.link, i as int),
            forall|j: int| 0 <= j < r@.len() ==> end_of((#[trigger] r@[j])@) <= 0x3_0000,
        decreases cap.frames@.len() - i,
    {
        proof {
            lemma_link_len(cap.frames@[i as int]@, code);
        }
        assert(shots[i as int].bytes == cap.frames@[i as int]@);
        if let Ok(d) = parse_link(cap.frames[i].as_slice(), code) {
            let ghost before = r@;
            let p = packet(d, i);
            let ghost pm = p@;
            r.push(p);
            assert(packets(r@) =~= packets(before).push(pm));
        }
        i += 1;
    }
    r
}

/// The time of a frame, or nought.
pub open spec fn time_of(shots: Seq<Shot>, i: usize) -> int {
    if i < shots.len() {
        shots[i as int].ts_us
    } else {
        0
    }
}

/// The segment of a datagram, as the sessions take it.
pub open spec fn datagram_of(p: PacketModel, t: SegmentModel, ts_us: int) -> DatagramModel {
    DatagramModel {
        frame_idx: p.frame_idx,
        ts_us,
        src: p.src,
        dst: p.dst,
        ip_version: p.ip_version,
        sport: t.src_port,
        dport: t.dst_port,
        seq: t.seq,
        flags: t.flags,
        payload: t.payload,
    }
}

/// The sessions before any datagram.
pub open spec fn no_sessions(o: AnalysisOptions) -> EngineModel {
    EngineModel {
        policy: o.policy,
        timeout_us: o.timeout_us as int,
        canons: seq![],
        sessions: seq![],
    }
}

/// The sessions after the first `n` datagrams; one that carries no TCP segment
/// changes nothing.
pub open spec fn driven(
    ds: Seq<PacketModel>,
    shots: Seq<Shot>,
    o: AnalysisOptions,
    n: int,
) -> EngineModel
    decreases n,
{
    if n <= 0 {
        no_sessions(o)
    } else {
        let e = driven(ds, shots, o, n - 1);
        match ds[n - 1].tcp {
            Some(t) => e.ingested(
                datagram_of(ds[n - 1], t, time_of(shots, ds[n - 1].frame_idx)),
            ),
            None => e,
        }
    }
}

/// A time that can be told apart from any other such time.
pub open spec fn calm(ts: int) -> bool {
    -0x4000_0000_0000_0000_0000_0000_0000_0000 <= ts <= 0x3fff_ffff_ffff_ffff_ffff_ffff_ffff_ffff
}

/// Times that can be told apart.
pub open spec fn calm_times(shots: Seq<Shot>) -> bool {
    forall|i: int| 0 <= i < shots.len() ==> calm((#[trigger] shots[i]).ts_us)
}

/// At most `n` sessions with at most `n` segments each.
spec fn bounded(e: EngineModel, n: int) -> bool {
    &&& e.wf()
    &&& e.sessions.len() <= n
    &&& forall|i: int|
        0 <= i < e.sessions.len() ==> (#[trigger] e.sessions[i]).segments.len() <= n && calm(
            e.sessions[i].last_ts,
        )
}

proof fn lemma_place(canons: Seq<Seq<char>>, c: Seq<char>, n: int)
    requires
        0 <= n <= canons.len(),
    ensures
        crate::tcp::last_place(canons, c, n) matches Some(i) ==> 0 <= i < n,
    decreases n,
{
    if n > 0 && canons[n - 1] != c {
        lemma_place(canons, c, n - 1);
    }
}

proof fn lemma_target(e: EngineModel, d: DatagramModel, n: int)
    requires
        0 <= n <= e.sessions.len(),
    ensures
        e.target(d, n) matches Some(i) ==> 0 <= i < n,
    decreases n,
{
    if n > 0 && !e.fits(n - 1, d) {
        lemma_target(e, d, n - 1);
    }
}

proof fn lemma_ingested_bounded(e: EngineModel, d: DatagramModel, n: int)
    requires
        bounded(e, n),
        calm(d.ts_us),
        e.ingested(d).wf(),
        n >= 0,
    ensures
        bounded(e.ingested(d), n + 1),
{
    let c = canon_of(d);
    lemma_place(e.canons, c, e.canons.len() as int);
    let t = e.timed(d);
    assert(t.sessions.len() == e.sessions.len());
    assert(t.canons == e.canons);
    assert forall|j: int| 0 <= j < t.sessions.len() implies (#[trigger] t.sessions[j]).segments.len()
        <= n && calm(t.sessions[j].last_ts) by {
        assert(e.sessions[j].segments.len() <= n);
    }
    let r = e.ingested(d);
    if t.opens(d) {
        let f = t.opened(d);
        assert(f.sessions.len() == t.sessions.len() + 1);
        assert forall|j: int|
            0 <= j < f.sessions.len() implies (#[trigger] f.sessions[j]).segments.len() <= n
            && calm(f.sessions[j].last_ts) by {
            if j < t.sessions.len() {
                assert(t.sessions[j].segments.len() <= n);
            }
        }
        assert forall|j: int|
            0 <= j < r.sessions.len() implies (#[trigger] r.sessions[j]).segments.len() <= n + 1
            && calm(r.sessions[j].last_ts) by {
            assert(f.sessions[j].segments.len() <= n);
        }
    } else {
        lemma_target(t, d, t.sessions.len() as int);
        assert forall|j: int|
            0 <= j < r.sessions.len() implies (#[trigger] r.sessions[j]).segments.len() <= n + 1
            && calm(r.sessions[j].last_ts) by {
            assert(t.sessions[j].segments.len() <= n);
        }
    }
}

fn drive(ds: &Vec<IpPacket>, cap: &Capture, o: AnalysisOptions) -> (r: Engine)
    requires
        cap.wf(),
        calm_times(cap@.shots),
        forall|i: int|
            0 <= i < ds@.len() ==> ((#[trigger] ds@[i]).tcp matches Some(t) ==> t@.payload.len()
                <= u32::MAX),
    ensures
        r.sound(),
        r@ == driven(packets(ds@), cap@.shots, o, ds@.len() as int),
{
    let ghost ps = packets(ds@);
    let ghost shots = cap@.shots;
    let mut e = Engine::new(EngineConfig { policy: o.policy, timeout_us: o.timeout_us });
    assert(e@ == no_sessions(o));
    let mut i: usize = 0;
    while i < ds.len()
        invariant
            i <= ds@.len(),
            cap.wf(),
            ps == packets(ds@),
            shots == cap@.shots,
            calm_times(shots),
            e.sound(),
            bounded(e@, i as int),
            e@ == driven(ps, shots, o, i as int),
            forall|i: int|
                0 <= i < ds@.len() ==> ((#[trigger] ds@[i]).tcp matches Some(t)
                    ==> t@.payload.len() <= u32::MAX),
        decreases ds@.len() - i,
    {
        let p = &ds[i];
        assert(ps[i as int] == p@);
        if let Some(t) = &p.tcp {
            let ts_us: i128 = if p.frame_idx < cap.ts_us.len() {
                cap.ts_us[p.frame_idx]
            } else {
                0
            };
            proof {
                if p.frame_idx < shots.len() {
                    assert(calm(shots[p.frame_idx as int].ts_us));
                }
            }
            let d = DatagramFrame {
                frame_idx: p.frame_idx,
                ts_us,
                src: p.src.clone(),
                dst: p.dst.clone(),
                ip_version: p.ip_version,
                sport: t.src_port,
                dport: t.dst_port,
                seq: t.seq,
                ack: t.ack,
                flags: t.flags,
                payload: crate::bytes::copy_bytes(t.payload.as_slice()),
            };
            assert(d@ == datagram_of(p@, t@, time_of(shots, p.frame_idx)));
            let ghost before = e@;
            proof {
                lemma_place(before.canons, canon_of(d@), before.canons.len() as int);
                assert(before.clock_fits(d@)) by {
                    if let Some(k) = before.newest(canon_of(d@)) {
                        assert(calm(before.sessions[k].last_ts));
                    }
                }
                assert forall|k: int|
                    0 <= k < before.sessions.len() implies (
                #[trigger] before.sessions[k]).segments.len() < usize::MAX by {}
            }
            e.ingest(&d);
            proof {
                lemma_ingested_bounded(before, d@, i as int);
            }
        }
        i += 1;
    }
    e
}

/// What comes of a capture.
pub struct Report {
    pub engine: Engine,
    pub notes: Vec<FragNote>,
}

/// The datagrams of a capture, in the order of their frames.
pub open spec fn datagrams(shots: Seq<Shot>, link: LinkKind) -> Seq<PacketModel> {
    let ps = packets_upto(shots, link, shots.len() as int);
    by_frame(fed_all(ps, ps.len() as int).datagrams)
}

/// The sessions of a capture.
#[verifier::opaque]
pub open spec fn sessions_of(shots: Seq<Shot>, link: LinkKind, o: AnalysisOptions) -> EngineModel {
    let ds = datagrams(shots, link);
    driven(ds, shots, o, ds.len() as int).finalized()
}

/// The notes on the fragments of a capture: those that came up on the way, and then
/// one for each datagram that was not completed, in the order of their keys.
#[verifier::opaque]
pub open spec fn notes_are(notes: Seq<NoteModel>, shots: Seq<Shot>, link: LinkKind) -> bool {
    let ps = packets_upto(shots, link, shots.len() as int);
    let done = fed_all(ps, ps.len() as int);
    exists|ks: Seq<Seq<char>>| #[trigger]
        lists_keys(ks, done.groups) && notes == done.notes + ks.map_values(
            |k: Seq<char>| leftover(k, done.groups[k]),
        )
}

/// Segments that a datagram can hold.
spec fn short(t: Option<SegmentModel>) -> bool {
    t matches Some(t) ==> t.payload.len() <= 0x3_0000
}

spec fn short_state(p: crate::ipreasm::Progress) -> bool {
    &&& forall|i: int| 0 <= i < p.datagrams.len() ==> short((#[trigger] p.datagrams[i]).tcp)
    &&& forall|k: Seq<char>| #[trigger]
        p.groups.contains_key(k) ==> (p.groups[k].total matches Some(t) ==> 0 <= t <= 0x3_0000)
}

proof fn lemma_fed_short(p: crate::ipreasm::Progress, x: PacketModel)
    requires
        short_state(p),
        short(x.tcp),
        0 <= end_of(x) <= 0x3_0000,
    ensures
        short_state(p.fed(x)),
{
    let q = p.fed(x);
    let b = p.bucket(x);
    let h = b.with(x);
    assert(h.total matches Some(t) ==> 0 <= t <= 0x3_0000);
    assert(h.total is Some ==> short(h.datagram().tcp));
    assert forall|i: int| 0 <= i < q.datagrams.len() implies short(
        (#[trigger] q.datagrams[i]).tcp,
    ) by {
        if i < p.datagrams.len() {
            assert(q.datagrams[i] == p.datagrams[i]);
        }
    }
}

proof fn lemma_all_short(ps: Seq<PacketModel>, n: int)
    requires
        0 <= n <= ps.len(),
        forall|i: int|
            0 <= i < ps.len() ==> 0 <= end_of(#[trigger] ps[i]) <= 0x3_0000 && short(ps[i].tcp),
    ensures
        short_state(fed_all(ps, n)),
    decreases n,
{
    if n > 0 {
        lemma_all_short(ps, n - 1);
        lemma_fed_short(fed_all(ps, n - 1), ps[n - 1]);
    }
}

proof fn lemma_packets_short(shots: Seq<Shot>, link: LinkKind, n: int)
    requires
        n >= 0,
    ensures
        forall|i: int|
            0 <= i < packets_upto(shots, link, n).len() ==> short(
                (#[trigger] packets_upto(shots, link, n)[i]).tcp,
            ),
    decreases n,
{
    if n > 0 {
        lemma_packets_short(shots, link, n - 1);
        lemma_link_len(shots[n - 1].bytes, link_code(link));
        let p = packets_upto(shots, link, n - 1);
        let q = packets_upto(shots, link, n);
        assert forall|i: int| 0 <= i < q.len() implies short((#[trigger] q[i]).tcp) by {
            if i < p.len() {
                assert(q[i] == p[i]);
            }
        }
    }
}

proof fn lemma_datagrams_short(s: Seq<PacketModel>)
    requires
        forall|i: int| 0 <= i < s.len() ==> short((#[trigger] s[i]).tcp),
    ensures
        forall|i: int| 0 <= i < by_frame(s).len() ==> short((#[trigger] by_frame(s)[i]).tcp),
{
    broadcast use vstd::seq_lib::group_to_multiset_ensures;

    law_by_frame(s);
    let b = by_frame(s);
    assert forall|i: int| 0 <= i < b.len() implies short((#[trigger] b[i]).tcp) by {
        assert(b.contains(b[i]));
        assert(b.to_multiset().count(b[i]) > 0);
        assert(s.contains(b[i]));
    }
}

/// Analyses a capture: its sessions, and the notes on its fragments.
pub fn run(cap: &Capture, o: AnalysisOptions) -> (r: Report)
    requires
        cap.wf(),
        calm_times(cap@.shots),
    ensures
        r.engine.sound(),
        r.engine@ == sessions_of(cap@.shots, cap.link, o),
        notes_are(notes_of(r.notes@), cap@.shots, cap.link),
{
    proof {
        reveal(sessions_of);
        reveal(notes_are);
    }
    let ghost shots = cap@.shots;
    let list = packets_of(cap);
    let ghost ps = packets(list@);
    proof {
        lemma_packets_short(shots, cap.link, shots.len() as int);
        assert forall|i: int|
            0 <= i < ps.len() implies 0 <= end_of(#[trigger] ps[i]) <= 0x3_0000 && short(
            ps[i].tcp,
        ) by {
            assert(ps[i] == list@[i]@);
        }
        lemma_all_short(ps, ps.len() as int);
        lemma_datagrams_short(fed_all(ps, ps.len() as int).datagrams);
        assert forall|i: int|
            0 <= i < list@.len() implies end_of((#[trigger] list@[i])@) <= usize::MAX by {}
    }
    let whole = reassemble(list, cap.ts_us.as_slice());
    proof {
        let ds = packets(whole.datagrams@);
        assert forall|i: int| 0 <= i < whole.datagrams@.len() implies ((
        #[trigger] whole.datagrams@[i]).tcp matches Some(t) ==> t@.payload.len() <= u32::MAX) by {
            assert(ds[i] == whole.datagrams@[i]@);
            assert(short(ds[i].tcp));
        }
    }
    let mut engine = drive(&whole.datagrams, cap, o);
    engine.finalize();
    Report { engine, notes: whole.notes }
}

/// Analyses a capture whose times can be told apart.
pub fn try_run(cap: &Capture, o: AnalysisOptions) -> (r: Option<Report>)
    requires
        cap.wf(),
    ensures
        match r {
            Some(r) => {
                &&& calm_times(cap@.shots)
                &&& r.engine.sound()
                &&& r.engine@ == sessions_of(cap@.shots, cap.link, o)
                &&& notes_are(notes_of(r.notes@), cap@.shots, cap.link)
            },
            None => !calm_times(cap@.shots),
        },
{
    let mut i: usize = 0;
    while i < cap.ts_us.len()
        invariant
            i <= cap.ts_us@.len(),
            cap.wf(),
            forall|j: int| 0 <= j < i ==> calm((#[trigger] cap@.shots[j]).ts_us),
        decreases cap.ts_us@.len() - i,
    {
        assert(cap@.shots[i as int].ts_us == cap.ts_us@[i as int]);
        let t: i128 = cap.ts_us[i];
        if t < -0x4000_0000_0000_0000_0000_0000_0000_0000
            || t > 0x3fff_ffff_ffff_ffff_ffff_ffff_ffff_ffff {
            return None;
        }
        i += 1;
    }
    Some(run(cap, o))
}

/// A number, or null.
pub open spec fn maybe(n: Option<int>) -> JsonModel {
    match n {
        Some(n) => JsonModel::Num(n),
        None => JsonModel::Null,
    }
}

/// The digest of a frame, or nothing.
pub open spec fn digest_of(hashes: Seq<Seq<char>>, i: usize) -> Seq<char> {
    if i < hashes.len() {
        hashes[i as int]
    } else {
        seq![]
    }
}

/// Bytes of a stream that one frame gave.
#[derive(Clone, Copy, Debug, PartialEq, Eq, Structural)]
pub struct Run {
    pub begin: usize,
    pub end: usize,
    pub frame: usize,
}

/// The runs of the first `n` bytes, from the frame that gave each byte.
pub open spec fn runs_upto(owner: Seq<usize>, n: int) -> Seq<Run>
    decreases n,
{
    if n <= 0 {
        seq![]
    } else {
        let r = runs_upto(owner, n - 1);
        if r.len() > 0 && r.last().frame == owner[n - 1] {
            r.update(
                r.len() - 1,
                Run { begin: r.last().begin, end: n as usize, frame: owner[n - 1] },
            )
        } else {
            r.push(Run { begin: (n - 1) as usize, end: n as usize, frame: owner[n - 1] })
        }
    }
}

/// The runs of a stream.
pub open spec fn runs_of(owner: Seq<usize>) -> Seq<Run> {
    runs_upto(owner, owner.len() as int)
}

/// Runs that lie end to end from 0 to `n`, no two neighbours of one frame, each over
/// bytes of its frame alone.
pub open spec fn tile(r: Seq<Run>, owner: Seq<usize>, n: int) -> bool {
    &&& r.len() > 0 ==> r[0].begin == 0 && r.last().end == n
    &&& r.len() == 0 ==> n == 0
    &&& forall|i: int| 0 <= i < r.len() ==> (#[trigger] r[i]).begin < r[i].end <= n
    &&& forall|i: int, j: int|
        0 <= i && j == i + 1 && j < r.len() ==> (#[trigger] r[i]).end == (
        #[trigger] r[j]).begin && r[i].frame != r[j].frame
    &&& forall|i: int, x: int|
        0 <= i < r.len() && (#[trigger] r[i]).begin <= x < r[i].end ==> #[trigger] owner[x]
            == r[i].frame
}

proof fn lemma_runs_tile(owner: Seq<usize>, n: int)
    requires
        0 <= n <= owner.len(),
        owner.len() <= usize::MAX,
    ensures
        tile(runs_upto(owner, n), owner, n),
    decreases n,
{
    if n > 0 {
        lemma_runs_tile(owner, n - 1);
        let q = runs_upto(owner, n - 1);
        let r = runs_upto(owner, n);
        assert forall|i: int, j: int| 0 <= i && j == i + 1 && j < r.len() implies (
        #[trigger] r[i]).end == (#[trigger] r[j]).begin && r[i].frame != r[j].frame by {
            if j < q.len() {
                assert(q[i].end == q[j].begin);
            } else {
                assert(q[i] == q.last());
            }
        }
    }
}

/// The sources of a stream tell of each of its bytes, and of nothing else, which frame
/// gave it.
pub proof fn law_sources_cover_the_stream(owner: Seq<usize>)
    requires
        owner.len() <= usize::MAX,
    ensures
        tile(runs_of(owner), owner, owner.len() as int),
{
    lemma_runs_tile(owner, owner.len() as int);
}

fn runs(owner: &Vec<usize>) -> (r: Vec<Run>)
    ensures
        r@ == runs_of(owner@),
{
    let mut r: Vec<Run> = Vec::new();
    let mut i: usize = 0;
    while i < owner.len()
        invariant
            i <= owner@.len(),
            r@ == runs_upto(owner@, i as int),
        decreases owner@.len() - i,
    {
        let f: usize = owner[i];
        let n: usize = r.len();
        if n > 0 && r[n - 1].frame == f {
            let begin: usize = r[n - 1].begin;
            r.set(n - 1, Run { begin, end: i + 1, frame: f });
        } else {
            r.push(Run { begin: i, end: i + 1, frame: f });
        }
        i += 1;
    }
    r
}

/// What is told of a run.
pub open spec fn run_json(x: Run, hashes: Seq<Seq<char>>) -> JsonModel {
    JsonModel::Obj(
        seq![
            ("begin"@, JsonModel::Num(x.begin as int)),
            ("end"@, JsonModel::Num(x.end as int)),
            ("frame"@, JsonModel::Num(x.frame as int)),
            ("frame_sha256"@, JsonModel::Str(digest_of(hashes, x.frame))),
        ],
    )
}

fn run_values(owner: &Vec<usize>, hashes: &Vec<String>) -> (r: Json)
    ensures
        r@ == JsonModel::Arr(
            runs_of(owner@).map_values(|x: Run| run_json(x, views(hashes@))),
        ),
{
    let v = runs(owner);
    let ghost hs = views(hashes@);
    let ghost g = |x: Run| run_json(x, hs);
    let mut arr: Vec<Json> = Vec::new();
    let mut i: usize = 0;
    assert(items_of(arr@) =~= v@.map_values(g).take(0));
    while i < v.len()
        invariant
            i <= v@.len(),
            hs == views(hashes@),
            g == (|x: Run| run_json(x, hs)),
            items_of(arr@) == v@.map_values(g).take(i as int),
        decreases v@.len() - i,
    {
        let ghost before = arr@;
        let x = v[i];
        let mut o = Json::obj();
        o.set("begin", Json::num(x.begin as i128));
        o.set("end", Json::num(x.end as i128));
        o.set("frame", Json::num(x.frame as i128));
        o.set("frame_sha256", Json::Str(digest(hashes, x.frame)));
        assert(o@->Obj_0 =~= run_json(x, hs)->Obj_0);
        let ghost om = o@;
        arr.push(o);
        i += 1;
        assert(items_of(arr@) =~= items_of(before).push(om));
        assert(items_of(arr@) =~= v@.map_values(g).take(i as int));
    }
    assert(v@.map_values(g).take(i as int) =~= v@.map_values(g));
    Json::arr(arr)
}

/// The bytes of a direction that stand without a gap.
pub open spec fn stream_of(d: DirModel) -> Seq<u8> {
    Seq::new(d.frontier() as nat, |i: int| d.cells[i as i64].0)
}

/// The frames that gave them.
pub open spec fn owners_of(d: DirModel) -> Seq<usize> {
    Seq::new(d.frontier() as nat, |i: int| d.cells[i as i64].1)
}

/// What is told of a direction; its bytes where they are asked for.
pub open spec fn direction_json(d: DirModel, hashes: Seq<Seq<char>>, bytes: bool) -> JsonModel {
    JsonModel::Obj(
        seq![
            (
                "base_isn"@,
                maybe(
                    match d.base {
                        Some(b) => Some(b as int),
                        None => None,
                    },
                ),
            ),
            (
                "base_frame"@,
                maybe(
                    match d.base_frame {
                        Some(b) => Some(b as int),
                        None => None,
                    },
                ),
            ),
            ("base_from_syn"@, JsonModel::Bool(d.base_syn)),
            ("frontier"@, JsonModel::Num(d.frontier())),
            ("max_end"@, JsonModel::Num(d.max_end)),
            ("fin_seen"@, JsonModel::Bool(d.fin)),
            ("rst_seen"@, JsonModel::Bool(d.rst)),
            ("retransmissions"@, JsonModel::Num(d.retrans)),
            ("out_of_order_segments"@, JsonModel::Num(d.out_of_order)),
            ("overlaps"@, JsonModel::Num(d.overlap_events)),
            ("reassembled_length"@, JsonModel::Num(stream_of(d).len() as int)),
            ("reassembled_sha256"@, JsonModel::Str(hex_of(sha256_of(stream_of(d))))),
            (
                "sources"@,
                JsonModel::Arr(runs_of(owners_of(d)).map_values(|x: Run| run_json(x, hashes))),
            ),
        ] + (if bytes {
            seq![
                ("data_hex"@, JsonModel::Str(hex_of(stream_of(d)))),
                ("data_utf8_lossy"@, JsonModel::Str(utf8_lossy(stream_of(d)))),
            ]
        } else {
            seq![]
        }),
    )
}

fn number(n: Option<u64>) -> (r: Json)
    ensures
        r@ == maybe(
            match n {
                Some(n) => Some(n as int),
                None => None,
            },
        ),
{
    match n {
        Some(n) => Json::num(n as i128),
        None => Json::Null,
    }
}

proof fn lemma_stream(d: DirState)
    requires
        d.sound(),
    ensures
        d@.frontier() == d.frontier,
        stream_of(d@) == d.bytes@,
        owners_of(d@) == d.owner@,
{
    lemma_sound_frontier(d);
    lemma_frontier(d@.cells.dom(), d.frontier as int);
    assert forall|i: int| 0 <= i < d.bytes@.len() implies d@.cells[i as i64] == (
        #[trigger] d.bytes@[i],
        d.owner@[i],
    ) by {
        assert(d@.cells.contains_key(i as i64));
    }
    assert(stream_of(d@) =~= d.bytes@);
    assert forall|i: int| 0 <= i < d.owner@.len() implies owners_of(d@)[i] == d.owner@[i] by {
        assert(d@.cells[i as i64] == (d.bytes@[i], d.owner@[i]));
    }
    assert(owners_of(d@) =~= d.owner@);
}

fn direction_value(d: &DirState, hashes: &Vec<String>, bytes: bool) -> (r: Json)
    requires
        d.sound(),
    ensures
        r@ == direction_json(d@, views(hashes@), bytes),
{
    proof {
        lemma_stream(*d);
    }
    let base: Option<u64> = match d.base {
        Some(b) => Some(b as u64),
        None => None,
    };
    let base_frame: Option<u64> = match d.base_frame {
        Some(b) => Some(b as u64),
        None => None,
    };
    let mut o = Json::obj();
    o.set("base_isn", number(base));
    o.set("base_frame", number(base_frame));
    o.set("base_from_syn", Json::Bool(d.base_syn));
    o.set("frontier", Json::num(d.frontier as i128));
    o.set("max_end", Json::num(d.max_end as i128));
    o.set("fin_seen", Json::Bool(d.fin));
    o.set("rst_seen", Json::Bool(d.rst));
    o.set("retransmissions", Json::num(d.retrans as i128));
    o.set("out_of_order_segments", Json::num(d.out_of_order as i128));
    o.set("overlaps", Json::num(d.overlap_events as i128));
    o.set("reassembled_length", Json::num(d.bytes.len() as i128));
    o.set("reassembled_sha256", Json::Str(sha256_hex(d.bytes.as_slice())));
    o.set("sources", run_values(&d.owner, hashes));
    if bytes {
        o.set("data_hex", Json::Str(hex_encode(d.bytes.as_slice())));
        o.set("data_utf8_lossy", Json::Str(lossy(d.bytes.as_slice())));
    }
    assert(o@->Obj_0 =~= direction_json(d@, views(hashes@), bytes)->Obj_0);
    o
}

/// What is told of a segment; its payload where it is asked for.
pub open spec fn segment_json(g: SegModel, hashes: Seq<Seq<char>>, bytes: bool) -> JsonModel {
    JsonModel::Obj(
        seq![
            ("frame"@, JsonModel::Num(g.frame_idx as int)),
            ("frame_sha256"@, JsonModel::Str(digest_of(hashes, g.frame_idx))),
            ("direction"@, JsonModel::Num(g.dir as int)),
            ("seq"@, JsonModel::Num(g.seq_abs as int)),
            ("begin"@, JsonModel::Num(g.begin)),
            ("end"@, JsonModel::Num(g.end)),
            ("length"@, JsonModel::Num(g.len as int)),
            ("flags"@, JsonModel::Num(g.flags as int)),
            ("ts_us"@, JsonModel::Num(g.ts_us)),
            ("relation"@, JsonModel::Str(g.relation)),
            ("overwritten"@, JsonModel::Num(g.overwritten as int)),
            ("conflict"@, JsonModel::Bool(g.conflict)),
        ] + (if bytes {
            seq![("payload_hex"@, JsonModel::Str(hex_of(g.data)))]
        } else {
            seq![]
        }),
    )
}

fn digest(hashes: &Vec<String>, i: usize) -> (r: String)
    ensures
        r@ == digest_of(views(hashes@), i),
{
    if i < hashes.len() {
        hashes[i].clone()
    } else {
        let e = String::new();
        assert(e@ =~= seq![]);
        e
    }
}

fn segment_value(g: &SegRecord, hashes: &Vec<String>, bytes: bool) -> (r: Json)
    ensures
        r@ == segment_json(g@, views(hashes@), bytes),
{
    let mut o = Json::obj();
    o.set("frame", Json::num(g.frame_idx as i128));
    o.set("frame_sha256", Json::Str(digest(hashes, g.frame_idx)));
    o.set("direction", Json::num(g.dir as i128));
    o.set("seq", Json::num(g.seq_abs as i128));
    o.set("begin", Json::num(g.begin as i128));
    o.set("end", Json::num(g.end as i128));
    o.set("length", Json::num(g.len as i128));
    o.set("flags", Json::num(g.flags as i128));
    o.set("ts_us", Json::num(g.ts_us));
    o.set("relation", Json::Str(g.relation.clone()));
    o.set("overwritten", Json::num(g.overwritten as i128));
    o.set("conflict", Json::Bool(g.conflict));
    if bytes {
        o.set("payload_hex", Json::Str(hex_encode(g.data.as_slice())));
    }
    assert(o@->Obj_0 =~= segment_json(g@, views(hashes@), bytes)->Obj_0);
    o
}

/// What is told of a gap.
pub open spec fn gap_json(g: (u8, i64, i64)) -> JsonModel {
    JsonModel::Obj(
        seq![
            ("direction"@, JsonModel::Num(g.0 as int)),
            ("begin"@, JsonModel::Num(g.1 as int)),
            ("end"@, JsonModel::Num(g.2 as int)),
        ],
    )
}

fn gap_value(g: (u8, i64, i64)) -> (r: Json)
    ensures
        r@ == gap_json(g),
{
    let mut o = Json::obj();
    o.set("direction", Json::num(g.0 as i128));
    o.set("begin", Json::num(g.1 as i128));
    o.set("end", Json::num(g.2 as i128));
    assert(o@->Obj_0 =~= gap_json(g)->Obj_0);
    o
}

/// What is told of a session with its gaps.
pub open spec fn session_json(
    s: SessionModel,
    gaps: Seq<(u8, i64, i64)>,
    hashes: Seq<Seq<char>>,
    bytes: bool,
) -> JsonModel {
    JsonModel::Obj(
        seq![
            ("id"@, JsonModel::Str(s.id)),
            ("generation"@, JsonModel::Num(s.gen as int)),
            ("four_tuple"@, JsonModel::Str(s.key)),
            ("ip_version"@, JsonModel::Num(s.ip_version as int)),
            ("state"@, JsonModel::Str(s.state)),
            ("close_reason"@, JsonModel::Str(s.close_reason)),
            ("handshake"@, JsonModel::Str(s.handshake)),
            ("started_mid_capture"@, JsonModel::Bool(s.mid_capture)),
            ("start_frame"@, JsonModel::Num(s.start_frame as int)),
            ("end_frame"@, JsonModel::Num(s.end_frame as int)),
            (
                "directions"@,
                JsonModel::Arr(s.dirs.map_values(|d: DirModel| direction_json(d, hashes, bytes))),
            ),
            (
                "segments"@,
                JsonModel::Arr(
                    s.segments.map_values(|g: SegModel| segment_json(g, hashes, bytes)),
                ),
            ),
            (
                "gaps"@,
                JsonModel::Arr(gaps.map_values(|g: (u8, i64, i64)| gap_json(g))),
            ),
        ],
    )
}

fn direction_values(v: &Vec<DirState>, hashes: &Vec<String>, bytes: bool) -> (r: Json)
    requires
        forall|i: int| 0 <= i < v@.len() ==> (#[trigger] v@[i]).sound(),
    ensures
        r@ == JsonModel::Arr(
            dir_models(v@).map_values(|d: DirModel| direction_json(d, views(hashes@), bytes)),
        ),
{
    let ghost hs = views(hashes@);
    let ghost g = |d: DirModel| direction_json(d, hs, bytes);
    let mut arr: Vec<Json> = Vec::new();
    let mut i: usize = 0;
    assert(items_of(arr@) =~= dir_models(v@).map_values(g).take(0));
    while i < v.len()
        invariant
            i <= v@.len(),
            forall|j: int| 0 <= j < v@.len() ==> (#[trigger] v@[j]).sound(),
            hs == views(hashes@),
            g == (|d: DirModel| direction_json(d, hs, bytes)),
            items_of(arr@) == dir_models(v@).map_values(g).take(i as int),
        decreases v@.len() - i,
    {
        let ghost before = arr@;
        let o = direction_value(&v[i], hashes, bytes);
        let ghost om = o@;
        arr.push(o);
        i += 1;
        assert(items_of(arr@) =~= items_of(before).push(om));
        assert(items_of(arr@) =~= dir_models(v@).map_values(g).take(i as int));
    }
    assert(dir_models(v@).map_values(g).take(i as int) =~= dir_models(v@).map_values(g));
    Json::arr(arr)
}

fn segment_values(v: &Vec<SegRecord>, hashes: &Vec<String>, bytes: bool) -> (r: Json)
    ensures
        r@ == JsonModel::Arr(
            seg_models(v@).map_values(|g: SegModel| segment_json(g, views(hashes@), bytes)),
        ),
{
    let ghost hs = views(hashes@);
    let ghost g = |x: SegModel| segment_json(x, hs, bytes);
    let mut arr: Vec<Json> = Vec::new();
    let mut i: usize = 0;
    assert(items_of(arr@) =~= seg_models(v@).map_values(g).take(0));
    while i < v.len()
        invariant
            i <= v@.len(),
            hs == views(hashes@),
            g == (|x: SegModel| segment_json(x, hs, bytes)),
            items_of(arr@) == seg_models(v@).map_values(g).take(i as int),
        decreases v@.len() - i,
    {
        let ghost before = arr@;
        let o = segment_value(&v[i], hashes, bytes);
        let ghost om = o@;
        arr.push(o);
        i += 1;
        assert(items_of(arr@) =~= items_of(before).push(om));
        assert(items_of(arr@) =~= seg_models(v@).map_values(g).take(i as int));
    }
    assert(seg_models(v@).map_values(g).take(i as int) =~= seg_models(v@).map_values(g));
    Json::arr(arr)
}

fn gap_values(v: &Vec<(u8, i64, i64)>) -> (r: Json)
    ensures
        r@ == JsonModel::Arr(v@.map_values(|g: (u8, i64, i64)| gap_json(g))),
{
    let ghost g = |x: (u8, i64, i64)| gap_json(x);
    let mut arr: Vec<Json> = Vec::new();
    let mut i: usize = 0;
    assert(items_of(arr@) =~= v@.map_values(g).take(0));
    while i < v.len()
        invariant
            i <= v@.len(),
            g == (|x: (u8, i64, i64)| gap_json(x)),
            items_of(arr@) == v@.map_values(g).take(i as int),
        decreases v@.len() - i,
    {
        let ghost before = arr@;
        let o = gap_value(v[i]);
        let ghost om = o@;
        arr.push(o);
        i += 1;
        assert(items_of(arr@) =~= items_of(before).push(om));
        assert(items_of(arr@) =~= v@.map_values(g).take(i as int));
    }
    assert(v@.map_values(g).take(i as int) =~= v@.map_values(g));
    Json::arr(arr)
}

fn session_value(
    s: &Session,
    gaps: &Vec<(u8, i64, i64)>,
    hashes: &Vec<String>,
    bytes: bool,
) -> (r: Json)
    requires
        s.sound(),
    ensures
        r@ == session_json(s@, gaps@, views(hashes@), bytes),
{
    let mut o = Json::obj();
    o.set("id", Json::Str(s.id.clone()));
    o.set("generation", Json::num(s.gen as i128));
    o.set("four_tuple", Json::Str(s.key.clone()));
    o.set("ip_version", Json::num(s.ip_version as i128));
    o.set("state", Json::Str(s.state.clone()));
    o.set("close_reason", Json::Str(s.close_reason.clone()));
    o.set("handshake", Json::Str(s.handshake.clone()));
    o.set("started_mid_capture", Json::Bool(s.mid_capture));
    o.set("start_frame", Json::num(s.start_frame as i128));
    o.set("end_frame", Json::num(s.end_frame as i128));
    o.set("directions", direction_values(&s.dirs, hashes, bytes));
    o.set("segments", segment_values(&s.segments, hashes, bytes));
    o.set("gaps", gap_values(gaps));
    assert(o@->Obj_0 =~= session_json(s@, gaps@, views(hashes@), bytes)->Obj_0);
    o
}

/// What is told of a note on fragments.
pub open spec fn note_json(n: NoteModel) -> JsonModel {
    JsonModel::Obj(
        seq![
            ("reason"@, JsonModel::Str(n.reason)),
            ("frame"@, JsonModel::Num(n.frame_idx as int)),
            ("datagram"@, JsonModel::Str(n.key)),
        ],
    )
}

fn note_values(v: &Vec<FragNote>) -> (r: Json)
    ensures
        r@ == JsonModel::Arr(notes_of(v@).map_values(|n: NoteModel| note_json(n))),
{
    let ghost ns = notes_of(v@);
    let ghost g = |n: NoteModel| note_json(n);
    let mut arr: Vec<Json> = Vec::new();
    let mut i: usize = 0;
    assert(items_of(arr@) =~= ns.map_values(g).take(0));
    while i < v.len()
        invariant
            i <= v@.len(),
            ns == notes_of(v@),
            g == (|n: NoteModel| note_json(n)),
            items_of(arr@) == ns.map_values(g).take(i as int),
        decreases v@.len() - i,
    {
        let ghost before = arr@;
        let n = &v[i];
        let mut o = Json::obj();
        o.set("reason", Json::Str(n.reason.to_string()));
        o.set("frame", Json::num(n.frame_idx as i128));
        o.set("datagram", Json::Str(n.key.clone()));
        assert(o@->Obj_0 =~= note_json(n@)->Obj_0);
        let ghost om = o@;
        arr.push(o);
        i += 1;
        assert(items_of(arr@) =~= items_of(before).push(om));
        assert(items_of(arr@) =~= ns.map_values(g).take(i as int));
    }
    assert(ns.map_values(g).take(i as int) =~= ns.map_values(g));
    Json::arr(arr)
}

/// The gaps of session `i`: those of both directions.
pub open spec fn gaps_are(g: Seq<(u8, i64, i64)>, e: EngineModel, i: int) -> bool {
    exists|a: Seq<(i64, i64)>, b: Seq<(i64, i64)>| #[trigger]
        lists_gaps(a, e.sessions[i].dirs[0]) && #[trigger] lists_gaps(b, e.sessions[i].dirs[1])
            && g == labelled(0, a) + labelled(1, b)
}

/// The gaps of all sessions.
pub open spec fn all_gaps(gs: Seq<Seq<(u8, i64, i64)>>, e: EngineModel) -> bool {
    gs.len() == e.sessions.len() && forall|i: int|
        0 <= i < gs.len() ==> gaps_are(#[trigger] gs[i], e, i)
}

/// The result of an analysis: what went into it, the notes on fragments and the
/// sessions with their gaps.
pub open spec fn result_json(
    kind: Seq<char>,
    o: AnalysisOptions,
    notes: Seq<NoteModel>,
    sessions: Seq<SessionModel>,
    gaps: Seq<Seq<(u8, i64, i64)>>,
    hashes: Seq<Seq<char>>,
    bytes: bool,
) -> JsonModel {
    JsonModel::Obj(
        seq![
            ("input_kind"@, JsonModel::Str(kind)),
            ("frame_count"@, JsonModel::Num(hashes.len() as int)),
            (
                "config"@,
                JsonModel::Obj(
                    seq![
                        ("overlap_policy"@, JsonModel::Str(o.policy.text())),
                        ("timeout_us"@, JsonModel::Num(o.timeout_us as int)),
                    ],
                ),
            ),
            ("fragment_notes"@, JsonModel::Arr(notes.map_values(|n: NoteModel| note_json(n)))),
            (
                "sessions"@,
                JsonModel::Arr(
                    Seq::new(
                        sessions.len(),
                        |i: int| session_json(sessions[i], gaps[i], hashes, bytes),
                    ),
                ),
            ),
        ],
    )
}

fn config_value(o: AnalysisOptions) -> (r: Json)
    ensures
        r@ == JsonModel::Obj(
            seq![
                ("overlap_policy"@, JsonModel::Str(o.policy.text())),
                ("timeout_us"@, JsonModel::Num(o.timeout_us as int)),
            ],
        ),
{
    let mut c = Json::obj();
    c.set("overlap_policy", Json::Str(o.policy.name().to_string()));
    c.set("timeout_us", Json::num(o.timeout_us));
    assert(c@->Obj_0 =~= seq![
        ("overlap_policy"@, JsonModel::Str(o.policy.text())),
        ("timeout_us"@, JsonModel::Num(o.timeout_us as int)),
    ]);
    c
}

/// What gaps are.
pub open spec fn gap_views(v: Seq<Vec<(u8, i64, i64)>>) -> Seq<Seq<(u8, i64, i64)>> {
    v.map_values(|g: Vec<(u8, i64, i64)>| g@)
}

fn gaps_of(e: &Engine) -> (r: Vec<Vec<(u8, i64, i64)>>)
    requires
        e.sound(),
    ensures
        all_gaps(gap_views(r@), e@),
        r@.len() == e.sessions@.len(),
{
    let mut r: Vec<Vec<(u8, i64, i64)>> = Vec::new();
    let mut i: usize = 0;
    while i < e.sessions.len()
        invariant
            i <= e.sessions@.len(),
            e.sound(),
            r@.len() == i,
            forall|j: int| 0 <= j < r@.len() ==> gaps_are((#[trigger] r@[j])@, e@, j),
        decreases e.sessions@.len() - i,
    {
        let g = e.gaps(i);
        assert(gaps_are(g@, e@, i as int));
        r.push(g);
        i += 1;
    }
    let ghost gs = gap_views(r@);
    assert forall|j: int| 0 <= j < gs.len() implies gaps_are(#[trigger] gs[j], e@, j) by {
        assert(gs[j] == r@[j]@);
    }
    r
}

/// A result is told of sessions and notes.
#[verifier::opaque]
pub open spec fn tells(
    m: JsonModel,
    e: EngineModel,
    notes: Seq<NoteModel>,
    kind: Seq<char>,
    o: AnalysisOptions,
    hashes: Seq<Seq<char>>,
    bytes: bool,
) -> bool {
    exists|gs: Seq<Seq<(u8, i64, i64)>>| #[trigger]
        all_gaps(gs, e) && m == result_json(kind, o, notes, e.sessions, gs, hashes, bytes)
}

/// Tells of a report, with the bytes of streams and payloads where they are asked for.
pub fn render(
    report: &Report,
    kind: &str,
    o: AnalysisOptions,
    hashes: &Vec<String>,
    bytes: bool,
) -> (r: Json)
    requires
        report.engine.sound(),
    ensures
        tells(r@, report.engine@, notes_of(report.notes@), kind@, o, views(hashes@), bytes),
{
    proof {
        reveal(tells);
    }
    let gaps = gaps_of(&report.engine);
    let ghost gs = gap_views(gaps@);
    let ghost hs = views(hashes@);
    let ghost ss = report.engine@.sessions;
    let mut arr: Vec<Json> = Vec::new();
    let mut i: usize = 0;
    assert(items_of(arr@) =~= Seq::new(0, |j: int| session_json(ss[j], gs[j], hs, bytes)));
    while i < report.engine.sessions.len()
        invariant
            i <= report.engine.sessions@.len(),
            gaps@.len() == report.engine.sessions@.len(),
            gs == gap_views(gaps@),
            hs == views(hashes@),
            report.engine.sound(),
            ss == report.engine@.sessions,
            ss == session_models(report.engine.sessions@),
            items_of(arr@) == Seq::new(
                i as nat,
                |j: int| session_json(ss[j], gs[j], hs, bytes),
            ),
        decreases report.engine.sessions@.len() - i,
    {
        let ghost before = arr@;
        assert(report.engine.sessions@[i as int].sound());
        let x = session_value(&report.engine.sessions[i], &gaps[i], hashes, bytes);
        let ghost xm = x@;
        arr.push(x);
        i += 1;
        assert(items_of(arr@) =~= items_of(before).push(xm));
        assert(items_of(arr@) =~= Seq::new(
            i as nat,
            |j: int| session_json(ss[j], gs[j], hs, bytes),
        ));
    }
    let mut root = Json::obj();
    root.set("input_kind", Json::Str(kind.to_string()));
    root.set("frame_count", Json::num(hashes.len() as i128));
    root.set("config", config_value(o));
    root.set("fragment_notes", note_values(&report.notes));
    root.set("sessions", Json::arr(arr));
    assert(root@->Obj_0 =~= result_json(
        kind@,
        o,
        notes_of(report.notes@),
        ss,
        gs,
        hs,
        bytes,
    )->Obj_0);
    root
}

/// The fingerprint of a result: the digest of the canonical text of what stays of it
/// without what it says of its own analysis and without the bytes of streams and
/// payloads.
pub open spec fn print_of(result: JsonModel) -> Seq<char> {
    hex_of(sha256_of(encode_utf8(written(bare(result), None))))
}

/// The fingerprint of a result.
pub fn fingerprint(result: &Json) -> (r: String)
    ensures
        r@ == print_of(result@),
        r@.len() == 64,
        forall|i: int| 0 <= i < 64 ==> (#[trigger] r@[i]) < '\u{80}',
{
    let t = strip(result).to_canonical();
    sha256_hex(t.as_str().as_bytes())
}

/// Two lists in strict order with the same members are one list.
proof fn lemma_same_list<T>(a: Seq<T>, b: Seq<T>, lt: spec_fn(T, T) -> bool, n: int)
    requires
        forall|x: T, y: T| !(#[trigger] lt(x, y) && lt(y, x)),
        forall|i: int, j: int| 0 <= i < j < a.len() ==> lt(#[trigger] a[i], #[trigger] a[j]),
        forall|i: int, j: int| 0 <= i < j < b.len() ==> lt(#[trigger] b[i], #[trigger] b[j]),
        forall|x: T| #[trigger] a.contains(x) <==> b.contains(x),
        0 <= n,
        n <= a.len() || n <= b.len(),
    ensures
        n <= a.len(),
        n <= b.len(),
        forall|i: int| 0 <= i < n ==> #[trigger] a[i] == b[i],
    decreases n,
{
    if n > 0 {
        lemma_same_list(a, b, lt, n - 1);
        let k = n - 1;
        if k < a.len() {
            assert(a.contains(a[k]));
            let j = choose|j: int| 0 <= j < b.len() && b[j] == a[k];
            if j < k {
                assert(lt(a[j], a[k]));
                assert(lt(b[j], a[k]) && a[j] == b[j]);
            }
        }
        if k < b.len() {
            assert(b.contains(b[k]));
            assert(a.contains(b[k]));
            let j = choose|j: int| 0 <= j < a.len() && a[j] == b[k];
            if j < k {
                assert(lt(b[j], b[k]));
                assert(lt(a[j], b[k]) && a[j] == b[j]);
            }
        }
        let p = choose|j: int| 0 <= j < b.len() && b[j] == a[k];
        let q = choose|j: int| 0 <= j < a.len() && a[j] == b[k];
        if p > k && q > k {
            assert(lt(b[k], b[p]));
            assert(lt(a[k], a[q]));
        }
    }
}

pub(crate) proof fn lemma_one_list<T>(a: Seq<T>, b: Seq<T>, lt: spec_fn(T, T) -> bool)
    requires
        forall|x: T, y: T| !(#[trigger] lt(x, y) && lt(y, x)),
        forall|i: int, j: int| 0 <= i < j < a.len() ==> lt(#[trigger] a[i], #[trigger] a[j]),
        forall|i: int, j: int| 0 <= i < j < b.len() ==> lt(#[trigger] b[i], #[trigger] b[j]),
        forall|x: T| #[trigger] a.contains(x) <==> b.contains(x),
    ensures
        a == b,
{
    lemma_same_list(a, b, lt, a.len() as int);
    lemma_same_list(a, b, lt, b.len() as int);
    assert(a =~= b);
}

proof fn lemma_one_list_of_keys(
    a: Seq<Seq<char>>,
    b: Seq<Seq<char>>,
    m: Map<Seq<char>, crate::ipreasm::BucketModel>,
)
    requires
        lists_keys(a, m),
        lists_keys(b, m),
    ensures
        a == b,
{
    let lt = |x: Seq<char>, y: Seq<char>| text_lt(x, y);
    assert forall|x: Seq<char>, y: Seq<char>| !(#[trigger] lt(x, y) && lt(y, x)) by {
        if lt(x, y) && lt(y, x) {
            lemma_text_le_both(x, y);
        }
    }
    assert forall|x: Seq<char>| #[trigger] a.contains(x) <==> b.contains(x) by {
        assert(m.contains_key(x) <==> a.contains(x));
        assert(m.contains_key(x) <==> b.contains(x));
    }
    lemma_one_list(a, b, lt);
}

proof fn lemma_one_list_of_gaps(a: Seq<(i64, i64)>, b: Seq<(i64, i64)>, d: DirModel)
    requires
        lists_gaps(a, d),
        lists_gaps(b, d),
    ensures
        a == b,
{
    let dom = d.cells.dom();
    let h = choose|hi: int| #[trigger] is_extent(dom, hi) && lists_holes(a, dom, 0, hi);
    let g = choose|hi: int| #[trigger] is_extent(dom, hi) && lists_holes(b, dom, 0, hi);
    if h > 0 {
        assert(dom.contains((h - 1) as i64));
    }
    if g > 0 {
        assert(dom.contains((g - 1) as i64));
    }
    assert(h == g);
    assert forall|x: (i64, i64)| #[trigger] a.contains(x) <==> b.contains(x) by {
        assert(a.contains((x.0, x.1)) <==> b.contains((x.0, x.1)));
    }
    let lt = |x: (i64, i64), y: (i64, i64)| x.0 < x.1 && y.0 < y.1 && x.1 < y.0;
    assert forall|i: int, j: int| 0 <= i < j < a.len() implies lt(
        #[trigger] a[i],
        #[trigger] a[j],
    ) by {
        assert(a.contains((a[i].0, a[i].1)));
        assert(a.contains((a[j].0, a[j].1)));
    }
    assert forall|i: int, j: int| 0 <= i < j < b.len() implies lt(
        #[trigger] b[i],
        #[trigger] b[j],
    ) by {
        assert(b.contains((b[i].0, b[i].1)));
        assert(b.contains((b[j].0, b[j].1)));
    }
    lemma_one_list(a, b, lt);
}

proof fn lemma_one_list_of_all_gaps(
    ga: Seq<Seq<(u8, i64, i64)>>,
    gb: Seq<Seq<(u8, i64, i64)>>,
    e: EngineModel,
)
    requires
        all_gaps(ga, e),
        all_gaps(gb, e),
    ensures
        ga == gb,
{
    assert forall|i: int| 0 <= i < ga.len() implies ga[i] == gb[i] by {
        assert(gaps_are(ga[i], e, i));
        assert(gaps_are(gb[i], e, i));
        let (a0, a1) = choose|a: Seq<(i64, i64)>, b: Seq<(i64, i64)>| #[trigger]
            lists_gaps(a, e.sessions[i].dirs[0]) && #[trigger] lists_gaps(
                b,
                e.sessions[i].dirs[1],
            ) && ga[i] == labelled(0, a) + labelled(1, b);
        let (b0, b1) = choose|a: Seq<(i64, i64)>, b: Seq<(i64, i64)>| #[trigger]
            lists_gaps(a, e.sessions[i].dirs[0]) && #[trigger] lists_gaps(
                b,
                e.sessions[i].dirs[1],
            ) && gb[i] == labelled(0, a) + labelled(1, b);
        lemma_one_list_of_gaps(a0, b0, e.sessions[i].dirs[0]);
        lemma_one_list_of_gaps(a1, b1, e.sessions[i].dirs[1]);
    }
    assert(ga =~= gb);
}

/// The frames of a capture and the options of an analysis determine its result:
/// whenever and however often it is made, the same result is told.
pub proof fn law_result_is_determined(
    shots: Seq<Shot>,
    link: LinkKind,
    o: AnalysisOptions,
    kind: Seq<char>,
    hashes: Seq<Seq<char>>,
    bytes: bool,
    first: (JsonModel, Seq<NoteModel>),
    second: (JsonModel, Seq<NoteModel>),
)
    requires
        notes_are(first.1, shots, link),
        notes_are(second.1, shots, link),
        tells(first.0, sessions_of(shots, link, o), first.1, kind, o, hashes, bytes),
        tells(second.0, sessions_of(shots, link, o), second.1, kind, o, hashes, bytes),
    ensures
        first == second,
{
    reveal(tells);
    reveal(notes_are);
    let ps = packets_upto(shots, link, shots.len() as int);
    let done = fed_all(ps, ps.len() as int);
    let ka = choose|ks: Seq<Seq<char>>| #[trigger]
        lists_keys(ks, done.groups) && first.1 == done.notes + ks.map_values(
            |k: Seq<char>| leftover(k, done.groups[k]),
        );
    let kb = choose|ks: Seq<Seq<char>>| #[trigger]
        lists_keys(ks, done.groups) && second.1 == done.notes + ks.map_values(
            |k: Seq<char>| leftover(k, done.groups[k]),
        );
    lemma_one_list_of_keys(ka, kb, done.groups);
    let e = sessions_of(shots, link, o);
    let ga = choose|gs: Seq<Seq<(u8, i64, i64)>>| #[trigger]
        all_gaps(gs, e) && first.0 == result_json(kind, o, first.1, e.sessions, gs, hashes, bytes);
    let gb = choose|gs: Seq<Seq<(u8, i64, i64)>>| #[trigger]
        all_gaps(gs, e) && second.0 == result_json(kind, o, second.1, e.sessions, gs, hashes, bytes);
    lemma_one_list_of_all_gaps(ga, gb, e);
}

/// The entry stays as it is when the bytes are left out.
spec fn fixed(e: (Seq<char>, JsonModel)) -> bool {
    !volatile(e.0) && bare(e.1) == e.1 && whole(e.1)
}

proof fn lemma_fixed(o: Seq<(Seq<char>, JsonModel)>)
    requires
        forall|i: int| 0 <= i < o.len() ==> fixed(#[trigger] o[i]),
    ensures
        sift(o) == o,
        bare(JsonModel::Obj(o)) == JsonModel::Obj(o),
        whole(JsonModel::Obj(o)),
{
    assert forall|i: int| 0 <= i < o.len() implies !volatile((#[trigger] o[i]).0) by {
        assert(fixed(o[i]));
    }
    law_sift_keeps(o);
    assert forall|i: int| 0 <= i < o.len() implies sift(o)[i] == #[trigger] o[i] by {
        assert(fixed(o[i]));
    }
    assert(sift(o) =~= o);
    assert forall|i: int| 0 <= i < o.len() implies whole((#[trigger] o[i]).1) by {
        assert(fixed(o[i]));
    }
}

proof fn lemma_bare_list<T>(
    s: Seq<T>,
    f: spec_fn(T) -> JsonModel,
    g: spec_fn(T) -> JsonModel,
)
    requires
        forall|x: T| bare(#[trigger] f(x)) == g(x) && whole(f(x)),
    ensures
        bare(JsonModel::Arr(s.map_values(f))) == JsonModel::Arr(s.map_values(g)),
        whole(JsonModel::Arr(s.map_values(f))),
{
    let v = s.map_values(f);
    assert forall|i: int| 0 <= i < v.len() implies bare(#[trigger] v[i]) == g(s[i]) && whole(
        v[i],
    ) by {
        assert(v[i] == f(s[i]));
    }
    assert(bare(JsonModel::Arr(v))->Arr_0 =~= s.map_values(g));
}

/// The key is none of the volatile ones, told from a few of its characters.
spec fn steady(k: Seq<char>) -> bool {
    ||| k.len() != 8 && k.len() != 11 && k.len() != 15
    ||| k[0] != 'a' && k[0] != 'd' && k[0] != 'p'
    ||| k.len() == 8 && k[4] == 'g'
}

proof fn lemma_steady()
    ensures
        forall|k: Seq<char>| steady(k) ==> !(#[trigger] volatile(k)),
{
    reveal_strlit("analysis");
    reveal_strlit("data_hex");
    reveal_strlit("data_utf8_lossy");
    reveal_strlit("payload_hex");
}

proof fn lemma_run(x: Run, hashes: Seq<Seq<char>>)
    ensures
        bare(run_json(x, hashes)) == run_json(x, hashes),
        whole(run_json(x, hashes)),
{
    lemma_steady();
    reveal_strlit("begin");
    assert(steady("begin"@));
    reveal_strlit("end");
    assert(steady("end"@));
    reveal_strlit("frame");
    assert(steady("frame"@));
    reveal_strlit("frame_sha256");
    assert(steady("frame_sha256"@));
    lemma_fixed(run_json(x, hashes)->Obj_0);
}

proof fn lemma_gap(g: (u8, i64, i64))
    ensures
        bare(gap_json(g)) == gap_json(g),
        whole(gap_json(g)),
{
    lemma_steady();
    reveal_strlit("direction");
    assert(steady("direction"@));
    reveal_strlit("begin");
    assert(steady("begin"@));
    reveal_strlit("end");
    assert(steady("end"@));
    lemma_fixed(gap_json(g)->Obj_0);
}

proof fn lemma_note(n: NoteModel)
    ensures
        bare(note_json(n)) == note_json(n),
        whole(note_json(n)),
{
    lemma_steady();
    reveal_strlit("reason");
    assert(steady("reason"@));
    reveal_strlit("frame");
    assert(steady("frame"@));
    reveal_strlit("datagram");
    assert(steady("datagram"@));
    lemma_fixed(note_json(n)->Obj_0);
}

proof fn lemma_segment(g: SegModel, hashes: Seq<Seq<char>>, bytes: bool)
    ensures
        bare(segment_json(g, hashes, bytes)) == segment_json(g, hashes, false),
        whole(segment_json(g, hashes, bytes)),
{
    lemma_steady();
    reveal_strlit("frame");
    assert(steady("frame"@));
    reveal_strlit("frame_sha256");
    assert(steady("frame_sha256"@));
    reveal_strlit("direction");
    assert(steady("direction"@));
    reveal_strlit("seq");
    assert(steady("seq"@));
    reveal_strlit("begin");
    assert(steady("begin"@));
    reveal_strlit("end");
    assert(steady("end"@));
    reveal_strlit("length");
    assert(steady("length"@));
    reveal_strlit("flags");
    assert(steady("flags"@));
    reveal_strlit("ts_us");
    assert(steady("ts_us"@));
    reveal_strlit("relation");
    assert(steady("relation"@));
    reveal_strlit("overwritten");
    assert(steady("overwritten"@));
    reveal_strlit("conflict");
    assert(steady("conflict"@));
    let o = segment_json(g, hashes, false)->Obj_0;
    lemma_fixed(o);
    if bytes {
        let e = ("payload_hex"@, JsonModel::Str(hex_of(g.data)));
        let p = segment_json(g, hashes, true)->Obj_0;
        assert(p =~= o.push(e));
        law_sift_push(o, e);
        lemma_whole_push(o, e);
    }
}

proof fn lemma_whole_push(o: Seq<(Seq<char>, JsonModel)>, e: (Seq<char>, JsonModel))
    requires
        whole(JsonModel::Obj(o)),
        whole(e.1),
    ensures
        whole(JsonModel::Obj(o.push(e))),
{
    let p = o.push(e);
    let m = JsonModel::Obj(o);
    let q = m->Obj_0;
    assert forall|i: int| 0 <= i < p.len() implies whole((#[trigger] p[i]).1) by {
        if i < o.len() {
            assert(p[i] == q[i]);
            assert(whole(q[i].1));
        }
    }
}

proof fn lemma_direction(d: DirModel, hashes: Seq<Seq<char>>, bytes: bool)
    ensures
        bare(direction_json(d, hashes, bytes)) == direction_json(d, hashes, false),
        whole(direction_json(d, hashes, bytes)),
{
    lemma_steady();
    reveal_strlit("base_isn");
    assert(steady("base_isn"@));
    reveal_strlit("base_frame");
    assert(steady("base_frame"@));
    reveal_strlit("base_from_syn");
    assert(steady("base_from_syn"@));
    reveal_strlit("frontier");
    assert(steady("frontier"@));
    reveal_strlit("max_end");
    assert(steady("max_end"@));
    reveal_strlit("fin_seen");
    assert(steady("fin_seen"@));
    reveal_strlit("rst_seen");
    assert(steady("rst_seen"@));
    reveal_strlit("retransmissions");
    assert(steady("retransmissions"@));
    reveal_strlit("out_of_order_segments");
    assert(steady("out_of_order_segments"@));
    reveal_strlit("overlaps");
    assert(steady("overlaps"@));
    reveal_strlit("reassembled_length");
    assert(steady("reassembled_length"@));
    reveal_strlit("reassembled_sha256");
    assert(steady("reassembled_sha256"@));
    reveal_strlit("sources");
    assert(steady("sources"@));
    let f = |x: Run| run_json(x, hashes);
    assert forall|x: Run| bare(#[trigger] f(x)) == f(x) && whole(f(x)) by {
        lemma_run(x, hashes);
    }
    lemma_bare_list(runs_of(owners_of(d)), f, f);
    let o = direction_json(d, hashes, false)->Obj_0;
    lemma_fixed(o);
    if bytes {
        let x = ("data_hex"@, JsonModel::Str(hex_of(stream_of(d))));
        let y = ("data_utf8_lossy"@, JsonModel::Str(utf8_lossy(stream_of(d))));
        let p = direction_json(d, hashes, true)->Obj_0;
        assert(p =~= o.push(x).push(y));
        law_sift_push(o, x);
        law_sift_push(o.push(x), y);
        lemma_whole_push(o, x);
        lemma_whole_push(o.push(x), y);
    }
}

proof fn lemma_session(
    s: SessionModel,
    gaps: Seq<(u8, i64, i64)>,
    hashes: Seq<Seq<char>>,
    bytes: bool,
)
    ensures
        bare(session_json(s, gaps, hashes, bytes)) == session_json(s, gaps, hashes, false),
        whole(session_json(s, gaps, hashes, bytes)),
{
    lemma_steady();
    reveal_strlit("id");
    assert(steady("id"@));
    reveal_strlit("generation");
    assert(steady("generation"@));
    reveal_strlit("four_tuple");
    assert(steady("four_tuple"@));
    reveal_strlit("ip_version");
    assert(steady("ip_version"@));
    reveal_strlit("state");
    assert(steady("state"@));
    reveal_strlit("close_reason");
    assert(steady("close_reason"@));
    reveal_strlit("handshake");
    assert(steady("handshake"@));
    reveal_strlit("started_mid_capture");
    assert(steady("started_mid_capture"@));
    reveal_strlit("start_frame");
    assert(steady("start_frame"@));
    reveal_strlit("end_frame");
    assert(steady("end_frame"@));
    reveal_strlit("directions");
    assert(steady("directions"@));
    reveal_strlit("segments");
    assert(steady("segments"@));
    reveal_strlit("gaps");
    assert(steady("gaps"@));
    let df = |d: DirModel| direction_json(d, hashes, bytes);
    let dg = |d: DirModel| direction_json(d, hashes, false);
    assert forall|d: DirModel| bare(#[trigger] df(d)) == dg(d) && whole(df(d)) by {
        lemma_direction(d, hashes, bytes);
    }
    lemma_bare_list(s.dirs, df, dg);
    let sf = |g: SegModel| segment_json(g, hashes, bytes);
    let sg = |g: SegModel| segment_json(g, hashes, false);
    assert forall|g: SegModel| bare(#[trigger] sf(g)) == sg(g) && whole(sf(g)) by {
        lemma_segment(g, hashes, bytes);
    }
    lemma_bare_list(s.segments, sf, sg);
    let gf = |g: (u8, i64, i64)| gap_json(g);
    assert forall|g: (u8, i64, i64)| bare(#[trigger] gf(g)) == gf(g) && whole(gf(g)) by {
        lemma_gap(g);
    }
    lemma_bare_list(gaps, gf, gf);
    let o = session_json(s, gaps, hashes, bytes)->Obj_0;
    let c = session_json(s, gaps, hashes, false)->Obj_0;
    assert forall|i: int| 0 <= i < o.len() implies !volatile((#[trigger] o[i]).0) by {}
    law_sift_keeps(o);
    assert(sift(o) =~= c);
    assert forall|i: int| 0 <= i < o.len() implies whole((#[trigger] o[i]).1) by {}
}

proof fn lemma_result(
    kind: Seq<char>,
    o: AnalysisOptions,
    notes: Seq<NoteModel>,
    sessions: Seq<SessionModel>,
    gaps: Seq<Seq<(u8, i64, i64)>>,
    hashes: Seq<Seq<char>>,
    bytes: bool,
)
    ensures
        bare(result_json(kind, o, notes, sessions, gaps, hashes, bytes)) == result_json(
            kind,
            o,
            notes,
            sessions,
            gaps,
            hashes,
            false,
        ),
        whole(result_json(kind, o, notes, sessions, gaps, hashes, bytes)),
{
    lemma_steady();
    reveal_strlit("input_kind");
    assert(steady("input_kind"@));
    reveal_strlit("frame_count");
    assert(steady("frame_count"@));
    reveal_strlit("config");
    assert(steady("config"@));
    reveal_strlit("overlap_policy");
    assert(steady("overlap_policy"@));
    reveal_strlit("timeout_us");
    assert(steady("timeout_us"@));
    reveal_strlit("fragment_notes");
    assert(steady("fragment_notes"@));
    reveal_strlit("sessions");
    assert(steady("sessions"@));
    let r = result_json(kind, o, notes, sessions, gaps, hashes, bytes)->Obj_0;
    let c = result_json(kind, o, notes, sessions, gaps, hashes, false)->Obj_0;
    lemma_fixed(r[2].1->Obj_0);
    let nf = |n: NoteModel| note_json(n);
    assert forall|n: NoteModel| bare(#[trigger] nf(n)) == nf(n) && whole(nf(n)) by {
        lemma_note(n);
    }
    lemma_bare_list(notes, nf, nf);
    let sf = |i: int| session_json(sessions[i], gaps[i], hashes, bytes);
    let sg = |i: int| session_json(sessions[i], gaps[i], hashes, false);
    assert forall|i: int| bare(#[trigger] sf(i)) == sg(i) && whole(sf(i)) by {
        lemma_session(sessions[i], gaps[i], hashes, bytes);
    }
    let places = Seq::new(sessions.len(), |i: int| i);
    lemma_bare_list(places, sf, sg);
    assert(places.map_values(sf) =~= Seq::new(sessions.len(), sf));
    assert(places.map_values(sg) =~= Seq::new(sessions.len(), sg));
    assert(r[4].1->Arr_0 =~= Seq::new(sessions.len(), sf));
    assert(c[4].1->Arr_0 =~= Seq::new(sessions.len(), sg));
    assert forall|i: int| 0 <= i < r.len() implies !volatile((#[trigger] r[i]).0) by {}
    law_sift_keeps(r);
    assert(sift(r) =~= c);
    assert forall|i: int| 0 <= i < r.len() implies whole((#[trigger] r[i]).1) by {}
}

/// What stays of a result that was told with bytes is the result told without them.
pub proof fn law_bare_result(
    full: JsonModel,
    core: JsonModel,
    e: EngineModel,
    notes: Seq<NoteModel>,
    kind: Seq<char>,
    o: AnalysisOptions,
    hashes: Seq<Seq<char>>,
)
    requires
        tells(full, e, notes, kind, o, hashes, true),
        tells(core, e, notes, kind, o, hashes, false),
    ensures
        bare(full) == core,
{
    reveal(tells);
    let ga = choose|gs: Seq<Seq<(u8, i64, i64)>>| #[trigger]
        all_gaps(gs, e) && full == result_json(kind, o, notes, e.sessions, gs, hashes, true);
    let gb = choose|gs: Seq<Seq<(u8, i64, i64)>>| #[trigger]
        all_gaps(gs, e) && core == result_json(kind, o, notes, e.sessions, gs, hashes, false);
    lemma_one_list_of_all_gaps(ga, gb, e);
    lemma_result(kind, o, notes, e.sessions, ga, hashes, true);
}

/// A version of the analysis of an upload: the capture that it holds, the entry of the
/// version, and the text that is kept of it.
pub struct Version {
    pub capture: Capture,
    pub artifact: Artifact,
    pub text: String,
}

/// What is kept of the analysis of an upload, made of a result and notes.
pub open spec fn is_version_of(
    v: Version,
    full: JsonModel,
    notes: Seq<NoteModel>,
    data: Seq<u8>,
    cap: CaptureModel,
    o: AnalysisOptions,
    now_us: int,
) -> bool {
    let hashes = Seq::new(cap.shots.len(), |i: int| address(cap.shots[i].bytes));
    &&& notes_are(notes, cap.shots, cap.link)
    &&& tells(full, sessions_of(cap.shots, cap.link, o), notes, cap.kind, o, hashes, true)
    &&& plain(full)
    &&& v.artifact@ == version(
        full,
        print_of(full),
        address(data),
        o.policy,
        o.timeout_us as int,
        now_us,
    )
    &&& v.text@ == written(with_meta(full, v.artifact@), Some(seq![]))
}

/// What is kept of the analysis of an upload.
pub open spec fn is_version(
    v: Version,
    data: Seq<u8>,
    cap: CaptureModel,
    o: AnalysisOptions,
    now_us: int,
) -> bool {
    exists|full: JsonModel, notes: Seq<NoteModel>| #[trigger]
        is_version_of(v, full, notes, data, cap, o, now_us)
}

/// Analyses an upload. The error is that of loading it. Nothing comes back where the
/// JSON parser gives nothing, or where the times cannot be told apart.
pub fn make_version(data: &[u8], o: AnalysisOptions, now_us: i128) -> (r: Option<
    Result<Version, String>,
>)
    ensures
        match r {
            Some(Ok(v)) => {
                &&& v.capture.wf()
                &&& loaded(data@) == Some(Ok::<CaptureModel, Seq<char>>(v.capture@))
                &&& is_version(v, data@, v.capture@, o, now_us as int)
                &&& v.artifact@.fingerprint.len() == 64
            },
            Some(Err(e)) => loaded(data@) == Some(Err::<CaptureModel, Seq<char>>(e@)),
            None => match loaded(data@) {
                Some(Ok(c)) => !calm_times(c.shots),
                Some(Err(_)) => false,
                None => true,
            },
        },
{
    let capture = match try_load(data) {
        None => {
            return None;
        },
        Some(Err(e)) => {
            return Some(Err(e));
        },
        Some(Ok(c)) => c,
    };
    let report = match try_run(&capture, o) {
        None => {
            return None;
        },
        Some(r) => r,
    };
    let hashes = frame_ids(&capture);
    let full = render(&report, capture.kind.as_str(), o, &hashes, true);
    let print = fingerprint(&full);
    let id = input_id(data);
    let ghost fm = full@;
    proof {
        lemma_told_is_whole(
            fm,
            report.engine@,
            notes_of(report.notes@),
            capture.kind@,
            o,
            views(hashes@),
            true,
        );
        law_whole_is_plain(full);
    }
    let (artifact, text) = Store::analyze_version(
        full,
        print.as_str(),
        id.as_str(),
        o.policy,
        o.timeout_us,
        now_us,
    );
    let v = Version { capture, artifact, text };
    proof {
        let cap = v.capture@;
        let hs = Seq::new(cap.shots.len(), |i: int| address(cap.shots[i].bytes));
        assert(views(hashes@) =~= hs);
        let notes = notes_of(report.notes@);
        assert(is_version_of(v, fm, notes, data@, cap, o, now_us as int));
    }
    Some(Ok(v))
}

/// The file of a version.
pub open spec fn version_file(root: Seq<char>, v: Version) -> Seq<char> {
    kept_at(root, "/results/"@, v.artifact@.id, ".json"@)
}

/// The files once a version is kept.
pub open spec fn version_kept(
    files: Map<Seq<char>, Seq<u8>>,
    root: Seq<char>,
    v: Version,
) -> Map<Seq<char>, Seq<u8>> {
    kept_once(files, version_file(root, v), encode_utf8(v.text@))
}

/// Analyses an upload and keeps the version, unless there is a file of its name. Where
/// there is no version, nothing is kept.
pub fn keep_version(
    data: &[u8],
    o: AnalysisOptions,
    now_us: i128,
    store: &Store,
    results: &mut Results,
) -> (r: Option<Result<Version, String>>)
    ensures
        match r {
            Some(Ok(v)) => {
                &&& v.capture.wf()
                &&& loaded(data@) == Some(Ok::<CaptureModel, Seq<char>>(v.capture@))
                &&& is_version(v, data@, v.capture@, o, now_us as int)
                &&& v.artifact@.fingerprint.len() == 64
                &&& final(results)@ == version_kept(old(results)@, store@, v)
            },
            Some(Err(e)) => {
                &&& loaded(data@) == Some(Err::<CaptureModel, Seq<char>>(e@))
                &&& final(results)@ == old(results)@
            },
            None => {
                &&& final(results)@ == old(results)@
                &&& match loaded(data@) {
                    Some(Ok(c)) => !calm_times(c.shots),
                    Some(Err(_)) => false,
                    None => true,
                }
            },
        },
{
    let r = make_version(data, o, now_us);
    if let Some(Ok(v)) = &r {
        let path = store.result_path(v.artifact.id.as_str());
        results.keep(path.as_str(), v.text.as_str().as_bytes());
    }
    r
}

/// Versions are immutable: keeping one leaves every kept file as it is and adds at most
/// the file of its name, and keeping the same upload under the same options again, at
/// whatever time, changes nothing.
pub proof fn law_versions_are_immutable(
    files: Map<Seq<char>, Seq<u8>>,
    root: Seq<char>,
    data: Seq<u8>,
    cap: CaptureModel,
    o: AnalysisOptions,
    first: (Version, int),
    second: (Version, int),
)
    requires
        is_version(first.0, data, cap, o, first.1),
        is_version(second.0, data, cap, o, second.1),
    ensures
        forall|p: Seq<char>| #[trigger]
            files.contains_key(p) ==> version_kept(files, root, first.0).contains_key(p)
                && version_kept(files, root, first.0)[p] == files[p],
        forall|p: Seq<char>| #[trigger]
            version_kept(files, root, first.0).contains_key(p) ==> files.contains_key(p) || p
                == version_file(root, first.0),
        version_kept(version_kept(files, root, first.0), root, second.0) == version_kept(
            files,
            root,
            first.0,
        ),
{
    law_version_name_is_stable(data, cap, o, first, second);
}

/// Versions under different policies have one name only where the digests of two
/// different texts start with the same sixteen characters.
pub proof fn law_other_policy_other_name(
    first: (Version, Seq<u8>, CaptureModel, AnalysisOptions, int),
    second: (Version, Seq<u8>, CaptureModel, AnalysisOptions, int),
)
    requires
        is_version(first.0, first.1, first.2, first.3, first.4),
        is_version(second.0, second.1, second.2, second.3, second.4),
        first.3.policy != second.3.policy,
        first.0.artifact@.id == second.0.artifact@.id,
        first.0.artifact@.fingerprint.len() == 64,
        second.0.artifact@.fingerprint.len() == 64,
    ensures
        exists|x: Seq<char>, y: Seq<char>|
            x != y && (#[trigger] hex_of(sha256_of(encode_utf8(x)))).take(16) == (
            #[trigger] hex_of(sha256_of(encode_utf8(y)))).take(16),
{
    let (f1, n1) = choose|full: JsonModel, notes: Seq<NoteModel>| #[trigger]
        is_version_of(first.0, full, notes, first.1, first.2, first.3, first.4);
    let (f2, n2) = choose|full: JsonModel, notes: Seq<NoteModel>| #[trigger]
        is_version_of(second.0, full, notes, second.1, second.2, second.3, second.4);
    let h1 = Seq::new(first.2.shots.len(), |i: int| address(first.2.shots[i].bytes));
    let h2 = Seq::new(second.2.shots.len(), |i: int| address(second.2.shots[i].bytes));
    let e1 = sessions_of(first.2.shots, first.2.link, first.3);
    let e2 = sessions_of(second.2.shots, second.2.link, second.3);
    law_other_policy_other_result(
        (f1, e1, n1, first.3),
        (f2, e2, n2, second.3),
        (first.2.kind, second.2.kind),
        (h1, h2),
        true,
    );
    let x = written(bare(f1), None);
    let y = written(bare(f2), None);
    let a = first.0.artifact@;
    let b = second.0.artifact@;
    assert(a.id.take(16) =~= a.fingerprint.take(16));
    assert(b.id.take(16) =~= b.fingerprint.take(16));
    assert(hex_of(sha256_of(encode_utf8(x))).take(16) == hex_of(sha256_of(encode_utf8(y))).take(16));
}

/// The name of a version does not depend on when the analysis was made: the same upload
/// under the same options keeps its version.
pub proof fn law_version_name_is_stable(
    data: Seq<u8>,
    cap: CaptureModel,
    o: AnalysisOptions,
    first: (Version, int),
    second: (Version, int),
)
    requires
        is_version(first.0, data, cap, o, first.1),
        is_version(second.0, data, cap, o, second.1),
    ensures
        first.0.artifact@.id == second.0.artifact@.id,
        first.0.artifact@.fingerprint == second.0.artifact@.fingerprint,
        first.0.artifact@.result_sha == second.0.artifact@.result_sha,
        first.1 == second.1 ==> first.0.text@ == second.0.text@,
{
    let hs = Seq::new(cap.shots.len(), |i: int| address(cap.shots[i].bytes));
    let (f1, n1) = choose|full: JsonModel, notes: Seq<NoteModel>| #[trigger]
        is_version_of(first.0, full, notes, data, cap, o, first.1);
    let (f2, n2) = choose|full: JsonModel, notes: Seq<NoteModel>| #[trigger]
        is_version_of(second.0, full, notes, data, cap, o, second.1);
    law_result_is_determined(
        cap.shots,
        cap.link,
        o,
        cap.kind,
        hs,
        true,
        (f1, n1),
        (f2, n2),
    );
}

proof fn lemma_told_is_whole(
    m: JsonModel,
    e: EngineModel,
    notes: Seq<NoteModel>,
    kind: Seq<char>,
    o: AnalysisOptions,
    hashes: Seq<Seq<char>>,
    bytes: bool,
)
    requires
        tells(m, e, notes, kind, o, hashes, bytes),
    ensures
        whole(m),
{
    reveal(tells);
    let gs = choose|gs: Seq<Seq<(u8, i64, i64)>>| #[trigger]
        all_gaps(gs, e) && m == result_json(kind, o, notes, e.sessions, gs, hashes, bytes);
    lemma_result(kind, o, notes, e.sessions, gs, hashes, bytes);
}

proof fn lemma_plain_push(o: Seq<(Seq<char>, JsonModel)>, e: (Seq<char>, JsonModel))
    requires
        plain(JsonModel::Obj(o)),
        plain(e.1),
    ensures
        plain(JsonModel::Obj(o.push(e))),
{
    let p = o.push(e);
    let m = JsonModel::Obj(o);
    let q = m->Obj_0;
    assert forall|i: int| 0 <= i < p.len() implies plain((#[trigger] p[i]).1) by {
        if i < o.len() {
            assert(p[i] == q[i]);
            assert(plain(q[i].1));
        }
    }
}

proof fn lemma_meta_plain(a: Artifact)
    ensures
        plain(meta_json(a@)),
{
    let c = meta_json(a@)->Obj_0[5].1->Obj_0;
    assert forall|i: int| 0 <= i < c.len() implies plain((#[trigger] c[i]).1) by {}
    assert(plain(JsonModel::Obj(c)));
    let o = meta_json(a@)->Obj_0;
    assert forall|i: int| 0 <= i < o.len() implies plain((#[trigger] o[i]).1) by {}
}

/// What the kept text of a version reads back to.
proof fn lemma_text_reads_back(
    v: Version,
    full: JsonModel,
    notes: Seq<NoteModel>,
    data: Seq<u8>,
    cap: CaptureModel,
    o: AnalysisOptions,
    now_us: int,
)
    requires
        is_version_of(v, full, notes, data, cap, o, now_us),
    ensures
        full is Obj,
        parsed(v.text@) == Step::Got(
            canonical(with_meta(full, v.artifact@)),
            v.text@.len() as int,
        ),
{
    assert(full is Obj) by {
        reveal(tells);
    }
    lemma_meta_plain(v.artifact);
    lemma_plain_push(full->Obj_0, ("analysis"@, meta_json(v.artifact@)));
    assert(full == JsonModel::Obj(full->Obj_0));
    law_parse_written(with_meta(full, v.artifact@), Some(seq![]));
}

/// The fingerprint survives an export: the text that is kept of a version parses, and
/// the fingerprint of what comes back is the one that the version was recorded with.
pub proof fn law_exported_fingerprint(
    v: Version,
    data: Seq<u8>,
    cap: CaptureModel,
    o: AnalysisOptions,
    now_us: int,
)
    requires
        is_version(v, data, cap, o, now_us),
    ensures
        parsed(v.text@) matches Step::Got(m, n) && n == v.text@.len() && print_of(m)
            == v.artifact@.fingerprint,
{
    let (full, notes) = choose|full: JsonModel, notes: Seq<NoteModel>| #[trigger]
        is_version_of(v, full, notes, data, cap, o, now_us);
    let x = with_meta(full, v.artifact@);
    lemma_text_reads_back(v, full, notes, data, cap, o, now_us);
    law_bare_of_canonical(x);
    law_canonical_text_stable(bare(x));
    law_sift_push(full->Obj_0, ("analysis"@, meta_json(v.artifact@)));
    assert(full == JsonModel::Obj(full->Obj_0));
    assert(bare(x) == bare(full));
}

/// The fingerprint of a result that was written down, compactly or in lines, and read
/// again is that of the result.
pub proof fn law_fingerprint_is_stable(result: JsonModel, pad: Option<Seq<char>>)
    requires
        plain(result),
        airy(pad),
    ensures
        parsed(written(result, pad)) matches Step::Got(m, _) && print_of(m) == print_of(result),
{
    law_parse_written(result, pad);
    law_bare_of_canonical(result);
    law_canonical_text_stable(bare(result));
}

proof fn lemma_config_of(
    kind: Seq<char>,
    o: AnalysisOptions,
    notes: Seq<NoteModel>,
    sessions: Seq<SessionModel>,
    gaps: Seq<Seq<(u8, i64, i64)>>,
    hashes: Seq<Seq<char>>,
    bytes: bool,
    rest: Seq<(Seq<char>, JsonModel)>,
)
    ensures
        ({
            let r = result_json(kind, o, notes, sessions, gaps, hashes, bytes);
            let m = canonical(JsonModel::Obj(r->Obj_0 + rest));
            m.field("config"@) matches Some(c) && c.field("overlap_policy"@) == Some(
                JsonModel::Str(o.policy.text()),
            )
        }),
{
    reveal_strlit("input_kind");
    reveal_strlit("frame_count");
    reveal_strlit("config");
    assert("input_kind"@.len() == 10 && "frame_count"@.len() == 11 && "config"@.len() == 6);
    let r = result_json(kind, o, notes, sessions, gaps, hashes, bytes);
    let all = r->Obj_0 + rest;
    reveal_with_fuel(entry_at, 4);
    assert(all[0] == r->Obj_0[0] && all[1] == r->Obj_0[1] && all[2] == r->Obj_0[2]);
    assert(entry_at(all, "config"@, 0) == Some(2int));
    let c = all[2].1;
    law_canonical_field(JsonModel::Obj(all), "config"@);
    assert(entry_at(c->Obj_0, "overlap_policy"@, 0) == Some(0int));
    law_canonical_field(c, "overlap_policy"@);
}

proof fn lemma_policy_texts(a: OverlapPolicy, b: OverlapPolicy)
    requires
        a != b,
    ensures
        a.text() != b.text(),
{
    reveal_strlit("first-seen");
    reveal_strlit("last-seen");
    assert("first-seen"@.len() == 10 && "last-seen"@.len() == 9);
}

/// Another overlap policy gives another text to digest: of results under different
/// policies neither the whole texts nor the texts of what a fingerprint is made of are
/// the same.
pub proof fn law_other_policy_other_result(
    a: (JsonModel, EngineModel, Seq<NoteModel>, AnalysisOptions),
    b: (JsonModel, EngineModel, Seq<NoteModel>, AnalysisOptions),
    kinds: (Seq<char>, Seq<char>),
    hashes: (Seq<Seq<char>>, Seq<Seq<char>>),
    bytes: bool,
)
    requires
        tells(a.0, a.1, a.2, kinds.0, a.3, hashes.0, bytes),
        tells(b.0, b.1, b.2, kinds.1, b.3, hashes.1, bytes),
        plain(a.0),
        plain(b.0),
        a.3.policy != b.3.policy,
    ensures
        written(a.0, None) != written(b.0, None),
        written(bare(a.0), None) != written(bare(b.0), None),
{
    reveal(tells);
    let ga = choose|gs: Seq<Seq<(u8, i64, i64)>>| #[trigger]
        all_gaps(gs, a.1) && a.0 == result_json(
            kinds.0,
            a.3,
            a.2,
            a.1.sessions,
            gs,
            hashes.0,
            bytes,
        );
    let gb = choose|gs: Seq<Seq<(u8, i64, i64)>>| #[trigger]
        all_gaps(gs, b.1) && b.0 == result_json(
            kinds.1,
            b.3,
            b.2,
            b.1.sessions,
            gs,
            hashes.1,
            bytes,
        );
    lemma_policy_texts(a.3.policy, b.3.policy);
    lemma_result(kinds.0, a.3, a.2, a.1.sessions, ga, hashes.0, bytes);
    lemma_result(kinds.1, b.3, b.2, b.1.sessions, gb, hashes.1, bytes);
    lemma_config_of(kinds.0, a.3, a.2, a.1.sessions, ga, hashes.0, bytes, seq![]);
    lemma_config_of(kinds.1, b.3, b.2, b.1.sessions, gb, hashes.1, bytes, seq![]);
    lemma_config_of(kinds.0, a.3, a.2, a.1.sessions, ga, hashes.0, false, seq![]);
    lemma_config_of(kinds.1, b.3, b.2, b.1.sessions, gb, hashes.1, false, seq![]);
    law_parse_canonical(a.0);
    law_parse_canonical(b.0);
    law_bare_is_plain(a.0);
    law_bare_is_plain(b.0);
    law_parse_canonical(bare(a.0));
    law_parse_canonical(bare(b.0));
    assert(a.0->Obj_0 + seq![] =~= a.0->Obj_0);
    assert(b.0->Obj_0 + seq![] =~= b.0->Obj_0);
    assert(bare(a.0)->Obj_0 + seq![] =~= bare(a.0)->Obj_0);
    assert(bare(b.0)->Obj_0 + seq![] =~= bare(b.0)->Obj_0);
}

/// Another overlap policy makes another version: the kept texts differ, whatever the
/// uploads and the times were.
pub proof fn law_other_policy_other_version(
    first: (Version, Seq<u8>, CaptureModel, AnalysisOptions, int),
    second: (Version, Seq<u8>, CaptureModel, AnalysisOptions, int),
)
    requires
        is_version(first.0, first.1, first.2, first.3, first.4),
        is_version(second.0, second.1, second.2, second.3, second.4),
        first.3.policy != second.3.policy,
    ensures
        first.0.text@ != second.0.text@,
{
    let (f1, n1) = choose|full: JsonModel, notes: Seq<NoteModel>| #[trigger]
        is_version_of(first.0, full, notes, first.1, first.2, first.3, first.4);
    let (f2, n2) = choose|full: JsonModel, notes: Seq<NoteModel>| #[trigger]
        is_version_of(second.0, full, notes, second.1, second.2, second.3, second.4);
    lemma_text_reads_back(first.0, f1, n1, first.1, first.2, first.3, first.4);
    lemma_text_reads_back(second.0, f2, n2, second.1, second.2, second.3, second.4);
    lemma_version_policy(first.0, f1, n1, first.1, first.2, first.3, first.4);
    lemma_version_policy(second.0, f2, n2, second.1, second.2, second.3, second.4);
    lemma_policy_texts(first.3.policy, second.3.policy);
}

proof fn lemma_version_policy(
    v: Version,
    full: JsonModel,
    notes: Seq<NoteModel>,
    data: Seq<u8>,
    cap: CaptureModel,
    o: AnalysisOptions,
    now_us: int,
)
    requires
        is_version_of(v, full, notes, data, cap, o, now_us),
    ensures
        canonical(with_meta(full, v.artifact@)).field("config"@) matches Some(c) && c.field(
            "overlap_policy"@,
        ) == Some(JsonModel::Str(o.policy.text())),
{
    reveal(tells);
    let hashes = Seq::new(cap.shots.len(), |i: int| address(cap.shots[i].bytes));
    let e = sessions_of(cap.shots, cap.link, o);
    let gs = choose|gs: Seq<Seq<(u8, i64, i64)>>| #[trigger]
        all_gaps(gs, e) && full == result_json(cap.kind, o, notes, e.sessions, gs, hashes, true);
    let rest = seq![("analysis"@, meta_json(v.artifact@))];
    lemma_config_of(cap.kind, o, notes, e.sessions, gs, hashes, true, rest);
    assert(full->Obj_0.push(("analysis"@, meta_json(v.artifact@))) =~= full->Obj_0 + rest);
}

} // verus!
