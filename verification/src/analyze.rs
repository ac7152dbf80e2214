//! The analysis of a capture: frames in order of time, defragmentation,
//! sessions, and the evidence for what was done with every frame.

use vstd::prelude::*;
use vstd::utf8::encode_utf8;
use crate::document::{
    lemma_config_plain, lemma_sessions_plain, lemma_texts_plain, list, listed, Document,
};
use crate::hash::sha256_of;
use crate::ipdefrag::{
    all_say, ends_within, flushed, handled, DatagramEvidence, DefragConfig, DefragOutcome,
    DefragState, Defragmenter, FragKey, OutcomeModel,
};
use crate::json::{Json, JsonModel};
use crate::packet::{
    frame_packet, parse_frame, parse_tcp, tcp_segment, NetPacket, PacketModel, PROTO_TCP,
};
use crate::pcap::{frame_models, Frame, FrameModel};
use crate::serial::{law_serial_apart, serial, to_serial};
use crate::session::{
    all_closed, generations_within, key_before, keys_sorted, normalized, payload_name, processed,
    sessions_say, DirModel, DirectionResult, DoneModel, Endpoint, EngineState, FinishedSession,
    OverlapPolicy, SessionConfig, SessionEngine, SessionEvent, SessionResult, TupleKey,
};
use crate::sorting::{order_of, stable_order};
use crate::text::{cat_dec, dec, hex_of, push_dec, push_text, views};
use crate::types::Ip;
use crate::workbench::lemma_one_list;

verus! {

#[derive(Debug, Clone)]
pub struct Config {
    pub overlap: String,
    pub session_timeout_ns: u64,
    pub frag_max_datagram_bytes: u64,
    pub frag_max_fragments: u64,
    pub frag_timeout_ns: u64,
}

/// The settings of a configuration.
pub open spec fn settings_of(c: Config) -> (Seq<char>, u64, u64, u64, u64) {
    (
        c.overlap@,
        c.session_timeout_ns,
        c.frag_max_datagram_bytes,
        c.frag_max_fragments,
        c.frag_timeout_ns,
    )
}

impl Default for Config {
    fn default() -> (r: Self)
        ensures
            r.overlap@ == "first_seen"@,
            r.session_timeout_ns == 120_000_000_000,
            r.frag_max_datagram_bytes == 256 * 1024,
            r.frag_max_fragments == 64,
            r.frag_timeout_ns == 30_000_000_000,
    {
        Config {
            overlap: OverlapPolicy::FirstSeen.as_str().to_string(),
            session_timeout_ns: 120_000_000_000,
            frag_max_datagram_bytes: 256 * 1024,
            frag_max_fragments: 64,
            frag_timeout_ns: 30_000_000_000,
        }
    }
}

impl Config {
    pub fn with_overlap(self, policy: OverlapPolicy) -> (r: Self)
        ensures
            r.overlap@ == policy.name(),
            r.session_timeout_ns == self.session_timeout_ns,
            r.frag_max_datagram_bytes == self.frag_max_datagram_bytes,
            r.frag_max_fragments == self.frag_max_fragments,
            r.frag_timeout_ns == self.frag_timeout_ns,
    {
        let mut r = self;
        r.overlap = policy.as_str().to_string();
        r
    }

    /// The two values agree.
    pub open spec fn agrees(self, other: Config) -> bool {
        &&& self.overlap@ == other.overlap@
        &&& self.session_timeout_ns == other.session_timeout_ns
        &&& self.frag_max_datagram_bytes == other.frag_max_datagram_bytes
        &&& self.frag_max_fragments == other.frag_max_fragments
        &&& self.frag_timeout_ns == other.frag_timeout_ns
    }

    pub fn copy(&self) -> (r: Config)
        ensures
            r.agrees(*self),
    {
        Config {
            overlap: self.overlap.clone(),
            session_timeout_ns: self.session_timeout_ns,
            frag_max_datagram_bytes: self.frag_max_datagram_bytes,
            frag_max_fragments: self.frag_max_fragments,
            frag_timeout_ns: self.frag_timeout_ns,
        }
    }

    /// The session configuration; an unknown policy means first seen.
    pub open spec fn sessions(self) -> SessionConfig {
        SessionConfig {
            timeout_ns: self.session_timeout_ns,
            overlap: match OverlapPolicy::named(self.overlap@) {
                Some(p) => p,
                None => OverlapPolicy::FirstSeen,
            },
        }
    }

    fn session_config(&self) -> (r: SessionConfig)
        ensures
            r == self.sessions(),
    {
        SessionConfig {
            timeout_ns: self.session_timeout_ns,
            overlap: match OverlapPolicy::parse(self.overlap.as_str()) {
                Some(p) => p,
                None => OverlapPolicy::FirstSeen,
            },
        }
    }

    /// The defragmentation configuration.
    pub open spec fn defrag(self) -> DefragConfig {
        DefragConfig {
            max_datagram_bytes: self.frag_max_datagram_bytes as usize,
            max_fragments: self.frag_max_fragments as usize,
            timeout_ns: self.frag_timeout_ns,
        }
    }

    fn defrag_config(&self) -> (r: DefragConfig)
        ensures
            r == self.defrag(),
    {
        DefragConfig {
            max_datagram_bytes: self.frag_max_datagram_bytes as usize,
            max_fragments: self.frag_max_fragments as usize,
            timeout_ns: self.frag_timeout_ns,
        }
    }
}

#[derive(Clone, Debug)]
pub struct FrameEvidence {
    pub index: u64,
    pub ts_ns: u64,
    pub sha256: String,
}

#[derive(Clone, Debug)]
pub struct IgnoredEvidence {
    pub frame: u64,
    pub reason: String,
}

#[derive(Clone, Debug)]
pub struct EvidenceDoc {
    pub format: String,
    pub config: Config,
    pub frames: Vec<FrameEvidence>,
    pub ignored: Vec<IgnoredEvidence>,
    pub ip_datagrams: Vec<DatagramEvidence>,
    pub session_events: Vec<SessionEvent>,
}

#[derive(Clone, Debug)]
pub struct ResultDoc {
    pub format: String,
    pub config: Config,
    pub frame_count: usize,
    pub sessions: Vec<SessionResult>,
    pub fingerprint: String,
}

pub struct PayloadOut {
    pub file: String,
    pub data: Vec<u8>,
}

pub struct Analysis {
    pub result: ResultDoc,
    pub evidence: EvidenceDoc,
    pub payloads: Vec<PayloadOut>,
    pub frame_hashes: Vec<String>,
}

pub fn sha256_hex(data: &[u8]) -> (s: String)
    ensures
        s@ == hex_of(sha256_of(data@)),
{
    crate::hash::sha256_hex(data)
}

/// What a fingerprint is taken of: the configuration, the digests of the frames and the
/// sessions.
pub open spec fn print_document(
    config: Config,
    hashes: Seq<String>,
    sessions: Seq<SessionResult>,
) -> JsonModel {
    JsonModel::Obj(
        seq![
            ("config"@, config.document()),
            ("frames"@, listed(hashes)),
            ("sessions"@, listed(sessions)),
        ],
    )
}

/// The digest of a document's text.
pub open spec fn digest_of(m: JsonModel) -> Seq<char> {
    hex_of(sha256_of(encode_utf8(serial(m))))
}

/// The fingerprint of an analysis: the digest of its configuration, frame digests and
/// sessions.
pub fn fingerprint(
    config: &Config,
    frame_hashes: &Vec<String>,
    sessions: &Vec<SessionResult>,
) -> (s: String)
    ensures
        s@ == digest_of(print_document(*config, frame_hashes@, sessions@)),
{
    let mut o = Json::obj();
    o.set("config", config.to_document());
    o.set("frames", list(frame_hashes));
    o.set("sessions", list(sessions));
    assert(o@->Obj_0 =~= print_document(*config, frame_hashes@, sessions@)->Obj_0);
    let text = to_serial(&o);
    sha256_hex(text.as_str().as_bytes())
}

/// Where an analysis stands.
pub struct Progress {
    pub defrag: DefragState,
    pub engine: EngineState,
    pub ignored: Seq<(u64, Seq<char>)>,
}

/// Nothing analysed yet.
pub open spec fn at_start() -> Progress {
    Progress {
        defrag: DefragState { pending: Map::empty(), poisoned: Map::empty(), evidence: seq![] },
        engine: EngineState { trackers: Map::empty(), done: seq![] },
        ignored: seq![],
    }
}

/// The sessions after a transport layer payload; what is not TCP is dropped.
pub open spec fn tcp_taken(
    e: EngineState,
    cfg: SessionConfig,
    src: Ip,
    dst: Ip,
    payload: Seq<u8>,
    f: FrameModel,
) -> EngineState {
    match tcp_segment(payload) {
        None => e,
        Some(seg) => processed(
            e,
            cfg,
            Endpoint { ip: src, port: seg.src_port },
            Endpoint { ip: dst, port: seg.dst_port },
            seg,
            f.ts_ns,
            f.index,
        ),
    }
}

/// What one frame does.
pub open spec fn frame_taken(p: Progress, config: Config, f: FrameModel) -> Progress {
    match frame_packet(f.data) {
        None => Progress {
            ignored: p.ignored.push((f.index, "unparseable or unsupported link/network layer"@)),
            ..p
        },
        Some(PacketModel::Direct { src, dst, proto, payload }) => if proto == PROTO_TCP {
            Progress {
                engine: tcp_taken(p.engine, config.sessions(), src, dst, payload, f),
                ..p
            }
        } else {
            Progress {
                ignored: p.ignored.push((f.index, "non-TCP protocol "@ + dec(proto as nat))),
                ..p
            }
        },
        Some(PacketModel::Fragment(frag)) => {
            let (defrag, out) = handled(p.defrag, config.defrag(), frag, f.index, f.ts_ns);
            match out {
                OutcomeModel::Complete { key, payload, .. } => if key.proto == PROTO_TCP {
                    Progress {
                        defrag,
                        engine: tcp_taken(
                            p.engine,
                            config.sessions(),
                            key.src,
                            key.dst,
                            payload,
                            f,
                        ),
                        ..p
                    }
                } else {
                    Progress {
                        defrag,
                        ignored: p.ignored.push(
                            (f.index, "reassembled non-TCP protocol "@ + dec(key.proto as nat)),
                        ),
                        ..p
                    }
                },
                _ => Progress { defrag, ..p },
            }
        },
    }
}

/// What frames are ordered by.
pub open spec fn frame_keys(frames: Seq<FrameModel>) -> Seq<(u64, u64)> {
    Seq::new(frames.len(), |i: int| (frames[i].ts_ns, frames[i].index))
}

/// What the first `n` frames in the order of time and number do.
pub open spec fn frames_taken(frames: Seq<FrameModel>, config: Config, n: int) -> Progress
    decreases n,
{
    if n <= 0 {
        at_start()
    } else {
        frame_taken(
            frames_taken(frames, config, n - 1),
            config,
            frames[order_of(frame_keys(frames))[n - 1] as int],
        )
    }
}

/// The events of the first `n` sessions.
pub open spec fn events_upto(v: Seq<FinishedSession>, n: int) -> Seq<SessionEvent>
    decreases n,
{
    if n <= 0 {
        seq![]
    } else {
        events_upto(v, n - 1) + v[n - 1].events@
    }
}

/// The entries say which frames were ignored and why.
pub open spec fn ignored_say(v: Seq<IgnoredEvidence>, m: Seq<(u64, Seq<char>)>) -> bool {
    &&& v.len() == m.len()
    &&& forall|i: int|
        0 <= i < v.len() ==> (#[trigger] v[i]).frame == m[i].0 && v[i].reason@ == m[i].1
}

/// The payload files of the sessions: two for each.
pub open spec fn payloads_say(v: Seq<PayloadOut>, m: Seq<DoneModel>) -> bool {
    &&& v.len() == 2 * m.len()
    &&& forall|i: int|
        0 <= i < m.len() ==> (#[trigger] v[2 * i]).file@ == payload_name(i, 0) && v[2 * i].data@
            == m[i].a.payload
    &&& forall|i: int|
        0 <= i < m.len() ==> (#[trigger] v[2 * i + 1]).file@ == payload_name(i, 1) && v[2 * i
            + 1].data@ == m[i].b.payload
}

/// The sessions of a finished analysis.
pub open spec fn finished(p: Progress, ks: Seq<TupleKey>, policy: OverlapPolicy) -> Seq<DoneModel> {
    all_closed(p.engine, ks, ks.len() as int, policy).done
}

impl Analysis {
    /// The documents report the frames, what was ignored, the datagrams and the
    /// sessions of the capture.
    pub open spec fn reports(
        self,
        frames: Seq<FrameModel>,
        config: Config,
        datagrams: Seq<FragKey>,
        tuples: Seq<TupleKey>,
        sessions: Seq<FinishedSession>,
    ) -> bool {
        let p = frames_taken(frames, config, frames.len() as int);
        let done = finished(p, tuples, config.sessions().overlap);
        &&& datagrams.no_duplicates()
        &&& datagrams.to_set() == p.defrag.pending.dom()
        &&& keys_sorted(tuples)
        &&& tuples.to_set() == p.engine.trackers.dom()
        &&& sessions_say(sessions, done)
        &&& self.result.format@ == "session-reassembly-result-v1"@
        &&& self.result.config.agrees(config)
        &&& self.result.frame_count == frames.len()
        &&& self.result.sessions@ == sessions.map_values(|s: FinishedSession| s.result)
        &&& self.result.fingerprint@ == digest_of(
            print_document(config, self.frame_hashes@, self.result.sessions@),
        )
        &&& self.evidence.format@ == "session-reassembly-evidence-v1"@
        &&& self.evidence.config.agrees(config)
        &&& self.evidence.frames@.len() == frames.len()
        &&& forall|i: int|
            0 <= i < frames.len() ==> (#[trigger] self.evidence.frames@[i]).index == frames[i].index
                && self.evidence.frames@[i].ts_ns == frames[i].ts_ns
                && self.evidence.frames@[i].sha256@ == hex_of(
                sha256_of(frames[frames[i].index as int].data),
            )
        &&& ignored_say(self.evidence.ignored@, p.ignored)
        &&& all_say(
            self.evidence.ip_datagrams@,
            flushed(p.defrag, datagrams, datagrams.len() as int),
        )
        &&& self.evidence.session_events@ == events_upto(sessions, sessions.len() as int)
        &&& payloads_say(self.payloads@, done)
        &&& self.frame_hashes@.len() == frames.len()
        &&& forall|i: int|
            0 <= i < frames.len() ==> (#[trigger] self.frame_hashes@[i])@ == hex_of(
                sha256_of(frames[i].data),
            )
    }
}

fn handle_tcp(engine: &mut SessionEngine, src: Ip, dst: Ip, payload: &[u8], frame: &Frame, Ghost(n): Ghost<int>)
    requires
        old(engine).wf(),
        generations_within(old(engine)@, n),
        n < u32::MAX,
        payload@.len() <= 0xffff_ffff,
    ensures
        final(engine).wf(),
        final(engine).config() == old(engine).config(),
        final(engine)@ == tcp_taken(
            old(engine)@,
            old(engine).config(),
            src,
            dst,
            payload@,
            frame@,
        ),
        generations_within(final(engine)@, n + 1),
{
    match parse_tcp(payload) {
        None => {
            assert(generations_within(engine@, n + 1)) by {
                assert forall|k: TupleKey| (#[trigger] engine@.tracker(k)).next_gen <= n + 1 by {}
            }
        },
        Some(seg) => {
            let a = Endpoint { ip: src, port: seg.src_port };
            let b = Endpoint { ip: dst, port: seg.dst_port };
            proof {
                assert(engine@.tracker(normalized(a, b).0).next_gen <= n);
                crate::session::law_one_generation_at_a_time(
                    engine@,
                    engine.config(),
                    a,
                    b,
                    seg@,
                    frame.ts_ns,
                    frame.index,
                    n,
                );
            }
            engine.process(a, b, &seg, frame.ts_ns, frame.index);
        },
    }
}

fn frame_order(frames: &Vec<Frame>) -> (r: Vec<usize>)
    ensures
        r@ == order_of(frame_keys(frame_models(frames@))),
        r@.len() == frames@.len(),
        forall|i: int| 0 <= i < r@.len() ==> (#[trigger] r@[i]) < frames@.len(),
{
    let ghost ms = frame_models(frames@);
    let mut keys: Vec<(u64, u64)> = Vec::new();
    let mut i: usize = 0;
    while i < frames.len()
        invariant
            i <= frames@.len(),
            ms == frame_models(frames@),
            keys@ == frame_keys(ms).take(i as int),
        decreases frames@.len() - i,
    {
        assert(ms[i as int] == frames@[i as int]@);
        keys.push((frames[i].ts_ns, frames[i].index));
        i += 1;
        assert(keys@ =~= frame_keys(ms).take(i as int));
    }
    assert(keys@ =~= frame_keys(ms));
    stable_order(&keys)
}

/// Analyses a capture; every frame's number is a position in it.
#[verifier::rlimit(60)]
pub fn analyze(frames: &Vec<Frame>, config: &Config) -> (r: Analysis)
    requires
        frames@.len() < u32::MAX,
        forall|i: int| 0 <= i < frames@.len() ==> (#[trigger] frames@[i]).index < frames@.len(),
    ensures
        exists|datagrams: Seq<FragKey>, tuples: Seq<TupleKey>, sessions: Seq<FinishedSession>|
            #[trigger] r.reports(
                frame_models(frames@),
                *config,
                datagrams,
                tuples,
                sessions,
            ),
{
    let ghost ms = frame_models(frames@);
    let order = frame_order(frames);
    let mut frame_hashes: Vec<String> = Vec::new();
    let mut i: usize = 0;
    while i < frames.len()
        invariant
            i <= frames@.len(),
            ms == frame_models(frames@),
            frame_hashes@.len() == i,
            forall|k: int|
                0 <= k < i ==> (#[trigger] frame_hashes@[k])@ == hex_of(sha256_of(ms[k].data)),
        decreases frames@.len() - i,
    {
        assert(ms[i as int] == frames@[i as int]@);
        frame_hashes.push(sha256_hex(&frames[i].data));
        i += 1;
    }
    let mut frame_evidence: Vec<FrameEvidence> = Vec::new();
    i = 0;
    while i < frames.len()
        invariant
            i <= frames@.len(),
            ms == frame_models(frames@),
            forall|i: int|
                0 <= i < frames@.len() ==> (#[trigger] frames@[i]).index < frames@.len(),
            frame_hashes@.len() == frames@.len(),
            forall|k: int|
                0 <= k < frames@.len() ==> (#[trigger] frame_hashes@[k])@ == hex_of(
                    sha256_of(ms[k].data),
                ),
            frame_evidence@.len() == i,
            forall|k: int|
                0 <= k < i ==> (#[trigger] frame_evidence@[k]).index == ms[k].index
                    && frame_evidence@[k].ts_ns == ms[k].ts_ns && frame_evidence@[k].sha256@
                    == hex_of(sha256_of(ms[ms[k].index as int].data)),
        decreases frames@.len() - i,
    {
        assert(ms[i as int] == frames@[i as int]@);
        assert(frames@[i as int].index < frames@.len());
        let at: usize = frames[i].index as usize;
        frame_evidence.push(
            FrameEvidence {
                index: frames[i].index,
                ts_ns: frames[i].ts_ns,
                sha256: frame_hashes[at].clone(),
            },
        );
        i += 1;
    }
    let mut defrag = Defragmenter::new(config.defrag_config());
    let mut engine = SessionEngine::new(config.session_config());
    let mut ignored: Vec<IgnoredEvidence> = Vec::new();
    let ghost mut p = at_start();
    i = 0;
    while i < order.len()
        invariant
            i <= order@.len(),
            order@.len() == frames@.len(),
            frames@.len() < u32::MAX,
            ms == frame_models(frames@),
            order@ == order_of(frame_keys(ms)),
            forall|i: int| 0 <= i < order@.len() ==> (#[trigger] order@[i]) < frames@.len(),
            p == frames_taken(ms, *config, i as int),
            defrag.wf(),
            defrag.config() == config.defrag(),
            defrag@ == p.defrag,
            ends_within(p.defrag, 0x1_fffe),
            engine.wf(),
            engine.config() == config.sessions(),
            engine@ == p.engine,
            generations_within(p.engine, i as int),
            ignored_say(ignored@, p.ignored),
        decreases order@.len() - i,
    {
        assert(order@[i as int] < frames@.len());
        let f = &frames[order[i]];
        assert(ms[order@[i as int] as int] == f@);
        let ghost p0 = p;
        let ghost ig0 = ignored@;
        proof {
            p = frame_taken(p0, *config, f@);
            assert forall|k: TupleKey| (#[trigger] p0.engine.tracker(k)).next_gen <= i + 1 by {}
        }
        match parse_frame(&f.data) {
            None => {
                ignored.push(
                    IgnoredEvidence {
                        frame: f.index,
                        reason: "unparseable or unsupported link/network layer".to_string(),
                    },
                );
            },
            Some(NetPacket::Direct { src, dst, proto, payload }) => {
                if proto == PROTO_TCP {
                    handle_tcp(&mut engine, src, dst, payload, f, Ghost(i as int));
                } else {
                    ignored.push(
                        IgnoredEvidence {
                            frame: f.index,
                            reason: cat_dec("non-TCP protocol ", proto as u64),
                        },
                    );
                }
            },
            Some(NetPacket::Fragment(frag)) => {
                proof {
                    crate::ipdefrag::law_ends_within(
                        p0.defrag,
                        config.defrag(),
                        frag@,
                        f.index,
                        f.ts_ns,
                        0x1_fffe,
                    );
                }
                match defrag.handle(&frag, f.index, f.ts_ns) {
                    DefragOutcome::Complete(dg) => {
                        if dg.key.proto == PROTO_TCP {
                            handle_tcp(
                                &mut engine,
                                dg.key.src,
                                dg.key.dst,
                                &dg.payload,
                                f,
                                Ghost(i as int),
                            );
                        } else {
                            ignored.push(
                                IgnoredEvidence {
                                    frame: f.index,
                                    reason: cat_dec(
                                        "reassembled non-TCP protocol ",
                                        dg.key.proto as u64,
                                    ),
                                },
                            );
                        }
                    },
                    DefragOutcome::Buffered => {},
                    DefragOutcome::Isolated(_) => {},
                }
            },
        }
        proof {
            assert forall|k: int| 0 <= k < ignored@.len() implies (#[trigger] ignored@[k]).frame
                == p.ignored[k].0 && ignored@[k].reason@ == p.ignored[k].1 by {
                if k < ig0.len() {
                    assert(ig0[k].frame == p0.ignored[k].0);
                }
            }
        }
        i += 1;
    }
    defrag.finish();
    let ghost dk = choose|ks: Seq<FragKey>|
        ks.no_duplicates() && ks.to_set() == p.defrag.pending.dom() && defrag@.evidence
            == #[trigger] flushed(p.defrag, ks, ks.len() as int);
    let finished_sessions = engine.finish();
    let ghost policy = config.sessions().overlap;
    let ghost tk = choose|ks: Seq<TupleKey>|
        keys_sorted(ks) && ks.to_set() == p.engine.trackers.dom() && sessions_say(
            finished_sessions@,
            (#[trigger] all_closed(p.engine, ks, ks.len() as int, policy)).done,
        );
    let ghost fs = finished_sessions@;
    let ghost done = finished(p, tk, policy);
    let (sessions, session_events, payloads) = split_sessions(finished_sessions, Ghost(done));
    let print = fingerprint(config, &frame_hashes, &sessions);
    let r = Analysis {
        result: ResultDoc {
            format: "session-reassembly-result-v1".to_string(),
            config: config.copy(),
            frame_count: frames.len(),
            sessions,
            fingerprint: print,
        },
        evidence: EvidenceDoc {
            format: "session-reassembly-evidence-v1".to_string(),
            config: config.copy(),
            frames: frame_evidence,
            ignored,
            ip_datagrams: defrag.into_evidence(),
            session_events,
        },
        payloads,
        frame_hashes,
    };
    assert(r.reports(ms, *config, dk, tk, fs));
    r
}

fn file_name(session: usize, dir: u64) -> (s: String)
    ensures
        s@ == payload_name(session as int, dir as int),
{
    let mut s = cat_dec("payload_s", session as u64);
    push_text(&mut s, "_d");
    push_dec(&mut s, dir);
    push_text(&mut s, ".bin");
    s
}

/// Takes finished sessions apart.
fn split_sessions(v: Vec<FinishedSession>, Ghost(done): Ghost<Seq<DoneModel>>) -> (r: (
    Vec<SessionResult>,
    Vec<SessionEvent>,
    Vec<PayloadOut>,
))
    requires
        sessions_say(v@, done),
    ensures
        r.0@ == v@.map_values(|s: FinishedSession| s.result),
        r.1@ == events_upto(v@, v@.len() as int),
        payloads_say(r.2@, done),
{
    let mut sessions: Vec<SessionResult> = Vec::new();
    let mut events: Vec<SessionEvent> = Vec::new();
    let mut payloads: Vec<PayloadOut> = Vec::new();
    let ghost all = v@;
    let n: usize = v.len();
    let mut i: usize = 0;
    for fs in it: v
        invariant
            it.seq() == all,
            n == all.len(),
            i == it.index(),
            sessions_say(all, done),
            sessions@ == all.take(i as int).map_values(|s: FinishedSession| s.result),
            events@ == events_upto(all, i as int),
            payloads_say(payloads@, done.take(i as int)),
    {
        assert(all[i as int] == fs);
        assert(fs.says(i as int, done[i as int]));
        let FinishedSession { result, events: mut ev, payloads: pair } = fs;
        let a = crate::bytes::copy_bytes(&pair[0]);
        let b = crate::bytes::copy_bytes(&pair[1]);
        let ghost p0 = payloads@;
        payloads.push(PayloadOut { file: file_name(result.id, 0), data: a });
        payloads.push(PayloadOut { file: file_name(result.id, 1), data: b });
        sessions.push(result);
        events.append(&mut ev);
        i += 1;
        proof {
            assert(sessions@ =~= all.take(i as int).map_values(|s: FinishedSession| s.result));
            let m = done.take(i as int);
            assert forall|k: int| 0 <= k < m.len() implies (#[trigger] payloads@[2 * k]).file@
                == payload_name(k, 0) && payloads@[2 * k].data@ == m[k].a.payload by {
                if k < i - 1 {
                    assert(p0[2 * k].file@ == payload_name(k, 0));
                }
            }
            assert forall|k: int| 0 <= k < m.len() implies (#[trigger] payloads@[2 * k + 1]).file@
                == payload_name(k, 1) && payloads@[2 * k + 1].data@ == m[k].b.payload by {
                if k < i - 1 {
                    assert(p0[2 * k + 1].file@ == payload_name(k, 1));
                }
            }
        }
    }
    assert(all.take(i as int) =~= all);
    assert(done.take(i as int) =~= done);
    (sessions, events, payloads)
}

proof fn lemma_direction_document(a: DirectionResult, b: DirectionResult, m: DirModel, file: Seq<char>)
    requires
        a.says(m, file),
        b.says(m, file),
    ensures
        a.document() == b.document(),
{
    let x = Seq::new(a.overlaps@.len(), |i: int| a.overlaps@[i].document());
    let y = Seq::new(b.overlaps@.len(), |i: int| b.overlaps@[i].document());
    assert forall|i: int| 0 <= i < x.len() implies x[i] == y[i] by {
        assert(a.overlaps@[i].says(m.overlaps[i]));
        assert(b.overlaps@[i].says(m.overlaps[i]));
    }
    assert(x =~= y);
}

proof fn lemma_session_document(a: FinishedSession, b: FinishedSession, id: int, m: DoneModel)
    requires
        a.says(id, m),
        b.says(id, m),
    ensures
        a.result.document() == b.result.document(),
{
    let da = a.result.directions@;
    let db = b.result.directions@;
    lemma_direction_document(da[0], db[0], m.a, payload_name(id, 0));
    lemma_direction_document(da[1], db[1], m.b, payload_name(id, 1));
    let x = Seq::new(da.len(), |i: int| da[i].document());
    let y = Seq::new(db.len(), |i: int| db[i].document());
    assert forall|i: int| 0 <= i < x.len() implies x[i] == y[i] by {
        assert(i == 0 || i == 1);
    }
    assert(x =~= y);
}

proof fn lemma_one_order(a: Seq<TupleKey>, b: Seq<TupleKey>)
    requires
        keys_sorted(a),
        keys_sorted(b),
        a.to_set() == b.to_set(),
    ensures
        a == b,
{
    let lt = |x: TupleKey, y: TupleKey| key_before(x, y);
    assert forall|x: TupleKey| #[trigger] a.contains(x) <==> b.contains(x) by {
        assert(a.contains(x) <==> a.to_set().contains(x));
        assert(b.contains(x) <==> b.to_set().contains(x));
    }
    lemma_one_list(a, b, lt);
}

/// The frames of a capture and the configuration determine the fingerprint of its
/// analysis, whenever and however often it is made.
pub proof fn law_fingerprint_is_determined(
    frames: Seq<FrameModel>,
    config: Config,
    first: (Analysis, Seq<FragKey>, Seq<TupleKey>, Seq<FinishedSession>),
    second: (Analysis, Seq<FragKey>, Seq<TupleKey>, Seq<FinishedSession>),
)
    requires
        first.0.reports(frames, config, first.1, first.2, first.3),
        second.0.reports(frames, config, second.1, second.2, second.3),
    ensures
        first.0.result.fingerprint@ == second.0.result.fingerprint@,
{
    let p = frames_taken(frames, config, frames.len() as int);
    lemma_one_order(first.2, second.2);
    let done = finished(p, first.2, config.sessions().overlap);
    let (a, b) = (first.0, second.0);
    let x = Seq::new(a.result.sessions@.len(), |i: int| a.result.sessions@[i].document());
    let y = Seq::new(b.result.sessions@.len(), |i: int| b.result.sessions@[i].document());
    assert forall|i: int| 0 <= i < x.len() implies x[i] == y[i] by {
        assert(first.3[i].says(i, done[i]));
        assert(second.3[i].says(i, done[i]));
        lemma_session_document(first.3[i], second.3[i], i, done[i]);
        assert(a.result.sessions@[i] == first.3[i].result);
        assert(b.result.sessions@[i] == second.3[i].result);
    }
    assert(x =~= y);
    let u = Seq::new(a.frame_hashes@.len(), |i: int| a.frame_hashes@[i].document());
    let v = Seq::new(b.frame_hashes@.len(), |i: int| b.frame_hashes@[i].document());
    assert forall|i: int| 0 <= i < u.len() implies u[i] == v[i] by {
        assert(a.frame_hashes@[i]@ == b.frame_hashes@[i]@);
    }
    assert(u =~= v);
}

/// A fingerprint tells inputs apart: the texts that two are taken of differ where a
/// setting, the digest of a frame or a session differs.
pub proof fn law_other_input_other_print(
    first: (Config, Seq<String>, Seq<SessionResult>),
    second: (Config, Seq<String>, Seq<SessionResult>),
)
    requires
        settings_of(first.0) != settings_of(second.0) || views(first.1) != views(second.1)
            || listed(first.2) != listed(second.2),
    ensures
        serial(print_document(first.0, first.1, first.2)) != serial(
            print_document(second.0, second.1, second.2),
        ),
{
    let a = print_document(first.0, first.1, first.2);
    let b = print_document(second.0, second.1, second.2);
    lemma_config_plain(first.0, second.0);
    lemma_config_plain(second.0, first.0);
    lemma_texts_plain(first.1, second.1);
    lemma_texts_plain(second.1, first.1);
    lemma_sessions_plain(first.2);
    lemma_sessions_plain(second.2);
    if serial(a) == serial(b) {
        law_serial_apart(a, b);
        let (x, y) = (a->Obj_0, b->Obj_0);
        assert(x[0] == y[0] && x[1] == y[1] && x[2] == y[2]);
    }
}

} // verus!
