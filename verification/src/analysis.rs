//! Evidence of an analysis: from tracked sessions to what is told of them, with the
//! order of frames and the digests that name inputs and results.

use vstd::prelude::*;
use vstd::utf8::encode_utf8;
use crate::analyze::digest_of;
use crate::document::Document;
use crate::hash::{sha256_hex, sha256_of};
use crate::json::{plain, Json};
use crate::serial::{law_serial_apart, serial, to_serial};
use crate::session::{Endpoint, OverlapPolicy};
use crate::sorting::{goes_before, is_order, law_order, order_of, stable_order};
use crate::text::{cat, dec, dec_int, hex_of, push_dec, push_dec_i64, push_text};

verus! {

/// How an analysis is done.
#[derive(Clone, Debug, PartialEq, Eq)]
pub struct Policy {
    pub overlap: OverlapPolicy,
    pub timeout_ns: i64,
    pub frag_per_datagram_budget: usize,
    pub frag_total_budget: usize,
}

impl Default for Policy {
    fn default() -> (r: Self)
        ensures
            r.overlap == OverlapPolicy::FirstSeen,
            r.timeout_ns == 120_000_000_000,
            r.frag_per_datagram_budget == 65536,
            r.frag_total_budget == 4194304,
    {
        Policy {
            overlap: OverlapPolicy::FirstSeen,
            timeout_ns: 120_000_000_000,
            frag_per_datagram_budget: 65536,
            frag_total_budget: 4194304,
        }
    }
}

/// How the payload of a segment lies among those before it.
#[derive(Clone, Copy, Debug, PartialEq, Eq, Structural)]
pub enum SegKind {
    Normal,
    Retransmit,
    OutOfOrder,
    Overlap,
}

/// A captured frame.
#[derive(Clone, Debug)]
pub struct Frame {
    pub index: u32,
    pub ts_ns: i64,
    pub data: Vec<u8>,
}

/// A segment as it was tracked; `start` is where it lies in the stream.
#[derive(Clone, Debug)]
pub struct TrackedSegment {
    pub frame: u32,
    pub ts_ns: i64,
    pub seq: u32,
    pub start: i64,
    pub len: u32,
    pub flags: String,
}

/// One direction of a session as it was tracked and reassembled.
#[derive(Debug)]
pub struct TrackedDirection {
    pub isn: Option<u32>,
    pub base: Option<u32>,
    pub segments: Vec<TrackedSegment>,
    /// How the payload of a frame lay, for each frame that carried payload.
    pub events: Vec<(u32, SegKind)>,
    pub coverage: Vec<(i64, i64)>,
    pub gaps: Vec<(i64, i64)>,
    pub overwritten: Vec<Json>,
    /// The bytes without a gap from the start on.
    pub bytes: Vec<u8>,
}

/// A session as it was tracked.
#[derive(Debug)]
pub struct TrackedSession {
    pub id: usize,
    pub generation: u32,
    pub partial: bool,
    /// Why it was closed, if it was.
    pub closed: Option<String>,
    pub endpoints: (Endpoint, Endpoint),
    pub first_ts_ns: i64,
    pub last_ts_ns: i64,
    pub dirs: Vec<TrackedDirection>,
    pub post_close: Vec<Json>,
}

#[derive(Clone, Debug)]
pub struct SegEvidence {
    pub frame: u32,
    pub ts_ns: i64,
    pub seq: u32,
    pub start: i64,
    pub end: i64,
    pub len: usize,
    pub flags: String,
    /// Only where the segment carries payload.
    pub kind: Option<SegKind>,
}

#[derive(Debug)]
pub struct DirEvidence {
    pub name: String,
    pub isn: Option<u32>,
    pub base: Option<u32>,
    pub segments: Vec<SegEvidence>,
    pub coverage: Vec<(i64, i64)>,
    pub gaps: Vec<(i64, i64)>,
    pub overwritten: Vec<Json>,
    pub retransmissions: usize,
    pub out_of_order: usize,
    pub overlaps: usize,
    pub reassembled_len: usize,
    pub reassembled_sha256: String,
}

#[derive(Debug)]
pub struct SessionEvidence {
    pub id: usize,
    pub generation: u32,
    pub partial: bool,
    pub state: String,
    pub endpoints: (Endpoint, Endpoint),
    pub first_ts_ns: i64,
    pub last_ts_ns: i64,
    pub directions: Vec<DirEvidence>,
    pub post_close: Vec<Json>,
}

#[derive(Debug)]
pub struct Evidence {
    pub input_hash: String,
    pub policy: Policy,
    pub sessions: Vec<SessionEvidence>,
    pub isolated_datagrams: Vec<Json>,
}

/// The bytes of one direction of a session.
#[derive(Clone, Debug)]
pub struct ReassembledOutput {
    pub session: usize,
    pub dir: usize,
    pub bytes: Vec<u8>,
}

/// An analysis. The digest of its evidence names it.
#[derive(Debug)]
pub struct Analysis {
    pub evidence: Evidence,
    pub fingerprint: String,
    pub reassembled: Vec<ReassembledOutput>,
}

/// A signed time as a key with the same order.
pub open spec fn time_key(ts: i64) -> u64 {
    (ts + 0x8000_0000_0000_0000) as u64
}

/// The keys by which frames are ordered.
pub open spec fn frame_keys(fs: Seq<Frame>) -> Seq<(u64, u64)> {
    Seq::new(fs.len(), |i: int| (time_key(fs[i].ts_ns), fs[i].index as u64))
}

/// The order in which frames are analysed: by time, and by number where the times
/// are equal.
pub fn frame_order(frames: &Vec<Frame>) -> (r: Vec<usize>)
    ensures
        r@ == order_of(frame_keys(frames@)),
        is_order(frame_keys(frames@), frames@.len() as int, r@),
{
    let mut keys: Vec<(u64, u64)> = Vec::new();
    let mut i: usize = 0;
    while i < frames.len()
        invariant
            i <= frames@.len(),
            keys@ == frame_keys(frames@).take(i as int),
        decreases frames@.len() - i,
    {
        let t: u64 = (frames[i].ts_ns as i128 + 0x8000_0000_0000_0000) as u64;
        keys.push((t, frames[i].index as u64));
        i += 1;
        assert(keys@ =~= frame_keys(frames@).take(i as int));
    }
    assert(keys@ =~= frame_keys(frames@));
    stable_order(&keys)
}

/// Frames are analysed in the order of their times; where the times are equal, in that
/// of their numbers.
pub proof fn law_frames_in_order(fs: Seq<Frame>, i: int, j: int)
    requires
        fs.len() <= usize::MAX,
        0 <= i < j < fs.len(),
    ensures
        ({
            let o = order_of(frame_keys(fs));
            let a = fs[o[i] as int];
            let b = fs[o[j] as int];
            a.ts_ns < b.ts_ns || (a.ts_ns == b.ts_ns && a.index <= b.index)
        }),
{
    let keys = frame_keys(fs);
    law_order(keys, fs.len() as int);
    let o = order_of(keys);
    assert(goes_before(keys, o[i], o[j]));
    assert(o[i] < fs.len() && o[j] < fs.len());
}

/// How many events are of a kind.
pub open spec fn count(ev: Seq<(u32, SegKind)>, kind: SegKind) -> nat
    decreases ev.len(),
{
    if ev.len() == 0 {
        0
    } else {
        count(ev.drop_last(), kind) + (if ev.last().1 == kind {
            1nat
        } else {
            0
        })
    }
}

fn tally(ev: &Vec<(u32, SegKind)>, kind: SegKind) -> (r: usize)
    ensures
        r == count(ev@, kind),
{
    let mut n: usize = 0;
    let mut i: usize = 0;
    assert(ev@.take(0) =~= seq![]);
    while i < ev.len()
        invariant
            i <= ev@.len(),
            n <= i,
            n == count(ev@.take(i as int), kind),
        decreases ev@.len() - i,
    {
        assert(ev@.take(i + 1).drop_last() =~= ev@.take(i as int));
        if ev[i].1 == kind {
            n += 1;
        }
        i += 1;
    }
    assert(ev@.take(i as int) =~= ev@);
    n
}

/// The kind of the first of the events from `i` on that is of a frame.
pub open spec fn kind_from(ev: Seq<(u32, SegKind)>, frame: u32, i: int) -> Option<SegKind>
    decreases ev.len() - i,
{
    if i < 0 || i >= ev.len() {
        None
    } else if ev[i].0 == frame {
        Some(ev[i].1)
    } else {
        kind_from(ev, frame, i + 1)
    }
}

fn kind_of(ev: &Vec<(u32, SegKind)>, frame: u32) -> (r: Option<SegKind>)
    ensures
        r == kind_from(ev@, frame, 0),
{
    let mut i: usize = 0;
    while i < ev.len()
        invariant
            i <= ev@.len(),
            kind_from(ev@, frame, 0) == kind_from(ev@, frame, i as int),
        decreases ev@.len() - i,
    {
        if ev[i].0 == frame {
            return Some(ev[i].1);
        }
        i += 1;
    }
    None
}

/// What is told of a segment.
pub open spec fn tells_segment(e: SegEvidence, s: TrackedSegment, ev: Seq<(u32, SegKind)>) -> bool {
    &&& e.frame == s.frame
    &&& e.ts_ns == s.ts_ns
    &&& e.seq == s.seq
    &&& e.start == s.start
    &&& e.end == s.start + s.len
    &&& e.len == s.len
    &&& e.flags@ == s.flags@
    &&& e.kind == kind_from(ev, s.frame, 0)
}

/// Segments that lie where a stream can have bytes.
pub open spec fn placed(s: Seq<TrackedSegment>) -> bool {
    forall|i: int| 0 <= i < s.len() ==> (#[trigger] s[i]).start + s[i].len <= i64::MAX
}

/// What is told of a direction.
pub open spec fn tells_direction(e: DirEvidence, d: TrackedDirection, n: int) -> bool {
    &&& e.name@ == (if n == 0 {
        "a->b"@
    } else {
        "b->a"@
    })
    &&& e.isn == d.isn
    &&& e.base == d.base
    &&& e.segments@.len() == d.segments@.len()
    &&& forall|i: int|
        0 <= i < d.segments@.len() ==> tells_segment(
            #[trigger] e.segments@[i],
            d.segments@[i],
            d.events@,
        )
    &&& e.coverage == d.coverage
    &&& e.gaps == d.gaps
    &&& e.overwritten == d.overwritten
    &&& e.retransmissions == count(d.events@, SegKind::Retransmit)
    &&& e.out_of_order == count(d.events@, SegKind::OutOfOrder)
    &&& e.overlaps == count(d.events@, SegKind::Overlap)
    &&& e.reassembled_len == d.bytes@.len()
    &&& e.reassembled_sha256@ == hex_of(sha256_of(d.bytes@))
}

fn segment_evidence(d: &TrackedDirection) -> (r: Vec<SegEvidence>)
    requires
        placed(d.segments@),
    ensures
        r@.len() == d.segments@.len(),
        forall|i: int|
            0 <= i < r@.len() ==> tells_segment(#[trigger] r@[i], d.segments@[i], d.events@),
{
    let mut r: Vec<SegEvidence> = Vec::new();
    let mut i: usize = 0;
    while i < d.segments.len()
        invariant
            i <= d.segments@.len(),
            placed(d.segments@),
            r@.len() == i,
            forall|j: int|
                0 <= j < r@.len() ==> tells_segment(#[trigger] r@[j], d.segments@[j], d.events@),
        decreases d.segments@.len() - i,
    {
        let s = &d.segments[i];
        assert(d.segments@[i as int].start + d.segments@[i as int].len <= i64::MAX);
        r.push(
            SegEvidence {
                frame: s.frame,
                ts_ns: s.ts_ns,
                seq: s.seq,
                start: s.start,
                end: s.start + s.len as i64,
                len: s.len as usize,
                flags: s.flags.clone(),
                kind: kind_of(&d.events, s.frame),
            },
        );
        i += 1;
    }
    r
}

/// Tells of a direction, and hands its bytes on.
pub fn direction_evidence(d: TrackedDirection, n: usize) -> (r: (DirEvidence, Vec<u8>))
    requires
        placed(d.segments@),
    ensures
        tells_direction(r.0, d, n as int),
        r.1 == d.bytes,
{
    let segments = segment_evidence(&d);
    let retransmissions = tally(&d.events, SegKind::Retransmit);
    let out_of_order = tally(&d.events, SegKind::OutOfOrder);
    let overlaps = tally(&d.events, SegKind::Overlap);
    let name = if n == 0 {
        "a->b".to_string()
    } else {
        "b->a".to_string()
    };
    let reassembled_sha256 = sha256_hex(d.bytes.as_slice());
    let reassembled_len: usize = d.bytes.len();
    (
        DirEvidence {
            name,
            isn: d.isn,
            base: d.base,
            segments,
            coverage: d.coverage,
            gaps: d.gaps,
            overwritten: d.overwritten,
            retransmissions,
            out_of_order,
            overlaps,
            reassembled_len,
            reassembled_sha256,
        },
        d.bytes,
    )
}

/// The state of a session in words.
pub open spec fn state_text(closed: Option<String>) -> Seq<char> {
    match closed {
        Some(reason) => "closed:"@ + reason@,
        None => "open"@,
    }
}

/// Sessions whose segments lie where a stream can have bytes.
pub open spec fn all_placed(s: TrackedSession) -> bool {
    forall|i: int| 0 <= i < s.dirs@.len() ==> placed((#[trigger] s.dirs@[i]).segments@)
}

/// What is told of a session.
pub open spec fn tells_session(e: SessionEvidence, s: TrackedSession) -> bool {
    &&& e.id == s.id
    &&& e.generation == s.generation
    &&& e.partial == s.partial
    &&& e.state@ == state_text(s.closed)
    &&& e.endpoints == s.endpoints
    &&& e.first_ts_ns == s.first_ts_ns
    &&& e.last_ts_ns == s.last_ts_ns
    &&& e.directions@.len() == s.dirs@.len()
    &&& forall|i: int|
        0 <= i < s.dirs@.len() ==> tells_direction(#[trigger] e.directions@[i], s.dirs@[i], i)
    &&& e.post_close == s.post_close
}

/// The bytes of a direction, as they are handed out.
pub open spec fn output_of(s: TrackedSession, d: int) -> (int, int, Seq<u8>) {
    (s.id as int, d, s.dirs@[d].bytes@)
}

/// The bytes of the directions of a session.
pub open spec fn outputs_of(s: TrackedSession) -> Seq<(int, int, Seq<u8>)> {
    Seq::new(s.dirs@.len(), |d: int| output_of(s, d))
}

/// What outputs are.
pub open spec fn output_views(v: Seq<ReassembledOutput>) -> Seq<(int, int, Seq<u8>)> {
    v.map_values(|o: ReassembledOutput| (o.session as int, o.dir as int, o.bytes@))
}

/// Tells of a session, and adds the bytes of its directions to those handed out.
pub fn session_evidence(s: TrackedSession, out: &mut Vec<ReassembledOutput>) -> (r: SessionEvidence)
    requires
        all_placed(s),
    ensures
        tells_session(r, s),
        output_views(final(out)@) == output_views(old(out)@) + outputs_of(s),
{
    let ghost whole = s;
    let ghost before = output_views(out@);
    let state = match &s.closed {
        Some(reason) => cat("closed:", reason.as_str()),
        None => "open".to_string(),
    };
    let id: usize = s.id;
    let ghost ds = s.dirs@;
    let total: usize = s.dirs.len();
    let mut directions: Vec<DirEvidence> = Vec::new();
    let mut n: usize = 0;
    assert(outputs_of(whole).take(0) =~= seq![]);
    assert(output_views(out@) =~= before + outputs_of(whole).take(0));
    for d in it: s.dirs
        invariant
            it.seq() == ds,
            ds == whole.dirs@,
            n == it.index(),
            id == whole.id,
            all_placed(whole),
            directions@.len() == n,
            ds.len() == total,
            forall|i: int|
                0 <= i < n ==> tells_direction(#[trigger] directions@[i], ds[i], i),
            output_views(out@) == before + outputs_of(whole).take(n as int),
    {
        let ghost prior = out@;
        assert(d == ds[n as int]);
        assert(placed(whole.dirs@[n as int].segments@));
        let (e, bytes) = direction_evidence(d, n);
        directions.push(e);
        out.push(ReassembledOutput { session: id, dir: n, bytes });
        assert(output_views(out@) =~= output_views(prior).push(output_of(whole, n as int)));
        assert(outputs_of(whole).take(n + 1) =~= outputs_of(whole).take(n as int).push(
            output_of(whole, n as int),
        ));
        n += 1;
        assert(output_views(out@) =~= before + outputs_of(whole).take(n as int));
    }
    assert(outputs_of(whole).take(n as int) =~= outputs_of(whole));
    SessionEvidence {
        id,
        generation: s.generation,
        partial: s.partial,
        state,
        endpoints: s.endpoints,
        first_ts_ns: s.first_ts_ns,
        last_ts_ns: s.last_ts_ns,
        directions,
        post_close: s.post_close,
    }
}

/// The bytes of all directions of the first `n` sessions, in their order.
pub open spec fn outputs_upto(ss: Seq<TrackedSession>, n: int) -> Seq<(int, int, Seq<u8>)>
    decreases n,
{
    if n <= 0 {
        seq![]
    } else {
        outputs_upto(ss, n - 1) + outputs_of(ss[n - 1])
    }
}

/// The digest that names an analysis: that of the text of its evidence.
pub fn fingerprint(evidence: &Evidence) -> (r: String)
    ensures
        r@ == digest_of(evidence.document()),
{
    let text = to_serial(&evidence.to_document());
    sha256_hex(text.as_str().as_bytes())
}

/// Tells of all tracked sessions, and hands the bytes of their directions out.
pub fn analyze(
    sessions: Vec<TrackedSession>,
    input_hash: &str,
    policy: Policy,
    isolated: Vec<Json>,
) -> (r: Analysis)
    requires
        forall|i: int| 0 <= i < sessions@.len() ==> all_placed(#[trigger] sessions@[i]),
    ensures
        r.evidence.input_hash@ == input_hash@,
        r.evidence.policy == policy,
        r.evidence.isolated_datagrams == isolated,
        r.evidence.sessions@.len() == sessions@.len(),
        forall|i: int|
            0 <= i < sessions@.len() ==> tells_session(
                #[trigger] r.evidence.sessions@[i],
                sessions@[i],
            ),
        output_views(r.reassembled@) == outputs_upto(sessions@, sessions@.len() as int),
        r.fingerprint@ == digest_of(r.evidence.document()),
{
    let ghost ss = sessions@;
    let mut out: Vec<SessionEvidence> = Vec::new();
    let mut reassembled: Vec<ReassembledOutput> = Vec::new();
    assert(output_views(reassembled@) =~= outputs_upto(ss, 0));
    for s in it: sessions
        invariant
            it.seq() == ss,
            out@.len() == it.index(),
            forall|i: int| 0 <= i < ss.len() ==> all_placed(#[trigger] ss[i]),
            forall|i: int| 0 <= i < out@.len() ==> tells_session(#[trigger] out@[i], ss[i]),
            output_views(reassembled@) == outputs_upto(ss, it.index() as int),
    {
        let e = session_evidence(s, &mut reassembled);
        out.push(e);
    }
    let evidence = Evidence {
        input_hash: input_hash.to_string(),
        policy,
        sessions: out,
        isolated_datagrams: isolated,
    };
    let print = fingerprint(&evidence);
    Analysis { evidence, fingerprint: print, reassembled }
}

/// A line for each of the first `n` frames: its number, its time and its digest.
pub open spec fn input_text(fs: Seq<Frame>, n: int) -> Seq<char>
    decreases n,
{
    if n <= 0 {
        seq![]
    } else {
        input_text(fs, n - 1) + dec(fs[n - 1].index as nat) + ":"@ + dec_int(
            fs[n - 1].ts_ns as int,
        ) + ":"@ + hex_of(sha256_of(fs[n - 1].data@)) + "\n"@
    }
}

/// The digest that names an input. It depends on the numbers, times and bytes of the
/// frames alone.
pub fn input_hash(frames: &Vec<Frame>) -> (r: String)
    ensures
        r@ == hex_of(sha256_of(encode_utf8(input_text(frames@, frames@.len() as int)))),
{
    let mut t = String::new();
    let mut i: usize = 0;
    assert(t@ =~= seq![]);
    while i < frames.len()
        invariant
            i <= frames@.len(),
            t@ == input_text(frames@, i as int),
        decreases frames@.len() - i,
    {
        let f = &frames[i];
        let sha = sha256_hex(f.data.as_slice());
        push_dec(&mut t, f.index as u64);
        push_text(&mut t, ":");
        push_dec_i64(&mut t, f.ts_ns);
        push_text(&mut t, ":");
        push_text(&mut t, sha.as_str());
        push_text(&mut t, "\n");
        i += 1;
    }
    sha256_hex(t.as_str().as_bytes())
}

/// The bytes handed out for a direction are those that its evidence has the length
/// and the digest of.
pub proof fn law_outputs_match_evidence(e: SessionEvidence, s: TrackedSession, d: int)
    requires
        tells_session(e, s),
        0 <= d < s.dirs@.len(),
    ensures
        e.directions@[d].reassembled_len == output_of(s, d).2.len(),
        e.directions@[d].reassembled_sha256@ == hex_of(sha256_of(output_of(s, d).2)),
{
    assert(tells_direction(e.directions@[d], s.dirs@[d], d));
}

proof fn lemma_direction_document(a: DirEvidence, b: DirEvidence, d: TrackedDirection, n: int)
    requires
        tells_direction(a, d, n),
        tells_direction(b, d, n),
    ensures
        a.document() == b.document(),
{
    let x = Seq::new(a.segments@.len(), |i: int| a.segments@[i].document());
    let y = Seq::new(b.segments@.len(), |i: int| b.segments@[i].document());
    assert forall|i: int| 0 <= i < x.len() implies x[i] == y[i] by {
        assert(tells_segment(a.segments@[i], d.segments@[i], d.events@));
        assert(tells_segment(b.segments@[i], d.segments@[i], d.events@));
    }
    assert(x =~= y);
}

proof fn lemma_session_document(a: SessionEvidence, b: SessionEvidence, s: TrackedSession)
    requires
        tells_session(a, s),
        tells_session(b, s),
    ensures
        a.document() == b.document(),
{
    let x = Seq::new(a.directions@.len(), |i: int| a.directions@[i].document());
    let y = Seq::new(b.directions@.len(), |i: int| b.directions@[i].document());
    assert forall|i: int| 0 <= i < x.len() implies x[i] == y[i] by {
        assert(tells_direction(a.directions@[i], s.dirs@[i], i));
        assert(tells_direction(b.directions@[i], s.dirs@[i], i));
        lemma_direction_document(a.directions@[i], b.directions@[i], s.dirs@[i], i);
    }
    assert(x =~= y);
}

/// The same input under the same policy has the same fingerprint: evidence that tells of
/// the same sessions, input, policy and isolated datagrams has one digest.
pub proof fn law_fingerprint_is_determined(a: Evidence, b: Evidence, sessions: Seq<TrackedSession>)
    requires
        a.input_hash@ == b.input_hash@,
        a.policy == b.policy,
        a.isolated_datagrams == b.isolated_datagrams,
        a.sessions@.len() == sessions.len(),
        b.sessions@.len() == sessions.len(),
        forall|i: int|
            0 <= i < sessions.len() ==> tells_session(#[trigger] a.sessions@[i], sessions[i]),
        forall|i: int|
            0 <= i < sessions.len() ==> tells_session(#[trigger] b.sessions@[i], sessions[i]),
    ensures
        digest_of(a.document()) == digest_of(b.document()),
{
    let x = Seq::new(a.sessions@.len(), |i: int| a.sessions@[i].document());
    let y = Seq::new(b.sessions@.len(), |i: int| b.sessions@[i].document());
    assert forall|i: int| 0 <= i < x.len() implies x[i] == y[i] by {
        assert(tells_session(a.sessions@[i], sessions[i]));
        assert(tells_session(b.sessions@[i], sessions[i]));
        lemma_session_document(a.sessions@[i], b.sessions@[i], sessions[i]);
    }
    assert(x =~= y);
}

/// Another policy or another input makes another analysis: the texts of their evidence
/// differ. The values that are held as JSON have their numbers in the form in which they
/// are read.
pub proof fn law_other_policy_other_print(a: Evidence, b: Evidence)
    requires
        plain(a.document()),
        plain(b.document()),
        a.policy != b.policy || a.input_hash@ != b.input_hash@,
    ensures
        serial(a.document()) != serial(b.document()),
{
    if serial(a.document()) == serial(b.document()) {
        law_serial_apart(a.document(), b.document());
        let (x, y) = (a.document()->Obj_0, b.document()->Obj_0);
        assert(x[0] == y[0] && x[1] == y[1]);
        let (p, q) = (a.policy.document()->Obj_0, b.policy.document()->Obj_0);
        assert(p[0] == q[0] && p[1] == q[1] && p[2] == q[2] && p[3] == q[3]);
        reveal_strlit("first_seen");
        reveal_strlit("last_seen");
        assert(a.policy.overlap.name().len() == b.policy.overlap.name().len());
        assert(a.policy.overlap == b.policy.overlap);
        assert(a.policy == b.policy);
    }
}

} // verus!
