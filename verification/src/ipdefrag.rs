//! Defragmentation with evidence: a datagram is reassembled, or isolated with
//! the reason why, and what happens to one datagram affects no other.

use vstd::prelude::*;
use crate::bytes::{copy_bytes, copy_numbers};
use crate::cover::{
    any_meets, assemble, assembled, bounded, covers, covers_all, disjoint, greatest_end, max_end,
    meets_any, models, Piece, PieceModel,
};
use crate::packet::{FragModel, FragRef};
use crate::table::{Key, Table};
use crate::text::push_text;
use crate::types::Ip;

verus! {

#[derive(Clone, Copy, Debug)]
pub struct DefragConfig {
    /// Maximum reassembled datagram size in bytes.
    pub max_datagram_bytes: usize,
    /// Maximum number of fragments per datagram.
    pub max_fragments: usize,
    /// Fragments spanning more than this many ns are isolated.
    pub timeout_ns: u64,
}

impl Default for DefragConfig {
    fn default() -> (r: Self)
        ensures
            r.max_datagram_bytes == 256 * 1024,
            r.max_fragments == 64,
            r.timeout_ns == 30_000_000_000,
    {
        DefragConfig {
            max_datagram_bytes: 256 * 1024,
            max_fragments: 64,
            timeout_ns: 30_000_000_000,
        }
    }
}

#[derive(Clone, Copy, Debug, PartialEq, Eq, Hash)]
pub struct FragKey {
    pub src: Ip,
    pub dst: Ip,
    pub proto: u8,
    pub ident: u32,
}

impl Key for FragKey {
    fn same(&self, other: &Self) -> (r: bool) {
        self.proto == other.proto && self.ident == other.ident && self.src.same(&other.src)
            && self.dst.same(&other.dst)
    }
}

#[derive(Clone, Debug)]
pub struct OwnedDatagram {
    pub key: FragKey,
    pub payload: Vec<u8>,
    pub frames: Vec<u64>,
}

#[derive(Clone, Debug)]
pub struct DatagramEvidence {
    pub src: String,
    pub dst: String,
    pub proto: u8,
    pub ident: u32,
    pub status: String,
    pub reason: String,
    pub frames: Vec<u64>,
}

/// What an entry of evidence says.
pub struct EvidenceModel {
    pub key: FragKey,
    pub status: Seq<char>,
    pub reason: Seq<char>,
    pub frames: Seq<u64>,
}

impl DatagramEvidence {
    /// The entry says what the model says.
    pub open spec fn says(self, m: EvidenceModel) -> bool {
        &&& self.src@ == m.key.src.mixed_text()
        &&& self.dst@ == m.key.dst.mixed_text()
        &&& self.proto == m.key.proto
        &&& self.ident == m.key.ident
        &&& self.status@ == m.status
        &&& self.reason@ == m.reason
        &&& self.frames@ == m.frames
    }
}

pub enum DefragOutcome {
    /// Fragment buffered; datagram not complete yet.
    Buffered,
    /// Datagram reassembled; the payload is the transport layer bytes.
    Complete(OwnedDatagram),
    /// Datagram isolated; it does not reach any session.
    Isolated(DatagramEvidence),
}

/// What handling a fragment yields.
pub enum OutcomeModel {
    Buffered,
    Complete { key: FragKey, payload: Seq<u8>, frames: Seq<u64> },
    Isolated(EvidenceModel),
}

impl DefragOutcome {
    /// The outcome is the modelled one.
    pub open spec fn is(self, m: OutcomeModel) -> bool {
        match (self, m) {
            (DefragOutcome::Buffered, OutcomeModel::Buffered) => true,
            (DefragOutcome::Complete(d), OutcomeModel::Complete { key, payload, frames }) => {
                &&& d.key == key
                &&& d.payload@ == payload
                &&& d.frames@ == frames
            },
            (DefragOutcome::Isolated(e), OutcomeModel::Isolated(m)) => e.says(m),
            _ => false,
        }
    }
}

struct Datagram {
    pieces: Vec<Piece>,
    total: Option<usize>,
    first_ts: u64,
    frames: Vec<u64>,
}

/// The fragments of a datagram so far, and the end that the last fragment set.
pub struct DatagramModel {
    pub pieces: Seq<PieceModel>,
    pub total: Option<int>,
    pub first_ts: u64,
    pub frames: Seq<u64>,
}

impl View for Datagram {
    type V = DatagramModel;

    closed spec fn view(&self) -> DatagramModel {
        DatagramModel {
            pieces: models(self.pieces@),
            total: match self.total {
                Some(t) => Some(t as int),
                None => None,
            },
            first_ts: self.first_ts,
            frames: self.frames@,
        }
    }
}

impl DatagramModel {
    /// A datagram without fragments.
    pub open spec fn empty(ts: u64) -> DatagramModel {
        DatagramModel { pieces: seq![], total: None, first_ts: ts, frames: seq![] }
    }

    /// No two fragments meet, and all ends fit.
    pub open spec fn wf(self) -> bool {
        bounded(self.pieces) && disjoint(self.pieces)
    }

    /// The datagram with one fragment more.
    pub open spec fn with(self, f: FragModel, frame: u64) -> DatagramModel {
        DatagramModel {
            pieces: self.pieces.push(PieceModel { offset: f.offset, data: f.payload }),
            total: if f.more {
                self.total
            } else {
                Some(f.offset + f.payload.len())
            },
            first_ts: self.first_ts,
            frames: self.frames.push(frame),
        }
    }

    /// The fragments fill the datagram without a gap up to the end that the
    /// last fragment set, and none reaches further.
    pub open spec fn complete(self) -> bool {
        &&& self.total is Some
        &&& max_end(self.pieces) == self.total->0
        &&& covers(self.pieces, self.total->0)
    }
}

/// The state of a defragmenter.
pub struct DefragState {
    pub pending: Map<FragKey, DatagramModel>,
    pub poisoned: Map<FragKey, Seq<char>>,
    pub evidence: Seq<EvidenceModel>,
}

impl DefragState {
    /// Every pending datagram is well-formed.
    pub open spec fn wf(self) -> bool {
        forall|k: FragKey| #[trigger] self.pending.contains_key(k) ==> self.pending[k].wf()
    }

    /// The state with an entry of evidence more.
    pub open spec fn noting(self, e: EvidenceModel) -> DefragState {
        DefragState { evidence: self.evidence.push(e), ..self }
    }

    /// A datagram isolated for a reason: forgotten, poisoned and noted.
    pub open spec fn isolating(self, e: EvidenceModel) -> DefragState {
        DefragState {
            pending: self.pending.remove(e.key),
            poisoned: self.poisoned.insert(e.key, e.reason),
            evidence: self.evidence.push(e),
        }
    }
}

/// The key of a fragment.
pub open spec fn key_of(f: FragModel) -> FragKey {
    FragKey { src: f.src, dst: f.dst, proto: f.proto, ident: f.ident }
}

/// Why a fragment isolates its datagram, and the frames that go with it.
pub open spec fn refusal(s: DefragState, cfg: DefragConfig, f: FragModel, frame: u64, ts: u64) -> Option<
    (Seq<char>, Seq<u64>),
> {
    let key = key_of(f);
    let d = if s.pending.contains_key(key) {
        s.pending[key]
    } else {
        DatagramModel::empty(ts)
    };
    if f.offset + f.payload.len() > cfg.max_datagram_bytes {
        Some(("datagram exceeds byte budget"@, seq![frame]))
    } else if ts - d.first_ts > cfg.timeout_ns {
        Some(("fragment timeout exceeded"@, d.frames.push(frame)))
    } else if any_meets(d.pieces, f.offset, f.offset + f.payload.len()) {
        Some(("overlapping fragments"@, d.frames.push(frame)))
    } else if d.pieces.len() >= cfg.max_fragments {
        Some(("fragment count exceeds budget"@, d.frames.push(frame)))
    } else {
        None
    }
}

/// What handling a fragment does, and what it yields.
pub open spec fn handled(s: DefragState, cfg: DefragConfig, f: FragModel, frame: u64, ts: u64) -> (
    DefragState,
    OutcomeModel,
) {
    let key = key_of(f);
    let d = if s.pending.contains_key(key) {
        s.pending[key]
    } else {
        DatagramModel::empty(ts)
    };
    let e = d.with(f, frame);
    if s.poisoned.contains_key(key) {
        let ev = EvidenceModel {
            key,
            status: "isolated"@,
            reason: "fragment of previously isolated datagram ("@ + s.poisoned[key] + ")"@,
            frames: seq![frame],
        };
        (s.noting(ev), OutcomeModel::Isolated(ev))
    } else if refusal(s, cfg, f, frame, ts) is Some {
        let r = refusal(s, cfg, f, frame, ts)->0;
        let ev = EvidenceModel { key, status: "isolated"@, reason: r.0, frames: r.1 };
        (s.isolating(ev), OutcomeModel::Isolated(ev))
    } else if e.complete() {
        (
            DefragState {
                pending: s.pending.remove(key),
                poisoned: s.poisoned,
                evidence: s.evidence.push(
                    EvidenceModel {
                        key,
                        status: "reassembled"@,
                        reason: Seq::empty(),
                        frames: e.frames,
                    },
                ),
            },
            OutcomeModel::Complete {
                key,
                payload: assembled(e.pieces, e.total->0),
                frames: e.frames,
            },
        )
    } else {
        (
            DefragState { pending: s.pending.insert(key, e), ..s },
            OutcomeModel::Buffered,
        )
    }
}

pub struct Defragmenter {
    cfg: DefragConfig,
    pending: Table<FragKey, Datagram>,
    poisoned: Table<FragKey, String>,
    pub evidence: Vec<DatagramEvidence>,
    notes: Ghost<Seq<EvidenceModel>>,
}

impl View for Defragmenter {
    type V = DefragState;

    closed spec fn view(&self) -> DefragState {
        DefragState {
            pending: self.pending@.map_values(|d: Datagram| d@),
            poisoned: self.poisoned@.map_values(|s: String| s@),
            evidence: self.notes@,
        }
    }
}

/// The entries say what the models say, one by one.
pub open spec fn all_say(v: Seq<DatagramEvidence>, m: Seq<EvidenceModel>) -> bool {
    &&& v.len() == m.len()
    &&& forall|i: int| 0 <= i < v.len() ==> (#[trigger] v[i]).says(m[i])
}

fn evidence_of(key: &FragKey, status: &str, reason: &str, frames: Vec<u64>) -> (r: DatagramEvidence)
    ensures
        r.says(
            EvidenceModel { key: *key, status: status@, reason: reason@, frames: frames@ },
        ),
{
    DatagramEvidence {
        src: key.src.to_mixed_text(),
        dst: key.dst.to_mixed_text(),
        proto: key.proto,
        ident: key.ident,
        status: status.to_string(),
        reason: reason.to_string(),
        frames,
    }
}

impl Defragmenter {
    /// The configuration in force.
    pub closed spec fn config(&self) -> DefragConfig {
        self.cfg
    }

    /// The pending datagrams are well-formed, and the entries of evidence say
    /// what the state says.
    pub open spec fn wf(&self) -> bool {
        self@.wf() && all_say(self.entries(), self@.evidence)
    }

    /// The entries of evidence so far.
    pub closed spec fn entries(&self) -> Seq<DatagramEvidence> {
        self.evidence@
    }

    /// Gives up the entries of evidence.
    pub fn into_evidence(self) -> (r: Vec<DatagramEvidence>)
        ensures
            r@ == self.entries(),
    {
        self.evidence
    }

    pub fn new(cfg: DefragConfig) -> (r: Self)
        ensures
            r.wf(),
            r.config() == cfg,
            r@.pending == Map::<FragKey, DatagramModel>::empty(),
            r@.poisoned == Map::<FragKey, Seq<char>>::empty(),
            r@.evidence == Seq::<EvidenceModel>::empty(),
    {
        let r = Defragmenter {
            cfg,
            pending: Table::new(),
            poisoned: Table::new(),
            evidence: Vec::new(),
            notes: Ghost(Seq::empty()),
        };
        assert(r@.pending =~= Map::<FragKey, DatagramModel>::empty());
        assert(r@.poisoned =~= Map::<FragKey, Seq<char>>::empty());
        r
    }

    fn note(&mut self, key: &FragKey, status: &str, reason: &str, frames: Vec<u64>)
        requires
            old(self).wf(),
        ensures
            final(self).wf(),
            final(self).config() == old(self).config(),
            final(self)@ == old(self)@.noting(
                EvidenceModel { key: *key, status: status@, reason: reason@, frames: frames@ },
            ),
    {
        let ghost m = EvidenceModel {
            key: *key,
            status: status@,
            reason: reason@,
            frames: frames@,
        };
        let ev = evidence_of(key, status, reason, frames);
        self.evidence.push(ev);
        self.notes = Ghost(self.notes@.push(m));
        proof {
            assert forall|i: int| 0 <= i < self.evidence@.len() implies (
            #[trigger] self.evidence@[i]).says(self.notes@[i]) by {
                if i < old(self).entries().len() {
                    assert(old(self).entries()[i].says(old(self)@.evidence[i]));
                }
            }
            assert(self@ == old(self)@.noting(m));
        }
    }

    fn isolate(&mut self, key: &FragKey, reason: &str, frames: Vec<u64>) -> (r: DefragOutcome)
        requires
            old(self).wf(),
        ensures
            final(self).wf(),
            final(self).config() == old(self).config(),
            ({
                let ev = EvidenceModel {
                    key: *key,
                    status: "isolated"@,
                    reason: reason@,
                    frames: frames@,
                };
                final(self)@ == old(self)@.isolating(ev) && r.is(OutcomeModel::Isolated(ev))
            }),
    {
        let _ = self.pending.remove(key);
        let text = reason.to_string();
        self.poisoned.insert(*key, text);
        let copy = copy_numbers(&frames);
        let out = evidence_of(key, "isolated", reason, frames);
        proof {
            assert(self@.pending =~= old(self)@.pending.remove(*key));
            assert(self@.poisoned =~= old(self)@.poisoned.insert(*key, reason@));
        }
        self.note(key, "isolated", reason, copy);
        DefragOutcome::Isolated(out)
    }

    /// Handles one fragment.
    pub fn handle(&mut self, frag: &FragRef<'_>, frame: u64, ts_ns: u64) -> (r: DefragOutcome)
        requires
            old(self).wf(),
            frag.offset_bytes + frag.payload@.len() <= usize::MAX,
        ensures
            final(self).wf(),
            final(self).config() == old(self).config(),
            final(self)@ == handled(old(self)@, old(self).config(), frag@, frame, ts_ns).0,
            r.is(handled(old(self)@, old(self).config(), frag@, frame, ts_ns).1),
    {
        let key = FragKey {
            src: frag.src,
            dst: frag.dst,
            proto: frag.proto,
            ident: frag.ident,
        };
        let ghost s = self@;
        let ghost cfg = self.cfg;
        if let Some(reason) = self.poisoned.get(&key) {
            let mut text = "fragment of previously isolated datagram (".to_string();
            push_text(&mut text, reason.as_str());
            push_text(&mut text, ")");
            let frames: Vec<u64> = vec![frame];
            let copy = copy_numbers(&frames);
            assert(frames@ =~= seq![frame]);
            let out = evidence_of(&key, "isolated", text.as_str(), frames);
            self.note(&key, "isolated", text.as_str(), copy);
            return DefragOutcome::Isolated(out);
        }
        let start: usize = frag.offset_bytes;
        let end: usize = start + frag.payload.len();
        if end > self.cfg.max_datagram_bytes {
            let frames: Vec<u64> = vec![frame];
            assert(frames@ =~= seq![frame]);
            return self.isolate(&key, "datagram exceeds byte budget", frames);
        }
        let mut dat = match self.pending.remove(&key) {
            Some(d) => d,
            None => Datagram {
                pieces: Vec::new(),
                total: None,
                first_ts: ts_ns,
                frames: Vec::new(),
            },
        };
        let ghost d = if s.pending.contains_key(key) {
            s.pending[key]
        } else {
            DatagramModel::empty(ts_ns)
        };
        proof {
            if !s.pending.contains_key(key) {
                assert(dat@.pieces =~= seq![]);
                assert(dat@.frames =~= seq![]);
            }
            assert(dat@ == d);
            assert(d.wf());
            assert(self@.pending =~= s.pending.remove(key));
            assert(self@.pending.remove(key) =~= s.pending.remove(key));
            assert(self@.poisoned == s.poisoned);
        }
        if ts_ns > dat.first_ts && ts_ns - dat.first_ts > self.cfg.timeout_ns {
            let mut frames = copy_numbers(&dat.frames);
            frames.push(frame);
            return self.isolate(&key, "fragment timeout exceeded", frames);
        }
        if meets_any(&dat.pieces, start, end) {
            let mut frames = copy_numbers(&dat.frames);
            frames.push(frame);
            return self.isolate(&key, "overlapping fragments", frames);
        }
        if dat.pieces.len() >= self.cfg.max_fragments {
            let mut frames = copy_numbers(&dat.frames);
            frames.push(frame);
            return self.isolate(&key, "fragment count exceeds budget", frames);
        }
        if !frag.more_fragments {
            dat.total = Some(end);
        }
        let ghost before = dat.pieces@;
        let piece = Piece { offset: start, data: copy_bytes(frag.payload) };
        let ghost np = piece@;
        dat.pieces.push(piece);
        dat.frames.push(frame);
        let ghost e = d.with(frag@, frame);
        proof {
            assert(models(dat.pieces@) =~= models(before).push(np));
            assert(dat@ == e);
            assert forall|i: int, j: int| 0 <= i < j < e.pieces.len() implies !(#[trigger] e.pieces[i]).meets(
                (#[trigger] e.pieces[j]).offset,
                e.pieces[j].end(),
            ) by {
                assert(d.pieces[i] == e.pieces[i]);
                if j < d.pieces.len() {
                    assert(d.pieces[j] == e.pieces[j]);
                } else {
                    assert(!any_meets(d.pieces, start as int, end as int));
                }
            }
            assert forall|i: int| 0 <= i < e.pieces.len() implies (#[trigger] e.pieces[i]).end()
                <= usize::MAX && e.pieces[i].offset >= 0 by {
                if i < d.pieces.len() {
                    assert(d.pieces[i] == e.pieces[i]);
                }
            }
            assert(e.wf());
        }
        let complete = match dat.total {
            Some(total) => greatest_end(&dat.pieces) == total && covers_all(&dat.pieces, total),
            None => false,
        };
        assert(complete == e.complete());
        if !complete {
            self.pending.insert(key, dat);
            assert(self@.pending =~= s.pending.insert(key, e));
            return DefragOutcome::Buffered;
        }
        let total: usize = match dat.total {
            Some(t) => t,
            None => 0,
        };
        proof {
            crate::cover::lemma_max_end(e.pieces);
            assert(models(dat.pieces@) == e.pieces);
        }
        let payload = assemble(&dat.pieces, total);
        self.note(&key, "reassembled", "", copy_numbers(&dat.frames));
        proof {
            reveal_strlit("");
            assert(""@ =~= Seq::<char>::empty());
        }
        DefragOutcome::Complete(OwnedDatagram { key, payload, frames: dat.frames })
    }

    /// Isolates what is still incomplete at the end of the capture.
    pub fn finish(&mut self)
        requires
            old(self).wf(),
        ensures
            final(self).wf(),
            final(self).config() == old(self).config(),
            final(self)@.pending == Map::<FragKey, DatagramModel>::empty(),
            final(self)@.poisoned == old(self)@.poisoned,
            exists|ks: Seq<FragKey>|
                ks.no_duplicates() && ks.to_set() == old(self)@.pending.dom()
                    && final(self)@.evidence == #[trigger] flushed(
                    old(self)@,
                    ks,
                    ks.len() as int,
                ),
    {
        let ghost s = self@;
        let keys = self.pending.keys();
        let ghost ks = keys@;
        assert(ks.to_set() =~= s.pending.dom());
        let mut i: usize = 0;
        while i < keys.len()
            invariant
                i <= keys@.len(),
                keys@ == ks,
                ks.no_duplicates(),
                ks.to_set() == s.pending.dom(),
                s == old(self)@,
                s.wf(),
                self.wf(),
                self.config() == old(self).config(),
                self@.poisoned == s.poisoned,
                self@.evidence == flushed(s, ks, i as int),
                forall|k: FragKey| #[trigger]
                    self@.pending.contains_key(k) <==> s.pending.contains_key(k) && !ks.take(
                        i as int,
                    ).contains(k),
                forall|k: FragKey| #[trigger]
                    self@.pending.contains_key(k) ==> self@.pending[k] == s.pending[k],
            decreases keys@.len() - i,
        {
            let key = keys[i];
            proof {
                assert(ks.to_set().contains(key));
                assert(s.pending.contains_key(key));
                if ks.take(i as int).contains(key) {
                    let j = ks.take(i as int).index_of(key);
                    assert(ks[j] == ks[i as int]);
                }
                assert(self@.pending.contains_key(key));
            }
            let ghost cur = self@;
            if let Some(dat) = self.pending.remove(&key) {
                proof {
                    assert(dat@ == s.pending[key]);
                    assert(self@.pending =~= cur.pending.remove(key));
                    assert(self@.poisoned == cur.poisoned);
                    assert(self@.wf());
                }
                self.note(
                    &key,
                    "isolated",
                    "incomplete datagram at end of capture",
                    dat.frames,
                );
            }
            proof {
                let t0 = ks.take(i as int);
                let t1 = ks.take(i + 1);
                assert(t1 =~= t0.push(key));
                assert forall|k: FragKey| #[trigger]
                    self@.pending.contains_key(k) <==> s.pending.contains_key(k) && !t1.contains(
                        k,
                    ) by {
                    if t0.contains(k) {
                        assert(t1[t0.index_of(k)] == k);
                    }
                    if t1.contains(k) && !t0.contains(k) {
                        let j = t1.index_of(k);
                        if j < i {
                            assert(t0[j] == k);
                        }
                    }
                    assert(t1[i as int] == key);
                }
            }
            i += 1;
        }
        proof {
            assert(ks.take(i as int) =~= ks);
            assert forall|k: FragKey| !self@.pending.contains_key(k) by {
                if s.pending.contains_key(k) {
                    assert(ks.to_set().contains(k));
                }
            }
            assert(self@.pending =~= Map::<FragKey, DatagramModel>::empty());
        }
    }
}

/// The evidence after the first `n` of the pending datagrams `ks` were isolated
/// as incomplete, in that order.
pub open spec fn flushed(s: DefragState, ks: Seq<FragKey>, n: int) -> Seq<EvidenceModel>
    decreases n,
{
    if n <= 0 {
        s.evidence
    } else {
        flushed(s, ks, n - 1).push(
            EvidenceModel {
                key: ks[n - 1],
                status: "isolated"@,
                reason: "incomplete datagram at end of capture"@,
                frames: s.pending[ks[n - 1]].frames,
            },
        )
    }
}

/// Handling a fragment touches no datagram but its own.
pub proof fn law_other_datagrams_untouched(
    s: DefragState,
    cfg: DefragConfig,
    f: FragModel,
    frame: u64,
    ts: u64,
    other: FragKey,
)
    requires
        other != key_of(f),
    ensures
        ({
            let t = handled(s, cfg, f, frame, ts).0;
            &&& t.pending.contains_key(other) == s.pending.contains_key(other)
            &&& s.pending.contains_key(other) ==> t.pending[other] == s.pending[other]
            &&& t.poisoned.contains_key(other) == s.poisoned.contains_key(other)
            &&& s.poisoned.contains_key(other) ==> t.poisoned[other] == s.poisoned[other]
        }),
{
}

/// Once isolated, a datagram is never reassembled.
pub proof fn law_poisoned_stays(
    s: DefragState,
    cfg: DefragConfig,
    f: FragModel,
    frame: u64,
    ts: u64,
)
    requires
        s.poisoned.contains_key(key_of(f)),
    ensures
        handled(s, cfg, f, frame, ts).1 is Isolated,
        handled(s, cfg, f, frame, ts).0.poisoned == s.poisoned,
        handled(s, cfg, f, frame, ts).0.pending == s.pending,
{
}

/// An overlapping fragment isolates its datagram and yields no payload.
pub proof fn law_overlap_isolates(
    s: DefragState,
    cfg: DefragConfig,
    f: FragModel,
    frame: u64,
    ts: u64,
)
    requires
        s.pending.contains_key(key_of(f)),
        any_meets(s.pending[key_of(f)].pieces, f.offset, f.offset + f.payload.len()),
    ensures
        handled(s, cfg, f, frame, ts).1 is Isolated,
        handled(s, cfg, f, frame, ts).0.poisoned.contains_key(key_of(f)),
{
}

/// No pending fragment reaches beyond `limit`.
pub open spec fn ends_within(s: DefragState, limit: int) -> bool {
    forall|k: FragKey, i: int|
        s.pending.contains_key(k) && 0 <= i < s.pending[k].pieces.len() ==> (
        #[trigger] s.pending[k].pieces[i]).end() <= limit
}

/// A limit that every fragment keeps is kept by the pending datagrams and by
/// what is reassembled.
pub proof fn law_ends_within(
    s: DefragState,
    cfg: DefragConfig,
    f: FragModel,
    frame: u64,
    ts: u64,
    limit: int,
)
    requires
        ends_within(s, limit),
        0 <= f.offset,
        f.offset + f.payload.len() <= limit,
    ensures
        ends_within(handled(s, cfg, f, frame, ts).0, limit),
        handled(s, cfg, f, frame, ts).1 matches OutcomeModel::Complete { payload, .. }
            ==> payload.len() <= limit,
{
    let key = key_of(f);
    let d = if s.pending.contains_key(key) {
        s.pending[key]
    } else {
        DatagramModel::empty(ts)
    };
    let e = d.with(f, frame);
    let t = handled(s, cfg, f, frame, ts).0;
    assert forall|i: int| 0 <= i < e.pieces.len() implies (#[trigger] e.pieces[i]).end() <= limit by {
        if i < d.pieces.len() {
            assert(d.pieces[i] == e.pieces[i]);
            assert(s.pending[key].pieces[i].end() <= limit);
        }
    }
    assert forall|k: FragKey, i: int|
        t.pending.contains_key(k) && 0 <= i < t.pending[k].pieces.len() implies (
    #[trigger] t.pending[k].pieces[i]).end() <= limit by {
        if k != key {
            assert(s.pending.contains_key(k));
            assert(s.pending[k].pieces[i].end() <= limit);
        } else if t.pending[k] == e {
            assert(e.pieces[i].end() <= limit);
        } else {
            assert(s.pending[k].pieces[i].end() <= limit);
        }
    }
    if handled(s, cfg, f, frame, ts).1 is Complete {
        crate::cover::lemma_max_end(e.pieces);
        if max_end(e.pieces) > 0 {
            let i = choose|i: int|
                0 <= i < e.pieces.len() && (#[trigger] e.pieces[i]).end() == max_end(e.pieces);
            assert(e.pieces[i].end() <= limit);
        }
    }
}

/// A reassembled payload is no longer than the budget.
pub proof fn law_budget(s: DefragState, cfg: DefragConfig, f: FragModel, frame: u64, ts: u64)
    requires
        ends_within(s, cfg.max_datagram_bytes as int),
        0 <= f.offset,
    ensures
        ends_within(handled(s, cfg, f, frame, ts).0, cfg.max_datagram_bytes as int),
        handled(s, cfg, f, frame, ts).1 matches OutcomeModel::Complete { payload, .. }
            ==> payload.len() <= cfg.max_datagram_bytes,
{
    if f.offset + f.payload.len() <= cfg.max_datagram_bytes {
        law_ends_within(s, cfg, f, frame, ts, cfg.max_datagram_bytes as int);
    } else {
        let limit = cfg.max_datagram_bytes as int;
        let t = handled(s, cfg, f, frame, ts).0;
        assert forall|k: FragKey, i: int|
            t.pending.contains_key(k) && 0 <= i < t.pending[k].pieces.len() implies (
        #[trigger] t.pending[k].pieces[i]).end() <= limit by {
            assert(s.pending[k].pieces[i].end() <= limit);
        }
    }
}

} // verus!
