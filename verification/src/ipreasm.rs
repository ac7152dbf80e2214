//! Reassembly of fragmented IP packets. Datagrams with overlapping or oversized
//! fragments are quarantined and never delivered.

use vstd::prelude::*;
use crate::cover::{
    any_meets, assemble, assembled, bounded, covers, covers_all, disjoint, meets_any, models, Piece,
    PieceModel,
};
use crate::frame::{parse_tcp, tcp_parsed, TcpSegment};
use crate::model::{IpPacket, PacketModel};
use crate::text::{cat_dec, dec, push_dec, push_text};
use crate::textmap::{key_at, keys_ascend, listed, text_lt, TextMap};

verus! {

#[derive(Debug, Clone)]
pub struct FragNote {
    pub reason: &'static str,
    pub frame_idx: usize,
    pub key: String,
}

pub struct IpReassembly {
    pub datagrams: Vec<IpPacket>,
    pub notes: Vec<FragNote>,
}

/// What a note says.
pub struct NoteModel {
    pub reason: Seq<char>,
    pub frame_idx: usize,
    pub key: Seq<char>,
}

impl View for FragNote {
    type V = NoteModel;

    open spec fn view(&self) -> NoteModel {
        NoteModel { reason: self.reason@, frame_idx: self.frame_idx, key: self.key@ }
    }
}

struct Bucket {
    src: String,
    dst: String,
    version: u8,
    id: u32,
    proto: u8,
    pieces: Vec<Piece>,
    frames: Vec<usize>,
    total: Option<usize>,
    first_frame: usize,
    last_frame: usize,
    quarantined: bool,
}

/// The fragments of one datagram.
pub struct BucketModel {
    pub src: Seq<char>,
    pub dst: Seq<char>,
    pub version: u8,
    pub id: u32,
    pub proto: u8,
    pub pieces: Seq<PieceModel>,
    pub frames: Seq<usize>,
    /// The length that the last fragment sets.
    pub total: Option<int>,
    pub first_frame: usize,
    pub last_frame: usize,
    pub quarantined: bool,
}

impl View for Bucket {
    type V = BucketModel;

    closed spec fn view(&self) -> BucketModel {
        BucketModel {
            src: self.src@,
            dst: self.dst@,
            version: self.version,
            id: self.id,
            proto: self.proto,
            pieces: models(self.pieces@),
            frames: self.frames@,
            total: match self.total {
                Some(t) => Some(t as int),
                None => None,
            },
            first_frame: self.first_frame,
            last_frame: self.last_frame,
            quarantined: self.quarantined,
        }
    }
}

/// The greatest length of a datagram.
pub const BUDGET: usize = 65_535;

pub open spec fn overlap_reason() -> Seq<char> {
    "overlapping IP fragments; datagram quarantined"@
}

pub open spec fn length_reason() -> Seq<char> {
    "fragment exceeds budget/declared length; datagram quarantined"@
}

/// The key of a packet's datagram.
pub open spec fn key_text(p: PacketModel) -> Seq<char> {
    "v"@ + dec(p.ip_version as nat) + "-"@ + p.src + "-"@ + p.dst + "-id"@ + dec(p.ip_id as nat)
        + "-p"@ + dec(p.proto as nat)
}

pub open spec fn end_of(p: PacketModel) -> int {
    p.frag_off + p.l4.len()
}

/// The frame of the last of the first `n` pieces at offset 0.
pub open spec fn head_frame(pieces: Seq<PieceModel>, frames: Seq<usize>, n: int) -> Option<usize>
    decreases n,
{
    if n <= 0 {
        None
    } else if pieces[n - 1].offset == 0 {
        Some(frames[n - 1])
    } else {
        head_frame(pieces, frames, n - 1)
    }
}

impl BucketModel {
    pub open spec fn fresh(p: PacketModel) -> BucketModel {
        BucketModel {
            src: p.src,
            dst: p.dst,
            version: p.ip_version,
            id: p.ip_id,
            proto: p.proto,
            pieces: seq![],
            frames: seq![],
            total: None,
            first_frame: p.frame_idx,
            last_frame: 0,
            quarantined: false,
        }
    }

    pub open spec fn wf(self) -> bool {
        &&& self.frames.len() == self.pieces.len()
        &&& bounded(self.pieces)
        &&& self.total matches Some(t) ==> 0 <= t <= usize::MAX
        &&& !self.quarantined ==> disjoint(self.pieces)
    }

    /// A fragment overlaps one that came before.
    pub open spec fn overlaps(self, p: PacketModel) -> bool {
        any_meets(self.pieces, p.frag_off, end_of(p))
    }

    /// The length once a fragment was seen.
    pub open spec fn total_with(self, p: PacketModel) -> Option<int> {
        if p.mf {
            self.total
        } else {
            Some(end_of(p))
        }
    }

    /// A fragment ends past the budget or past the length of the datagram.
    pub open spec fn too_long(self, p: PacketModel) -> bool {
        end_of(p) > BUDGET || (self.total_with(p) matches Some(t) && end_of(p) > t)
    }

    /// The bucket with one fragment more.
    pub open spec fn with(self, p: PacketModel) -> BucketModel {
        BucketModel {
            pieces: self.pieces.push(PieceModel { offset: p.frag_off, data: p.l4 }),
            frames: self.frames.push(p.frame_idx),
            total: self.total_with(p),
            last_frame: p.frame_idx,
            quarantined: self.quarantined || self.overlaps(p) || self.too_long(p),
            ..self
        }
    }

    /// The fragments make up the whole datagram and nothing beyond it.
    pub open spec fn complete(self) -> bool {
        &&& self.total is Some
        &&& covers(self.pieces, self.total->0)
        &&& forall|i: int|
            0 <= i < self.pieces.len() && (#[trigger] self.pieces[i]).data.len() > 0
                ==> self.pieces[i].end() <= self.total->0
    }

    /// The datagram that the fragments make up.
    pub open spec fn datagram(self) -> PacketModel {
        let l4 = assembled(self.pieces, self.total->0);
        PacketModel {
            frame_idx: match head_frame(self.pieces, self.frames, self.pieces.len() as int) {
                Some(f) => f,
                None => self.first_frame,
            },
            ip_version: self.version,
            src: self.src,
            dst: self.dst,
            ip_id: self.id,
            proto: self.proto,
            frag_off: 0,
            mf: false,
            l4,
            tcp: if self.proto == 6 {
                match tcp_parsed(l4) {
                    Ok(t) => Some(t),
                    Err(_) => None,
                }
            } else {
                None
            },
        }
    }
}

/// What reassembly holds on its way.
pub struct Progress {
    pub groups: Map<Seq<char>, BucketModel>,
    pub datagrams: Seq<PacketModel>,
    pub notes: Seq<NoteModel>,
}

/// A note, where the condition holds.
pub open spec fn note_if(on: bool, reason: Seq<char>, p: PacketModel) -> Seq<NoteModel> {
    if on {
        seq![NoteModel { reason, frame_idx: p.frame_idx, key: key_text(p) }]
    } else {
        seq![]
    }
}

impl Progress {
    pub open spec fn start() -> Progress {
        Progress { groups: Map::empty(), datagrams: seq![], notes: seq![] }
    }

    pub open spec fn wf(self) -> bool {
        forall|k: Seq<char>| #[trigger] self.groups.contains_key(k) ==> self.groups[k].wf()
    }

    /// The bucket of a fragment before it came.
    pub open spec fn bucket(self, p: PacketModel) -> BucketModel {
        if self.groups.contains_key(key_text(p)) {
            self.groups[key_text(p)]
        } else {
            BucketModel::fresh(p)
        }
    }

    /// The state after a packet.
    pub open spec fn fed(self, p: PacketModel) -> Progress {
        let k = key_text(p);
        let b = self.bucket(p);
        let h = b.with(p);
        let notes = self.notes + note_if(b.overlaps(p), overlap_reason(), p) + note_if(
            b.too_long(p),
            length_reason(),
            p,
        );
        if !p.mf && p.frag_off == 0 {
            Progress { datagrams: self.datagrams.push(p), ..self }
        } else if !h.quarantined && h.complete() {
            Progress {
                groups: self.groups.remove(k),
                datagrams: self.datagrams.push(h.datagram()),
                notes,
            }
        } else {
            Progress { groups: self.groups.insert(k, h), notes, ..self }
        }
    }
}

/// The state after the first `n` packets.
pub open spec fn fed_all(ps: Seq<PacketModel>, n: int) -> Progress
    decreases n,
{
    if n <= 0 {
        Progress::start()
    } else {
        fed_all(ps, n - 1).fed(ps[n - 1])
    }
}

/// A packet put behind those of no later frame.
pub open spec fn filed(s: Seq<PacketModel>, p: PacketModel) -> Seq<PacketModel>
    decreases s.len(),
{
    if s.len() == 0 || s.last().frame_idx <= p.frame_idx {
        s.push(p)
    } else {
        filed(s.drop_last(), p).push(s.last())
    }
}

/// Packets in the order of their frames; those of one frame keep their order.
pub open spec fn by_frame(s: Seq<PacketModel>) -> Seq<PacketModel>
    decreases s.len(),
{
    if s.len() == 0 {
        seq![]
    } else {
        filed(by_frame(s.drop_last()), s.last())
    }
}

/// The note on a datagram that was not delivered.
pub open spec fn leftover(k: Seq<char>, b: BucketModel) -> NoteModel {
    NoteModel {
        reason: if b.quarantined {
            "fragmented datagram quarantined; not delivered to TCP"@
        } else {
            "incomplete fragmented datagram (missing tail or gap)"@
        },
        frame_idx: b.last_frame,
        key: k,
    }
}

/// `ks` lists the keys of `m` in order.
pub open spec fn lists_keys(ks: Seq<Seq<char>>, m: Map<Seq<char>, BucketModel>) -> bool {
    &&& forall|i: int, j: int|
        0 <= i < j < ks.len() ==> text_lt(#[trigger] ks[i], #[trigger] ks[j])
    &&& forall|k: Seq<char>| #[trigger] m.contains_key(k) <==> ks.contains(k)
}

pub open spec fn packets(v: Seq<IpPacket>) -> Seq<PacketModel> {
    v.map_values(|p: IpPacket| p@)
}

pub open spec fn notes_of(v: Seq<FragNote>) -> Seq<NoteModel> {
    v.map_values(|n: FragNote| n@)
}

fn key_string(p: &IpPacket) -> (s: String)
    ensures
        s@ == key_text(p@),
{
    let mut s = cat_dec("v", p.ip_version as u64);
    push_text(&mut s, "-");
    push_text(&mut s, p.src.as_str());
    push_text(&mut s, "-");
    push_text(&mut s, p.dst.as_str());
    push_text(&mut s, "-id");
    push_dec(&mut s, p.ip_id as u64);
    push_text(&mut s, "-p");
    push_dec(&mut s, p.proto as u64);
    s
}

impl Bucket {
    fn is_complete(&self) -> (r: bool)
        requires
            self@.wf(),
        ensures
            r == self@.complete(),
    {
        match self.total {
            None => false,
            Some(total) => {
                let ghost ms = models(self.pieces@);
                let mut i: usize = 0;
                while i < self.pieces.len()
                    invariant
                        i <= self.pieces@.len(),
                        ms == models(self.pieces@),
                        bounded(ms),
                        self@.pieces == ms,
                        self@.total == Some(total as int),
                        forall|j: int|
                            0 <= j < i && (#[trigger] ms[j]).data.len() > 0 ==> ms[j].end() <= total,
                    decreases self.pieces@.len() - i,
                {
                    let p = &self.pieces[i];
                    assert(ms[i as int] == p@);
                    if p.data.len() > 0 && p.offset + p.data.len() > total {
                        return false;
                    }
                    i += 1;
                }
                covers_all(&self.pieces, total)
            },
        }
    }

    fn head(&self) -> (r: Option<usize>)
        requires
            self@.wf(),
        ensures
            r == head_frame(self@.pieces, self@.frames, self@.pieces.len() as int),
    {
        let mut n: usize = self.pieces.len();
        while n > 0
            invariant
                n <= self.pieces@.len(),
                self.frames@.len() == self.pieces@.len(),
                head_frame(self@.pieces, self@.frames, self@.pieces.len() as int) == head_frame(
                    self@.pieces,
                    self@.frames,
                    n as int,
                ),
            decreases n,
        {
            assert(self@.pieces[n - 1] == self.pieces@[n - 1]@);
            if self.pieces[n - 1].offset == 0 {
                return Some(self.frames[n - 1]);
            }
            n -= 1;
        }
        None
    }
}

/// The datagram that the fragments of a bucket make up, where they do.
fn try_flush(b: &Bucket) -> (r: Option<IpPacket>)
    requires
        b@.wf(),
    ensures
        match r {
            Some(p) => b@.complete() && p@ == b@.datagram(),
            None => !b@.complete(),
        },
{
    if !b.is_complete() {
        return None;
    }
    match b.total {
        None => None,
        Some(total) => {
            let l4 = assemble(&b.pieces, total);
            let tcp: Option<TcpSegment> = if b.proto == 6 {
                match parse_tcp(l4.as_slice()) {
                    Ok(t) => Some(t),
                    Err(_) => None,
                }
            } else {
                None
            };
            let frame_idx: usize = match b.head() {
                Some(f) => f,
                None => b.first_frame,
            };
            Some(
                IpPacket {
                    frame_idx,
                    ip_version: b.version,
                    src: b.src.clone(),
                    dst: b.dst.clone(),
                    ip_id: b.id,
                    proto: b.proto,
                    frag_off: 0,
                    mf: false,
                    l4,
                    tcp,
                },
            )
        },
    }
}

struct Work {
    groups: TextMap<Bucket>,
    datagrams: Vec<IpPacket>,
    notes: Vec<FragNote>,
}

impl View for Work {
    type V = Progress;

    closed spec fn view(&self) -> Progress {
        Progress {
            groups: self.groups@.map_values(|b: Bucket| b@),
            datagrams: packets(self.datagrams@),
            notes: notes_of(self.notes@),
        }
    }
}

impl Work {
    fn note(&mut self, on: bool, reason: &'static str, frame_idx: usize, key: &String, Ghost(p): Ghost<
        PacketModel,
    >)
        requires
            key@ == key_text(p),
            frame_idx == p.frame_idx,
        ensures
            final(self)@ == (Progress {
                notes: old(self)@.notes + note_if(on, reason@, p),
                ..old(self)@
            }),
    {
        let ghost before = self@;
        if on {
            self.notes.push(FragNote { reason, frame_idx, key: key.clone() });
        }
        assert(self@.notes =~= before.notes + note_if(on, reason@, p));
    }

    fn feed(&mut self, pkt: IpPacket)
        requires
            old(self)@.wf(),
            end_of(pkt@) <= usize::MAX,
        ensures
            final(self)@.wf(),
            final(self)@ == old(self)@.fed(pkt@),
    {
        let ghost w0 = self@;
        let ghost p = pkt@;
        if !pkt.mf && pkt.frag_off == 0 {
            self.datagrams.push(pkt);
            assert(self@.datagrams =~= w0.datagrams.push(p));
            return;
        }
        let key = key_string(&pkt);
        let off: usize = pkt.frag_off;
        let end: usize = off + pkt.l4.len();
        let frame_idx: usize = pkt.frame_idx;
        let taken = self.groups.remove(key.as_str());
        assert(self@.groups =~= w0.groups.remove(key@));
        let mut b = match taken {
            Some(b) => b,
            None => Bucket {
                src: pkt.src.clone(),
                dst: pkt.dst.clone(),
                version: pkt.ip_version,
                id: pkt.ip_id,
                proto: pkt.proto,
                pieces: Vec::new(),
                frames: Vec::new(),
                total: None,
                first_frame: frame_idx,
                last_frame: 0,
                quarantined: false,
            },
        };
        let ghost b0 = w0.bucket(p);
        proof {
            if !w0.groups.contains_key(key@) {
                assert(b@.pieces =~= seq![]);
                assert(b@.frames =~= seq![]);
            }
            assert(b@ == b0);
            assert(b0.wf());
        }
        b.last_frame = frame_idx;
        if !pkt.mf {
            b.total = Some(end);
        }
        let overlaps = meets_any(&b.pieces, off, end);
        let past_total = match b.total {
            Some(t) => end > t,
            None => false,
        };
        let too_long = end > BUDGET || past_total;
        assert(overlaps == b0.overlaps(p));
        assert(too_long == b0.too_long(p));
        if overlaps || too_long {
            b.quarantined = true;
        }
        let ghost before = b.pieces@;
        let piece = Piece { offset: off, data: pkt.l4 };
        let ghost np = piece@;
        b.pieces.push(piece);
        b.frames.push(frame_idx);
        let ghost h = b0.with(p);
        proof {
            assert(models(b.pieces@) =~= models(before).push(np));
            assert(b@ == h);
            lemma_with_wf(b0, p);
        }
        self.note(
            overlaps,
            "overlapping IP fragments; datagram quarantined",
            frame_idx,
            &key,
            Ghost(p),
        );
        self.note(
            too_long,
            "fragment exceeds budget/declared length; datagram quarantined",
            frame_idx,
            &key,
            Ghost(p),
        );
        let ghost w1 = self@;
        assert(w1.groups == w0.groups.remove(key@));
        let flushed = if b.quarantined {
            None
        } else {
            try_flush(&b)
        };
        match flushed {
            Some(dg) => {
                let ghost dm = dg@;
                self.datagrams.push(dg);
                assert(self@.datagrams =~= w0.datagrams.push(dm));
                assert(self@ == w0.fed(p));
            },
            None => {
                let ghost kk = key@;
                let ghost rest = self@.groups;
                self.groups.insert(key, b);
                assert(self@.groups =~= rest.insert(kk, h));
                assert(self@.groups =~= w0.groups.insert(kk, h));
                assert(self@ == w0.fed(p));
            },
        }
    }
}

proof fn lemma_with_wf(b: BucketModel, p: PacketModel)
    requires
        b.wf(),
        0 <= p.frag_off,
        end_of(p) <= usize::MAX,
    ensures
        b.with(p).wf(),
{
    let h = b.with(p);
    assert forall|i: int| 0 <= i < h.pieces.len() implies (#[trigger] h.pieces[i]).end()
        <= usize::MAX && h.pieces[i].offset >= 0 by {
        if i < b.pieces.len() {
            assert(h.pieces[i] == b.pieces[i]);
        }
    }
    if !h.quarantined {
        assert forall|i: int, j: int| 0 <= i < j < h.pieces.len() implies !(
        #[trigger] h.pieces[i]).meets((#[trigger] h.pieces[j]).offset, h.pieces[j].end()) by {
            assert(h.pieces[i] == b.pieces[i]);
            if j < b.pieces.len() {
                assert(h.pieces[j] == b.pieces[j]);
            }
        }
    }
}

proof fn lemma_filed(s: Seq<PacketModel>, p: PacketModel, pos: int)
    requires
        0 <= pos <= s.len(),
        pos > 0 ==> s[pos - 1].frame_idx <= p.frame_idx,
        forall|i: int| pos <= i < s.len() ==> (#[trigger] s[i]).frame_idx > p.frame_idx,
    ensures
        filed(s, p) == s.insert(pos, p),
    decreases s.len(),
{
    if s.len() > 0 && pos < s.len() {
        assert(s.last().frame_idx > p.frame_idx) by {
            assert(s[s.len() - 1].frame_idx > p.frame_idx);
        }
        let t = s.drop_last();
        assert forall|i: int| pos <= i < t.len() implies (#[trigger] t[i]).frame_idx
            > p.frame_idx by {
            assert(t[i] == s[i]);
        }
        lemma_filed(t, p, pos);
        assert(t.insert(pos, p).push(s.last()) =~= s.insert(pos, p));
    } else {
        assert(s.push(p) =~= s.insert(pos, p));
    }
}

/// Files packets by frame.
fn file_all(v: Vec<IpPacket>) -> (r: Vec<IpPacket>)
    ensures
        packets(r@) == by_frame(packets(v@)),
{
    let mut out: Vec<IpPacket> = Vec::new();
    let ghost ms = packets(v@);
    let ghost vs = v@;
    assert(ms.take(0) =~= seq![]);
    assert(packets(out@) =~= by_frame(ms.take(0)));
    for pkt in it: v
        invariant
            it.seq() == vs,
            ms == packets(vs),
            packets(out@) == by_frame(ms.take(it.index() as int)),
    {
        let ghost i = it.index() as int;
        let ghost p = pkt@;
        let mut pos: usize = out.len();
        while pos > 0 && out[pos - 1].frame_idx > pkt.frame_idx
            invariant
                pos <= out@.len(),
                forall|j: int|
                    pos <= j < out@.len() ==> (#[trigger] out@[j]).frame_idx > pkt.frame_idx,
            decreases pos,
        {
            pos -= 1;
        }
        let ghost before = packets(out@);
        proof {
            assert forall|j: int| pos <= j < before.len() implies (#[trigger] before[j]).frame_idx
                > p.frame_idx by {
                assert(before[j] == out@[j]@);
            }
            if pos > 0 {
                assert(before[pos - 1] == out@[pos - 1]@);
            }
            lemma_filed(before, p, pos as int);
        }
        out.insert(pos, pkt);
        proof {
            assert(packets(out@) =~= before.insert(pos as int, p));
            assert(ms[i] == p);
            assert(ms.take(i + 1).drop_last() =~= ms.take(i));
        }
    }
    assert(ms.take(ms.len() as int) =~= ms);
    out
}

/// Reassembles packets. Whole datagrams pass; fragments are put together, and
/// what cannot be is noted.
pub fn reassemble(packets_in: Vec<IpPacket>, _ts: &[i128]) -> (r: IpReassembly)
    requires
        forall|i: int|
            0 <= i < packets_in@.len() ==> end_of((#[trigger] packets_in@[i])@) <= usize::MAX,
    ensures
        ({
            let ps = packets(packets_in@);
            let done = fed_all(ps, ps.len() as int);
            &&& packets(r.datagrams@) == by_frame(done.datagrams)
            &&& exists|ks: Seq<Seq<char>>| #[trigger]
                lists_keys(ks, done.groups) && notes_of(r.notes@) == done.notes + ks.map_values(
                    |k: Seq<char>| leftover(k, done.groups[k]),
                )
        }),
{
    let ghost vs = packets_in@;
    let ghost ps = packets(vs);
    let mut w = Work { groups: TextMap::new(), datagrams: Vec::new(), notes: Vec::new() };
    proof {
        assert(w@.groups =~= Map::<Seq<char>, BucketModel>::empty());
        assert(w@.datagrams =~= seq![]);
        assert(w@.notes =~= seq![]);
    }
    for pkt in it: packets_in
        invariant
            it.seq() == vs,
            ps == packets(vs),
            w@.wf(),
            w@ == fed_all(ps, it.index() as int),
            forall|i: int| 0 <= i < vs.len() ==> end_of((#[trigger] vs[i])@) <= usize::MAX,
    {
        assert(ps[it.index() as int] == pkt@);
        w.feed(pkt);
    }
    let ghost done = w@;
    let ghost g = w.groups@;
    let entries = w.groups.entries();
    let mut notes = w.notes;
    let ghost n0 = notes_of(notes@);
    let ghost ks: Seq<Seq<char>> = Seq::new(entries@.len(), |i: int| entries@[i].0@);
    let ghost es = entries@;
    let ghost f = |k: Seq<char>| leftover(k, done.groups[k]);
    proof {
        assert forall|i: int, j: int| 0 <= i < j < ks.len() implies text_lt(
            #[trigger] ks[i],
            #[trigger] ks[j],
        ) by {
            assert(text_lt(es[i].0@, es[j].0@));
        }
        assert forall|k: Seq<char>| #[trigger] done.groups.contains_key(k) <==> ks.contains(k) by {
            if done.groups.contains_key(k) {
                assert(g.contains_key(k));
                let i = choose|i: int| #[trigger] key_at(es, i, k);
                assert(ks[i] == k);
            }
            if ks.contains(k) {
                let i = choose|i: int| 0 <= i < ks.len() && ks[i] == k;
                assert(key_at(es, i, k));
                assert(g.contains_key(k));
            }
        }
        assert(lists_keys(ks, done.groups));
        assert(ks.take(0).map_values(f) =~= seq![]);
        assert(n0 + ks.take(0).map_values(f) =~= n0);
    }
    for e in it: entries
        invariant
            it.seq() == es,
            keys_ascend(es),
            listed(es) == g,
            done.groups == g.map_values(|b: Bucket| b@),
            ks == Seq::new(es.len(), |i: int| es[i].0@),
            f == (|k: Seq<char>| leftover(k, done.groups[k])),
            notes_of(notes@) == n0 + ks.take(it.index() as int).map_values(f),
    {
        let ghost i = it.index() as int;
        let ghost before = notes@;
        let ghost k = e.0@;
        proof {
            crate::textmap::lemma_listed(es, i);
            assert(done.groups[k] == e.1@);
        }
        let reason: &'static str = if e.1.quarantined {
            "fragmented datagram quarantined; not delivered to TCP"
        } else {
            "incomplete fragmented datagram (missing tail or gap)"
        };
        notes.push(FragNote { reason, frame_idx: e.1.last_frame, key: e.0 });
        proof {
            assert(notes_of(notes@) =~= notes_of(before).push(leftover(k, done.groups[k])));
            assert(ks.take(i + 1) =~= ks.take(i).push(ks[i]));
            assert(ks.take(i + 1).map_values(f) =~= ks.take(i).map_values(f).push(f(ks[i])));
            assert(notes_of(notes@) =~= n0 + ks.take(i + 1).map_values(f));
        }
    }
    assert(ks.take(ks.len() as int) =~= ks);
    let datagrams = file_all(w.datagrams);
    IpReassembly { datagrams, notes }
}

/// A packet changes no other datagram's fragments.
pub proof fn law_other_datagrams_untouched(w: Progress, p: PacketModel, k: Seq<char>)
    requires
        k != key_text(p),
    ensures
        w.fed(p).groups.contains_key(k) == w.groups.contains_key(k),
        w.groups.contains_key(k) ==> w.fed(p).groups[k] == w.groups[k],
{
}

/// A quarantined datagram stays quarantined and is never delivered, whatever
/// fragments follow.
pub proof fn law_quarantine_is_final(w: Progress, p: PacketModel, k: Seq<char>)
    requires
        w.groups.contains_key(k),
        w.groups[k].quarantined,
        p.mf || p.frag_off != 0,
    ensures
        w.fed(p).groups.contains_key(k),
        w.fed(p).groups[k].quarantined,
        k == key_text(p) ==> w.fed(p).datagrams == w.datagrams,
{
}

/// An overlapping fragment quarantines its datagram and is noted.
pub proof fn law_overlap_quarantines(w: Progress, p: PacketModel)
    requires
        p.mf || p.frag_off != 0,
        w.bucket(p).overlaps(p),
    ensures
        w.fed(p).groups.contains_key(key_text(p)),
        w.fed(p).groups[key_text(p)].quarantined,
        w.fed(p).datagrams == w.datagrams,
        w.fed(p).notes.contains(
            NoteModel { reason: overlap_reason(), frame_idx: p.frame_idx, key: key_text(p) },
        ),
{
    let n = w.notes.len() as int;
    assert(w.fed(p).notes[n] == NoteModel {
        reason: overlap_reason(),
        frame_idx: p.frame_idx,
        key: key_text(p),
    });
}

/// A delivered datagram holds the bytes of each of its fragments.
pub proof fn law_delivered_keeps_fragments(b: BucketModel, i: int, j: int)
    requires
        b.wf(),
        !b.quarantined,
        b.complete(),
        0 <= i < b.pieces.len(),
        0 <= j < b.pieces[i].data.len(),
    ensures
        b.datagram().l4.len() == b.total->0,
        b.datagram().l4[b.pieces[i].offset + j] == b.pieces[i].data[j],
{
    crate::cover::law_pieces_kept(b.pieces, b.total->0, i);
    let whole = assembled(b.pieces, b.total->0);
    assert(whole.subrange(b.pieces[i].offset, b.pieces[i].end())[j] == b.pieces[i].data[j]);
}

/// Filing keeps packets in the order of their frames and neither drops nor adds
/// any.
pub proof fn law_by_frame(s: Seq<PacketModel>)
    ensures
        by_frame(s).to_multiset() == s.to_multiset(),
        forall|i: int, j: int|
            0 <= i < j < by_frame(s).len() ==> (#[trigger] by_frame(s)[i]).frame_idx <= (
            #[trigger] by_frame(s)[j]).frame_idx,
    decreases s.len(),
{
    broadcast use vstd::seq_lib::group_to_multiset_ensures;

    if s.len() > 0 {
        law_by_frame(s.drop_last());
        lemma_filed_order(by_frame(s.drop_last()), s.last());
        assert(s =~= s.drop_last().push(s.last()));
    } else {
        assert(by_frame(s) =~= s);
    }
}

proof fn lemma_filed_order(s: Seq<PacketModel>, p: PacketModel)
    requires
        forall|i: int, j: int|
            0 <= i < j < s.len() ==> (#[trigger] s[i]).frame_idx <= (#[trigger] s[j]).frame_idx,
    ensures
        filed(s, p).len() == s.len() + 1,
        filed(s, p).to_multiset() == s.to_multiset().insert(p),
        forall|i: int, j: int|
            0 <= i < j < filed(s, p).len() ==> (#[trigger] filed(s, p)[i]).frame_idx <= (
            #[trigger] filed(s, p)[j]).frame_idx,
        forall|i: int|
            0 <= i < filed(s, p).len() ==> (#[trigger] filed(s, p)[i]).frame_idx <= if s.len() > 0
                && s.last().frame_idx > p.frame_idx {
                s.last().frame_idx
            } else {
                p.frame_idx
            },
    decreases s.len(),
{
    broadcast use vstd::seq_lib::group_to_multiset_ensures;

    if s.len() == 0 || s.last().frame_idx <= p.frame_idx {
        assert forall|i: int| 0 <= i < s.len() implies (#[trigger] s[i]).frame_idx
            <= p.frame_idx by {
            if i < s.len() - 1 {
                assert(s[i].frame_idx <= s[s.len() - 1].frame_idx);
            }
        }
    } else {
        let t = s.drop_last();
        lemma_filed_order(t, p);
        let f = filed(t, p);
        assert(s =~= t.push(s.last()));
        assert(t.push(s.last()).to_multiset() =~= t.to_multiset().insert(s.last()));
        assert(filed(s, p) == f.push(s.last()));
        assert(f.push(s.last()).to_multiset() =~= f.to_multiset().insert(s.last()));
        assert(filed(s, p).to_multiset() =~= s.to_multiset().insert(p));
        if t.len() > 0 {
            assert(s[t.len() - 1].frame_idx <= s[s.len() - 1].frame_idx);
        }
    }
}

/// The packet is a fragment.
pub open spec fn in_part(p: PacketModel) -> bool {
    p.mf || p.frag_off != 0
}

/// The first `n` packets but for the fragments of the datagram with key `k`.
pub open spec fn without(ps: Seq<PacketModel>, k: Seq<char>, n: int) -> Seq<PacketModel>
    decreases n,
{
    if n <= 0 {
        seq![]
    } else if in_part(ps[n - 1]) && key_text(ps[n - 1]) == k {
        without(ps, k, n - 1)
    } else {
        without(ps, k, n - 1).push(ps[n - 1])
    }
}

/// A datagram that was delivered, and the key of the fragments that it was put together
/// from, where it was.
pub struct Delivery {
    pub datagram: PacketModel,
    pub from: Option<Seq<char>>,
}

/// What the first `n` packets deliver.
pub open spec fn deliveries(ps: Seq<PacketModel>, n: int) -> Seq<Delivery>
    decreases n,
{
    if n <= 0 {
        seq![]
    } else {
        let p = ps[n - 1];
        let before = fed_all(ps, n - 1).datagrams;
        let after = fed_all(ps, n).datagrams;
        if after.len() == before.len() {
            deliveries(ps, n - 1)
        } else {
            deliveries(ps, n - 1).push(
                Delivery {
                    datagram: after.last(),
                    from: if in_part(p) {
                        Some(key_text(p))
                    } else {
                        None
                    },
                },
            )
        }
    }
}

/// The deliveries but for those put together from fragments with key `k`.
pub open spec fn not_from(ds: Seq<Delivery>, k: Seq<char>) -> Seq<Delivery>
    decreases ds.len(),
{
    if ds.len() == 0 {
        seq![]
    } else if ds.last().from == Some(k) {
        not_from(ds.drop_last(), k)
    } else {
        not_from(ds.drop_last(), k).push(ds.last())
    }
}

/// The datagrams of the deliveries.
pub open spec fn datagrams_of(ds: Seq<Delivery>) -> Seq<PacketModel> {
    ds.map_values(|d: Delivery| d.datagram)
}

proof fn lemma_deliveries(ps: Seq<PacketModel>, n: int)
    requires
        0 <= n <= ps.len(),
    ensures
        datagrams_of(deliveries(ps, n)) == fed_all(ps, n).datagrams,
    decreases n,
{
    if n > 0 {
        lemma_deliveries(ps, n - 1);
        let before = fed_all(ps, n - 1).datagrams;
        let after = fed_all(ps, n).datagrams;
        assert(fed_all(ps, n) == fed_all(ps, n - 1).fed(ps[n - 1]));
        if after.len() != before.len() {
            assert(after =~= before.push(after.last()));
        }
        assert(datagrams_of(deliveries(ps, n)) =~= after);
    } else {
        assert(datagrams_of(deliveries(ps, n)) =~= seq![]);
    }
}

proof fn lemma_same_start(a: Seq<PacketModel>, b: Seq<PacketModel>, n: int)
    requires
        n <= a.len(),
        n <= b.len(),
        forall|i: int| 0 <= i < n ==> a[i] == b[i],
    ensures
        fed_all(a, n) == fed_all(b, n),
        deliveries(a, n) == deliveries(b, n),
    decreases n,
{
    if n > 0 {
        lemma_same_start(a, b, n - 1);
        assert(a[n - 1] == b[n - 1]);
    }
}

proof fn lemma_without(ps: Seq<PacketModel>, k: Seq<char>, n: int)
    requires
        0 <= n <= ps.len(),
    ensures
        ({
            let rest = without(ps, k, n);
            let r = rest.len() as int;
            &&& fed_all(rest, r).groups == fed_all(ps, n).groups.remove(k)
            &&& deliveries(rest, r) == not_from(deliveries(ps, n), k)
        }),
    decreases n,
{
    let rest = without(ps, k, n);
    let r = rest.len() as int;
    if n <= 0 {
        assert(fed_all(rest, r).groups =~= fed_all(ps, n).groups.remove(k));
    } else {
        lemma_without(ps, k, n - 1);
        let p = ps[n - 1];
        let rest0 = without(ps, k, n - 1);
        let r0 = rest0.len() as int;
        let w = fed_all(ps, n - 1);
        let v = fed_all(rest0, r0);
        let d0 = deliveries(ps, n - 1);
        let d = deliveries(ps, n);
        assert(fed_all(ps, n) == w.fed(p));
        if d != d0 {
            assert(d.drop_last() =~= d0);
        }
        if in_part(p) && key_text(p) == k {
            assert(w.fed(p).groups.remove(k) =~= w.groups.remove(k));
        } else {
            lemma_same_start(rest, rest0, r0);
            assert(rest[r0] == p);
            assert(fed_all(rest, r) == v.fed(p));
            if in_part(p) {
                assert(v.bucket(p) == w.bucket(p));
            }
            assert(v.fed(p).groups =~= w.fed(p).groups.remove(k));
            lemma_deliveries(rest, r);
            lemma_deliveries(ps, n);
            let a = fed_all(rest, r).datagrams;
            let b = fed_all(ps, n).datagrams;
            assert((a.len() == v.datagrams.len()) == (b.len() == w.datagrams.len()));
            if a.len() != v.datagrams.len() {
                assert(a.last() == b.last());
            }
            assert(deliveries(rest, r) =~= not_from(d, k));
        }
    }
}

/// A delivery put behind those of no later frame.
pub open spec fn filed_delivery(s: Seq<Delivery>, d: Delivery) -> Seq<Delivery>
    decreases s.len(),
{
    if s.len() == 0 || s.last().datagram.frame_idx <= d.datagram.frame_idx {
        s.push(d)
    } else {
        filed_delivery(s.drop_last(), d).push(s.last())
    }
}

/// Deliveries in the order of their frames; those of one frame keep their order.
pub open spec fn in_frames(ds: Seq<Delivery>) -> Seq<Delivery>
    decreases ds.len(),
{
    if ds.len() == 0 {
        seq![]
    } else {
        filed_delivery(in_frames(ds.drop_last()), ds.last())
    }
}

proof fn lemma_filed_delivery(s: Seq<Delivery>, d: Delivery)
    ensures
        datagrams_of(filed_delivery(s, d)) == filed(datagrams_of(s), d.datagram),
    decreases s.len(),
{
    let m = datagrams_of(s);
    if s.len() > 0 {
        assert(m.last() == s.last().datagram);
        assert(m.drop_last() =~= datagrams_of(s.drop_last()));
        lemma_filed_delivery(s.drop_last(), d);
    }
    assert(datagrams_of(filed_delivery(s, d)) =~= filed(m, d.datagram));
}

proof fn lemma_in_frames(ds: Seq<Delivery>)
    ensures
        datagrams_of(in_frames(ds)) == by_frame(datagrams_of(ds)),
    decreases ds.len(),
{
    let m = datagrams_of(ds);
    if ds.len() > 0 {
        lemma_in_frames(ds.drop_last());
        lemma_filed_delivery(in_frames(ds.drop_last()), ds.last());
        assert(m.drop_last() =~= datagrams_of(ds.drop_last()));
        assert(m.last() == ds.last().datagram);
    } else {
        assert(datagrams_of(in_frames(ds)) =~= by_frame(m));
    }
}

/// The frames of deliveries do not decrease.
spec fn ascending(s: Seq<Delivery>) -> bool {
    forall|i: int, j: int|
        0 <= i < j < s.len() ==> (#[trigger] s[i]).datagram.frame_idx <= (
        #[trigger] s[j]).datagram.frame_idx
}

proof fn lemma_in_frames_ascends(ds: Seq<Delivery>)
    ensures
        ascending(in_frames(ds)),
{
    lemma_in_frames(ds);
    law_by_frame(datagrams_of(ds));
    let s = in_frames(ds);
    let m = by_frame(datagrams_of(ds));
    assert forall|i: int, j: int| 0 <= i < j < s.len() implies (
    #[trigger] s[i]).datagram.frame_idx <= (#[trigger] s[j]).datagram.frame_idx by {
        assert(m[i] == s[i].datagram && m[j] == s[j].datagram);
    }
}

proof fn lemma_not_from_push(s: Seq<Delivery>, d: Delivery, k: Seq<char>)
    ensures
        not_from(s.push(d), k) == (if d.from == Some(k) {
            not_from(s, k)
        } else {
            not_from(s, k).push(d)
        }),
{
    assert(s.push(d).drop_last() =~= s);
}

/// The last delivery that stays is not of a later frame than any bound of the list.
proof fn lemma_not_from_last(s: Seq<Delivery>, k: Seq<char>, bound: int)
    requires
        forall|i: int| 0 <= i < s.len() ==> (#[trigger] s[i]).datagram.frame_idx <= bound,
        not_from(s, k).len() > 0,
    ensures
        not_from(s, k).last().datagram.frame_idx <= bound,
    decreases s.len(),
{
    assert(s[s.len() - 1].datagram.frame_idx <= bound);
    if s.last().from == Some(k) {
        let t = s.drop_last();
        assert forall|i: int| 0 <= i < t.len() implies (#[trigger] t[i]).datagram.frame_idx
            <= bound by {
            assert(t[i] == s[i]);
        }
        lemma_not_from_last(t, k, bound);
    }
}

proof fn lemma_not_from_filed(s: Seq<Delivery>, d: Delivery, k: Seq<char>)
    requires
        ascending(s),
    ensures
        not_from(filed_delivery(s, d), k) == (if d.from == Some(k) {
            not_from(s, k)
        } else {
            filed_delivery(not_from(s, k), d)
        }),
    decreases s.len(),
{
    if s.len() == 0 || s.last().datagram.frame_idx <= d.datagram.frame_idx {
        lemma_not_from_push(s, d, k);
        if not_from(s, k).len() > 0 {
            assert forall|i: int| 0 <= i < s.len() implies (#[trigger] s[i]).datagram.frame_idx
                <= d.datagram.frame_idx by {
                if i < s.len() - 1 {
                    assert(s[i].datagram.frame_idx <= s[s.len() - 1].datagram.frame_idx);
                }
            }
            lemma_not_from_last(s, k, d.datagram.frame_idx as int);
        }
    } else {
        let t = s.drop_last();
        let z = s.last();
        assert(ascending(t)) by {
            assert forall|i: int, j: int| 0 <= i < j < t.len() implies (
            #[trigger] t[i]).datagram.frame_idx <= (#[trigger] t[j]).datagram.frame_idx by {
                assert(t[i] == s[i] && t[j] == s[j]);
            }
        }
        lemma_not_from_filed(t, d, k);
        lemma_not_from_push(filed_delivery(t, d), z, k);
        if z.from != Some(k) && d.from != Some(k) {
            let b = not_from(s, k);
            assert(b.drop_last() =~= not_from(t, k));
            assert(b.last() == z);
        }
    }
}

proof fn lemma_not_from_in_frames(ds: Seq<Delivery>, k: Seq<char>)
    ensures
        in_frames(not_from(ds, k)) == not_from(in_frames(ds), k),
    decreases ds.len(),
{
    if ds.len() > 0 {
        let t = ds.drop_last();
        lemma_not_from_in_frames(t, k);
        lemma_in_frames_ascends(t);
        lemma_not_from_filed(in_frames(t), ds.last(), k);
        if ds.last().from != Some(k) {
            assert(not_from(ds, k).drop_last() =~= not_from(t, k));
        }
    }
}

/// Leaving out the fragments of one datagram leaves out what they were put together to
/// and nothing else: what is delivered of the other packets is the same, in the same
/// order, and so are the fragments that still wait. This holds of overlapping and
/// oversized fragments too.
pub proof fn law_one_datagram_alone(ps: Seq<PacketModel>, k: Seq<char>)
    ensures
        ({
            let n = ps.len() as int;
            let rest = without(ps, k, n);
            let all = fed_all(ps, n);
            let less = fed_all(rest, rest.len() as int);
            let delivered = in_frames(deliveries(ps, n));
            &&& by_frame(all.datagrams) == datagrams_of(delivered)
            &&& by_frame(less.datagrams) == datagrams_of(not_from(delivered, k))
            &&& less.groups == all.groups.remove(k)
        }),
{
    let n = ps.len() as int;
    let rest = without(ps, k, n);
    let ds = deliveries(ps, n);
    lemma_deliveries(ps, n);
    lemma_deliveries(rest, rest.len() as int);
    lemma_without(ps, k, n);
    lemma_in_frames(ds);
    lemma_in_frames(not_from(ds, k));
    lemma_not_from_in_frames(ds, k);
}

proof fn lemma_delivered_whole(ps: Seq<PacketModel>, n: int)
    requires
        0 <= n <= ps.len(),
    ensures
        forall|i: int|
            0 <= i < fed_all(ps, n).datagrams.len() ==> !in_part(
                #[trigger] fed_all(ps, n).datagrams[i],
            ),
        forall|i: int|
            0 <= i < n && !in_part(#[trigger] ps[i]) ==> fed_all(ps, n).datagrams.contains(ps[i]),
    decreases n,
{
    if n > 0 {
        lemma_delivered_whole(ps, n - 1);
        let w = fed_all(ps, n - 1).datagrams;
        let v = fed_all(ps, n).datagrams;
        assert(fed_all(ps, n) == fed_all(ps, n - 1).fed(ps[n - 1]));
        assert(v.len() >= w.len() && v.take(w.len() as int) =~= w);
        assert forall|i: int| 0 <= i < v.len() implies !in_part(#[trigger] v[i]) by {
            if i < w.len() {
                assert(v[i] == w[i]);
            }
        }
        assert forall|i: int| 0 <= i < n && !in_part(#[trigger] ps[i]) implies v.contains(
            ps[i],
        ) by {
            if i < n - 1 {
                let j = w.index_of(ps[i]);
                assert(v[j] == w[j]);
            } else {
                assert(v[v.len() - 1] == ps[i]);
            }
        }
    }
}

/// What is delivered stands in the order of the frames, holds no fragment, and holds
/// every packet that was none.
pub proof fn law_delivered_are_whole(ps: Seq<PacketModel>)
    ensures
        ({
            let out = by_frame(fed_all(ps, ps.len() as int).datagrams);
            &&& forall|i: int, j: int|
                0 <= i < j < out.len() ==> (#[trigger] out[i]).frame_idx <= (
                #[trigger] out[j]).frame_idx
            &&& forall|i: int| 0 <= i < out.len() ==> !in_part(#[trigger] out[i])
            &&& forall|i: int|
                0 <= i < ps.len() && !in_part(#[trigger] ps[i]) ==> out.contains(ps[i])
        }),
{
    broadcast use vstd::seq_lib::group_to_multiset_ensures;

    let d = fed_all(ps, ps.len() as int).datagrams;
    let out = by_frame(d);
    law_by_frame(d);
    lemma_delivered_whole(ps, ps.len() as int);
    assert forall|i: int| 0 <= i < out.len() implies !in_part(#[trigger] out[i]) by {
        assert(out.contains(out[i]));
        assert(out.to_multiset().count(out[i]) > 0);
        assert(d.contains(out[i]));
    }
    assert forall|i: int| 0 <= i < ps.len() && !in_part(#[trigger] ps[i]) implies out.contains(
        ps[i],
    ) by {
        assert(d.contains(ps[i]));
        assert(d.to_multiset().count(ps[i]) > 0);
    }
}

} // verus!
