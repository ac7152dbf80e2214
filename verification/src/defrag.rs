//! IP fragment reassembly. Overlapping or over-budget fragments quarantine only
//! their own datagram; every other datagram is unaffected.

use vstd::prelude::*;
use crate::bytes::{copy_bytes, copy_numbers, push_all};
use crate::datagrams::make_up;
use crate::text::same;

verus! {

#[derive(Clone, Debug, PartialEq, Eq, Hash)]
pub struct FragKey {
    pub src: String,
    pub dst: String,
    pub ident: u32,
    pub ip_version: u8,
}

#[derive(Clone, Debug)]
pub struct DefragEvent {
    /// completed, quarantine or incomplete
    pub kind: String,
    pub reason: Option<String>,
    pub src: String,
    pub dst: String,
    pub ip_version: u8,
    pub ident: u32,
    pub frames: Vec<u64>,
    pub bytes: usize,
}

#[derive(Clone, Debug)]
pub enum DefragOutcome {
    /// The payload of the whole datagram.
    Completed(Vec<u8>),
    /// The fragment is held; fragments are missing.
    Buffered,
    /// The datagram is quarantined from now on.
    Quarantined,
    /// The datagram was quarantined before; the fragment is dropped.
    Poisoned,
}

/// What a key is.
pub struct KeyModel {
    pub src: Seq<char>,
    pub dst: Seq<char>,
    pub ident: u32,
    pub ip_version: u8,
}

impl View for FragKey {
    type V = KeyModel;

    open spec fn view(&self) -> KeyModel {
        KeyModel {
            src: self.src@,
            dst: self.dst@,
            ident: self.ident,
            ip_version: self.ip_version,
        }
    }
}

/// What an event says.
pub struct EventModel {
    pub kind: Seq<char>,
    pub reason: Option<Seq<char>>,
    pub key: KeyModel,
    pub frames: Seq<u64>,
    pub bytes: nat,
}

impl View for DefragEvent {
    type V = EventModel;

    open spec fn view(&self) -> EventModel {
        EventModel {
            kind: self.kind@,
            reason: match self.reason {
                Some(r) => Some(r@),
                None => None,
            },
            key: KeyModel {
                src: self.src@,
                dst: self.dst@,
                ident: self.ident,
                ip_version: self.ip_version,
            },
            frames: self.frames@,
            bytes: self.bytes as nat,
        }
    }
}

pub open spec fn events_of(s: Seq<DefragEvent>) -> Seq<EventModel> {
    s.map_values(|e: DefragEvent| e@)
}

struct Piece {
    start: u32,
    data: Vec<u8>,
}

/// Bytes at an offset.
pub struct PieceModel {
    pub start: int,
    pub data: Seq<u8>,
}

impl PieceModel {
    pub open spec fn end(self) -> int {
        self.start + self.data.len()
    }
}

impl View for Piece {
    type V = PieceModel;

    closed spec fn view(&self) -> PieceModel {
        PieceModel { start: self.start as int, data: self.data@ }
    }
}

spec fn piece_models(s: Seq<Piece>) -> Seq<PieceModel> {
    s.map_values(|p: Piece| p@)
}

/// Pieces in the order of their offsets, no two at one offset.
pub open spec fn ordered(ps: Seq<PieceModel>) -> bool {
    &&& forall|i: int, j: int|
        0 <= i < j < ps.len() ==> (#[trigger] ps[i]).start < (#[trigger] ps[j]).start
    &&& forall|i: int|
        0 <= i < ps.len() ==> 0 <= (#[trigger] ps[i]).start && ps[i].end() <= u32::MAX
}

/// No piece reaches into the next.
pub open spec fn apart(ps: Seq<PieceModel>) -> bool {
    forall|i: int, j: int|
        0 <= i < j < ps.len() ==> (#[trigger] ps[i]).end() <= (#[trigger] ps[j]).start
}

/// A piece put at its place; one at the same offset gives way.
pub open spec fn filed(ps: Seq<PieceModel>, p: PieceModel) -> Seq<PieceModel>
    decreases ps.len(),
{
    if ps.len() == 0 || ps.last().start < p.start {
        ps.push(p)
    } else if ps.last().start == p.start {
        ps.drop_last().push(p)
    } else {
        filed(ps.drop_last(), p).push(ps.last())
    }
}

/// Some piece meets `a..b`.
pub open spec fn any_meets(ps: Seq<PieceModel>, a: int, b: int) -> bool {
    exists|i: int| 0 <= i < ps.len() && a < (#[trigger] ps[i]).end() && ps[i].start < b
}

/// How far the first `n` pieces reach from 0 without a gap.
pub open spec fn reach(ps: Seq<PieceModel>, n: int) -> Option<int>
    decreases n,
{
    if n <= 0 {
        Some(0)
    } else {
        match reach(ps, n - 1) {
            Some(c) if ps[n - 1].start <= c => Some(
                if ps[n - 1].end() > c {
                    ps[n - 1].end()
                } else {
                    c
                },
            ),
            _ => None,
        }
    }
}

/// The bytes of the first `n` pieces, one after the other.
pub open spec fn strung(ps: Seq<PieceModel>, n: int) -> Seq<u8>
    decreases n,
{
    if n <= 0 {
        seq![]
    } else {
        strung(ps, n - 1) + ps[n - 1].data
    }
}

struct Datagram {
    key: FragKey,
    pieces: Vec<Piece>,
    total: Option<u32>,
    frames: Vec<u64>,
    bytes: usize,
}

/// What a datagram has so far.
pub struct DatagramModel {
    pub key: KeyModel,
    pub pieces: Seq<PieceModel>,
    /// The length, known once the last fragment came.
    pub total: Option<int>,
    pub frames: Seq<u64>,
    pub bytes: nat,
}

impl View for Datagram {
    type V = DatagramModel;

    closed spec fn view(&self) -> DatagramModel {
        DatagramModel {
            key: self.key@,
            pieces: piece_models(self.pieces@),
            total: match self.total {
                Some(t) => Some(t as int),
                None => None,
            },
            frames: self.frames@,
            bytes: self.bytes as nat,
        }
    }
}

impl DatagramModel {
    pub open spec fn fresh(key: KeyModel) -> DatagramModel {
        DatagramModel { key, pieces: seq![], total: None, frames: seq![], bytes: 0 }
    }

    /// The datagram once a fragment is noted.
    pub open spec fn noted(self, f: FragmentModel) -> DatagramModel {
        DatagramModel {
            frames: self.frames.push(f.frame),
            bytes: self.bytes + f.data.len(),
            total: if f.more {
                self.total
            } else {
                Some(f.end())
            },
            ..self
        }
    }

    /// The datagram with a fragment more.
    pub open spec fn with(self, f: FragmentModel) -> DatagramModel {
        DatagramModel {
            pieces: filed(self.pieces, PieceModel { start: f.start, data: f.data }),
            ..self.noted(f)
        }
    }

    /// The pieces stand without a gap from 0 to the length at least.
    pub open spec fn complete(self) -> bool {
        self.total is Some && (reach(self.pieces, self.pieces.len() as int) matches Some(c) && c
            >= self.total->0)
    }

    /// The payload of a complete datagram.
    pub open spec fn payload(self) -> Seq<u8> {
        let s = strung(self.pieces, self.pieces.len() as int);
        if s.len() <= self.total->0 {
            s
        } else {
            s.take(self.total->0)
        }
    }
}

/// A fragment.
pub struct FragmentModel {
    pub key: KeyModel,
    pub start: int,
    pub more: bool,
    pub data: Seq<u8>,
    pub frame: u64,
}

impl FragmentModel {
    pub open spec fn end(self) -> int {
        self.start + self.data.len()
    }
}

/// What feeding a fragment yields.
pub enum OutcomeModel {
    Completed(Seq<u8>),
    Buffered,
    Quarantined,
    Poisoned,
}

impl DefragOutcome {
    /// The outcome is the modelled one.
    pub open spec fn is(self, m: OutcomeModel) -> bool {
        match (self, m) {
            (DefragOutcome::Completed(v), OutcomeModel::Completed(s)) => v@ == s,
            (DefragOutcome::Buffered, OutcomeModel::Buffered) => true,
            (DefragOutcome::Quarantined, OutcomeModel::Quarantined) => true,
            (DefragOutcome::Poisoned, OutcomeModel::Poisoned) => true,
            _ => false,
        }
    }
}

/// The place of a key among the first `n` datagrams.
pub open spec fn place_of(ds: Seq<DatagramModel>, k: KeyModel, n: int) -> Option<int>
    decreases n,
{
    if n <= 0 {
        None
    } else if ds[n - 1].key == k {
        Some(n - 1)
    } else {
        place_of(ds, k, n - 1)
    }
}

/// What a defragmenter holds. Pending datagrams stand in the order in which their
/// first fragment came.
pub struct DefragModel {
    pub max_bytes: nat,
    pub max_datagrams: nat,
    pub pending: Seq<DatagramModel>,
    pub poisoned: Set<KeyModel>,
    pub events: Seq<EventModel>,
}

impl DefragModel {
    pub open spec fn wf(self) -> bool {
        forall|i: int|
            0 <= i < self.pending.len() ==> ordered((#[trigger] self.pending[i]).pieces) && apart(
                self.pending[i].pieces,
            )
    }

    pub open spec fn find(self, k: KeyModel) -> Option<int> {
        place_of(self.pending, k, self.pending.len() as int)
    }

    /// What is held of the datagram of a key.
    pub open spec fn held(self, k: KeyModel) -> DatagramModel {
        match self.find(k) {
            Some(i) => self.pending[i],
            None => DatagramModel::fresh(k),
        }
    }

    /// The pending datagrams without one.
    pub open spec fn without(self, k: KeyModel) -> Seq<DatagramModel> {
        match self.find(k) {
            Some(i) => self.pending.remove(i),
            None => self.pending,
        }
    }

    /// The pending datagrams with another state of one.
    pub open spec fn replaced(self, d: DatagramModel) -> Seq<DatagramModel> {
        match self.find(d.key) {
            Some(i) => self.pending.update(i, d),
            None => self.pending.push(d),
        }
    }

    /// The state after a datagram in state `d` was quarantined.
    pub open spec fn quarantined(self, d: DatagramModel, reason: Seq<char>) -> DefragModel {
        DefragModel {
            pending: self.without(d.key),
            poisoned: self.poisoned.insert(d.key),
            events: self.events.push(
                EventModel {
                    kind: "quarantine"@,
                    reason: Some(reason),
                    key: d.key,
                    frames: d.frames,
                    bytes: d.bytes,
                },
            ),
            ..self
        }
    }

    /// What a fragment does and yields.
    pub open spec fn added(self, f: FragmentModel) -> (DefragModel, OutcomeModel) {
        let d = self.held(f.key);
        let n = d.noted(f);
        let h = d.with(f);
        if self.poisoned.contains(f.key) {
            (self, OutcomeModel::Poisoned)
        } else if self.find(f.key) is None && self.pending.len() >= self.max_datagrams {
            (
                self.quarantined(DatagramModel::fresh(f.key), "datagram count budget exceeded"@),
                OutcomeModel::Quarantined,
            )
        } else if any_meets(d.pieces, f.start, f.end()) {
            (self.quarantined(d, "overlapping fragments"@), OutcomeModel::Quarantined)
        } else if n.bytes > self.max_bytes || (n.total matches Some(t) && t > self.max_bytes) {
            (self.quarantined(n, "datagram byte budget exceeded"@), OutcomeModel::Quarantined)
        } else if h.complete() {
            (
                DefragModel {
                    pending: self.without(f.key),
                    events: self.events.push(
                        EventModel {
                            kind: "completed"@,
                            reason: None,
                            key: f.key,
                            frames: h.frames,
                            bytes: h.payload().len(),
                        },
                    ),
                    ..self
                },
                OutcomeModel::Completed(h.payload()),
            )
        } else {
            (DefragModel { pending: self.replaced(h), ..self }, OutcomeModel::Buffered)
        }
    }

    /// The event on a datagram that was never completed.
    pub open spec fn unfinished(d: DatagramModel) -> EventModel {
        EventModel {
            kind: "incomplete"@,
            reason: Some("capture ended before reassembly"@),
            key: d.key,
            frames: d.frames,
            bytes: d.bytes,
        }
    }
}

pub struct Defragmenter {
    max_datagram_bytes: usize,
    max_datagrams: usize,
    pending: Vec<Datagram>,
    poisoned: Vec<FragKey>,
    pub events: Vec<DefragEvent>,
}

spec fn datagram_models(s: Seq<Datagram>) -> Seq<DatagramModel> {
    s.map_values(|d: Datagram| d@)
}

spec fn key_set(s: Seq<FragKey>) -> Set<KeyModel> {
    s.map_values(|k: FragKey| k@).to_set()
}

impl View for Defragmenter {
    type V = DefragModel;

    closed spec fn view(&self) -> DefragModel {
        DefragModel {
            max_bytes: self.max_datagram_bytes as nat,
            max_datagrams: self.max_datagrams as nat,
            pending: datagram_models(self.pending@),
            poisoned: key_set(self.poisoned@),
            events: events_of(self.events@),
        }
    }
}

impl FragKey {
    fn same(&self, o: &FragKey) -> (r: bool)
        ensures
            r == (self@ == o@),
    {
        self.ident == o.ident && self.ip_version == o.ip_version && same(
            self.src.as_str(),
            o.src.as_str(),
        ) && same(self.dst.as_str(), o.dst.as_str())
    }

    fn copy(&self) -> (r: FragKey)
        ensures
            r@ == self@,
    {
        FragKey {
            src: self.src.clone(),
            dst: self.dst.clone(),
            ident: self.ident,
            ip_version: self.ip_version,
        }
    }
}

proof fn lemma_place_of(ds: Seq<DatagramModel>, k: KeyModel, n: int)
    requires
        0 <= n <= ds.len(),
    ensures
        match place_of(ds, k, n) {
            Some(i) => 0 <= i < n && ds[i].key == k,
            None => true,
        },
    decreases n,
{
    if n > 0 {
        lemma_place_of(ds, k, n - 1);
    }
}

proof fn lemma_filed(ps: Seq<PieceModel>, p: PieceModel, pos: int)
    requires
        ordered(ps),
        0 <= pos <= ps.len(),
        pos > 0 ==> ps[pos - 1].start < p.start,
        forall|i: int| pos <= i < ps.len() ==> (#[trigger] ps[i]).start > p.start,
    ensures
        filed(ps, p) == ps.insert(pos, p),
    decreases ps.len(),
{
    if ps.len() > 0 && pos < ps.len() {
        assert(ps[ps.len() - 1].start > p.start);
        let t = ps.drop_last();
        assert forall|i: int| pos <= i < t.len() implies (#[trigger] t[i]).start > p.start by {
            assert(t[i] == ps[i]);
        }
        lemma_filed(t, p, pos);
        assert(t.insert(pos, p).push(ps.last()) =~= ps.insert(pos, p));
    } else {
        assert(ps.push(p) =~= ps.insert(pos, p));
    }
}

proof fn lemma_filed_over(ps: Seq<PieceModel>, p: PieceModel, pos: int)
    requires
        ordered(ps),
        0 <= pos < ps.len(),
        ps[pos].start == p.start,
    ensures
        filed(ps, p) == ps.update(pos, p),
    decreases ps.len(),
{
    if pos < ps.len() - 1 {
        assert(ps[pos].start < ps[ps.len() - 1].start);
        let t = ps.drop_last();
        assert(t[pos] == ps[pos]);
        lemma_filed_over(t, p, pos);
        assert(t.update(pos, p).push(ps.last()) =~= ps.update(pos, p));
    } else {
        assert(ps.drop_last().push(p) =~= ps.update(pos, p));
    }
}

proof fn lemma_filed_ordered(ps: Seq<PieceModel>, p: PieceModel)
    requires
        ordered(ps),
        0 <= p.start,
        p.end() <= u32::MAX,
    ensures
        ordered(filed(ps, p)),
        forall|i: int|
            0 <= i < filed(ps, p).len() ==> (#[trigger] filed(ps, p)[i]).start <= if ps.len() > 0
                && ps.last().start > p.start {
                ps.last().start
            } else {
                p.start
            },
    decreases ps.len(),
{
    if ps.len() == 0 || ps.last().start < p.start {
        let q = ps.push(p);
        assert forall|i: int, j: int| 0 <= i < j < q.len() implies (#[trigger] q[i]).start < (
        #[trigger] q[j]).start by {
            assert(q[i] == ps[i]);
            if j == ps.len() && i < ps.len() - 1 {
                assert(ps[i].start < ps[ps.len() - 1].start);
            }
        }
        assert forall|i: int| 0 <= i < q.len() implies 0 <= (#[trigger] q[i]).start && q[i].end()
            <= u32::MAX && q[i].start <= p.start by {
            if i < ps.len() {
                assert(q[i] == ps[i]);
                if i < ps.len() - 1 {
                    assert(ps[i].start < ps[ps.len() - 1].start);
                }
            }
        }
    } else if ps.last().start == p.start {
        let q = ps.drop_last().push(p);
        assert forall|i: int| 0 <= i < q.len() implies 0 <= (#[trigger] q[i]).start && q[i].end()
            <= u32::MAX && q[i].start <= p.start && (i < q.len() - 1 ==> q[i].start < p.start) by {
            if i < ps.len() - 1 {
                assert(q[i] == ps[i]);
                assert(ps[i].start < ps[ps.len() - 1].start);
            }
        }
        assert forall|i: int, j: int| 0 <= i < j < q.len() implies (#[trigger] q[i]).start < (
        #[trigger] q[j]).start by {
            assert(q[i] == ps[i]);
            if j < ps.len() - 1 {
                assert(q[j] == ps[j]);
            }
        }
    } else {
        let t = ps.drop_last();
        lemma_filed_ordered(t, p);
        let u = filed(t, p);
        let q = u.push(ps.last());
        assert(t.len() > 0 ==> t.last().start < ps.last().start) by {
            if t.len() > 0 {
                assert(ps[t.len() - 1].start < ps[ps.len() - 1].start);
            }
        }
        assert(ps[ps.len() - 1].end() <= u32::MAX);
        assert forall|i: int| 0 <= i < u.len() implies (#[trigger] u[i]).start
            < ps.last().start by {}
        assert forall|i: int, j: int| 0 <= i < j < q.len() implies (#[trigger] q[i]).start < (
        #[trigger] q[j]).start by {
            assert(q[i] == u[i]);
            if j < u.len() {
                assert(q[j] == u[j]);
            }
        }
        assert forall|i: int| 0 <= i < q.len() implies 0 <= (#[trigger] q[i]).start && q[i].end()
            <= u32::MAX by {
            if i < u.len() {
                assert(q[i] == u[i]);
            }
        }
    }
}

/// Where a piece goes, and whether it takes the place of another.
proof fn lemma_filed_place(ps: Seq<PieceModel>, p: PieceModel) -> (r: (int, bool))
    requires
        ordered(ps),
    ensures
        0 <= r.0 <= ps.len(),
        r.1 ==> r.0 < ps.len() && ps[r.0].start == p.start && filed(ps, p) == ps.update(r.0, p),
        !r.1 ==> filed(ps, p) == ps.insert(r.0, p) && (r.0 > 0 ==> ps[r.0 - 1].start < p.start)
            && forall|i: int| r.0 <= i < ps.len() ==> (#[trigger] ps[i]).start > p.start,
    decreases ps.len(),
{
    if ps.len() == 0 || ps.last().start < p.start {
        assert(ps.push(p) =~= ps.insert(ps.len() as int, p));
        (ps.len() as int, false)
    } else if ps.last().start == p.start {
        assert(ps.drop_last().push(p) =~= ps.update(ps.len() - 1, p));
        (ps.len() - 1, true)
    } else {
        let t = ps.drop_last();
        assert(ordered(t));
        let r = lemma_filed_place(t, p);
        if r.1 {
            assert(t.update(r.0, p).push(ps.last()) =~= ps.update(r.0, p));
        } else {
            assert(t.insert(r.0, p).push(ps.last()) =~= ps.insert(r.0, p));
            assert forall|i: int| r.0 <= i < ps.len() implies (#[trigger] ps[i]).start
                > p.start by {
                if i < t.len() {
                    assert(t[i] == ps[i]);
                }
            }
        }
        r
    }
}

proof fn lemma_filed_apart(ps: Seq<PieceModel>, p: PieceModel)
    requires
        ordered(ps),
        apart(ps),
        0 <= p.start,
        !any_meets(ps, p.start, p.end()),
    ensures
        apart(filed(ps, p)),
{
    let (pos, over) = lemma_filed_place(ps, p);
    let q = filed(ps, p);
    assert forall|i: int, j: int| 0 <= i < j < q.len() implies (#[trigger] q[i]).end() <= (
    #[trigger] q[j]).start by {
        let a = if over || i <= pos {
            i
        } else {
            i - 1
        };
        let b = if over || j <= pos {
            j
        } else {
            j - 1
        };
        if i == pos {
            assert(q[i] == p);
            assert(q[j] == ps[b]);
            assert(ps[b].start > p.start) by {
                if over {
                    assert(ps[pos].start < ps[b].start);
                }
            }
            assert(!(p.start < ps[b].end() && ps[b].start < p.end()));
        } else if j == pos {
            assert(q[j] == p);
            assert(q[i] == ps[a]);
            assert(ps[a].start < p.start) by {
                if over {
                    assert(ps[a].start < ps[pos].start);
                } else if a < pos - 1 {
                    assert(ps[a].start < ps[pos - 1].start);
                }
            }
            assert(!(p.start < ps[a].end() && ps[a].start < p.end()));
        } else {
            assert(q[i] == ps[a] && q[j] == ps[b]);
            assert(ps[a].end() <= ps[b].start);
        }
    }
}

impl Datagram {
    fn meets(&self, a: u32, b: u32) -> (r: bool)
        requires
            ordered(self@.pieces),
        ensures
            r == any_meets(self@.pieces, a as int, b as int),
    {
        let mut i: usize = 0;
        while i < self.pieces.len()
            invariant
                i <= self.pieces@.len(),
                ordered(self@.pieces),
                forall|j: int|
                    0 <= j < i ==> !(a < (#[trigger] self@.pieces[j]).end() && self@.pieces[j].start
                        < b),
            decreases self.pieces@.len() - i,
        {
            let p = &self.pieces[i];
            assert(self@.pieces[i as int] == p@);
            assert(p@.end() <= u32::MAX);
            let pe: u32 = p.start + p.data.len() as u32;
            if a < pe && p.start < b {
                return true;
            }
            i += 1;
        }
        false
    }

    fn file(&mut self, start: u32, data: Vec<u8>)
        requires
            ordered(old(self)@.pieces),
            start + data@.len() <= u32::MAX,
        ensures
            ordered(final(self)@.pieces),
            final(self)@ == (DatagramModel {
                pieces: filed(
                    old(self)@.pieces,
                    PieceModel { start: start as int, data: data@ },
                ),
                ..old(self)@
            }),
    {
        let ghost ps = self@.pieces;
        let ghost pm = PieceModel { start: start as int, data: data@ };
        let mut pos: usize = self.pieces.len();
        while pos > 0 && self.pieces[pos - 1].start > start
            invariant
                pos <= self.pieces@.len(),
                ps == self@.pieces,
                forall|i: int| pos <= i < ps.len() ==> (#[trigger] ps[i]).start > start,
            decreases pos,
        {
            assert(ps[pos - 1] == self.pieces@[pos - 1]@);
            pos -= 1;
        }
        proof {
            lemma_filed_ordered(ps, pm);
            if pos > 0 {
                assert(ps[pos - 1] == self.pieces@[pos - 1]@);
            }
        }
        let piece = Piece { start, data };
        assert(piece@ == pm);
        if pos > 0 && self.pieces[pos - 1].start == start {
            proof {
                lemma_filed_over(ps, pm, pos - 1);
            }
            self.pieces.set(pos - 1, piece);
            assert(self@.pieces =~= ps.update(pos - 1, pm));
        } else {
            proof {
                lemma_filed(ps, pm, pos as int);
            }
            self.pieces.insert(pos, piece);
            assert(self@.pieces =~= ps.insert(pos as int, pm));
        }
    }

    fn is_complete(&self) -> (r: bool)
        requires
            ordered(self@.pieces),
        ensures
            r == self@.complete(),
    {
        match self.total {
            None => false,
            Some(total) => {
                let mut cursor: u32 = 0;
                let mut i: usize = 0;
                while i < self.pieces.len()
                    invariant
                        i <= self.pieces@.len(),
                        ordered(self@.pieces),
                        self@.total == Some(total as int),
                        reach(self@.pieces, i as int) == Some(cursor as int),
                    decreases self.pieces@.len() - i,
                {
                    let p = &self.pieces[i];
                    assert(self@.pieces[i as int] == p@);
                    assert(p@.end() <= u32::MAX);
                    if p.start > cursor {
                        proof {
                            lemma_reach_stops(self@.pieces, i as int, self@.pieces.len() as int);
                        }
                        return false;
                    }
                    let pe: u32 = p.start + p.data.len() as u32;
                    if pe > cursor {
                        cursor = pe;
                    }
                    i += 1;
                }
                cursor >= total
            },
        }
    }

    fn to_payload(&self) -> (r: Vec<u8>)
        requires
            self@.total is Some,
        ensures
            r@ == self@.payload(),
    {
        let total: u64 = match self.total {
            Some(t) => t as u64,
            None => 0,
        };
        let mut out: Vec<u8> = Vec::new();
        let mut i: usize = 0;
        assert(out@ =~= strung(self@.pieces, 0));
        while i < self.pieces.len()
            invariant
                i <= self.pieces@.len(),
                out@ == strung(self@.pieces, i as int),
            decreases self.pieces@.len() - i,
        {
            assert(self@.pieces[i as int] == self.pieces@[i as int]@);
            push_all(&mut out, self.pieces[i].data.as_slice());
            i += 1;
        }
        let n: usize = out.len();
        if n as u64 > total {
            out.truncate(total as usize);
            assert(out@ =~= self@.payload());
        }
        out
    }
}

proof fn lemma_reach_stops(ps: Seq<PieceModel>, i: int, n: int)
    requires
        0 <= i < n <= ps.len(),
        reach(ps, i) matches Some(c) && ps[i].start > c,
    ensures
        reach(ps, n) is None,
    decreases n,
{
    if n > i + 1 {
        lemma_reach_stops(ps, i, n - 1);
    }
}

impl Defragmenter {
    pub fn new(max_datagram_bytes: usize, max_datagrams: usize) -> (r: Self)
        ensures
            r@.wf(),
            r@ == (DefragModel {
                max_bytes: max_datagram_bytes as nat,
                max_datagrams: max_datagrams as nat,
                pending: seq![],
                poisoned: Set::empty(),
                events: seq![],
            }),
    {
        let r = Defragmenter {
            max_datagram_bytes,
            max_datagrams,
            pending: Vec::new(),
            poisoned: Vec::new(),
            events: Vec::new(),
        };
        proof {
            assert(r@.pending =~= seq![]);
            assert(r@.events =~= seq![]);
            assert(r@.poisoned =~= Set::<KeyModel>::empty());
        }
        r
    }

    /// What happened so far.
    pub fn events(&self) -> (r: &Vec<DefragEvent>)
        ensures
            events_of(r@) == self@.events,
    {
        &self.events
    }

    fn is_poisoned(&self, key: &FragKey) -> (r: bool)
        ensures
            r == self@.poisoned.contains(key@),
    {
        let ghost ks = self.poisoned@.map_values(|k: FragKey| k@);
        let mut i: usize = 0;
        while i < self.poisoned.len()
            invariant
                i <= self.poisoned@.len(),
                ks == self.poisoned@.map_values(|k: FragKey| k@),
                forall|j: int| 0 <= j < i ==> #[trigger] ks[j] != key@,
            decreases self.poisoned@.len() - i,
        {
            assert(ks[i as int] == self.poisoned@[i as int]@);
            if self.poisoned[i].same(key) {
                assert(ks.contains(key@));
                return true;
            }
            i += 1;
        }
        assert(!ks.contains(key@));
        false
    }

    fn find(&self, key: &FragKey) -> (r: Option<usize>)
        ensures
            match r {
                Some(i) => self@.find(key@) == Some(i as int) && i < self.pending@.len(),
                None => self@.find(key@) is None,
            },
    {
        let mut n: usize = self.pending.len();
        while n > 0
            invariant
                n <= self.pending@.len(),
                self@.find(key@) == place_of(self@.pending, key@, n as int),
            decreases n,
        {
            assert(self@.pending[n - 1] == self.pending@[n - 1]@);
            if self.pending[n - 1].key.same(key) {
                return Some(n - 1);
            }
            n -= 1;
        }
        None
    }

    /// Takes the pending state of a key out.
    fn take(&mut self, key: &FragKey) -> (r: Option<(usize, Datagram)>)
        ensures
            final(self)@ == (DefragModel { pending: old(self)@.without(key@), ..old(self)@ }),
            match r {
                Some((i, d)) => old(self)@.find(key@) == Some(i as int) && d@
                    == old(self)@.pending[i as int] && d@.key == key@ && i
                    < old(self)@.pending.len(),
                None => old(self)@.find(key@) is None,
            },
    {
        let ghost s0 = self@;
        proof {
            lemma_place_of(s0.pending, key@, s0.pending.len() as int);
        }
        match self.find(key) {
            Some(i) => {
                let d = self.pending.remove(i);
                assert(self@.pending =~= s0.pending.remove(i as int));
                Some((i, d))
            },
            None => None,
        }
    }

    fn event(
        &mut self,
        kind: &str,
        reason: Option<String>,
        key: &FragKey,
        frames: Vec<u64>,
        bytes: usize,
    )
        ensures
            final(self)@ == (DefragModel {
                events: old(self)@.events.push(
                    EventModel {
                        kind: kind@,
                        reason: match reason {
                            Some(r) => Some(r@),
                            None => None,
                        },
                        key: key@,
                        frames: frames@,
                        bytes: bytes as nat,
                    },
                ),
                ..old(self)@
            }),
    {
        let ghost s0 = self@;
        let e = DefragEvent {
            kind: kind.to_string(),
            reason,
            src: key.src.clone(),
            dst: key.dst.clone(),
            ip_version: key.ip_version,
            ident: key.ident,
            frames,
            bytes,
        };
        let ghost em = e@;
        self.events.push(e);
        assert(self@.events =~= s0.events.push(em));
    }

    /// Poisons a key, with an event.
    fn poison(&mut self, key: &FragKey, reason: &str, frames: Vec<u64>, bytes: usize)
        ensures
            final(self)@ == (DefragModel {
                poisoned: old(self)@.poisoned.insert(key@),
                events: old(self)@.events.push(
                    EventModel {
                        kind: "quarantine"@,
                        reason: Some(reason@),
                        key: key@,
                        frames: frames@,
                        bytes: bytes as nat,
                    },
                ),
                ..old(self)@
            }),
    {
        let ghost s0 = self@;
        let ghost ks = self.poisoned@;
        self.poisoned.push(key.copy());
        proof {
            let a = ks.map_values(|k: FragKey| k@);
            let b = self.poisoned@.map_values(|k: FragKey| k@);
            assert(b =~= a.push(key@));
            assert forall|k: KeyModel| self@.poisoned.contains(k) <==> s0.poisoned.insert(
                key@,
            ).contains(k) by {
                if a.contains(k) {
                    let i = choose|i: int| 0 <= i < a.len() && a[i] == k;
                    assert(b[i] == k);
                }
                assert(b[a.len() as int] == key@);
                if b.contains(k) {
                    let i = choose|i: int| 0 <= i < b.len() && b[i] == k;
                    if i < a.len() {
                        assert(a[i] == k);
                    }
                }
            }
            assert(self@.poisoned =~= s0.poisoned.insert(key@));
        }
        self.event("quarantine", Some(reason.to_string()), key, frames, bytes);
    }

    /// Feeds one fragment.
    pub fn add_fragment(
        &mut self,
        key: FragKey,
        offset_bytes: u32,
        more: bool,
        data: &[u8],
        frame_index: u64,
    ) -> (r: DefragOutcome)
        requires
            old(self)@.wf(),
            offset_bytes + data@.len() <= u32::MAX,
            old(self)@.held(key@).bytes + data@.len() <= usize::MAX,
        ensures
            final(self)@.wf(),
            ({
                let f = FragmentModel {
                    key: key@,
                    start: offset_bytes as int,
                    more,
                    data: data@,
                    frame: frame_index,
                };
                &&& final(self)@ == old(self)@.added(f).0
                &&& r.is(old(self)@.added(f).1)
            }),
    {
        let ghost s0 = self@;
        let ghost f = FragmentModel {
            key: key@,
            start: offset_bytes as int,
            more,
            data: data@,
            frame: frame_index,
        };
        proof {
            lemma_place_of(s0.pending, key@, s0.pending.len() as int);
        }
        if self.is_poisoned(&key) {
            return DefragOutcome::Poisoned;
        }
        let count: usize = self.pending.len();
        let taken = self.take(&key);
        let ghost s1 = self@;
        let (place, mut d) = match taken {
            Some((i, d)) => (Some(i), d),
            None => {
                if count >= self.max_datagrams {
                    let frames: Vec<u64> = Vec::new();
                    assert(frames@ =~= seq![]);
                    self.poison(&key, "datagram count budget exceeded", frames, 0);
                    return DefragOutcome::Quarantined;
                }
                let d = Datagram {
                    key: key.copy(),
                    pieces: Vec::new(),
                    total: None,
                    frames: Vec::new(),
                    bytes: 0,
                };
                assert(d@.pieces =~= seq![]);
                assert(d@.frames =~= seq![]);
                (None, d)
            },
        };
        assert(d@ == s0.held(key@));
        assert(ordered(d@.pieces));
        let start: u32 = offset_bytes;
        let end: u32 = offset_bytes + data.len() as u32;
        if d.meets(start, end) {
            let bytes: usize = d.bytes;
            let frames = copy_numbers(&d.frames);
            self.poison(&key, "overlapping fragments", frames, bytes);
            return DefragOutcome::Quarantined;
        }
        d.frames.push(frame_index);
        d.bytes = d.bytes + data.len();
        if !more {
            d.total = Some(end);
        }
        assert(d@ == s0.held(key@).noted(f));
        let past = match d.total {
            Some(t) => t as u64 > self.max_datagram_bytes as u64,
            None => false,
        };
        if d.bytes > self.max_datagram_bytes || past {
            let bytes: usize = d.bytes;
            let frames = copy_numbers(&d.frames);
            self.poison(&key, "datagram byte budget exceeded", frames, bytes);
            return DefragOutcome::Quarantined;
        }
        proof {
            lemma_filed_apart(d@.pieces, PieceModel { start: f.start, data: f.data });
        }
        d.file(start, copy_bytes(data));
        let ghost h = s0.held(key@).with(f);
        assert(d@ == h);
        if d.is_complete() {
            let out = d.to_payload();
            let frames = copy_numbers(&d.frames);
            let n: usize = out.len();
            self.event("completed", None, &key, frames, n);
            return DefragOutcome::Completed(out);
        }
        match place {
            Some(i) => {
                assert(self@.pending == s1.pending);
                assert(self.pending@.len() == self@.pending.len());
                self.pending.insert(i, d);
                assert(self@.pending =~= s1.pending.insert(i as int, h));
                assert(self@.pending =~= s0.pending.update(i as int, h));
            },
            None => {
                self.pending.push(d);
                assert(self@.pending =~= s0.pending.push(h));
            },
        }
        DefragOutcome::Buffered
    }

    /// Turns datagrams that were never completed into events, in the order in
    /// which their first fragment came.
    pub fn finish(&mut self)
        ensures
            final(self)@ == (DefragModel {
                pending: seq![],
                events: old(self)@.events + old(self)@.pending.map_values(
                    |d: DatagramModel| DefragModel::unfinished(d),
                ),
                ..old(self)@
            }),
    {
        let ghost s0 = self@;
        let ghost g = |d: DatagramModel| DefragModel::unfinished(d);
        let mut pending: Vec<Datagram> = Vec::new();
        std::mem::swap(&mut pending, &mut self.pending);
        let ghost ds = pending@;
        assert(self@.pending =~= seq![]);
        assert(s0.events + s0.pending.take(0).map_values(g) =~= s0.events);
        for d in it: pending
            invariant
                it.seq() == ds,
                s0.pending == datagram_models(ds),
                g == (|d: DatagramModel| DefragModel::unfinished(d)),
                self@ == (DefragModel {
                    pending: seq![],
                    events: s0.events + s0.pending.take(it.index() as int).map_values(g),
                    ..s0
                }),
        {
            let ghost i = it.index() as int;
            let ghost before = self@.events;
            assert(s0.pending[i] == d@);
            let bytes: usize = d.bytes;
            self.event(
                "incomplete",
                Some("capture ended before reassembly".to_string()),
                &d.key,
                d.frames,
                bytes,
            );
            proof {
                assert(s0.pending.take(i + 1).map_values(g) =~= s0.pending.take(i).map_values(
                    g,
                ).push(g(s0.pending[i])));
                assert(self@.events =~= s0.events + s0.pending.take(i + 1).map_values(g));
            }
        }
        assert(s0.pending.take(s0.pending.len() as int) =~= s0.pending);
    }
}

/// A quarantined datagram stays quarantined: its fragments are dropped and change
/// nothing.
pub proof fn law_poisoned_stays(m: DefragModel, f: FragmentModel)
    requires
        m.poisoned.contains(f.key),
    ensures
        m.added(f) == (m, OutcomeModel::Poisoned),
{
}

/// An overlapping fragment quarantines its datagram, with an event.
pub proof fn law_overlap_quarantines(m: DefragModel, f: FragmentModel)
    requires
        !m.poisoned.contains(f.key),
        m.find(f.key) is Some,
        any_meets(m.held(f.key).pieces, f.start, f.end()),
        m.held(f.key).key == f.key,
    ensures
        m.added(f).1 is Quarantined,
        m.added(f).0.poisoned.contains(f.key),
        m.added(f).0.events.len() == m.events.len() + 1,
        m.added(f).0.events.last().reason == Some("overlapping fragments"@),
{
}

proof fn lemma_same_prefix(a: Seq<DatagramModel>, b: Seq<DatagramModel>, k: KeyModel, n: int)
    requires
        0 <= n <= a.len(),
        n <= b.len(),
        forall|i: int| 0 <= i < n ==> (#[trigger] a[i]).key == b[i].key,
    ensures
        place_of(a, k, n) == place_of(b, k, n),
    decreases n,
{
    if n > 0 {
        lemma_same_prefix(a, b, k, n - 1);
    }
}

proof fn lemma_remove_other(ds: Seq<DatagramModel>, i: int, k: KeyModel, n: int)
    requires
        0 <= i < n <= ds.len(),
        ds[i].key != k,
    ensures
        place_of(ds.remove(i), k, n - 1) == match place_of(ds, k, n) {
            Some(j) => Some(
                if j < i {
                    j
                } else {
                    j - 1
                },
            ),
            None => None,
        },
    decreases n,
{
    let r = ds.remove(i);
    if n == i + 1 {
        lemma_same_prefix(r, ds, k, i);
        lemma_place_of(ds, k, i);
    } else {
        lemma_remove_other(ds, i, k, n - 1);
        assert(r[n - 2] == ds[n - 1]);
    }
}

/// A fragment changes nothing that is held of another datagram, and quarantines
/// none but its own.
pub proof fn law_other_datagrams_untouched(m: DefragModel, f: FragmentModel, k: KeyModel)
    requires
        k != f.key,
    ensures
        m.added(f).0.held(k) == m.held(k),
        m.added(f).0.poisoned.contains(k) == m.poisoned.contains(k),
{
    let n = m.pending.len() as int;
    lemma_place_of(m.pending, f.key, n);
    lemma_place_of(m.pending, k, n);
    let h = m.held(f.key).with(f);
    assert(m.held(f.key).key == f.key);
    match m.find(f.key) {
        Some(i) => {
            lemma_remove_other(m.pending, i, k, n);
            lemma_same_prefix(m.pending.update(i, h), m.pending, k, n);
        },
        None => {
            lemma_same_prefix(m.pending.push(h), m.pending, k, n);
        },
    }
}

proof fn lemma_strung(ps: Seq<PieceModel>, n: int, i: int, j: int)
    requires
        ordered(ps),
        apart(ps),
        0 <= n <= ps.len(),
        reach(ps, n) is Some,
    ensures
        strung(ps, n).len() == reach(ps, n)->0,
        forall|k: int| 0 <= k < n ==> (#[trigger] ps[k]).end() <= reach(ps, n)->0,
        0 <= i < n && 0 <= j < ps[i].data.len() ==> strung(ps, n)[ps[i].start + j]
            == ps[i].data[j],
    decreases n,
{
    if n > 0 {
        lemma_strung(ps, n - 1, i, j);
        let c = reach(ps, n - 1)->0;
        let p = ps[n - 1];
        assert(c <= p.start) by {
            lemma_reach_from_piece(ps, n - 1);
            if n > 1 && c > 0 {
                let k = choose|k: int| 0 <= k < n - 1 && (#[trigger] ps[k]).end() == c;
                assert(ps[k].end() <= ps[n - 1].start);
            }
        }
        assert(p.start == c);
    }
}

proof fn lemma_reach_from_piece(ps: Seq<PieceModel>, n: int)
    requires
        0 <= n <= ps.len(),
        reach(ps, n) is Some,
    ensures
        reach(ps, n)->0 >= 0,
        reach(ps, n)->0 > 0 ==> exists|k: int|
            0 <= k < n && (#[trigger] ps[k]).end() == reach(ps, n)->0,
    decreases n,
{
    if n > 0 {
        lemma_reach_from_piece(ps, n - 1);
        let c = reach(ps, n - 1)->0;
        if ps[n - 1].end() > c {
            assert(ps[n - 1].end() == reach(ps, n)->0);
        } else if c > 0 {
            let k = choose|k: int| 0 <= k < n - 1 && (#[trigger] ps[k]).end() == c;
            assert(ps[k].end() == reach(ps, n)->0);
        }
    }
}

/// The payload of a completed datagram has the announced length, and holds each
/// fragment's bytes at that fragment's offset.
pub proof fn law_payload_keeps_fragments(d: DatagramModel, i: int, j: int)
    requires
        ordered(d.pieces),
        apart(d.pieces),
        d.complete(),
        d.total->0 >= 0,
        0 <= i < d.pieces.len(),
        0 <= j < d.pieces[i].data.len(),
    ensures
        d.payload().len() == d.total->0,
        d.pieces[i].start + j < d.total->0 ==> d.payload()[d.pieces[i].start + j]
            == d.pieces[i].data[j],
{
    lemma_strung(d.pieces, d.pieces.len() as int, i, j);
}

/// The state after the first `n` of some fragments.
pub open spec fn after_fragments(m: DefragModel, fs: Seq<FragmentModel>, n: int) -> DefragModel
    decreases n,
{
    if n <= 0 {
        m
    } else {
        after_fragments(m, fs, n - 1).added(fs[n - 1]).0
    }
}

/// The places and bytes of fragments.
pub open spec fn places_of(fs: Seq<FragmentModel>) -> Seq<crate::cover::PieceModel> {
    Seq::new(
        fs.len(),
        |i: int| crate::cover::PieceModel { offset: fs[i].start, data: fs[i].data },
    )
}

/// How many bytes the first `n` fragments carry.
pub open spec fn carried_upto(fs: Seq<FragmentModel>, n: int) -> nat
    decreases n,
{
    if n <= 0 {
        0
    } else {
        carried_upto(fs, n - 1) + fs[n - 1].data.len()
    }
}

/// Fragments that make up one datagram: of one key, the one that ends it says that no
/// more follow, and the others say that more do.
pub open spec fn one_datagram(fs: Seq<FragmentModel>, whole: Seq<u8>) -> bool {
    &&& make_up(places_of(fs), whole)
    &&& whole.len() <= u32::MAX
    &&& forall|i: int|
        0 <= i < fs.len() ==> (#[trigger] fs[i]).key == fs[0].key && fs[i].more == (fs[i].start
            + fs[i].data.len() < whole.len())
}

spec fn as_piece(f: FragmentModel) -> PieceModel {
    PieceModel { start: f.start, data: f.data }
}

spec fn lists(ps: Seq<PieceModel>, fs: Seq<FragmentModel>, n: int) -> bool {
    &&& ordered(ps)
    &&& apart(ps)
    &&& forall|i: int| 0 <= i < n ==> ps.contains(as_piece(#[trigger] fs[i]))
    &&& forall|j: int| 0 <= j < ps.len() ==> exists|i: int| 0 <= i < n && #[trigger] as_piece(fs[i]) == #[trigger] ps[j]
}

spec fn at_some(ps: Seq<PieceModel>, x: int) -> bool {
    exists|i: int| 0 <= i < ps.len() && (#[trigger] ps[i]).start <= x < ps[i].end()
}

spec fn holds_of(ps: Seq<PieceModel>, whole: Seq<u8>, x: int) -> bool {
    exists|j: int|
        0 <= j < ps.len() && (#[trigger] ps[j]).start <= x < ps[j].end() && ps[j].data[x
            - ps[j].start] == whole[x]
}

proof fn lemma_reach_holds(ps: Seq<PieceModel>, n: int, x: int) -> (k: int)
    requires
        ordered(ps),
        0 <= n <= ps.len(),
        reach(ps, n) matches Some(c) && 0 <= x < c,
    ensures
        0 <= k < n,
        ps[k].start <= x < ps[k].end(),
    decreases n,
{
    if n <= 0 {
        0
    } else {
        let c = reach(ps, n - 1)->0;
        if x < c {
            lemma_reach_holds(ps, n - 1, x)
        } else {
            n - 1
        }
    }
}

proof fn lemma_reach_all(ps: Seq<PieceModel>, t: int, n: int)
    requires
        ordered(ps),
        apart(ps),
        0 <= n <= ps.len(),
        forall|i: int| 0 <= i < ps.len() ==> (#[trigger] ps[i]).data.len() > 0 && ps[i].end() <= t,
        forall|x: int| 0 <= x < t ==> #[trigger] at_some(ps, x),
    ensures
        reach(ps, n) is Some,
        forall|k: int| 0 <= k < n ==> (#[trigger] ps[k]).end() <= reach(ps, n)->0,
        reach(ps, n)->0 >= 0,
    decreases n,
{
    if n > 0 {
        lemma_reach_all(ps, t, n - 1);
        lemma_reach_from_piece(ps, n - 1);
        let c = reach(ps, n - 1)->0;
        let p = ps[n - 1];
        if p.start > c {
            assert(0 <= c < t);
            assert(at_some(ps, c));
            let i = choose|i: int| 0 <= i < ps.len() && (#[trigger] ps[i]).start <= c < ps[i].end();
            if i < n - 1 {
                assert(ps[i].end() <= c);
            } else if i > n - 1 {
                assert(ps[n - 1].start < ps[i].start);
            }
            assert(false);
        }
    }
}

proof fn lemma_listed_more(
    ps: Seq<PieceModel>,
    fs: Seq<FragmentModel>,
    whole: Seq<u8>,
    n: int,
)
    requires
        one_datagram(fs, whole),
        0 <= n < fs.len(),
        lists(ps, fs, n),
    ensures
        !any_meets(ps, fs[n].start, fs[n].end()),
        lists(filed(ps, as_piece(fs[n])), fs, n + 1),
{
    let v = places_of(fs);
    let p = as_piece(fs[n]);
    assert(v[n].offset == fs[n].start && v[n].data == fs[n].data);
    if any_meets(ps, p.start, p.end()) {
        let j = choose|j: int| 0 <= j < ps.len() && p.start < (#[trigger] ps[j]).end() && ps[j].start < p.end();
        let i = choose|i: int| 0 <= i < n && #[trigger] as_piece(fs[i]) == ps[j];
        assert(v[i].offset == fs[i].start && v[i].data == fs[i].data);
        assert(v[i].offset + v[i].data.len() <= v[n].offset || v[n].offset + v[n].data.len()
            <= v[i].offset);
        assert(false);
    }
    lemma_filed_apart(ps, p);
    lemma_filed_ordered(ps, p);
    let (pos, over) = lemma_filed_place(ps, p);
    let q = filed(ps, p);
    if over {
        let i = choose|i: int| 0 <= i < n && #[trigger] as_piece(fs[i]) == ps[pos];
        assert(v[i].data.len() > 0 && v[n].data.len() > 0);
        assert(v[i].offset == fs[i].start);
        assert(v[i].offset + v[i].data.len() <= v[n].offset || v[n].offset + v[n].data.len()
            <= v[i].offset);
        assert(false);
    }
    assert(q[pos] == p);
    assert forall|i: int| 0 <= i < n + 1 implies q.contains(as_piece(#[trigger] fs[i])) by {
        if i < n {
            assert(ps.contains(as_piece(fs[i])));
            let j = choose|j: int| 0 <= j < ps.len() && ps[j] == as_piece(fs[i]);
            if j < pos {
                assert(q[j] == ps[j]);
            } else {
                assert(q[j + 1] == ps[j]);
            }
        }
    }
    assert forall|j: int| 0 <= j < q.len() implies exists|i: int|
        0 <= i < n + 1 && #[trigger] as_piece(fs[i]) == #[trigger] q[j] by {
        if j == pos {
            assert(as_piece(fs[n]) == q[j]);
        } else {
            let l = if j < pos {
                j
            } else {
                j - 1
            };
            assert(q[j] == ps[l]);
            let i = choose|i: int| 0 <= i < n && #[trigger] as_piece(fs[i]) == ps[l];
            assert(as_piece(fs[i]) == q[j]);
        }
    }
}

proof fn lemma_listed_reach(ps: Seq<PieceModel>, fs: Seq<FragmentModel>, whole: Seq<u8>, n: int)
    requires
        one_datagram(fs, whole),
        0 <= n <= fs.len(),
        lists(ps, fs, n),
    ensures
        n < fs.len() ==> !(reach(ps, ps.len() as int) matches Some(c) && c >= whole.len()),
        n == fs.len() ==> (reach(ps, ps.len() as int) matches Some(c) && c >= whole.len()),
        n == fs.len() ==> forall|x: int| 0 <= x < whole.len() ==> #[trigger] holds_of(ps, whole, x),
{
    let v = places_of(fs);
    let l = ps.len() as int;
    if n < fs.len() {
        if reach(ps, l) matches Some(c) && c >= whole.len() {
            let x = fs[n].start;
            assert(v[n].offset == x && v[n].data == fs[n].data && v[n].data.len() > 0);
            let k = lemma_reach_holds(ps, l, x);
            let i = choose|i: int| 0 <= i < n && #[trigger] as_piece(fs[i]) == ps[k];
            assert(v[i].offset == fs[i].start && v[i].data == fs[i].data);
            assert(v[i].offset + v[i].data.len() <= v[n].offset || v[n].offset + v[n].data.len()
                <= v[i].offset);
            assert(false);
        }
    } else {
        assert forall|j: int| 0 <= j < ps.len() implies (#[trigger] ps[j]).data.len() > 0
            && ps[j].end() <= whole.len() by {
            let i = choose|i: int| 0 <= i < n && #[trigger] as_piece(fs[i]) == ps[j];
            assert(v[i].offset == fs[i].start && v[i].data == fs[i].data && v[i].data.len() > 0);
        }
        assert forall|x: int| 0 <= x < whole.len() implies #[trigger] holds_of(ps, whole, x) by {
            assert(crate::datagrams::reached(v, x));
            let i = choose|i: int|
                0 <= i < v.len() && (#[trigger] v[i]).offset <= x < v[i].offset + v[i].data.len();
            assert(v[i].data[x - v[i].offset] == whole[x]);
            assert(ps.contains(as_piece(fs[i])));
            let j = choose|j: int| 0 <= j < ps.len() && ps[j] == as_piece(fs[i]);
            assert(ps[j].start <= x < ps[j].end());
        }
        assert forall|x: int| 0 <= x < whole.len() implies #[trigger] at_some(ps, x) by {
            assert(holds_of(ps, whole, x));
            let j = choose|j: int|
                0 <= j < ps.len() && (#[trigger] ps[j]).start <= x < ps[j].end() && ps[j].data[x
                    - ps[j].start] == whole[x];
            assert(ps[j].start <= x < ps[j].end());
        }
        lemma_reach_all(ps, whole.len() as int, l);
        if whole.len() > 0 {
            assert(at_some(ps, whole.len() - 1));
            let j = choose|j: int|
                0 <= j < ps.len() && (#[trigger] ps[j]).start <= whole.len() - 1 < ps[j].end();
            assert(ps[j].end() <= reach(ps, l)->0);
        }
    }
}

#[verifier::rlimit(60)]
#[verifier::spinoff_prover]
proof fn lemma_after_fragments(m: DefragModel, fs: Seq<FragmentModel>, whole: Seq<u8>, n: int)
    requires
        one_datagram(fs, whole),
        m.find(fs[0].key) is None,
        !m.poisoned.contains(fs[0].key),
        m.pending.len() < m.max_datagrams,
        carried_upto(fs, fs.len() as int) <= m.max_bytes,
        whole.len() <= m.max_bytes,
        0 <= n < fs.len(),
    ensures
        ({
            let t = after_fragments(m, fs, n);
            let d = t.held(fs[0].key);
            let (u, r) = t.added(fs[n]);
            &&& t == (DefragModel { pending: t.pending, ..m })
            &&& n == 0 ==> t.pending == m.pending
            &&& n > 0 ==> t.pending == m.pending.push(d)
            &&& d.key == fs[0].key
            &&& lists(d.pieces, fs, n)
            &&& d.frames == Seq::new(n as nat, |i: int| fs[i].frame)
            &&& d.bytes == carried_upto(fs, n)
            &&& d.total is Some ==> d.total == Some(whole.len() as int)
            &&& d.total is Some <==> exists|i: int| 0 <= i < n && !(#[trigger] fs[i]).more
            &&& n + 1 < fs.len() ==> r is Buffered && u == (DefragModel {
                pending: m.pending.push(d.with(fs[n])),
                ..m
            })
            &&& n + 1 == fs.len() ==> r == OutcomeModel::Completed(whole) && u.pending == m.pending
                && u.poisoned == m.poisoned && u.events.len() == m.events.len() + 1
                && u.events.last().frames == Seq::new(fs.len(), |i: int| fs[i].frame)
        }),
    decreases n,
{
    let t = after_fragments(m, fs, n);
    let key = fs[0].key;
    let v = places_of(fs);
    let d = t.held(key);
    if n > 0 {
        lemma_after_fragments(m, fs, whole, n - 1);
        let s = after_fragments(m, fs, n - 1);
        let e = s.held(key).with(fs[n - 1]);
        assert(fs[n - 1].key == key);
        assert(t.pending == m.pending.push(e));
        assert(t.find(key) == Some(m.pending.len() as int));
        assert(d == e);
        lemma_listed_more(s.held(key).pieces, fs, whole, n - 1);
        assert(d.frames =~= Seq::new(n as nat, |i: int| fs[i].frame));
        assert(v[n - 1].offset + v[n - 1].data.len() <= whole.len());
        if !fs[n - 1].more {
            assert(fs[n - 1].end() == whole.len());
        }
        if d.total is Some && fs[n - 1].more {
            let i = choose|i: int| 0 <= i < n - 1 && !(#[trigger] fs[i]).more;
            assert(!fs[i].more);
        }
    } else {
        assert(d == DatagramModel::fresh(key));
        assert(Seq::new(0, |i: int| fs[i].frame) =~= seq![]);
    }
    let f = fs[n];
    assert(f.key == key);
    let h = d.with(f);
    lemma_listed_more(d.pieces, fs, whole, n);
    lemma_listed_reach(h.pieces, fs, whole, n + 1);
    assert(v[n].offset == f.start && v[n].data == f.data && v[n].data.len() > 0);
    lemma_carried_grows(fs, n + 1, fs.len() as int);
    assert(carried_upto(fs, n + 1) == carried_upto(fs, n) + fs[n].data.len());
    assert(d.bytes == carried_upto(fs, n)) by {
        if n > 0 {
            assert(carried_upto(fs, n) == carried_upto(fs, n - 1) + fs[n - 1].data.len());
        }
    }
    assert(!(d.noted(f).bytes > m.max_bytes));
    assert(t == (DefragModel { pending: t.pending, ..m }));
    assert(f.end() == v[n].offset + v[n].data.len());
    if n > 0 {
        assert(t.find(key) == Some(m.pending.len() as int));
        assert(t.pending.update(m.pending.len() as int, h) =~= m.pending.push(h));
        assert(t.pending.remove(m.pending.len() as int) =~= m.pending);
    }
    if n + 1 == fs.len() {
        assert(crate::datagrams::reached(v, whole.len() - 1)) by {
            assert(v[0].data.len() > 0);
        }
        let i = choose|i: int|
            0 <= i < v.len() && (#[trigger] v[i]).offset <= whole.len() - 1 < v[i].offset
                + v[i].data.len();
        assert(!fs[i].more);
        assert(h.total == Some(whole.len() as int));
        assert(h.complete());
        lemma_payload_is(h, fs, whole);
        assert(h.frames =~= Seq::new(fs.len(), |i: int| fs[i].frame));
    }
}

proof fn lemma_payload_is(h: DatagramModel, fs: Seq<FragmentModel>, whole: Seq<u8>)
    requires
        one_datagram(fs, whole),
        lists(h.pieces, fs, fs.len() as int),
        h.complete(),
        h.total == Some(whole.len() as int),
    ensures
        h.payload() == whole,
{
    let v = places_of(fs);
    lemma_listed_reach(h.pieces, fs, whole, fs.len() as int);
    assert forall|x: int| 0 <= x < whole.len() implies h.payload()[x] == whole[x] by {
        assert(holds_of(h.pieces, whole, x));
        let j = choose|j: int|
            0 <= j < h.pieces.len() && (#[trigger] h.pieces[j]).start <= x < h.pieces[j].end()
                && h.pieces[j].data[x - h.pieces[j].start] == whole[x];
        law_payload_keeps_fragments(h, j, x - h.pieces[j].start);
    }
    assert(h.pieces.contains(as_piece(fs[0])));
    let j = choose|j: int| 0 <= j < h.pieces.len() && h.pieces[j] == as_piece(fs[0]);
    assert(v[0].data.len() > 0);
    law_payload_keeps_fragments(h, j, 0);
    assert(h.payload() =~= whole);
}

proof fn lemma_carried_grows(fs: Seq<FragmentModel>, a: int, b: int)
    requires
        0 <= a <= b <= fs.len(),
    ensures
        carried_upto(fs, a) <= carried_upto(fs, b),
    decreases b - a,
{
    if a < b {
        lemma_carried_grows(fs, a, b - 1);
    }
}

/// Fragments that make up a datagram complete it, in whatever order they come: each but
/// the last is buffered, and the last yields the datagram, byte for byte, with an event
/// that names the frames of all, and leaves nothing of it behind.
pub proof fn law_fragments_complete_in_any_order(
    m: DefragModel,
    fs: Seq<FragmentModel>,
    whole: Seq<u8>,
    n: int,
)
    requires
        one_datagram(fs, whole),
        m.find(fs[0].key) is None,
        !m.poisoned.contains(fs[0].key),
        m.pending.len() < m.max_datagrams,
        carried_upto(fs, fs.len() as int) <= m.max_bytes,
        whole.len() <= m.max_bytes,
        0 <= n < fs.len(),
    ensures
        ({
            let (u, r) = after_fragments(m, fs, n).added(fs[n]);
            &&& n + 1 < fs.len() ==> r is Buffered && u.events == m.events && u.poisoned
                == m.poisoned
            &&& n + 1 == fs.len() ==> {
                &&& r == OutcomeModel::Completed(whole)
                &&& u.pending == m.pending
                &&& u.poisoned == m.poisoned
                &&& u.events.len() == m.events.len() + 1
                &&& u.events.last().frames == Seq::new(fs.len(), |i: int| fs[i].frame)
            }
        }),
{
    lemma_after_fragments(m, fs, whole, n);
}

/// What is completed is made of fragments that came, without a hole.
pub proof fn law_completed_is_what_came(m: DefragModel, f: FragmentModel, x: int)
    requires
        m.wf(),
        0 <= f.start,
        f.end() <= u32::MAX,
        m.added(f).1 matches OutcomeModel::Completed(b) && 0 <= x < b.len(),
        m.held(f.key).total matches Some(t) ==> t >= 0,
    ensures
        ({
            let b = m.added(f).1->Completed_0;
            let old = m.held(f.key).pieces;
            ||| f.start <= x < f.start + f.data.len() && b[x] == f.data[x - f.start]
            ||| exists|i: int|
                0 <= i < old.len() && (#[trigger] old[i]).start <= x < old[i].start
                    + old[i].data.len() && b[x] == old[i].data[x - old[i].start]
        }),
{
    let d = m.held(f.key);
    lemma_place_of(m.pending, f.key, m.pending.len() as int);
    let p = PieceModel { start: f.start, data: f.data };
    let h = d.with(f);
    lemma_filed_apart(d.pieces, p);
    lemma_filed_ordered(d.pieces, p);
    let (pos, over) = lemma_filed_place(d.pieces, p);
    let q = h.pieces;
    let l = q.len() as int;
    lemma_reach_from_piece(q, l);
    lemma_strung_length(q, l);
    let k = lemma_reach_holds(q, l, x);
    law_payload_keeps_fragments(h, k, x - q[k].start);
    if k != pos {
        let j = if over || k < pos {
            k
        } else {
            k - 1
        };
        assert(q[k] == d.pieces[j]);
    }
}

proof fn lemma_strung_length(ps: Seq<PieceModel>, n: int)
    requires
        ordered(ps),
        apart(ps),
        0 <= n <= ps.len(),
        reach(ps, n) is Some,
    ensures
        strung(ps, n).len() == reach(ps, n)->0,
{
    lemma_strung(ps, n, -1, -1);
}

} // verus!
