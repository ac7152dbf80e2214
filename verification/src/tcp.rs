//! TCP session demultiplexing, generation tracking and byte-stream reassembly.

use std::collections::BTreeMap;
use vstd::prelude::*;
use crate::bytes::copy_bytes;
use crate::model::{flag, has_flag, ACK, FIN, RST, SYN};
use crate::offsets::{
    frontier_of, holds, holes, is_frontier, is_hole, lemma_frontier, lists_holes, offsets_of,
};
use crate::packet::{distance, seq_offset};
use crate::text::{
    at_most, cat, dec, dec_int, push_dec, push_dec_i128, push_text, same, text_le,
};

verus! {

#[derive(Debug, Clone, Copy, PartialEq, Eq, Structural)]
pub enum OverlapPolicy {
    FirstSeen,
    LastSeen,
}

impl OverlapPolicy {
    /// The policy's name.
    pub open spec fn text(self) -> Seq<char> {
        match self {
            OverlapPolicy::FirstSeen => "first-seen"@,
            OverlapPolicy::LastSeen => "last-seen"@,
        }
    }

    pub fn name(self) -> (r: &'static str)
        ensures
            r@ == self.text(),
    {
        match self {
            OverlapPolicy::FirstSeen => "first-seen",
            OverlapPolicy::LastSeen => "last-seen",
        }
    }

    /// The policy of that name; any other name means the first-seen policy.
    pub fn parse(s: &str) -> (r: OverlapPolicy)
        ensures
            r == if s@ == "last-seen"@ {
                OverlapPolicy::LastSeen
            } else {
                OverlapPolicy::FirstSeen
            },
    {
        if same(s, "last-seen") {
            OverlapPolicy::LastSeen
        } else {
            OverlapPolicy::FirstSeen
        }
    }
}

#[derive(Debug, Clone)]
pub struct EngineConfig {
    pub policy: OverlapPolicy,
    pub timeout_us: i128,
}

impl Default for EngineConfig {
    fn default() -> (r: Self)
        ensures
            r.policy == OverlapPolicy::FirstSeen,
            r.timeout_us == 2_000_000,
    {
        EngineConfig { policy: OverlapPolicy::FirstSeen, timeout_us: 2_000_000 }
    }
}

#[derive(Debug, Clone)]
pub struct SegRecord {
    pub frame_idx: usize,
    /// 0 from client to server, 1 from server to client.
    pub dir: u8,
    pub seq_abs: u32,
    pub begin: i64,
    pub end: i64,
    pub len: usize,
    pub flags: u8,
    pub ts_us: i128,
    pub relation: String,
    pub overwritten: usize,
    pub kept: usize,
    pub data: Vec<u8>,
    pub conflict: bool,
}

#[derive(Debug, Clone)]
pub struct Gap {
    pub begin: i64,
    pub end: i64,
    pub len: i64,
    pub dir: u8,
}

#[derive(Debug, Clone)]
pub struct DirState {
    pub base: Option<u32>,
    pub base_frame: Option<usize>,
    pub base_syn: bool,
    pub frontier: i64,
    pub max_end: i64,
    pub fin: bool,
    pub fin_seq: Option<u32>,
    pub fin_off: Option<i64>,
    pub rst: bool,
    pub rst_frame: Option<usize>,
    pub bytes: Vec<u8>,
    pub owner: Vec<usize>,
    /// Bytes past a gap: offset to byte and frame.
    pub pending: BTreeMap<i64, (u8, usize)>,
    pub out_of_order: usize,
    pub retrans: usize,
    pub overlap_events: usize,
}

#[derive(Debug, Clone)]
pub struct Session {
    pub id: String,
    pub gen: usize,
    pub key: String,
    pub c_ip: String,
    pub s_ip: String,
    pub c_port: u16,
    pub s_port: u16,
    pub ip_version: u8,
    pub start_frame: usize,
    pub end_frame: usize,
    pub start_ts: i128,
    pub last_ts: i128,
    /// open, fin-closed, rst-closed, timed-out, superseded or partial
    pub state: String,
    /// seen, partial or missing
    pub handshake: String,
    pub mid_capture: bool,
    /// From client to server, then from server to client.
    pub dirs: Vec<DirState>,
    pub segments: Vec<SegRecord>,
    pub close_reason: String,
    pub syn_frames: Vec<usize>,
}

pub struct DatagramFrame {
    pub frame_idx: usize,
    pub ts_us: i128,
    pub src: String,
    pub dst: String,
    pub ip_version: u8,
    pub sport: u16,
    pub dport: u16,
    pub seq: u32,
    pub ack: u32,
    pub flags: u8,
    pub payload: Vec<u8>,
}

/// What a datagram carries.
pub struct DatagramModel {
    pub frame_idx: usize,
    pub ts_us: int,
    pub src: Seq<char>,
    pub dst: Seq<char>,
    pub ip_version: u8,
    pub sport: u16,
    pub dport: u16,
    pub seq: u32,
    pub flags: u8,
    pub payload: Seq<u8>,
}

impl View for DatagramFrame {
    type V = DatagramModel;

    open spec fn view(&self) -> DatagramModel {
        DatagramModel {
            frame_idx: self.frame_idx,
            ts_us: self.ts_us as int,
            src: self.src@,
            dst: self.dst@,
            ip_version: self.ip_version,
            sport: self.sport,
            dport: self.dport,
            seq: self.seq,
            flags: self.flags,
            payload: self.payload@,
        }
    }
}

pub open spec fn one_if(on: bool) -> int {
    if on {
        1
    } else {
        0
    }
}

impl DatagramModel {
    pub open spec fn syn(self) -> bool {
        flag(self.flags, SYN)
    }

    pub open spec fn fin(self) -> bool {
        flag(self.flags, FIN)
    }

    pub open spec fn rst(self) -> bool {
        flag(self.flags, RST)
    }

    pub open spec fn ack(self) -> bool {
        flag(self.flags, ACK)
    }

    /// The sequence space that the datagram takes up.
    pub open spec fn span(self) -> int {
        self.payload.len() + one_if(self.syn()) + one_if(self.fin())
    }
}

/// What one direction is.
pub struct DirModel {
    pub base: Option<u32>,
    pub base_frame: Option<usize>,
    pub base_syn: bool,
    pub max_end: int,
    pub fin: bool,
    pub fin_seq: Option<u32>,
    pub fin_off: Option<i64>,
    pub rst: bool,
    pub rst_frame: Option<usize>,
    /// The bytes held, and the frame of each.
    pub cells: Map<i64, (u8, usize)>,
    pub out_of_order: int,
    pub retrans: int,
    pub overlap_events: int,
}

/// Bytes that stand without a gap from 0 on, and bytes past a gap, in one map.
pub open spec fn cells_of(
    bytes: Seq<u8>,
    owner: Seq<usize>,
    pending: Map<i64, (u8, usize)>,
) -> Map<i64, (u8, usize)> {
    Map::new(
        |k: i64| 0 <= k < bytes.len() || pending.contains_key(k),
        |k: i64|
            if 0 <= k < bytes.len() {
                (bytes[k as int], owner[k as int])
            } else {
                pending[k]
            },
    )
}

impl View for DirState {
    type V = DirModel;

    open spec fn view(&self) -> DirModel {
        DirModel {
            base: self.base,
            base_frame: self.base_frame,
            base_syn: self.base_syn,
            max_end: self.max_end as int,
            fin: self.fin,
            fin_seq: self.fin_seq,
            fin_off: self.fin_off,
            rst: self.rst,
            rst_frame: self.rst_frame,
            cells: cells_of(self.bytes@, self.owner@, self.pending@),
            out_of_order: self.out_of_order as int,
            retrans: self.retrans as int,
            overlap_events: self.overlap_events as int,
        }
    }
}

/// The furthest that an offset of a direction can lie.
pub open spec fn far() -> int {
    0x2_0000_0000
}

impl DirModel {
    pub open spec fn fresh() -> DirModel {
        DirModel {
            base: None,
            base_frame: None,
            base_syn: false,
            max_end: 0,
            fin: false,
            fin_seq: None,
            fin_off: None,
            rst: false,
            rst_frame: None,
            cells: Map::empty(),
            out_of_order: 0,
            retrans: 0,
            overlap_events: 0,
        }
    }

    pub open spec fn wf(self, segments: nat) -> bool {
        &&& 0 <= self.max_end <= far()
        &&& forall|k: i64| #[trigger] self.cells.contains_key(k) ==> 0 <= k < far()
        &&& exists|f: int| #[trigger] is_frontier(self.cells.dom(), f)
        &&& self.base is None ==> self.max_end == 0
        &&& 0 <= self.out_of_order <= segments
        &&& 0 <= self.retrans <= segments
        &&& 0 <= self.overlap_events <= segments
    }

    /// How many bytes from 0 on stand without a gap.
    pub open spec fn frontier(self) -> int {
        frontier_of(self.cells.dom())
    }

    /// The direction once its numbering has a base: a SYN's own number, or the
    /// first number seen.
    pub open spec fn anchored(self, d: DatagramModel) -> DirModel {
        if self.base is Some {
            self
        } else {
            DirModel {
                base: Some(d.seq),
                base_frame: Some(d.frame_idx),
                base_syn: d.syn(),
                ..self
            }
        }
    }

    /// The distance of a datagram's number from the base.
    pub open spec fn begin(self, d: DatagramModel) -> int {
        distance(d.seq, self.base->0)
    }

    /// The offset of a datagram's first byte. A SYN takes one number but is no
    /// data byte.
    pub open spec fn data_off(self, d: DatagramModel) -> int {
        self.begin(d) - one_if(self.base_syn)
    }

    pub open spec fn data_end(self, d: DatagramModel) -> int {
        self.data_off(d) + d.payload.len()
    }

    /// The direction once the extent of a datagram and its FIN are noted.
    pub open spec fn noted(self, d: DatagramModel) -> DirModel {
        let span_end = self.data_off(d) + d.span();
        DirModel {
            max_end: if span_end > self.max_end {
                span_end
            } else {
                self.max_end
            },
            fin: self.fin || d.fin(),
            fin_seq: if d.fin() {
                Some(((d.seq + d.payload.len()) % 0x1_0000_0000) as u32)
            } else {
                self.fin_seq
            },
            fin_off: if d.fin() {
                Some(self.data_end(d) as i64)
            } else {
                self.fin_off
            },
            ..self
        }
    }
}

/// The bytes after the first `n` bytes of `data` were laid at `off`. Nothing is
/// laid below offset 0, and the policy decides on bytes that are held.
#[verifier::opaque]
pub open spec fn laid(
    cells: Map<i64, (u8, usize)>,
    off: int,
    data: Seq<u8>,
    n: int,
    frame: usize,
    policy: OverlapPolicy,
) -> Map<i64, (u8, usize)> {
    Map::new(
        |k: i64| cells.contains_key(k) || (0 <= k && off <= k < off + n),
        |k: i64|
            if 0 <= k && off <= k < off + n && !(cells.contains_key(k) && (cells[k].0 == data[k
                - off] || policy == OverlapPolicy::FirstSeen)) {
                (data[k - off], frame)
            } else {
                cells[k]
            },
    )
}

/// Whether one of the first `n` bytes of `data` at `off` meets a held byte.
#[verifier::opaque]
pub open spec fn meets_held(cells: Map<i64, (u8, usize)>, off: int, n: int) -> bool {
    exists|x: int| 0 <= x && off <= x < off + n && #[trigger] holds(cells.dom(), x)
}

/// How many of the first `n` bytes of `data` at `off` differ from a held byte.
pub open spec fn differing(cells: Map<i64, (u8, usize)>, off: int, data: Seq<u8>, n: int) -> nat
    decreases n,
{
    if n <= 0 {
        0
    } else {
        let rest = differing(cells, off, data, n - 1);
        let x = off + n - 1;
        if 0 <= x && holds(cells.dom(), x) && cells[x as i64].0 != data[n - 1] {
            rest + 1
        } else {
            rest
        }
    }
}

/// How a datagram's bytes relate to what was held.
#[derive(Clone, Copy, PartialEq, Eq, Structural)]
pub enum Relation {
    OverlapAhead,
    Overlap,
    Retransmission,
    Extension,
    OutOfOrder,
    InOrder,
}

impl Relation {
    pub open spec fn text(self) -> Seq<char> {
        match self {
            Relation::OverlapAhead => "overlap(out-of-order)"@,
            Relation::Overlap => "overlap"@,
            Relation::Retransmission => "retransmission"@,
            Relation::Extension => "retransmission+in-order"@,
            Relation::OutOfOrder => "out-of-order"@,
            Relation::InOrder => "in-order"@,
        }
    }

    fn to_text(self) -> (r: String)
        ensures
            r@ == self.text(),
    {
        match self {
            Relation::OverlapAhead => "overlap(out-of-order)".to_string(),
            Relation::Overlap => "overlap".to_string(),
            Relation::Retransmission => "retransmission".to_string(),
            Relation::Extension => "retransmission+in-order".to_string(),
            Relation::OutOfOrder => "out-of-order".to_string(),
            Relation::InOrder => "in-order".to_string(),
        }
    }
}

impl DirModel {
    /// The direction after its bytes were laid.
    pub open spec fn filled(self, d: DatagramModel, policy: OverlapPolicy) -> DirModel {
        let off = self.data_off(d);
        let n = d.payload.len() as int;
        let rel = self.relation(d, policy);
        DirModel {
            cells: laid(self.cells, off, d.payload, n, d.frame_idx, policy),
            overlap_events: self.overlap_events + one_if(
                rel == Relation::Overlap || rel == Relation::OverlapAhead,
            ),
            retrans: self.retrans + one_if(
                rel == Relation::Retransmission || rel == Relation::Extension,
            ),
            out_of_order: self.out_of_order + one_if(rel == Relation::OutOfOrder),
            ..self
        }
    }

    /// How many bytes stand without a gap once a datagram's bytes were laid.
    pub open spec fn frontier_after(self, d: DatagramModel, policy: OverlapPolicy) -> int {
        frontier_of(
            laid(
                self.cells,
                self.data_off(d),
                d.payload,
                d.payload.len() as int,
                d.frame_idx,
                policy,
            ).dom(),
        )
    }

    /// How a datagram's bytes relate to what is held.
    pub open spec fn relation(self, d: DatagramModel, policy: OverlapPolicy) -> Relation {
        let off = self.data_off(d);
        let n = d.payload.len() as int;
        if differing(self.cells, off, d.payload, n) > 0 {
            if off >= self.frontier() {
                Relation::OverlapAhead
            } else {
                Relation::Overlap
            }
        } else if meets_held(self.cells, off, n) {
            if self.data_end(d) <= self.frontier_after(d, policy) {
                Relation::Retransmission
            } else {
                Relation::Extension
            }
        } else if off > self.frontier() {
            Relation::OutOfOrder
        } else {
            Relation::InOrder
        }
    }
}

proof fn lemma_laid(
    cells: Map<i64, (u8, usize)>,
    off: int,
    data: Seq<u8>,
    n: int,
    frame: usize,
    policy: OverlapPolicy,
)
    ensures
        forall|k: i64| #[trigger]
            laid(cells, off, data, n, frame, policy).contains_key(k) <==> (cells.contains_key(k) || (
            0 <= k && off <= k < off + n)),
{
    reveal(laid);
}

impl DirState {
    /// The parts of a direction fit together.
    pub open spec fn sound(&self) -> bool {
        &&& self.owner@.len() == self.bytes@.len()
        &&& self.frontier == self.bytes@.len()
        &&& self.bytes@.len() <= far()
        &&& forall|k: i64| #[trigger] self.pending@.contains_key(k) ==> self.bytes@.len() < k < far()
    }

    fn new() -> (r: Self)
        ensures
            r.sound(),
            r@ == DirModel::fresh(),
            r@.wf(0),
    {
        let r = DirState {
            base: None,
            base_frame: None,
            base_syn: false,
            frontier: 0,
            max_end: 0,
            fin: false,
            fin_seq: None,
            fin_off: None,
            rst: false,
            rst_frame: None,
            bytes: Vec::new(),
            owner: Vec::new(),
            pending: BTreeMap::new(),
            out_of_order: 0,
            retrans: 0,
            overlap_events: 0,
        };
        proof {
            assert(r@.cells =~= Map::<i64, (u8, usize)>::empty());
            assert(is_frontier(r@.cells.dom(), 0));
        }
        r
    }

    /// Lays bytes at an offset without moving the frontier, and returns whether
    /// one met a held byte and how many differed.
    fn lay(&mut self, off: i64, data: &Vec<u8>, frame: usize, policy: OverlapPolicy) -> (r: (
        bool,
        usize,
    ))
        requires
            old(self).sound(),
            -0x1_0000_0000 <= off < 0x8000_0000,
            data@.len() <= u32::MAX,
        ensures
            final(self)@ == (DirModel {
                cells: laid(old(self)@.cells, off as int, data@, data@.len() as int, frame, policy),
                ..old(self)@
            }),
            final(self).owner@.len() == final(self).bytes@.len(),
            final(self).bytes@.len() == old(self).bytes@.len(),
            final(self).frontier == old(self).frontier,
            forall|k: i64| #[trigger]
                final(self).pending@.contains_key(k) ==> final(self).bytes@.len() <= k < far(),
            r.0 == meets_held(old(self)@.cells, off as int, data@.len() as int),
            r.1 == differing(old(self)@.cells, off as int, data@, data@.len() as int),
    {
        let ghost s0 = self@;
        let ghost c0 = self@.cells;
        let ghost n0 = self.bytes@.len();
        let mut met = false;
        let mut count: usize = 0;
        let mut i: usize = 0;
        proof {
            reveal(laid);
            reveal(meets_held);
            assert(laid(c0, off as int, data@, 0, frame, policy) =~= c0);
        }
        while i < data.len()
            invariant
                i <= data@.len(),
                -0x1_0000_0000 <= off < 0x8000_0000,
                data@.len() <= u32::MAX,
                c0 == s0.cells,
                n0 <= far(),
                self.bytes@.len() == n0,
                self.owner@.len() == n0,
                self.frontier == old(self).frontier,
                forall|k: i64| #[trigger]
                    self.pending@.contains_key(k) ==> self.bytes@.len() <= k < far(),
                self@.cells == laid(c0, off as int, data@, i as int, frame, policy),
                self@ == (DirModel { cells: self@.cells, ..s0 }),
                met == meets_held(c0, off as int, i as int),
                count == differing(c0, off as int, data@, i as int),
                count <= i,
            decreases data@.len() - i,
        {
            proof {
                reveal(laid);
                reveal(meets_held);
            }
            let pos: i64 = off + i as i64;
            let nb: u8 = data[i];
            let ghost h = holds(c0.dom(), pos as int);
            let ghost before = self@.cells;
            let ghost met0 = met;
            assert(0 <= pos ==> before.contains_key(pos) == c0.contains_key(pos));
            assert(before.contains_key(pos) ==> before[pos] == c0[pos]);
            if pos >= 0 {
                if (pos as u64) < self.bytes.len() as u64 {
                    let p: usize = pos as usize;
                    assert(before.contains_key(pos) && before[pos] == (self.bytes@[p as int],
                        self.owner@[p as int]));
                    met = true;
                    if self.bytes[p] != nb {
                        count = count + 1;
                        if policy == OverlapPolicy::LastSeen {
                            self.bytes.set(p, nb);
                            self.owner.set(p, frame);
                        }
                    }
                } else {
                    let held: Option<u8> = match self.pending.get(&pos) {
                        Some(c) => Some(c.0),
                        None => None,
                    };
                    assert(held is Some == before.contains_key(pos));
                    match held {
                        Some(b) => {
                            met = true;
                            if b != nb {
                                count = count + 1;
                                if policy == OverlapPolicy::LastSeen {
                                    self.pending.insert(pos, (nb, frame));
                                }
                            }
                        },
                        None => {
                            self.pending.insert(pos, (nb, frame));
                        },
                    }
                }
            }
            i += 1;
            proof {
                let want = laid(c0, off as int, data@, i as int, frame, policy);
                assert(off + i - 1 == pos);
                let now = self@.cells;
                assert forall|k: i64| #[trigger]
                    now.contains_key(k) == want.contains_key(k) && (now.contains_key(k) ==> now[k]
                        == want[k]) by {
                    assert(k != pos ==> now.contains_key(k) == before.contains_key(k));
                    assert(k != pos && now.contains_key(k) ==> now[k] == before[k]);
                }
                assert(now =~= want);
                if meets_held(c0, off as int, i as int) {
                    let x = choose|x: int|
                        0 <= x && off <= x < off + i && #[trigger] holds(c0.dom(), x);
                    assert(x == pos || holds(c0.dom(), x) && x < pos);
                }
                if met0 {
                    let x = choose|x: int|
                        0 <= x && off <= x < off + i - 1 && #[trigger] holds(c0.dom(), x);
                    assert(holds(c0.dom(), x) && x < off + i);
                }
                assert(h == holds(c0.dom(), pos as int));
            }
        }
        (met, count)
    }

    /// Moves bytes that stand without a gap over from the pending ones.
    fn drain(&mut self)
        requires
            old(self).owner@.len() == old(self).bytes@.len(),
            old(self).bytes@.len() <= far(),
            forall|k: i64| #[trigger]
                old(self).pending@.contains_key(k) ==> old(self).bytes@.len() <= k < far(),
        ensures
            final(self).sound(),
            final(self)@ == old(self)@,
            is_frontier(final(self)@.cells.dom(), final(self).frontier as int),
            final(self).bytes@.len() >= old(self).bytes@.len(),
    {
        let ghost s0 = self@;
        let mut p: i64 = self.bytes.len() as i64;
        let mut more = true;
        while more
            invariant
                self.owner@.len() == self.bytes@.len(),
                p == self.bytes@.len(),
                p <= far(),
                self@ == s0,
                self.bytes@.len() >= old(self).bytes@.len(),
                forall|k: i64| #[trigger]
                    self.pending@.contains_key(k) ==> self.bytes@.len() <= k < far(),
                !more ==> !self.pending@.contains_key(p),
            decreases far() - p, one_if(more),
        {
            let ghost pend = self.pending@;
            match self.pending.remove(&p) {
                Some(c) => {
                    assert(pend.contains_key(p));
                    self.bytes.push(c.0);
                    self.owner.push(c.1);
                    p = p + 1;
                    assert(self@.cells =~= s0.cells);
                },
                None => {
                    assert(self.pending@ =~= pend);
                    more = false;
                },
            }
        }
        self.frontier = p;
        proof {
            assert forall|x: int| 0 <= x < p implies #[trigger] holds(self@.cells.dom(), x) by {
                assert(self@.cells.contains_key(x as i64));
            }
            assert(!holds(self@.cells.dom(), p as int));
            assert(is_frontier(self@.cells.dom(), p as int));
            assert(self@ == s0);
        }
    }
}

impl DirState {
    fn anchor(&mut self, d: &DatagramFrame)
        requires
            old(self).sound(),
        ensures
            final(self).sound(),
            final(self)@ == old(self)@.anchored(d@),
    {
        if self.base.is_none() {
            self.base = Some(d.seq);
            self.base_frame = Some(d.frame_idx);
            self.base_syn = has_flag(d.flags, SYN);
        }
    }

    fn note(&mut self, d: &DatagramFrame)
        requires
            old(self).sound(),
            old(self).base is Some,
            0 <= old(self).max_end <= far(),
            d@.payload.len() <= u32::MAX,
        ensures
            final(self).sound(),
            final(self)@ == old(self)@.noted(d@),
    {
        let off: i64 = self.offset(d);
        let data_end: i64 = off + d.payload.len() as i64;
        let mut span_end: i64 = data_end;
        if has_flag(d.flags, SYN) {
            span_end = span_end + 1;
        }
        if has_flag(d.flags, FIN) {
            span_end = span_end + 1;
        }
        if span_end > self.max_end {
            self.max_end = span_end;
        }
        if has_flag(d.flags, FIN) {
            self.fin = true;
            self.fin_seq = Some(d.seq.wrapping_add(d.payload.len() as u32));
            self.fin_off = Some(data_end);
        }
    }

    fn begin(&self, d: &DatagramFrame) -> (r: i64)
        requires
            self.base is Some,
        ensures
            r == self@.begin(d@),
            -0x8000_0000 <= r < 0x8000_0000,
    {
        match self.base {
            Some(b) => seq_offset(d.seq, b),
            None => 0,
        }
    }

    fn offset(&self, d: &DatagramFrame) -> (r: i64)
        requires
            self.base is Some,
        ensures
            r == self@.data_off(d@),
            -0x1_0000_0000 <= r < 0x8000_0000,
    {
        let b: i64 = self.begin(d);
        if self.base_syn {
            b - 1
        } else {
            b
        }
    }

    /// Lays a datagram's bytes, and returns how they relate to what was held and
    /// how many differed.
    fn fill(&mut self, d: &DatagramFrame, policy: OverlapPolicy) -> (r: (Relation, usize))
        requires
            old(self).sound(),
            is_frontier(old(self)@.cells.dom(), old(self).frontier as int),
            old(self).base is Some,
            d@.payload.len() <= u32::MAX,
            old(self).out_of_order < usize::MAX,
            old(self).retrans < usize::MAX,
            old(self).overlap_events < usize::MAX,
        ensures
            final(self).sound(),
            is_frontier(final(self)@.cells.dom(), final(self).frontier as int),
            final(self)@ == old(self)@.filled(d@, policy),
            r.0 == old(self)@.relation(d@, policy),
            r.1 == differing(
                old(self)@.cells,
                old(self)@.data_off(d@),
                d@.payload,
                d@.payload.len() as int,
            ),
    {
        let ghost s0 = self@;
        let off: i64 = self.offset(d);
        let before: i64 = self.frontier;
        let data_end: i64 = off + d.payload.len() as i64;
        proof {
            lemma_frontier(s0.cells.dom(), before as int);
        }
        let (met, count) = self.lay(off, &d.payload, d.frame_idx, policy);
        self.drain();
        let now: i64 = self.frontier;
        proof {
            lemma_frontier(self@.cells.dom(), now as int);
        }
        let rel = if count > 0 {
            self.overlap_events = self.overlap_events + 1;
            if off >= before {
                Relation::OverlapAhead
            } else {
                Relation::Overlap
            }
        } else if met {
            self.retrans = self.retrans + 1;
            if data_end <= now {
                Relation::Retransmission
            } else {
                Relation::Extension
            }
        } else if off > before {
            self.out_of_order = self.out_of_order + 1;
            Relation::OutOfOrder
        } else {
            Relation::InOrder
        };
        (rel, count)
    }
}

/// What a segment record says.
pub struct SegModel {
    pub frame_idx: usize,
    pub dir: u8,
    pub seq_abs: u32,
    pub begin: int,
    pub end: int,
    pub len: nat,
    pub flags: u8,
    pub ts_us: int,
    pub relation: Seq<char>,
    pub overwritten: nat,
    pub kept: nat,
    pub data: Seq<u8>,
    pub conflict: bool,
}

impl View for SegRecord {
    type V = SegModel;

    open spec fn view(&self) -> SegModel {
        SegModel {
            frame_idx: self.frame_idx,
            dir: self.dir,
            seq_abs: self.seq_abs,
            begin: self.begin as int,
            end: self.end as int,
            len: self.len as nat,
            flags: self.flags,
            ts_us: self.ts_us as int,
            relation: self.relation@,
            overwritten: self.overwritten as nat,
            kept: self.kept as nat,
            data: self.data@,
            conflict: self.conflict,
        }
    }
}

impl DirModel {
    /// The record of a datagram in direction `dir`.
    pub open spec fn record(self, dir: int, d: DatagramModel, policy: OverlapPolicy) -> SegModel {
        let dm = self.anchored(d);
        let n = d.payload.len();
        let plain = SegModel {
            frame_idx: d.frame_idx,
            dir: dir as u8,
            seq_abs: d.seq,
            begin: 0,
            end: 0,
            len: 0,
            flags: d.flags,
            ts_us: d.ts_us,
            relation: "rst"@,
            overwritten: 0,
            kept: 0,
            data: seq![],
            conflict: false,
        };
        if d.rst() {
            plain
        } else if n == 0 {
            SegModel {
                begin: dm.begin(d),
                end: dm.data_off(d) + d.span(),
                relation: if d.syn() {
                    "syn"@
                } else if d.fin() {
                    "fin"@
                } else {
                    "pure-ack"@
                },
                ..plain
            }
        } else {
            let st = dm.noted(d);
            let differ = differing(st.cells, st.data_off(d), d.payload, n as int);
            SegModel {
                begin: st.data_off(d),
                end: st.data_end(d),
                len: n,
                relation: st.relation(d, policy).text(),
                overwritten: if policy == OverlapPolicy::LastSeen {
                    differ
                } else {
                    0
                },
                kept: n,
                data: d.payload,
                conflict: differ > 0,
                ..plain
            }
        }
    }

    /// The direction after a datagram.
    pub open spec fn after(self, d: DatagramModel, policy: OverlapPolicy) -> DirModel {
        let dm = self.anchored(d);
        if d.rst() {
            DirModel { rst: true, rst_frame: Some(d.frame_idx), ..dm }
        } else if d.payload.len() == 0 {
            dm.noted(d)
        } else {
            dm.noted(d).filled(d, policy)
        }
    }
}

/// What a session is.
pub struct SessionModel {
    pub id: Seq<char>,
    pub gen: nat,
    pub key: Seq<char>,
    pub c_ip: Seq<char>,
    pub s_ip: Seq<char>,
    pub c_port: u16,
    pub s_port: u16,
    pub ip_version: u8,
    pub start_frame: usize,
    pub end_frame: usize,
    pub start_ts: int,
    pub last_ts: int,
    pub state: Seq<char>,
    pub handshake: Seq<char>,
    pub mid_capture: bool,
    pub dirs: Seq<DirModel>,
    pub segments: Seq<SegModel>,
    pub close_reason: Seq<char>,
    pub syn_frames: Seq<usize>,
}

pub open spec fn dir_models(s: Seq<DirState>) -> Seq<DirModel> {
    s.map_values(|x: DirState| x@)
}

pub open spec fn seg_models(s: Seq<SegRecord>) -> Seq<SegModel> {
    s.map_values(|x: SegRecord| x@)
}

impl View for Session {
    type V = SessionModel;

    open spec fn view(&self) -> SessionModel {
        SessionModel {
            id: self.id@,
            gen: self.gen as nat,
            key: self.key@,
            c_ip: self.c_ip@,
            s_ip: self.s_ip@,
            c_port: self.c_port,
            s_port: self.s_port,
            ip_version: self.ip_version,
            start_frame: self.start_frame,
            end_frame: self.end_frame,
            start_ts: self.start_ts as int,
            last_ts: self.last_ts as int,
            state: self.state@,
            handshake: self.handshake@,
            mid_capture: self.mid_capture,
            dirs: dir_models(self.dirs@),
            segments: seg_models(self.segments@),
            close_reason: self.close_reason@,
            syn_frames: self.syn_frames@,
        }
    }
}

impl SessionModel {
    pub open spec fn wf(self) -> bool {
        &&& self.dirs.len() == 2
        &&& self.dirs[0].wf(self.segments.len())
        &&& self.dirs[1].wf(self.segments.len())
    }

    pub open spec fn is_open(self) -> bool {
        self.state == "open"@
    }

    /// Whether a datagram goes from client to server.
    pub open spec fn forward(self, d: DatagramModel) -> bool {
        d.src == self.c_ip && d.sport == self.c_port && d.dst == self.s_ip && d.dport == self.s_port
    }

    /// Whether a datagram goes from server to client.
    pub open spec fn backward(self, d: DatagramModel) -> bool {
        d.src == self.s_ip && d.sport == self.s_port && d.dst == self.c_ip && d.dport == self.c_port
    }

    /// 0 from client to server, else 1.
    pub open spec fn direction(self, d: DatagramModel) -> int {
        if self.forward(d) {
            0
        } else {
            1
        }
    }

    /// Whether a datagram's numbers lie near those of its direction.
    pub open spec fn plausible(self, d: DatagramModel) -> bool {
        let st = self.dirs[self.direction(d)];
        d.rst() || st.base is None || (st.begin(d) + d.span() >= -2_000_000 && st.begin(d)
            <= st.max_end + 2_000_000)
    }

    /// Whether a client's SYN has another number than the one that opened the
    /// session.
    pub open spec fn new_syn(self, d: DatagramModel) -> bool {
        let st = self.dirs[0];
        st.base is None || !(0 <= st.begin(d) <= 1)
    }

    /// The session after a datagram was placed in direction `dir`.
    pub open spec fn placed(self, dir: int, d: DatagramModel, policy: OverlapPolicy) -> SessionModel {
        SessionModel {
            syn_frames: if d.syn() && !self.syn_frames.contains(d.frame_idx) {
                self.syn_frames.push(d.frame_idx)
            } else {
                self.syn_frames
            },
            handshake: if self.dirs[dir].base is None && !d.syn() && self.handshake == "seen"@ {
                "partial"@
            } else {
                self.handshake
            },
            dirs: self.dirs.update(dir, self.dirs[dir].after(d, policy)),
            segments: self.segments.push(self.dirs[dir].record(dir, d, policy)),
            end_frame: d.frame_idx,
            last_ts: d.ts_us,
            ..self
        }
    }

    /// An open session closes on a RST, or once both directions have ended.
    pub open spec fn settled(self) -> SessionModel {
        if !self.is_open() {
            self
        } else if self.dirs[0].rst || self.dirs[1].rst {
            SessionModel { state: "rst-closed"@, close_reason: "RST received"@, ..self }
        } else if self.dirs[0].fin && self.dirs[1].fin {
            SessionModel {
                state: "fin-closed"@,
                close_reason: "FIN seen in both directions"@,
                ..self
            }
        } else {
            self
        }
    }
}

impl Session {
    /// The parts of a session fit together.
    pub open spec fn sound(&self) -> bool {
        &&& self@.wf()
        &&& self.dirs@.len() == 2
        &&& self.dirs@[0].sound()
        &&& self.dirs@[1].sound()
    }

    fn is_open(&self) -> (r: bool)
        ensures
            r == self@.is_open(),
    {
        same(self.state.as_str(), "open")
    }

    fn knows_syn(&self, frame: usize) -> (r: bool)
        ensures
            r == self.syn_frames@.contains(frame),
    {
        let mut i: usize = 0;
        while i < self.syn_frames.len()
            invariant
                i <= self.syn_frames@.len(),
                forall|j: int| 0 <= j < i ==> self.syn_frames@[j] != frame,
            decreases self.syn_frames@.len() - i,
        {
            if self.syn_frames[i] == frame {
                return true;
            }
            i += 1;
        }
        false
    }

    /// Places a datagram in a direction.
    fn place(&mut self, dir: u8, d: &DatagramFrame, policy: OverlapPolicy)
        requires
            old(self).sound(),
            dir < 2,
            d@.payload.len() <= u32::MAX,
            old(self).segments@.len() < usize::MAX,
        ensures
            final(self).sound(),
            final(self)@ == old(self)@.placed(dir as int, d@, policy),
    {
        let ghost s0 = self@;
        let k: usize = dir as usize;
        let ghost kk = k as int;
        let ghost dm0 = s0.dirs[kk];
        assert(dm0 == self.dirs@[kk]@);
        let syn = has_flag(d.flags, SYN);
        if syn && !self.knows_syn(d.frame_idx) {
            self.syn_frames.push(d.frame_idx);
        }
        if self.dirs[k].base.is_none() && !syn && same(self.handshake.as_str(), "seen") {
            self.handshake = "partial".to_string();
        }
        let seg = self.dirs[k].accept(dir, d, policy);
        self.segments.push(seg);
        self.end_frame = d.frame_idx;
        self.last_ts = d.ts_us;
        proof {
            let want = s0.placed(kk, d@, policy);
            assert(self@.dirs =~= want.dirs);
            assert(self@.segments =~= want.segments);
            assert(self@ == want);
            lemma_more_segments(s0.dirs[1 - kk], s0.segments.len());
            lemma_after_wf(
                dm0,
                s0.segments.len(),
                d@,
                policy,
                self.dirs@[kk].frontier as int,
            );
        }
    }

    /// Closes an open session on a RST, or once both directions have ended.
    fn update_close(&mut self)
        requires
            old(self).sound(),
        ensures
            final(self).sound(),
            final(self)@ == old(self)@.settled(),
    {
        if !self.is_open() {
            return;
        }
        if self.dirs[0].rst || self.dirs[1].rst {
            self.state = "rst-closed".to_string();
            self.close_reason = "RST received".to_string();
        } else if self.dirs[0].fin && self.dirs[1].fin {
            self.state = "fin-closed".to_string();
            self.close_reason = "FIN seen in both directions".to_string();
        }
    }
}

pub(crate) proof fn lemma_sound_frontier(st: DirState)
    requires
        st.sound(),
    ensures
        is_frontier(st@.cells.dom(), st.frontier as int),
{
    let n = st.frontier as int;
    assert forall|x: int| 0 <= x < n implies #[trigger] holds(st@.cells.dom(), x) by {
        assert(st@.cells.contains_key(x as i64));
    }
    assert(!st.pending@.contains_key(n as i64));
    assert(!holds(st@.cells.dom(), n));
}

proof fn lemma_more_segments(dm: DirModel, n: nat)
    requires
        dm.wf(n),
    ensures
        dm.wf(n + 1),
{
}

proof fn lemma_after_wf(dm: DirModel, n: nat, d: DatagramModel, policy: OverlapPolicy, f: int)
    requires
        dm.wf(n),
        d.payload.len() <= u32::MAX,
        is_frontier(dm.after(d, policy).cells.dom(), f),
    ensures
        dm.after(d, policy).wf(n + 1),
{
    let st = dm.anchored(d).noted(d);
    lemma_laid(
        st.cells,
        st.data_off(d),
        d.payload,
        d.payload.len() as int,
        d.frame_idx,
        policy,
    );
}

impl DirState {
    /// Takes a datagram, and returns its record.
    fn accept(&mut self, dir: u8, d: &DatagramFrame, policy: OverlapPolicy) -> (seg: SegRecord)
        requires
            old(self).sound(),
            0 <= old(self).max_end <= far(),
            d@.payload.len() <= u32::MAX,
            old(self).out_of_order < usize::MAX,
            old(self).retrans < usize::MAX,
            old(self).overlap_events < usize::MAX,
        ensures
            final(self).sound(),
            is_frontier(final(self)@.cells.dom(), final(self).frontier as int),
            final(self)@ == old(self)@.after(d@, policy),
            seg@ == old(self)@.record(dir as int, d@, policy),
    {
        let syn = has_flag(d.flags, SYN);
        let fin = has_flag(d.flags, FIN);
        self.anchor(d);
        proof {
            lemma_sound_frontier(*self);
        }
        let mut seg = SegRecord {
            frame_idx: d.frame_idx,
            dir,
            seq_abs: d.seq,
            begin: 0,
            end: 0,
            len: 0,
            flags: d.flags,
            ts_us: d.ts_us,
            relation: "rst".to_string(),
            overwritten: 0,
            kept: 0,
            data: Vec::new(),
            conflict: false,
        };
        assert(seg.data@ =~= seq![]);
        if has_flag(d.flags, RST) {
            self.rst = true;
            self.rst_frame = Some(d.frame_idx);
            return seg;
        }
        let begin: i64 = self.begin(d);
        let off: i64 = self.offset(d);
        let n: usize = d.payload.len();
        self.note(d);
        if n == 0 {
            let mut end: i64 = off;
            if syn {
                end = end + 1;
            }
            if fin {
                end = end + 1;
            }
            seg.begin = begin;
            seg.end = end;
            seg.relation =
            if syn {
                "syn".to_string()
            } else if fin {
                "fin".to_string()
            } else {
                "pure-ack".to_string()
            };
            return seg;
        }
        let (rel, count) = self.fill(d, policy);
        seg.begin = off;
        seg.end = off + n as i64;
        seg.len = n;
        seg.relation = rel.to_text();
        if policy == OverlapPolicy::LastSeen {
            seg.overwritten = count;
        }
        seg.kept = n;
        seg.data = copy_bytes(&d.payload);
        seg.conflict = count > 0;
        seg
    }
}

/// The text of an endpoint.
pub open spec fn endpoint_text(ip: Seq<char>, port: u16) -> Seq<char> {
    ip + ":"@ + dec(port as nat)
}

/// The key that both directions of a connection share.
pub open spec fn canon_of(d: DatagramModel) -> Seq<char> {
    let a = endpoint_text(d.src, d.sport);
    let b = endpoint_text(d.dst, d.dport);
    if text_le(a, b) {
        a + "|"@ + b
    } else {
        b + "|"@ + a
    }
}

/// The last of the first `n` places that hold `c`.
pub open spec fn last_place(canons: Seq<Seq<char>>, c: Seq<char>, n: int) -> Option<int>
    decreases n,
{
    if n <= 0 {
        None
    } else if canons[n - 1] == c {
        Some(n - 1)
    } else {
        last_place(canons, c, n - 1)
    }
}

/// How many of the first `n` places hold `c`.
pub open spec fn places(canons: Seq<Seq<char>>, c: Seq<char>, n: int) -> nat
    decreases n,
{
    if n <= 0 {
        0
    } else if canons[n - 1] == c {
        places(canons, c, n - 1) + 1
    } else {
        places(canons, c, n - 1)
    }
}

/// What the engine holds: the sessions in the order in which they opened, each
/// with the key of its connection.
pub struct EngineModel {
    pub policy: OverlapPolicy,
    pub timeout_us: int,
    pub canons: Seq<Seq<char>>,
    pub sessions: Seq<SessionModel>,
}

impl EngineModel {
    pub open spec fn wf(self) -> bool {
        &&& self.canons.len() == self.sessions.len()
        &&& forall|i: int| 0 <= i < self.sessions.len() ==> (#[trigger] self.sessions[i]).wf()
    }

    /// The newest session of a connection.
    pub open spec fn newest(self, c: Seq<char>) -> Option<int> {
        last_place(self.canons, c, self.canons.len() as int)
    }

    /// The engine after an idle open session was ended.
    pub open spec fn timed(self, d: DatagramModel) -> EngineModel {
        let last = self.newest(canon_of(d));
        let i = last->0;
        let s = self.sessions[i];
        if last is Some && s.is_open() && d.ts_us - s.last_ts > self.timeout_us {
            EngineModel {
                sessions: self.sessions.update(
                    i,
                    SessionModel {
                        state: "timed-out"@,
                        close_reason: "idle gap "@ + dec_int(d.ts_us - s.last_ts)
                            + " us exceeded timeout "@ + dec_int(self.timeout_us) + " us"@,
                        end_frame: d.frame_idx,
                        last_ts: d.ts_us,
                        ..s
                    },
                ),
                ..self
            }
        } else {
            self
        }
    }

    /// Whether a datagram can belong to session `i`.
    pub open spec fn fits(self, i: int, d: DatagramModel) -> bool {
        let s = self.sessions[i];
        &&& self.canons[i] == canon_of(d)
        &&& s.is_open()
        &&& s.forward(d) || s.backward(d)
        &&& s.plausible(d)
    }

    /// The last of the first `n` sessions that a datagram can belong to.
    pub open spec fn target(self, d: DatagramModel, n: int) -> Option<int>
        decreases n,
    {
        if n <= 0 {
            None
        } else if self.fits(n - 1, d) {
            Some(n - 1)
        } else {
            self.target(d, n - 1)
        }
    }

    /// Whether a datagram opens a session: one that belongs to none does, and a
    /// SYN does unless it is the reply to a client's SYN or repeats it.
    pub open spec fn opens(self, d: DatagramModel) -> bool {
        match self.target(d, self.sessions.len() as int) {
            None => true,
            Some(i) => {
                let s = self.sessions[i];
                d.syn() && !d.rst() && (if s.direction(d) == 0 {
                    s.new_syn(d)
                } else {
                    !d.ack()
                })
            },
        }
    }

    /// The engine after a datagram opened a session, which ends an open one on the
    /// same connection.
    pub open spec fn opened(self, d: DatagramModel) -> EngineModel {
        let c = canon_of(d);
        let last = self.newest(c);
        let i = last->0;
        let s = self.sessions[i];
        let rest = if last is Some && s.is_open() {
            self.sessions.update(
                i,
                SessionModel {
                    state: "superseded"@,
                    close_reason: "new generation opened on reused 4-tuple"@,
                    end_frame: d.frame_idx,
                    last_ts: d.ts_us,
                    ..s
                },
            )
        } else {
            self.sessions
        };
        let gen = places(self.canons, c, self.canons.len() as int) + 1;
        EngineModel {
            canons: self.canons.push(c),
            sessions: rest.push(
                SessionModel {
                    id: "g"@ + dec(gen) + "-"@ + c,
                    gen,
                    key: endpoint_text(d.src, d.sport) + "<->"@ + endpoint_text(d.dst, d.dport),
                    c_ip: d.src,
                    s_ip: d.dst,
                    c_port: d.sport,
                    s_port: d.dport,
                    ip_version: d.ip_version,
                    start_frame: d.frame_idx,
                    end_frame: d.frame_idx,
                    start_ts: d.ts_us,
                    last_ts: d.ts_us,
                    state: "open"@,
                    handshake: if d.syn() {
                        "seen"@
                    } else {
                        "missing"@
                    },
                    mid_capture: !d.syn(),
                    dirs: seq![DirModel::fresh(), DirModel::fresh()],
                    segments: seq![],
                    close_reason: seq![],
                    syn_frames: if d.syn() {
                        seq![d.frame_idx]
                    } else {
                        seq![]
                    },
                },
            ),
            ..self
        }
    }

    /// The engine after a datagram was put into session `i`.
    pub open spec fn put(self, i: int, d: DatagramModel) -> EngineModel {
        let s = self.sessions[i];
        EngineModel {
            sessions: self.sessions.update(
                i,
                s.placed(s.direction(d), d, self.policy).settled(),
            ),
            ..self
        }
    }

    /// The engine after a datagram.
    pub open spec fn ingested(self, d: DatagramModel) -> EngineModel {
        let e = self.timed(d);
        if e.opens(d) {
            let f = e.opened(d);
            f.put(f.sessions.len() - 1, d)
        } else {
            e.put(e.target(d, e.sessions.len() as int)->0, d)
        }
    }

    /// The engine at the end of a capture: an open session without an observed
    /// handshake is partial.
    pub open spec fn finalized(self) -> EngineModel {
        EngineModel {
            sessions: self.sessions.map_values(
                |s: SessionModel|
                    if s.is_open() && s.handshake == "missing"@ {
                        SessionModel {
                            state: "partial"@,
                            close_reason: "capture ended with no observed handshake"@,
                            ..s
                        }
                    } else {
                        s
                    },
            ),
            ..self
        }
    }

    /// The time since the newest session of a datagram's connection can be told.
    pub open spec fn clock_fits(self, d: DatagramModel) -> bool {
        self.newest(canon_of(d)) matches Some(i) ==> i128::MIN <= d.ts_us - self.sessions[i].last_ts
            <= i128::MAX
    }

    /// There is room for one more session and one more segment in each.
    pub open spec fn has_room(self) -> bool {
        &&& self.sessions.len() < usize::MAX
        &&& forall|i: int|
            0 <= i < self.sessions.len() ==> (#[trigger] self.sessions[i]).segments.len()
                < usize::MAX
    }
}

pub struct Engine {
    pub cfg: EngineConfig,
    /// The key of each session's connection.
    pub canons: Vec<String>,
    /// The sessions in the order in which they opened.
    pub sessions: Vec<Session>,
}

pub open spec fn session_models(s: Seq<Session>) -> Seq<SessionModel> {
    s.map_values(|x: Session| x@)
}

impl View for Engine {
    type V = EngineModel;

    open spec fn view(&self) -> EngineModel {
        EngineModel {
            policy: self.cfg.policy,
            timeout_us: self.cfg.timeout_us as int,
            canons: crate::text::views(self.canons@),
            sessions: session_models(self.sessions@),
        }
    }
}

fn endpoint_string(ip: &String, port: u16) -> (s: String)
    ensures
        s@ == endpoint_text(ip@, port),
{
    let mut s = cat(ip.as_str(), ":");
    push_dec(&mut s, port as u64);
    s
}

fn canon_string(d: &DatagramFrame) -> (s: String)
    ensures
        s@ == canon_of(d@),
{
    let a = endpoint_string(&d.src, d.sport);
    let b = endpoint_string(&d.dst, d.dport);
    if at_most(a.as_str(), b.as_str()) {
        let mut s = a;
        push_text(&mut s, "|");
        push_text(&mut s, b.as_str());
        s
    } else {
        let mut s = b;
        push_text(&mut s, "|");
        push_text(&mut s, a.as_str());
        s
    }
}

fn direction_of(s: &Session, d: &DatagramFrame) -> (r: u8)
    ensures
        r == s@.direction(d@),
        r < 2,
{
    if same(d.src.as_str(), s.c_ip.as_str()) && d.sport == s.c_port && same(
        d.dst.as_str(),
        s.s_ip.as_str(),
    ) && d.dport == s.s_port {
        0
    } else {
        1
    }
}

fn plausible(s: &Session, d: &DatagramFrame) -> (r: bool)
    requires
        s.sound(),
        d@.payload.len() <= u32::MAX,
    ensures
        r == s@.plausible(d@),
{
    let k: usize = direction_of(s, d) as usize;
    let st = &s.dirs[k];
    assert(s@.dirs[k as int] == st@);
    if has_flag(d.flags, RST) {
        return true;
    }
    if st.base.is_none() {
        return true;
    }
    let off: i64 = st.begin(d);
    let mut span: i64 = d.payload.len() as i64;
    if has_flag(d.flags, SYN) {
        span = span + 1;
    }
    if has_flag(d.flags, FIN) {
        span = span + 1;
    }
    off + span >= -2_000_000 && off <= st.max_end + 2_000_000
}

fn endpoint_match(s: &Session, d: &DatagramFrame) -> (r: bool)
    ensures
        r == (s@.forward(d@) || s@.backward(d@)),
{
    let fwd = direction_of(s, d) == 0;
    let rev = same(d.src.as_str(), s.s_ip.as_str()) && d.sport == s.s_port && same(
        d.dst.as_str(),
        s.c_ip.as_str(),
    ) && d.dport == s.c_port;
    fwd || rev
}

/// Whether a client's SYN has another number than the one that opened the
/// session.
fn starts_new_syn(s: &Session, d: &DatagramFrame) -> (r: bool)
    requires
        s.sound(),
    ensures
        r == s@.new_syn(d@),
{
    let st = &s.dirs[0];
    assert(s@.dirs[0] == st@);
    if st.base.is_none() {
        return true;
    }
    let off: i64 = st.begin(d);
    !(0 <= off && off <= 1)
}

impl Engine {
    /// The parts of the engine fit together.
    pub open spec fn sound(&self) -> bool {
        &&& self@.wf()
        &&& forall|i: int| 0 <= i < self.sessions@.len() ==> (#[trigger] self.sessions@[i]).sound()
    }

    pub fn new(cfg: EngineConfig) -> (r: Engine)
        ensures
            r.sound(),
            r@ == (EngineModel {
                policy: cfg.policy,
                timeout_us: cfg.timeout_us as int,
                canons: seq![],
                sessions: seq![],
            }),
    {
        let r = Engine { cfg, canons: Vec::new(), sessions: Vec::new() };
        assert(r@.canons =~= seq![]);
        assert(r@.sessions =~= seq![]);
        r
    }

    fn newest(&self, c: &String) -> (r: Option<usize>)
        ensures
            match r {
                Some(i) => self@.newest(c@) == Some(i as int) && i < self.canons@.len(),
                None => self@.newest(c@) is None,
            },
    {
        let mut n: usize = self.canons.len();
        while n > 0
            invariant
                n <= self.canons@.len(),
                self@.newest(c@) == last_place(self@.canons, c@, n as int),
            decreases n,
        {
            assert(self@.canons[n - 1] == self.canons@[n - 1]@);
            if same(self.canons[n - 1].as_str(), c.as_str()) {
                return Some(n - 1);
            }
            n -= 1;
        }
        None
    }

    fn generations(&self, c: &String) -> (r: usize)
        ensures
            r == places(self@.canons, c@, self@.canons.len() as int),
            r <= self.canons@.len(),
    {
        let mut n: usize = 0;
        let mut k: usize = 0;
        while n < self.canons.len()
            invariant
                n <= self.canons@.len(),
                k == places(self@.canons, c@, n as int),
                k <= n,
            decreases self.canons@.len() - n,
        {
            assert(self@.canons[n as int] == self.canons@[n as int]@);
            if same(self.canons[n].as_str(), c.as_str()) {
                k += 1;
            }
            n += 1;
        }
        k
    }

    /// Ends an idle open session of a datagram's connection.
    fn timeout_check(&mut self, c: &String, d: &DatagramFrame)
        requires
            old(self).sound(),
            c@ == canon_of(d@),
            old(self)@.clock_fits(d@),
        ensures
            final(self).sound(),
            final(self)@ == old(self)@.timed(d@),
    {
        let ghost e0 = self@;
        if let Some(i) = self.newest(c) {
            assert(e0.sessions[i as int] == self.sessions@[i as int]@);
            if self.sessions[i].is_open() {
                let idle: i128 = d.ts_us - self.sessions[i].last_ts;
                if idle > self.cfg.timeout_us {
                    let mut reason = "idle gap ".to_string();
                    push_dec_i128(&mut reason, idle);
                    push_text(&mut reason, " us exceeded timeout ");
                    push_dec_i128(&mut reason, self.cfg.timeout_us);
                    push_text(&mut reason, " us");
                    self.sessions[i].end(
                        "timed-out".to_string(),
                        reason,
                        d.frame_idx,
                        d.ts_us,
                    );
                    proof {
                        assert(self@.sessions =~= e0.timed(d@).sessions);
                        lemma_wf_update(e0, i as int, self@);
                    }
                }
            }
        }
    }

    /// The session that a datagram can belong to.
    fn find(&self, c: &String, d: &DatagramFrame) -> (r: Option<usize>)
        requires
            self.sound(),
            c@ == canon_of(d@),
            d@.payload.len() <= u32::MAX,
        ensures
            match r {
                Some(i) => self@.target(d@, self@.sessions.len() as int) == Some(i as int) && i
                    < self.sessions@.len(),
                None => self@.target(d@, self@.sessions.len() as int) is None,
            },
    {
        let mut n: usize = self.sessions.len();
        while n > 0
            invariant
                self.sound(),
                c@ == canon_of(d@),
                d@.payload.len() <= u32::MAX,
                n <= self.sessions@.len(),
                self@.target(d@, self@.sessions.len() as int) == self@.target(d@, n as int),
            decreases n,
        {
            assert(self@.canons[n - 1] == self.canons@[n - 1]@);
            assert(self@.sessions[n - 1] == self.sessions@[n - 1]@);
            let s = &self.sessions[n - 1];
            if same(self.canons[n - 1].as_str(), c.as_str()) && s.is_open() && endpoint_match(s, d)
                && plausible(s, d) {
                return Some(n - 1);
            }
            n -= 1;
        }
        None
    }

    /// Opens a session, which ends an open one on the same connection, and returns
    /// its place.
    fn ensure_gen(&mut self, c: &String, d: &DatagramFrame) -> (r: usize)
        requires
            old(self).sound(),
            c@ == canon_of(d@),
            old(self)@.sessions.len() < usize::MAX,
        ensures
            final(self).sound(),
            final(self)@ == old(self)@.opened(d@),
            r == final(self)@.sessions.len() - 1,
    {
        let ghost e0 = self@;
        let gen: usize = self.generations(c) + 1;
        if let Some(i) = self.newest(c) {
            assert(e0.sessions[i as int] == self.sessions@[i as int]@);
            if self.sessions[i].is_open() {
                self.sessions[i].end(
                    "superseded".to_string(),
                    "new generation opened on reused 4-tuple".to_string(),
                    d.frame_idx,
                    d.ts_us,
                );
                assert(self@.sessions =~= e0.sessions.update(
                    i as int,
                    self.sessions@[i as int]@,
                ));
                proof {
                    lemma_wf_update(e0, i as int, self@);
                }
            }
        }
        let ghost rest = self@.sessions;
        let syn = has_flag(d.flags, SYN);
        let mut id = "g".to_string();
        push_dec(&mut id, gen as u64);
        push_text(&mut id, "-");
        push_text(&mut id, c.as_str());
        let mut key = endpoint_string(&d.src, d.sport);
        push_text(&mut key, "<->");
        push_text(&mut key, endpoint_string(&d.dst, d.dport).as_str());
        let mut dirs: Vec<DirState> = Vec::new();
        dirs.push(DirState::new());
        dirs.push(DirState::new());
        assert(dir_models(dirs@) =~= seq![DirModel::fresh(), DirModel::fresh()]);
        let mut syn_frames: Vec<usize> = Vec::new();
        if syn {
            syn_frames.push(d.frame_idx);
        }
        assert(syn_frames@ =~= if syn {
            seq![d.frame_idx]
        } else {
            seq![]
        });
        let session = Session {
            id,
            gen,
            key,
            c_ip: d.src.clone(),
            s_ip: d.dst.clone(),
            c_port: d.sport,
            s_port: d.dport,
            ip_version: d.ip_version,
            start_frame: d.frame_idx,
            end_frame: d.frame_idx,
            start_ts: d.ts_us,
            last_ts: d.ts_us,
            state: "open".to_string(),
            handshake: if syn {
                "seen".to_string()
            } else {
                "missing".to_string()
            },
            mid_capture: !syn,
            dirs,
            segments: Vec::new(),
            close_reason: String::new(),
            syn_frames,
        };
        let ghost fresh = session@;
        assert(fresh.segments =~= seq![]);
        assert(fresh.close_reason =~= seq![]);
        self.sessions.push(session);
        self.canons.push(c.clone());
        proof {
            let want = e0.opened(d@);
            assert(self@.sessions =~= rest.push(fresh));
            assert(self@.canons =~= e0.canons.push(c@));
            assert(self@.sessions =~= want.sessions);
            assert(self@ == want);
            assert forall|i: int| 0 <= i < self@.sessions.len() implies (
            #[trigger] self@.sessions[i]).wf() by {
                if i < rest.len() {
                    assert(rest[i] == self@.sessions[i]);
                }
            }
        }
        self.sessions.len() - 1
    }

    /// Takes the next datagram.
    pub fn ingest(&mut self, d: &DatagramFrame)
        requires
            old(self).sound(),
            old(self)@.clock_fits(d@),
            old(self)@.has_room(),
            d@.payload.len() <= u32::MAX,
        ensures
            final(self).sound(),
            final(self)@ == old(self)@.ingested(d@),
    {
        let ghost e0 = self@;
        let c = canon_string(d);
        self.timeout_check(&c, d);
        let ghost e1 = self@;
        let target = self.find(&c, d);
        let syn = has_flag(d.flags, SYN);
        let opens = match target {
            Some(i) => {
                assert(e1.sessions[i as int] == self.sessions@[i as int]@);
                syn && !has_flag(d.flags, RST) && if direction_of(&self.sessions[i], d) == 0 {
                    starts_new_syn(&self.sessions[i], d)
                } else {
                    !has_flag(d.flags, ACK)
                }
            },
            None => true,
        };
        assert(opens == e1.opens(d@));
        let i: usize = if opens {
            self.ensure_gen(&c, d)
        } else {
            match target {
                Some(i) => i,
                None => 0,
            }
        };
        let ghost e2 = self@;
        assert(e2.sessions[i as int] == self.sessions@[i as int]@);
        proof {
            if !opens {
                lemma_last_place(e0.canons, c@, e0.canons.len() as int);
                assert(e0.sessions[i as int].segments == e1.sessions[i as int].segments);
            }
            assert(e2.sessions[i as int].segments.len() < usize::MAX);
        }
        let dir: u8 = direction_of(&self.sessions[i], d);
        let policy = self.cfg.policy;
        self.sessions[i].place(dir, d, policy);
        self.sessions[i].update_close();
        proof {
            assert(self@.sessions =~= e2.put(i as int, d@).sessions);
            lemma_wf_update(e2, i as int, self@);
        }
    }

    /// Ends the capture: an open session without an observed handshake is partial.
    pub fn finalize(&mut self)
        requires
            old(self).sound(),
        ensures
            final(self).sound(),
            final(self)@ == old(self)@.finalized(),
    {
        let ghost e0 = self@;
        let ghost want = e0.finalized();
        let mut i: usize = 0;
        while i < self.sessions.len()
            invariant
                self.sound(),
                i <= self.sessions@.len(),
                e0 == old(self)@,
                want == e0.finalized(),
                self@.sessions.len() == e0.sessions.len(),
                self@ == (EngineModel { sessions: self@.sessions, ..e0 }),
                forall|j: int| 0 <= j < i ==> #[trigger] self@.sessions[j] == want.sessions[j],
                forall|j: int|
                    i <= j < self@.sessions.len() ==> #[trigger] self@.sessions[j]
                        == e0.sessions[j],
            decreases self.sessions@.len() - i,
        {
            let ghost before = self@;
            assert(before.sessions[i as int] == self.sessions@[i as int]@);
            if self.sessions[i].is_open() && same(self.sessions[i].handshake.as_str(), "missing") {
                self.sessions[i].close(
                    "partial".to_string(),
                    "capture ended with no observed handshake".to_string(),
                );
                assert(self@.sessions =~= before.sessions.update(
                    i as int,
                    self.sessions@[i as int]@,
                ));
                proof {
                    lemma_wf_update(before, i as int, self@);
                }
            }
            i += 1;
        }
        assert(self@.sessions =~= want.sessions);
    }

    /// The missing data ranges of a session below bytes that arrived past a gap,
    /// as direction, begin and end. Sequence numbers of SYN and FIN do not count.
    pub fn gaps(&self, si: usize) -> (r: Vec<(u8, i64, i64)>)
        requires
            self.sound(),
            si < self.sessions@.len(),
        ensures
            exists|a: Seq<(i64, i64)>, b: Seq<(i64, i64)>| #[trigger]
                lists_gaps(a, self@.sessions[si as int].dirs[0]) && #[trigger] lists_gaps(
                    b,
                    self@.sessions[si as int].dirs[1],
                ) && r@ == labelled(0, a) + labelled(1, b),
    {
        let s = &self.sessions[si];
        assert(self@.sessions[si as int] == s@);
        assert(s@.dirs[0] == s.dirs@[0]@);
        assert(s@.dirs[1] == s.dirs@[1]@);
        let a = dir_gaps(&s.dirs[0]);
        let b = dir_gaps(&s.dirs[1]);
        let mut out: Vec<(u8, i64, i64)> = Vec::new();
        label(&mut out, 0, &a);
        label(&mut out, 1, &b);
        assert(out@ =~= labelled(0, a@) + labelled(1, b@));
        out
    }
}

/// `r` lists the maximal missing ranges of a direction below its last byte.
pub open spec fn lists_gaps(r: Seq<(i64, i64)>, dm: DirModel) -> bool {
    exists|hi: int| #[trigger]
        is_extent(dm.cells.dom(), hi) && lists_holes(r, dm.cells.dom(), 0, hi)
}

/// `hi` is one past the last held offset, or 0 where none is held.
pub open spec fn is_extent(dom: Set<i64>, hi: int) -> bool {
    &&& 0 <= hi
    &&& hi > 0 ==> holds(dom, hi - 1)
    &&& forall|k: i64| #[trigger] dom.contains(k) ==> k < hi
}

/// The ranges with their direction.
pub open spec fn labelled(dir: u8, r: Seq<(i64, i64)>) -> Seq<(u8, i64, i64)> {
    r.map_values(|p: (i64, i64)| (dir, p.0, p.1))
}

fn label(out: &mut Vec<(u8, i64, i64)>, dir: u8, r: &Vec<(i64, i64)>)
    ensures
        final(out)@ == old(out)@ + labelled(dir, r@),
{
    let ghost o = out@;
    let mut i: usize = 0;
    assert(o + labelled(dir, r@.take(0)) =~= o);
    while i < r.len()
        invariant
            i <= r@.len(),
            out@ == o + labelled(dir, r@.take(i as int)),
        decreases r@.len() - i,
    {
        out.push((dir, r[i].0, r[i].1));
        i += 1;
        assert(out@ =~= o + labelled(dir, r@.take(i as int)));
    }
    assert(r@.take(i as int) =~= r@);
}

fn dir_gaps(st: &DirState) -> (r: Vec<(i64, i64)>)
    requires
        st.sound(),
    ensures
        lists_gaps(r@, st@),
{
    let keys = offsets_of(&st.pending);
    let ghost dom = st@.cells.dom();
    let n: usize = keys.len();
    if n == 0 {
        let r: Vec<(i64, i64)> = Vec::new();
        proof {
            let hi = st.frontier as int;
            assert forall|k: i64| #[trigger] dom.contains(k) implies k < hi by {
                if st.pending@.contains_key(k) {
                    assert(keys@.contains(k));
                }
            }
            if hi > 0 {
                assert(st@.cells.contains_key((hi - 1) as i64));
            }
            assert(is_extent(dom, hi));
            assert forall|a: i64, b: i64| #[trigger]
                r@.contains((a, b)) <==> is_hole(dom, 0, hi, a as int, b as int) by {
                if is_hole(dom, 0, hi, a as int, b as int) {
                    assert(!holds(dom, a as int));
                    assert(st@.cells.contains_key(a));
                }
            }
            assert(lists_holes(r@, dom, 0, hi));
        }
        return r;
    }
    let last: i64 = keys[n - 1];
    assert(keys@.contains(last));
    let hi: i64 = last + 1;
    let r = holes(&st.pending, st.frontier, hi);
    proof {
        let f = st.frontier as int;
        assert forall|k: i64| #[trigger] dom.contains(k) implies k < hi by {
            if st.pending@.contains_key(k) {
                assert(keys@.contains(k));
                let j = choose|j: int| 0 <= j < n && keys@[j] == k;
                assert(keys@[j] <= keys@[n - 1]);
            }
        }
        assert(holds(dom, hi - 1));
        assert(is_extent(dom, hi as int));
        assert forall|x: int| f <= x implies holds(dom, x) == #[trigger] holds(
            st.pending@.dom(),
            x,
        ) by {}
        assert forall|x: int| 0 <= x < f implies #[trigger] holds(dom, x) by {
            assert(st@.cells.contains_key(x as i64));
        }
        assert(!holds(dom, f));
        assert forall|a: i64, b: i64| #[trigger]
            r@.contains((a, b)) <==> is_hole(dom, 0, hi as int, a as int, b as int) by {
            lemma_same_holes(dom, st.pending@.dom(), f, hi as int, a as int, b as int);
        }
        assert(lists_holes(r@, dom, 0, hi as int));
    }
    r
}

/// Below the frontier nothing is missing, so the holes from 0 on are those from
/// the frontier on.
proof fn lemma_same_holes(dom: Set<i64>, pending: Set<i64>, f: int, hi: int, a: int, b: int)
    requires
        0 <= f,
        forall|x: int| f <= x ==> holds(dom, x) == #[trigger] holds(pending, x),
        forall|x: int| x < f ==> !#[trigger] holds(pending, x),
        forall|x: int| 0 <= x < f ==> #[trigger] holds(dom, x),
        !holds(dom, f),
    ensures
        is_hole(dom, 0, hi, a, b) <==> is_hole(pending, f, hi, a, b),
{
    if is_hole(dom, 0, hi, a, b) {
        assert(!holds(dom, a));
        assert(a >= f);
        assert(holds(pending, b) == holds(dom, b));
        if a > f {
            assert(holds(pending, a - 1) == holds(dom, a - 1));
        }
        assert forall|x: int| a <= x < b implies !#[trigger] holds(pending, x) by {
            assert(!holds(dom, x));
        }
    }
    if is_hole(pending, f, hi, a, b) {
        assert(holds(pending, b) == holds(dom, b));
        if a > f {
            assert(holds(pending, a - 1) == holds(dom, a - 1));
        } else if a > 0 {
            assert(holds(dom, a - 1));
        }
        assert forall|x: int| a <= x < b implies !#[trigger] holds(dom, x) by {
            assert(!holds(pending, x));
        }
    }
}

proof fn lemma_wf_update(e: EngineModel, i: int, f: EngineModel)
    requires
        e.wf(),
        0 <= i < e.sessions.len(),
        f.canons == e.canons,
        f.sessions == e.sessions.update(i, f.sessions[i]),
        f.sessions[i].wf(),
    ensures
        f.wf(),
{
    assert forall|j: int| 0 <= j < f.sessions.len() implies (#[trigger] f.sessions[j]).wf() by {
        if j != i {
            assert(f.sessions[j] == e.sessions[j]);
        }
    }
}

impl Session {
    fn close(&mut self, state: String, reason: String)
        ensures
            final(self)@ == (SessionModel { state: state@, close_reason: reason@, ..old(self)@ }),
            old(self).sound() ==> final(self).sound(),
    {
        self.state = state;
        self.close_reason = reason;
    }

    fn end(&mut self, state: String, reason: String, frame: usize, ts: i128)
        ensures
            final(self)@ == (SessionModel {
                state: state@,
                close_reason: reason@,
                end_frame: frame,
                last_ts: ts as int,
                ..old(self)@
            }),
            old(self).sound() ==> final(self).sound(),
    {
        self.state = state;
        self.close_reason = reason;
        self.end_frame = frame;
        self.last_ts = ts;
    }
}

/// Both directions of a connection have one key.
pub proof fn law_key_is_symmetric(d: DatagramModel, r: DatagramModel)
    requires
        r.src == d.dst,
        r.dst == d.src,
        r.sport == d.dport,
        r.dport == d.sport,
    ensures
        canon_of(r) == canon_of(d),
{
    crate::text::law_text_order_total(
        endpoint_text(d.src, d.sport),
        endpoint_text(d.dst, d.dport),
    );
}

/// At most the newest session of a connection is open.
pub open spec fn one_open(e: EngineModel) -> bool {
    forall|i: int, j: int|
        0 <= i < j < e.sessions.len() && #[trigger] e.canons[i] == #[trigger] e.canons[j]
            ==> !e.sessions[i].is_open()
}

pub(crate) proof fn lemma_last_place(canons: Seq<Seq<char>>, c: Seq<char>, n: int)
    requires
        0 <= n <= canons.len(),
    ensures
        match last_place(canons, c, n) {
            Some(l) => 0 <= l < n && canons[l] == c && forall|k: int|
                l < k < n ==> #[trigger] canons[k] != c,
            None => forall|k: int| 0 <= k < n ==> #[trigger] canons[k] != c,
        },
    decreases n,
{
    if n > 0 {
        lemma_last_place(canons, c, n - 1);
    }
}

pub(crate) proof fn lemma_target(e: EngineModel, d: DatagramModel, n: int)
    requires
        0 <= n <= e.sessions.len(),
    ensures
        match e.target(d, n) {
            Some(i) => 0 <= i < n && e.fits(i, d),
            None => forall|k: int| 0 <= k < n ==> !#[trigger] e.fits(k, d),
        },
    decreases n,
{
    if n > 0 {
        lemma_target(e, d, n - 1);
    }
}

pub(crate) proof fn lemma_closed_words()
    ensures
        "timed-out"@ != "open"@,
        "superseded"@ != "open"@,
        "rst-closed"@ != "open"@,
        "fin-closed"@ != "open"@,
        "partial"@ != "open"@,
        "missing"@ != "seen"@,
        "partial"@ != "seen"@,
{
    reveal_strlit("open");
    reveal_strlit("timed-out");
    reveal_strlit("superseded");
    reveal_strlit("rst-closed");
    reveal_strlit("fin-closed");
    reveal_strlit("partial");
    reveal_strlit("missing");
    reveal_strlit("seen");
    assert("timed-out"@.len() != "open"@.len());
    assert("superseded"@.len() != "open"@.len());
    assert("rst-closed"@.len() != "open"@.len());
    assert("fin-closed"@.len() != "open"@.len());
    assert("partial"@.len() != "open"@.len());
    assert("missing"@.len() != "seen"@.len());
    assert("partial"@.len() != "seen"@.len());
}

/// Where at most the newest session of each connection is open, a datagram keeps
/// it so.
pub proof fn law_one_open(e: EngineModel, d: DatagramModel)
    requires
        e.wf(),
        one_open(e),
    ensures
        one_open(e.ingested(d)),
{
    lemma_closed_words();
    let c = canon_of(d);
    let t = e.timed(d);
    lemma_last_place(e.canons, c, e.canons.len() as int);
    assert forall|i: int| 0 <= i < t.sessions.len() implies (t.sessions[i].is_open()
        ==> #[trigger] e.sessions[i].is_open()) by {}
    assert(one_open(t));
    lemma_target(t, d, t.sessions.len() as int);
    let (f, k) = if t.opens(d) {
        (t.opened(d), t.sessions.len() as int)
    } else {
        (t, t.target(d, t.sessions.len() as int)->0)
    };
    if t.opens(d) {
        assert(t.canons == e.canons);
        assert forall|i: int, j: int|
            0 <= i < j < f.sessions.len() && #[trigger] f.canons[i] == #[trigger] f.canons[j]
                implies !f.sessions[i].is_open() by {
            if j < t.sessions.len() {
                assert(t.canons[i] == t.canons[j]);
            } else {
                let l = t.newest(c);
                assert(t.canons[i] == c);
                assert(l is Some);
                assert(i <= l->0);
                if i < l->0 {
                    assert(t.canons[i] == t.canons[l->0]);
                }
            }
        }
    }
    assert(one_open(f));
    let g = f.put(k, d);
    assert forall|i: int| 0 <= i < g.sessions.len() implies (g.sessions[i].is_open()
        ==> #[trigger] f.sessions[i].is_open()) by {}
    assert(g.canons == f.canons);
}

/// A datagram changes no session of another connection.
pub proof fn law_other_connections_untouched(e: EngineModel, d: DatagramModel, i: int)
    requires
        e.wf(),
        0 <= i < e.sessions.len(),
        e.canons[i] != canon_of(d),
    ensures
        e.ingested(d).canons[i] == e.canons[i],
        e.ingested(d).sessions[i] == e.sessions[i],
{
    let c = canon_of(d);
    lemma_last_place(e.canons, c, e.canons.len() as int);
    let t = e.timed(d);
    lemma_last_place(t.canons, c, t.canons.len() as int);
    lemma_target(t, d, t.sessions.len() as int);
}

/// A session that is no longer open stays as it is.
pub proof fn law_closed_sessions_stay(e: EngineModel, d: DatagramModel, i: int)
    requires
        e.wf(),
        0 <= i < e.sessions.len(),
        !e.sessions[i].is_open(),
    ensures
        e.ingested(d).sessions[i] == e.sessions[i],
        e.ingested(d).canons[i] == e.canons[i],
{
    let c = canon_of(d);
    lemma_closed_words();
    lemma_last_place(e.canons, c, e.canons.len() as int);
    let t = e.timed(d);
    lemma_last_place(t.canons, c, t.canons.len() as int);
    lemma_target(t, d, t.sessions.len() as int);
}

/// A datagram takes no session away and adds at most one.
pub proof fn law_at_most_one_session_more(e: EngineModel, d: DatagramModel)
    requires
        e.wf(),
    ensures
        e.sessions.len() <= e.ingested(d).sessions.len() <= e.sessions.len() + 1,
{
    let c = canon_of(d);
    lemma_last_place(e.canons, c, e.canons.len() as int);
    let t = e.timed(d);
    lemma_last_place(t.canons, c, t.canons.len() as int);
    lemma_target(t, d, t.sessions.len() as int);
}

/// The key of two endpoints.
pub open spec fn pair_key(a: Seq<char>, b: Seq<char>) -> Seq<char> {
    if text_le(a, b) {
        a + "|"@ + b
    } else {
        b + "|"@ + a
    }
}

impl SessionModel {
    /// The client's endpoint.
    pub open spec fn client(self) -> Seq<char> {
        endpoint_text(self.c_ip, self.c_port)
    }

    /// The server's endpoint.
    pub open spec fn server(self) -> Seq<char> {
        endpoint_text(self.s_ip, self.s_port)
    }
}

/// Every session is filed under the key of its own endpoints.
pub open spec fn keyed(e: EngineModel) -> bool {
    forall|i: int|
        0 <= i < e.sessions.len() ==> #[trigger] e.canons[i] == pair_key(
            e.sessions[i].client(),
            e.sessions[i].server(),
        )
}

/// Sessions stay filed under the keys of their endpoints, whatever is taken in and at
/// the end of a capture.
pub proof fn law_sessions_stay_keyed(e: EngineModel, d: DatagramModel)
    requires
        e.wf(),
        keyed(e),
    ensures
        keyed(e.ingested(d)),
        keyed(e.finalized()),
{
    let c = canon_of(d);
    lemma_last_place(e.canons, c, e.canons.len() as int);
    let t = e.timed(d);
    lemma_last_place(t.canons, c, t.canons.len() as int);
    lemma_target(t, d, t.sessions.len() as int);
    let f = e.ingested(d);
    assert forall|i: int| 0 <= i < f.sessions.len() implies #[trigger] f.canons[i] == pair_key(
        f.sessions[i].client(),
        f.sessions[i].server(),
    ) by {
        if i < e.sessions.len() {
            assert(f.canons[i] == e.canons[i]);
            assert(t.sessions[i].client() == e.sessions[i].client());
            assert(f.sessions[i].client() == e.sessions[i].client());
            assert(f.sessions[i].server() == e.sessions[i].server());
        }
    }
    let g = e.finalized();
    assert forall|i: int| 0 <= i < g.sessions.len() implies #[trigger] g.canons[i] == pair_key(
        g.sessions[i].client(),
        g.sessions[i].server(),
    ) by {
        assert(g.canons[i] == e.canons[i]);
    }
}

/// A text without a bar.
pub open spec fn barless(t: Seq<char>) -> bool {
    forall|i: int| 0 <= i < t.len() ==> #[trigger] t[i] != '|'
}

proof fn lemma_digits_barless(n: nat)
    ensures
        barless(dec(n)),
    decreases n,
{
    if n >= 10 {
        lemma_digits_barless(n / 10);
    }
}

proof fn lemma_endpoint_barless(ip: Seq<char>, port: u16)
    requires
        barless(ip),
    ensures
        barless(endpoint_text(ip, port)),
{
    reveal_strlit(":");
    lemma_digits_barless(port as nat);
    let t = endpoint_text(ip, port);
    let d = dec(port as nat);
    assert forall|i: int| 0 <= i < t.len() implies #[trigger] t[i] != '|' by {
        if i < ip.len() {
            assert(t[i] == ip[i]);
        } else if i > ip.len() {
            assert(t[i] == d[i - ip.len() - 1]);
        }
    }
}

proof fn lemma_bar_splits(x: Seq<char>, y: Seq<char>, u: Seq<char>, v: Seq<char>)
    requires
        barless(x),
        barless(u),
        x + "|"@ + y == u + "|"@ + v,
    ensures
        x == u,
        y == v,
{
    reveal_strlit("|");
    let s = x + "|"@ + y;
    let t = u + "|"@ + v;
    assert(s[x.len() as int] == '|');
    assert(t[u.len() as int] == '|');
    if x.len() < u.len() {
        assert(t[x.len() as int] == u[x.len() as int]);
    }
    if u.len() < x.len() {
        assert(s[u.len() as int] == x[u.len() as int]);
    }
    assert forall|i: int| 0 <= i < x.len() implies x[i] == u[i] by {
        assert(s[i] == x[i]);
        assert(t[i] == u[i]);
    }
    assert(x =~= u);
    assert(s.len() == x.len() + 1 + y.len());
    assert(t.len() == u.len() + 1 + v.len());
    assert(y.len() == v.len());
    assert forall|i: int| 0 <= i < y.len() implies y[i] == v[i] by {
        assert(s[x.len() + 1 + i] == y[i]);
        assert(t[x.len() + 1 + i] == v[i]);
    }
    assert(y =~= v);
}

/// A datagram changes no session that is closed or lies between other endpoints, where
/// no address holds a bar.
pub proof fn law_only_the_open_session_changes(e: EngineModel, d: DatagramModel, i: int)
    requires
        e.wf(),
        keyed(e),
        0 <= i < e.sessions.len(),
        barless(d.src),
        barless(d.dst),
        barless(e.sessions[i].c_ip),
        barless(e.sessions[i].s_ip),
        ({
            let s = e.sessions[i];
            let a = endpoint_text(d.src, d.sport);
            let b = endpoint_text(d.dst, d.dport);
            !s.is_open() || !((s.client() == a && s.server() == b) || (s.client() == b
                && s.server() == a))
        }),
    ensures
        e.ingested(d).sessions[i] == e.sessions[i],
{
    let s = e.sessions[i];
    let a = endpoint_text(d.src, d.sport);
    let b = endpoint_text(d.dst, d.dport);
    if !s.is_open() {
        law_closed_sessions_stay(e, d, i);
    } else {
        lemma_endpoint_barless(d.src, d.sport);
        lemma_endpoint_barless(d.dst, d.dport);
        lemma_endpoint_barless(s.c_ip, s.c_port);
        lemma_endpoint_barless(s.s_ip, s.s_port);
        if e.canons[i] == canon_of(d) {
            let (x, y) = if text_le(a, b) {
                (a, b)
            } else {
                (b, a)
            };
            let (u, v) = if text_le(s.client(), s.server()) {
                (s.client(), s.server())
            } else {
                (s.server(), s.client())
            };
            lemma_bar_splits(u, v, x, y);
        }
        law_other_connections_untouched(e, d, i);
    }
}

/// Evidence is never lost: whichever policy holds, no record of a segment changes or
/// goes away, and the bytes that a datagram carries are recorded with their frame.
pub proof fn law_evidence_is_kept(e: EngineModel, d: DatagramModel)
    requires
        e.wf(),
        !d.rst(),
    ensures
        forall|i: int|
            0 <= i < e.sessions.len() ==> (#[trigger] e.sessions[i]).segments.is_prefix_of(
                e.ingested(d).sessions[i].segments,
            ),
        exists|k: int|
            0 <= k < e.ingested(d).sessions.len() && {
                let r = (#[trigger] e.ingested(d).sessions[k]).segments;
                r.len() > 0 && r.last().data == d.payload && r.last().frame_idx == d.frame_idx
            },
{
    let c = canon_of(d);
    lemma_last_place(e.canons, c, e.canons.len() as int);
    let t = e.timed(d);
    lemma_last_place(t.canons, c, t.canons.len() as int);
    lemma_target(t, d, t.sessions.len() as int);
    let f = e.ingested(d);
    assert forall|i: int| 0 <= i < e.sessions.len() implies (
    #[trigger] e.sessions[i]).segments.is_prefix_of(f.sessions[i].segments) by {
        assert(t.sessions[i].segments == e.sessions[i].segments);
    }
    let k = if t.opens(d) {
        t.sessions.len() as int
    } else {
        t.target(d, t.sessions.len() as int)->0
    };
    let r = f.sessions[k].segments;
    if d.payload.len() == 0 {
        assert(d.payload =~= seq![]);
    }
    assert(r.last().data == d.payload);
}

/// A session that a datagram belongs to, of which it repeats the opening SYN,
/// goes on: no generation is opened.
pub proof fn law_syn_retransmission(e: EngineModel, d: DatagramModel, i: int)
    requires
        e.wf(),
        e.timed(d) == e,
        e.target(d, e.sessions.len() as int) == Some(i),
        e.sessions[i].forward(d),
        e.sessions[i].dirs[0].base == Some(d.seq),
    ensures
        e.ingested(d).sessions.len() == e.sessions.len(),
        e.ingested(d).canons == e.canons,
{
    lemma_target(e, d, e.sessions.len() as int);
}

/// A SYN from the client with another number supersedes the open session and
/// opens the next generation.
pub proof fn law_reuse_supersedes(e: EngineModel, d: DatagramModel, i: int)
    requires
        e.wf(),
        e.timed(d) == e,
        e.target(d, e.sessions.len() as int) == Some(i),
        e.newest(canon_of(d)) == Some(i),
        d.syn(),
        !d.rst(),
        e.sessions[i].forward(d),
        e.sessions[i].new_syn(d),
    ensures
        e.ingested(d).sessions.len() == e.sessions.len() + 1,
        e.ingested(d).sessions[i].state == "superseded"@,
        e.ingested(d).sessions[i].segments == e.sessions[i].segments,
        e.ingested(d).sessions.last().handshake == "seen"@,
        e.ingested(d).sessions.last().gen == places(
            e.canons,
            canon_of(d),
            e.canons.len() as int,
        ) + 1,
{
    lemma_target(e, d, e.sessions.len() as int);
}

/// A datagram after an idle time longer than the timeout ends the session and
/// opens the next generation, with or without FIN or RST.
pub proof fn law_timeout_splits(e: EngineModel, d: DatagramModel, i: int)
    requires
        e.wf(),
        one_open(e),
        e.newest(canon_of(d)) == Some(i),
        e.sessions[i].is_open(),
        d.ts_us - e.sessions[i].last_ts > e.timeout_us,
    ensures
        e.ingested(d).sessions.len() == e.sessions.len() + 1,
        e.ingested(d).sessions[i].state == "timed-out"@,
        e.ingested(d).sessions[i].segments == e.sessions[i].segments,
{
    lemma_closed_words();
    let c = canon_of(d);
    lemma_last_place(e.canons, c, e.canons.len() as int);
    let t = e.timed(d);
    lemma_target(t, d, t.sessions.len() as int);
    let g = t.target(d, t.sessions.len() as int);
    if g is Some {
        let k = g->0;
        assert(t.fits(k, d));
        assert(e.canons[k] == e.canons[i]);
        assert(k != i);
        if k < i {
            assert(!e.sessions[k].is_open());
        } else {
            assert(e.canons[k] != c);
        }
        assert(false);
    }
    assert(t.newest(c) == e.newest(c));
}

/// A RST closes the session that it belongs to, whichever side has ended.
pub proof fn law_rst_closes(s: SessionModel, d: DatagramModel, policy: OverlapPolicy)
    requires
        s.wf(),
        s.is_open(),
        d.rst(),
    ensures
        s.placed(s.direction(d), d, policy).settled().state == "rst-closed"@,
        s.placed(s.direction(d), d, policy).settled().dirs[s.direction(d)].rst,
{
}

/// A session closes once both directions have ended, and not before, as long as
/// there is no RST.
pub proof fn law_fin_closes(s: SessionModel)
    requires
        s.is_open(),
        !s.dirs[0].rst,
        !s.dirs[1].rst,
    ensures
        s.dirs[0].fin && s.dirs[1].fin ==> s.settled().state == "fin-closed"@,
        !(s.dirs[0].fin && s.dirs[1].fin) ==> s.settled() == s,
{
}

/// No handshake is made up: a session opened without a SYN never counts its
/// handshake as seen.
pub proof fn law_no_handshake_made_up(
    s: SessionModel,
    dir: int,
    d: DatagramModel,
    policy: OverlapPolicy,
)
    requires
        s.handshake != "seen"@,
    ensures
        s.placed(dir, d, policy).settled().handshake == s.handshake,
        s.placed(dir, d, policy).settled().mid_capture == s.mid_capture,
{
}

/// A session that opens without a SYN is marked as caught mid-way.
pub proof fn law_mid_capture(e: EngineModel, d: DatagramModel)
    requires
        e.wf(),
        e.timed(d).opens(d),
        !d.syn(),
    ensures
        e.ingested(d).sessions.last().mid_capture,
        e.ingested(d).sessions.last().handshake == "missing"@,
{
    lemma_closed_words();
}

/// Under the first-seen policy a held byte keeps its value and its frame.
pub proof fn law_first_seen_keeps(dm: DirModel, d: DatagramModel, k: i64)
    requires
        dm.cells.contains_key(k),
    ensures
        dm.after(d, OverlapPolicy::FirstSeen).cells.contains_key(k),
        dm.after(d, OverlapPolicy::FirstSeen).cells[k] == dm.cells[k],
{
    reveal(laid);
}

/// Under the last-seen policy a datagram's bytes are held afterwards.
pub proof fn law_last_seen_adopts(dm: DirModel, d: DatagramModel, k: i64)
    requires
        !d.rst(),
        0 <= k,
        dm.anchored(d).data_off(d) <= k < dm.anchored(d).data_end(d),
    ensures
        dm.after(d, OverlapPolicy::LastSeen).cells.contains_key(k),
        dm.after(d, OverlapPolicy::LastSeen).cells[k].0 == d.payload[k - dm.anchored(d).data_off(
            d,
        )],
{
    reveal(laid);
}

/// Both policies hold the same offsets and deliver the same number of bytes.
pub proof fn law_policies_cover_alike(dm: DirModel, d: DatagramModel)
    ensures
        dm.after(d, OverlapPolicy::FirstSeen).cells.dom() == dm.after(
            d,
            OverlapPolicy::LastSeen,
        ).cells.dom(),
        dm.after(d, OverlapPolicy::FirstSeen).frontier() == dm.after(
            d,
            OverlapPolicy::LastSeen,
        ).frontier(),
{
    reveal(laid);
    assert(dm.after(d, OverlapPolicy::FirstSeen).cells.dom() =~= dm.after(
        d,
        OverlapPolicy::LastSeen,
    ).cells.dom());
}

/// No byte is made up: what is held was held before or came with the datagram.
pub proof fn law_no_byte_made_up(dm: DirModel, d: DatagramModel, policy: OverlapPolicy, k: i64)
    requires
        dm.after(d, policy).cells.contains_key(k),
    ensures
        ({
            let c = dm.after(d, policy).cells[k];
            let off = dm.anchored(d).data_off(d);
            ||| dm.cells.contains_key(k) && c == dm.cells[k]
            ||| off <= k < off + d.payload.len() && c == (d.payload[k - off], d.frame_idx)
        }),
{
    reveal(laid);
}

/// What stands without a gap stays so.
pub proof fn law_delivered_grows(dm: DirModel, d: DatagramModel, policy: OverlapPolicy)
    requires
        exists|f: int| #[trigger] is_frontier(dm.cells.dom(), f),
        exists|f: int| #[trigger] is_frontier(dm.after(d, policy).cells.dom(), f),
    ensures
        dm.after(d, policy).frontier() >= dm.frontier(),
{
    reveal(laid);
    let after = dm.after(d, policy);
    let f = choose|f: int| #[trigger] is_frontier(dm.cells.dom(), f);
    let g = choose|g: int| #[trigger] is_frontier(after.cells.dom(), g);
    lemma_frontier(dm.cells.dom(), f);
    lemma_frontier(after.cells.dom(), g);
    if g < f {
        assert(holds(dm.cells.dom(), g));
        assert(holds(after.cells.dom(), g));
    }
}

proof fn lemma_none_differ(cells: Map<i64, (u8, usize)>, off: int, data: Seq<u8>, n: int, x: int)
    requires
        differing(cells, off, data, n) == 0,
        0 <= x,
        off <= x < off + n,
        holds(cells.dom(), x),
    ensures
        cells[x as i64].0 == data[x - off],
    decreases n,
{
    if x < off + n - 1 {
        lemma_none_differ(cells, off, data, n - 1, x);
    }
}

/// A datagram whose bytes are all held as they are changes no byte.
pub proof fn law_retransmission(dm: DirModel, d: DatagramModel, policy: OverlapPolicy)
    requires
        dm.base is Some,
        !d.rst(),
        d.payload.len() > 0,
        dm.data_off(d) >= 0,
        differing(dm.cells, dm.data_off(d), d.payload, d.payload.len() as int) == 0,
        forall|x: int|
            dm.data_off(d) <= x < dm.data_end(d) ==> #[trigger] holds(dm.cells.dom(), x),
    ensures
        dm.after(d, policy).cells == dm.cells,
        dm.after(d, policy).retrans == dm.retrans + 1,
        dm.after(d, policy).overlap_events == dm.overlap_events,
{
    reveal(laid);
    reveal(meets_held);
    let off = dm.data_off(d);
    let st = dm.noted(d);
    assert(st.data_off(d) == off);
    let n = d.payload.len() as int;
    assert(holds(dm.cells.dom(), off));
    assert(meets_held(dm.cells, off, n));
    let after = dm.after(d, policy);
    assert forall|k: i64| #[trigger]
        after.cells.contains_key(k) == dm.cells.contains_key(k) && (dm.cells.contains_key(k)
            ==> after.cells[k] == dm.cells[k]) by {
        if off <= k < off + n {
            assert(holds(dm.cells.dom(), k as int));
            lemma_none_differ(dm.cells, off, d.payload, n, k as int);
        }
    }
    assert(after.cells =~= dm.cells);
}

} // verus!
