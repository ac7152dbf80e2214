//! Connection generations of a four-tuple and the reassembly of both of their
//! directions, with evidence for every overlap.

use vstd::prelude::*;
use crate::bytes::copy_range;
use crate::hash::{sha256_hex, sha256_of};
use crate::packet::{
    distance, seq_offset, SegmentModel, TcpSegment, TCP_ACK, TCP_FIN, TCP_RST, TCP_SYN,
};
use crate::table::{Key, Table};
use crate::text::{dec, hex_of, hex_string, push_dec, push_text, same};
use crate::types::Ip;

verus! {

#[derive(Clone, Copy, PartialEq, Eq, Debug, Structural)]
pub enum OverlapPolicy {
    FirstSeen,
    LastSeen,
}

impl OverlapPolicy {
    /// The name of a policy.
    pub open spec fn name(self) -> Seq<char> {
        match self {
            OverlapPolicy::FirstSeen => "first_seen"@,
            OverlapPolicy::LastSeen => "last_seen"@,
        }
    }

    pub fn as_str(&self) -> (r: &'static str)
        ensures
            r@ == self.name(),
    {
        match self {
            OverlapPolicy::FirstSeen => "first_seen",
            OverlapPolicy::LastSeen => "last_seen",
        }
    }

    /// The policy that a name stands for.
    pub open spec fn named(s: Seq<char>) -> Option<OverlapPolicy> {
        if s == "first_seen"@ || s == "first-seen"@ || s == "first"@ {
            Some(OverlapPolicy::FirstSeen)
        } else if s == "last_seen"@ || s == "last-seen"@ || s == "last"@ {
            Some(OverlapPolicy::LastSeen)
        } else {
            None
        }
    }

    pub fn parse(s: &str) -> (r: Option<Self>)
        ensures
            r == Self::named(s@),
    {
        if same(s, "first_seen") || same(s, "first-seen") || same(s, "first") {
            Some(OverlapPolicy::FirstSeen)
        } else if same(s, "last_seen") || same(s, "last-seen") || same(s, "last") {
            Some(OverlapPolicy::LastSeen)
        } else {
            None
        }
    }
}

#[derive(Clone, Copy, Debug)]
pub struct SessionConfig {
    /// Idle time after which an open generation is considered ended.
    pub timeout_ns: u64,
    pub overlap: OverlapPolicy,
}

impl Default for SessionConfig {
    fn default() -> (r: Self)
        ensures
            r.timeout_ns == 120_000_000_000,
            r.overlap == OverlapPolicy::FirstSeen,
    {
        SessionConfig { timeout_ns: 120_000_000_000, overlap: OverlapPolicy::FirstSeen }
    }
}

#[derive(Clone, Copy, PartialEq, Eq, PartialOrd, Ord, Debug)]
pub struct Endpoint {
    pub ip: Ip,
    pub port: u16,
}

impl Endpoint {
    /// The text of an endpoint.
    pub open spec fn text(self) -> Seq<char> {
        self.ip.mixed_text().push(':') + dec(self.port as nat)
    }

    /// The place of an endpoint in the order: by address, then by port.
    pub open spec fn rank(self) -> int {
        self.ip.rank() * 0x1_0000 + self.port
    }

    pub fn label(&self) -> (s: String)
        ensures
            s@ == self.text(),
    {
        let mut s = self.ip.to_mixed_text();
        s.push(':');
        push_dec(&mut s, self.port as u64);
        s
    }

    fn same(&self, other: &Endpoint) -> (r: bool)
        ensures
            r == (*self == *other),
    {
        self.port == other.port && self.ip.same(&other.ip)
    }

    fn precedes(&self, other: &Endpoint) -> (r: bool)
        ensures
            r == (self.rank() < other.rank()),
    {
        if self.ip.precedes(&other.ip) {
            true
        } else if other.ip.precedes(&self.ip) {
            false
        } else {
            self.port < other.port
        }
    }
}

proof fn lemma_endpoint_rank(a: Endpoint, b: Endpoint)
    requires
        a.rank() == b.rank(),
    ensures
        a == b,
{
    assert(a.ip.rank() == b.ip.rank());
    crate::types::law_rank_injective(a.ip, b.ip);
}

#[derive(Clone, Copy, PartialEq, Eq, PartialOrd, Ord, Debug)]
pub struct TupleKey {
    pub a: Endpoint,
    pub b: Endpoint,
}

/// The two endpoints of a packet in order, and the direction of the packet:
/// 0 from the lesser endpoint to the greater one.
pub open spec fn normalized(src: Endpoint, dst: Endpoint) -> (TupleKey, int) {
    if src.rank() <= dst.rank() {
        (TupleKey { a: src, b: dst }, 0)
    } else {
        (TupleKey { a: dst, b: src }, 1)
    }
}

/// `x` comes before `y` in the order of keys.
pub open spec fn key_before(x: TupleKey, y: TupleKey) -> bool {
    x.a.rank() < y.a.rank() || (x.a.rank() == y.a.rank() && x.b.rank() < y.b.rank())
}

impl TupleKey {
    /// Direction 0 means traffic from `a` to `b`.
    fn new(src: Endpoint, dst: Endpoint) -> (r: (TupleKey, usize))
        ensures
            (r.0, r.1 as int) == normalized(src, dst),
            r.1 < 2,
    {
        if dst.precedes(&src) {
            (TupleKey { a: dst, b: src }, 1)
        } else {
            (TupleKey { a: src, b: dst }, 0)
        }
    }

    fn precedes(&self, other: &TupleKey) -> (r: bool)
        ensures
            r == key_before(*self, *other),
    {
        if self.a.precedes(&other.a) {
            true
        } else if other.a.precedes(&self.a) {
            false
        } else {
            self.b.precedes(&other.b)
        }
    }
}

impl Key for TupleKey {
    fn same(&self, other: &Self) -> (r: bool) {
        self.a.same(&other.a) && self.b.same(&other.b)
    }
}

/// Both directions of a connection have one key.
pub proof fn law_key_is_symmetric(x: Endpoint, y: Endpoint)
    ensures
        normalized(x, y).0 == normalized(y, x).0,
        x != y ==> normalized(x, y).1 != normalized(y, x).1,
{
    if x.rank() == y.rank() {
        lemma_endpoint_rank(x, y);
    }
}

struct Seg {
    seq: u32,
    frame: u64,
    ts_ns: u64,
    payload: Vec<u8>,
}

/// A data segment of one direction.
pub struct SegModel {
    pub seq: u32,
    pub frame: u64,
    pub ts_ns: u64,
    pub payload: Seq<u8>,
}

impl View for Seg {
    type V = SegModel;

    closed spec fn view(&self) -> SegModel {
        SegModel { seq: self.seq, frame: self.frame, ts_ns: self.ts_ns, payload: self.payload@ }
    }
}

spec fn seg_models(v: Seq<Seg>) -> Seq<SegModel> {
    Seq::new(v.len(), |i: int| v[i]@)
}

#[derive(Clone, Copy, Debug, PartialEq, Eq, Structural)]
pub struct Interval {
    pub start_seq: u32,
    pub end_seq: u32,
    pub offset: i64,
    pub len: u64,
}

#[derive(Clone, Copy, Debug, PartialEq, Eq, Structural)]
pub struct SegInfo {
    pub seq: u32,
    pub end_seq: u32,
    pub offset: i64,
    pub len: u64,
    pub frame: u64,
    pub ts_ns: u64,
}

#[derive(Clone, Copy, Debug, PartialEq, Eq, Structural)]
pub struct FrameEv {
    pub seq: u32,
    pub len: u64,
    pub frame: u64,
}

#[derive(Clone, Debug)]
pub struct OverlapEv {
    pub offset: i64,
    pub start_seq: u32,
    pub len: u64,
    pub kept_frame: u64,
    pub dropped_frame: u64,
    pub policy: String,
    /// Bytes that lost the overlap resolution, kept as evidence.
    pub dropped_bytes_hex: String,
}

/// What an overlap event says.
pub struct OverlapModel {
    pub offset: i64,
    pub start_seq: u32,
    pub len: u64,
    pub kept_frame: u64,
    pub dropped_frame: u64,
    pub policy: OverlapPolicy,
    pub dropped: Seq<u8>,
}

impl OverlapEv {
    /// The event says what the model says.
    pub open spec fn says(self, m: OverlapModel) -> bool {
        &&& self.offset == m.offset
        &&& self.start_seq == m.start_seq
        &&& self.len == m.len
        &&& self.kept_frame == m.kept_frame
        &&& self.dropped_frame == m.dropped_frame
        &&& self.policy@ == m.policy.name()
        &&& self.dropped_bytes_hex@ == hex_of(m.dropped)
    }
}

#[derive(Clone, Debug)]
pub struct DirectionResult {
    pub isn: Option<u32>,
    pub anchor_seq: Option<u32>,
    pub byte_count: u64,
    pub payload_sha256: String,
    pub payload_file: String,
    pub intervals: Vec<Interval>,
    pub gaps: Vec<Interval>,
    pub retransmissions: Vec<FrameEv>,
    pub out_of_order: Vec<FrameEv>,
    pub overlaps: Vec<OverlapEv>,
    pub segments: Vec<SegInfo>,
}

/// A covered byte range with the frame that owns it.
pub type Cover = (i64, i64, u64);

/// Nonempty ranges in order, none meeting another.
pub open spec fn cov_wf(cov: Seq<Cover>) -> bool {
    &&& forall|i: int| 0 <= i < cov.len() ==> (#[trigger] cov[i]).0 < cov[i].1
    &&& forall|i: int, j: int|
        0 <= i < j < cov.len() ==> (#[trigger] cov[i]).1 <= (#[trigger] cov[j]).0
}

/// Some range covers `x`.
pub open spec fn covered(cov: Seq<Cover>, x: int) -> bool {
    exists|i: int| 0 <= i < cov.len() && (#[trigger] cov[i]).0 <= x < cov[i].1
}

/// The lesser of two numbers.
pub open spec fn lesser(a: int, b: int) -> int {
    if a < b {
        a
    } else {
        b
    }
}

/// The greater of two numbers.
pub open spec fn greater(a: int, b: int) -> int {
    if a > b {
        a
    } else {
        b
    }
}

/// How much of `off..end` the first `n` ranges cover.
pub open spec fn overlap_total(cov: Seq<Cover>, off: int, end: int, n: int) -> int
    decreases n,
{
    if n <= 0 {
        0
    } else {
        let s = greater(off, cov[n - 1].0 as int);
        let e = lesser(end, cov[n - 1].1 as int);
        overlap_total(cov, off, end, n - 1) + (if s < e {
            e - s
        } else {
            0
        })
    }
}

/// The parts of the first `n` ranges that lie below `off`.
pub open spec fn below(cov: Seq<Cover>, off: int, n: int) -> Seq<Cover>
    decreases n,
{
    if n <= 0 {
        seq![]
    } else {
        let c = cov[n - 1];
        let rest = below(cov, off, n - 1);
        if c.0 >= off {
            rest
        } else {
            rest.push((c.0, lesser(c.1 as int, off) as i64, c.2))
        }
    }
}

/// The parts of the first `n` ranges that lie at or above `end`.
pub open spec fn above(cov: Seq<Cover>, end: int, n: int) -> Seq<Cover>
    decreases n,
{
    if n <= 0 {
        seq![]
    } else {
        let c = cov[n - 1];
        let rest = above(cov, end, n - 1);
        if c.1 <= end {
            rest
        } else {
            rest.push((greater(c.0 as int, end) as i64, c.1, c.2))
        }
    }
}

/// `cur..end` cut at the ranges from `i` on: what was uncovered belongs to
/// `frame`, what was covered to its owner or, last seen, to `frame` as well.
pub open spec fn inside(
    cov: Seq<Cover>,
    i: int,
    cur: int,
    end: int,
    frame: u64,
    policy: OverlapPolicy,
) -> Seq<Cover>
    decreases cov.len() - i,
{
    if i >= cov.len() || cov[i].0 >= end || cur >= end {
        if cur < end {
            seq![(cur as i64, end as i64, frame)]
        } else {
            seq![]
        }
    } else if cov[i].1 <= cur {
        inside(cov, i + 1, cur, end, frame, policy)
    } else {
        let s = greater(cov[i].0 as int, cur);
        let e = lesser(cov[i].1 as int, end);
        let mine = match policy {
            OverlapPolicy::FirstSeen => cov[i].2,
            OverlapPolicy::LastSeen => frame,
        };
        (if cur < s {
            seq![(cur as i64, s as i64, frame)]
        } else {
            seq![]
        }) + seq![(s as i64, e as i64, mine)] + inside(cov, i + 1, e, end, frame, policy)
    }
}

/// The coverage after a frame carried `off..end`.
pub open spec fn recovered(cov: Seq<Cover>, off: int, end: int, frame: u64, policy: OverlapPolicy) -> Seq<
    Cover,
> {
    below(cov, off, cov.len() as int) + inside(cov, 0, off, end, frame, policy) + above(
        cov,
        end,
        cov.len() as int,
    )
}

/// The sequence number at an offset from the anchor.
pub open spec fn seq_at(anchor: u32, off: int) -> u32 {
    ((anchor + off) % 0x1_0000_0000) as u32
}

/// Offsets far inside 64 bits.
pub open spec fn near(off: int) -> bool {
    -0x100_0000_0000 <= off <= 0x100_0000_0000
}

fn seq_of(anchor: u32, off: i64) -> (r: u32)
    requires
        near(off as int),
    ensures
        r == seq_at(anchor, off as int),
{
    let v: u64 = (anchor as i64 + off + 0x1000_0000_0000) as u64 % 0x1_0000_0000;
    proof {
        let n = anchor + off;
        vstd::arithmetic::div_mod::lemma_mod_multiples_vanish(0x1000, n, 0x1_0000_0000);
        assert(0x1_0000_0000 * 0x1000 + n == n + 0x1000_0000_0000);
    }
    v as u32
}

/// The interval from `start` to `end`.
pub open spec fn interval_of(anchor: u32, start: int, end: int) -> Interval {
    Interval {
        start_seq: seq_at(anchor, start),
        end_seq: seq_at(anchor, end),
        offset: start as i64,
        len: (end - start) as u64,
    }
}

fn make_interval(anchor: u32, start: i64, end: i64) -> (r: Interval)
    requires
        near(start as int),
        near(end as int),
        start <= end,
    ensures
        r == interval_of(anchor, start as int, end as int),
{
    Interval {
        start_seq: seq_of(anchor, start),
        end_seq: seq_of(anchor, end),
        offset: start,
        len: (end - start) as u64,
    }
}

proof fn lemma_below(cov: Seq<Cover>, off: int, n: int)
    requires
        cov_wf(cov),
        0 <= n <= cov.len(),
        i64::MIN <= off <= i64::MAX,
    ensures
        cov_wf(below(cov, off, n)),
        forall|k: int|
            0 <= k < below(cov, off, n).len() ==> (#[trigger] below(cov, off, n)[k]).1 <= off && (n
                > 0 && below(cov, off, n)[k].1 <= cov[n - 1].1),
        forall|x: int| #[trigger]
            covered(below(cov, off, n), x) <==> covered(cov.take(n), x) && x < off,
    decreases n,
{
    let r = below(cov, off, n);
    if n > 0 {
        lemma_below(cov, off, n - 1);
        let rest = below(cov, off, n - 1);
        let c = cov[n - 1];
        assert forall|i: int, j: int| 0 <= i < j < r.len() implies (#[trigger] r[i]).1 <= (
        #[trigger] r[j]).0 by {
            if j == rest.len() {
                assert(rest[i].1 <= cov[n - 2].1);
                assert(cov[n - 2].1 <= cov[n - 1].0);
            } else {
                assert(rest[i].1 <= rest[j].0);
            }
        }
        assert forall|i: int| 0 <= i < r.len() implies (#[trigger] r[i]).0 < r[i].1 && r[i].1 <= off
            && r[i].1 <= cov[n - 1].1 by {
            if i < rest.len() {
                assert(rest[i].0 < rest[i].1 && rest[i].1 <= off);
                assert(rest[i].1 <= cov[n - 2].1);
                assert(cov[n - 2].1 <= cov[n - 1].0);
            }
        }
        assert forall|x: int| #[trigger]
            covered(r, x) <==> covered(cov.take(n), x) && x < off by {
            assert(covered(rest, x) <==> covered(cov.take(n - 1), x) && x < off);
            if covered(rest, x) {
                let i = choose|i: int| 0 <= i < rest.len() && (#[trigger] rest[i]).0 <= x < rest[i].1;
                assert(r[i] == rest[i]);
            }
            if covered(r, x) {
                let i = choose|i: int| 0 <= i < r.len() && (#[trigger] r[i]).0 <= x < r[i].1;
                if i < rest.len() {
                    assert(rest[i] == r[i]);
                } else {
                    assert(cov.take(n)[n - 1] == c);
                }
            }
            if covered(cov.take(n - 1), x) {
                let t = cov.take(n - 1);
                let i = choose|i: int| 0 <= i < t.len() && (#[trigger] t[i]).0 <= x < t[i].1;
                assert(cov.take(n)[i] == t[i]);
            }
            if covered(cov.take(n), x) && x < off {
                let t = cov.take(n);
                let i = choose|i: int| 0 <= i < t.len() && (#[trigger] t[i]).0 <= x < t[i].1;
                if i < n - 1 {
                    assert(cov.take(n - 1)[i] == t[i]);
                } else {
                    assert(r[rest.len() as int].0 <= x < r[rest.len() as int].1);
                }
            }
        }
    } else {
        assert forall|x: int| #[trigger]
            covered(r, x) <==> covered(cov.take(n), x) && x < off by {}
    }
}

proof fn lemma_above(cov: Seq<Cover>, end: int, n: int)
    requires
        cov_wf(cov),
        0 <= n <= cov.len(),
        i64::MIN <= end <= i64::MAX,
    ensures
        cov_wf(above(cov, end, n)),
        forall|k: int|
            0 <= k < above(cov, end, n).len() ==> (#[trigger] above(cov, end, n)[k]).0 >= end && (n
                > 0 && above(cov, end, n)[k].1 <= cov[n - 1].1),
        forall|x: int| #[trigger]
            covered(above(cov, end, n), x) <==> covered(cov.take(n), x) && x >= end,
    decreases n,
{
    let r = above(cov, end, n);
    if n > 0 {
        lemma_above(cov, end, n - 1);
        let rest = above(cov, end, n - 1);
        let c = cov[n - 1];
        assert forall|i: int| 0 <= i < r.len() implies (#[trigger] r[i]).0 < r[i].1 && r[i].0 >= end
            && r[i].1 <= cov[n - 1].1 by {
            if i < rest.len() {
                assert(rest[i].0 < rest[i].1 && rest[i].0 >= end);
                assert(rest[i].1 <= cov[n - 2].1);
                assert(cov[n - 2].1 <= cov[n - 1].0);
            }
        }
        assert forall|i: int, j: int| 0 <= i < j < r.len() implies (#[trigger] r[i]).1 <= (
        #[trigger] r[j]).0 by {
            if j == rest.len() {
                assert(rest[i].1 <= cov[n - 2].1);
                assert(cov[n - 2].1 <= cov[n - 1].0);
            } else {
                assert(rest[i].1 <= rest[j].0);
            }
        }
        assert forall|x: int| #[trigger]
            covered(r, x) <==> covered(cov.take(n), x) && x >= end by {
            assert(covered(rest, x) <==> covered(cov.take(n - 1), x) && x >= end);
            if covered(rest, x) {
                let i = choose|i: int| 0 <= i < rest.len() && (#[trigger] rest[i]).0 <= x < rest[i].1;
                assert(r[i] == rest[i]);
            }
            if covered(r, x) {
                let i = choose|i: int| 0 <= i < r.len() && (#[trigger] r[i]).0 <= x < r[i].1;
                if i < rest.len() {
                    assert(rest[i] == r[i]);
                } else {
                    assert(cov.take(n)[n - 1] == c);
                }
            }
            if covered(cov.take(n - 1), x) {
                let t = cov.take(n - 1);
                let i = choose|i: int| 0 <= i < t.len() && (#[trigger] t[i]).0 <= x < t[i].1;
                assert(cov.take(n)[i] == t[i]);
            }
            if covered(cov.take(n), x) && x >= end {
                let t = cov.take(n);
                let i = choose|i: int| 0 <= i < t.len() && (#[trigger] t[i]).0 <= x < t[i].1;
                if i < n - 1 {
                    assert(cov.take(n - 1)[i] == t[i]);
                } else {
                    assert(r[rest.len() as int].0 <= x < r[rest.len() as int].1);
                }
            }
        }
    } else {
        assert forall|x: int| #[trigger]
            covered(r, x) <==> covered(cov.take(n), x) && x >= end by {}
    }
}

/// Two lists of ranges, one below the other.
proof fn lemma_joined(a: Seq<Cover>, b: Seq<Cover>, m: int)
    requires
        cov_wf(a),
        cov_wf(b),
        forall|k: int| 0 <= k < a.len() ==> (#[trigger] a[k]).1 <= m,
        forall|k: int| 0 <= k < b.len() ==> (#[trigger] b[k]).0 >= m,
    ensures
        cov_wf(a + b),
        forall|x: int| #[trigger] covered(a + b, x) <==> covered(a, x) || covered(b, x),
{
    let r = a + b;
    assert forall|i: int, j: int| 0 <= i < j < r.len() implies (#[trigger] r[i]).1 <= (
    #[trigger] r[j]).0 by {
        if j < a.len() {
            assert(a[i].1 <= a[j].0);
        } else if i < a.len() {
            assert(a[i].1 <= m && b[j - a.len()].0 >= m);
        } else {
            assert(b[i - a.len()].1 <= b[j - a.len()].0);
        }
    }
    assert forall|i: int| 0 <= i < r.len() implies (#[trigger] r[i]).0 < r[i].1 by {
        if i < a.len() {
            assert(a[i].0 < a[i].1);
        } else {
            assert(b[i - a.len()].0 < b[i - a.len()].1);
        }
    }
    assert forall|x: int| #[trigger] covered(r, x) <==> covered(a, x) || covered(b, x) by {
        if covered(a, x) {
            let i = choose|i: int| 0 <= i < a.len() && (#[trigger] a[i]).0 <= x < a[i].1;
            assert(r[i] == a[i]);
        }
        if covered(b, x) {
            let i = choose|i: int| 0 <= i < b.len() && (#[trigger] b[i]).0 <= x < b[i].1;
            assert(r[i + a.len()] == b[i]);
        }
        if covered(r, x) {
            let i = choose|i: int| 0 <= i < r.len() && (#[trigger] r[i]).0 <= x < r[i].1;
            if i < a.len() {
                assert(a[i] == r[i]);
            } else {
                assert(b[i - a.len()] == r[i]);
            }
        }
    }
}

proof fn lemma_one(c: Cover)
    requires
        c.0 < c.1,
    ensures
        cov_wf(seq![c]),
        forall|x: int| #[trigger] covered(seq![c], x) <==> c.0 <= x < c.1,
{
    assert forall|x: int| #[trigger] covered(seq![c], x) <==> c.0 <= x < c.1 by {
        if c.0 <= x < c.1 {
            assert(seq![c][0] == c);
        }
    }
}

proof fn lemma_inside(
    cov: Seq<Cover>,
    i: int,
    cur: int,
    end: int,
    frame: u64,
    policy: OverlapPolicy,
)
    requires
        cov_wf(cov),
        0 <= i <= cov.len(),
        i64::MIN <= cur <= end <= i64::MAX,
    ensures
        cov_wf(inside(cov, i, cur, end, frame, policy)),
        forall|k: int|
            0 <= k < inside(cov, i, cur, end, frame, policy).len() ==> (#[trigger] inside(
                cov,
                i,
                cur,
                end,
                frame,
                policy,
            )[k]).0 >= cur && inside(cov, i, cur, end, frame, policy)[k].1 <= end,
        forall|x: int| #[trigger]
            covered(inside(cov, i, cur, end, frame, policy), x) <==> cur <= x < end,
    decreases cov.len() - i,
{
    let r = inside(cov, i, cur, end, frame, policy);
    if i >= cov.len() || cov[i].0 >= end || cur >= end {
        if cur < end {
            lemma_one((cur as i64, end as i64, frame));
        } else {
            assert forall|x: int| #[trigger] covered(r, x) <==> cur <= x < end by {}
        }
    } else if cov[i].1 <= cur {
        lemma_inside(cov, i + 1, cur, end, frame, policy);
    } else {
        let s = greater(cov[i].0 as int, cur);
        let e = lesser(cov[i].1 as int, end);
        let mine = match policy {
            OverlapPolicy::FirstSeen => cov[i].2,
            OverlapPolicy::LastSeen => frame,
        };
        let gap: Seq<Cover> = if cur < s {
            seq![(cur as i64, s as i64, frame)]
        } else {
            seq![]
        };
        let one: Seq<Cover> = seq![(s as i64, e as i64, mine)];
        let rest = inside(cov, i + 1, e, end, frame, policy);
        lemma_inside(cov, i + 1, e, end, frame, policy);
        lemma_one((s as i64, e as i64, mine));
        if cur < s {
            lemma_one((cur as i64, s as i64, frame));
        }
        assert forall|x: int| #[trigger] covered(gap, x) <==> cur <= x < s by {}
        lemma_joined(gap, one, s);
        lemma_joined(gap + one, rest, e);
        assert forall|k: int| 0 <= k < r.len() implies (#[trigger] r[k]).0 >= cur && r[k].1 <= end by {
            let g = (gap + one).len() as int;
            if k >= g {
                assert(rest[k - g] == r[k]);
                assert(rest[k - g].0 >= e);
            } else {
                assert(r[k] == (gap + one)[k]);
            }
        }
    }
}

/// Carrying `off..end` covers exactly that in addition, and the ranges stay in
/// order.
pub proof fn law_coverage(cov: Seq<Cover>, off: int, end: int, frame: u64, policy: OverlapPolicy)
    requires
        cov_wf(cov),
        i64::MIN <= off <= end <= i64::MAX,
    ensures
        cov_wf(recovered(cov, off, end, frame, policy)),
        forall|x: int| #[trigger]
            covered(recovered(cov, off, end, frame, policy), x) <==> covered(cov, x) || off <= x
                < end,
{
    let n = cov.len() as int;
    assert(cov.take(n) =~= cov);
    lemma_below(cov, off, n);
    lemma_above(cov, end, n);
    lemma_inside(cov, 0, off, end, frame, policy);
    let a = below(cov, off, n);
    let b = inside(cov, 0, off, end, frame, policy);
    let c = above(cov, end, n);
    lemma_joined(a, b, off);
    assert forall|k: int| 0 <= k < (a + b).len() implies (#[trigger] (a + b)[k]).1 <= end by {
        if k < a.len() {
            assert(a[k].1 <= off);
        } else {
            assert(b[k - a.len()].1 <= end);
        }
    }
    lemma_joined(a + b, c, end);
}

/// The bytes `s..e` of a table of bytes.
pub open spec fn run(bytes: Map<int, u8>, s: int, e: int) -> Seq<u8> {
    Seq::new((e - s) as nat, |k: int| bytes[s + k])
}

/// The bytes after `payload` was carried at `off`: first seen, only what was
/// missing is taken over; last seen, all of it is.
pub open spec fn carried(bytes: Map<int, u8>, off: int, payload: Seq<u8>, policy: OverlapPolicy) -> Map<
    int,
    u8,
> {
    Map::new(
        |x: int| bytes.contains_key(x) || off <= x < off + payload.len(),
        |x: int|
            if off <= x < off + payload.len() && (policy == OverlapPolicy::LastSeen
                || !bytes.contains_key(x)) {
                payload[x - off]
            } else {
                bytes[x]
            },
    )
}

/// The table of bytes holds exactly what is covered.
pub open spec fn holds_covered(bytes: Map<int, u8>, cov: Seq<Cover>) -> bool {
    forall|x: int| #[trigger] bytes.contains_key(x) <==> covered(cov, x)
}

spec fn parts_ok(cov: Seq<Cover>, parts: Seq<Vec<u8>>, bytes: Map<int, u8>) -> bool {
    &&& parts.len() == cov.len()
    &&& forall|i: int|
        0 <= i < cov.len() ==> (#[trigger] parts[i])@ == run(bytes, cov[i].0 as int, cov[i].1 as int)
}

spec fn cov_near(cov: Seq<Cover>) -> bool {
    forall|i: int|
        0 <= i < cov.len() ==> near((#[trigger] cov[i]).0 as int) && near(cov[i].1 as int)
}

proof fn lemma_parts_push(cov: Seq<Cover>, parts: Seq<Vec<u8>>, bytes: Map<int, u8>, c: Cover, p: Vec<u8>)
    requires
        parts_ok(cov, parts, bytes),
        cov_near(cov),
        near(c.0 as int),
        near(c.1 as int),
        p@ == run(bytes, c.0 as int, c.1 as int),
    ensures
        parts_ok(cov.push(c), parts.push(p), bytes),
        cov_near(cov.push(c)),
{
    let r = cov.push(c);
    let q = parts.push(p);
    assert forall|i: int| 0 <= i < r.len() implies (#[trigger] q[i])@ == run(
        bytes,
        r[i].0 as int,
        r[i].1 as int,
    ) by {
        if i < cov.len() {
            assert(q[i] == parts[i]);
        }
    }
    assert forall|i: int| 0 <= i < r.len() implies near((#[trigger] r[i]).0 as int) && near(
        r[i].1 as int,
    ) by {
        if i < cov.len() {
            assert(r[i] == cov[i]);
        }
    }
}

/// A part of a covered range, cut to `s..e`.
fn cut(part: &Vec<u8>, at: i64, s: i64, e: i64, Ghost(bytes): Ghost<Map<int, u8>>, Ghost(to): Ghost<int>) -> (r:
    Vec<u8>)
    requires
        at <= s <= e <= to,
        near(at as int),
        near(to),
        part@ == run(bytes, at as int, to),
    ensures
        r@ == run(bytes, s as int, e as int),
{
    let len: usize = part.len();
    assert(to - at == len);
    let a: usize = (s - at) as usize;
    let b: usize = (e - at) as usize;
    let r = copy_range(part, a, b);
    assert(r@ =~= run(bytes, s as int, e as int));
    r
}

#[verifier::rlimit(60)]
fn carry(
    cov: &Vec<Cover>,
    parts: &Vec<Vec<u8>>,
    off: i64,
    end: i64,
    payload: &Vec<u8>,
    frame: u64,
    policy: OverlapPolicy,
    Ghost(bytes): Ghost<Map<int, u8>>,
) -> (r: (Vec<Cover>, Vec<Vec<u8>>))
    requires
        cov_wf(cov@),
        cov_near(cov@),
        holds_covered(bytes, cov@),
        parts_ok(cov@, parts@, bytes),
        near(off as int),
        near(end as int),
        end == off + payload@.len(),
    ensures
        r.0@ == recovered(cov@, off as int, end as int, frame, policy),
        cov_near(r.0@),
        parts_ok(r.0@, r.1@, carried(bytes, off as int, payload@, policy)),
{
    let ghost after = carried(bytes, off as int, payload@, policy);
    let n: usize = cov.len();
    let len: usize = payload.len();
    let mut next: Vec<Cover> = Vec::new();
    let mut data: Vec<Vec<u8>> = Vec::new();
    let mut i: usize = 0;
    while i < n
        invariant
            i <= n,
            n == cov@.len(),
            cov_wf(cov@),
            cov_near(cov@),
            near(off as int),
            near(end as int),
            len == payload@.len(),
            end == off + len,
            holds_covered(bytes, cov@),
            parts_ok(cov@, parts@, bytes),
            after == carried(bytes, off as int, payload@, policy),
            next@ == below(cov@, off as int, i as int),
            cov_near(next@),
            parts_ok(next@, data@, after),
        decreases n - i,
    {
        let (cs, ce, cf) = cov[i];
        assert(cov@[i as int].0 < cov@[i as int].1);
        assert(near(cov@[i as int].0 as int));
        assert(parts@[i as int]@ == run(bytes, cs as int, ce as int));
        if cs < off {
            let stop: i64 = if ce < off {
                ce
            } else {
                off
            };
            let part = cut(&parts[i], cs, cs, stop, Ghost(bytes), Ghost(ce as int));
            proof {
                assert(run(bytes, cs as int, stop as int) =~= run(after, cs as int, stop as int)) by {
                    assert forall|x: int| cs <= x < stop implies #[trigger] bytes[x] == after[x] by {
                        lemma_covered_at(cov@, i as int, x);
                    }
                }
                lemma_parts_push(next@, data@, after, (cs, stop, cf), part);
            }
            next.push((cs, stop, cf));
            data.push(part);
        }
        i += 1;
    }
    let mut cur: i64 = off;
    i = 0;
    let ghost head = next@;
    assert(head + inside(cov@, 0, off as int, end as int, frame, policy) == next@ + inside(
        cov@,
        0,
        off as int,
        end as int,
        frame,
        policy,
    ));
    while i < n && cov[i].0 < end && cur < end
        invariant
            i <= n,
            n == cov@.len(),
            cov_wf(cov@),
            cov_near(cov@),
            holds_covered(bytes, cov@),
            near(off as int),
            near(end as int),
            len == payload@.len(),
            end == off + len,
            off <= cur <= end,
            parts_ok(cov@, parts@, bytes),
            after == carried(bytes, off as int, payload@, policy),
            forall|j: int| 0 <= j < i ==> (#[trigger] cov@[j]).1 <= cur || cur == end,
            next@ + inside(cov@, i as int, cur as int, end as int, frame, policy) == head + inside(
                cov@,
                0,
                off as int,
                end as int,
                frame,
                policy,
            ),
            cov_near(next@),
            parts_ok(next@, data@, after),
        decreases n - i,
    {
        let (cs, ce, cf) = cov[i];
        assert(cov@[i as int].0 < cov@[i as int].1);
        assert(near(cov@[i as int].0 as int));
        assert(parts@[i as int]@ == run(bytes, cs as int, ce as int));
        if ce > cur {
            let s: i64 = if cs > cur {
                cs
            } else {
                cur
            };
            let e: i64 = if ce < end {
                ce
            } else {
                end
            };
            let mine: u64 = match policy {
                OverlapPolicy::FirstSeen => cf,
                OverlapPolicy::LastSeen => frame,
            };
            let ghost rest = inside(cov@, i + 1, e as int, end as int, frame, policy);
            let ghost before = next@;
            if cur < s {
                let part = copy_range(payload, (cur - off) as usize, (s - off) as usize);
                proof {
                    assert(part@ =~= run(after, cur as int, s as int)) by {
                        assert forall|x: int| cur <= x < s implies #[trigger] after[x]
                            == payload@[x - off] by {
                            if covered(cov@, x) {
                                let j = choose|j: int|
                                    0 <= j < cov@.len() && (#[trigger] cov@[j]).0 <= x < cov@[j].1;
                                if j > i {
                                    assert(cov@[i as int].1 <= cov@[j].0);
                                }
                            }
                            assert(!bytes.contains_key(x));
                        }
                    }
                    lemma_parts_push(next@, data@, after, (cur, s, frame), part);
                }
                next.push((cur, s, frame));
                data.push(part);
            }
            let part = match policy {
                OverlapPolicy::FirstSeen => {
                    let p = cut(&parts[i], cs, s, e, Ghost(bytes), Ghost(ce as int));
                    proof {
                        assert(p@ =~= run(after, s as int, e as int)) by {
                            assert forall|x: int| s <= x < e implies #[trigger] bytes[x] == after[x] by {
                                lemma_covered_at(cov@, i as int, x);
                                assert(bytes.contains_key(x));
                            }
                        }
                    }
                    p
                },
                OverlapPolicy::LastSeen => {
                    let p = copy_range(payload, (s - off) as usize, (e - off) as usize);
                    assert(p@ =~= run(after, s as int, e as int));
                    p
                },
            };
            proof {
                lemma_parts_push(next@, data@, after, (s, e, mine), part);
            }
            next.push((s, e, mine));
            data.push(part);
            proof {
                let gap: Seq<Cover> = if cur < s {
                    seq![(cur, s, frame)]
                } else {
                    seq![]
                };
                assert(before + (gap + seq![(s, e, mine)] + rest) =~= next@ + rest);
            }
            cur = e;
        }
        i += 1;
    }
    let ghost before = next@;
    if cur < end {
        let part = copy_range(payload, (cur - off) as usize, (end - off) as usize);
        proof {
            assert(part@ =~= run(after, cur as int, end as int)) by {
                assert forall|x: int| cur <= x < end implies #[trigger] after[x] == payload@[x - off] by {
                    if covered(cov@, x) {
                        let j = choose|j: int|
                            0 <= j < cov@.len() && (#[trigger] cov@[j]).0 <= x < cov@[j].1;
                        if j >= i {
                            if j > i {
                                assert(cov@[i as int].1 <= cov@[j].0);
                            }
                            assert(cov@[i as int].0 >= end);
                        }
                    }
                    assert(!bytes.contains_key(x));
                }
            }
            lemma_parts_push(next@, data@, after, (cur, end, frame), part);
        }
        next.push((cur, end, frame));
        data.push(part);
        assert(before + seq![(cur, end, frame)] =~= next@);
    } else {
        assert(before + seq![] =~= next@);
    }
    let ghost mid = next@;
    i = 0;
    assert(mid + above(cov@, end as int, 0) =~= next@);
    while i < n
        invariant
            i <= n,
            n == cov@.len(),
            cov_wf(cov@),
            cov_near(cov@),
            near(off as int),
            near(end as int),
            len == payload@.len(),
            end == off + len,
            holds_covered(bytes, cov@),
            parts_ok(cov@, parts@, bytes),
            after == carried(bytes, off as int, payload@, policy),
            next@ == mid + above(cov@, end as int, i as int),
            cov_near(next@),
            parts_ok(next@, data@, after),
        decreases n - i,
    {
        let (cs, ce, cf) = cov[i];
        assert(cov@[i as int].0 < cov@[i as int].1);
        assert(near(cov@[i as int].0 as int));
        assert(parts@[i as int]@ == run(bytes, cs as int, ce as int));
        if ce > end {
            let start: i64 = if cs > end {
                cs
            } else {
                end
            };
            let part = cut(&parts[i], cs, start, ce, Ghost(bytes), Ghost(ce as int));
            proof {
                assert(run(bytes, start as int, ce as int) =~= run(after, start as int, ce as int)) by {
                    assert forall|x: int| start <= x < ce implies #[trigger] bytes[x] == after[x] by {
                        lemma_covered_at(cov@, i as int, x);
                    }
                }
                lemma_parts_push(next@, data@, after, (start, ce, cf), part);
            }
            next.push((start, ce, cf));
            data.push(part);
            assert(next@ =~= mid + above(cov@, end as int, i as int).push((start, ce, cf)));
        }
        i += 1;
    }
    (next, data)
}

proof fn lemma_covered_at(cov: Seq<Cover>, i: int, x: int)
    requires
        0 <= i < cov.len(),
        cov[i].0 <= x < cov[i].1,
    ensures
        covered(cov, x),
{
}

/// What the reassembly of one direction has come to.
pub struct DirState {
    pub bytes: Map<int, u8>,
    pub cov: Seq<Cover>,
    /// The greatest end of a segment so far.
    pub top: Option<int>,
    pub segments: Seq<SegInfo>,
    pub retransmissions: Seq<FrameEv>,
    pub out_of_order: Seq<FrameEv>,
    pub overlaps: Seq<OverlapModel>,
}

/// Nothing seen yet.
pub open spec fn dir_start() -> DirState {
    DirState {
        bytes: Map::empty(),
        cov: seq![],
        top: None,
        segments: seq![],
        retransmissions: seq![],
        out_of_order: seq![],
        overlaps: seq![],
    }
}

/// The overlap events of a segment at `off` with the first `n` ranges.
pub open spec fn overlaps_of(
    d: DirState,
    anchor: u32,
    policy: OverlapPolicy,
    seg: SegModel,
    off: int,
    n: int,
) -> Seq<OverlapModel>
    decreases n,
{
    if n <= 0 {
        seq![]
    } else {
        let rest = overlaps_of(d, anchor, policy, seg, off, n - 1);
        let c = d.cov[n - 1];
        let s = greater(off, c.0 as int);
        let e = lesser(off + seg.payload.len(), c.1 as int);
        if s < e {
            rest.push(
                OverlapModel {
                    offset: s as i64,
                    start_seq: seq_at(anchor, s),
                    len: (e - s) as u64,
                    kept_frame: match policy {
                        OverlapPolicy::FirstSeen => c.2,
                        OverlapPolicy::LastSeen => seg.frame,
                    },
                    dropped_frame: match policy {
                        OverlapPolicy::FirstSeen => seg.frame,
                        OverlapPolicy::LastSeen => c.2,
                    },
                    policy,
                    dropped: match policy {
                        OverlapPolicy::FirstSeen => seg.payload.subrange(s - off, e - off),
                        OverlapPolicy::LastSeen => run(d.bytes, s, e),
                    },
                },
            )
        } else {
            rest
        }
    }
}

/// What one more segment makes of a direction.
pub open spec fn dir_step(d: DirState, anchor: u32, policy: OverlapPolicy, seg: SegModel) -> DirState {
    let off = distance(seg.seq, anchor);
    let len = seg.payload.len() as int;
    let end = off + len;
    let n = d.cov.len() as int;
    let repeated = overlap_total(d.cov, off, end, n) == len;
    let ev = FrameEv { seq: seg.seq, len: len as u64, frame: seg.frame };
    DirState {
        bytes: carried(d.bytes, off, seg.payload, policy),
        cov: recovered(d.cov, off, end, seg.frame, policy),
        top: match d.top {
            Some(t) if t >= end => Some(t),
            _ => Some(end),
        },
        segments: d.segments.push(
            SegInfo {
                seq: seg.seq,
                end_seq: seq_at(seg.seq, len),
                offset: off as i64,
                len: len as u64,
                frame: seg.frame,
                ts_ns: seg.ts_ns,
            },
        ),
        retransmissions: if repeated {
            d.retransmissions.push(ev)
        } else {
            d.retransmissions
        },
        out_of_order: if !repeated && d.top is Some && off < d.top->0 {
            d.out_of_order.push(ev)
        } else {
            d.out_of_order
        },
        overlaps: d.overlaps + overlaps_of(d, anchor, policy, seg, off, n),
    }
}

/// What the first `n` segments make of a direction.
pub open spec fn dir_run(segs: Seq<SegModel>, anchor: u32, policy: OverlapPolicy, n: int) -> DirState
    decreases n,
{
    if n <= 0 {
        dir_start()
    } else {
        dir_step(dir_run(segs, anchor, policy, n - 1), anchor, policy, segs[n - 1])
    }
}

/// The least offset of the first `n` segments, at most 0.
pub open spec fn base_offset(segs: Seq<SegModel>, anchor: u32, n: int) -> int
    decreases n,
{
    if n <= 0 {
        0
    } else {
        lesser(base_offset(segs, anchor, n - 1), distance(segs[n - 1].seq, anchor))
    }
}

/// The first `n` ranges with adjacent ones joined.
pub open spec fn merged(cov: Seq<Cover>, n: int) -> Seq<(i64, i64)>
    decreases n,
{
    if n <= 0 {
        seq![]
    } else {
        let m = merged(cov, n - 1);
        let c = cov[n - 1];
        if m.len() > 0 && m.last().1 == c.0 {
            m.drop_last().push((m.last().0, c.1))
        } else {
            m.push((c.0, c.1))
        }
    }
}

/// The bytes of the first `n` ranges.
pub open spec fn gathered(bytes: Map<int, u8>, cov: Seq<Cover>, n: int) -> Seq<u8>
    decreases n,
{
    if n <= 0 {
        seq![]
    } else {
        gathered(bytes, cov, n - 1) + run(bytes, cov[n - 1].0 as int, cov[n - 1].1 as int)
    }
}

/// The intervals of the first `n` joined ranges.
pub open spec fn intervals_of(m: Seq<(i64, i64)>, anchor: u32, n: int) -> Seq<Interval> {
    Seq::new(n as nat, |i: int| interval_of(anchor, m[i].0 as int, m[i].1 as int))
}

/// The missing intervals from `base` on between the first `n` joined ranges.
pub open spec fn gaps_of(m: Seq<(i64, i64)>, anchor: u32, base: int, n: int) -> Seq<Interval>
    decreases n,
{
    if n <= 0 {
        seq![]
    } else {
        let rest = gaps_of(m, anchor, base, n - 1);
        let from = if n == 1 {
            base
        } else {
            m[n - 2].1 as int
        };
        if m[n - 1].0 > from {
            rest.push(interval_of(anchor, from, m[n - 1].0 as int))
        } else {
            rest
        }
    }
}

/// The sequence number that offset 0 stands for: the one after the initial
/// one, or that of the first segment.
pub open spec fn anchor_of(isn: Option<u32>, segs: Seq<SegModel>) -> Option<u32> {
    match isn {
        Some(i) => Some(seq_at(i, 1)),
        None => if segs.len() > 0 {
            Some(segs[0].seq)
        } else {
            None
        },
    }
}

/// A direction as the analysis reports it.
pub struct DirModel {
    pub isn: Option<u32>,
    pub anchor: Option<u32>,
    pub payload: Seq<u8>,
    pub intervals: Seq<Interval>,
    pub gaps: Seq<Interval>,
    pub retransmissions: Seq<FrameEv>,
    pub out_of_order: Seq<FrameEv>,
    pub overlaps: Seq<OverlapModel>,
    pub segments: Seq<SegInfo>,
}

/// The analysis of one direction from its data segments in order of arrival.
pub open spec fn direction_of(isn: Option<u32>, segs: Seq<SegModel>, policy: OverlapPolicy) -> DirModel {
    let n = segs.len() as int;
    let (anchor, d, base) = match anchor_of(isn, segs) {
        Some(a) => (a, dir_run(segs, a, policy, n), base_offset(segs, a, n)),
        None => (0, dir_start(), 0),
    };
    let m = merged(d.cov, d.cov.len() as int);
    DirModel {
        isn,
        anchor: anchor_of(isn, segs),
        payload: gathered(d.bytes, d.cov, d.cov.len() as int),
        intervals: intervals_of(m, anchor, m.len() as int),
        gaps: gaps_of(m, anchor, base, m.len() as int),
        retransmissions: d.retransmissions,
        out_of_order: d.out_of_order,
        overlaps: d.overlaps,
        segments: d.segments,
    }
}

/// The events say what the models say, one by one.
pub open spec fn overlaps_say(v: Seq<OverlapEv>, m: Seq<OverlapModel>) -> bool {
    &&& v.len() == m.len()
    &&& forall|i: int| 0 <= i < v.len() ==> (#[trigger] v[i]).says(m[i])
}

impl DirectionResult {
    /// The result says what the model says; the payload file has its own name.
    pub open spec fn says(self, m: DirModel, file: Seq<char>) -> bool {
        &&& self.isn == m.isn
        &&& self.anchor_seq == m.anchor
        &&& self.byte_count == m.payload.len()
        &&& self.payload_sha256@ == hex_of(sha256_of(m.payload))
        &&& self.payload_file@ == file
        &&& self.intervals@ == m.intervals
        &&& self.gaps@ == m.gaps
        &&& self.retransmissions@ == m.retransmissions
        &&& self.out_of_order@ == m.out_of_order
        &&& overlaps_say(self.overlaps@, m.overlaps)
        &&& self.segments@ == m.segments
    }
}

/// What an event is about.
#[derive(Clone, Debug)]
pub enum EventDetail {
    Opened { partial: bool },
    Closed { reason: String },
    SynRetransmission { direction: usize, seq: u32 },
    RstAfterClose { note: String },
    Overlap {
        direction: usize,
        offset: i64,
        start_seq: u32,
        len: u64,
        kept_frame: u64,
        dropped_frame: u64,
        policy: String,
        dropped_bytes_hex: String,
    },
}

#[derive(Clone, Debug)]
pub struct SessionEvent {
    pub session: usize,
    pub generation: u32,
    pub kind: String,
    pub frame: Option<u64>,
    pub detail: EventDetail,
}

/// What an event is about, as a model.
pub enum DetailModel {
    Opened { partial: bool },
    Closed { reason: Seq<char> },
    SynRetransmission { direction: int, seq: u32 },
    RstAfterClose,
    Overlap { direction: int, event: OverlapModel },
}

/// An event as a model.
pub struct EventModel {
    pub frame: Option<u64>,
    pub detail: DetailModel,
}

impl DetailModel {
    /// The kind of event.
    pub open spec fn kind(self) -> Seq<char> {
        match self {
            DetailModel::Opened { .. } => "generation"@,
            DetailModel::Closed { .. } => "generation"@,
            DetailModel::SynRetransmission { .. } => "syn-retransmission"@,
            DetailModel::RstAfterClose => "rst-after-close"@,
            DetailModel::Overlap { .. } => "overlap"@,
        }
    }
}

impl EventDetail {
    pub open spec fn says(self, m: DetailModel) -> bool {
        match (self, m) {
            (EventDetail::Opened { partial }, DetailModel::Opened { partial: p }) => partial == p,
            (EventDetail::Closed { reason }, DetailModel::Closed { reason: r }) => reason@ == r,
            (
                EventDetail::SynRetransmission { direction, seq },
                DetailModel::SynRetransmission { direction: d, seq: s },
            ) => direction == d && seq == s,
            (EventDetail::RstAfterClose { note }, DetailModel::RstAfterClose) => note@
                == "RST arrived after FIN-closed generation"@,
            (
                EventDetail::Overlap {
                    direction,
                    offset,
                    start_seq,
                    len,
                    kept_frame,
                    dropped_frame,
                    policy,
                    dropped_bytes_hex,
                },
                DetailModel::Overlap { direction: d, event },
            ) => {
                &&& direction == d
                &&& offset == event.offset
                &&& start_seq == event.start_seq
                &&& len == event.len
                &&& kept_frame == event.kept_frame
                &&& dropped_frame == event.dropped_frame
                &&& policy@ == event.policy.name()
                &&& dropped_bytes_hex@ == hex_of(event.dropped)
            },
            _ => false,
        }
    }
}

impl SessionEvent {
    /// The event says what the model says, of a session and a generation.
    pub open spec fn says(self, session: int, generation: u32, m: EventModel) -> bool {
        &&& self.session == session
        &&& self.generation == generation
        &&& self.kind@ == m.detail.kind()
        &&& self.frame == m.frame
        &&& self.detail.says(m.detail)
    }
}

/// The events say what the models say, one by one.
pub open spec fn events_say(v: Seq<SessionEvent>, session: int, generation: u32, m: Seq<EventModel>) -> bool {
    &&& v.len() == m.len()
    &&& forall|i: int| 0 <= i < v.len() ==> (#[trigger] v[i]).says(session, generation, m[i])
}

/// The frame that an overlap event came with.
pub open spec fn overlap_frame(m: OverlapModel) -> u64 {
    match m.policy {
        OverlapPolicy::FirstSeen => m.dropped_frame,
        OverlapPolicy::LastSeen => m.kept_frame,
    }
}

/// The events of the overlaps of a direction.
pub open spec fn overlap_events(direction: int, m: Seq<OverlapModel>) -> Seq<EventModel> {
    Seq::new(
        m.len(),
        |i: int|
            EventModel {
                frame: Some(overlap_frame(m[i])),
                detail: DetailModel::Overlap { direction, event: m[i] },
            },
    )
}

spec fn segs_ok(segs: Seq<SegModel>) -> bool {
    forall|i: int| 0 <= i < segs.len() ==> (#[trigger] segs[i]).payload.len() <= 0xffff_ffff
}

proof fn lemma_dir_run(segs: Seq<SegModel>, anchor: u32, policy: OverlapPolicy, n: int)
    requires
        0 <= n <= segs.len(),
        segs_ok(segs),
    ensures
        cov_wf(dir_run(segs, anchor, policy, n).cov),
        holds_covered(
            dir_run(segs, anchor, policy, n).bytes,
            dir_run(segs, anchor, policy, n).cov,
        ),
    decreases n,
{
    let d = dir_run(segs, anchor, policy, n);
    if n > 0 {
        lemma_dir_run(segs, anchor, policy, n - 1);
        let b = dir_run(segs, anchor, policy, n - 1);
        let seg = segs[n - 1];
        let off = distance(seg.seq, anchor);
        law_coverage(b.cov, off, off + seg.payload.len(), seg.frame, policy);
        assert forall|x: int| #[trigger] d.bytes.contains_key(x) <==> covered(d.cov, x) by {
            assert(b.bytes.contains_key(x) <==> covered(b.cov, x));
        }
    } else {
        assert forall|x: int| #[trigger] d.bytes.contains_key(x) <==> covered(d.cov, x) by {}
    }
}

pub(crate) proof fn lemma_run(segs: Seq<SegModel>, anchor: u32, policy: OverlapPolicy, n: int)
    requires
        0 <= n <= segs.len(),
        short_segs(segs),
    ensures
        cov_wf(dir_run(segs, anchor, policy, n).cov),
        holds_covered(
            dir_run(segs, anchor, policy, n).bytes,
            dir_run(segs, anchor, policy, n).cov,
        ),
{
    lemma_dir_run(segs, anchor, policy, n);
}

struct DirWork {
    cov: Vec<Cover>,
    parts: Vec<Vec<u8>>,
    top: Option<i64>,
    segments: Vec<SegInfo>,
    retransmissions: Vec<FrameEv>,
    out_of_order: Vec<FrameEv>,
    overlaps: Vec<OverlapEv>,
    events: Vec<SessionEvent>,
}

spec fn top_is(a: Option<i64>, b: Option<int>) -> bool {
    match (a, b) {
        (Some(x), Some(y)) => x == y && near(y),
        (None, None) => true,
        _ => false,
    }
}

impl DirWork {
    spec fn is(&self, d: DirState, session: int, generation: u32, dir: int) -> bool {
        &&& self.cov@ == d.cov
        &&& cov_wf(d.cov)
        &&& cov_near(d.cov)
        &&& holds_covered(d.bytes, d.cov)
        &&& parts_ok(d.cov, self.parts@, d.bytes)
        &&& top_is(self.top, d.top)
        &&& self.segments@ == d.segments
        &&& self.retransmissions@ == d.retransmissions
        &&& self.out_of_order@ == d.out_of_order
        &&& overlaps_say(self.overlaps@, d.overlaps)
        &&& events_say(self.events@, session, generation, overlap_events(dir, d.overlaps))
    }

    fn new(Ghost(session): Ghost<int>, Ghost(generation): Ghost<u32>, Ghost(dir): Ghost<int>) -> (r: Self)
        ensures
            r.is(dir_start(), session, generation, dir),
    {
        DirWork {
            cov: Vec::new(),
            parts: Vec::new(),
            top: None,
            segments: Vec::new(),
            retransmissions: Vec::new(),
            out_of_order: Vec::new(),
            overlaps: Vec::new(),
            events: Vec::new(),
        }
    }

    /// Records the overlaps of a segment with what is covered; gives how much
    /// of the segment they make up.
    #[verifier::rlimit(60)]
    fn note_overlaps(
        &mut self,
        seg: &Seg,
        off: i64,
        anchor: u32,
        policy: OverlapPolicy,
        session: usize,
        generation: u32,
        dir: usize,
        Ghost(d): Ghost<DirState>,
    ) -> (total: i64)
        requires
            old(self).is(d, session as int, generation, dir as int),
            off == distance(seg.seq, anchor),
            seg.payload@.len() <= 0xffff_ffff,
        ensures
            total == overlap_total(
                d.cov,
                off as int,
                off + seg.payload@.len(),
                d.cov.len() as int,
            ),
            final(self).cov == old(self).cov,
            final(self).parts == old(self).parts,
            final(self).top == old(self).top,
            final(self).segments == old(self).segments,
            final(self).retransmissions == old(self).retransmissions,
            final(self).out_of_order == old(self).out_of_order,
            ({
                let m = d.overlaps + overlaps_of(
                    d,
                    anchor,
                    policy,
                    seg@,
                    off as int,
                    d.cov.len() as int,
                );
                overlaps_say(final(self).overlaps@, m) && events_say(
                    final(self).events@,
                    session as int,
                    generation,
                    overlap_events(dir as int, m),
                )
            }),
    {
        let len: usize = seg.payload.len();
        let end: i64 = off + len as i64;
        let ghost sm = seg@;
        let mut total: i64 = 0;
        let mut i: usize = 0;
        let ghost mut m = d.overlaps;
        assert(d.overlaps + overlaps_of(d, anchor, policy, sm, off as int, 0) =~= d.overlaps);
        while i < self.cov.len()
            invariant
                i <= self.cov@.len(),
                self.cov == old(self).cov,
                self.parts == old(self).parts,
                self.top == old(self).top,
                self.segments == old(self).segments,
                self.retransmissions == old(self).retransmissions,
                self.out_of_order == old(self).out_of_order,
                self.cov@ == d.cov,
                cov_wf(d.cov),
                cov_near(d.cov),
                parts_ok(d.cov, self.parts@, d.bytes),
                sm == seg@,
                len == seg.payload@.len(),
                len <= 0xffff_ffff,
                near(off as int),
                -0x8000_0000 <= off < 0x8000_0000,
                end == off + len,
                total == overlap_total(d.cov, off as int, end as int, i as int),
                0 <= total,
                total <= len,
                i > 0 ==> (total == 0 || total <= lesser(end as int, d.cov[i - 1].1 as int) - off),
                m == d.overlaps + overlaps_of(d, anchor, policy, sm, off as int, i as int),
                overlaps_say(self.overlaps@, m),
                events_say(
                    self.events@,
                    session as int,
                    generation,
                    overlap_events(dir as int, m),
                ),
            decreases self.cov@.len() - i,
        {
            let (cs, ce, cf) = self.cov[i];
            assert(d.cov[i as int] == (cs, ce, cf));
            assert(near(d.cov[i as int].0 as int) && near(d.cov[i as int].1 as int));
            assert(d.cov[i as int].0 < d.cov[i as int].1);
            assert(self.parts@[i as int]@ == run(d.bytes, cs as int, ce as int));
            proof {
                if i > 0 {
                    assert(d.cov[i - 1].1 <= d.cov[i as int].0);
                }
            }
            let s: i64 = if off > cs {
                off
            } else {
                cs
            };
            let e: i64 = if end < ce {
                end
            } else {
                ce
            };
            if s < e {
                total = total + (e - s);
                let kept_frame: u64;
                let dropped_frame: u64;
                let dropped: Vec<u8>;
                match policy {
                    OverlapPolicy::FirstSeen => {
                        kept_frame = cf;
                        dropped_frame = seg.frame;
                        dropped = copy_range(&seg.payload, (s - off) as usize, (e - off) as usize);
                    },
                    OverlapPolicy::LastSeen => {
                        kept_frame = seg.frame;
                        dropped_frame = cf;
                        dropped = cut(&self.parts[i], cs, s, e, Ghost(d.bytes), Ghost(ce as int));
                    },
                }
                let hex = hex_string(&dropped);
                let start_seq: u32 = seq_of(anchor, s);
                let ghost om = OverlapModel {
                    offset: s,
                    start_seq,
                    len: (e - s) as u64,
                    kept_frame,
                    dropped_frame,
                    policy,
                    dropped: dropped@,
                };
                let ev = SessionEvent {
                    session,
                    generation,
                    kind: "overlap".to_string(),
                    frame: Some(seg.frame),
                    detail: EventDetail::Overlap {
                        direction: dir,
                        offset: s,
                        start_seq,
                        len: (e - s) as u64,
                        kept_frame,
                        dropped_frame,
                        policy: policy.as_str().to_string(),
                        dropped_bytes_hex: hex.clone(),
                    },
                };
                let ov = OverlapEv {
                    offset: s,
                    start_seq,
                    len: (e - s) as u64,
                    kept_frame,
                    dropped_frame,
                    policy: policy.as_str().to_string(),
                    dropped_bytes_hex: hex,
                };
                let ghost ov0 = self.overlaps@;
                let ghost ev0 = self.events@;
                let ghost m0 = m;
                assert(ov.says(om));
                assert(ev.says(
                    session as int,
                    generation,
                    EventModel {
                        frame: Some(overlap_frame(om)),
                        detail: DetailModel::Overlap { direction: dir as int, event: om },
                    },
                ));
                self.events.push(ev);
                self.overlaps.push(ov);
                proof {
                    m = m0.push(om);
                    lemma_say_push(ov0, m0, ov, om);
                    lemma_events_push(
                        ev0,
                        session as int,
                        generation,
                        overlap_events(dir as int, m0),
                        ev,
                        EventModel {
                            frame: Some(overlap_frame(om)),
                            detail: DetailModel::Overlap { direction: dir as int, event: om },
                        },
                    );
                    assert(overlap_events(dir as int, m) =~= overlap_events(dir as int, m0).push(
                        EventModel {
                            frame: Some(overlap_frame(om)),
                            detail: DetailModel::Overlap { direction: dir as int, event: om },
                        },
                    ));
                    assert(m =~= d.overlaps + overlaps_of(
                        d,
                        anchor,
                        policy,
                        sm,
                        off as int,
                        i as int,
                    ).push(om));
                }
            }
            i += 1;
        }
        total
    }

    /// Takes in one segment.
    fn add(
        &mut self,
        seg: &Seg,
        anchor: u32,
        policy: OverlapPolicy,
        session: usize,
        generation: u32,
        dir: usize,
        Ghost(d): Ghost<DirState>,
    )
        requires
            old(self).is(d, session as int, generation, dir as int),
            seg.payload@.len() <= 0xffff_ffff,
        ensures
            final(self).is(
                dir_step(d, anchor, policy, seg@),
                session as int,
                generation,
                dir as int,
            ),
    {
        let off: i64 = seq_offset(seg.seq, anchor);
        let size: usize = seg.payload.len();
        let len: i64 = size as i64;
        let end: i64 = off + len;
        self.segments.push(
            SegInfo {
                seq: seg.seq,
                end_seq: seq_of(seg.seq, len),
                offset: off,
                len: len as u64,
                frame: seg.frame,
                ts_ns: seg.ts_ns,
            },
        );
        let ghost d1 = DirState { segments: self.segments@, ..d };
        assert(self.is(d1, session as int, generation, dir as int));
        proof {
            lemma_overlaps_same(d, d1, anchor, policy, seg@, off as int, d.cov.len() as int);
        }
        let total = self.note_overlaps(
            seg,
            off,
            anchor,
            policy,
            session,
            generation,
            dir,
            Ghost(d1),
        );
        let ev = FrameEv { seq: seg.seq, len: len as u64, frame: seg.frame };
        if total == len {
            self.retransmissions.push(ev);
        } else {
            match self.top {
                Some(t) => {
                    if off < t {
                        self.out_of_order.push(ev);
                    }
                },
                None => {},
            }
        }
        let (next, data) = carry(
            &self.cov,
            &self.parts,
            off,
            end,
            &seg.payload,
            seg.frame,
            policy,
            Ghost(d.bytes),
        );
        proof {
            law_coverage(d.cov, off as int, end as int, seg.frame, policy);
            let e = dir_step(d, anchor, policy, seg@);
            assert forall|x: int| #[trigger] e.bytes.contains_key(x) <==> covered(e.cov, x) by {
                assert(d.bytes.contains_key(x) <==> covered(d.cov, x));
            }
        }
        self.cov = next;
        self.parts = data;
        match self.top {
            Some(t) => {
                if t < end {
                    self.top = Some(end);
                }
            },
            None => {
                self.top = Some(end);
            },
        }
    }
}

proof fn lemma_overlaps_same(
    a: DirState,
    b: DirState,
    anchor: u32,
    policy: OverlapPolicy,
    seg: SegModel,
    off: int,
    n: int,
)
    requires
        a.cov == b.cov,
        a.bytes == b.bytes,
    ensures
        overlaps_of(a, anchor, policy, seg, off, n) == overlaps_of(b, anchor, policy, seg, off, n),
    decreases n,
{
    if n > 0 {
        lemma_overlaps_same(a, b, anchor, policy, seg, off, n - 1);
    }
}

proof fn lemma_say_push(v: Seq<OverlapEv>, m: Seq<OverlapModel>, e: OverlapEv, x: OverlapModel)
    requires
        overlaps_say(v, m),
        e.says(x),
    ensures
        overlaps_say(v.push(e), m.push(x)),
{
    let w = v.push(e);
    assert forall|i: int| 0 <= i < w.len() implies (#[trigger] w[i]).says(m.push(x)[i]) by {
        if i < v.len() {
            assert(v[i].says(m[i]));
        }
    }
}

proof fn lemma_events_push(
    v: Seq<SessionEvent>,
    session: int,
    generation: u32,
    m: Seq<EventModel>,
    e: SessionEvent,
    x: EventModel,
)
    requires
        events_say(v, session, generation, m),
        e.says(session, generation, x),
    ensures
        events_say(v.push(e), session, generation, m.push(x)),
{
    let w = v.push(e);
    assert forall|i: int| 0 <= i < w.len() implies (#[trigger] w[i]).says(
        session,
        generation,
        m.push(x)[i],
    ) by {
        if i < v.len() {
            assert(v[i].says(session, generation, m[i]));
        }
    }
}

spec fn ranges_near(m: Seq<(i64, i64)>) -> bool {
    forall|i: int|
        0 <= i < m.len() ==> near((#[trigger] m[i]).0 as int) && near(m[i].1 as int) && m[i].0
            < m[i].1
}

fn merge(cov: &Vec<Cover>) -> (m: Vec<(i64, i64)>)
    requires
        cov_wf(cov@),
        cov_near(cov@),
    ensures
        m@ == merged(cov@, cov@.len() as int),
        ranges_near(m@),
        forall|i: int, j: int|
            0 <= i < j < m@.len() ==> (#[trigger] m@[i]).1 < (#[trigger] m@[j]).0,
{
    let mut m: Vec<(i64, i64)> = Vec::new();
    let mut i: usize = 0;
    while i < cov.len()
        invariant
            i <= cov@.len(),
            cov_wf(cov@),
            cov_near(cov@),
            m@ == merged(cov@, i as int),
            ranges_near(m@),
            i > 0 ==> m@.len() > 0 && m@.last().1 == cov@[i - 1].1,
            i == 0 ==> m@.len() == 0,
            forall|i: int, j: int|
                0 <= i < j < m@.len() ==> (#[trigger] m@[i]).1 < (#[trigger] m@[j]).0,
        decreases cov@.len() - i,
    {
        let (cs, ce, _) = cov[i];
        assert(cov@[i as int].0 < cov@[i as int].1);
        assert(near(cov@[i as int].0 as int) && near(cov@[i as int].1 as int));
        proof {
            if i > 0 {
                assert(cov@[i - 1].1 <= cov@[i as int].0);
            }
        }
        let k: usize = m.len();
        if k > 0 && m[k - 1].1 == cs {
            let first: i64 = m[k - 1].0;
            let ghost m0 = m@;
            let _ = m.pop();
            m.push((first, ce));
            assert(m@ =~= m0.drop_last().push((m0.last().0, ce)));
        } else {
            m.push((cs, ce));
        }
        i += 1;
    }
    m
}

fn gather(parts: &Vec<Vec<u8>>, Ghost(cov): Ghost<Seq<Cover>>, Ghost(bytes): Ghost<Map<int, u8>>) -> (out:
    Vec<u8>)
    requires
        parts_ok(cov, parts@, bytes),
    ensures
        out@ == gathered(bytes, cov, cov.len() as int),
{
    let mut out: Vec<u8> = Vec::new();
    let mut i: usize = 0;
    while i < parts.len()
        invariant
            i <= parts@.len(),
            parts_ok(cov, parts@, bytes),
            out@ == gathered(bytes, cov, i as int),
        decreases parts@.len() - i,
    {
        assert(parts@[i as int]@ == run(bytes, cov[i as int].0 as int, cov[i as int].1 as int));
        crate::bytes::push_all(&mut out, &parts[i]);
        i += 1;
    }
    out
}

fn intervals(m: &Vec<(i64, i64)>, anchor: u32) -> (r: Vec<Interval>)
    requires
        ranges_near(m@),
    ensures
        r@ == intervals_of(m@, anchor, m@.len() as int),
{
    let mut r: Vec<Interval> = Vec::new();
    let mut i: usize = 0;
    while i < m.len()
        invariant
            i <= m@.len(),
            ranges_near(m@),
            r@ == intervals_of(m@, anchor, i as int),
        decreases m@.len() - i,
    {
        let (s, e) = m[i];
        assert(near(m@[i as int].0 as int));
        r.push(make_interval(anchor, s, e));
        i += 1;
        assert(r@ =~= intervals_of(m@, anchor, i as int));
    }
    r
}

fn gaps(m: &Vec<(i64, i64)>, anchor: u32, base: i64) -> (r: Vec<Interval>)
    requires
        ranges_near(m@),
        near(base as int),
    ensures
        r@ == gaps_of(m@, anchor, base as int, m@.len() as int),
{
    let mut r: Vec<Interval> = Vec::new();
    let mut cur: i64 = base;
    let mut i: usize = 0;
    while i < m.len()
        invariant
            i <= m@.len(),
            ranges_near(m@),
            near(cur as int),
            cur == if i == 0 {
                base
            } else {
                m@[i - 1].1
            },
            r@ == gaps_of(m@, anchor, base as int, i as int),
        decreases m@.len() - i,
    {
        let (s, e) = m[i];
        assert(near(m@[i as int].0 as int));
        if s > cur {
            r.push(make_interval(anchor, cur, s));
        }
        cur = e;
        i += 1;
    }
    r
}

fn least_offset(segs: &Vec<Seg>, anchor: u32) -> (r: i64)
    ensures
        r == base_offset(seg_models(segs@), anchor, segs@.len() as int),
        near(r as int),
{
    let ghost ms = seg_models(segs@);
    let mut r: i64 = 0;
    let mut i: usize = 0;
    while i < segs.len()
        invariant
            i <= segs@.len(),
            ms == seg_models(segs@),
            -0x8000_0000 <= r <= 0,
            r == base_offset(ms, anchor, i as int),
        decreases segs@.len() - i,
    {
        assert(ms[i as int] == segs@[i as int]@);
        let off: i64 = seq_offset(segs[i].seq, anchor);
        if off < r {
            r = off;
        }
        i += 1;
    }
    r
}

/// Reassembles one direction from its data segments, in order of arrival.
/// Gives the result, the reassembled bytes, and the overlap events.
fn analyze_direction(
    session: usize,
    generation: u32,
    dir: usize,
    isn: Option<u32>,
    segs: &Vec<Seg>,
    policy: OverlapPolicy,
) -> (r: (DirectionResult, Vec<u8>, Vec<SessionEvent>))
    requires
        segs_ok(seg_models(segs@)),
    ensures
        ({
            let m = direction_of(isn, seg_models(segs@), policy);
            &&& r.0.says(m, Seq::empty())
            &&& r.1@ == m.payload
            &&& events_say(
                r.2@,
                session as int,
                generation,
                overlap_events(dir as int, m.overlaps),
            )
        }),
{
    let ghost ms = seg_models(segs@);
    let first: Option<u32> = match isn {
        Some(i) => Some(seq_of(i, 1)),
        None => if segs.len() > 0 {
            assert(ms[0] == segs@[0]@);
            Some(segs[0].seq)
        } else {
            None
        },
    };
    assert(first == anchor_of(isn, ms));
    let mut work = DirWork::new(Ghost(session as int), Ghost(generation), Ghost(dir as int));
    let mut base: i64 = 0;
    let anchor: u32 = match first {
        Some(a) => a,
        None => 0,
    };
    let ghost mut d = dir_start();
    if first.is_some() {
        base = least_offset(segs, anchor);
        let mut i: usize = 0;
        while i < segs.len()
            invariant
                i <= segs@.len(),
                ms == seg_models(segs@),
                segs_ok(ms),
                d == dir_run(ms, anchor, policy, i as int),
                work.is(d, session as int, generation, dir as int),
            decreases segs@.len() - i,
        {
            assert(ms[i as int] == segs@[i as int]@);
            assert(ms[i as int].payload.len() <= 0xffff_ffff);
            work.add(&segs[i], anchor, policy, session, generation, dir, Ghost(d));
            proof {
                d = dir_run(ms, anchor, policy, i + 1);
            }
            i += 1;
        }
    }
    let m = merge(&work.cov);
    let reassembled = gather(&work.parts, Ghost(d.cov), Ghost(d.bytes));
    let spans = intervals(&m, anchor);
    let missing = gaps(&m, anchor, base);
    let digest = sha256_hex(&reassembled);
    proof {
        reveal_strlit("");
    }
    (
        DirectionResult {
            isn,
            anchor_seq: first,
            byte_count: reassembled.len() as u64,
            payload_sha256: digest,
            payload_file: String::new(),
            intervals: spans,
            gaps: missing,
            retransmissions: work.retransmissions,
            out_of_order: work.out_of_order,
            overlaps: work.overlaps,
            segments: work.segments,
        },
        reassembled,
        work.events,
    )
}

#[derive(Clone, Debug)]
pub struct SessionResult {
    pub id: usize,
    pub endpoint_a: String,
    pub endpoint_b: String,
    pub generation: u32,
    pub partial: bool,
    pub close_reason: String,
    pub first_ts_ns: u64,
    pub last_ts_ns: u64,
    pub frames: Vec<u64>,
    pub directions: Vec<DirectionResult>,
}

struct Side {
    isn: Option<u32>,
    fin: bool,
    segs: Vec<Seg>,
}

/// What one direction of a generation has shown so far.
pub struct SideModel {
    pub isn: Option<u32>,
    pub fin: bool,
    pub segs: Seq<SegModel>,
}

impl View for Side {
    type V = SideModel;

    closed spec fn view(&self) -> SideModel {
        SideModel { isn: self.isn, fin: self.fin, segs: seg_models(self.segs@) }
    }
}

struct Note {
    frame: Option<u64>,
    detail: EventDetail,
}

spec fn notes_say(v: Seq<Note>, m: Seq<EventModel>) -> bool {
    &&& v.len() == m.len()
    &&& forall|i: int|
        0 <= i < v.len() ==> (#[trigger] v[i]).frame == m[i].frame && v[i].detail.says(m[i].detail)
}

struct Generation {
    id: u32,
    key: TupleKey,
    partial: bool,
    a: Side,
    b: Side,
    first_ts: u64,
    last_ts: u64,
    frames: Vec<u64>,
    notes: Vec<Note>,
    said: Ghost<Seq<EventModel>>,
}

/// An open generation of a four-tuple.
pub struct GenModel {
    pub id: u32,
    pub key: TupleKey,
    pub partial: bool,
    pub a: SideModel,
    pub b: SideModel,
    pub first_ts: u64,
    pub last_ts: u64,
    pub frames: Seq<u64>,
    pub events: Seq<EventModel>,
}

impl View for Generation {
    type V = GenModel;

    closed spec fn view(&self) -> GenModel {
        GenModel {
            id: self.id,
            key: self.key,
            partial: self.partial,
            a: self.a@,
            b: self.b@,
            first_ts: self.first_ts,
            last_ts: self.last_ts,
            frames: self.frames@,
            events: self.said@,
        }
    }
}

impl Generation {
    spec fn wf(&self) -> bool {
        notes_say(self.notes@, self.said@)
    }
}

struct Tracker {
    current: Option<Generation>,
    /// The most recently closed generation, as an index into the finished ones.
    last_closed: Option<usize>,
    next_gen: u32,
}

/// What is known of a four-tuple.
pub struct TrackerModel {
    pub current: Option<GenModel>,
    pub last_closed: Option<int>,
    pub next_gen: u32,
}

impl View for Tracker {
    type V = TrackerModel;

    closed spec fn view(&self) -> TrackerModel {
        TrackerModel {
            current: match self.current {
                Some(g) => Some(g@),
                None => None,
            },
            last_closed: match self.last_closed {
                Some(i) => Some(i as int),
                None => None,
            },
            next_gen: self.next_gen,
        }
    }
}

impl Tracker {
    spec fn wf(&self) -> bool {
        self.current matches Some(g) ==> g.wf()
    }
}

/// A four-tuple of which nothing is known.
pub open spec fn fresh_tracker() -> TrackerModel {
    TrackerModel { current: None, last_closed: None, next_gen: 0 }
}

pub struct FinishedSession {
    pub result: SessionResult,
    pub events: Vec<SessionEvent>,
    /// Reassembled payload per direction.
    pub payloads: [Vec<u8>; 2],
}

/// A closed generation.
pub struct DoneModel {
    pub key: TupleKey,
    pub generation: u32,
    pub partial: bool,
    pub close_reason: Seq<char>,
    pub first_ts: u64,
    pub last_ts: u64,
    pub frames: Seq<u64>,
    pub a: DirModel,
    pub b: DirModel,
    pub events: Seq<EventModel>,
}

/// The name of the payload file of a direction of a session.
pub open spec fn payload_name(session: int, dir: int) -> Seq<char> {
    "payload_s"@ + dec(session as nat) + "_d"@ + dec(dir as nat) + ".bin"@
}

impl FinishedSession {
    /// The finished session says what the model says.
    pub open spec fn says(self, id: int, m: DoneModel) -> bool {
        &&& self.result.id == id
        &&& self.result.endpoint_a@ == m.key.a.text()
        &&& self.result.endpoint_b@ == m.key.b.text()
        &&& self.result.generation == m.generation
        &&& self.result.partial == m.partial
        &&& self.result.close_reason@ == m.close_reason
        &&& self.result.first_ts_ns == m.first_ts
        &&& self.result.last_ts_ns == m.last_ts
        &&& self.result.frames@ == m.frames
        &&& self.result.directions@.len() == 2
        &&& self.result.directions@[0].says(m.a, payload_name(id, 0))
        &&& self.result.directions@[1].says(m.b, payload_name(id, 1))
        &&& events_say(self.events@, id, m.generation, m.events)
        &&& self.payloads@[0]@ == m.a.payload
        &&& self.payloads@[1]@ == m.b.payload
    }
}

/// The finished sessions say what the models say, one by one.
pub open spec fn sessions_say(v: Seq<FinishedSession>, m: Seq<DoneModel>) -> bool {
    &&& v.len() == m.len()
    &&& forall|i: int| 0 <= i < v.len() ==> (#[trigger] v[i]).says(i, m[i])
}

/// The state of a session engine.
pub struct EngineState {
    pub trackers: Map<TupleKey, TrackerModel>,
    pub done: Seq<DoneModel>,
}

/// Segments short enough for the 32-bit sequence space.
pub open spec fn short_segs(segs: Seq<SegModel>) -> bool {
    forall|i: int| 0 <= i < segs.len() ==> (#[trigger] segs[i]).payload.len() <= 0xffff_ffff
}

impl EngineState {
    /// Open generations hold short segments, and closed ones exist.
    pub open spec fn wf(self) -> bool {
        forall|k: TupleKey| #[trigger]
            self.trackers.contains_key(k) ==> {
                &&& self.trackers[k].last_closed matches Some(i) ==> 0 <= i < self.done.len()
                &&& self.trackers[k].current matches Some(g) ==> short_segs(g.a.segs) && short_segs(
                    g.b.segs,
                )
            }
    }

    /// What is known of a four-tuple.
    pub open spec fn tracker(self, key: TupleKey) -> TrackerModel {
        if self.trackers.contains_key(key) {
            self.trackers[key]
        } else {
            fresh_tracker()
        }
    }
}

/// The report on a generation that closes.
pub open spec fn report(g: GenModel, reason: Seq<char>, ts: u64, policy: OverlapPolicy) -> DoneModel {
    let a = direction_of(g.a.isn, g.a.segs, policy);
    let b = direction_of(g.b.isn, g.b.segs, policy);
    DoneModel {
        key: g.key,
        generation: g.id,
        partial: g.partial,
        close_reason: reason,
        first_ts: g.first_ts,
        last_ts: if ts > g.last_ts {
            ts
        } else {
            g.last_ts
        },
        frames: g.frames,
        a,
        b,
        events: g.events.push(
            EventModel { frame: None, detail: DetailModel::Closed { reason } },
        ) + overlap_events(0, a.overlaps) + overlap_events(1, b.overlaps),
    }
}

/// The state after the current generation of a four-tuple, if any, closed.
pub open spec fn closed(s: EngineState, key: TupleKey, reason: Seq<char>, ts: u64, policy: OverlapPolicy) -> EngineState {
    match s.tracker(key).current {
        None => s,
        Some(g) => EngineState {
            trackers: s.trackers.insert(
                key,
                TrackerModel {
                    current: None,
                    last_closed: Some(s.done.len() as int),
                    next_gen: s.tracker(key).next_gen,
                },
            ),
            done: s.done.push(report(g, reason, ts, policy)),
        },
    }
}

/// A generation that opens.
pub open spec fn opened(id: u32, key: TupleKey, partial: bool, ts: u64) -> GenModel {
    let side = SideModel { isn: None, fin: false, segs: seq![] };
    GenModel {
        id,
        key,
        partial,
        a: side,
        b: side,
        first_ts: ts,
        last_ts: ts,
        frames: seq![],
        events: seq![EventModel { frame: None, detail: DetailModel::Opened { partial } }],
    }
}

impl GenModel {
    pub open spec fn side(self, dir: int) -> SideModel {
        if dir == 0 {
            self.a
        } else {
            self.b
        }
    }

    pub open spec fn with_side(self, dir: int, side: SideModel) -> GenModel {
        if dir == 0 {
            GenModel { a: side, ..self }
        } else {
            GenModel { b: side, ..self }
        }
    }
}

pub open spec fn has_syn(seg: SegmentModel) -> bool {
    seg.flags & TCP_SYN != 0
}

/// A SYN that opens a connection.
pub open spec fn syn_only(seg: SegmentModel) -> bool {
    has_syn(seg) && seg.flags & TCP_ACK == 0
}

pub open spec fn has_rst(seg: SegmentModel) -> bool {
    seg.flags & TCP_RST != 0
}

/// What one direction shows after a segment.
pub open spec fn side_after(side: SideModel, seg: SegmentModel, ts: u64, frame: u64) -> SideModel {
    SideModel {
        isn: if has_syn(seg) && side.isn is None {
            Some(seg.seq)
        } else {
            side.isn
        },
        fin: side.fin || seg.flags & TCP_FIN != 0,
        segs: if seg.payload.len() > 0 {
            side.segs.push(
                SegModel { seq: seg.seq, frame, ts_ns: ts, payload: seg.payload },
            )
        } else {
            side.segs
        },
    }
}

/// A generation after a segment of it.
pub open spec fn gen_after(g: GenModel, dir: int, seg: SegmentModel, ts: u64, frame: u64) -> GenModel {
    GenModel {
        last_ts: ts,
        frames: g.frames.push(frame),
        ..g.with_side(dir, side_after(g.side(dir), seg, ts, frame))
    }
}

/// The state with a new current generation of a four-tuple.
pub open spec fn opening(s: EngineState, key: TupleKey, dir: int, seg: SegmentModel, ts: u64) -> EngineState {
    let t = s.tracker(key);
    let g = opened(t.next_gen, key, !syn_only(seg), ts);
    let g = if syn_only(seg) {
        g.with_side(dir, SideModel { isn: Some(seg.seq), ..g.side(dir) })
    } else {
        g
    };
    EngineState {
        trackers: s.trackers.insert(
            key,
            TrackerModel {
                current: Some(g),
                next_gen: (t.next_gen + 1) as u32,
                last_closed: t.last_closed,
            },
        ),
        done: s.done,
    }
}

/// The state after a segment joined the current generation.
pub open spec fn joined(
    s: EngineState,
    key: TupleKey,
    dir: int,
    seg: SegmentModel,
    ts: u64,
    frame: u64,
    policy: OverlapPolicy,
) -> EngineState {
    let t = s.tracker(key);
    let g = gen_after(t.current->0, dir, seg, ts, frame);
    let after = EngineState {
        trackers: s.trackers.insert(key, TrackerModel { current: Some(g), ..t }),
        done: s.done,
    };
    if has_rst(seg) {
        closed(after, key, "rst"@, ts, policy)
    } else if g.a.fin && g.b.fin {
        closed(after, key, "fin"@, ts, policy)
    } else {
        after
    }
}

/// A reset right after its connection was closed by FINs, which is noted with
/// the closed generation.
pub open spec fn late_rst(s: EngineState, key: TupleKey, seg: SegmentModel, ts: u64, timeout: u64) -> bool {
    &&& has_rst(seg)
    &&& !has_syn(seg)
    &&& seg.payload.len() == 0
    &&& s.tracker(key).last_closed is Some
    &&& ({
        let d = s.done[s.tracker(key).last_closed->0];
        d.close_reason == "fin"@ && ts - d.last_ts <= timeout
    })
}

/// What a segment does to the state of an engine.
pub open spec fn processed(
    s0: EngineState,
    cfg: SessionConfig,
    src: Endpoint,
    dst: Endpoint,
    seg: SegmentModel,
    ts: u64,
    frame: u64,
) -> EngineState {
    let (key, dir) = normalized(src, dst);
    let idle = s0.tracker(key).current matches Some(g) && ts - g.last_ts > cfg.timeout_ns;
    let s = if idle {
        closed(s0, key, "timeout"@, ts, cfg.overlap)
    } else {
        s0
    };
    let t = s.tracker(key);
    match t.current {
        None => if late_rst(s, key, seg, ts, cfg.timeout_ns) {
            let i = t.last_closed->0;
            let d = s.done[i];
            EngineState {
                trackers: s.trackers.insert(key, t),
                done: s.done.update(
                    i,
                    DoneModel {
                        events: d.events.push(
                            EventModel { frame: Some(frame), detail: DetailModel::RstAfterClose },
                        ),
                        ..d
                    },
                ),
            }
        } else {
            joined(opening(s, key, dir, seg, ts), key, dir, seg, ts, frame, cfg.overlap)
        },
        Some(g) => if syn_only(seg) {
            if !g.partial && g.side(dir).isn == Some(seg.seq) {
                EngineState {
                    trackers: s.trackers.insert(
                        key,
                        TrackerModel {
                            current: Some(
                                GenModel {
                                    last_ts: ts,
                                    events: g.events.push(
                                        EventModel {
                                            frame: Some(frame),
                                            detail: DetailModel::SynRetransmission {
                                                direction: dir,
                                                seq: seg.seq,
                                            },
                                        },
                                    ),
                                    ..g
                                },
                            ),
                            ..t
                        },
                    ),
                    done: s.done,
                }
            } else {
                let c = closed(s, key, "superseded-by-syn"@, ts, cfg.overlap);
                joined(opening(c, key, dir, seg, ts), key, dir, seg, ts, frame, cfg.overlap)
            }
        } else {
            joined(s, key, dir, seg, ts, frame, cfg.overlap)
        },
    }
}

/// Keys in strictly increasing order.
pub open spec fn keys_sorted(ks: Seq<TupleKey>) -> bool {
    forall|i: int, j: int|
        0 <= i < j < ks.len() ==> key_before(#[trigger] ks[i], #[trigger] ks[j])
}

/// The state after the first `n` of the keys were closed at the end of the
/// capture.
pub open spec fn all_closed(s: EngineState, ks: Seq<TupleKey>, n: int, policy: OverlapPolicy) -> EngineState
    decreases n,
{
    if n <= 0 {
        s
    } else {
        closed(all_closed(s, ks, n - 1, policy), ks[n - 1], "end-of-capture"@, 0, policy)
    }
}

fn copy_detail(d: &EventDetail, Ghost(m): Ghost<DetailModel>) -> (r: EventDetail)
    requires
        d.says(m),
    ensures
        r.says(m),
{
    match d {
        EventDetail::Opened { partial } => EventDetail::Opened { partial: *partial },
        EventDetail::Closed { reason } => EventDetail::Closed { reason: reason.clone() },
        EventDetail::SynRetransmission { direction, seq } => EventDetail::SynRetransmission {
            direction: *direction,
            seq: *seq,
        },
        EventDetail::RstAfterClose { note } => EventDetail::RstAfterClose { note: note.clone() },
        EventDetail::Overlap {
            direction,
            offset,
            start_seq,
            len,
            kept_frame,
            dropped_frame,
            policy,
            dropped_bytes_hex,
        } => EventDetail::Overlap {
            direction: *direction,
            offset: *offset,
            start_seq: *start_seq,
            len: *len,
            kept_frame: *kept_frame,
            dropped_frame: *dropped_frame,
            policy: policy.clone(),
            dropped_bytes_hex: dropped_bytes_hex.clone(),
        },
    }
}

fn event_of(session: usize, generation: u32, frame: Option<u64>, detail: EventDetail, Ghost(m): Ghost<
    DetailModel,
>) -> (r: SessionEvent)
    requires
        detail.says(m),
    ensures
        r.says(session as int, generation, EventModel { frame, detail: m }),
{
    let kind = match &detail {
        EventDetail::Opened { .. } => "generation",
        EventDetail::Closed { .. } => "generation",
        EventDetail::SynRetransmission { .. } => "syn-retransmission",
        EventDetail::RstAfterClose { .. } => "rst-after-close",
        EventDetail::Overlap { .. } => "overlap",
    };
    SessionEvent { session, generation, kind: kind.to_string(), frame, detail }
}

fn events_of_notes(
    notes: &Vec<Note>,
    session: usize,
    generation: u32,
    Ghost(m): Ghost<Seq<EventModel>>,
) -> (r: Vec<SessionEvent>)
    requires
        notes_say(notes@, m),
    ensures
        events_say(r@, session as int, generation, m),
{
    let mut r: Vec<SessionEvent> = Vec::new();
    let mut i: usize = 0;
    while i < notes.len()
        invariant
            i <= notes@.len(),
            notes_say(notes@, m),
            r@.len() == i,
            forall|k: int|
                0 <= k < i ==> (#[trigger] r@[k]).says(session as int, generation, m[k]),
        decreases notes@.len() - i,
    {
        assert(notes@[i as int].detail.says(m[i as int].detail));
        let detail = copy_detail(&notes[i].detail, Ghost(m[i as int].detail));
        let e = event_of(
            session,
            generation,
            notes[i].frame,
            detail,
            Ghost(m[i as int].detail),
        );
        r.push(e);
        i += 1;
    }
    r
}

proof fn lemma_events_join(
    v: Seq<SessionEvent>,
    w: Seq<SessionEvent>,
    session: int,
    generation: u32,
    m: Seq<EventModel>,
    n: Seq<EventModel>,
)
    requires
        events_say(v, session, generation, m),
        events_say(w, session, generation, n),
    ensures
        events_say(v + w, session, generation, m + n),
{
    let r = v + w;
    assert forall|i: int| 0 <= i < r.len() implies (#[trigger] r[i]).says(
        session,
        generation,
        (m + n)[i],
    ) by {
        if i < v.len() {
            assert(v[i].says(session, generation, m[i]));
        } else {
            assert(w[i - v.len()].says(session, generation, n[i - v.len()]));
        }
    }
}

proof fn lemma_notes_push(v: Seq<Note>, m: Seq<EventModel>, e: Note, x: EventModel)
    requires
        notes_say(v, m),
        e.frame == x.frame,
        e.detail.says(x.detail),
    ensures
        notes_say(v.push(e), m.push(x)),
{
    let w = v.push(e);
    assert forall|i: int| 0 <= i < w.len() implies (#[trigger] w[i]).frame == m.push(x)[i].frame
        && w[i].detail.says(m.push(x)[i].detail) by {
        if i < v.len() {
            assert(v[i].frame == m[i].frame);
        }
    }
}

fn payload_file(session: usize, dir: usize) -> (s: String)
    ensures
        s@ == payload_name(session as int, dir as int),
{
    let mut s = "payload_s".to_string();
    push_dec(&mut s, session as u64);
    push_text(&mut s, "_d");
    push_dec(&mut s, dir as u64);
    push_text(&mut s, ".bin");
    s
}

impl Generation {
    fn new(id: u32, key: TupleKey, partial: bool, ts: u64) -> (g: Self)
        ensures
            g.wf(),
            g@ == opened(id, key, partial, ts),
    {
        let ghost m = EventModel { frame: None, detail: DetailModel::Opened { partial } };
        let mut notes: Vec<Note> = Vec::new();
        let note = Note { frame: None, detail: EventDetail::Opened { partial } };
        proof {
            lemma_notes_push(notes@, Seq::empty(), note, m);
        }
        notes.push(note);
        let g = Generation {
            id,
            key,
            partial,
            a: Side { isn: None, fin: false, segs: Vec::new() },
            b: Side { isn: None, fin: false, segs: Vec::new() },
            first_ts: ts,
            last_ts: ts,
            frames: Vec::new(),
            notes,
            said: Ghost(Seq::empty().push(m)),
        };
        proof {
            assert(g.a@.segs =~= seq![]);
            assert(g.b@.segs =~= seq![]);
            assert(g@.events =~= opened(id, key, partial, ts).events);
            assert(g@.frames =~= seq![]);
        }
        g
    }

    fn note(&mut self, frame: Option<u64>, detail: EventDetail, Ghost(m): Ghost<DetailModel>)
        requires
            old(self).wf(),
            detail.says(m),
        ensures
            final(self).wf(),
            final(self)@ == (GenModel {
                events: old(self)@.events.push(EventModel { frame, detail: m }),
                ..old(self)@
            }),
    {
        let n = Note { frame, detail };
        proof {
            lemma_notes_push(self.notes@, self.said@, n, EventModel { frame, detail: m });
        }
        self.notes.push(n);
        self.said = Ghost(self.said@.push(EventModel { frame, detail: m }));
    }
}

impl Side {
    fn take_in(&mut self, seg: &TcpSegment<'_>, ts_ns: u64, frame: u64)
        ensures
            final(self)@ == side_after(old(self)@, seg@, ts_ns, frame),
    {
        let ghost segs0 = self.segs@;
        if seg.flags & TCP_SYN != 0 && self.isn.is_none() {
            self.isn = Some(seg.seq);
        }
        if seg.payload.len() > 0 {
            let s = Seg {
                seq: seg.seq,
                frame,
                ts_ns,
                payload: copy_range(seg.payload, 0, seg.payload.len()),
            };
            assert(s@.payload =~= seg.payload@);
            let ghost sm = s@;
            self.segs.push(s);
            assert(seg_models(self.segs@) =~= seg_models(segs0).push(sm));
        }
        if seg.flags & TCP_FIN != 0 {
            self.fin = true;
        }
    }
}

pub struct SessionEngine {
    cfg: SessionConfig,
    trackers: Table<TupleKey, Tracker>,
    done: Vec<FinishedSession>,
    said: Ghost<Seq<DoneModel>>,
}

impl View for SessionEngine {
    type V = EngineState;

    closed spec fn view(&self) -> EngineState {
        EngineState {
            trackers: self.trackers@.map_values(|t: Tracker| t@),
            done: self.said@,
        }
    }
}

spec fn trackers_wf(m: Map<TupleKey, Tracker>) -> bool {
    forall|k: TupleKey| #[trigger] m.contains_key(k) ==> m[k].wf()
}

impl SessionEngine {
    /// The configuration in force.
    pub closed spec fn config(&self) -> SessionConfig {
        self.cfg
    }

    /// The state is well-formed and the finished sessions say what it says.
    pub closed spec fn wf(&self) -> bool {
        &&& self@.wf()
        &&& trackers_wf(self.trackers@)
        &&& sessions_say(self.done@, self.said@)
    }

    pub fn new(cfg: SessionConfig) -> (r: Self)
        ensures
            r.wf(),
            r.config() == cfg,
            r@.trackers == Map::<TupleKey, TrackerModel>::empty(),
            r@.done == Seq::<DoneModel>::empty(),
    {
        let r = SessionEngine {
            cfg,
            trackers: Table::new(),
            done: Vec::new(),
            said: Ghost(Seq::empty()),
        };
        assert(r@.trackers =~= Map::<TupleKey, TrackerModel>::empty());
        r
    }

    fn take_tracker(&mut self, key: &TupleKey) -> (t: Tracker)
        requires
            old(self).wf(),
        ensures
            final(self).cfg == old(self).cfg,
            final(self).done == old(self).done,
            final(self).said == old(self).said,
            final(self).trackers@ == old(self).trackers@.remove(*key),
            trackers_wf(final(self).trackers@),
            final(self)@.trackers == old(self)@.trackers.remove(*key),
            t.wf(),
            t@ == old(self)@.tracker(*key),
    {
        let r = self.trackers.remove(key);
        assert(self@.trackers =~= old(self)@.trackers.remove(*key));
        match r {
            Some(t) => t,
            None => Tracker { current: None, last_closed: None, next_gen: 0 },
        }
    }

    fn put_tracker(&mut self, key: TupleKey, t: Tracker, Ghost(s): Ghost<EngineState>)
        requires
            trackers_wf(old(self).trackers@),
            old(self)@.trackers == s.trackers.remove(key),
            t.wf(),
        ensures
            final(self).cfg == old(self).cfg,
            final(self).done == old(self).done,
            final(self).said == old(self).said,
            trackers_wf(final(self).trackers@),
            final(self)@.trackers == s.trackers.insert(key, t@),
    {
        let ghost tm = t@;
        self.trackers.insert(key, t);
        proof {
            let a = self@.trackers;
            let b = s.trackers.insert(key, tm);
            let c = old(self)@.trackers;
            assert forall|k: TupleKey| a.contains_key(k) <==> b.contains_key(k) by {
                assert(c.contains_key(k) <==> s.trackers.remove(key).contains_key(k));
            }
            assert forall|k: TupleKey| a.contains_key(k) implies a[k] == b[k] by {
                if k != key {
                    assert(c.contains_key(k));
                    assert(c[k] == s.trackers.remove(key)[k]);
                }
            }
            assert(a =~= b);
        }
    }

    fn close_generation(&mut self, key: &TupleKey, reason: &str, ts: u64)
        requires
            old(self).wf(),
        ensures
            final(self).wf(),
            final(self).config() == old(self).config(),
            final(self)@ == closed(old(self)@, *key, reason@, ts, old(self).config().overlap),
    {
        let ghost s = self@;
        if !self.trackers.contains(key) {
            return;
        }
        let tr = self.take_tracker(key);
        assert(s.trackers.contains_key(*key));
        let ghost tm = tr@;
        match tr.current {
            None => {
                let back = Tracker {
                    current: None,
                    last_closed: tr.last_closed,
                    next_gen: tr.next_gen,
                };
                assert(back@ == tm);
                self.put_tracker(*key, back, Ghost(s));
                assert(self@.trackers =~= s.trackers);
            },
            Some(g) => {
                let mut gen = g;
                let ghost gm = gen@;
                assert(short_segs(gm.a.segs) && short_segs(gm.b.segs));
                let policy = self.cfg.overlap;
                let last_ts: u64 = if ts > gen.last_ts {
                    ts
                } else {
                    gen.last_ts
                };
                let ghost why = DetailModel::Closed { reason: reason@ };
                gen.note(None, EventDetail::Closed { reason: reason.to_string() }, Ghost(why));
                let session_id: usize = self.done.len();
                let ghost said = gen.said@;
                let mut events = events_of_notes(&gen.notes, session_id, gen.id, Ghost(said));
                let (mut res_a, bytes_a, mut ev_a) = analyze_direction(
                    session_id,
                    gen.id,
                    0,
                    gen.a.isn,
                    &gen.a.segs,
                    policy,
                );
                let (mut res_b, bytes_b, mut ev_b) = analyze_direction(
                    session_id,
                    gen.id,
                    1,
                    gen.b.isn,
                    &gen.b.segs,
                    policy,
                );
                res_a.payload_file = payload_file(session_id, 0);
                res_b.payload_file = payload_file(session_id, 1);
                let ghost rep = report(gm, reason@, ts, policy);
                proof {
                    lemma_events_join(
                        events@,
                        ev_a@,
                        session_id as int,
                        gen.id,
                        said,
                        overlap_events(0, rep.a.overlaps),
                    );
                    lemma_events_join(
                        events@ + ev_a@,
                        ev_b@,
                        session_id as int,
                        gen.id,
                        said + overlap_events(0, rep.a.overlaps),
                        overlap_events(1, rep.b.overlaps),
                    );
                }
                events.append(&mut ev_a);
                events.append(&mut ev_b);
                let mut directions: Vec<DirectionResult> = Vec::new();
                directions.push(res_a);
                directions.push(res_b);
                let result = SessionResult {
                    id: session_id,
                    endpoint_a: gen.key.a.label(),
                    endpoint_b: gen.key.b.label(),
                    generation: gen.id,
                    partial: gen.partial,
                    close_reason: reason.to_string(),
                    first_ts_ns: gen.first_ts,
                    last_ts_ns: last_ts,
                    frames: gen.frames,
                    directions,
                };
                let fin = FinishedSession { result, events, payloads: [bytes_a, bytes_b] };
                assert(fin.says(session_id as int, rep));
                let ghost done0 = self.done@;
                self.done.push(fin);
                self.said = Ghost(self.said@.push(rep));
                proof {
                    assert forall|i: int| 0 <= i < self.done@.len() implies (
                    #[trigger] self.done@[i]).says(i, self.said@[i]) by {
                        if i < done0.len() {
                            assert(done0[i].says(i, s.done[i]));
                        }
                    }
                }
                let back = Tracker {
                    current: None,
                    last_closed: Some(session_id),
                    next_gen: tr.next_gen,
                };
                self.put_tracker(*key, back, Ghost(s));
                proof {
                    let e = closed(s, *key, reason@, ts, policy);
                    assert(self@ == e);
                    assert(e.wf());
                }
            },
        }
    }
}

impl SessionEngine {
    fn open_generation(&mut self, key: TupleKey, dir: usize, seg: &TcpSegment<'_>, ts_ns: u64)
        requires
            old(self).wf(),
            old(self)@.tracker(key).next_gen < u32::MAX,
            dir < 2,
        ensures
            final(self).wf(),
            final(self).config() == old(self).config(),
            final(self)@ == opening(old(self)@, key, dir as int, seg@, ts_ns),
    {
        let ghost s = self@;
        let is_syn = seg.flags & TCP_SYN != 0 && seg.flags & TCP_ACK == 0;
        let tr = self.take_tracker(&key);
        let mut gen = Generation::new(tr.next_gen, key, !is_syn, ts_ns);
        if is_syn {
            if dir == 0 {
                gen.a.isn = Some(seg.seq);
            } else {
                gen.b.isn = Some(seg.seq);
            }
        }
        let back = Tracker {
            current: Some(gen),
            last_closed: tr.last_closed,
            next_gen: tr.next_gen + 1,
        };
        self.put_tracker(key, back, Ghost(s));
        proof {
            let e = opening(s, key, dir as int, seg@, ts_ns);
            assert(self@.trackers =~= e.trackers);
            assert(e.wf());
        }
    }

    /// Adds a segment to the current generation, and closes it on a reset or
    /// when both directions have ended.
    fn join_generation(&mut self, key: TupleKey, dir: usize, seg: &TcpSegment<'_>, ts_ns: u64, frame: u64)
        requires
            old(self).wf(),
            old(self)@.tracker(key).current is Some,
            seg.payload@.len() <= 0xffff_ffff,
            dir < 2,
        ensures
            final(self).wf(),
            final(self).config() == old(self).config(),
            final(self)@ == joined(
                old(self)@,
                key,
                dir as int,
                seg@,
                ts_ns,
                frame,
                old(self).config().overlap,
            ),
    {
        let ghost s = self@;
        let ghost gm = s.tracker(key).current->0;
        let tr = self.take_tracker(&key);
        let mut both_fin = false;
        if let Some(g) = tr.current {
            let mut gen = g;
            assert(gen@ == gm);
            assert(short_segs(gm.a.segs) && short_segs(gm.b.segs));
            if dir == 0 {
                gen.a.take_in(seg, ts_ns, frame);
            } else {
                gen.b.take_in(seg, ts_ns, frame);
            }
            gen.last_ts = ts_ns;
            gen.frames.push(frame);
            both_fin = gen.a.fin && gen.b.fin;
            let ghost after = gen_after(gm, dir as int, seg@, ts_ns, frame);
            assert(gen@ == after);
            proof {
                assert(short_segs(after.a.segs) && short_segs(after.b.segs));
            }
            let back = Tracker {
                current: Some(gen),
                last_closed: tr.last_closed,
                next_gen: tr.next_gen,
            };
            self.put_tracker(key, back, Ghost(s));
            proof {
                let e = EngineState {
                    trackers: s.trackers.insert(
                        key,
                        TrackerModel { current: Some(after), ..s.tracker(key) },
                    ),
                    done: s.done,
                };
                assert(self@.trackers =~= e.trackers);
                assert(self@ == e);
                assert(e.wf());
            }
        }
        if seg.flags & TCP_RST != 0 {
            self.close_generation(&key, "rst", ts_ns);
        } else if both_fin {
            self.close_generation(&key, "fin", ts_ns);
        }
    }

    /// Takes in one segment from `src` to `dst`.
    pub fn process(&mut self, src: Endpoint, dst: Endpoint, seg: &TcpSegment<'_>, ts_ns: u64, frame: u64)
        requires
            old(self).wf(),
            old(self)@.tracker(normalized(src, dst).0).next_gen < u32::MAX,
            seg.payload@.len() <= 0xffff_ffff,
        ensures
            final(self).wf(),
            final(self).config() == old(self).config(),
            final(self)@ == processed(
                old(self)@,
                old(self).config(),
                src,
                dst,
                seg@,
                ts_ns,
                frame,
            ),
    {
        let (key, dir) = TupleKey::new(src, dst);
        let timeout: u64 = self.cfg.timeout_ns;
        let ghost s0 = self@;
        let idle = match self.trackers.get(&key) {
            Some(t) => match &t.current {
                Some(g) => ts_ns > g.last_ts && ts_ns - g.last_ts > timeout,
                None => false,
            },
            None => false,
        };
        if idle {
            self.close_generation(&key, "timeout", ts_ns);
        }
        let ghost s = self@;
        let syn = seg.flags & TCP_SYN != 0;
        let opens = syn && seg.flags & TCP_ACK == 0;
        let rst = seg.flags & TCP_RST != 0;
        let tr = self.take_tracker(&key);
        let ghost t = tr@;
        match tr.current {
            None => {
                if rst && !syn && seg.payload.len() == 0 {
                    if let Some(idx) = tr.last_closed {
                        proof {
                            assert(s.trackers.contains_key(key));
                            assert(idx < s.done.len());
                            assert(self.done@[idx as int].says(idx as int, s.done[idx as int]));
                        }
                        let closed_ts: u64 = self.done[idx].result.last_ts_ns;
                        let by_fin = same(self.done[idx].result.close_reason.as_str(), "fin");
                        if by_fin && !(ts_ns > closed_ts && ts_ns - closed_ts > timeout) {
                            let generation: u32 = self.done[idx].result.generation;
                            let ghost em = EventModel {
                                frame: Some(frame),
                                detail: DetailModel::RstAfterClose,
                            };
                            let ev = event_of(
                                idx,
                                generation,
                                Some(frame),
                                EventDetail::RstAfterClose {
                                    note: "RST arrived after FIN-closed generation".to_string(),
                                },
                                Ghost(DetailModel::RstAfterClose),
                            );
                            let ghost done0 = self.done@;
                            let ghost d = s.done[idx as int];
                            proof {
                                lemma_events_push(
                                    done0[idx as int].events@,
                                    idx as int,
                                    generation,
                                    d.events,
                                    ev,
                                    em,
                                );
                            }
                            self.done[idx].events.push(ev);
                            let ghost d2 = DoneModel { events: d.events.push(em), ..d };
                            self.said = Ghost(self.said@.update(idx as int, d2));
                            proof {
                                assert forall|i: int| 0 <= i < self.done@.len() implies (
                                #[trigger] self.done@[i]).says(i, self.said@[i]) by {
                                    assert(done0[i].says(i, s.done[i]));
                                }
                            }
                            let back = Tracker {
                                current: None,
                                last_closed: tr.last_closed,
                                next_gen: tr.next_gen,
                            };
                            assert(back@ == t);
                            self.put_tracker(key, back, Ghost(s));
                            proof {
                                let e = processed(s0, self.cfg, src, dst, seg@, ts_ns, frame);
                                assert(self@.trackers =~= e.trackers);
                                assert(e.wf());
                            }
                            return;
                        }
                    }
                }
                let back = Tracker {
                    current: None,
                    last_closed: tr.last_closed,
                    next_gen: tr.next_gen,
                };
                assert(back@ == t);
                self.put_tracker(key, back, Ghost(s));
                let ghost s1 = self@;
                proof {
                    lemma_same_tracker(s, s1, key);
                    assert(s1.trackers.insert(key, t) =~= s1.trackers);
                }
                self.open_generation(key, dir, seg, ts_ns);
                proof {
                    assert(opening(s1, key, dir as int, seg@, ts_ns).trackers =~= opening(
                        s,
                        key,
                        dir as int,
                        seg@,
                        ts_ns,
                    ).trackers);
                }
            },
            Some(g) => {
                let mut gen = g;
                if opens {
                    let isn: Option<u32> = if dir == 0 {
                        gen.a.isn
                    } else {
                        gen.b.isn
                    };
                    let same_syn = !gen.partial && match isn {
                        Some(i) => i == seg.seq,
                        None => false,
                    };
                    if same_syn {
                        gen.last_ts = ts_ns;
                        gen.note(
                            Some(frame),
                            EventDetail::SynRetransmission { direction: dir, seq: seg.seq },
                            Ghost(
                                DetailModel::SynRetransmission { direction: dir as int, seq: seg.seq },
                            ),
                        );
                        let back = Tracker {
                            current: Some(gen),
                            last_closed: tr.last_closed,
                            next_gen: tr.next_gen,
                        };
                        self.put_tracker(key, back, Ghost(s));
                        proof {
                            let e = processed(s0, self.cfg, src, dst, seg@, ts_ns, frame);
                            assert(self@.trackers =~= e.trackers);
                            assert(e.wf());
                        }
                        return;
                    }
                }
                let back = Tracker {
                    current: Some(gen),
                    last_closed: tr.last_closed,
                    next_gen: tr.next_gen,
                };
                assert(back@ == t);
                self.put_tracker(key, back, Ghost(s));
                proof {
                    assert(self@.trackers =~= s.trackers);
                    assert(self@ == s);
                }
                if opens {
                    self.close_generation(&key, "superseded-by-syn", ts_ns);
                    self.open_generation(key, dir, seg, ts_ns);
                }
            },
        }
        self.join_generation(key, dir, seg, ts_ns, frame);
    }

    fn sorted_keys(&self) -> (r: Vec<TupleKey>)
        ensures
            keys_sorted(r@),
            r@.to_set() == self@.trackers.dom(),
    {
        let keys = self.trackers.keys();
        let mut r: Vec<TupleKey> = Vec::new();
        let mut i: usize = 0;
        while i < keys.len()
            invariant
                i <= keys@.len(),
                keys@.no_duplicates(),
                keys_sorted(r@),
                forall|k: TupleKey| #[trigger] r@.contains(k) <==> keys@.take(i as int).contains(k),
            decreases keys@.len() - i,
        {
            let k = keys[i];
            let mut p: usize = r.len();
            while p > 0 && k.precedes(&r[p - 1])
                invariant
                    p <= r@.len(),
                    forall|j: int| p <= j < r@.len() ==> key_before(k, #[trigger] r@[j]),
                decreases p,
            {
                p -= 1;
            }
            let ghost r0 = r@;
            proof {
                let t0 = keys@.take(i as int);
                if p > 0 {
                    let q = r0[p - 1];
                    assert(r0.contains(q));
                    assert(t0.contains(q));
                    let j = t0.index_of(q);
                    assert(keys@[j] != keys@[i as int]);
                    lemma_key_order(k, q);
                    assert(key_before(q, k));
                }
            }
            r.insert(p, k);
            proof {
                let t0 = keys@.take(i as int);
                let t1 = keys@.take(i + 1);
                assert(t1 =~= t0.push(k));
                assert forall|a: int, b: int| 0 <= a < b < r@.len() implies key_before(
                    #[trigger] r@[a],
                    #[trigger] r@[b],
                ) by {
                    if b < p {
                        assert(key_before(r0[a], r0[b]));
                    } else if b == p {
                        if a < p - 1 {
                            assert(key_before(r0[a], r0[p - 1]));
                        }
                    } else if a == p {
                        assert(key_before(k, r0[b - 1]));
                    } else if a < p {
                        assert(key_before(r0[a], r0[b - 1]));
                    } else {
                        assert(key_before(r0[a - 1], r0[b - 1]));
                    }
                }
                assert forall|q: TupleKey| #[trigger] r@.contains(q) <==> t1.contains(q) by {
                    if r0.contains(q) {
                        let a = r0.index_of(q);
                        if a < p {
                            assert(r@[a] == q);
                        } else {
                            assert(r@[a + 1] == q);
                        }
                    }
                    assert(r@[p as int] == k);
                    if t0.contains(q) {
                        assert(t1[t0.index_of(q)] == q);
                    }
                    assert(t1[i as int] == k);
                    if r@.contains(q) {
                        let a = r@.index_of(q);
                        if a < p {
                            assert(r0[a] == q);
                        } else if a > p {
                            assert(r0[a - 1] == q);
                        }
                    }
                    if t1.contains(q) {
                        let a = t1.index_of(q);
                        if a < i {
                            assert(t0[a] == q);
                        }
                    }
                }
            }
            i += 1;
        }
        proof {
            assert(keys@.take(i as int) =~= keys@);
            assert forall|k: TupleKey| r@.to_set().contains(k) <==> self@.trackers.dom().contains(k) by {
                assert(keys@.to_set().contains(k) <==> keys@.contains(k));
            }
            assert(r@.to_set() =~= self@.trackers.dom());
        }
        r
    }

    /// Closes what is still open, in the order of the keys, and gives up the
    /// finished sessions.
    pub fn finish(self) -> (r: Vec<FinishedSession>)
        requires
            self.wf(),
        ensures
            exists|ks: Seq<TupleKey>|
                keys_sorted(ks) && ks.to_set() == self@.trackers.dom() && sessions_say(
                    r@,
                    (#[trigger] all_closed(
                        self@,
                        ks,
                        ks.len() as int,
                        self.config().overlap,
                    )).done,
                ),
    {
        let ghost s = self@;
        let ghost policy = self.cfg.overlap;
        let mut engine = self;
        let keys = engine.sorted_keys();
        let mut i: usize = 0;
        while i < keys.len()
            invariant
                i <= keys@.len(),
                engine.wf(),
                engine.config().overlap == policy,
                engine@ == all_closed(s, keys@, i as int, policy),
            decreases keys@.len() - i,
        {
            let key = keys[i];
            engine.close_generation(&key, "end-of-capture", 0);
            i += 1;
        }
        engine.done
    }
}

proof fn lemma_same_tracker(s: EngineState, s1: EngineState, key: TupleKey)
    requires
        s1.trackers == s.trackers.insert(key, s.tracker(key)),
        s1.done == s.done,
        s.wf(),
    ensures
        s1.tracker(key) == s.tracker(key),
        s1.wf(),
{
}

proof fn lemma_key_order(x: TupleKey, y: TupleKey)
    requires
        x != y,
        !key_before(x, y),
    ensures
        key_before(y, x),
{
    if x.a.rank() == y.a.rank() {
        lemma_endpoint_rank(x.a, y.a);
        if x.b.rank() == y.b.rank() {
            lemma_endpoint_rank(x.b, y.b);
        }
    }
}

/// The segment carries offset `x`.
pub open spec fn carries(seg: SegModel, anchor: u32, x: int) -> bool {
    distance(seg.seq, anchor) <= x < distance(seg.seq, anchor) + seg.payload.len()
}

/// What a segment carries at offset `x`.
pub open spec fn carried_byte(seg: SegModel, anchor: u32, x: int) -> u8 {
    seg.payload[x - distance(seg.seq, anchor)]
}

/// First seen, an offset holds the byte of the first segment that carried it.
pub proof fn law_first_seen(segs: Seq<SegModel>, anchor: u32, n: int, i: int, x: int)
    requires
        0 <= i < n <= segs.len(),
        carries(segs[i], anchor, x),
        forall|j: int| 0 <= j < i ==> !carries(#[trigger] segs[j], anchor, x),
    ensures
        dir_run(segs, anchor, OverlapPolicy::FirstSeen, n).bytes.contains_key(x),
        dir_run(segs, anchor, OverlapPolicy::FirstSeen, n).bytes[x] == carried_byte(
            segs[i],
            anchor,
            x,
        ),
    decreases n,
{
    if n - 1 > i {
        law_first_seen(segs, anchor, n - 1, i, x);
    } else {
        lemma_uncarried(segs, anchor, OverlapPolicy::FirstSeen, n - 1, x);
    }
}

/// An offset that no segment carried is not held.
proof fn lemma_uncarried(segs: Seq<SegModel>, anchor: u32, policy: OverlapPolicy, n: int, x: int)
    requires
        0 <= n <= segs.len(),
        forall|j: int| 0 <= j < n ==> !carries(#[trigger] segs[j], anchor, x),
    ensures
        !dir_run(segs, anchor, policy, n).bytes.contains_key(x),
    decreases n,
{
    if n > 0 {
        lemma_uncarried(segs, anchor, policy, n - 1, x);
        assert(!carries(segs[n - 1], anchor, x));
    }
}

/// Last seen, an offset holds the byte of the last segment that carried it.
pub proof fn law_last_seen(segs: Seq<SegModel>, anchor: u32, n: int, i: int, x: int)
    requires
        0 <= i < n <= segs.len(),
        carries(segs[i], anchor, x),
        forall|j: int| i < j < n ==> !carries(#[trigger] segs[j], anchor, x),
    ensures
        dir_run(segs, anchor, OverlapPolicy::LastSeen, n).bytes.contains_key(x),
        dir_run(segs, anchor, OverlapPolicy::LastSeen, n).bytes[x] == carried_byte(
            segs[i],
            anchor,
            x,
        ),
    decreases n,
{
    if n - 1 > i {
        law_last_seen(segs, anchor, n - 1, i, x);
        assert(!carries(segs[n - 1], anchor, x));
    }
}

/// Both policies hold the same offsets.
pub proof fn law_policies_cover_alike(segs: Seq<SegModel>, anchor: u32, n: int, x: int)
    requires
        0 <= n <= segs.len(),
    ensures
        dir_run(segs, anchor, OverlapPolicy::FirstSeen, n).bytes.contains_key(x) == dir_run(
            segs,
            anchor,
            OverlapPolicy::LastSeen,
            n,
        ).bytes.contains_key(x),
    decreases n,
{
    if n > 0 {
        law_policies_cover_alike(segs, anchor, n - 1, x);
    }
}

proof fn lemma_overlap_total(cov: Seq<Cover>, off: int, end: int, n: int)
    requires
        cov_wf(cov),
        0 <= n <= cov.len(),
        off < end,
    ensures
        n == 0 ==> overlap_total(cov, off, end, n) == 0,
        n > 0 ==> ({
            let reach = lesser(end, cov[n - 1].1 as int);
            &&& 0 <= overlap_total(cov, off, end, n) <= greater(0, reach - off)
            &&& (reach > off && overlap_total(cov, off, end, n) == reach - off) <==> (reach > off
                && forall|x: int| off <= x < reach ==> #[trigger] covered(cov.take(n), x))
        }),
    decreases n,
{
    if n > 0 {
        lemma_overlap_total(cov, off, end, n - 1);
        let c = cov[n - 1];
        assert(c.0 < c.1);
        let reach = lesser(end, c.1 as int);
        let t0 = cov.take(n - 1);
        let t1 = cov.take(n);
        assert(t1[n - 1] == c);
        if n > 1 {
            assert(cov[n - 2].1 <= cov[n - 1].0);
        }
        let all = forall|x: int| off <= x < reach ==> #[trigger] covered(t1, x);
        if reach > off && overlap_total(cov, off, end, n) == reach - off {
            assert forall|x: int| off <= x < reach implies #[trigger] covered(t1, x) by {
                if c.0 <= x {
                    assert(t1[n - 1].0 <= x < t1[n - 1].1);
                } else {
                    assert(n > 1);
                    let r0 = lesser(end, cov[n - 2].1 as int);
                    assert(x < r0);
                    assert(covered(t0, x));
                    let i = choose|i: int| 0 <= i < t0.len() && (#[trigger] t0[i]).0 <= x < t0[i].1;
                    assert(t1[i] == t0[i]);
                }
            }
        }
        if reach > off && all {
            if c.0 > off {
                assert(covered(t1, off));
                let i = choose|i: int| 0 <= i < t1.len() && (#[trigger] t1[i]).0 <= off < t1[i].1;
                assert(n > 1);
                let r0 = lesser(end, cov[n - 2].1 as int);
                if cov[n - 2].1 < c.0 && cov[n - 2].1 < end {
                    let x = greater(off, cov[n - 2].1 as int);
                    assert(off <= x < reach || c.0 >= end);
                    if c.0 < end {
                        assert(covered(t1, x));
                        let j = choose|j: int| 0 <= j < t1.len() && (#[trigger] t1[j]).0 <= x < t1[j].1;
                        if j < n - 2 {
                            assert(cov[j].1 <= cov[n - 2].0);
                        }
                        assert(t1[j] == cov[j]);
                        assert(false);
                    } else {
                        assert(covered(t1, x));
                        let j = choose|j: int| 0 <= j < t1.len() && (#[trigger] t1[j]).0 <= x < t1[j].1;
                        assert(t1[j] == cov[j]);
                        if j < n - 2 {
                            assert(cov[j].1 <= cov[n - 2].0);
                        }
                        assert(false);
                    }
                }
                assert(r0 > off) by {
                    if i < n - 1 {
                        assert(t1[i] == cov[i]);
                        if i < n - 2 {
                            assert(cov[i].1 <= cov[n - 2].0);
                        }
                    }
                }
                assert forall|x: int| off <= x < r0 implies #[trigger] covered(t0, x) by {
                    assert(covered(t1, x));
                    let j = choose|j: int| 0 <= j < t1.len() && (#[trigger] t1[j]).0 <= x < t1[j].1;
                    assert(j < n - 1);
                    assert(t0[j] == t1[j]);
                }
            }
        }
    }
}

/// A data segment counts as a retransmission exactly where every byte of it
/// was held already.
pub proof fn law_retransmission(segs: Seq<SegModel>, anchor: u32, policy: OverlapPolicy, n: int)
    requires
        0 <= n < segs.len(),
        short_segs(segs),
        segs[n].payload.len() > 0,
    ensures
        ({
            let d = dir_run(segs, anchor, policy, n);
            let e = dir_run(segs, anchor, policy, n + 1);
            e.retransmissions.len() == d.retransmissions.len() + 1 <==> forall|x: int| #[trigger]
                carries(segs[n], anchor, x) ==> d.bytes.contains_key(x)
        }),
{
    let d = dir_run(segs, anchor, policy, n);
    let seg = segs[n];
    let off = distance(seg.seq, anchor);
    let end = off + seg.payload.len();
    let k = d.cov.len() as int;
    lemma_dir_run(segs, anchor, policy, n);
    lemma_overlap_total(d.cov, off, end, k);
    assert(d.cov.take(k) =~= d.cov);
    assert(dir_run(segs, anchor, policy, n + 1) == dir_step(d, anchor, policy, seg));
    let all = forall|x: int| #[trigger] carries(seg, anchor, x) ==> d.bytes.contains_key(x);
    if all {
        assert forall|x: int| off <= x < end implies #[trigger] covered(d.cov, x) by {
            assert(carries(seg, anchor, x));
            assert(d.bytes.contains_key(x));
        }
        assert(covered(d.cov, end - 1));
        let i = choose|i: int| 0 <= i < d.cov.len() && (#[trigger] d.cov[i]).0 <= end - 1 < d.cov[i].1;
        if i < k - 1 {
            assert(d.cov[i].1 <= d.cov[k - 1].0);
            assert(d.cov[k - 1].0 < d.cov[k - 1].1);
        }
        assert(lesser(end, d.cov[k - 1].1 as int) == end);
    }
    if overlap_total(d.cov, off, end, k) == end - off {
        assert(k > 0);
        assert(lesser(end, d.cov[k - 1].1 as int) == end);
        assert forall|x: int| #[trigger] carries(seg, anchor, x) implies d.bytes.contains_key(x) by {
            assert(covered(d.cov, x));
        }
    }
}

/// Joining adjacent ranges covers the same offsets.
pub proof fn law_merged_covers(cov: Seq<Cover>, n: int, x: int)
    requires
        cov_wf(cov),
        0 <= n <= cov.len(),
    ensures
        (exists|i: int|
            0 <= i < merged(cov, n).len() && (#[trigger] merged(cov, n)[i]).0 <= x < merged(cov, n)[i].1)
            <==> covered(cov.take(n), x),
        n > 0 ==> merged(cov, n).len() > 0 && merged(cov, n).last().1 == cov[n - 1].1 && merged(
            cov,
            n,
        ).last().0 <= cov[n - 1].0,
    decreases n,
{
    let m = merged(cov, n);
    let t = cov.take(n);
    if n > 0 {
        law_merged_covers(cov, n - 1, x);
        let m0 = merged(cov, n - 1);
        let t0 = cov.take(n - 1);
        let c = cov[n - 1];
        assert(c.0 < c.1);
        assert(t[n - 1] == c);
        if n > 1 {
            assert(cov[n - 2].0 < cov[n - 2].1);
            assert(cov[n - 2].1 <= cov[n - 1].0);
        }
        let l0 = m0.len() as int;
        if covered(t, x) {
            let i = choose|i: int| 0 <= i < t.len() && (#[trigger] t[i]).0 <= x < t[i].1;
            if i < n - 1 {
                assert(t0[i] == t[i]);
                let j = choose|j: int| 0 <= j < m0.len() && (#[trigger] m0[j]).0 <= x < m0[j].1;
                if j < l0 - 1 {
                    assert(m[j] == m0[j]);
                } else {
                    assert(m[j].0 <= x < m[j].1);
                }
            } else {
                assert(m[m.len() - 1].0 <= x < m[m.len() - 1].1);
            }
        }
        if exists|j: int| 0 <= j < m.len() && (#[trigger] m[j]).0 <= x < m[j].1 {
            let j = choose|j: int| 0 <= j < m.len() && (#[trigger] m[j]).0 <= x < m[j].1;
            if c.0 <= x < c.1 {
                assert(t[n - 1].0 <= x < t[n - 1].1);
            } else {
                if j < l0 {
                    assert(m0[j].0 <= x < m0[j].1);
                }
                assert(covered(t0, x));
                let i = choose|i: int| 0 <= i < t0.len() && (#[trigger] t0[i]).0 <= x < t0[i].1;
                assert(t[i] == t0[i]);
            }
        }
    }
}

/// A segment touches no four-tuple but its own.
pub proof fn law_other_tuples_untouched(
    s: EngineState,
    cfg: SessionConfig,
    src: Endpoint,
    dst: Endpoint,
    seg: SegmentModel,
    ts: u64,
    frame: u64,
    other: TupleKey,
)
    requires
        other != normalized(src, dst).0,
    ensures
        processed(s, cfg, src, dst, seg, ts, frame).tracker(other) == s.tracker(other),
{
}

/// A retransmitted SYN opens no generation and closes none.
pub proof fn law_syn_retransmission(
    s: EngineState,
    cfg: SessionConfig,
    src: Endpoint,
    dst: Endpoint,
    seg: SegmentModel,
    ts: u64,
    frame: u64,
)
    requires
        ({
            let (key, dir) = normalized(src, dst);
            &&& s.tracker(key).current matches Some(g) && !g.partial && g.side(dir).isn == Some(
                seg.seq,
            ) && ts - g.last_ts <= cfg.timeout_ns
        }),
        syn_only(seg),
    ensures
        ({
            let (key, dir) = normalized(src, dst);
            let t = processed(s, cfg, src, dst, seg, ts, frame);
            &&& t.done == s.done
            &&& t.tracker(key).next_gen == s.tracker(key).next_gen
            &&& t.tracker(key).current matches Some(g) && g.id == s.tracker(key).current->0.id
                && g.a == s.tracker(key).current->0.a && g.b == s.tracker(key).current->0.b
        }),
{
}

/// Another SYN on a four-tuple in use closes the old generation and opens the
/// next one.
pub proof fn law_reuse_supersedes(
    s: EngineState,
    cfg: SessionConfig,
    src: Endpoint,
    dst: Endpoint,
    seg: SegmentModel,
    ts: u64,
    frame: u64,
)
    requires
        ({
            let (key, dir) = normalized(src, dst);
            &&& s.tracker(key).current matches Some(g) && (g.partial || g.side(dir).isn != Some(
                seg.seq,
            )) && ts - g.last_ts <= cfg.timeout_ns
            &&& s.tracker(key).next_gen < u32::MAX
        }),
        syn_only(seg),
        !has_rst(seg),
        seg.flags & TCP_FIN == 0,
    ensures
        ({
            let (key, dir) = normalized(src, dst);
            let t = processed(s, cfg, src, dst, seg, ts, frame);
            &&& t.done.len() == s.done.len() + 1
            &&& t.done.last().close_reason == "superseded-by-syn"@
            &&& t.done.last().generation == s.tracker(key).current->0.id
            &&& t.tracker(key).current matches Some(g) && g.id == s.tracker(key).next_gen
                && !g.partial && g.side(dir).isn == Some(seg.seq)
        }),
{
}

/// A generation that starts without a SYN is partial and has no initial
/// sequence number that was not seen.
pub proof fn law_no_fabricated_handshake(
    s: EngineState,
    cfg: SessionConfig,
    src: Endpoint,
    dst: Endpoint,
    seg: SegmentModel,
    ts: u64,
    frame: u64,
)
    requires
        s.tracker(normalized(src, dst).0).current is None,
        !has_syn(seg),
        !has_rst(seg),
    ensures
        processed(s, cfg, src, dst, seg, ts, frame).tracker(normalized(src, dst).0).current matches Some(
            g,
        ) && g.partial && g.a.isn is None && g.b.isn is None,
{
}

/// A reset closes the current generation.
pub proof fn law_rst_closes(
    s: EngineState,
    cfg: SessionConfig,
    src: Endpoint,
    dst: Endpoint,
    seg: SegmentModel,
    ts: u64,
    frame: u64,
)
    requires
        has_rst(seg),
        !has_syn(seg),
        s.tracker(normalized(src, dst).0).current matches Some(g) && ts - g.last_ts
            <= cfg.timeout_ns,
    ensures
        ({
            let t = processed(s, cfg, src, dst, seg, ts, frame);
            &&& t.tracker(normalized(src, dst).0).current is None
            &&& t.done.len() == s.done.len() + 1
            &&& t.done.last().close_reason == "rst"@
        }),
{
}

/// The second of two FINs closes the current generation.
pub proof fn law_fin_closes(
    s: EngineState,
    cfg: SessionConfig,
    src: Endpoint,
    dst: Endpoint,
    seg: SegmentModel,
    ts: u64,
    frame: u64,
)
    requires
        !has_rst(seg),
        !has_syn(seg),
        seg.flags & TCP_FIN != 0,
        ({
            let (key, dir) = normalized(src, dst);
            s.tracker(key).current matches Some(g) && ts - g.last_ts <= cfg.timeout_ns && g.side(
                1 - dir,
            ).fin
        }),
    ensures
        ({
            let t = processed(s, cfg, src, dst, seg, ts, frame);
            &&& t.tracker(normalized(src, dst).0).current is None
            &&& t.done.len() == s.done.len() + 1
            &&& t.done.last().close_reason == "fin"@
        }),
{
}

/// An idle generation ends before anything later of its four-tuple is taken in.
pub proof fn law_timeout_closes(
    s: EngineState,
    cfg: SessionConfig,
    src: Endpoint,
    dst: Endpoint,
    seg: SegmentModel,
    ts: u64,
    frame: u64,
)
    requires
        s.tracker(normalized(src, dst).0).current matches Some(g) && ts - g.last_ts
            > cfg.timeout_ns,
    ensures
        ({
            let t = processed(s, cfg, src, dst, seg, ts, frame);
            &&& t.done.len() > s.done.len()
            &&& t.done[s.done.len() as int].close_reason == "timeout"@
            &&& t.done[s.done.len() as int].generation == s.tracker(
                normalized(src, dst).0,
            ).current->0.id
        }),
{
}

/// A finished report never changes, but for events noted later.
#[verifier::rlimit(80)]
pub proof fn law_reports_are_kept(
    s: EngineState,
    cfg: SessionConfig,
    src: Endpoint,
    dst: Endpoint,
    seg: SegmentModel,
    ts: u64,
    frame: u64,
    i: int,
)
    requires
        s.wf(),
        0 <= i < s.done.len(),
    ensures
        ({
            let t = processed(s, cfg, src, dst, seg, ts, frame);
            &&& t.done.len() >= s.done.len()
            &&& t.done[i] == (DoneModel { events: t.done[i].events, ..s.done[i] })
            &&& s.done[i].events.is_prefix_of(t.done[i].events)
        }),
{
}

/// Every four-tuple has had at most `n` generations.
pub open spec fn generations_within(s: EngineState, n: int) -> bool {
    forall|k: TupleKey| (#[trigger] s.tracker(k)).next_gen <= n
}

/// A segment opens at most one generation.
pub proof fn law_one_generation_at_a_time(
    s: EngineState,
    cfg: SessionConfig,
    src: Endpoint,
    dst: Endpoint,
    seg: SegmentModel,
    ts: u64,
    frame: u64,
    n: int,
)
    requires
        generations_within(s, n),
        n < u32::MAX,
    ensures
        generations_within(processed(s, cfg, src, dst, seg, ts, frame), n + 1),
{
    let t = processed(s, cfg, src, dst, seg, ts, frame);
    assert forall|k: TupleKey| (#[trigger] t.tracker(k)).next_gen <= n + 1 by {
        assert(s.tracker(k).next_gen <= n);
        assert(s.tracker(normalized(src, dst).0).next_gen <= n);
    }
}

} // verus!
