//! Wrap-around comparison of 32-bit TCP sequence numbers, and a sparse byte
//! table over relative offsets that remembers which frames wrote each byte.

use std::cmp::Ordering;
use std::collections::BTreeMap;
use vstd::prelude::*;
use crate::ordered::{increasing, lists, sorted_keys};

verus! {

/// A 32-bit TCP sequence number, compared by serial number arithmetic
/// (RFC 1982, window 2^31).
#[derive(Debug, Clone, Copy, PartialEq, Eq, Hash, Structural)]
pub struct Seq32(pub u32);

/// How far `b` lies after `a`, modulo 2^32.
pub open spec fn ahead(a: u32, b: u32) -> int {
    (b - a) % 0x1_0000_0000
}

/// `a` comes before `b` in serial number arithmetic.
pub open spec fn before(a: u32, b: u32) -> bool {
    0 < ahead(a, b) < 0x8000_0000
}

impl Seq32 {
    pub fn new(v: u32) -> (r: Self)
        ensures
            r == Seq32(v),
    {
        Seq32(v)
    }

    pub fn raw(self) -> (r: u32)
        ensures
            r == self.0,
    {
        self.0
    }

    /// `self < other`, with wrap-around.
    pub fn lt(self, other: Seq32) -> (r: bool)
        ensures
            r == before(self.0, other.0),
    {
        match self.cmp_wrap(other) {
            Ordering::Less => true,
            _ => false,
        }
    }

    pub fn le(self, other: Seq32) -> (r: bool)
        ensures
            r == (self == other || before(self.0, other.0)),
    {
        self == other || self.lt(other)
    }

    pub fn gt(self, other: Seq32) -> (r: bool)
        ensures
            r == before(other.0, self.0),
    {
        other.lt(self)
    }

    pub fn ge(self, other: Seq32) -> (r: bool)
        ensures
            r == (self == other || before(other.0, self.0)),
    {
        self == other || other.lt(self)
    }

    /// RFC 1982 comparison; a distance of 2^31 or more means that the other
    /// number is the earlier one.
    pub fn cmp_wrap(self, other: Seq32) -> (r: Ordering)
        ensures
            r == (if self == other {
                Ordering::Equal
            } else if before(self.0, other.0) {
                Ordering::Less
            } else {
                Ordering::Greater
            }),
    {
        let diff: u32 = other.0.wrapping_sub(self.0);
        if diff == 0 {
            Ordering::Equal
        } else if diff < 0x8000_0000 {
            Ordering::Less
        } else {
            Ordering::Greater
        }
    }

    /// `self - base` modulo 2^32: the relative offset.
    pub fn offset_from(self, base: Seq32) -> (r: u64)
        ensures
            r == ahead(base.0, self.0),
    {
        self.0.wrapping_sub(base.0) as u64
    }

    /// `self + delta` modulo 2^32.
    pub fn add(self, delta: u64) -> (r: Seq32)
        ensures
            r.0 == (self.0 + delta) % 0x1_0000_0000,
    {
        let d: u32 = (delta % 0x1_0000_0000) as u32;
        let r: u32 = self.0.wrapping_add(d);
        assert(r == (self.0 + delta) % 0x1_0000_0000) by {
            assert((self.0 + delta) % 0x1_0000_0000 == (self.0 + delta % 0x1_0000_0000)
                % 0x1_0000_0000);
        }
        Seq32(r)
    }
}

/// How bytes that overlap earlier bytes are resolved.
#[derive(Debug, Clone, Copy, PartialEq, Eq, Structural)]
pub enum OverlapPolicy {
    /// The byte that came first stays.
    FirstSeen,
    /// The byte that came last replaces it.
    LastSeen,
}

impl OverlapPolicy {
    /// The name of a policy.
    pub open spec fn name(self) -> Seq<char> {
        match self {
            OverlapPolicy::FirstSeen => "first-seen"@,
            OverlapPolicy::LastSeen => "last-seen"@,
        }
    }

    pub fn as_str(self) -> (r: &'static str)
        ensures
            r@ == self.name(),
    {
        match self {
            OverlapPolicy::FirstSeen => "first-seen",
            OverlapPolicy::LastSeen => "last-seen",
        }
    }

    /// The policy that a name stands for.
    pub open spec fn named(s: Seq<char>) -> Option<OverlapPolicy> {
        if s == "first-seen"@ || s == "first"@ {
            Some(OverlapPolicy::FirstSeen)
        } else if s == "last-seen"@ || s == "last"@ {
            Some(OverlapPolicy::LastSeen)
        } else {
            None
        }
    }

    pub fn parse(s: &str) -> (r: Option<OverlapPolicy>)
        ensures
            r == Self::named(s@),
    {
        if crate::text::same(s, "first-seen") || crate::text::same(s, "first") {
            Some(OverlapPolicy::FirstSeen)
        } else if crate::text::same(s, "last-seen") || crate::text::same(s, "last") {
            Some(OverlapPolicy::LastSeen)
        } else {
            None
        }
    }
}

/// Evidence for one covered byte: its value, the frame that first wrote it
/// and the frame that last carried it.
#[derive(Debug, Clone, Copy, PartialEq, Eq, Structural)]
pub struct Cell {
    pub byte: u8,
    pub first_frame: usize,
    pub last_frame: usize,
}

/// A differing byte met during an insertion.
#[derive(Debug, Clone, Copy, PartialEq, Eq, Structural)]
pub struct Collision {
    pub offset: u64,
    pub old_byte: u8,
    pub new_byte: u8,
    pub old_frame: usize,
    pub new_frame: usize,
    /// Whether the policy rewrote the byte.
    pub replaced: bool,
}

#[derive(Debug, Clone)]
pub struct InsertReport {
    /// Offsets that held nothing before.
    pub new_cells: Vec<u64>,
    /// Offsets that held a byte already.
    pub overlap_cells: Vec<u64>,
    /// The overlapped offsets whose byte differs.
    pub collisions: Vec<Collision>,
}

impl Default for InsertReport {
    fn default() -> (r: Self)
        ensures
            r.new_cells@.len() == 0,
            r.overlap_cells@.len() == 0,
            r.collisions@.len() == 0,
    {
        InsertReport { new_cells: Vec::new(), overlap_cells: Vec::new(), collisions: Vec::new() }
    }
}

impl InsertReport {
    /// Nothing new and nothing different was carried.
    pub fn is_pure_retransmit(&self) -> (r: bool)
        ensures
            r == (self.new_cells@.len() == 0 && self.collisions@.len() == 0),
    {
        self.new_cells.is_empty() && self.collisions.is_empty()
    }
}

/// A sparse table of bytes over relative offsets.
#[derive(Debug, Clone)]
pub struct SeqSpace {
    cells: BTreeMap<u64, Cell>,
}

impl View for SeqSpace {
    type V = Map<u64, Cell>;

    closed spec fn view(&self) -> Map<u64, Cell> {
        self.cells@
    }
}

/// The offsets below `n` of `data` at `start` that `m` does not hold.
pub open spec fn fresh_offsets(m: Map<u64, Cell>, start: int, n: nat) -> Seq<u64>
    decreases n,
{
    if n == 0 {
        seq![]
    } else {
        let off = (start + n - 1) as u64;
        let rest = fresh_offsets(m, start, (n - 1) as nat);
        if m.contains_key(off) {
            rest
        } else {
            rest.push(off)
        }
    }
}

/// The offsets below `n` of `data` at `start` that `m` holds.
pub open spec fn held_offsets(m: Map<u64, Cell>, start: int, n: nat) -> Seq<u64>
    decreases n,
{
    if n == 0 {
        seq![]
    } else {
        let off = (start + n - 1) as u64;
        let rest = held_offsets(m, start, (n - 1) as nat);
        if m.contains_key(off) {
            rest.push(off)
        } else {
            rest
        }
    }
}

/// The collisions of the first `n` bytes of `data` at `start`, in order.
pub open spec fn collisions_of(
    m: Map<u64, Cell>,
    start: int,
    data: Seq<u8>,
    frame: usize,
    policy: OverlapPolicy,
    n: nat,
) -> Seq<Collision>
    decreases n,
{
    if n == 0 {
        seq![]
    } else {
        let off = (start + n - 1) as u64;
        let rest = collisions_of(m, start, data, frame, policy, (n - 1) as nat);
        if m.contains_key(off) && m[off].byte != data[n - 1] {
            rest.push(
                Collision {
                    offset: off,
                    old_byte: m[off].byte,
                    new_byte: data[n - 1],
                    old_frame: m[off].first_frame,
                    new_frame: frame,
                    replaced: policy == OverlapPolicy::LastSeen,
                },
            )
        } else {
            rest
        }
    }
}

/// What one offset holds after a frame carried `byte` there.
pub open spec fn written(old_cell: Option<Cell>, byte: u8, frame: usize, policy: OverlapPolicy) -> Cell {
    match old_cell {
        None => Cell { byte, first_frame: frame, last_frame: frame },
        Some(c) => Cell {
            byte: if policy == OverlapPolicy::LastSeen {
                byte
            } else {
                c.byte
            },
            first_frame: c.first_frame,
            last_frame: frame,
        },
    }
}

/// The table after `data` was carried at `start`.
pub open spec fn insert_all(
    m: Map<u64, Cell>,
    start: int,
    data: Seq<u8>,
    frame: usize,
    policy: OverlapPolicy,
) -> Map<u64, Cell> {
    Map::new(
        |k: u64| m.contains_key(k) || start <= k < start + data.len(),
        |k: u64|
            if start <= k < start + data.len() {
                written(
                    if m.contains_key(k) {
                        Some(m[k])
                    } else {
                        None
                    },
                    data[k - start],
                    frame,
                    policy,
                )
            } else {
                m[k]
            },
    )
}

/// Everything below `n` is held and `n` is not.
pub open spec fn is_prefix_len(dom: Set<u64>, n: u64) -> bool {
    &&& !dom.contains(n)
    &&& forall|k: u64| k < n ==> #[trigger] dom.contains(k)
}

/// `a..b` is a maximal missing range between two held offsets.
pub open spec fn is_gap(dom: Set<u64>, a: u64, b: u64) -> bool {
    &&& 0 < a < b
    &&& dom.contains((a - 1) as u64)
    &&& dom.contains(b)
    &&& forall|k: u64| a <= k < b ==> !#[trigger] dom.contains(k)
}

/// `a..b` is a maximal held range.
pub open spec fn is_run(dom: Set<u64>, a: u64, b: u64) -> bool {
    &&& a < b
    &&& !dom.contains(b)
    &&& a == 0 || !dom.contains((a - 1) as u64)
    &&& forall|k: u64| a <= k < b ==> #[trigger] dom.contains(k)
}

/// Ranges in increasing order, none touching the next.
pub open spec fn ranges_increasing(r: Seq<(u64, u64)>) -> bool {
    forall|i: int, j: int| 0 <= i < j < r.len() ==> (#[trigger] r[i]).1 < (#[trigger] r[j]).0
}

impl SeqSpace {
    /// No offset is the greatest 64-bit number, so every offset has a successor.
    pub open spec fn wf(&self) -> bool {
        &&& self@.dom().finite()
        &&& !self@.contains_key(u64::MAX)
    }

    pub fn new() -> (r: Self)
        ensures
            r@ == Map::<u64, Cell>::empty(),
            r.wf(),
    {
        SeqSpace { cells: BTreeMap::new() }
    }

    pub fn len(&self) -> (r: usize)
        ensures
            r == self@.dom().len(),
    {
        self.cells.len()
    }

    pub fn is_empty(&self) -> (r: bool)
        ensures
            r == (self@ == Map::<u64, Cell>::empty()),
    {
        let r = self.cells.is_empty();
        proof {
            if self@.dom().len() == 0 && self@.dom().finite() {
                assert(self@ =~= Map::<u64, Cell>::empty());
            }
        }
        r
    }

    pub fn contains(&self, off: u64) -> (r: bool)
        ensures
            r == self@.contains_key(off),
    {
        self.cells.contains_key(&off)
    }

    pub fn get(&self, off: u64) -> (r: Option<&Cell>)
        ensures
            match r {
                Some(c) => self@.contains_key(off) && *c == self@[off],
                None => !self@.contains_key(off),
            },
    {
        self.cells.get(&off)
    }

    /// The least held offset.
    pub fn min(&self) -> (r: Option<u64>)
        ensures
            match r {
                Some(k) => self@.contains_key(k) && forall|j: u64|
                    #[trigger] self@.contains_key(j) ==> k <= j,
                None => self@ == Map::<u64, Cell>::empty(),
            },
    {
        let keys = sorted_keys(&self.cells);
        if keys.len() == 0 {
            assert(self@ =~= Map::<u64, Cell>::empty()) by {
                assert forall|k: u64| !self@.contains_key(k) by {
                    assert(!keys@.contains(k));
                }
            }
            None
        } else {
            proof {
                assert(keys@.contains(keys@[0]));
                assert forall|j: u64| #[trigger] self@.contains_key(j) implies keys@[0] <= j by {
                    assert(keys@.contains(j));
                }
            }
            Some(keys[0])
        }
    }

    /// The greatest held offset.
    pub fn max(&self) -> (r: Option<u64>)
        ensures
            match r {
                Some(k) => self@.contains_key(k) && forall|j: u64|
                    #[trigger] self@.contains_key(j) ==> j <= k,
                None => self@ == Map::<u64, Cell>::empty(),
            },
    {
        let keys = sorted_keys(&self.cells);
        if keys.len() == 0 {
            assert(self@ =~= Map::<u64, Cell>::empty()) by {
                assert forall|k: u64| !self@.contains_key(k) by {
                    assert(!keys@.contains(k));
                }
            }
            None
        } else {
            let last: u64 = keys[keys.len() - 1];
            proof {
                assert(keys@.contains(last));
                assert forall|j: u64| #[trigger] self@.contains_key(j) implies j <= last by {
                    assert(keys@.contains(j));
                }
            }
            Some(last)
        }
    }

    /// Carries `data` at `start`, and reports what was new, what overlapped
    /// and what differed.
    pub fn insert(&mut self, start: u64, data: &[u8], frame_index: usize, policy: OverlapPolicy) -> (r:
        InsertReport)
        requires
            old(self).wf(),
            start + data@.len() <= u64::MAX,
        ensures
            final(self).wf(),
            final(self)@ == insert_all(old(self)@, start as int, data@, frame_index, policy),
            r.new_cells@ == fresh_offsets(old(self)@, start as int, data@.len()),
            r.overlap_cells@ == held_offsets(old(self)@, start as int, data@.len()),
            r.collisions@ == collisions_of(
                old(self)@,
                start as int,
                data@,
                frame_index,
                policy,
                data@.len(),
            ),
    {
        let mut report = InsertReport {
            new_cells: Vec::new(),
            overlap_cells: Vec::new(),
            collisions: Vec::new(),
        };
        let mut i: usize = 0;
        assert(insert_all(self@, start as int, data@.take(0), frame_index, policy) =~= self@);
        while i < data.len()
            invariant
                i <= data@.len(),
                start + data@.len() <= u64::MAX,
                !old(self)@.contains_key(u64::MAX),
                self@ == insert_all(
                    old(self)@,
                    start as int,
                    data@.take(i as int),
                    frame_index,
                    policy,
                ),
                report.new_cells@ == fresh_offsets(old(self)@, start as int, i as nat),
                report.overlap_cells@ == held_offsets(old(self)@, start as int, i as nat),
                report.collisions@ == collisions_of(
                    old(self)@,
                    start as int,
                    data@,
                    frame_index,
                    policy,
                    i as nat,
                ),
            decreases data@.len() - i,
        {
            let off: u64 = start + i as u64;
            let new_byte: u8 = data[i];
            let found: Option<Cell> = match self.cells.get(&off) {
                Some(c) => Some(*c),
                None => None,
            };
            match found {
                None => {
                    report.new_cells.push(off);
                    self.cells.insert(
                        off,
                        Cell { byte: new_byte, first_frame: frame_index, last_frame: frame_index },
                    );
                },
                Some(cell) => {
                    report.overlap_cells.push(off);
                    let last = match policy {
                        OverlapPolicy::LastSeen => true,
                        OverlapPolicy::FirstSeen => false,
                    };
                    let changed = cell.byte != new_byte;
                    if changed {
                        report.collisions.push(
                            Collision {
                                offset: off,
                                old_byte: cell.byte,
                                new_byte,
                                old_frame: cell.first_frame,
                                new_frame: frame_index,
                                replaced: last,
                            },
                        );
                    }
                    let byte: u8 = if changed && last {
                        new_byte
                    } else {
                        cell.byte
                    };
                    self.cells.insert(
                        off,
                        Cell { byte, first_frame: cell.first_frame, last_frame: frame_index },
                    );
                },
            }
            i += 1;
            assert(self@ =~= insert_all(
                old(self)@,
                start as int,
                data@.take(i as int),
                frame_index,
                policy,
            ));
        }
        assert(data@.take(i as int) =~= data@);
        report
    }

    /// The number of bytes that are held without a gap from offset 0.
    pub fn contiguous_prefix(&self) -> (n: u64)
        requires
            self.wf(),
        ensures
            is_prefix_len(self@.dom(), n),
    {
        let keys = sorted_keys(&self.cells);
        let mut i: usize = 0;
        let mut expect: u64 = 0;
        while i < keys.len() && keys[i] == expect
            invariant
                self.wf(),
                lists(keys@, self@.dom()),
                i <= keys@.len(),
                expect == i,
                forall|k: u64| k < expect ==> #[trigger] self@.dom().contains(k),
            decreases keys@.len() - i,
        {
            assert(keys@.contains(expect));
            expect = expect + 1;
            i += 1;
        }
        proof {
            if self@.dom().contains(expect) {
                assert(keys@.contains(expect));
                let j = choose|j: int| 0 <= j < keys@.len() && keys@[j] == expect;
                if j < i {
                    lemma_increasing_at_least(keys@, j);
                    lemma_prefix_values(keys@, i as int, j, self@.dom());
                } else {
                    lemma_increasing_at_least(keys@, i as int);
                }
            }
        }
        expect
    }

    /// The maximal missing ranges between the least and the greatest held offset.
    pub fn gaps(&self) -> (r: Vec<(u64, u64)>)
        requires
            self.wf(),
        ensures
            ranges_increasing(r@),
            forall|a: u64, b: u64| #[trigger]
                r@.contains((a, b)) <==> is_gap(self@.dom(), a, b),
    {
        let keys = sorted_keys(&self.cells);
        let ghost dom = self@.dom();
        let mut gaps: Vec<(u64, u64)> = Vec::new();
        let mut expect: u64 = 0;
        let mut i: usize = 0;
        while i < keys.len()
            invariant
                self.wf(),
                dom == self@.dom(),
                lists(keys@, dom),
                i <= keys@.len(),
                expect == if i == 0 {
                    0
                } else {
                    keys@[i - 1] + 1
                },
                ranges_increasing(gaps@),
                forall|j: int| 0 <= j < gaps@.len() ==> (#[trigger] gaps@[j]).1 < expect,
                forall|a: u64, b: u64| #[trigger]
                    gaps@.contains((a, b)) <==> is_gap(dom, a, b) && b < expect,
            decreases keys@.len() - i,
        {
            let off: u64 = keys[i];
            proof {
                assert(keys@.contains(off));
                assert(off != u64::MAX);
                assert forall|k: u64| expect <= k < off implies !#[trigger] dom.contains(k) by {
                    if dom.contains(k) {
                        assert(keys@.contains(k));
                        let j = choose|j: int| 0 <= j < keys@.len() && keys@[j] == k;
                        assert(j < i || j >= i);
                    }
                }
                if i > 0 {
                    assert(keys@.contains(keys@[i - 1]));
                }
            }
            let ghost before_gaps = gaps@;
            if i > 0 && off > expect {
                gaps.push((expect, off));
            }
            proof {
                assert forall|a: u64, b: u64| #[trigger]
                    gaps@.contains((a, b)) <==> is_gap(dom, a, b) && b < off + 1 by {
                    if before_gaps.contains((a, b)) {
                        let j = choose|j: int|
                            0 <= j < before_gaps.len() && before_gaps[j] == (a, b);
                        assert(gaps@[j] == (a, b));
                    }
                    if gaps@.contains((a, b)) && !before_gaps.contains((a, b)) {
                        let j = choose|j: int| 0 <= j < gaps@.len() && gaps@[j] == (a, b);
                        if j < before_gaps.len() {
                            assert(before_gaps[j] == (a, b));
                        }
                        assert(a == expect && b == off);
                    }
                    if is_gap(dom, a, b) && b < off + 1 && !before_gaps.contains((a, b)) {
                        assert(b >= expect);
                        assert(b == off);
                        if a < expect {
                            assert(dom.contains((expect - 1) as u64));
                            assert(false);
                        }
                        if a > expect {
                            assert(!dom.contains((a - 1) as u64));
                            assert(false);
                        }
                        if i > 0 && off > expect {
                            assert(gaps@[gaps@.len() - 1] == (a, b));
                        }
                    }
                }
            }
            expect = off + 1;
            i += 1;
        }
        proof {
            assert forall|a: u64, b: u64| #[trigger]
                gaps@.contains((a, b)) <==> is_gap(dom, a, b) by {
                if is_gap(dom, a, b) {
                    assert(keys@.contains(b));
                    let j = choose|j: int| 0 <= j < keys@.len() && keys@[j] == b;
                    assert(keys@[j] <= keys@[keys@.len() - 1]);
                }
            }
        }
        gaps
    }

    /// The maximal held ranges.
    pub fn covered_runs(&self) -> (r: Vec<(u64, u64)>)
        requires
            self.wf(),
        ensures
            ranges_increasing(r@),
            forall|a: u64, b: u64| #[trigger]
                r@.contains((a, b)) <==> is_run(self@.dom(), a, b),
    {
        let keys = sorted_keys(&self.cells);
        let ghost dom = self@.dom();
        let mut runs: Vec<(u64, u64)> = Vec::new();
        let n: usize = keys.len();
        let mut i: usize = 0;
        while i < n
            invariant
                self.wf(),
                dom == self@.dom(),
                lists(keys@, dom),
                n == keys@.len(),
                i <= n,
                ranges_increasing(runs@),
                i > 0 && i < n ==> keys@[i - 1] + 1 < keys@[i as int],
                forall|j: int|
                    0 <= j < runs@.len() ==> i > 0 && (#[trigger] runs@[j]).1 <= keys@[i - 1] + 1,
                forall|a: u64, b: u64| #[trigger]
                    runs@.contains((a, b)) <==> is_run(dom, a, b) && i > 0 && b <= keys@[i - 1] + 1,
            decreases n - i,
        {
            let start: u64 = keys[i];
            let ghost i0 = i;
            let mut end: u64 = start;
            proof {
                if start > 0 && dom.contains((start - 1) as u64) {
                    assert(keys@.contains((start - 1) as u64));
                    let j = choose|j: int| 0 <= j < keys@.len() && keys@[j] == (start - 1) as u64;
                    assert(j < i0);
                }
            }
            while i < n && keys[i] == end
                invariant
                    self.wf(),
                    dom == self@.dom(),
                    lists(keys@, dom),
                    n == keys@.len(),
                    i0 <= i <= n,
                    end == start + (i - i0),
                    i0 < n,
                    start == keys@[i0 as int],
                    i > i0 ==> keys@[i - 1] + 1 == end,
                    forall|k: u64| start <= k < end ==> #[trigger] dom.contains(k),
                decreases n - i,
            {
                assert(keys@.contains(end));
                end = end + 1;
                i += 1;
            }
            proof {
                assert(i > i0);
                if dom.contains(end) {
                    assert(keys@.contains(end));
                    let j = choose|j: int| 0 <= j < keys@.len() && keys@[j] == end;
                    assert(j > i - 1);
                    assert(j > i);
                    assert(keys@[i as int] < keys@[j]);
                }
                assert(is_run(dom, start, end));
            }
            let ghost old_runs = runs@;
            runs.push((start, end));
            proof {
                assert forall|a: u64, b: u64| #[trigger]
                    runs@.contains((a, b)) <==> is_run(dom, a, b) && b <= keys@[i - 1] + 1 by {
                    if old_runs.contains((a, b)) {
                        let j = choose|j: int| 0 <= j < old_runs.len() && old_runs[j] == (a, b);
                        assert(runs@[j] == (a, b));
                        assert(keys@[i0 - 1] < keys@[i - 1]);
                    }
                    if runs@.contains((a, b)) && !old_runs.contains((a, b)) {
                        let j = choose|j: int| 0 <= j < runs@.len() && runs@[j] == (a, b);
                        if j < old_runs.len() {
                            assert(old_runs[j] == (a, b));
                        }
                    }
                    if is_run(dom, a, b) && b <= keys@[i - 1] + 1 && !old_runs.contains((a, b)) {
                        assert(dom.contains((b - 1) as u64));
                        assert(keys@.contains((b - 1) as u64));
                        let j = choose|j: int| 0 <= j < keys@.len() && keys@[j] == (b - 1) as u64;
                        if i0 > 0 {
                            assert(b > keys@[i0 - 1] + 1);
                            if j <= i0 - 1 {
                                assert(keys@[j] <= keys@[i0 - 1]);
                            }
                        }
                        assert(j >= i0);
                        assert(keys@[j] >= start);
                        if b < end {
                            assert(dom.contains(b));
                        }
                        assert(b == end);
                        if a > start {
                            assert(dom.contains((a - 1) as u64));
                        }
                        if a < start {
                            assert(dom.contains((start - 1) as u64));
                        }
                        assert(runs@[runs@.len() - 1] == (a, b));
                    }
                }
                assert forall|j: int| 0 <= j < runs@.len() implies (#[trigger] runs@[j]).1 <= keys@[i
                    - 1] + 1 by {
                    if j < old_runs.len() {
                        assert(old_runs[j].1 <= keys@[i0 - 1] + 1);
                    }
                }
            }
        }
        proof {
            assert forall|a: u64, b: u64| #[trigger]
                runs@.contains((a, b)) <==> is_run(dom, a, b) by {
                if is_run(dom, a, b) {
                    assert(dom.contains((b - 1) as u64));
                    assert(keys@.contains((b - 1) as u64));
                    let j = choose|j: int| 0 <= j < keys@.len() && keys@[j] == (b - 1) as u64;
                    assert(keys@[j] <= keys@[n - 1]);
                }
            }
        }
        runs
    }

    /// The bytes that are held without a gap from offset 0.
    pub fn prefix_bytes(&self) -> (r: Vec<u8>)
        requires
            self.wf(),
        ensures
            exists|n: u64|
                is_prefix_len(self@.dom(), n) && r@ == Seq::new(
                    n as nat,
                    |i: int| self@[i as u64].byte,
                ),
    {
        let n = self.contiguous_prefix();
        let mut out: Vec<u8> = Vec::new();
        let mut off: u64 = 0;
        while off < n
            invariant
                off <= n,
                is_prefix_len(self@.dom(), n),
                out@ == Seq::new(off as nat, |i: int| self@[i as u64].byte),
            decreases n - off,
        {
            assert(self@.dom().contains(off));
            if let Some(c) = self.cells.get(&off) {
                out.push(c.byte);
            }
            off += 1;
            assert(out@ =~= Seq::new(off as nat, |i: int| self@[i as u64].byte));
        }
        out
    }
}

proof fn lemma_increasing_at_least(s: Seq<u64>, i: int)
    requires
        increasing(s),
        0 <= i < s.len(),
    ensures
        s[i] >= i,
    decreases i,
{
    if i > 0 {
        lemma_increasing_at_least(s, i - 1);
        assert(s[i - 1] < s[i]);
    }
}

/// Where the first `n` offsets are all held, the first `n` keys are they.
proof fn lemma_prefix_values(s: Seq<u64>, n: int, j: int, dom: Set<u64>)
    requires
        lists(s, dom),
        0 <= j < n <= s.len(),
        n <= u64::MAX,
        forall|k: u64| k < n ==> #[trigger] dom.contains(k),
    ensures
        s[j] == j,
    decreases j,
{
    lemma_increasing_at_least(s, j);
    assert(dom.contains(j as u64));
    assert(s.contains(j as u64));
    let i = choose|i: int| 0 <= i < s.len() && s[i] == j as u64;
    if i > j {
        assert(s[j] < s[i]);
    } else if i < j {
        lemma_prefix_values(s, n, i, dom);
    }
}

/// Comparison is antisymmetric, and of two numbers that are neither equal nor
/// exactly 2^31 apart exactly one comes before the other.
pub proof fn law_wrap_order(a: u32, b: u32)
    ensures
        !(before(a, b) && before(b, a)),
        a == b || ahead(a, b) == 0x8000_0000 || before(a, b) || before(b, a),
{
}

/// Adding an offset and taking it off again.
pub proof fn law_offset_add(a: u32, d: u32)
    ensures
        ahead(a, ((a + d) % 0x1_0000_0000) as u32) == d,
{
}

/// A first-seen insertion changes no byte that is already there.
pub proof fn law_first_seen_keeps(m: Map<u64, Cell>, start: int, data: Seq<u8>, frame: usize, k: u64)
    requires
        m.contains_key(k),
    ensures
        insert_all(m, start, data, frame, OverlapPolicy::FirstSeen)[k].byte == m[k].byte,
        insert_all(m, start, data, frame, OverlapPolicy::FirstSeen)[k].first_frame
            == m[k].first_frame,
{
}

/// A last-seen insertion leaves exactly the carried bytes where it went.
pub proof fn law_last_seen_adopts(m: Map<u64, Cell>, start: int, data: Seq<u8>, frame: usize, k: u64)
    requires
        start <= k < start + data.len(),
    ensures
        insert_all(m, start, data, frame, OverlapPolicy::LastSeen)[k].byte == data[k - start],
{
}

/// Both policies cover the same offsets.
pub proof fn law_policies_cover_alike(m: Map<u64, Cell>, start: int, data: Seq<u8>, frame: usize)
    ensures
        insert_all(m, start, data, frame, OverlapPolicy::FirstSeen).dom() == insert_all(
            m,
            start,
            data,
            frame,
            OverlapPolicy::LastSeen,
        ).dom(),
{
    assert(insert_all(m, start, data, frame, OverlapPolicy::FirstSeen).dom() =~= insert_all(
        m,
        start,
        data,
        frame,
        OverlapPolicy::LastSeen,
    ).dom());
}

proof fn lemma_reports(
    m: Map<u64, Cell>,
    start: int,
    data: Seq<u8>,
    frame: usize,
    policy: OverlapPolicy,
    n: nat,
)
    requires
        n <= data.len(),
        0 <= start,
        start + data.len() <= u64::MAX,
    ensures
        fresh_offsets(m, start, n).len() == 0 <==> forall|i: int|
            0 <= i < n ==> m.contains_key(#[trigger] ((start + i) as u64)),
        collisions_of(m, start, data, frame, policy, n).len() == 0 <==> forall|i: int|
            0 <= i < n && m.contains_key(#[trigger] ((start + i) as u64))
                ==> m[(start + i) as u64].byte == data[i],
        fresh_offsets(m, start, n).len() + held_offsets(m, start, n).len() == n,
    decreases n,
{
    if n > 0 {
        lemma_reports(m, start, data, frame, policy, (n - 1) as nat);
        let off = (start + n - 1) as u64;
        assert(off == (start + (n - 1)) as u64);
    }
}

/// A report of a pure retransmission means that every carried byte was held
/// already with the same value, so the bytes stay as they were under either
/// policy.
pub proof fn law_pure_retransmit(
    m: Map<u64, Cell>,
    start: int,
    data: Seq<u8>,
    frame: usize,
    policy: OverlapPolicy,
    k: u64,
)
    requires
        0 <= start,
        start + data.len() <= u64::MAX,
        fresh_offsets(m, start, data.len()).len() == 0,
        collisions_of(m, start, data, frame, policy, data.len()).len() == 0,
    ensures
        insert_all(m, start, data, frame, policy).contains_key(k) == m.contains_key(k),
        m.contains_key(k) ==> insert_all(m, start, data, frame, policy)[k].byte == m[k].byte,
{
    lemma_reports(m, start, data, frame, policy, data.len());
    if start <= k < start + data.len() {
        assert(k == (start + (k - start)) as u64);
    }
}

/// The start of the missing range that ends in `k`.
proof fn lemma_missing_start(dom: Set<u64>, lo: u64, k: u64) -> (a: u64)
    requires
        lo < k,
        dom.contains(lo),
        !dom.contains(k),
    ensures
        lo < a <= k,
        dom.contains((a - 1) as u64),
        forall|x: u64| a <= x <= k ==> !#[trigger] dom.contains(x),
    decreases k - lo,
{
    let p = (k - 1) as u64;
    if dom.contains(p) {
        k
    } else {
        lemma_missing_start(dom, lo, p)
    }
}

proof fn lemma_missing_end(dom: Set<u64>, k: u64, hi: u64) -> (b: u64)
    requires
        k < hi,
        dom.contains(hi),
        !dom.contains(k),
    ensures
        k < b <= hi,
        dom.contains(b),
        forall|x: u64| k <= x < b ==> !#[trigger] dom.contains(x),
    decreases hi - k,
{
    let n = (k + 1) as u64;
    if dom.contains(n) {
        n
    } else {
        lemma_missing_end(dom, n, hi)
    }
}

proof fn lemma_held_start(dom: Set<u64>, k: u64) -> (a: u64)
    requires
        dom.contains(k),
    ensures
        a <= k,
        a == 0 || !dom.contains((a - 1) as u64),
        forall|x: u64| a <= x <= k ==> #[trigger] dom.contains(x),
    decreases k,
{
    if k == 0 || !dom.contains((k - 1) as u64) {
        k
    } else {
        lemma_held_start(dom, (k - 1) as u64)
    }
}

proof fn lemma_held_end(dom: Set<u64>, k: u64) -> (b: u64)
    requires
        dom.contains(k),
        !dom.contains(u64::MAX),
    ensures
        k < b,
        !dom.contains(b),
        forall|x: u64| k <= x < b ==> #[trigger] dom.contains(x),
    decreases u64::MAX - k,
{
    let n = (k + 1) as u64;
    if dom.contains(n) {
        lemma_held_end(dom, n)
    } else {
        n
    }
}

/// Every offset from the least held one to the greatest lies in a run or in a gap.
pub proof fn law_runs_and_gaps_cover(dom: Set<u64>, lo: u64, hi: u64, k: u64)
    requires
        dom.contains(lo),
        dom.contains(hi),
        lo <= k <= hi,
        !dom.contains(u64::MAX),
    ensures
        dom.contains(k) ==> exists|a: u64, b: u64| #[trigger] is_run(dom, a, b) && a <= k < b,
        !dom.contains(k) ==> exists|a: u64, b: u64| #[trigger] is_gap(dom, a, b) && a <= k < b,
{
    if dom.contains(k) {
        let a = lemma_held_start(dom, k);
        let b = lemma_held_end(dom, k);
        assert(is_run(dom, a, b));
    } else {
        let a = lemma_missing_start(dom, lo, k);
        let b = lemma_missing_end(dom, k, hi);
        assert(is_gap(dom, a, b));
    }
}

/// No offset lies both in a run and in a gap.
pub proof fn law_runs_and_gaps_disjoint(dom: Set<u64>, a: u64, b: u64, c: u64, d: u64, k: u64)
    requires
        is_gap(dom, a, b),
        is_run(dom, c, d),
        a <= k < b,
    ensures
        !(c <= k < d),
{
    assert(!dom.contains(k));
}

} // verus!
