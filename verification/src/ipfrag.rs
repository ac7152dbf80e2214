//! Fragment reassembly that ignores exact duplicates. Other overlaps, and
//! fragments beyond the budget, quarantine the whole datagram; other datagrams
//! are unaffected.

use vstd::prelude::*;
use crate::bytes::{copy_bytes, copy_numbers};
use crate::cover::{
    assemble, assembled, bounded, covers, covers_all, disjoint, models, Piece, PieceModel,
};
use crate::frag::{narrow, widened};
use crate::frame::IpFrame;
use crate::sorting::{sort, sorted};
use crate::table::{Key, Table};
use crate::text::{cat_dec, dec, push_dec, push_text};
use crate::types::Ip;

verus! {

pub const MAX_DATAGRAM: usize = 65_535;

#[derive(Clone, Copy, PartialEq, Eq, PartialOrd, Ord)]
pub struct FragKey {
    pub src: Ip,
    pub dst: Ip,
    pub protocol: u8,
    pub id: u32,
}

impl Key for FragKey {
    fn same(&self, other: &Self) -> (r: bool) {
        self.protocol == other.protocol && self.id == other.id && self.src.same(&other.src)
            && self.dst.same(&other.dst)
    }
}

/// The text of a key.
pub open spec fn key_text(k: FragKey) -> Seq<char> {
    k.src.text() + " -> "@ + k.dst.text() + " proto "@ + dec(k.protocol as nat) + " id "@ + dec(
        k.id as nat,
    )
}

/// `x` comes before `y`: by source, destination, protocol and number.
pub open spec fn key_before(x: FragKey, y: FragKey) -> bool {
    ||| x.src.rank() < y.src.rank()
    ||| x.src == y.src && x.dst.rank() < y.dst.rank()
    ||| x.src == y.src && x.dst == y.dst && x.protocol < y.protocol
    ||| x.src == y.src && x.dst == y.dst && x.protocol == y.protocol && x.id < y.id
}

fn key_string(k: &FragKey) -> (s: String)
    ensures
        s@ == key_text(*k),
{
    let mut s = k.src.to_text();
    push_text(&mut s, " -> ");
    push_text(&mut s, k.dst.to_text().as_str());
    push_text(&mut s, " proto ");
    push_dec(&mut s, k.protocol as u64);
    push_text(&mut s, " id ");
    push_dec(&mut s, k.id as u64);
    s
}

impl FragKey {
    fn precedes(&self, other: &FragKey) -> (r: bool)
        ensures
            r == key_before(*self, *other),
    {
        if self.src.precedes(&other.src) {
            true
        } else if !self.src.same(&other.src) {
            false
        } else if self.dst.precedes(&other.dst) {
            true
        } else if !self.dst.same(&other.dst) {
            false
        } else {
            self.protocol < other.protocol || (self.protocol == other.protocol && self.id < other.id)
        }
    }
}

proof fn lemma_key_total(x: FragKey, y: FragKey)
    requires
        x != y,
        !key_before(x, y),
    ensures
        key_before(y, x),
{
    if x.src.rank() == y.src.rank() {
        crate::types::law_rank_injective(x.src, y.src);
        if x.dst.rank() == y.dst.rank() {
            crate::types::law_rank_injective(x.dst, y.dst);
        }
    }
}

#[derive(Clone)]
pub struct Quarantine {
    pub key: String,
    pub reason: String,
    pub fragment_indices: Vec<usize>,
}

#[derive(Clone)]
pub struct Assembled {
    pub key: FragKey,
    pub src: Ip,
    pub dst: Ip,
    pub protocol: u8,
    pub bytes: Vec<u8>,
    pub frame_indices: Vec<usize>,
}

struct Group {
    pieces: Vec<Piece>,
    frames: Vec<u64>,
    total: Option<usize>,
    quarantined: bool,
}

/// The fragments of a datagram so far, the end that the last fragment set, and whether
/// the datagram is quarantined.
pub struct GroupModel {
    pub pieces: Seq<PieceModel>,
    pub frames: Seq<u64>,
    pub total: Option<int>,
    pub quarantined: bool,
}

impl View for Group {
    type V = GroupModel;

    closed spec fn view(&self) -> GroupModel {
        GroupModel {
            pieces: models(self.pieces@),
            frames: self.frames@,
            total: match self.total {
                Some(t) => Some(t as int),
                None => None,
            },
            quarantined: self.quarantined,
        }
    }
}

/// Every number is that of a frame.
pub open spec fn numbered(frames: Seq<u64>) -> bool {
    forall|i: int| 0 <= i < frames.len() ==> (#[trigger] frames[i]) <= usize::MAX
}

impl GroupModel {
    pub open spec fn empty() -> GroupModel {
        GroupModel { pieces: seq![], frames: seq![], total: None, quarantined: false }
    }

    /// What is held of a quarantined datagram.
    pub open spec fn shut() -> GroupModel {
        GroupModel { pieces: seq![], frames: seq![], total: None, quarantined: true }
    }

    pub open spec fn wf(self) -> bool {
        &&& self.pieces.len() == self.frames.len()
        &&& bounded(self.pieces)
        &&& disjoint(self.pieces)
        &&& !self.quarantined ==> self.pieces.len() > 0
        &&& numbered(self.frames)
    }

    /// The group with one fragment more.
    pub open spec fn with(self, f: FragModel, frame: u64) -> GroupModel {
        GroupModel {
            pieces: self.pieces.push(PieceModel { offset: f.offset, data: f.data }),
            frames: self.frames.push(frame),
            total: if f.more {
                self.total
            } else {
                Some(f.offset + f.data.len())
            },
            quarantined: self.quarantined,
        }
    }

    /// The first of the pieces from `i` on that a range meets.
    pub open spec fn first_met(self, i: int, a: int, b: int) -> Option<int>
        decreases self.pieces.len() - i,
    {
        if i >= self.pieces.len() {
            None
        } else if self.pieces[i].meets(a, b) {
            Some(i)
        } else {
            self.first_met(i + 1, a, b)
        }
    }
}

/// A fragment.
pub struct FragModel {
    pub key: FragKey,
    pub offset: int,
    pub more: bool,
    pub data: Seq<u8>,
}

/// The fragment that a frame carries.
pub open spec fn frag_of(f: IpFrame) -> FragModel {
    FragModel {
        key: FragKey {
            src: f->Fragment_src,
            dst: f->Fragment_dst,
            protocol: f->Fragment_protocol,
            id: f->Fragment_frag_id,
        },
        offset: f->Fragment_offset as int,
        more: f->Fragment_more,
        data: f->Fragment_data@,
    }
}

/// Result of feeding one fragment.
pub enum FragOutcome {
    /// More fragments are awaited.
    Pending,
    /// The whole datagram is available.
    Complete(Assembled),
    /// The datagram is quarantined; no complete datagram will ever be emitted for it.
    Isolated(Quarantine),
}

/// What feeding one fragment yields.
pub enum OutcomeModel {
    Pending,
    Complete { key: FragKey, bytes: Seq<u8>, frames: Seq<u64> },
    Isolated { key: FragKey, reason: Seq<char>, frames: Seq<u64> },
}

impl FragOutcome {
    /// The outcome is the modelled one.
    pub open spec fn is(self, m: OutcomeModel) -> bool {
        match (self, m) {
            (FragOutcome::Pending, OutcomeModel::Pending) => true,
            (FragOutcome::Complete(a), OutcomeModel::Complete { key, bytes, frames }) => {
                &&& a.key == key
                &&& a.src == key.src
                &&& a.dst == key.dst
                &&& a.protocol == key.protocol
                &&& a.bytes@ == bytes
                &&& widened(a.frame_indices@) == frames
            },
            (FragOutcome::Isolated(q), OutcomeModel::Isolated { key, reason, frames }) => {
                &&& q.key@ == key_text(key)
                &&& q.reason@ == reason
                &&& widened(q.fragment_indices@) == frames
            },
            _ => false,
        }
    }
}

/// What is held of a datagram.
pub open spec fn group_of(m: Map<FragKey, GroupModel>, key: FragKey) -> GroupModel {
    if m.contains_key(key) {
        m[key]
    } else {
        GroupModel::empty()
    }
}

/// What feeding one fragment does, and what it yields.
pub open spec fn added(m: Map<FragKey, GroupModel>, f: FragModel, frame: u64) -> (
    Map<FragKey, GroupModel>,
    OutcomeModel,
) {
    let end = f.offset + f.data.len();
    let g = group_of(m, f.key);
    let h = g.with(f, frame);
    if end > MAX_DATAGRAM {
        (
            m.insert(f.key, GroupModel::shut()),
            OutcomeModel::Isolated {
                key: f.key,
                reason: "fragment end "@ + dec(end as nat) + " exceeds budget "@ + dec(
                    MAX_DATAGRAM as nat,
                ),
                frames: seq![frame],
            },
        )
    } else if g.quarantined {
        (m, OutcomeModel::Pending)
    } else if g.first_met(0, f.offset, end) is Some {
        let p = g.pieces[g.first_met(0, f.offset, end)->0];
        if p.offset == f.offset && p.data == f.data {
            (m, OutcomeModel::Pending)
        } else {
            (
                m.insert(f.key, GroupModel::shut()),
                OutcomeModel::Isolated {
                    key: f.key,
                    reason: "overlapping fragments at offsets "@ + dec(p.offset as nat) + " and "@
                        + dec(f.offset as nat) + " (differing content/span)"@,
                    frames: sorted(g.frames.push(frame)),
                },
            )
        }
    } else if h.total is Some && covers(h.pieces, h.total->0) {
        (
            m.remove(f.key),
            OutcomeModel::Complete {
                key: f.key,
                bytes: assembled(h.pieces, h.total->0),
                frames: sorted(h.frames),
            },
        )
    } else {
        (m.insert(f.key, h), OutcomeModel::Pending)
    }
}

/// The end that the last fragment sets cuts off no fragment that starts behind
/// it, where the datagram would then be complete.
pub open spec fn end_is_sound(m: Map<FragKey, GroupModel>, f: FragModel, frame: u64) -> bool {
    let g = group_of(m, f.key);
    let h = g.with(f, frame);
    added(m, f, frame).1 is Complete ==> forall|i: int|
        0 <= i < h.pieces.len() ==> (#[trigger] h.pieces[i]).offset <= h.total->0
}

/// A fragment that can be fed: its frame carries one, its end is in range, and the end
/// of its datagram is sound.
pub open spec fn feedable(m: Map<FragKey, GroupModel>, f: IpFrame, frame: u64) -> bool {
    &&& f is Fragment
    &&& frag_of(f).offset + frag_of(f).data.len() <= usize::MAX
    &&& end_is_sound(m, frag_of(f), frame)
}

pub struct IpReassembler {
    groups: Table<FragKey, Group>,
}

impl View for IpReassembler {
    type V = Map<FragKey, GroupModel>;

    closed spec fn view(&self) -> Map<FragKey, GroupModel> {
        self.groups@.map_values(|g: Group| g@)
    }
}

/// Every group is well-formed.
pub open spec fn groups_wf(m: Map<FragKey, GroupModel>) -> bool {
    forall|k: FragKey| #[trigger] m.contains_key(k) ==> m[k].wf()
}

/// The keys of the datagrams that are neither completed nor isolated.
pub open spec fn left_of(m: Map<FragKey, GroupModel>) -> Set<FragKey> {
    Set::new(|k: FragKey| m.contains_key(k) && !m[k].quarantined)
}

/// Keys in strictly increasing order.
pub open spec fn keys_sorted(ks: Seq<FragKey>) -> bool {
    forall|i: int, j: int|
        0 <= i < j < ks.len() ==> key_before(#[trigger] ks[i], #[trigger] ks[j])
}

impl Default for IpReassembler {
    fn default() -> (r: Self)
        ensures
            r@ == Map::<FragKey, GroupModel>::empty(),
            groups_wf(r@),
    {
        IpReassembler::new()
    }
}

impl IpReassembler {
    pub fn new() -> (r: Self)
        ensures
            r@ == Map::<FragKey, GroupModel>::empty(),
            groups_wf(r@),
    {
        let r = IpReassembler { groups: Table::new() };
        assert(r@ =~= Map::<FragKey, GroupModel>::empty());
        r
    }

    /// Feeds one fragment.
    pub fn add(&mut self, frame_index: usize, frag: &IpFrame) -> (r: FragOutcome)
        requires
            groups_wf(old(self)@),
            feedable(old(self)@, *frag, frame_index as u64),
        ensures
            groups_wf(final(self)@),
            final(self)@ == added(old(self)@, frag_of(*frag), frame_index as u64).0,
            r.is(added(old(self)@, frag_of(*frag), frame_index as u64).1),
    {
        match self.try_add(frame_index, frag) {
            Some(r) => r,
            None => FragOutcome::Pending,
        }
    }

    fn shut(&mut self, key: FragKey)
        ensures
            final(self)@ == old(self)@.insert(key, GroupModel::shut()),
    {
        let ghost m = self@;
        let g = Group { pieces: Vec::new(), frames: Vec::new(), total: None, quarantined: true };
        assert(g@.pieces =~= seq![]);
        assert(g@.frames =~= seq![]);
        self.groups.insert(key, g);
        assert(self@ =~= m.insert(key, GroupModel::shut()));
    }

    /// Feeds one fragment. Nothing happens, and nothing comes back, where the frame
    /// carries a whole datagram, where the end of the fragment is out of range, or where
    /// the datagram would be complete with a fragment that starts behind its end.
    pub fn try_add(&mut self, frame_index: usize, frag: &IpFrame) -> (r: Option<FragOutcome>)
        requires
            groups_wf(old(self)@),
        ensures
            groups_wf(final(self)@),
            match r {
                Some(r) => {
                    &&& feedable(old(self)@, *frag, frame_index as u64)
                    &&& final(self)@ == added(old(self)@, frag_of(*frag), frame_index as u64).0
                    &&& r.is(added(old(self)@, frag_of(*frag), frame_index as u64).1)
                },
                None => !feedable(old(self)@, *frag, frame_index as u64) && final(self)@ == old(
                    self,
                )@,
            },
    {
        let ghost m = self@;
        let ghost fm = frag_of(*frag);
        match frag {
            IpFrame::Complete(_) => None,
            IpFrame::Fragment { src, dst, protocol, frag_id, offset, more, data } => {
                let key = FragKey { src: *src, dst: *dst, protocol: *protocol, id: *frag_id };
                let offset: usize = *offset;
                let frame: u64 = frame_index as u64;
                let end: usize = match offset.checked_add(data.len()) {
                    Some(e) => e,
                    None => {
                        return None;
                    },
                };
                let taken = self.groups.remove(&key);
                assert(self@ =~= m.remove(key));
                if end > MAX_DATAGRAM {
                    let mut reason = cat_dec("fragment end ", end as u64);
                    push_text(&mut reason, " exceeds budget ");
                    push_dec(&mut reason, MAX_DATAGRAM as u64);
                    let frames: Vec<usize> = vec![frame_index];
                    assert(widened(frames@) =~= seq![frame]);
                    self.shut(key);
                    assert(self@ =~= m.insert(key, GroupModel::shut()));
                    return Some(
                        FragOutcome::Isolated(
                            Quarantine { key: key_string(&key), reason, fragment_indices: frames },
                        ),
                    );
                }
                let mut group = match taken {
                    Some(g) => g,
                    None => Group {
                        pieces: Vec::new(),
                        frames: Vec::new(),
                        total: None,
                        quarantined: false,
                    },
                };
                let ghost g = group_of(m, key);
                proof {
                    if !m.contains_key(key) {
                        assert(group@.pieces =~= seq![]);
                        assert(group@.frames =~= seq![]);
                    }
                    assert(group@ == g);
                    assert(bounded(g.pieces) && disjoint(g.pieces));
                    assert(g.pieces.len() == g.frames.len());
                    assert(numbered(g.frames));
                }
                if group.quarantined {
                    let ghost rest = self@;
                    assert(m.contains_key(key));
                    self.groups.insert(key, group);
                    assert(self@ =~= rest.insert(key, g));
                    assert(self@ =~= m);
                    return Some(FragOutcome::Pending);
                }
                let mut i: usize = 0;
                let n: usize = group.pieces.len();
                while i < n
                    invariant
                        i <= n,
                        n == group.pieces@.len(),
                        group@ == g,
                        !g.quarantined,
                        bounded(g.pieces),
                        disjoint(g.pieces),
                        g.pieces.len() == g.frames.len(),
                        numbered(g.frames),
                        m == old(self)@,
                        self@ == m.remove(key),
                        groups_wf(m),
                        frag is Fragment,
                        fm == frag_of(*frag),
                        key == fm.key,
                        offset == fm.offset,
                        data@ == fm.data,
                        end == offset + data@.len(),
                        end <= MAX_DATAGRAM,
                        frame == frame_index as u64,
                        g == group_of(m, key),
                        g.first_met(0, offset as int, end as int) == g.first_met(
                            i as int,
                            offset as int,
                            end as int,
                        ),
                    decreases n - i,
                {
                    let p = &group.pieces[i];
                    assert(g.pieces[i as int] == p@);
                    let p_end: usize = p.offset + p.data.len();
                    if offset < p_end && p.offset < end {
                        assert(g.first_met(0, offset as int, end as int) == Some(i as int));
                        if p.offset == offset && same_data(&p.data, data) {
                            proof {
                                assert(m.contains_key(key));
                            }
                            let ghost rest = self@;
                            self.groups.insert(key, group);
                            assert(self@ =~= rest.insert(key, g));
                            assert(self@ =~= m);
                            return Some(FragOutcome::Pending);
                        }
                        let mut frames = copy_numbers(&group.frames);
                        frames.push(frame);
                        let in_order = sort(&frames);
                        proof {
                            lemma_sorted_numbered(frames@);
                        }
                        let indices = narrow(&in_order);
                        let mut reason = cat_dec("overlapping fragments at offsets ", p.offset as u64);
                        push_text(&mut reason, " and ");
                        push_dec(&mut reason, offset as u64);
                        push_text(&mut reason, " (differing content/span)");
                        self.shut(key);
                        assert(self@ =~= m.insert(key, GroupModel::shut()));
                        return Some(
                            FragOutcome::Isolated(
                                Quarantine {
                                    key: key_string(&key),
                                    reason,
                                    fragment_indices: indices,
                                },
                            ),
                        );
                    }
                    i += 1;
                }
                proof {
                    lemma_none_met(g, 0, offset as int, end as int);
                }
                let total_before: Option<usize> = group.total;
                if !*more {
                    group.total = Some(end);
                }
                let ghost before = group.pieces@;
                let piece = Piece { offset, data: copy_bytes(data) };
                let ghost np = piece@;
                group.pieces.push(piece);
                group.frames.push(frame);
                let ghost h = g.with(fm, frame);
                proof {
                    assert(models(group.pieces@) =~= models(before).push(np));
                    assert(group@ == h);
                    assert forall|i: int, j: int| 0 <= i < j < h.pieces.len() implies !(
                    #[trigger] h.pieces[i]).meets((#[trigger] h.pieces[j]).offset, h.pieces[j].end()) by {
                        assert(g.pieces[i] == h.pieces[i]);
                        if j < g.pieces.len() {
                            assert(g.pieces[j] == h.pieces[j]);
                        }
                    }
                    assert forall|i: int| 0 <= i < h.pieces.len() implies (
                    #[trigger] h.pieces[i]).end() <= usize::MAX && h.pieces[i].offset >= 0 by {
                        if i < g.pieces.len() {
                            assert(g.pieces[i] == h.pieces[i]);
                        }
                    }
                    assert(h.wf());
                }
                if let Some(total) = group.total {
                    if covers_all(&group.pieces, total) {
                        if starts_behind(&group.pieces, total) {
                            proof {
                                let i = choose|i: int|
                                    0 <= i < group.pieces@.len() && (#[trigger] models(
                                        group.pieces@,
                                    )[i]).offset > total;
                                assert(h.pieces[i].offset > h.total->0);
                                assert(added(m, fm, frame).1 is Complete);
                                lemma_unsound(m, fm, frame, i);
                                assert(!feedable(m, *frag, frame));
                            }
                            let _ = group.pieces.pop();
                            let _ = group.frames.pop();
                            if n > 0 {
                                group.total = total_before;
                                assert(group.pieces@ =~= before);
                                assert(models(group.pieces@) =~= g.pieces);
                                assert(group.frames@ =~= g.frames);
                                assert(group@ == g);
                                assert(m.contains_key(key));
                                let ghost rest = self@;
                                self.groups.insert(key, group);
                                assert(self@ =~= rest.insert(key, g));
                            }
                            assert(self@ =~= m);
                            return None;
                        }
                        let bytes = assemble(&group.pieces, total);
                        let in_order = sort(&group.frames);
                        proof {
                            assert(group.frames.len() == group.frames@.len());
                            lemma_sorted_numbered(group.frames@);
                        }
                        let frame_indices = narrow(&in_order);
                        return Some(
                            FragOutcome::Complete(
                                Assembled {
                                    key,
                                    src: key.src,
                                    dst: key.dst,
                                    protocol: key.protocol,
                                    bytes,
                                    frame_indices,
                                },
                            ),
                        );
                    }
                }
                let ghost rest = self@;
                self.groups.insert(key, group);
                assert(self@ =~= rest.insert(key, h));
                assert(self@ =~= m.insert(key, h));
                Some(FragOutcome::Pending)
            },
        }
    }

    fn left_keys(&self) -> (r: Vec<FragKey>)
        ensures
            r@.no_duplicates(),
            forall|k: FragKey| #[trigger] r@.contains(k) <==> left_of(self@).contains(k),
    {
        let keys = self.groups.keys();
        let mut r: Vec<FragKey> = Vec::new();
        let mut i: usize = 0;
        while i < keys.len()
            invariant
                i <= keys@.len(),
                keys@.no_duplicates(),
                keys@.to_set() == self.groups@.dom(),
                r@.no_duplicates(),
                forall|k: FragKey| #[trigger]
                    r@.contains(k) <==> keys@.take(i as int).contains(k) && left_of(self@).contains(k),
            decreases keys@.len() - i,
        {
            let k = keys[i];
            let ghost r0 = r@;
            let ghost t0 = keys@.take(i as int);
            let ghost t1 = keys@.take(i + 1);
            proof {
                assert(keys@.to_set().contains(k));
                assert(t1 =~= t0.push(k));
                if t0.contains(k) {
                    assert(keys@[t0.index_of(k)] == keys@[i as int]);
                }
            }
            let mut keep = false;
            if let Some(g) = self.groups.get(&k) {
                assert(self@.contains_key(k) && self@[k] == g@);
                keep = !g.quarantined;
            }
            if keep {
                r.push(k);
            }
            proof {
                assert forall|q: FragKey| #[trigger]
                    r@.contains(q) <==> t1.contains(q) && left_of(self@).contains(q) by {
                    if t0.contains(q) {
                        assert(t1[t0.index_of(q)] == q);
                    }
                    assert(t1[i as int] == k);
                    if t1.contains(q) && t1.index_of(q) < i {
                        assert(t0[t1.index_of(q)] == q);
                    }
                    if r0.contains(q) {
                        assert(r@[r0.index_of(q)] == q);
                    }
                    if r@.contains(q) && r@.index_of(q) < r0.len() {
                        assert(r0[r@.index_of(q)] == q);
                    }
                    if keep {
                        assert(r@[r0.len() as int] == k);
                    }
                }
                assert forall|a: int, b: int| 0 <= a < r@.len() && 0 <= b < r@.len() && a != b implies r@[a]
                    != r@[b] by {
                    if a < r0.len() {
                        assert(r0.contains(r0[a]));
                    }
                    if b < r0.len() {
                        assert(r0.contains(r0[b]));
                    }
                }
            }
            i += 1;
        }
        proof {
            assert(keys@.take(i as int) =~= keys@);
            assert forall|k: FragKey| #[trigger] r@.contains(k) <==> left_of(self@).contains(k) by {
                if self@.contains_key(k) {
                    assert(keys@.to_set().contains(k));
                }
            }
        }
        r
    }

    /// The datagrams that were never completed and never isolated, in the order of their
    /// keys.
    pub fn leftovers(&self) -> (r: Vec<String>)
        ensures
            exists|ks: Seq<FragKey>| #[trigger]
                keys_sorted(ks) && ks.to_set() == left_of(self@) && r@.len() == ks.len() && forall|i: int|
                    0 <= i < ks.len() ==> (#[trigger] r@[i])@ == key_text(ks[i]),
    {
        let keys = self.left_keys();
        let mut s: Vec<FragKey> = Vec::new();
        let mut i: usize = 0;
        while i < keys.len()
            invariant
                i <= keys@.len(),
                keys@.no_duplicates(),
                keys_sorted(s@),
                forall|k: FragKey| #[trigger] s@.contains(k) <==> keys@.take(i as int).contains(k),
            decreases keys@.len() - i,
        {
            let k = keys[i];
            let mut p: usize = s.len();
            while p > 0 && k.precedes(&s[p - 1])
                invariant
                    p <= s@.len(),
                    forall|j: int| p <= j < s@.len() ==> key_before(k, #[trigger] s@[j]),
                decreases p,
            {
                p -= 1;
            }
            let ghost s0 = s@;
            proof {
                let t0 = keys@.take(i as int);
                if p > 0 {
                    let q = s0[p - 1];
                    assert(s0.contains(q));
                    assert(t0.contains(q));
                    let j = t0.index_of(q);
                    assert(keys@[j] != keys@[i as int]);
                    lemma_key_total(k, q);
                }
            }
            s.insert(p, k);
            proof {
                let t0 = keys@.take(i as int);
                let t1 = keys@.take(i + 1);
                assert(t1 =~= t0.push(k));
                assert forall|a: int, b: int| 0 <= a < b < s@.len() implies key_before(
                    #[trigger] s@[a],
                    #[trigger] s@[b],
                ) by {
                    if b < p {
                        assert(key_before(s0[a], s0[b]));
                    } else if b == p {
                        if a < p - 1 {
                            assert(key_before(s0[a], s0[p - 1]));
                        }
                    } else if a == p {
                        assert(key_before(k, s0[b - 1]));
                    } else if a < p {
                        assert(key_before(s0[a], s0[b - 1]));
                    } else {
                        assert(key_before(s0[a - 1], s0[b - 1]));
                    }
                }
                assert forall|q: FragKey| #[trigger] s@.contains(q) <==> t1.contains(q) by {
                    if s0.contains(q) {
                        let a = s0.index_of(q);
                        if a < p {
                            assert(s@[a] == q);
                        } else {
                            assert(s@[a + 1] == q);
                        }
                    }
                    assert(s@[p as int] == k);
                    if t0.contains(q) {
                        assert(t1[t0.index_of(q)] == q);
                    }
                    assert(t1[i as int] == k);
                    if s@.contains(q) {
                        let a = s@.index_of(q);
                        if a < p {
                            assert(s0[a] == q);
                        } else if a > p {
                            assert(s0[a - 1] == q);
                        }
                    }
                    if t1.contains(q) {
                        let a = t1.index_of(q);
                        if a < i {
                            assert(t0[a] == q);
                        }
                    }
                }
            }
            i += 1;
        }
        proof {
            assert(keys@.take(i as int) =~= keys@);
            assert forall|k: FragKey| s@.to_set().contains(k) <==> left_of(self@).contains(k) by {
                assert(s@.contains(k) <==> keys@.contains(k));
            }
            assert(s@.to_set() =~= left_of(self@));
        }
        let mut r: Vec<String> = Vec::new();
        let mut j: usize = 0;
        while j < s.len()
            invariant
                j <= s@.len(),
                r@.len() == j,
                forall|k: int| 0 <= k < j ==> (#[trigger] r@[k])@ == key_text(s@[k]),
            decreases s@.len() - j,
        {
            r.push(key_string(&s[j]));
            j += 1;
        }
        r
    }
}

proof fn lemma_sorted_numbered(frames: Seq<u64>)
    requires
        numbered(frames),
        frames.len() <= usize::MAX,
    ensures
        forall|i: int| 0 <= i < sorted(frames).len() ==> sorted(frames)[i] <= usize::MAX,
{
    crate::sorting::law_sorted_members(frames);
}

proof fn lemma_unsound(m: Map<FragKey, GroupModel>, f: FragModel, frame: u64, i: int)
    requires
        added(m, f, frame).1 is Complete,
        0 <= i < group_of(m, f.key).with(f, frame).pieces.len(),
        group_of(m, f.key).with(f, frame).pieces[i].offset > group_of(m, f.key).with(f, frame).total->0,
    ensures
        !end_is_sound(m, f, frame),
{
}

proof fn lemma_none_met(g: GroupModel, i: int, a: int, b: int)
    requires
        0 <= i,
        g.first_met(i, a, b) is None,
    ensures
        forall|j: int| i <= j < g.pieces.len() ==> !(#[trigger] g.pieces[j]).meets(a, b),
    decreases g.pieces.len() - i,
{
    if i < g.pieces.len() {
        lemma_none_met(g, i + 1, a, b);
    }
}

fn starts_behind(ps: &Vec<Piece>, total: usize) -> (r: bool)
    ensures
        r == exists|i: int| 0 <= i < ps@.len() && (#[trigger] models(ps@)[i]).offset > total,
{
    let mut i: usize = 0;
    while i < ps.len()
        invariant
            i <= ps@.len(),
            forall|j: int| 0 <= j < i ==> (#[trigger] models(ps@)[j]).offset <= total,
        decreases ps@.len() - i,
    {
        assert(models(ps@)[i as int] == ps@[i as int]@);
        if ps[i].offset > total {
            return true;
        }
        i += 1;
    }
    false
}

fn same_data(a: &Vec<u8>, b: &Vec<u8>) -> (r: bool)
    ensures
        r == (a@ == b@),
{
    if a.len() != b.len() {
        return false;
    }
    let mut i: usize = 0;
    while i < a.len()
        invariant
            i <= a@.len(),
            a@.len() == b@.len(),
            forall|k: int| 0 <= k < i ==> a@[k] == b@[k],
        decreases a@.len() - i,
    {
        if a[i] != b[i] {
            return false;
        }
        i += 1;
    }
    assert(a@ =~= b@);
    true
}

/// Feeding a fragment touches no datagram but its own.
pub proof fn law_other_datagrams_untouched(
    m: Map<FragKey, GroupModel>,
    f: FragModel,
    frame: u64,
    other: FragKey,
)
    requires
        other != f.key,
    ensures
        added(m, f, frame).0.contains_key(other) == m.contains_key(other),
        m.contains_key(other) ==> added(m, f, frame).0[other] == m[other],
{
}

/// A fragment that isolates its datagram marks it.
pub proof fn law_isolation_marks(m: Map<FragKey, GroupModel>, f: FragModel, frame: u64)
    requires
        added(m, f, frame).1 is Isolated,
    ensures
        added(m, f, frame).0.contains_key(f.key),
        added(m, f, frame).0[f.key].quarantined,
        !left_of(added(m, f, frame).0).contains(f.key),
{
}

/// Isolation is final: whatever fragments follow, the datagram stays quarantined, is
/// never emitted and is no leftover.
pub proof fn law_quarantine_is_final(
    m: Map<FragKey, GroupModel>,
    key: FragKey,
    f: FragModel,
    frame: u64,
)
    requires
        m.contains_key(key),
        m[key].quarantined,
    ensures
        added(m, f, frame).0.contains_key(key),
        added(m, f, frame).0[key].quarantined,
        f.key == key ==> !(added(m, f, frame).1 is Complete),
        !left_of(added(m, f, frame).0).contains(key),
{
}

/// An exact duplicate of a fragment changes nothing.
pub proof fn law_duplicate_ignored(m: Map<FragKey, GroupModel>, f: FragModel, frame: u64, i: int)
    requires
        groups_wf(m),
        m.contains_key(f.key),
        !m[f.key].quarantined,
        0 <= i < m[f.key].pieces.len(),
        m[f.key].pieces[i] == (PieceModel { offset: f.offset, data: f.data }),
        f.data.len() > 0,
        0 <= f.offset,
        f.offset + f.data.len() <= MAX_DATAGRAM,
    ensures
        added(m, f, frame) == (m, OutcomeModel::Pending),
{
    let g = m[f.key];
    let end = f.offset + f.data.len();
    lemma_first_met(g, 0, f.offset, end, i);
    let j = g.first_met(0, f.offset, end)->0;
    if j != i {
        if j < i {
            assert(!g.pieces[j].meets(g.pieces[i].offset, g.pieces[i].end()));
        }
    }
}

proof fn lemma_first_met(g: GroupModel, i: int, a: int, b: int, k: int)
    requires
        0 <= i <= k < g.pieces.len(),
        g.pieces[k].meets(a, b),
    ensures
        g.first_met(i, a, b) is Some,
        i <= g.first_met(i, a, b)->0 <= k,
        g.pieces[g.first_met(i, a, b)->0].meets(a, b),
    decreases g.pieces.len() - i,
{
    if !g.pieces[i].meets(a, b) {
        lemma_first_met(g, i + 1, a, b, k);
    }
}

} // verus!
