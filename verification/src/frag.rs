//! Reassembly of IP fragments by datagram. A datagram whose fragments overlap
//! or exceed the budget is quarantined as a whole; no other one is touched.

use vstd::prelude::*;
use crate::cover::{
    any_meets, assemble, assembled, bounded, byte_at, covers, covers_all, disjoint, greatest_end,
    held, max_end, meets_any, models, Piece, PieceModel,
};
use crate::sorting::{sort, sorted};
use crate::table::{Key, Table};
use crate::text::{cat_dec, dec, push_dec, push_text};
use crate::types::Ip;
use crate::wire::{FragInfo, FragmentPiece, IpMeta, IpVersion};

verus! {

#[derive(Debug, Clone, Copy, PartialEq, Eq, Structural)]
pub enum QuarantineReason {
    Overlap,
    Oversize,
    TooManyPieces,
    ProtocolMismatch,
    Malformed,
}

impl QuarantineReason {
    pub open spec fn name(self) -> Seq<char> {
        match self {
            QuarantineReason::Overlap => "overlap"@,
            QuarantineReason::Oversize => "oversize"@,
            QuarantineReason::TooManyPieces => "too-many-pieces"@,
            QuarantineReason::ProtocolMismatch => "protocol-mismatch"@,
            QuarantineReason::Malformed => "malformed"@,
        }
    }

    pub fn as_str(&self) -> (r: &'static str)
        ensures
            r@ == self.name(),
    {
        match self {
            QuarantineReason::Overlap => "overlap",
            QuarantineReason::Oversize => "oversize",
            QuarantineReason::TooManyPieces => "too-many-pieces",
            QuarantineReason::ProtocolMismatch => "protocol-mismatch",
            QuarantineReason::Malformed => "malformed",
        }
    }
}

#[derive(Debug, Clone)]
pub struct QuarantineEvent {
    pub key: String,
    pub src: Ip,
    pub dst: Ip,
    pub ip_id: u32,
    pub reason: QuarantineReason,
    pub detail: String,
    pub frame_index: usize,
}

#[derive(Debug, Clone)]
pub struct ReassembledDatagram {
    pub ip: IpMeta,
    /// The whole transport layer segment, header included.
    pub segment: Vec<u8>,
    pub piece_frames: Vec<usize>,
}

#[derive(Debug, Clone)]
pub enum FragEmit {
    Complete(ReassembledDatagram),
    Quarantined(QuarantineEvent),
    /// The datagram waits for more fragments, or is quarantined already.
    Pending,
}

/// What adding a fragment yields.
pub enum EmitModel {
    Complete { ip: IpMeta, segment: Seq<u8>, frames: Seq<u64> },
    Quarantined { ip: IpMeta, reason: QuarantineReason, detail: Seq<char>, frame: usize },
    Nothing,
}

impl FragEmit {
    /// The emitted value is the modelled one.
    pub open spec fn is(self, m: EmitModel) -> bool {
        match (self, m) {
            (FragEmit::Complete(d), EmitModel::Complete { ip, segment, frames }) => {
                &&& d.ip == ip
                &&& d.segment@ == segment
                &&& widened(d.piece_frames@) == frames
            },
            (
                FragEmit::Quarantined(e),
                EmitModel::Quarantined { ip, reason, detail, frame },
            ) => {
                &&& e.key@ == key_text(ip)
                &&& e.src == ip.src
                &&& e.dst == ip.dst
                &&& e.ip_id == ip.id
                &&& e.reason == reason
                &&& e.detail@ == detail
                &&& e.frame_index == frame
            },
            (FragEmit::Pending, EmitModel::Nothing) => true,
            _ => false,
        }
    }
}

/// What tells one datagram from another.
#[derive(Debug, Clone, Copy)]
pub struct GroupKey {
    pub version: IpVersion,
    pub src: Ip,
    pub dst: Ip,
    pub protocol: u8,
    pub id: u32,
}

impl Key for GroupKey {
    fn same(&self, other: &Self) -> (r: bool) {
        self.version == other.version && self.protocol == other.protocol && self.id == other.id
            && self.src.same(&other.src) && self.dst.same(&other.dst)
    }
}

/// The key of a fragment.
pub open spec fn key_of(ip: IpMeta) -> GroupKey {
    GroupKey { version: ip.version, src: ip.src, dst: ip.dst, protocol: ip.protocol, id: ip.id }
}

/// The text of a key.
pub open spec fn key_text(ip: IpMeta) -> Seq<char> {
    let version = match ip.version {
        IpVersion::V4 => "4"@,
        IpVersion::V6 => "6"@,
    };
    let src = version.push('|') + ip.src.mixed_text();
    let dst = src.push('|') + ip.dst.mixed_text();
    let protocol = dst.push('|') + dec(ip.protocol as nat);
    protocol.push('|') + dec(ip.id as nat)
}

struct Group {
    pieces: Vec<Piece>,
    frames: Vec<u64>,
    more: Vec<bool>,
    protocol: u8,
    reason: Option<QuarantineReason>,
}

/// The fragments that a datagram has collected, in order of arrival; with a
/// reason, the datagram is quarantined.
pub struct GroupModel {
    pub pieces: Seq<PieceModel>,
    pub frames: Seq<u64>,
    pub more: Seq<bool>,
    pub protocol: u8,
    pub reason: Option<QuarantineReason>,
}

impl View for Group {
    type V = GroupModel;

    closed spec fn view(&self) -> GroupModel {
        GroupModel {
            pieces: models(self.pieces@),
            frames: self.frames@,
            more: self.more@,
            protocol: self.protocol,
            reason: self.reason,
        }
    }
}

impl GroupModel {
    /// A group without fragments.
    pub open spec fn empty() -> GroupModel {
        GroupModel { pieces: seq![], frames: seq![], more: seq![], protocol: 0, reason: None }
    }

    /// The lists belong together, offsets fit, no two fragments meet, and a group that
    /// is not quarantined holds a fragment.
    pub open spec fn wf(self) -> bool {
        &&& self.pieces.len() == self.frames.len()
        &&& self.pieces.len() == self.more.len()
        &&& bounded(self.pieces)
        &&& disjoint(self.pieces)
        &&& forall|i: int| 0 <= i < self.frames.len() ==> self.frames[i] <= usize::MAX
        &&& self.reason is None ==> self.pieces.len() > 0
    }

    /// The group with one fragment more.
    pub open spec fn with(self, ip: IpMeta, data: Seq<u8>, frame: usize) -> GroupModel {
        GroupModel {
            pieces: self.pieces.push(PieceModel { offset: ip.fragment.offset as int, data }),
            frames: self.frames.push(frame as u64),
            more: self.more.push(ip.fragment.more_fragments),
            protocol: if self.pieces.len() == 0 {
                ip.protocol
            } else {
                self.protocol
            },
            reason: None,
        }
    }

    /// The end that the first `n` fragments set: the greatest end of one after
    /// which no more follow, if there is one.
    pub open spec fn last_end(self, n: int) -> Option<int>
        decreases n,
    {
        if n <= 0 {
            None
        } else {
            let m = self.last_end(n - 1);
            if self.more[n - 1] {
                m
            } else {
                match m {
                    Some(e) if e >= self.pieces[n - 1].end() => Some(e),
                    _ => Some(self.pieces[n - 1].end()),
                }
            }
        }
    }

    /// Why a further fragment quarantines the group, if it does.
    pub open spec fn refuses(self, ip: IpMeta, data: Seq<u8>, cfg: FragConfig) -> Option<
        QuarantineReason,
    > {
        let off = ip.fragment.offset as int;
        if self.pieces.len() == 0 {
            None
        } else if self.protocol != ip.protocol {
            Some(QuarantineReason::ProtocolMismatch)
        } else if self.pieces.len() >= cfg.max_pieces {
            Some(QuarantineReason::TooManyPieces)
        } else if any_meets(self.pieces, off, off + data.len()) {
            Some(QuarantineReason::Overlap)
        } else {
            None
        }
    }
}

/// What goes with a quarantine reason.
pub open spec fn refusal_detail(
    reason: QuarantineReason,
    ip: IpMeta,
    data: Seq<u8>,
    frame: usize,
    cfg: FragConfig,
) -> Seq<char> {
    let off = ip.fragment.offset as nat;
    match reason {
        QuarantineReason::Overlap => "帧 "@ + dec(frame as nat) + " 的分片 ["@ + dec(off) + ","@
            + dec(off + data.len()) + ") 与已有分片重叠"@,
        QuarantineReason::TooManyPieces => "分片数超过上限 "@ + dec(cfg.max_pieces as nat),
        QuarantineReason::ProtocolMismatch => "分片间协议字段不一致"@,
        _ => "畸形分片"@,
    }
}

/// What adding a fragment does to the groups, and what it yields.
pub open spec fn added(
    m: Map<GroupKey, GroupModel>,
    ip: IpMeta,
    data: Seq<u8>,
    frame: usize,
    cfg: FragConfig,
) -> (Map<GroupKey, GroupModel>, EmitModel) {
    let key = key_of(ip);
    let g = if m.contains_key(key) {
        m[key]
    } else {
        GroupModel::empty()
    };
    let h = g.with(ip, data, frame);
    let n = h.pieces.len() as int;
    if ip.fragment.offset % 8 != 0 {
        (
            m,
            EmitModel::Quarantined {
                ip,
                reason: QuarantineReason::Malformed,
                detail: "分片偏移 "@ + dec(ip.fragment.offset as nat) + " 不是 8 字节对齐"@,
                frame,
            },
        )
    } else if g.reason is Some {
        (m, EmitModel::Nothing)
    } else if g.refuses(ip, data, cfg) is Some {
        let reason = g.refuses(ip, data, cfg)->0;
        (
            m.insert(key, GroupModel { reason: Some(reason), ..g }),
            EmitModel::Quarantined {
                ip,
                reason,
                detail: refusal_detail(reason, ip, data, frame, cfg),
                frame,
            },
        )
    } else if max_end(h.pieces) > cfg.max_bytes {
        (
            m.insert(key, GroupModel { reason: Some(QuarantineReason::Oversize), ..h }),
            EmitModel::Quarantined {
                ip,
                reason: QuarantineReason::Oversize,
                detail: "重组边界 "@ + dec(max_end(h.pieces) as nat) + " 超过预算 "@ + dec(
                    cfg.max_bytes as nat,
                ),
                frame,
            },
        )
    } else {
        match h.last_end(n) {
            None => (m.insert(key, h), EmitModel::Nothing),
            Some(total) => if max_end(h.pieces) > total {
                (
                    m.insert(key, GroupModel { reason: Some(QuarantineReason::Oversize), ..h }),
                    EmitModel::Quarantined {
                        ip,
                        reason: QuarantineReason::Oversize,
                        detail: "分片越过末片边界"@,
                        frame,
                    },
                )
            } else if covers(h.pieces, total) {
                (
                    m.remove(key),
                    EmitModel::Complete {
                        ip: IpMeta {
                            fragment: FragInfo { more_fragments: false, offset: 0 },
                            ..ip
                        },
                        segment: assembled(h.pieces, total),
                        frames: sorted(h.frames),
                    },
                )
            } else {
                (m.insert(key, h), EmitModel::Nothing)
            },
        }
    }
}

#[derive(Debug, Clone, Copy)]
pub struct FragConfig {
    pub max_bytes: usize,
    pub max_pieces: usize,
}

impl Default for FragConfig {
    fn default() -> (r: Self)
        ensures
            r.max_bytes == 65_535,
            r.max_pieces == 256,
    {
        FragConfig { max_bytes: 65_535, max_pieces: 256 }
    }
}

pub struct FragTable {
    groups: Table<GroupKey, Group>,
}

impl View for FragTable {
    type V = Map<GroupKey, GroupModel>;

    closed spec fn view(&self) -> Map<GroupKey, GroupModel> {
        self.groups@.map_values(|g: Group| g@)
    }
}

/// Every group is well-formed.
pub open spec fn groups_wf(m: Map<GroupKey, GroupModel>) -> bool {
    forall|k: GroupKey| #[trigger] m.contains_key(k) ==> m[k].wf()
}

fn key_string(ip: &IpMeta) -> (s: String)
    ensures
        s@ == key_text(*ip),
{
    let mut s = match ip.version {
        IpVersion::V4 => "4".to_string(),
        IpVersion::V6 => "6".to_string(),
    };
    s.push('|');
    push_text(&mut s, ip.src.to_mixed_text().as_str());
    s.push('|');
    push_text(&mut s, ip.dst.to_mixed_text().as_str());
    s.push('|');
    push_dec(&mut s, ip.protocol as u64);
    s.push('|');
    push_dec(&mut s, ip.id as u64);
    s
}

fn event(ip: &IpMeta, reason: QuarantineReason, detail: String, frame_index: usize) -> (r: FragEmit)
    ensures
        r.is(EmitModel::Quarantined { ip: *ip, reason, detail: detail@, frame: frame_index }),
{
    FragEmit::Quarantined(
        QuarantineEvent {
            key: key_string(ip),
            src: ip.src,
            dst: ip.dst,
            ip_id: ip.id,
            reason,
            detail,
            frame_index,
        },
    )
}

impl Group {
    fn last_end_of(&self) -> (r: Option<usize>)
        requires
            self@.wf(),
        ensures
            match r {
                Some(e) => self@.last_end(self@.pieces.len() as int) == Some(e as int),
                None => self@.last_end(self@.pieces.len() as int) is None,
            },
    {
        let ghost g = self@;
        let mut m: Option<usize> = None;
        let mut i: usize = 0;
        while i < self.pieces.len()
            invariant
                i <= self.pieces@.len(),
                g == self@,
                g.wf(),
                match m {
                    Some(e) => g.last_end(i as int) == Some(e as int),
                    None => g.last_end(i as int) is None,
                },
            decreases self.pieces@.len() - i,
        {
            assert(g.pieces[i as int] == self.pieces@[i as int]@);
            let end: usize = self.pieces[i].offset + self.pieces[i].data.len();
            if !self.more[i] {
                match m {
                    Some(e) => {
                        if e < end {
                            m = Some(end);
                        }
                    },
                    None => {
                        m = Some(end);
                    },
                }
            }
            i += 1;
        }
        m
    }
}

impl FragTable {
    pub fn new() -> (r: Self)
        ensures
            r@ == Map::<GroupKey, GroupModel>::empty(),
            groups_wf(r@),
    {
        let r = FragTable { groups: Table::new() };
        assert(r@ =~= Map::<GroupKey, GroupModel>::empty());
        r
    }

    /// Adds one fragment.
    pub fn add(&mut self, piece: FragmentPiece, frame_index: usize, cfg: &FragConfig) -> (r: FragEmit)
        requires
            groups_wf(old(self)@),
            piece.ip.fragment.offset + piece.data@.len() <= usize::MAX,
        ensures
            groups_wf(final(self)@),
            final(self)@ == added(old(self)@, piece.ip, piece.data@, frame_index, *cfg).0,
            r.is(added(old(self)@, piece.ip, piece.data@, frame_index, *cfg).1),
    {
        let ip = piece.ip;
        let key = GroupKey {
            version: ip.version,
            src: ip.src,
            dst: ip.dst,
            protocol: ip.protocol,
            id: ip.id,
        };
        let offset: usize = ip.fragment.offset as usize;
        if offset % 8 != 0 {
            let mut detail = cat_dec("分片偏移 ", offset as u64);
            push_text(&mut detail, " 不是 8 字节对齐");
            return event(&ip, QuarantineReason::Malformed, detail, frame_index);
        }
        let ghost m = self@;
        let ghost data = piece.data@;
        let taken = self.groups.remove(&key);
        assert(self@ =~= m.remove(key));
        let mut group = match taken {
            Some(g) => g,
            None => Group {
                pieces: Vec::new(),
                frames: Vec::new(),
                more: Vec::new(),
                protocol: 0,
                reason: None,
            },
        };
        let ghost g = if m.contains_key(key) {
            m[key]
        } else {
            GroupModel::empty()
        };
        proof {
            if !m.contains_key(key) {
                assert(group@.pieces =~= seq![]);
                assert(group@.frames =~= seq![]);
                assert(group@.more =~= seq![]);
            }
            assert(group@ == g);
            assert(bounded(g.pieces) && disjoint(g.pieces));
        }
        if group.reason.is_some() {
            self.groups.insert(key, group);
            assert(self@ =~= m);
            return FragEmit::Pending;
        }
        let end: usize = offset + piece.data.len();
        let refusal: Option<QuarantineReason> = if group.pieces.len() == 0 {
            None
        } else if group.protocol != ip.protocol {
            Some(QuarantineReason::ProtocolMismatch)
        } else if group.pieces.len() >= cfg.max_pieces {
            Some(QuarantineReason::TooManyPieces)
        } else if meets_any(&group.pieces, offset, end) {
            Some(QuarantineReason::Overlap)
        } else {
            None
        };
        assert(refusal == g.refuses(ip, data, *cfg));
        if let Some(reason) = refusal {
            group.reason = Some(reason);
            let ghost q = GroupModel { reason: Some(reason), ..g };
            assert(group@ == q);
            self.groups.insert(key, group);
            assert(self@ =~= m.insert(key, q));
            let detail = match reason {
                QuarantineReason::Overlap => {
                    let mut d = cat_dec("帧 ", frame_index as u64);
                    push_text(&mut d, " 的分片 [");
                    push_dec(&mut d, offset as u64);
                    push_text(&mut d, ",");
                    push_dec(&mut d, end as u64);
                    push_text(&mut d, ") 与已有分片重叠");
                    d
                },
                QuarantineReason::TooManyPieces => cat_dec("分片数超过上限 ", cfg.max_pieces as u64),
                QuarantineReason::ProtocolMismatch => "分片间协议字段不一致".to_string(),
                _ => "畸形分片".to_string(),
            };
            return event(&ip, reason, detail, frame_index);
        }
        if group.pieces.len() == 0 {
            group.protocol = ip.protocol;
        }
        let ghost before = group.pieces@;
        let new_piece = Piece { offset, data: piece.data };
        let ghost np = new_piece@;
        group.pieces.push(new_piece);
        group.frames.push(frame_index as u64);
        group.more.push(ip.fragment.more_fragments);
        let ghost h = g.with(ip, data, frame_index);
        proof {
            assert(models(group.pieces@) =~= models(before).push(np));
            assert(group@ == h);
            assert forall|i: int, j: int| 0 <= i < j < h.pieces.len() implies !(#[trigger] h.pieces[i]).meets(
                (#[trigger] h.pieces[j]).offset,
                h.pieces[j].end(),
            ) by {
                if j == h.pieces.len() - 1 {
                    assert(g.pieces[i] == h.pieces[i]);
                    assert(!any_meets(g.pieces, offset as int, end as int));
                } else {
                    assert(g.pieces[i] == h.pieces[i]);
                    assert(g.pieces[j] == h.pieces[j]);
                }
            }
            assert forall|i: int| 0 <= i < h.pieces.len() implies (#[trigger] h.pieces[i]).end()
                <= usize::MAX && h.pieces[i].offset >= 0 by {
                if i < g.pieces.len() {
                    assert(g.pieces[i] == h.pieces[i]);
                }
            }
            assert(h.wf());
        }
        let top: usize = greatest_end(&group.pieces);
        if top > cfg.max_bytes {
            group.reason = Some(QuarantineReason::Oversize);
            self.groups.insert(key, group);
            assert(self@ =~= m.insert(
                key,
                GroupModel { reason: Some(QuarantineReason::Oversize), ..h },
            ));
            let mut detail = cat_dec("重组边界 ", top as u64);
            push_text(&mut detail, " 超过预算 ");
            push_dec(&mut detail, cfg.max_bytes as u64);
            return event(&ip, QuarantineReason::Oversize, detail, frame_index);
        }
        match group.last_end_of() {
            None => {
                self.groups.insert(key, group);
                assert(self@ =~= m.insert(key, h));
                FragEmit::Pending
            },
            Some(total) => {
                if top > total {
                    group.reason = Some(QuarantineReason::Oversize);
                    self.groups.insert(key, group);
                    assert(self@ =~= m.insert(
                        key,
                        GroupModel { reason: Some(QuarantineReason::Oversize), ..h },
                    ));
                    return event(
                        &ip,
                        QuarantineReason::Oversize,
                        "分片越过末片边界".to_string(),
                        frame_index,
                    );
                }
                if covers_all(&group.pieces, total) {
                    proof {
                        crate::cover::lemma_max_end(h.pieces);
                        assert(models(group.pieces@) == h.pieces);
                    }
                    let segment = assemble(&group.pieces, total);
                    let in_order = sort(&group.frames);
                    proof {
                        crate::sorting::law_sorted_members(h.frames);
                    }
                    let piece_frames = narrow(&in_order);
                    return FragEmit::Complete(
                        ReassembledDatagram {
                            ip: IpMeta {
                                version: ip.version,
                                src: ip.src,
                                dst: ip.dst,
                                protocol: ip.protocol,
                                id: ip.id,
                                fragment: FragInfo { more_fragments: false, offset: 0 },
                                header_checksum_ok: ip.header_checksum_ok,
                            },
                            segment,
                            piece_frames,
                        },
                    );
                }
                self.groups.insert(key, group);
                assert(self@ =~= m.insert(key, h));
                FragEmit::Pending
            },
        }
    }

    /// The groups that wait for more fragments.
    pub fn incomplete_groups(&self) -> (r: Vec<IncompleteGroup>)
        requires
            groups_wf(self@),
        ensures
            exists|ks: Seq<GroupKey>| #[trigger]
                waiting(ks, self@) && r@.len() == ks.len() && forall|i: int|
                    0 <= i < ks.len() ==> (#[trigger] r@[i]).piece_count == self@[ks[i]].pieces.len()
                        && widened(r@[i].frames@) == self@[ks[i]].frames,
    {
        let keys = self.groups.keys();
        let ghost mut ks: Seq<GroupKey> = seq![];
        let mut r: Vec<IncompleteGroup> = Vec::new();
        let mut i: usize = 0;
        while i < keys.len()
            invariant
                i <= keys@.len(),
                keys@.no_duplicates(),
                keys@.to_set() == self.groups@.dom(),
                groups_wf(self@),
                r@.len() == ks.len(),
                ks.no_duplicates(),
                forall|k: GroupKey| #[trigger]
                    ks.contains(k) <==> keys@.take(i as int).contains(k) && self@.contains_key(k)
                        && self@[k].reason is None,
                forall|j: int|
                    0 <= j < ks.len() ==> (#[trigger] r@[j]).piece_count == self@[ks[j]].pieces.len()
                        && widened(r@[j].frames@) == self@[ks[j]].frames,
            decreases keys@.len() - i,
        {
            let k = keys[i];
            let ghost ks0 = ks;
            proof {
                assert(keys@.to_set().contains(k));
                assert(keys@.take(i + 1) =~= keys@.take(i as int).push(k));
                if keys@.take(i as int).contains(k) {
                    let j = keys@.take(i as int).index_of(k);
                    assert(keys@[j] == keys@[i as int]);
                }
                assert(!keys@.take(i as int).contains(k));
            }
            if let Some(g) = self.groups.get(&k) {
                assert(self@.contains_key(k) && self@[k] == g@);
                if g.reason.is_none() {
                    r.push(
                        IncompleteGroup {
                            piece_count: g.pieces.len(),
                            frames: narrow(&g.frames),
                        },
                    );
                    proof {
                        assert(!ks0.contains(k));
                        ks = ks.push(k);
                        assert forall|a: int, b: int| 0 <= a < ks.len() && 0 <= b < ks.len() && a
                            != b implies ks[a] != ks[b] by {
                            if a < ks0.len() {
                                assert(ks0.contains(ks0[a]));
                            }
                            if b < ks0.len() {
                                assert(ks0.contains(ks0[b]));
                            }
                        }
                    }
                }
            }
            proof {
                assert forall|q: GroupKey| #[trigger]
                    ks.contains(q) <==> keys@.take(i + 1).contains(q) && self@.contains_key(q)
                        && self@[q].reason is None by {
                    let t0 = keys@.take(i as int);
                    let t1 = keys@.take(i + 1);
                    if t0.contains(q) {
                        assert(t1[t0.index_of(q)] == q);
                    }
                    if t1.contains(q) && !t0.contains(q) {
                        let j = t1.index_of(q);
                        if j < i {
                            assert(t0[j] == q);
                        }
                    }
                    assert(t1[i as int] == k);
                    if ks0.contains(q) {
                        assert(ks[ks0.index_of(q)] == q);
                    }
                    if ks.contains(q) && !ks0.contains(q) {
                        let j = ks.index_of(q);
                        if j < ks0.len() {
                            assert(ks0[j] == q);
                        }
                    }
                    if ks.len() > ks0.len() {
                        assert(ks[ks0.len() as int] == k);
                    }
                }
            }
            i += 1;
        }
        proof {
            assert(keys@.take(i as int) =~= keys@);
            assert forall|k: GroupKey| #[trigger] ks.contains(k) <==> self@.contains_key(k)
                && self@[k].reason is None by {
                if self@.contains_key(k) {
                    assert(keys@.to_set().contains(k));
                }
            }
            assert(waiting(ks, self@));
        }
        r
    }
}

/// `ks` lists, in some order and each once, the keys of the groups that are not
/// quarantined.
pub open spec fn waiting(ks: Seq<GroupKey>, m: Map<GroupKey, GroupModel>) -> bool {
    &&& ks.no_duplicates()
    &&& forall|k: GroupKey| #[trigger]
        ks.contains(k) <==> m.contains_key(k) && m[k].reason is None
}

/// Frame numbers as 64-bit numbers.
pub open spec fn widened(s: Seq<usize>) -> Seq<u64> {
    Seq::new(s.len(), |i: int| s[i] as u64)
}

pub(crate) fn narrow(v: &Vec<u64>) -> (r: Vec<usize>)
    requires
        forall|i: int| 0 <= i < v@.len() ==> v@[i] <= usize::MAX,
    ensures
        widened(r@) == v@,
{
    let mut r: Vec<usize> = Vec::new();
    let mut i: usize = 0;
    while i < v.len()
        invariant
            i <= v@.len(),
            forall|i: int| 0 <= i < v@.len() ==> v@[i] <= usize::MAX,
            widened(r@) == v@.take(i as int),
        decreases v@.len() - i,
    {
        let ghost r0 = r@;
        r.push(v[i] as usize);
        assert(widened(r@) =~= widened(r0).push(v@[i as int]));
        i += 1;
        assert(widened(r@) =~= v@.take(i as int));
    }
    assert(v@.take(i as int) =~= v@);
    r
}

#[derive(Debug, Clone)]
pub struct IncompleteGroup {
    pub piece_count: usize,
    pub frames: Vec<usize>,
}

/// Adding a fragment touches no datagram but its own.
pub proof fn law_other_datagrams_untouched(
    m: Map<GroupKey, GroupModel>,
    ip: IpMeta,
    data: Seq<u8>,
    frame: usize,
    cfg: FragConfig,
    other: GroupKey,
)
    requires
        other != key_of(ip),
    ensures
        added(m, ip, data, frame, cfg).0.contains_key(other) == m.contains_key(other),
        m.contains_key(other) ==> added(m, ip, data, frame, cfg).0[other] == m[other],
{
}

/// A quarantine is final: a fragment that brings one about, but for one that is out of
/// place by itself, marks its datagram.
pub proof fn law_quarantine_marks(
    m: Map<GroupKey, GroupModel>,
    ip: IpMeta,
    data: Seq<u8>,
    frame: usize,
    cfg: FragConfig,
)
    requires
        ip.fragment.offset % 8 == 0,
        added(m, ip, data, frame, cfg).1 is Quarantined,
    ensures
        added(m, ip, data, frame, cfg).0.contains_key(key_of(ip)),
        added(m, ip, data, frame, cfg).0[key_of(ip)].reason == Some(
            added(m, ip, data, frame, cfg).1->reason,
        ),
{
}

/// A quarantined datagram stays quarantined and yields nothing more.
pub proof fn law_quarantine_is_final(
    m: Map<GroupKey, GroupModel>,
    ip: IpMeta,
    data: Seq<u8>,
    frame: usize,
    cfg: FragConfig,
)
    requires
        m.contains_key(key_of(ip)),
        m[key_of(ip)].reason is Some,
    ensures
        added(m, ip, data, frame, cfg).0 == m,
        !(added(m, ip, data, frame, cfg).1 is Complete),
{
}

/// A completed segment holds every fragment of its datagram as it came.
pub proof fn law_complete_keeps_pieces(
    m: Map<GroupKey, GroupModel>,
    ip: IpMeta,
    data: Seq<u8>,
    frame: usize,
    cfg: FragConfig,
    i: int,
)
    requires
        groups_wf(m),
        added(m, ip, data, frame, cfg).1 is Complete,
        0 <= i <= (if m.contains_key(key_of(ip)) {
            m[key_of(ip)].pieces.len() as int
        } else {
            0
        }),
    ensures
        ({
            let g = if m.contains_key(key_of(ip)) {
                m[key_of(ip)]
            } else {
                GroupModel::empty()
            };
            let p = g.with(ip, data, frame).pieces[i];
            added(m, ip, data, frame, cfg).1->segment.subrange(p.offset, p.end()) == p.data
        }),
{
    let g = if m.contains_key(key_of(ip)) {
        m[key_of(ip)]
    } else {
        GroupModel::empty()
    };
    let h = g.with(ip, data, frame);
    let total = h.last_end(h.pieces.len() as int)->0;
    crate::cover::lemma_max_end(h.pieces);
    assert forall|a: int, b: int| 0 <= a < b < h.pieces.len() implies !(#[trigger] h.pieces[a]).meets(
        (#[trigger] h.pieces[b]).offset,
        h.pieces[b].end(),
    ) by {
        assert(g.pieces[a] == h.pieces[a]);
        if b < g.pieces.len() {
            assert(g.pieces[b] == h.pieces[b]);
        } else {
            assert(!any_meets(g.pieces, h.pieces[b].offset, h.pieces[b].end()));
        }
    }
    if i < g.pieces.len() {
        assert(g.pieces[i] == h.pieces[i]);
        assert(g.wf());
    }
    crate::cover::law_pieces_kept(h.pieces, total, i);
}

/// A fragment that is handed to a table.
pub struct Step {
    pub ip: IpMeta,
    pub data: Seq<u8>,
    pub frame: usize,
}

impl Step {
    /// The fragment as a piece of its datagram.
    pub open spec fn piece(self) -> PieceModel {
        PieceModel { offset: self.ip.fragment.offset as int, data: self.data }
    }
}

/// The groups after the first `n` steps.
pub open spec fn run(
    m: Map<GroupKey, GroupModel>,
    steps: Seq<Step>,
    cfg: FragConfig,
    n: int,
) -> Map<GroupKey, GroupModel>
    decreases n,
{
    if n <= 0 {
        m
    } else {
        let s = steps[n - 1];
        added(run(m, steps, cfg, n - 1), s.ip, s.data, s.frame, cfg).0
    }
}

/// What step `i` yields.
pub open spec fn outcome(
    m: Map<GroupKey, GroupModel>,
    steps: Seq<Step>,
    cfg: FragConfig,
    i: int,
) -> EmitModel {
    added(run(m, steps, cfg, i), steps[i].ip, steps[i].data, steps[i].frame, cfg).1
}

/// Where a datagram stands.
pub enum Status {
    /// No fragment came since the start or since it was completed.
    Idle,
    /// Fragments with these frame numbers came, in this order.
    Waiting(Seq<u64>),
    Quarantined,
}

impl Status {
    /// The frame numbers of the fragments that wait.
    pub open spec fn frames(self) -> Seq<u64> {
        match self {
            Status::Waiting(f) => f,
            _ => seq![],
        }
    }
}

/// Where a datagram stands after the first `n` steps from an empty table, told from what
/// the steps yielded. A fragment that is out of place by itself changes nothing.
pub open spec fn status(steps: Seq<Step>, cfg: FragConfig, key: GroupKey, n: int) -> Status
    decreases n,
{
    if n <= 0 {
        Status::Idle
    } else {
        let before = status(steps, cfg, key, n - 1);
        let s = steps[n - 1];
        if key_of(s.ip) != key || s.ip.fragment.offset % 8 != 0 || before is Quarantined {
            before
        } else {
            match outcome(Map::empty(), steps, cfg, n - 1) {
                EmitModel::Nothing => Status::Waiting(before.frames().push(s.frame as u64)),
                EmitModel::Complete { .. } => Status::Idle,
                EmitModel::Quarantined { .. } => Status::Quarantined,
            }
        }
    }
}

/// After any run of additions to an empty table a datagram is listed as waiting if and
/// only if fragments of it were taken and it was neither completed nor quarantined since;
/// it then holds at least one fragment, and its frame numbers are those of its
/// fragments in order of arrival.
pub proof fn law_waiting_after_a_run(steps: Seq<Step>, cfg: FragConfig, key: GroupKey, n: int)
    requires
        0 <= n <= steps.len(),
    ensures
        ({
            let m = run(Map::empty(), steps, cfg, n);
            &&& match status(steps, cfg, key, n) {
                Status::Idle => !m.contains_key(key),
                Status::Waiting(f) => m.contains_key(key) && m[key].reason is None
                    && m[key].frames == f && m[key].pieces.len() == f.len() && f.len() >= 1,
                Status::Quarantined => m.contains_key(key) && m[key].reason is Some,
            }
            &&& forall|ks: Seq<GroupKey>| #[trigger]
                waiting(ks, m) ==> (ks.contains(key) <==> status(steps, cfg, key, n) is Waiting)
        }),
    decreases n,
{
    if n > 0 {
        law_waiting_after_a_run(steps, cfg, key, n - 1);
    }
}

/// The pieces of the first `n` steps.
pub open spec fn pieces_of(steps: Seq<Step>, n: int) -> Seq<PieceModel> {
    Seq::new(n as nat, |i: int| steps[i].piece())
}

/// The frame numbers of the first `n` steps.
pub open spec fn frames_of(steps: Seq<Step>, n: int) -> Seq<u64> {
    Seq::new(n as nat, |i: int| steps[i].frame as u64)
}

/// The steps are fragments of one datagram that make up `whole`, each offset once.
pub open spec fn tiles(steps: Seq<Step>, whole: Seq<u8>) -> bool {
    &&& steps.len() > 0
    &&& forall|i: int| #![trigger steps[i]]
        0 <= i < steps.len() ==> {
            let p = steps[i].piece();
            &&& key_of(steps[i].ip) == key_of(steps[0].ip)
            &&& p.offset % 8 == 0
            &&& p.data.len() > 0
            &&& p.end() <= whole.len()
            &&& p.data == whole.subrange(p.offset, p.end())
            &&& steps[i].ip.fragment.more_fragments == (p.end() < whole.len())
        }
    &&& disjoint(pieces_of(steps, steps.len() as int))
    &&& covers(pieces_of(steps, steps.len() as int), whole.len() as int)
}

/// The group that the first `n` of these steps make.
spec fn filled(steps: Seq<Step>, n: int) -> GroupModel {
    GroupModel {
        pieces: pieces_of(steps, n),
        frames: frames_of(steps, n),
        more: Seq::new(n as nat, |i: int| steps[i].ip.fragment.more_fragments),
        protocol: if n == 0 {
            0
        } else {
            steps[0].ip.protocol
        },
        reason: None,
    }
}

proof fn lemma_tile_bytes(ps: Seq<PieceModel>, whole: Seq<u8>, x: int)
    requires
        held(ps, x),
        forall|i: int| 0 <= i < ps.len() ==> 0 <= (#[trigger] ps[i]).offset && ps[i].end()
            <= whole.len() && ps[i].data == whole.subrange(ps[i].offset, ps[i].end()),
    ensures
        byte_at(ps, x) == whole[x],
    decreases ps.len(),
{
    let l = ps.last();
    let t = ps.drop_last();
    if ps.len() > 0 {
        assert(ps[ps.len() - 1] == l);
        if !l.holds(x) {
            let i = choose|i: int| 0 <= i < ps.len() && (#[trigger] ps[i]).holds(x);
            assert(t[i] == ps[i]);
            assert(held(t, x));
            assert forall|i: int| 0 <= i < t.len() implies 0 <= (#[trigger] t[i]).offset
                && t[i].end() <= whole.len() && t[i].data == whole.subrange(
                t[i].offset,
                t[i].end(),
            ) by {
                assert(t[i] == ps[i]);
            }
            lemma_tile_bytes(t, whole, x);
        }
    }
}

proof fn lemma_tile_end(steps: Seq<Step>, whole: Seq<u8>, n: int, k: int)
    requires
        tiles(steps, whole),
        0 <= k <= n <= steps.len(),
    ensures
        filled(steps, n).last_end(k) is None || filled(steps, n).last_end(k) == Some(
            whole.len() as int,
        ),
        filled(steps, n).last_end(k) is None <==> forall|i: int|
            0 <= i < k ==> (#[trigger] steps[i]).piece().end() < whole.len(),
    decreases k,
{
    if k > 0 {
        lemma_tile_end(steps, whole, n, k - 1);
        let s = steps[k - 1];
        assert(filled(steps, n).pieces[k - 1] == s.piece());
    }
}

proof fn lemma_tile_step(
    m: Map<GroupKey, GroupModel>,
    steps: Seq<Step>,
    whole: Seq<u8>,
    cfg: FragConfig,
    n: int,
)
    requires
        tiles(steps, whole),
        !m.contains_key(key_of(steps[0].ip)),
        whole.len() <= cfg.max_bytes,
        steps.len() <= cfg.max_pieces,
        0 <= n < steps.len(),
        run(m, steps, cfg, n) == (if n == 0 {
            m
        } else {
            m.insert(key_of(steps[0].ip), filled(steps, n))
        }),
    ensures
        n + 1 < steps.len() ==> {
            &&& outcome(m, steps, cfg, n) is Nothing
            &&& run(m, steps, cfg, n + 1) == m.insert(key_of(steps[0].ip), filled(steps, n + 1))
        },
        n + 1 == steps.len() ==> {
            &&& outcome(m, steps, cfg, n) == (EmitModel::Complete {
                ip: IpMeta {
                    fragment: FragInfo { more_fragments: false, offset: 0 },
                    ..steps[n].ip
                },
                segment: whole,
                frames: sorted(frames_of(steps, n + 1)),
            })
            &&& run(m, steps, cfg, n + 1) == m
        },
{
    let key = key_of(steps[0].ip);
    let s = steps[n];
    let all = pieces_of(steps, steps.len() as int);
    let total = whole.len() as int;
    let now = run(m, steps, cfg, n);
    let g = if now.contains_key(key) {
        now[key]
    } else {
        GroupModel::empty()
    };
    let h = filled(steps, n + 1);
    assert(key_of(s.ip) == key);
    assert(g.pieces =~= pieces_of(steps, n));
    assert(g.frames =~= frames_of(steps, n));
    assert(g.more =~= filled(steps, n).more);
    assert(g.with(s.ip, s.data, s.frame).pieces =~= h.pieces);
    assert(g.with(s.ip, s.data, s.frame).frames =~= h.frames);
    assert(g.with(s.ip, s.data, s.frame).more =~= h.more);
    assert(g.with(s.ip, s.data, s.frame) == h);
    assert(!any_meets(g.pieces, s.piece().offset, s.piece().end())) by {
        if any_meets(g.pieces, s.piece().offset, s.piece().end()) {
            let i = choose|i: int|
                0 <= i < g.pieces.len() && (#[trigger] g.pieces[i]).meets(
                    s.piece().offset,
                    s.piece().end(),
                );
            assert(all[i] == g.pieces[i]);
            assert(all[n] == s.piece());
        }
    }
    assert(g.refuses(s.ip, s.data, cfg) is None);
    crate::cover::lemma_max_end(h.pieces);
    assert(max_end(h.pieces) <= total) by {
        if max_end(h.pieces) > 0 {
            let i = choose|i: int|
                0 <= i < h.pieces.len() && (#[trigger] h.pieces[i]).end() == max_end(h.pieces);
            assert(h.pieces[i] == steps[i].piece());
        }
    }
    lemma_tile_end(steps, whole, n + 1, n + 1);
    if n + 1 < steps.len() {
        let x = steps[n + 1].piece().offset;
        if held(h.pieces, x) {
            let i = choose|i: int| 0 <= i < h.pieces.len() && (#[trigger] h.pieces[i]).holds(x);
            assert(all[i] == h.pieces[i]);
            assert(all[n + 1] == steps[n + 1].piece());
            assert(false);
        }
        assert(0 <= x < total);
        assert(!covers(h.pieces, total));
        assert(m.insert(key, g).insert(key, h) =~= m.insert(key, h));
    } else {
        assert(h.pieces =~= all);
        assert(total > 0) by {
            assert(steps[0].piece().data.len() > 0);
        }
        assert(held(all, total - 1));
        let i = choose|i: int| 0 <= i < all.len() && (#[trigger] all[i]).holds(total - 1);
        assert(steps[i].piece().end() == total);
        assert(h.last_end(n + 1) == Some(total));
        assert forall|x: int| 0 <= x < total implies #[trigger] byte_at(all, x) == whole[x] by {
            assert(held(all, x));
            assert forall|i: int| 0 <= i < all.len() implies 0 <= (#[trigger] all[i]).offset
                && all[i].end() <= whole.len() && all[i].data == whole.subrange(
                all[i].offset,
                all[i].end(),
            ) by {
                assert(all[i] == steps[i].piece());
            }
            lemma_tile_bytes(all, whole, x);
        }
        assert(assembled(h.pieces, total) =~= whole);
        assert(now.remove(key) =~= m);
    }
}

/// Fragments that make up a datagram, each offset once, complete it in whatever order
/// they come: every one but the last yields nothing, the last one yields the datagram,
/// and the table is left as it was.
pub proof fn law_tiles_complete_in_any_order(
    m: Map<GroupKey, GroupModel>,
    steps: Seq<Step>,
    whole: Seq<u8>,
    cfg: FragConfig,
    n: int,
)
    requires
        tiles(steps, whole),
        !m.contains_key(key_of(steps[0].ip)),
        whole.len() <= cfg.max_bytes,
        steps.len() <= cfg.max_pieces,
        0 <= n < steps.len(),
    ensures
        n + 1 < steps.len() ==> outcome(m, steps, cfg, n) is Nothing,
        n + 1 == steps.len() ==> {
            &&& outcome(m, steps, cfg, n) == (EmitModel::Complete {
                ip: IpMeta {
                    fragment: FragInfo { more_fragments: false, offset: 0 },
                    ..steps[n].ip
                },
                segment: whole,
                frames: sorted(frames_of(steps, n + 1)),
            })
            &&& run(m, steps, cfg, n + 1) == m
        },
{
    lemma_tile_run(m, steps, whole, cfg, n);
    lemma_tile_step(m, steps, whole, cfg, n);
}

proof fn lemma_tile_run(
    m: Map<GroupKey, GroupModel>,
    steps: Seq<Step>,
    whole: Seq<u8>,
    cfg: FragConfig,
    n: int,
)
    requires
        tiles(steps, whole),
        !m.contains_key(key_of(steps[0].ip)),
        whole.len() <= cfg.max_bytes,
        steps.len() <= cfg.max_pieces,
        0 <= n < steps.len(),
    ensures
        run(m, steps, cfg, n) == (if n == 0 {
            m
        } else {
            m.insert(key_of(steps[0].ip), filled(steps, n))
        }),
    decreases n,
{
    if n > 0 {
        lemma_tile_run(m, steps, whole, cfg, n - 1);
        lemma_tile_step(m, steps, whole, cfg, n - 1);
    }
}

} // verus!
