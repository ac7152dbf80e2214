//! When a fragment is refused, what waits with the others, and what is told of a datagram
//! that never was completed.

use vstd::prelude::*;
use crate::cover::{any_meets, lemma_max_end, max_end, PieceModel};
use crate::datagrams::{lemma_made, made_of};
use crate::defrag;
use crate::frag;
use crate::fragment;
use crate::ipdefrag;
use crate::ipfrag;
use crate::ipreasm;
use crate::model::PacketModel;
use crate::sorting::sorted;
use crate::types::law_rank_injective;
use crate::wire::IpMeta;

verus! {

/// Some piece has an offset of `a..b`, where neither is empty.
pub open spec fn crossed(ps: Seq<PieceModel>, a: int, b: int) -> bool {
    exists|i: int| 0 <= i < ps.len() && shares(#[trigger] ps[i], a, b)
}

/// A piece reaches into `a..b`.
pub open spec fn shares(p: PieceModel, a: int, b: int) -> bool {
    p.offset < b && a < p.offset + p.data.len()
}

proof fn lemma_crossed(ps: Seq<PieceModel>, a: int, b: int)
    ensures
        any_meets(ps, a, b) == crossed(ps, a, b),
{
    if any_meets(ps, a, b) {
        let i = choose|i: int| 0 <= i < ps.len() && (#[trigger] ps[i]).meets(a, b);
        assert(shares(ps[i], a, b));
    }
    if crossed(ps, a, b) {
        let i = choose|i: int| 0 <= i < ps.len() && shares(#[trigger] ps[i], a, b);
        assert(ps[i].meets(a, b));
    }
}

/// The clock of a datagram starts with its first fragment, and a fragment that waits
/// stands behind those that came before it, with its frame.
pub proof fn law_fragment_waits(
    s: ipdefrag::DefragState,
    cfg: ipdefrag::DefragConfig,
    f: crate::packet::FragModel,
    frame: u64,
    ts: u64,
)
    requires
        ipdefrag::handled(s, cfg, f, frame, ts).1 is Buffered,
    ensures
        ({
            let key = ipdefrag::FragKey {
                src: f.src,
                dst: f.dst,
                proto: f.proto,
                ident: f.ident,
            };
            let t = ipdefrag::handled(s, cfg, f, frame, ts).0;
            let d = t.pending[key];
            let (pieces, frames, first, total) = if s.pending.contains_key(key) {
                let o = s.pending[key];
                (o.pieces, o.frames, o.first_ts, o.total)
            } else {
                (seq![], seq![], ts, None)
            };
            &&& t.pending.contains_key(key)
            &&& t.evidence == s.evidence
            &&& t.poisoned == s.poisoned
            &&& d.first_ts == first
            &&& d.frames == frames.push(frame)
            &&& d.pieces == pieces.push(PieceModel { offset: f.offset, data: f.payload })
            &&& d.total == if f.more {
                total
            } else {
                Some(f.offset + f.payload.len())
            }
        }),
{
}

/// What is noted of a fragment's datagram: a completed one with the frames of all its
/// fragments, an isolated one by its key.
pub proof fn law_outcome_is_noted(
    s: ipdefrag::DefragState,
    cfg: ipdefrag::DefragConfig,
    f: crate::packet::FragModel,
    frame: u64,
    ts: u64,
)
    ensures
        ({
            let key = ipdefrag::FragKey {
                src: f.src,
                dst: f.dst,
                proto: f.proto,
                ident: f.ident,
            };
            let (t, out) = ipdefrag::handled(s, cfg, f, frame, ts);
            let old = if s.pending.contains_key(key) {
                s.pending[key].frames
            } else {
                seq![]
            };
            match out {
                ipdefrag::OutcomeModel::Buffered => t.evidence == s.evidence,
                ipdefrag::OutcomeModel::Complete { key: k, payload, frames } => {
                    &&& k == key
                    &&& frames == old.push(frame)
                    &&& t.evidence.len() == s.evidence.len() + 1
                    &&& t.evidence.last().key == key
                    &&& t.evidence.last().status == "reassembled"@
                    &&& t.evidence.last().frames == frames
                    &&& !t.pending.contains_key(key)
                },
                ipdefrag::OutcomeModel::Isolated(e) => {
                    &&& e.key == key
                    &&& e.status == "isolated"@
                    &&& e.frames == if s.poisoned.contains_key(key) || f.offset + f.payload.len()
                        > cfg.max_datagram_bytes {
                        seq![frame]
                    } else {
                        old.push(frame)
                    }
                    &&& t.evidence == s.evidence.push(e)
                    &&& t.poisoned.contains_key(key)
                },
            }
        }),
{
}

/// Some evidence from `from` on is on a datagram that was not completed.
pub open spec fn left_over(es: Seq<ipdefrag::EvidenceModel>, from: int, k: ipdefrag::FragKey, frames: Seq<u64>) -> bool {
    exists|j: int|
        from <= j < es.len() && (#[trigger] es[j]).key == k && es[j].frames == frames && es[j].status
            == "isolated"@
}

proof fn lemma_flushed(s: ipdefrag::DefragState, ks: Seq<ipdefrag::FragKey>, n: int)
    requires
        0 <= n <= ks.len(),
    ensures
        ({
            let es = ipdefrag::flushed(s, ks, n);
            &&& es.len() == s.evidence.len() + n
            &&& es.take(s.evidence.len() as int) == s.evidence
            &&& forall|i: int|
                0 <= i < n ==> {
                    let e = es[s.evidence.len() + i];
                    e.key == #[trigger] ks[i] && e.frames == s.pending[ks[i]].frames && e.status
                        == "isolated"@
                }
        }),
    decreases n,
{
    if n <= 0 {
        assert(s.evidence.take(s.evidence.len() as int) =~= s.evidence);
    } else {
        lemma_flushed(s, ks, n - 1);
        let es = ipdefrag::flushed(s, ks, n);
        assert(es.take(s.evidence.len() as int) =~= ipdefrag::flushed(s, ks, n - 1).take(
            s.evidence.len() as int,
        ));
    }
}

/// At the end every datagram that waits is noted once as isolated, with the frames of the
/// fragments that came.
pub proof fn law_waiting_datagrams_are_noted(
    s: ipdefrag::DefragState,
    ks: Seq<ipdefrag::FragKey>,
    k: ipdefrag::FragKey,
)
    requires
        ks.no_duplicates(),
        ks.to_set() == s.pending.dom(),
    ensures
        ({
            let es = ipdefrag::flushed(s, ks, ks.len() as int);
            &&& es.len() == s.evidence.len() + ks.len()
            &&& es.take(s.evidence.len() as int) == s.evidence
            &&& s.pending.contains_key(k) ==> left_over(
                es,
                s.evidence.len() as int,
                k,
                s.pending[k].frames,
            )
        }),
{
    lemma_flushed(s, ks, ks.len() as int);
    if s.pending.contains_key(k) {
        assert(ks.to_set().contains(k));
        let i = choose|i: int| 0 <= i < ks.len() && ks[i] == k;
        let es = ipdefrag::flushed(s, ks, ks.len() as int);
        assert(es[s.evidence.len() + i].key == ks[i]);
    }
}

/// A fragment is isolated, and what is held of its datagram dropped, if and only if it
/// does not fit the budget, ends beyond the greatest length, or reaches into a fragment
/// that is held.
pub proof fn law_isolated_exactly_when(
    s: fragment::State,
    k: fragment::KeyModel,
    f: fragment::FragModel,
    i: int,
)
    requires
        s.find(k) == Some(i),
        0 <= i < s.pending.len(),
    ensures
        ({
            let end = f.offset + f.data.len();
            let room = f.data.len() + s.buffered() <= s.budget_bytes;
            let out = s.added(k, f).1;
            out is Isolated <==> !room || end > s.max_datagram || exists|j: int|
                0 <= j < s.pending[i].frags.len() && (#[trigger] s.pending[i].frags[j]).offset < end
                    && f.offset < s.pending[i].frags[j].offset + s.pending[i].frags[j].data.len()
        }),
        s.added(k, f).1 is Isolated ==> s.added(k, f).0.pending == s.pending.remove(i),
{
    let fs = s.pending[i].frags;
    let ps = fragment::pieces_of(fs);
    let end = f.offset + f.data.len();
    lemma_crossed(ps, f.offset, end);
    if crossed(ps, f.offset, end) {
        let j = choose|j: int| 0 <= j < ps.len() && shares(#[trigger] ps[j], f.offset, end);
        assert(fs[j].offset < end);
    }
    if exists|j: int|
        0 <= j < fs.len() && (#[trigger] fs[j]).offset < end && f.offset < fs[j].offset
            + fs[j].data.len() {
        let j = choose|j: int|
            0 <= j < fs.len() && (#[trigger] fs[j]).offset < end && f.offset < fs[j].offset
                + fs[j].data.len();
        assert(shares(ps[j], f.offset, end));
    }
}

/// A fragment that waits is held behind those of its datagram, whose age counts from the
/// latest of them.
pub proof fn law_age_counts_from_the_latest(
    s: fragment::State,
    k: fragment::KeyModel,
    f: fragment::FragModel,
    i: int,
)
    requires
        s.find(k) == Some(i),
        0 <= i < s.pending.len(),
        s.added(k, f).1 is Pending,
        s.pending[i].key == k,
    ensures
        ({
            let o = s.pending[i];
            let t = s.added(k, f).0;
            &&& t.pending.len() == s.pending.len()
            &&& t.pending[i].frags == o.frags.push(f)
            &&& t.pending[i].key == k
            &&& t.pending[i].first_frame == o.first_frame
            &&& t.pending[i].last_ts >= o.last_ts
            &&& t.pending[i].last_ts >= f.ts
            &&& t.pending[i].last_ts == o.last_ts || t.pending[i].last_ts == f.ts
        }),
{
}

proof fn lemma_kept(s: Seq<fragment::SetModel>, now: int, timeout: int, n: int)
    requires
        0 <= n <= s.len(),
    ensures
        ({
            let kept = fragment::kept(s, now, timeout, n);
            let gone = fragment::gone(s, now, timeout, n);
            &&& kept.len() + gone.len() == n
            &&& forall|i: int|
                0 <= i < n && now - (#[trigger] s[i]).last_ts <= timeout ==> kept.contains(s[i])
            &&& forall|j: int|
                0 <= j < kept.len() ==> now - (#[trigger] kept[j]).last_ts <= timeout
                    && s.contains(kept[j])
            &&& forall|i: int|
                0 <= i < n && now - (#[trigger] s[i]).last_ts > timeout ==> gone.contains(s[i].key)
            &&& forall|j: int| 0 <= j < gone.len() ==> aged(s, #[trigger] gone[j], now, timeout)
        }),
    decreases n,
{
    if n > 0 {
        lemma_kept(s, now, timeout, n - 1);
        let a = fragment::kept(s, now, timeout, n - 1);
        let b = fragment::kept(s, now, timeout, n);
        let c = fragment::gone(s, now, timeout, n - 1);
        let d = fragment::gone(s, now, timeout, n);
        assert(s.contains(s[n - 1]));
        assert forall|i: int| 0 <= i < n && now - (#[trigger] s[i]).last_ts <= timeout implies
            b.contains(s[i]) by {
            if i < n - 1 {
                assert(a.contains(s[i]));
                let j = choose|j: int| 0 <= j < a.len() && a[j] == s[i];
                assert(b[j] == s[i]);
            } else {
                assert(b[a.len() as int] == s[i]);
            }
        }
        assert forall|i: int| 0 <= i < n && now - (#[trigger] s[i]).last_ts > timeout implies
            d.contains(s[i].key) by {
            if i < n - 1 {
                assert(c.contains(s[i].key));
                let j = choose|j: int| 0 <= j < c.len() && c[j] == s[i].key;
                assert(d[j] == s[i].key);
            } else {
                assert(d[c.len() as int] == s[i].key);
            }
        }
        assert forall|j: int| 0 <= j < d.len() implies aged(s, #[trigger] d[j], now, timeout) by {
            if j < c.len() {
                assert(aged(s, c[j], now, timeout));
            } else {
                assert(now - s[n - 1].last_ts > timeout && s[n - 1].key == d[j]);
            }
        }
    }
}

/// The datagram of a key is too old.
pub open spec fn aged(s: Seq<fragment::SetModel>, k: fragment::KeyModel, now: int, timeout: int) -> bool {
    exists|i: int| 0 <= i < s.len() && (#[trigger] s[i]).key == k && now - s[i].last_ts > timeout
}

/// What expires is what has had no fragment for longer than the timeout, and nothing
/// else: the rest stays as it is.
pub proof fn law_only_the_old_expire(s: Seq<fragment::SetModel>, now: int, timeout: int, i: int)
    requires
        0 <= i < s.len(),
    ensures
        ({
            let kept = fragment::kept(s, now, timeout, s.len() as int);
            let gone = fragment::gone(s, now, timeout, s.len() as int);
            &&& kept.len() + gone.len() == s.len()
            &&& now - s[i].last_ts <= timeout ==> kept.contains(s[i])
            &&& now - s[i].last_ts > timeout ==> gone.contains(s[i].key) && !kept.contains(s[i])
            &&& forall|j: int| 0 <= j < kept.len() ==> s.contains(#[trigger] kept[j])
            &&& forall|j: int| 0 <= j < gone.len() ==> aged(s, #[trigger] gone[j], now, timeout)
        }),
{
    lemma_kept(s, now, timeout, s.len() as int);
    let kept = fragment::kept(s, now, timeout, s.len() as int);
    if kept.contains(s[i]) {
        let j = choose|j: int| 0 <= j < kept.len() && kept[j] == s[i];
        assert(now - kept[j].last_ts <= timeout);
    }
}

/// A fragment quarantines its datagram if and only if it is out of place by itself, one
/// too many, reaches into another or beyond the limits.
pub proof fn law_quarantined_exactly_when(
    m: Map<frag::GroupKey, frag::GroupModel>,
    ip: IpMeta,
    data: Seq<u8>,
    frame: usize,
    cfg: frag::FragConfig,
)
    requires
        m.contains_key(frag::key_of(ip)),
        m[frag::key_of(ip)].wf(),
        m[frag::key_of(ip)].reason is None,
        m[frag::key_of(ip)].protocol == ip.protocol,
        max_end(m[frag::key_of(ip)].pieces) <= cfg.max_bytes,
        forall|i: int|
            0 <= i < m[frag::key_of(ip)].more.len() ==> #[trigger] m[frag::key_of(ip)].more[i],
    ensures
        ({
            let g = m[frag::key_of(ip)];
            let at = ip.fragment.offset as int;
            let end = at + data.len();
            let out = frag::added(m, ip, data, frame, cfg).1;
            let beyond = exists|i: int|
                0 <= i < g.pieces.len() && (#[trigger] g.pieces[i]).offset
                    + g.pieces[i].data.len() > end;
            out is Quarantined <==> {
                ||| at % 8 != 0
                ||| g.pieces.len() >= cfg.max_pieces
                ||| crossed(g.pieces, at, end)
                ||| end > cfg.max_bytes
                ||| !ip.fragment.more_fragments && beyond
            }
        }),
{
    let g = m[frag::key_of(ip)];
    let at = ip.fragment.offset as int;
    let end = at + data.len();
    let h = g.with(ip, data, frame);
    let n = g.pieces.len() as int;
    lemma_crossed(g.pieces, at, end);
    lemma_max_end(g.pieces);
    lemma_max_end(h.pieces);
    assert(h.pieces.drop_last() =~= g.pieces);
    assert(h.pieces[n].end() == end);
    assert(end <= max_end(h.pieces));
    assert forall|i: int| 0 <= i < n implies (#[trigger] g.pieces[i]).end() <= max_end(
        h.pieces,
    ) by {
        assert(h.pieces[i] == g.pieces[i]);
    }
    if max_end(h.pieces) > 0 {
        let i = choose|i: int| 0 <= i < h.pieces.len() && (#[trigger] h.pieces[i]).end() == max_end(
            h.pieces,
        );
        if i < n {
            assert(h.pieces[i] == g.pieces[i]);
        }
    }
    lemma_no_end(g, h, n);
    assert(h.last_end(n + 1) == if ip.fragment.more_fragments {
        None
    } else {
        Some(end)
    });
}

proof fn lemma_no_end(g: frag::GroupModel, h: frag::GroupModel, n: int)
    requires
        0 <= n <= g.more.len(),
        n <= h.more.len(),
        forall|i: int| 0 <= i < g.more.len() ==> #[trigger] g.more[i],
        forall|i: int| 0 <= i < n ==> #[trigger] h.more[i] == g.more[i],
    ensures
        h.last_end(n) is None,
    decreases n,
{
    if n > 0 {
        lemma_no_end(g, h, n - 1);
        assert(h.more[n - 1] == g.more[n - 1]);
    }
}

/// A completed datagram is made of its fragments and of nothing else, keeps the header of
/// the last one but for its place, and tells the frames of all of them in order.
pub proof fn law_completed_is_what_came(
    m: Map<frag::GroupKey, frag::GroupModel>,
    ip: IpMeta,
    data: Seq<u8>,
    frame: usize,
    cfg: frag::FragConfig,
)
    requires
        frag::groups_wf(m),
    ensures
        ({
            let key = frag::key_of(ip);
            let (pieces, frames) = if m.contains_key(key) {
                (m[key].pieces, m[key].frames)
            } else {
                (seq![], seq![])
            };
            let all = pieces.push(PieceModel { offset: ip.fragment.offset as int, data });
            frag::added(m, ip, data, frame, cfg).1 matches frag::EmitModel::Complete {
                ip: q,
                segment,
                frames: fs,
            } ==> {
                &&& made_of(segment, all)
                &&& fs == sorted(frames.push(frame as u64))
                &&& q.src == ip.src
                &&& q.dst == ip.dst
                &&& q.protocol == ip.protocol
                &&& q.id == ip.id
                &&& q.version == ip.version
                &&& q.fragment.offset == 0
                &&& !q.fragment.more_fragments
                &&& !frag::added(m, ip, data, frame, cfg).0.contains_key(key)
            }
        }),
{
    let key = frag::key_of(ip);
    let g = if m.contains_key(key) {
        m[key]
    } else {
        frag::GroupModel::empty()
    };
    let h = g.with(ip, data, frame);
    let out = frag::added(m, ip, data, frame, cfg).1;
    if out is Complete {
        let total = h.last_end(h.pieces.len() as int)->0;
        lemma_end_sign(h, h.pieces.len() as int);
        lemma_made(h.pieces, total);
    }
}

proof fn lemma_end_sign(h: frag::GroupModel, n: int)
    requires
        0 <= n <= h.pieces.len(),
        forall|i: int| 0 <= i < h.pieces.len() ==> 0 <= (#[trigger] h.pieces[i]).offset,
    ensures
        h.last_end(n) matches Some(e) ==> e >= 0,
    decreases n,
{
    if n > 0 {
        lemma_end_sign(h, n - 1);
        assert(0 <= h.pieces[n - 1].offset);
    }
}

/// A fragment isolates its datagram if and only if it ends beyond the greatest length of
/// one or, where its datagram is not isolated yet, the first fragment that it reaches into
/// is not the same fragment.
pub proof fn law_fed_isolated_exactly_when(
    m: Map<ipfrag::FragKey, ipfrag::GroupModel>,
    f: ipfrag::FragModel,
    frame: u64,
    i: int,
)
    requires
        m.contains_key(f.key),
        !m[f.key].quarantined,
        0 <= i <= m[f.key].pieces.len(),
        forall|j: int|
            0 <= j < i ==> !shares(
                #[trigger] m[f.key].pieces[j],
                f.offset,
                f.offset + f.data.len(),
            ),
        i < m[f.key].pieces.len() ==> shares(
            m[f.key].pieces[i],
            f.offset,
            f.offset + f.data.len(),
        ),
    ensures
        ({
            let g = m[f.key];
            let (t, out) = ipfrag::added(m, f, frame);
            let end = f.offset + f.data.len();
            let met = i < g.pieces.len();
            let same = met && g.pieces[i].offset == f.offset && g.pieces[i].data == f.data;
            &&& out is Isolated <==> end > 65_535 || (met && !same)
            &&& end <= 65_535 && same ==> t == m && out is Pending
            &&& end <= 65_535 && !met && out is Pending ==> {
                &&& t[f.key].pieces == g.pieces.push(PieceModel { offset: f.offset, data: f.data })
                &&& t[f.key].frames == g.frames.push(frame)
                &&& t[f.key].total == if f.more {
                    g.total
                } else {
                    Some(end)
                }
            }
        }),
{
    lemma_first_met(m[f.key], 0, i, f.offset, f.offset + f.data.len());
}

proof fn lemma_first_met(g: ipfrag::GroupModel, a: int, i: int, lo: int, hi: int)
    requires
        0 <= a <= i <= g.pieces.len(),
        forall|j: int| 0 <= j < i ==> !shares(#[trigger] g.pieces[j], lo, hi),
        i < g.pieces.len() ==> shares(g.pieces[i], lo, hi),
    ensures
        g.first_met(a, lo, hi) == if i < g.pieces.len() {
            Some(i)
        } else {
            None
        },
    decreases i - a,
{
    if a < i {
        assert(!shares(g.pieces[a], lo, hi));
        lemma_first_met(g, a + 1, i, lo, hi);
    }
}

/// A fragment quarantines its datagram if and only if there is no room for another
/// datagram, it reaches into a fragment that is held, or the bytes or the length of its
/// datagram exceed the limit; a quarantined datagram stays so.
pub proof fn law_quarantine_has_a_reason(
    m: defrag::DefragModel,
    f: defrag::FragmentModel,
)
    requires
        !m.poisoned.contains(f.key),
    ensures
        ({
            let d = m.held(f.key);
            let end = f.start + f.data.len();
            let (t, out) = m.added(f);
            let met = exists|i: int|
                0 <= i < d.pieces.len() && (#[trigger] d.pieces[i]).start < end && f.start
                    < d.pieces[i].start + d.pieces[i].data.len();
            let length = if f.more {
                d.total
            } else {
                Some(end)
            };
            &&& out is Quarantined <==> {
                ||| m.find(f.key) is None && m.pending.len() >= m.max_datagrams
                ||| met
                ||| d.bytes + f.data.len() > m.max_bytes
                ||| length matches Some(n) && n > m.max_bytes
            }
            &&& out is Quarantined ==> {
                &&& t.poisoned == m.poisoned.insert(f.key)
                &&& t.events.len() == m.events.len() + 1
                &&& t.events.last().kind == "quarantine"@
                &&& t.added(f).1 is Poisoned
            }
            &&& out is Completed ==> t.events.len() == m.events.len() + 1
                && t.events.last().kind == "completed"@ && t.events.last().frames
                == d.frames.push(f.frame)
            &&& out is Buffered ==> t.events == m.events
        }),
{
    let d = m.held(f.key);
    let end = f.start + f.data.len();
    if defrag::any_meets(d.pieces, f.start, f.end()) {
        let i = choose|i: int|
            0 <= i < d.pieces.len() && f.start < (#[trigger] d.pieces[i]).end()
                && d.pieces[i].start < f.end();
        assert(d.pieces[i].start < end);
    }
    if exists|i: int|
        0 <= i < d.pieces.len() && (#[trigger] d.pieces[i]).start < end && f.start
            < d.pieces[i].start + d.pieces[i].data.len() {
        let i = choose|i: int|
            0 <= i < d.pieces.len() && (#[trigger] d.pieces[i]).start < end && f.start
                < d.pieces[i].start + d.pieces[i].data.len();
        assert(d.pieces[i].end() > f.start);
    }
    if m.find(f.key) is None {
        assert(d.key == f.key);
    } else {
        lemma_place_key(m.pending, f.key, m.pending.len() as int);
    }
}

proof fn lemma_place_key(ds: Seq<defrag::DatagramModel>, k: defrag::KeyModel, n: int)
    requires
        0 <= n <= ds.len(),
    ensures
        defrag::place_of(ds, k, n) matches Some(i) ==> 0 <= i < n && ds[i].key == k,
    decreases n,
{
    if n > 0 {
        lemma_place_key(ds, k, n - 1);
    }
}

/// A datagram of packets is quarantined if and only if one of its fragments reached into
/// another, ended beyond the greatest length, or beyond the end of the datagram; each time
/// a note tells the frame.
pub proof fn law_packets_quarantined_exactly_when(w: ipreasm::Progress, p: PacketModel)
    requires
        w.wf(),
        p.mf || p.frag_off != 0,
        w.groups.contains_key(ipreasm::key_text(p)),
    ensures
        ({
            let k = ipreasm::key_text(p);
            let b = w.groups[k];
            let u = w.fed(p);
            let end = p.frag_off + p.l4.len();
            let met = crossed(b.pieces, p.frag_off, end);
            let long = end > 65_535 || (p.mf && (b.total matches Some(t) && end > t));
            &&& u.groups.contains_key(k) ==> u.groups[k].quarantined == (b.quarantined || met
                || long)
            &&& u.groups.contains_key(k) ==> u.groups[k].last_frame == p.frame_idx
                && u.groups[k].first_frame == b.first_frame
            &&& b.quarantined || met || long ==> u.groups.contains_key(k) && u.datagrams
                == w.datagrams
            &&& u.notes.len() == w.notes.len() + (if met {
                1int
            } else {
                0
            }) + (if long {
                1int
            } else {
                0
            })
            &&& u.notes.take(w.notes.len() as int) == w.notes
            &&& forall|i: int|
                w.notes.len() <= i < u.notes.len() ==> (#[trigger] u.notes[i]).frame_idx
                    == p.frame_idx && u.notes[i].key == k
        }),
{
    let k = ipreasm::key_text(p);
    let b = w.groups[k];
    let u = w.fed(p);
    lemma_crossed(b.pieces, p.frag_off, ipreasm::end_of(p));
    assert(u.notes.take(w.notes.len() as int) =~= w.notes);
}

/// The note on a datagram that was not delivered names it, tells its last frame, and tells
/// a quarantined one from one that lacks a fragment.
pub proof fn law_leftovers_tell_apart(k: Seq<char>, a: ipreasm::BucketModel, b: ipreasm::BucketModel)
    ensures
        ipreasm::leftover(k, a).key == k,
        ipreasm::leftover(k, a).frame_idx == a.last_frame,
        (ipreasm::leftover(k, a).reason == ipreasm::leftover(k, b).reason) == (a.quarantined
            == b.quarantined),
{
    reveal_strlit("fragmented datagram quarantined; not delivered to TCP");
    reveal_strlit("incomplete fragmented datagram (missing tail or gap)");
    assert("fragmented datagram quarantined; not delivered to TCP"@[0] == 'f');
    assert("incomplete fragmented datagram (missing tail or gap)"@[0] == 'i');
}

/// A delivered datagram goes by the addresses, the number and the protocol of its
/// fragments.
pub proof fn law_delivered_goes_by_its_fragments(w: ipreasm::Progress, p: PacketModel)
    requires
        w.wf(),
        p.mf || p.frag_off != 0,
        w.groups.contains_key(ipreasm::key_text(p)),
        w.fed(p).datagrams.len() > w.datagrams.len(),
    ensures
        ({
            let b = w.groups[ipreasm::key_text(p)];
            let d = w.fed(p).datagrams.last();
            &&& d.src == b.src
            &&& d.dst == b.dst
            &&& d.ip_version == b.version
            &&& d.ip_id == b.id
            &&& d.proto == b.proto
            &&& d.frag_off == 0
            &&& !d.mf
            &&& d.proto != 6 ==> d.tcp is None
            &&& p.frag_off == 0 ==> d.frame_idx == p.frame_idx
        }),
{
}

/// At the end each datagram that waits is told once, with the frames and the bytes of the
/// fragments that came.
pub proof fn law_unfinished_is_told(d: defrag::DatagramModel, f: defrag::FragmentModel)
    ensures
        ({
            let e = defrag::DefragModel::unfinished(d);
            &&& e.kind == "incomplete"@
            &&& e.reason is Some
            &&& e.key == d.key
            &&& e.frames == d.frames
            &&& e.bytes == d.bytes
        }),
        d.with(f).bytes == d.bytes + f.data.len(),
        d.with(f).frames == d.frames.push(f.frame),
        d.with(f).total == if f.more {
            d.total
        } else {
            Some(f.start + f.data.len())
        },
        defrag::DatagramModel::fresh(f.key).bytes == 0,
        defrag::DatagramModel::fresh(f.key).frames.len() == 0,
{
}

/// The first fragment of a datagram that waits starts its set, with its frame and its
/// time.
pub proof fn law_first_fragment_starts_a_set(
    s: fragment::State,
    k: fragment::KeyModel,
    f: fragment::FragModel,
)
    requires
        s.find(k) is None,
        s.added(k, f).1 is Pending,
    ensures
        ({
            let t = s.added(k, f).0;
            &&& t.pending.len() == s.pending.len() + 1
            &&& t.pending.drop_last() == s.pending
            &&& t.pending.last().key == k
            &&& t.pending.last().frags == seq![f]
            &&& t.pending.last().first_frame == f.frame
            &&& t.pending.last().last_ts == f.ts
            &&& t.budget_bytes == s.budget_bytes
            &&& t.max_datagram == s.max_datagram
            &&& t.timeout == s.timeout
        }),
{
    let t = s.added(k, f).0;
    assert(t.pending.drop_last() =~= s.pending);
    assert(t.pending.last().frags =~= seq![f]);
}

/// A datagram is found by its key exactly where one with that key waits.
pub proof fn law_datagrams_are_found_by_key(
    s: fragment::State,
    k: fragment::KeyModel,
    m: defrag::DefragModel,
    q: defrag::KeyModel,
    i: int,
)
    ensures
        s.find(k) matches Some(j) ==> 0 <= j < s.pending.len() && s.pending[j].key == k,
        0 <= i < s.pending.len() && s.pending[i].key == k ==> s.find(k) is Some,
        m.find(q) matches Some(j) ==> 0 <= j < m.pending.len() && m.pending[j].key == q,
        0 <= i < m.pending.len() && m.pending[i].key == q ==> m.find(q) is Some,
{
    lemma_set_place(s.pending, k, s.pending.len() as int, i);
    lemma_datagram_place(m.pending, q, m.pending.len() as int, i);
}

proof fn lemma_set_place(s: Seq<fragment::SetModel>, k: fragment::KeyModel, n: int, i: int)
    requires
        0 <= n <= s.len(),
    ensures
        fragment::place_of(s, k, n) matches Some(j) ==> 0 <= j < n && s[j].key == k,
        0 <= i < n && s[i].key == k ==> fragment::place_of(s, k, n) is Some,
    decreases n,
{
    if n > 0 {
        lemma_set_place(s, k, n - 1, i);
    }
}

proof fn lemma_datagram_place(s: Seq<defrag::DatagramModel>, k: defrag::KeyModel, n: int, i: int)
    requires
        0 <= n <= s.len(),
    ensures
        defrag::place_of(s, k, n) matches Some(j) ==> 0 <= j < n && s[j].key == k,
        0 <= i < n && s[i].key == k ==> defrag::place_of(s, k, n) is Some,
    decreases n,
{
    if n > 0 {
        lemma_datagram_place(s, k, n - 1, i);
    }
}

/// The keys of datagrams are ordered: of two different keys one comes before the other,
/// and never both.
pub proof fn law_datagram_keys_are_ordered(x: ipfrag::FragKey, y: ipfrag::FragKey, z: ipfrag::FragKey)
    ensures
        !ipfrag::key_before(x, x),
        !(ipfrag::key_before(x, y) && ipfrag::key_before(y, x)),
        x != y ==> ipfrag::key_before(x, y) || ipfrag::key_before(y, x),
        ipfrag::key_before(x, y) && ipfrag::key_before(y, z) ==> ipfrag::key_before(x, z),
{
    if x.src.rank() == y.src.rank() {
        law_rank_injective(x.src, y.src);
    }
    if x.dst.rank() == y.dst.rank() {
        law_rank_injective(x.dst, y.dst);
    }
}

} // verus!
