//! What holds of datagrams that come in fragments, whichever part of the library puts
//! them together: fragments that make up a datagram complete it exactly with the last of
//! them, in any order, and what is completed is made of nothing but fragments that came.

use vstd::prelude::*;
use crate::cover::{
    any_meets, assembled, byte_at, covers, disjoint, held, lemma_max_end, max_end, PieceModel,
};
use crate::ipdefrag;
use crate::ipfrag;
use crate::ipreasm;
use crate::model::PacketModel;
use crate::sorting::{law_sorted, law_sorted_keeps, sorted};

verus! {

/// Pieces make up a byte string: none is empty, each holds the bytes of its place, no two
/// share an offset, and every offset is in one.
pub open spec fn make_up(ps: Seq<PieceModel>, whole: Seq<u8>) -> bool {
    &&& ps.len() > 0
    &&& forall|i: int|
        0 <= i < ps.len() ==> {
            &&& (#[trigger] ps[i]).data.len() > 0
            &&& 0 <= ps[i].offset
            &&& ps[i].offset + ps[i].data.len() <= whole.len()
            &&& ps[i].data == whole.subrange(
                ps[i].offset,
                ps[i].offset + ps[i].data.len(),
            )
        }
    &&& forall|i: int, j: int|
        0 <= i < j < ps.len() ==> (#[trigger] ps[i]).offset + ps[i].data.len() <= (
        #[trigger] ps[j]).offset || ps[j].offset + ps[j].data.len() <= ps[i].offset
    &&& forall|x: int|
        0 <= x < whole.len() ==> #[trigger] reached(ps, x)
}

/// Some piece holds offset `x`.
pub open spec fn reached(ps: Seq<PieceModel>, x: int) -> bool {
    exists|i: int|
        0 <= i < ps.len() && (#[trigger] ps[i]).offset <= x < ps[i].offset + ps[i].data.len()
}

/// A byte string is made of pieces: every byte is that of a piece at its place.
pub open spec fn made_of(bytes: Seq<u8>, ps: Seq<PieceModel>) -> bool {
    forall|x: int| 0 <= x < bytes.len() ==> #[trigger] comes_from(bytes, ps, x)
}

/// The byte at `x` is that of a piece at its place.
pub open spec fn comes_from(bytes: Seq<u8>, ps: Seq<PieceModel>, x: int) -> bool {
    exists|i: int|
        0 <= i < ps.len() && (#[trigger] ps[i]).offset <= x < ps[i].offset + ps[i].data.len()
            && bytes[x] == ps[i].data[x - ps[i].offset]
}

proof fn lemma_held(ps: Seq<PieceModel>, x: int)
    ensures
        held(ps, x) == reached(ps, x),
{
    if held(ps, x) {
        let i = choose|i: int| 0 <= i < ps.len() && (#[trigger] ps[i]).holds(x);
        assert(ps[i].offset <= x < ps[i].offset + ps[i].data.len());
    }
    if reached(ps, x) {
        let i = choose|i: int|
            0 <= i < ps.len() && (#[trigger] ps[i]).offset <= x < ps[i].offset + ps[i].data.len();
        assert(ps[i].holds(x));
    }
}

proof fn lemma_byte_from(ps: Seq<PieceModel>, x: int) -> (i: int)
    requires
        held(ps, x),
    ensures
        0 <= i < ps.len(),
        ps[i].holds(x),
        byte_at(ps, x) == ps[i].data[x - ps[i].offset],
    decreases ps.len(),
{
    if ps.last().holds(x) {
        ps.len() - 1
    } else {
        let t = ps.drop_last();
        let k = choose|k: int| 0 <= k < ps.len() && (#[trigger] ps[k]).holds(x);
        assert(t[k] == ps[k]);
        lemma_byte_from(t, x)
    }
}

pub(crate) proof fn lemma_made(ps: Seq<PieceModel>, total: int)
    requires
        covers(ps, total),
        total >= 0,
    ensures
        made_of(assembled(ps, total), ps),
{
    let b = assembled(ps, total);
    assert forall|x: int| 0 <= x < b.len() implies #[trigger] comes_from(b, ps, x) by {
        assert(held(ps, x));
        let i = lemma_byte_from(ps, x);
        assert(ps[i].offset <= x < ps[i].offset + ps[i].data.len());
    }
}

/// What holds of the first `n` pieces of those that make up a byte string: the next one
/// meets none of them, they do not cover it unless they are all, and all of them are it.
pub(crate) proof fn lemma_prefix(ps: Seq<PieceModel>, whole: Seq<u8>, n: int)
    requires
        make_up(ps, whole),
        0 <= n <= ps.len(),
    ensures
        n < ps.len() ==> !any_meets(
            ps.take(n),
            ps[n].offset,
            ps[n].offset + ps[n].data.len(),
        ),
        n < ps.len() ==> !covers(ps.take(n), whole.len() as int),
        n == ps.len() ==> covers(ps.take(n), whole.len() as int) && assembled(
            ps.take(n),
            whole.len() as int,
        ) == whole && max_end(ps.take(n)) == whole.len(),
        disjoint(ps.take(n)),
        max_end(ps.take(n)) <= whole.len(),
        whole.len() > 0,
{
    let t = ps.take(n);
    assert(0 < ps[0].data.len());
    assert forall|i: int, j: int| 0 <= i < j < t.len() implies !(#[trigger] t[i]).meets(
        (#[trigger] t[j]).offset,
        t[j].end(),
    ) by {
        assert(t[i] == ps[i] && t[j] == ps[j]);
    }
    lemma_max_end(t);
    if max_end(t) > 0 {
        let i = choose|i: int| 0 <= i < t.len() && (#[trigger] t[i]).end() == max_end(t);
        assert(t[i] == ps[i]);
    }
    if n < ps.len() {
        let p = ps[n];
        if any_meets(t, p.offset, p.offset + p.data.len()) {
            let i = choose|i: int|
                0 <= i < t.len() && (#[trigger] t[i]).meets(p.offset, p.offset + p.data.len());
            assert(t[i] == ps[i]);
            assert(ps[i].offset + ps[i].data.len() <= ps[n].offset || ps[n].offset
                + ps[n].data.len() <= ps[i].offset);
        }
        if covers(t, whole.len() as int) {
            assert(held(t, p.offset));
            let i = choose|i: int| 0 <= i < t.len() && (#[trigger] t[i]).holds(p.offset);
            assert(t[i] == ps[i]);
            assert(ps[i].offset + ps[i].data.len() <= ps[n].offset || ps[n].offset
                + ps[n].data.len() <= ps[i].offset);
        }
    } else {
        assert(t =~= ps);
        assert forall|x: int| 0 <= x < whole.len() implies #[trigger] held(ps, x) by {
            lemma_held(ps, x);
            assert(reached(ps, x));
        }
        let b = assembled(ps, whole.len() as int);
        assert forall|x: int| 0 <= x < whole.len() implies b[x] == whole[x] by {
            assert(held(ps, x));
            let i = lemma_byte_from(ps, x);
            assert(ps[i].data[x - ps[i].offset] == whole[x]);
        }
        assert(b =~= whole);
        assert(held(ps, whole.len() - 1));
        let i = choose|i: int| 0 <= i < ps.len() && (#[trigger] ps[i]).holds(whole.len() - 1);
        assert(ps[i].end() == whole.len());
    }
}

/// The fragments of one datagram, as the defragmenter with evidence takes them: a
/// fragment, its frame and its time.
pub type Arrival = (crate::packet::FragModel, u64, u64);

/// The state after the first `n` arrivals.
pub open spec fn arrived(
    s: ipdefrag::DefragState,
    cfg: ipdefrag::DefragConfig,
    a: Seq<Arrival>,
    n: int,
) -> ipdefrag::DefragState
    decreases n,
{
    if n <= 0 {
        s
    } else {
        ipdefrag::handled(
            arrived(s, cfg, a, n - 1),
            cfg,
            a[n - 1].0,
            a[n - 1].1,
            a[n - 1].2,
        ).0
    }
}

/// The places and bytes of arrivals.
pub open spec fn arrived_pieces(a: Seq<Arrival>) -> Seq<PieceModel> {
    Seq::new(a.len(), |i: int| PieceModel { offset: a[i].0.offset, data: a[i].0.payload })
}

/// Arrivals of one datagram that make it up: of one source, destination, protocol and
/// number, the one that ends it says that no more follow and the others say that more
/// do, and none is later than the timeout after the first.
pub open spec fn one_datagram(
    a: Seq<Arrival>,
    whole: Seq<u8>,
    cfg: ipdefrag::DefragConfig,
) -> bool {
    &&& make_up(arrived_pieces(a), whole)
    &&& whole.len() <= cfg.max_datagram_bytes
    &&& a.len() <= cfg.max_fragments
    &&& forall|i: int|
        0 <= i < a.len() ==> {
            &&& (#[trigger] a[i]).0.src == a[0].0.src
            &&& a[i].0.dst == a[0].0.dst
            &&& a[i].0.proto == a[0].0.proto
            &&& a[i].0.ident == a[0].0.ident
            &&& a[i].0.more == (a[i].0.offset + a[i].0.payload.len() < whole.len())
            &&& a[i].2 - a[0].2 <= cfg.timeout_ns
        }
}

proof fn lemma_arrived(
    s: ipdefrag::DefragState,
    cfg: ipdefrag::DefragConfig,
    a: Seq<Arrival>,
    whole: Seq<u8>,
    n: int,
)
    requires
        one_datagram(a, whole, cfg),
        !s.pending.contains_key(ipdefrag::key_of(a[0].0)),
        !s.poisoned.contains_key(ipdefrag::key_of(a[0].0)),
        0 <= n < a.len(),
    ensures
        ({
            let t = arrived(s, cfg, a, n);
            let key = ipdefrag::key_of(a[0].0);
            let d = if t.pending.contains_key(key) {
                t.pending[key]
            } else {
                ipdefrag::DatagramModel::empty(a[n].2)
            };
            &&& t.poisoned == s.poisoned
            &&& t.evidence == s.evidence
            &&& t.pending.contains_key(key) == (n > 0)
            &&& t.pending.remove(key) == s.pending
            &&& d.pieces == arrived_pieces(a).take(n)
            &&& d.frames == Seq::new(n as nat, |i: int| a[i].1)
            &&& n > 0 ==> d.first_ts == a[0].2
            &&& d.total is Some ==> d.total == Some(whole.len() as int)
            &&& d.total is Some <==> exists|i: int| 0 <= i < n && !(#[trigger] a[i]).0.more
        }),
    decreases n,
{
    let ps = arrived_pieces(a);
    let key = ipdefrag::key_of(a[0].0);
    if n > 0 {
        lemma_arrived(s, cfg, a, whole, n - 1);
        lemma_arrival_step(s, cfg, a, whole, n - 1);
        let t0 = arrived(s, cfg, a, n - 1);
        let t = arrived(s, cfg, a, n);
        let e = t.pending[key];
        assert(t.pending.remove(key) =~= s.pending);
        assert(e.pieces =~= ps.take(n));
        assert(e.frames =~= Seq::new(n as nat, |i: int| a[i].1));
        if !a[n - 1].0.more {
            assert(!a[n - 1].0.more);
        }
        if e.total is Some && a[n - 1].0.more {
            let i = choose|i: int| 0 <= i < n - 1 && !(#[trigger] a[i]).0.more;
            assert(!a[i].0.more);
        }
    } else {
        assert(ps.take(0) =~= seq![]);
        assert(Seq::new(0, |i: int| a[i].1) =~= seq![]);
        assert(s.pending.remove(key) =~= s.pending);
    }
}

proof fn lemma_arrival_step(
    s: ipdefrag::DefragState,
    cfg: ipdefrag::DefragConfig,
    a: Seq<Arrival>,
    whole: Seq<u8>,
    n: int,
)
    requires
        one_datagram(a, whole, cfg),
        0 <= n < a.len(),
        ({
            let t = arrived(s, cfg, a, n);
            let key = ipdefrag::key_of(a[0].0);
            let d = if t.pending.contains_key(key) {
                t.pending[key]
            } else {
                ipdefrag::DatagramModel::empty(a[n].2)
            };
            &&& !t.poisoned.contains_key(key)
            &&& t.pending.contains_key(key) == (n > 0)
            &&& d.pieces == arrived_pieces(a).take(n)
            &&& n > 0 ==> d.first_ts == a[0].2
            &&& d.total is Some ==> d.total == Some(whole.len() as int)
            &&& d.total is Some <==> exists|i: int| 0 <= i < n && !(#[trigger] a[i]).0.more
        }),
    ensures
        ({
            let t = arrived(s, cfg, a, n);
            let key = ipdefrag::key_of(a[0].0);
            let d = if t.pending.contains_key(key) {
                t.pending[key]
            } else {
                ipdefrag::DatagramModel::empty(a[n].2)
            };
            let (u, r) = ipdefrag::handled(t, cfg, a[n].0, a[n].1, a[n].2);
            let e = d.with(a[n].0, a[n].1);
            &&& n + 1 < a.len() ==> r is Buffered && u == (ipdefrag::DefragState {
                pending: t.pending.insert(key, e),
                ..t
            })
            &&& n + 1 == a.len() ==> r == (ipdefrag::OutcomeModel::Complete {
                key,
                payload: whole,
                frames: e.frames,
            }) && u.pending == t.pending.remove(key) && u.poisoned == t.poisoned
        }),
{
    let ps = arrived_pieces(a);
    let key = ipdefrag::key_of(a[0].0);
    let t = arrived(s, cfg, a, n);
    let d = if t.pending.contains_key(key) {
        t.pending[key]
    } else {
        ipdefrag::DatagramModel::empty(a[n].2)
    };
    let e = d.with(a[n].0, a[n].1);
    assert(a[n].0.src == a[0].0.src);
    assert(ipdefrag::key_of(a[n].0) == key);
    assert(ps[n].offset == a[n].0.offset && ps[n].data == a[n].0.payload);
    lemma_prefix(ps, whole, n);
    lemma_prefix(ps, whole, n + 1);
    assert(e.pieces =~= ps.take(n + 1));
    assert(d.pieces.len() == n);
    assert(ipdefrag::refusal(t, cfg, a[n].0, a[n].1, a[n].2) is None);
    if n + 1 == a.len() {
        assert(reached(ps, whole.len() - 1));
        let i = choose|i: int|
            0 <= i < ps.len() && (#[trigger] ps[i]).offset <= whole.len() - 1 < ps[i].offset
                + ps[i].data.len();
        assert(!a[i].0.more);
        assert(e.total == Some(whole.len() as int));
    }
}

/// Fragments that make up a datagram complete it, in whatever order they come: each but
/// the last waits, and the last yields the datagram, byte for byte, with the frames of
/// all, and leaves nothing of it behind.
pub proof fn law_fragments_complete_in_any_order(
    s: ipdefrag::DefragState,
    cfg: ipdefrag::DefragConfig,
    a: Seq<Arrival>,
    whole: Seq<u8>,
    n: int,
)
    requires
        one_datagram(a, whole, cfg),
        !s.pending.contains_key(ipdefrag::key_of(a[0].0)),
        !s.poisoned.contains_key(ipdefrag::key_of(a[0].0)),
        0 <= n < a.len(),
    ensures
        ({
            let r = ipdefrag::handled(
                arrived(s, cfg, a, n),
                cfg,
                a[n].0,
                a[n].1,
                a[n].2,
            ).1;
            &&& n + 1 < a.len() ==> r is Buffered
            &&& n + 1 == a.len() ==> {
                &&& r matches ipdefrag::OutcomeModel::Complete { key, payload, frames } && {
                    &&& payload == whole
                    &&& frames == Seq::new(a.len(), |i: int| a[i].1)
                    &&& key.src == a[0].0.src
                    &&& key.dst == a[0].0.dst
                    &&& key.proto == a[0].0.proto
                    &&& key.ident == a[0].0.ident
                }
                &&& arrived(s, cfg, a, n + 1).pending == s.pending
                &&& arrived(s, cfg, a, n + 1).poisoned == s.poisoned
            }
        }),
{
    lemma_arrived(s, cfg, a, whole, n);
    lemma_arrival_step(s, cfg, a, whole, n);
    if n + 1 == a.len() {
        let fr = Seq::new(n as nat, |i: int| a[i].1);
        assert(fr.push(a[n].1) =~= Seq::new(a.len(), |i: int| a[i].1));
    }
}

/// The pieces that a defragmenter holds of a fragment's datagram, and the fragment.
pub open spec fn with_arrival(
    s: ipdefrag::DefragState,
    f: crate::packet::FragModel,
) -> Seq<PieceModel> {
    let key = ipdefrag::FragKey { src: f.src, dst: f.dst, proto: f.proto, ident: f.ident };
    let p = PieceModel { offset: f.offset, data: f.payload };
    if s.pending.contains_key(key) {
        s.pending[key].pieces.push(p)
    } else {
        seq![p]
    }
}

/// What is completed is made of fragments that came, without a hole, and of all of them;
/// what waits is all that came.
pub proof fn law_completed_is_what_came(
    s: ipdefrag::DefragState,
    cfg: ipdefrag::DefragConfig,
    f: crate::packet::FragModel,
    frame: u64,
    ts: u64,
)
    requires
        s.wf(),
        0 <= f.offset,
    ensures
        ({
            let (t, r) = ipdefrag::handled(s, cfg, f, frame, ts);
            let ps = with_arrival(s, f);
            let key = ipdefrag::FragKey {
                src: f.src,
                dst: f.dst,
                proto: f.proto,
                ident: f.ident,
            };
            match r {
                ipdefrag::OutcomeModel::Complete { payload, .. } => {
                    &&& made_of(payload, ps)
                    &&& forall|i: int|
                        0 <= i < ps.len() ==> (#[trigger] ps[i]).offset + ps[i].data.len()
                            <= payload.len()
                    &&& !f.more ==> payload.len() == f.offset + f.payload.len()
                    &&& !t.pending.contains_key(key)
                },
                ipdefrag::OutcomeModel::Buffered => {
                    &&& t.pending.contains_key(key)
                    &&& t.pending[key].pieces == ps
                    &&& !f.more ==> t.pending[key].total == Some(f.offset + f.payload.len())
                },
                ipdefrag::OutcomeModel::Isolated(_) => {
                    &&& t.poisoned.contains_key(key)
                    &&& s.poisoned.contains_key(key) || !t.pending.contains_key(key)
                },
            }
        }),
{
    let key = ipdefrag::key_of(f);
    let ps = with_arrival(s, f);
    let d = if s.pending.contains_key(key) {
        s.pending[key]
    } else {
        ipdefrag::DatagramModel::empty(ts)
    };
    let e = d.with(f, frame);
    assert(e.pieces =~= ps);
    lemma_max_end(e.pieces);
    if ipdefrag::handled(s, cfg, f, frame, ts).1 is Complete {
        lemma_made(e.pieces, e.total->0);
    }
}

/// A fragment isolates its datagram exactly where the datagram was isolated before, the
/// fragment reaches beyond the greatest length, it comes too late, it shares an offset
/// with one that came, or there are too many.
pub proof fn law_isolated_only_for_a_reason(
    s: ipdefrag::DefragState,
    cfg: ipdefrag::DefragConfig,
    f: crate::packet::FragModel,
    frame: u64,
    ts: u64,
)
    requires
        f.payload.len() > 0,
        forall|k: ipdefrag::FragKey, i: int|
            s.pending.contains_key(k) && 0 <= i < s.pending[k].pieces.len() ==> (
            #[trigger] s.pending[k].pieces[i]).data.len() > 0,
    ensures
        ({
            let r = ipdefrag::handled(s, cfg, f, frame, ts).1;
            let key = ipdefrag::FragKey {
                src: f.src,
                dst: f.dst,
                proto: f.proto,
                ident: f.ident,
            };
            let known = s.pending.contains_key(key);
            let shared = known && exists|i: int, x: int|
                #![trigger s.pending[key].pieces[i], in_piece(s.pending[key].pieces[i], x)]
                0 <= i < s.pending[key].pieces.len() && in_piece(s.pending[key].pieces[i], x)
                    && f.offset <= x < f.offset + f.payload.len();
            r is Isolated <==> {
                ||| s.poisoned.contains_key(key)
                ||| f.offset + f.payload.len() > cfg.max_datagram_bytes
                ||| known && ts - s.pending[key].first_ts > cfg.timeout_ns
                ||| shared
                ||| known && s.pending[key].pieces.len() >= cfg.max_fragments
                ||| cfg.max_fragments == 0
            }
        }),
{
    let key = ipdefrag::key_of(f);
    let end = f.offset + f.payload.len();
    if s.pending.contains_key(key) {
        let ps = s.pending[key].pieces;
        let shared = exists|i: int, x: int|
            #![trigger s.pending[key].pieces[i], in_piece(s.pending[key].pieces[i], x)]
            0 <= i < s.pending[key].pieces.len() && in_piece(s.pending[key].pieces[i], x)
                && f.offset <= x < f.offset + f.payload.len();
        assert(any_meets(ps, f.offset, end) == shared) by {
            if any_meets(ps, f.offset, end) {
                let i = choose|i: int| 0 <= i < ps.len() && (#[trigger] ps[i]).meets(f.offset, end);
                assert(s.pending[key].pieces[i].data.len() > 0);
                let x = if ps[i].offset > f.offset {
                    ps[i].offset
                } else {
                    f.offset
                };
                assert(in_piece(s.pending[key].pieces[i], x));
            }
            if shared {
                let (i, x) = choose|i: int, x: int|
                    #![trigger s.pending[key].pieces[i], in_piece(s.pending[key].pieces[i], x)]
                    0 <= i < s.pending[key].pieces.len() && in_piece(s.pending[key].pieces[i], x)
                        && f.offset <= x < f.offset + f.payload.len();
                assert(ps[i].meets(f.offset, end));
            }
        }
    }
}

/// The piece holds offset `x`.
pub open spec fn in_piece(p: PieceModel, x: int) -> bool {
    p.offset <= x < p.offset + p.data.len()
}

/// The fragments of one datagram, as the reassembler of captures takes them, each with
/// its frame.
pub type Fed = (ipfrag::FragModel, u64);

/// The groups after the first `n` fragments.
pub open spec fn fed(
    m: Map<ipfrag::FragKey, ipfrag::GroupModel>,
    a: Seq<Fed>,
    n: int,
) -> Map<ipfrag::FragKey, ipfrag::GroupModel>
    decreases n,
{
    if n <= 0 {
        m
    } else {
        ipfrag::added(fed(m, a, n - 1), a[n - 1].0, a[n - 1].1).0
    }
}

/// The places and bytes of fragments.
pub open spec fn fed_pieces(a: Seq<Fed>) -> Seq<PieceModel> {
    Seq::new(a.len(), |i: int| PieceModel { offset: a[i].0.offset, data: a[i].0.data })
}

/// Fragments that make up one datagram: of one key, the one that ends it says that no
/// more follow, and the others say that more do.
pub open spec fn one_fed(a: Seq<Fed>, whole: Seq<u8>) -> bool {
    &&& make_up(fed_pieces(a), whole)
    &&& whole.len() <= 65_535
    &&& forall|i: int|
        0 <= i < a.len() ==> (#[trigger] a[i]).0.key == a[0].0.key && a[i].0.more == (
        a[i].0.offset + a[i].0.data.len() < whole.len())
}

proof fn lemma_first_met(g: ipfrag::GroupModel, i: int, a: int, b: int)
    requires
        0 <= i,
        !any_meets(g.pieces, a, b),
    ensures
        g.first_met(i, a, b) is None,
    decreases g.pieces.len() - i,
{
    if i < g.pieces.len() {
        assert(!g.pieces[i].meets(a, b));
        lemma_first_met(g, i + 1, a, b);
    }
}

proof fn lemma_fed(
    m: Map<ipfrag::FragKey, ipfrag::GroupModel>,
    a: Seq<Fed>,
    whole: Seq<u8>,
    n: int,
)
    requires
        one_fed(a, whole),
        !m.contains_key(a[0].0.key),
        0 <= n < a.len(),
    ensures
        ({
            let t = fed(m, a, n);
            let key = a[0].0.key;
            let g = ipfrag::group_of(t, key);
            let (u, r) = ipfrag::added(t, a[n].0, a[n].1);
            &&& t.contains_key(key) == (n > 0)
            &&& t.remove(key) == m
            &&& g.pieces == fed_pieces(a).take(n)
            &&& g.frames == Seq::new(n as nat, |i: int| a[i].1)
            &&& !g.quarantined
            &&& g.total is Some ==> g.total == Some(whole.len() as int)
            &&& g.total is Some <==> exists|i: int| 0 <= i < n && !(#[trigger] a[i]).0.more
            &&& n + 1 < a.len() ==> r is Pending && u == t.insert(key, g.with(a[n].0, a[n].1))
            &&& n + 1 == a.len() ==> r == (ipfrag::OutcomeModel::Complete {
                key,
                bytes: whole,
                frames: sorted(Seq::new(a.len(), |i: int| a[i].1)),
            }) && u == m
        }),
    decreases n,
{
    let ps = fed_pieces(a);
    let key = a[0].0.key;
    let t = fed(m, a, n);
    let g = ipfrag::group_of(t, key);
    if n > 0 {
        lemma_fed(m, a, whole, n - 1);
        assert(t.remove(key) =~= m);
        assert(g.pieces =~= ps.take(n));
        assert(g.frames =~= Seq::new(n as nat, |i: int| a[i].1));
        if !a[n - 1].0.more {
            assert(!a[n - 1].0.more);
        }
        if g.total is Some && a[n - 1].0.more {
            let i = choose|i: int| 0 <= i < n - 1 && !(#[trigger] a[i]).0.more;
            assert(!a[i].0.more);
        }
    } else {
        assert(g.pieces =~= ps.take(0));
        assert(Seq::new(0, |i: int| a[i].1) =~= seq![]);
        assert(m.remove(key) =~= m);
    }
    let f = a[n].0;
    let h = g.with(f, a[n].1);
    assert(f.key == key);
    assert(ps[n].offset == f.offset && ps[n].data == f.data);
    lemma_prefix(ps, whole, n);
    lemma_prefix(ps, whole, n + 1);
    assert(h.pieces =~= ps.take(n + 1));
    lemma_first_met(g, 0, f.offset, f.offset + f.data.len());
    if n + 1 == a.len() {
        assert(reached(ps, whole.len() - 1));
        let i = choose|i: int|
            0 <= i < ps.len() && (#[trigger] ps[i]).offset <= whole.len() - 1 < ps[i].offset
                + ps[i].data.len();
        assert(!a[i].0.more);
        assert(h.total == Some(whole.len() as int));
        assert(h.frames =~= Seq::new(a.len(), |i: int| a[i].1));
        assert(t.remove(key) == m);
    }
}

/// Fragments that make up a datagram complete it, in whatever order they come, in the
/// reassembler of captures too.
pub proof fn law_fed_fragments_complete_in_any_order(
    m: Map<ipfrag::FragKey, ipfrag::GroupModel>,
    a: Seq<Fed>,
    whole: Seq<u8>,
    n: int,
)
    requires
        one_fed(a, whole),
        a.len() <= usize::MAX,
        !m.contains_key(a[0].0.key),
        0 <= n < a.len(),
    ensures
        n + 1 < a.len() ==> ipfrag::added(fed(m, a, n), a[n].0, a[n].1).1 is Pending,
        n + 1 == a.len() ==> ({
            let (u, r) = ipfrag::added(fed(m, a, n), a[n].0, a[n].1);
            &&& u == m
            &&& r matches ipfrag::OutcomeModel::Complete { key, bytes, frames } && {
                &&& key == a[0].0.key
                &&& bytes == whole
                &&& frames.len() == a.len()
                &&& forall|i: int| 0 <= i < a.len() ==> frames.contains((#[trigger] a[i]).1)
                &&& forall|i: int, j: int|
                    0 <= i < j < frames.len() ==> (#[trigger] frames[i]) <= (#[trigger] frames[j])
            }
        }),
{
    lemma_fed(m, a, whole, n);
    if n + 1 == a.len() {
        let fr = Seq::new(a.len(), |i: int| a[i].1);
        law_sorted(fr);
        assert forall|i: int| 0 <= i < a.len() implies sorted(fr).contains((#[trigger] a[i]).1) by {
            assert(fr[i] == a[i].1);
            law_sorted_keeps(fr, a[i].1);
        }
    }
}

/// The fragments that wait for the others of their datagram.
pub open spec fn waiting_for(
    m: Map<ipfrag::FragKey, ipfrag::GroupModel>,
    key: ipfrag::FragKey,
) -> Seq<PieceModel> {
    if m.contains_key(key) {
        m[key].pieces
    } else {
        seq![]
    }
}

/// What the reassembler of captures completes is made of fragments that came, without a
/// hole; what waits is all that came, but for a fragment that repeats one that came; and
/// what shares an offset without repeating one is set aside for good.
pub proof fn law_fed_completed_is_what_came(
    m: Map<ipfrag::FragKey, ipfrag::GroupModel>,
    f: ipfrag::FragModel,
    frame: u64,
)
    requires
        0 <= f.offset,
        m.contains_key(f.key) ==> m[f.key].wf() && !m[f.key].quarantined,
        m.contains_key(f.key) ==> (m[f.key].total matches Some(t) ==> t >= 0),
    ensures
        ({
            let (u, r) = ipfrag::added(m, f, frame);
            let p = PieceModel { offset: f.offset, data: f.data };
            let old = waiting_for(m, f.key);
            let repeats = exists|i: int| 0 <= i < old.len() && #[trigger] old[i] == p;
            match r {
                ipfrag::OutcomeModel::Complete { bytes, .. } => {
                    &&& made_of(bytes, old.push(p))
                    &&& !f.more ==> bytes.len() == f.offset + f.data.len()
                    &&& !u.contains_key(f.key)
                },
                ipfrag::OutcomeModel::Pending => {
                    &&& u.contains_key(f.key)
                    &&& u[f.key].pieces == old.push(p) || (repeats && u == m)
                },
                ipfrag::OutcomeModel::Isolated { .. } => {
                    &&& u.contains_key(f.key)
                    &&& u[f.key].quarantined
                    &&& f.offset + f.data.len() > 65_535 || any_meets(
                        old,
                        f.offset,
                        f.offset + f.data.len(),
                    )
                },
            }
        }),
{
    let g = ipfrag::group_of(m, f.key);
    let h = g.with(f, frame);
    let p = PieceModel { offset: f.offset, data: f.data };
    let end = f.offset + f.data.len();
    lemma_first_met_holds(g, 0, f.offset, end);
    let met = g.first_met(0, f.offset, end);
    if met is Some {
        assert(g.pieces[met->0].meets(f.offset, end));
        if g.pieces[met->0].offset == f.offset && g.pieces[met->0].data == f.data {
            assert(g.pieces[met->0] == p);
        }
    }
    if ipfrag::added(m, f, frame).1 is Complete {
        lemma_max_end(h.pieces);
        lemma_made(h.pieces, h.total->0);
    }
    let old = waiting_for(m, f.key);
    assert(g.pieces =~= old);
    if ipfrag::added(m, f, frame).1 is Isolated && end <= 65_535 {
        assert(old[met->0].meets(f.offset, end));
    }
}

proof fn lemma_first_met_holds(g: ipfrag::GroupModel, i: int, a: int, b: int)
    requires
        0 <= i,
    ensures
        g.first_met(i, a, b) matches Some(k) ==> i <= k < g.pieces.len() && g.pieces[k].meets(a, b),
    decreases g.pieces.len() - i,
{
    if i < g.pieces.len() {
        lemma_first_met_holds(g, i + 1, a, b);
    }
}

/// The state of batch reassembly after the first `n` of some packets.
pub open spec fn gone_through(w: ipreasm::Progress, ps: Seq<PacketModel>, n: int) -> ipreasm::Progress
    decreases n,
{
    if n <= 0 {
        w
    } else {
        gone_through(w, ps, n - 1).fed(ps[n - 1])
    }
}

/// The places and bytes of packets.
pub open spec fn packet_pieces(ps: Seq<PacketModel>) -> Seq<PieceModel> {
    Seq::new(ps.len(), |i: int| PieceModel { offset: ps[i].frag_off, data: ps[i].l4 })
}

/// Packets that are the fragments of one datagram and make it up.
pub open spec fn one_packet(ps: Seq<PacketModel>, whole: Seq<u8>) -> bool {
    &&& make_up(packet_pieces(ps), whole)
    &&& whole.len() <= 65_535
    &&& ps.len() > 1
    &&& forall|i: int|
        0 <= i < ps.len() ==> {
            &&& (#[trigger] ps[i]).ip_version == ps[0].ip_version
            &&& ps[i].src == ps[0].src
            &&& ps[i].dst == ps[0].dst
            &&& ps[i].ip_id == ps[0].ip_id
            &&& ps[i].proto == ps[0].proto
            &&& ps[i].mf == (ps[i].frag_off + ps[i].l4.len() < whole.len())
        }
}

proof fn lemma_in_parts(ps: Seq<PacketModel>, whole: Seq<u8>, i: int)
    requires
        one_packet(ps, whole),
        0 <= i < ps.len(),
    ensures
        ps[i].mf || ps[i].frag_off != 0,
{
    let v = packet_pieces(ps);
    if !ps[i].mf && ps[i].frag_off == 0 {
        let j = if i == 0 {
            1int
        } else {
            0
        };
        assert(v[i].offset == 0 && v[i].data.len() >= whole.len());
        assert(v[j].data.len() > 0 && v[j].offset >= 0);
        let (a, b) = if i < j {
            (i, j)
        } else {
            (j, i)
        };
        assert(v[a].offset + v[a].data.len() <= v[b].offset || v[b].offset + v[b].data.len()
            <= v[a].offset);
    }
}

proof fn lemma_gone_through(w: ipreasm::Progress, ps: Seq<PacketModel>, whole: Seq<u8>, n: int)
    requires
        one_packet(ps, whole),
        !w.groups.contains_key(ipreasm::key_text(ps[0])),
        0 <= n < ps.len(),
    ensures
        ({
            let t = gone_through(w, ps, n);
            let k = ipreasm::key_text(ps[0]);
            let b = t.bucket(ps[n]);
            let u = t.fed(ps[n]);
            &&& t.groups.contains_key(k) == (n > 0)
            &&& t.groups.remove(k) == w.groups
            &&& t.datagrams == w.datagrams
            &&& t.notes == w.notes
            &&& b.pieces == packet_pieces(ps).take(n)
            &&& b.frames == Seq::new(n as nat, |i: int| ps[i].frame_idx)
            &&& !b.quarantined
            &&& b.src == ps[0].src && b.dst == ps[0].dst && b.version == ps[0].ip_version
            &&& b.id == ps[0].ip_id && b.proto == ps[0].proto
            &&& b.total is Some ==> b.total == Some(whole.len() as int)
            &&& b.total is Some <==> exists|i: int| 0 <= i < n && !(#[trigger] ps[i]).mf
            &&& n + 1 < ps.len() ==> u == (ipreasm::Progress {
                groups: t.groups.insert(k, b.with(ps[n])),
                ..t
            })
            &&& n + 1 == ps.len() ==> u.groups == w.groups && u.notes == w.notes && u.datagrams
                == w.datagrams.push(b.with(ps[n]).datagram()) && b.with(ps[n]).datagram().l4
                == whole
        }),
    decreases n,
{
    let v = packet_pieces(ps);
    let k = ipreasm::key_text(ps[0]);
    let t = gone_through(w, ps, n);
    let p = ps[n];
    let b = t.bucket(p);
    assert(ps[n].src == ps[0].src);
    assert(ipreasm::key_text(p) == k);
    if n > 0 {
        lemma_gone_through(w, ps, whole, n - 1);
        let q = ps[n - 1];
        assert(q.src == ps[0].src);
        assert(t.groups.remove(k) =~= w.groups);
        assert(b.pieces =~= v.take(n));
        assert(b.frames =~= Seq::new(n as nat, |i: int| ps[i].frame_idx));
        if !q.mf {
            assert(!ps[n - 1].mf);
        }
        if b.total is Some && q.mf {
            let i = choose|i: int| 0 <= i < n - 1 && !(#[trigger] ps[i]).mf;
            assert(!ps[i].mf);
        }
    } else {
        assert(b.pieces =~= v.take(0));
        assert(Seq::new(0, |i: int| ps[i].frame_idx) =~= seq![]);
        assert(w.groups.remove(k) =~= w.groups);
    }
    let h = b.with(p);
    assert(v[n].offset == p.frag_off && v[n].data == p.l4);
    lemma_prefix(v, whole, n);
    lemma_prefix(v, whole, n + 1);
    lemma_in_parts(ps, whole, n);
    assert(h.pieces =~= v.take(n + 1));
    assert(!b.overlaps(p));
    assert(!b.too_long(p));
    assert(t.notes + seq![] + seq![] =~= t.notes);
    let u = t.fed(p);
    if n + 1 == ps.len() {
        assert(reached(v, whole.len() - 1));
        let i = choose|i: int|
            0 <= i < v.len() && (#[trigger] v[i]).offset <= whole.len() - 1 < v[i].offset
                + v[i].data.len();
        assert(!ps[i].mf);
        assert(h.total == Some(whole.len() as int));
        assert forall|j: int| 0 <= j < h.pieces.len() implies (#[trigger] h.pieces[j]).end()
            <= whole.len() by {
            assert(h.pieces[j] == v[j]);
        }
        assert(h.complete());
    }
}

/// Fragments that make up a datagram complete it, in whatever order they come, in batch
/// reassembly too: nothing is delivered before the last of them, and then the datagram
/// is, byte for byte, as one that came whole from its source to its destination; nothing
/// is noted, and nothing of it is left over.
pub proof fn law_packets_complete_in_any_order(
    w: ipreasm::Progress,
    ps: Seq<PacketModel>,
    whole: Seq<u8>,
    n: int,
)
    requires
        one_packet(ps, whole),
        !w.groups.contains_key(ipreasm::key_text(ps[0])),
        0 <= n < ps.len(),
    ensures
        ({
            let u = gone_through(w, ps, n + 1);
            &&& u.notes == w.notes
            &&& n + 1 < ps.len() ==> u.datagrams == w.datagrams
            &&& n + 1 == ps.len() ==> {
                let d = u.datagrams.last();
                &&& u.groups == w.groups
                &&& u.datagrams.len() == w.datagrams.len() + 1
                &&& u.datagrams.drop_last() == w.datagrams
                &&& d.l4 == whole
                &&& d.frag_off == 0
                &&& !d.mf
                &&& d.src == ps[0].src
                &&& d.dst == ps[0].dst
                &&& d.ip_version == ps[0].ip_version
                &&& d.ip_id == ps[0].ip_id
                &&& d.proto == ps[0].proto
            }
        }),
{
    lemma_gone_through(w, ps, whole, n);
    let u = gone_through(w, ps, n + 1);
    if n + 1 == ps.len() {
        assert(u.datagrams.drop_last() =~= w.datagrams);
    }
}

/// A packet that is no fragment is delivered as it is.
pub proof fn law_whole_packet_passes(w: ipreasm::Progress, p: PacketModel)
    requires
        !p.mf,
        p.frag_off == 0,
    ensures
        w.fed(p).datagrams == w.datagrams.push(p),
        w.fed(p).groups == w.groups,
        w.fed(p).notes == w.notes,
{
}

/// What batch reassembly delivers of fragments is made of fragments that came.
pub proof fn law_delivered_is_what_came(w: ipreasm::Progress, p: PacketModel)
    requires
        w.wf(),
        p.mf || p.frag_off != 0,
        0 <= p.frag_off,
    ensures
        ({
            let u = w.fed(p);
            let k = ipreasm::key_text(p);
            let old = if w.groups.contains_key(k) {
                w.groups[k].pieces
            } else {
                seq![]
            };
            let ps = old.push(PieceModel { offset: p.frag_off, data: p.l4 });
            &&& u.datagrams.len() <= w.datagrams.len() + 1
            &&& w.datagrams.is_prefix_of(u.datagrams)
            &&& u.datagrams.len() > w.datagrams.len() ==> {
                &&& made_of(u.datagrams.last().l4, ps)
                &&& !p.mf ==> u.datagrams.last().l4.len() == p.frag_off + p.l4.len()
                &&& !any_meets(old, p.frag_off, p.frag_off + p.l4.len())
                &&& !u.groups.contains_key(k)
            }
            &&& u.datagrams.len() == w.datagrams.len() ==> u.groups.contains_key(k)
                && u.groups[k].pieces == ps
        }),
{
    let b = w.bucket(p);
    let h = b.with(p);
    if !w.groups.contains_key(ipreasm::key_text(p)) {
        assert(b.pieces =~= seq![]);
    }
    if !h.quarantined && h.complete() {
        if w.groups.contains_key(ipreasm::key_text(p)) {
            assert(b.wf());
        }
        lemma_made(h.pieces, h.total->0);
    }
}

} // verus!
