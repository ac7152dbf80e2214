//! The generations of a connection: how they are numbered, what opens and ends them, and
//! what is left of them at the end of a capture.

use vstd::prelude::*;
use crate::connections::between;
use crate::packet::SegmentModel;
use crate::session::{
    all_closed, closed, direction_of, key_before, normalized, processed, DetailModel, DoneModel, Endpoint,
    EngineState, EventModel, GenModel, OverlapPolicy, SessionConfig, TupleKey,
};
use crate::streams::{law_key_holds_the_endpoints, open_of, way};
use crate::tcp::{
    canon_of, endpoint_text, last_place, lemma_closed_words, lemma_last_place, lemma_target, places,
    DatagramModel, EngineModel, SessionModel,
};
use crate::text::{dec, dec_int, text_le};

verus! {

/// The number of the next generation of a connection: generations are counted from 0.
pub open spec fn next_number(s: EngineState, src: Endpoint, dst: Endpoint) -> int {
    let key = normalized(src, dst).0;
    if s.trackers.contains_key(key) {
        s.trackers[key].next_gen as int
    } else {
        0
    }
}

/// The generations of a connection are numbered one after the other: a segment that
/// starts one uses up one number, and every other segment none.
pub proof fn law_generations_count_up(
    s: EngineState,
    cfg: SessionConfig,
    src: Endpoint,
    dst: Endpoint,
    seg: SegmentModel,
    ts: u64,
    frame: u64,
)
    requires
        s.wf(),
        src != dst,
        next_number(s, src, dst) < u32::MAX,
    ensures
        ({
            let t = processed(s, cfg, src, dst, seg, ts, frame);
            let n = next_number(s, src, dst);
            let m = next_number(t, src, dst);
            &&& m == n || m == n + 1
            &&& m == n ==> (open_of(t, src, dst) matches Some(h) ==> (open_of(s, src, dst) matches Some(
                g,
            ) && g.id == h.id && g.first_ts == h.first_ts && g.partial == h.partial))
            &&& m == n + 1 ==> match open_of(t, src, dst) {
                Some(h) => h.id == n && h.first_ts == ts && h.frames == seq![frame],
                None => t.done.len() > s.done.len() && t.done.last().generation == n
                    && t.done.last().first_ts == ts && t.done.last().frames == seq![frame],
            }
        }),
{
    law_key_holds_the_endpoints(src, dst);
    let t = processed(s, cfg, src, dst, seg, ts, frame);
    match open_of(t, src, dst) {
        Some(h) => {
            if next_number(t, src, dst) == next_number(s, src, dst) + 1 {
                assert(h.frames =~= seq![frame]);
            }
        },
        None => {
            if next_number(t, src, dst) == next_number(s, src, dst) + 1 {
                assert(t.done.last().frames =~= seq![frame]);
            }
        },
    }
}

/// The initial number of a direction is that of its first SYN, whatever else comes.
pub proof fn law_first_syn_counts(
    s: EngineState,
    cfg: SessionConfig,
    src: Endpoint,
    dst: Endpoint,
    seg: SegmentModel,
    ts: u64,
    frame: u64,
)
    requires
        s.wf(),
        src != dst,
        open_of(s, src, dst) is Some,
        ts - open_of(s, src, dst)->0.last_ts <= cfg.timeout_ns,
        seg.flags & 0x02 == 0 || seg.flags & 0x10 != 0,
    ensures
        ({
            let g = open_of(s, src, dst)->0;
            let t = processed(s, cfg, src, dst, seg, ts, frame);
            open_of(t, src, dst) matches Some(h) ==> {
                &&& way(h, dst, src) == way(g, dst, src)
                &&& way(h, src, dst).isn == if way(g, src, dst).isn is None && seg.flags & 0x02
                    != 0 {
                    Some(seg.seq)
                } else {
                    way(g, src, dst).isn
                }
                &&& h.events == g.events
                &&& h.key == g.key
            }
        }),
{
    law_key_holds_the_endpoints(src, dst);
}

/// A connection was ended by FINs not longer ago than the timeout.
pub open spec fn ended_lately(
    s: EngineState,
    cfg: SessionConfig,
    src: Endpoint,
    dst: Endpoint,
    ts: u64,
) -> bool {
    let key = normalized(src, dst).0;
    &&& s.trackers.contains_key(key)
    &&& s.trackers[key].last_closed matches Some(i) && s.done[i].close_reason == "fin"@ && ts
        - s.done[i].last_ts <= cfg.timeout_ns
}

/// A bare reset right after the FINs of a connection belongs to it: it is noted with the
/// report that is there, and opens nothing. Any other reset on a connection that is not
/// open is a generation of its own, which it also ends.
pub proof fn law_reset_without_a_connection(
    s: EngineState,
    cfg: SessionConfig,
    src: Endpoint,
    dst: Endpoint,
    seg: SegmentModel,
    ts: u64,
    frame: u64,
)
    requires
        s.wf(),
        src != dst,
        open_of(s, src, dst) is None,
        seg.flags & 0x04 != 0,
    ensures
        ({
            let t = processed(s, cfg, src, dst, seg, ts, frame);
            let bare = seg.flags & 0x02 == 0 && seg.payload.len() == 0;
            let key = normalized(src, dst).0;
            &&& open_of(t, src, dst) is None
            &&& bare && ended_lately(s, cfg, src, dst, ts) ==> {
                let i = s.trackers[key].last_closed->0;
                &&& t.done.len() == s.done.len()
                &&& forall|j: int|
                    0 <= j < s.done.len() && j != i ==> #[trigger] t.done[j] == s.done[j]
                &&& t.done[i].events == s.done[i].events.push(
                    EventModel { frame: Some(frame), detail: DetailModel::RstAfterClose },
                )
                &&& t.done[i] == (DoneModel { events: t.done[i].events, ..s.done[i] })
            }
            &&& !(bare && ended_lately(s, cfg, src, dst, ts)) ==> {
                let d = t.done.last();
                &&& t.done.len() == s.done.len() + 1
                &&& t.done.drop_last() == s.done
                &&& d.close_reason == "rst"@
                &&& d.frames == seq![frame]
                &&& d.first_ts == ts
                &&& d.last_ts == ts
                &&& d.generation == next_number(s, src, dst)
                &&& d.partial == !(seg.flags & 0x02 != 0 && seg.flags & 0x10 == 0)
            }
        }),
{
    law_key_holds_the_endpoints(src, dst);
    let t = processed(s, cfg, src, dst, seg, ts, frame);
    if t.done.len() == s.done.len() + 1 {
        assert(t.done.drop_last() =~= s.done);
        assert(t.done.last().frames =~= seq![frame]);
    }
}

/// A generation starts with the event that it was opened.
pub proof fn law_opening_is_an_event(
    s: EngineState,
    cfg: SessionConfig,
    src: Endpoint,
    dst: Endpoint,
    seg: SegmentModel,
    ts: u64,
    frame: u64,
)
    requires
        s.wf(),
        src != dst,
        open_of(s, src, dst) is None,
        seg.flags & 0x04 == 0,
    ensures
        ({
            let t = processed(s, cfg, src, dst, seg, ts, frame);
            let whole = seg.flags & 0x02 != 0 && seg.flags & 0x10 == 0;
            open_of(t, src, dst) matches Some(h) && h.key == normalized(src, dst).0 && h.events
                == seq![EventModel { frame: None, detail: DetailModel::Opened { partial: !whole } }]
        }),
{
    law_key_holds_the_endpoints(src, dst);
}

/// The report on a generation at the end of a capture.
pub open spec fn left_over(d: DoneModel, g: GenModel, policy: OverlapPolicy) -> bool {
    &&& d.key == g.key
    &&& d.generation == g.id
    &&& d.partial == g.partial
    &&& d.close_reason == "end-of-capture"@
    &&& d.first_ts == g.first_ts
    &&& d.last_ts == g.last_ts
    &&& d.frames == g.frames
    &&& d.a == direction_of(g.a.isn, g.a.segs, policy)
    &&& d.b == direction_of(g.b.isn, g.b.segs, policy)
    &&& d.events.len() == g.events.len() + 1 + d.a.overlaps.len() + d.b.overlaps.len()
    &&& d.events.take(g.events.len() as int) == g.events
    &&& d.events[g.events.len() as int].detail == (DetailModel::Closed {
        reason: "end-of-capture"@,
    })
}

/// The open generation of a key.
pub open spec fn open_at(s: EngineState, k: TupleKey) -> Option<GenModel> {
    if s.trackers.contains_key(k) {
        s.trackers[k].current
    } else {
        None
    }
}

/// Some of the reports from `from` on is on the generation.
pub open spec fn told(done: Seq<DoneModel>, from: int, g: GenModel, policy: OverlapPolicy) -> bool {
    exists|j: int| from <= j < done.len() && left_over(#[trigger] done[j], g, policy)
}

/// A report is on one of the open generations of the keys.
pub open spec fn on_one(
    s: EngineState,
    ks: Seq<TupleKey>,
    n: int,
    d: DoneModel,
    policy: OverlapPolicy,
) -> bool {
    exists|i: int|
        0 <= i < n && (open_at(s, #[trigger] ks[i]) matches Some(g) && left_over(d, g, policy))
}

proof fn lemma_overlap_count(dir: int, v: Seq<crate::session::OverlapModel>)
    ensures
        crate::session::overlap_events(dir, v).len() == v.len(),
{
}

proof fn lemma_one_closed(s: EngineState, k: TupleKey, policy: OverlapPolicy)
    ensures
        ({
            let t = closed(s, k, "end-of-capture"@, 0, policy);
            match open_at(s, k) {
                Some(g) => t.done.len() == s.done.len() + 1 && t.done.drop_last() == s.done
                    && left_over(t.done.last(), g, policy),
                None => t == s,
            }
        }),
        forall|q: TupleKey|
            q != k ==> #[trigger] open_at(closed(s, k, "end-of-capture"@, 0, policy), q) == open_at(
                s,
                q,
            ),
        open_at(closed(s, k, "end-of-capture"@, 0, policy), k) is None,
{
    let t = closed(s, k, "end-of-capture"@, 0, policy);
    if open_at(s, k) is Some {
        let g = open_at(s, k)->0;
        let d = t.done.last();
        lemma_overlap_count(0, d.a.overlaps);
        lemma_overlap_count(1, d.b.overlaps);
        assert(t.done.drop_last() =~= s.done);
        assert(d.events.take(g.events.len() as int) =~= g.events);
    }
}

proof fn lemma_all_closed(s: EngineState, ks: Seq<TupleKey>, n: int, policy: OverlapPolicy)
    requires
        0 <= n <= ks.len(),
        ks.no_duplicates(),
    ensures
        ({
            let t = all_closed(s, ks, n, policy);
            &&& t.done.len() >= s.done.len()
            &&& t.done.take(s.done.len() as int) == s.done
            &&& forall|i: int| 0 <= i < n ==> open_at(t, #[trigger] ks[i]) is None
            &&& forall|q: TupleKey|
                (forall|i: int| 0 <= i < n ==> ks[i] != q) ==> #[trigger] open_at(t, q) == open_at(
                    s,
                    q,
                )
            &&& forall|i: int|
                0 <= i < n ==> (open_at(s, #[trigger] ks[i]) matches Some(g) ==> told(
                    t.done,
                    s.done.len() as int,
                    g,
                    policy,
                ))
            &&& forall|j: int|
                s.done.len() <= j < t.done.len() ==> on_one(s, ks, n, #[trigger] t.done[j], policy)
        }),
    decreases n,
{
    if n <= 0 {
        assert(s.done.take(s.done.len() as int) =~= s.done);
    } else {
        lemma_all_closed(s, ks, n - 1, policy);
        let u = all_closed(s, ks, n - 1, policy);
        let k = ks[n - 1];
        let t = all_closed(s, ks, n, policy);
        lemma_one_closed(u, k, policy);
        assert(open_at(u, k) == open_at(s, k)) by {
            assert forall|i: int| 0 <= i < n - 1 implies ks[i] != k by {
                assert(ks[n - 1] == k);
            }
        }
        assert(t.done.take(s.done.len() as int) =~= s.done) by {
            assert forall|j: int| 0 <= j < s.done.len() implies t.done[j] == s.done[j] by {
                assert(u.done.take(s.done.len() as int)[j] == s.done[j]);
                if t.done.len() > u.done.len() {
                    assert(t.done.drop_last()[j] == u.done[j]);
                }
            }
        }
        assert forall|i: int| 0 <= i < n implies open_at(t, #[trigger] ks[i]) is None by {
            if i < n - 1 {
                assert(open_at(u, ks[i]) is None);
                assert(ks[i] != ks[n - 1]);
            }
        }
        assert forall|i: int| 0 <= i < n implies (open_at(s, #[trigger] ks[i]) matches Some(g)
            ==> told(t.done, s.done.len() as int, g, policy)) by {
            if open_at(s, ks[i]) is Some {
                let g = open_at(s, ks[i])->0;
                if i < n - 1 {
                    assert(told(u.done, s.done.len() as int, g, policy));
                    let j = choose|j: int|
                        s.done.len() <= j < u.done.len() && left_over(
                            #[trigger] u.done[j],
                            g,
                            policy,
                        );
                    if t.done.len() > u.done.len() {
                        assert(t.done.drop_last()[j] == u.done[j]);
                    }
                    assert(left_over(t.done[j], g, policy));
                } else {
                    assert(left_over(t.done[t.done.len() - 1], g, policy));
                }
            }
        }
        assert forall|j: int| s.done.len() <= j < t.done.len() implies on_one(
            s,
            ks,
            n,
            #[trigger] t.done[j],
            policy,
        ) by {
            if j < u.done.len() {
                if t.done.len() > u.done.len() {
                    assert(t.done.drop_last()[j] == u.done[j]);
                }
                assert(on_one(s, ks, n - 1, u.done[j], policy));
                let i = choose|i: int|
                    0 <= i < n - 1 && (open_at(s, #[trigger] ks[i]) matches Some(g) && left_over(
                        u.done[j],
                        g,
                        policy,
                    ));
                assert(open_at(s, ks[i]) is Some);
            } else {
                assert(open_at(s, ks[n - 1]) is Some);
            }
        }
    }
}

/// At the end of a capture every generation that is still open is reported with what it
/// has, and nothing else is. The reports that are there stay as they are.
pub proof fn law_nothing_stays_open(s: EngineState, ks: Seq<TupleKey>, policy: OverlapPolicy)
    requires
        ks.no_duplicates(),
        ks.to_set() == s.trackers.dom(),
    ensures
        ({
            let t = all_closed(s, ks, ks.len() as int, policy);
            &&& t.done.len() >= s.done.len()
            &&& t.done.take(s.done.len() as int) == s.done
            &&& forall|k: TupleKey| #[trigger] open_at(t, k) is None
            &&& forall|k: TupleKey| #[trigger]
                open_at(s, k) matches Some(g) ==> told(t.done, s.done.len() as int, g, policy)
            &&& forall|j: int|
                s.done.len() <= j < t.done.len() ==> on_one(
                    s,
                    ks,
                    ks.len() as int,
                    #[trigger] t.done[j],
                    policy,
                )
        }),
{
    lemma_all_closed(s, ks, ks.len() as int, policy);
    let t = all_closed(s, ks, ks.len() as int, policy);
    assert forall|k: TupleKey| #[trigger] open_at(t, k) is None by {
        if ks.contains(k) {
            let i = choose|i: int| 0 <= i < ks.len() && ks[i] == k;
            assert(open_at(t, ks[i]) is None);
        } else {
            assert(!ks.to_set().contains(k));
            assert(open_at(t, k) == open_at(s, k));
        }
    }
    assert forall|k: TupleKey| #[trigger] open_at(s, k) matches Some(g) implies told(
        t.done,
        s.done.len() as int,
        open_at(s, k)->0,
        policy,
    ) by {
        assert(ks.to_set().contains(k));
        let i = choose|i: int| 0 <= i < ks.len() && ks[i] == k;
        assert(open_at(s, ks[i]) is Some);
    }
}

/// The sessions of each connection are numbered from 1 on, in the order in which they
/// opened.
pub open spec fn numbered(e: EngineModel) -> bool {
    forall|i: int|
        0 <= i < e.sessions.len() ==> match last_place(e.canons, e.canons[i], i) {
            None => (#[trigger] e.sessions[i]).gen == 1,
            Some(j) => e.sessions[i].gen == e.sessions[j].gen + 1,
        }
}

proof fn lemma_places(e: EngineModel, c: Seq<char>, n: int)
    requires
        e.wf(),
        numbered(e),
        0 <= n <= e.sessions.len(),
    ensures
        places(e.canons, c, n) == match last_place(e.canons, c, n) {
            None => 0,
            Some(j) => e.sessions[j].gen,
        },
    decreases n,
{
    if n > 0 {
        lemma_places(e, c, n - 1);
        lemma_last_place(e.canons, c, n - 1);
        if e.canons[n - 1] == c {
            assert(e.sessions[n - 1].gen >= 1);
        }
    }
}

proof fn lemma_prefix_place(a: Seq<Seq<char>>, x: Seq<char>, c: Seq<char>, n: int)
    requires
        0 <= n <= a.len(),
    ensures
        last_place(a.push(x), c, n) == last_place(a, c, n),
    decreases n,
{
    if n > 0 {
        lemma_prefix_place(a, x, c, n - 1);
    }
}

proof fn lemma_kept_gens(e: EngineModel, d: DatagramModel)
    requires
        e.wf(),
    ensures
        ({
            let t = e.ingested(d);
            &&& e.sessions.len() <= t.sessions.len() <= e.sessions.len() + 1
            &&& t.canons.len() == t.sessions.len()
            &&& forall|i: int|
                0 <= i < e.sessions.len() ==> (#[trigger] t.sessions[i]).gen == e.sessions[i].gen
                    && t.canons[i] == e.canons[i]
            &&& t.sessions.len() == e.sessions.len() ==> t.canons == e.canons
            &&& t.sessions.len() > e.sessions.len() ==> {
                &&& t.canons == e.canons.push(canon_of(d))
                &&& t.sessions.last().gen == places(e.canons, canon_of(d), e.canons.len() as int) + 1
            }
        }),
{
    lemma_last_place(e.canons, canon_of(d), e.canons.len() as int);
    lemma_target(e.timed(d), d, e.sessions.len() as int);
}

/// The sessions of a connection stay numbered one after the other, whatever comes.
pub proof fn law_sessions_stay_numbered(e: EngineModel, d: DatagramModel)
    requires
        e.wf(),
        numbered(e),
    ensures
        numbered(e.ingested(d)),
        numbered(e.finalized()),
{
    let t = e.ingested(d);
    let n = e.sessions.len() as int;
    let c = canon_of(d);
    lemma_kept_gens(e, d);
    lemma_places(e, c, n);
    lemma_last_place(e.canons, c, n);
    assert forall|i: int| 0 <= i < t.sessions.len() implies match last_place(
        t.canons,
        t.canons[i],
        i,
    ) {
        None => (#[trigger] t.sessions[i]).gen == 1,
        Some(j) => t.sessions[i].gen == t.sessions[j].gen + 1,
    } by {
        if t.sessions.len() > n {
            lemma_prefix_place(e.canons, c, t.canons[i], i);
        }
        lemma_last_place(e.canons, t.canons[i], i);
        if i < n {
            assert(e.sessions[i].gen == t.sessions[i].gen);
        }
    }
    let f = e.finalized();
    assert forall|i: int| 0 <= i < f.sessions.len() implies match last_place(
        f.canons,
        f.canons[i],
        i,
    ) {
        None => (#[trigger] f.sessions[i]).gen == 1,
        Some(j) => f.sessions[i].gen == f.sessions[j].gen + 1,
    } by {
        lemma_last_place(e.canons, e.canons[i], i);
        assert(f.sessions[i].gen == e.sessions[i].gen);
        if last_place(e.canons, e.canons[i], i) is Some {
            let j = last_place(e.canons, e.canons[i], i)->0;
            assert(f.sessions[j].gen == e.sessions[j].gen);
        }
    }
}

/// A new session is named by its number and its connection, and tells its endpoints as
/// its first datagram has them: its sender is the client.
pub proof fn law_new_session_is_named(e: EngineModel, d: DatagramModel)
    requires
        e.wf(),
        e.ingested(d).sessions.len() > e.sessions.len(),
    ensures
        ({
            let s = e.ingested(d).sessions.last();
            &&& s.id == "g"@ + dec(s.gen) + "-"@ + e.ingested(d).canons.last()
            &&& s.key == endpoint_text(d.src, d.sport) + "<->"@ + endpoint_text(d.dst, d.dport)
            &&& between(s, d, false)
            &&& s.ip_version == d.ip_version
            &&& s.start_frame == d.frame_idx
            &&& s.end_frame == d.frame_idx
            &&& s.start_ts == d.ts_us
            &&& s.handshake == if d.flags & 0x02 != 0 {
                "seen"@
            } else {
                "missing"@
            }
            &&& s.syn_frames == if d.flags & 0x02 != 0 {
                seq![d.frame_idx]
            } else {
                Seq::<usize>::empty()
            }
        }),
{
    lemma_closed_words();
    lemma_last_place(e.canons, canon_of(d), e.canons.len() as int);
    lemma_target(e.timed(d), d, e.sessions.len() as int);
    let s = e.ingested(d).sessions.last();
    if d.flags & 0x02 != 0 {
        let o = e.timed(d).opened(d).sessions.last();
        assert(o.syn_frames[0] == d.frame_idx);
        assert(o.syn_frames.contains(d.frame_idx));
        assert(s.syn_frames == o.syn_frames);
    }
}

/// A session keeps its name, its endpoints and its start, whatever comes. A handshake is
/// taken back only in part: where one direction starts without a SYN.
pub proof fn law_sessions_keep_their_names(e: EngineModel, d: DatagramModel, i: int)
    requires
        e.wf(),
        0 <= i < e.sessions.len(),
    ensures
        ({
            let o = e.sessions[i];
            let s = e.ingested(d).sessions[i];
            &&& s.id == o.id
            &&& s.key == o.key
            &&& s.gen == o.gen
            &&& s.c_ip == o.c_ip && s.c_port == o.c_port
            &&& s.s_ip == o.s_ip && s.s_port == o.s_port
            &&& s.ip_version == o.ip_version
            &&& s.start_frame == o.start_frame
            &&& s.start_ts == o.start_ts
            &&& s.mid_capture == o.mid_capture
            &&& s.handshake == o.handshake || (o.handshake == "seen"@ && s.handshake == "partial"@
                && d.flags & 0x02 == 0)
            &&& s.syn_frames == o.syn_frames || (d.flags & 0x02 != 0 && s.syn_frames
                == o.syn_frames.push(d.frame_idx))
        }),
{
    lemma_last_place(e.canons, canon_of(d), e.canons.len() as int);
    lemma_target(e.timed(d), d, e.sessions.len() as int);
}

/// At the end of a capture a session that is open without a handshake is partial, and
/// every other session is as it was.
pub proof fn law_end_of_capture(e: EngineModel, i: int)
    requires
        0 <= i < e.sessions.len(),
    ensures
        ({
            let o = e.sessions[i];
            let s = e.finalized().sessions[i];
            &&& e.finalized().sessions.len() == e.sessions.len()
            &&& e.finalized().canons == e.canons
            &&& o.state == "open"@ && o.handshake == "missing"@ ==> {
                &&& s.state == "partial"@
                &&& s == (SessionModel { state: s.state, close_reason: s.close_reason, ..o })
            }
            &&& o.state != "open"@ || o.handshake != "missing"@ ==> s == o
        }),
{
}

/// Of the two endpoints of a connection the lesser one stands first in its key: by its
/// address, and by its port where the addresses are equal.
pub proof fn law_lesser_endpoint_stands_first(src: Endpoint, dst: Endpoint)
    ensures
        ({
            let k = normalized(src, dst).0;
            k.a.ip.rank() < k.b.ip.rank() || (k.a.ip.rank() == k.b.ip.rank() && k.a.port <= k.b.port)
        }),
{
}

/// The report on a generation that ends tells each overlap of its directions, behind the
/// events that it has and its end, with the direction and the frame that came second.
pub proof fn law_overlaps_are_events(
    s: EngineState,
    key: TupleKey,
    reason: Seq<char>,
    ts: u64,
    policy: OverlapPolicy,
    i: int,
)
    requires
        open_at(s, key) is Some,
        0 <= i,
    ensures
        ({
            let g = open_at(s, key)->0;
            let d = closed(s, key, reason, ts, policy).done.last();
            let n = g.events.len() as int;
            let (a, b) = (d.a.overlaps, d.b.overlaps);
            &&& d.events.len() == n + 1 + a.len() + b.len()
            &&& d.events[n].detail == DetailModel::Closed { reason }
            &&& i < n ==> d.events[i] == g.events[i]
            &&& i < a.len() ==> {
                let e = d.events[n + 1 + i];
                &&& e.detail == DetailModel::Overlap { direction: 0, event: a[i] }
                &&& e.frame == Some(
                    if a[i].policy == OverlapPolicy::LastSeen {
                        a[i].kept_frame
                    } else {
                        a[i].dropped_frame
                    },
                )
            }
            &&& i < b.len() ==> {
                let e = d.events[n + 1 + a.len() + i];
                &&& e.detail == DetailModel::Overlap { direction: 1, event: b[i] }
                &&& e.frame == Some(
                    if b[i].policy == OverlapPolicy::LastSeen {
                        b[i].kept_frame
                    } else {
                        b[i].dropped_frame
                    },
                )
            }
            &&& d.last_ts == if ts > g.last_ts {
                ts
            } else {
                g.last_ts
            }
        }),
{
}

/// A session that timed out tells how long it was idle and how long it could have been.
pub proof fn law_timeout_tells_the_gap(e: EngineModel, d: DatagramModel, i: int)
    requires
        e.wf(),
        0 <= i < e.sessions.len(),
        e.newest(canon_of(d)) == Some(i),
        e.sessions[i].state == "open"@,
        d.ts_us - e.sessions[i].last_ts > e.timeout_us,
    ensures
        e.ingested(d).sessions[i].close_reason == "idle gap "@ + dec_int(
            d.ts_us - e.sessions[i].last_ts,
        ) + " us exceeded timeout "@ + dec_int(e.timeout_us) + " us"@,
{
    lemma_closed_words();
    lemma_last_place(e.canons, canon_of(d), e.canons.len() as int);
    let t = e.timed(d);
    lemma_last_place(t.canons, canon_of(d), t.canons.len() as int);
    lemma_target(t, d, t.sessions.len() as int);
}

/// The key of a connection is made of its two endpoints, the lesser text first, so it is
/// one key for both directions.
pub proof fn law_connection_has_one_key(d: DatagramModel, b: DatagramModel)
    requires
        b.src == d.dst && b.sport == d.dport && b.dst == d.src && b.dport == d.sport,
    ensures
        canon_of(d) == canon_of(b),
        ({
            let (x, y) = (endpoint_text(d.src, d.sport), endpoint_text(d.dst, d.dport));
            &&& text_le(x, y) ==> canon_of(d) == x + "|"@ + y
            &&& text_le(y, x) ==> canon_of(d) == y + "|"@ + x
        }),
{
    let (x, y) = (endpoint_text(d.src, d.sport), endpoint_text(d.dst, d.dport));
    crate::text::law_text_order_total(x, y);
}

/// A bare reset after the segment that ended a connection by FINs, not later than the
/// timeout, is noted with the report on that connection and opens nothing.
pub proof fn law_reset_after_the_end(
    s: EngineState,
    cfg: SessionConfig,
    ends: (Endpoint, Endpoint),
    last: (SegmentModel, u64, u64),
    reset: (SegmentModel, u64, u64),
    back: bool,
)
    requires
        s.wf(),
        ends.0 != ends.1,
        open_of(s, ends.0, ends.1) is Some,
        last.1 - open_of(s, ends.0, ends.1)->0.last_ts <= cfg.timeout_ns,
        last.0.flags & 0x02 == 0,
        last.0.flags & 0x04 == 0,
        open_of(processed(s, cfg, ends.0, ends.1, last.0, last.1, last.2), ends.0, ends.1) is None,
        reset.0.flags & 0x04 != 0,
        reset.0.flags & 0x02 == 0,
        reset.0.payload.len() == 0,
        reset.1 - last.1 <= cfg.timeout_ns,
        last.1 >= open_of(s, ends.0, ends.1)->0.last_ts,
    ensures
        ({
            let t = processed(s, cfg, ends.0, ends.1, last.0, last.1, last.2);
            let (x, y) = if back {
                (ends.1, ends.0)
            } else {
                ends
            };
            let u = processed(t, cfg, x, y, reset.0, reset.1, reset.2);
            &&& open_of(u, ends.0, ends.1) is None
            &&& u.done.len() == t.done.len()
            &&& u.done.drop_last() == t.done.drop_last()
            &&& u.done.last().events == t.done.last().events.push(
                EventModel { frame: Some(reset.2), detail: DetailModel::RstAfterClose },
            )
        }),
{
    law_key_holds_the_endpoints(ends.0, ends.1);
    let t = processed(s, cfg, ends.0, ends.1, last.0, last.1, last.2);
    let (x, y) = if back {
        (ends.1, ends.0)
    } else {
        ends
    };
    let u = processed(t, cfg, x, y, reset.0, reset.1, reset.2);
    assert(t.done.last().close_reason == "fin"@);
    assert(u.done.drop_last() =~= t.done.drop_last());
}

/// The keys of connections are ordered: of two different keys one comes before the other,
/// and never both.
pub proof fn law_connection_keys_are_ordered(x: TupleKey, y: TupleKey, z: TupleKey)
    ensures
        !key_before(x, x),
        !(key_before(x, y) && key_before(y, x)),
        x.a.rank() != y.a.rank() || x.b.rank() != y.b.rank() ==> key_before(x, y) || key_before(
            y,
            x,
        ),
        key_before(x, y) && key_before(y, z) ==> key_before(x, z),
        x.a.rank() < y.a.rank() ==> key_before(x, y),
{
}

} // verus!
