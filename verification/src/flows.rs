//! What comes of a captured frame: from the bytes of its headers to the session that its
//! segment goes to.

use vstd::prelude::*;
use crate::analysis::{count, kind_from, SegKind};
use crate::analyze::{frame_keys, frame_taken, frames_taken, payloads_say, Config, Progress};
use crate::capture::Shot;
use crate::frame;
use crate::headers::{
    eth_bytes, fit_options, fit_v4, law_ethernet_carries, law_frame_tcp_read_back,
    law_network_v4_read_back, law_network_v6_read_back, law_other_types_carry_none,
    law_tcp_read_back, law_v4_read_back, law_v6_fragment_read_back, law_v6_read_back, tcp_bytes,
    v4_bytes, v6_bytes, v6_fragment, TcpHead, V4Head, V6Head,
};
use crate::ipdefrag::{handled, OutcomeModel};
use crate::model::PacketModel;
use crate::packet::{FragModel, SegmentModel};
use crate::pcap::FrameModel;
use crate::session::{
    payload_name, processed, DoneModel, Endpoint, EngineState, OverlapPolicy, SessionConfig,
};
use crate::sorting::{goes_before, law_order, order_of};
use crate::tcp::DatagramModel;
use crate::text::dec;
use crate::types::{Ip, LinkKind};
use crate::workbench::{driven, packets_upto, AnalysisOptions};

verus! {

/// The segment that a TCP header and data make.
pub open spec fn written(t: TcpHead, data: Seq<u8>) -> SegmentModel {
    SegmentModel {
        src_port: t.sport,
        dst_port: t.dport,
        seq: t.seq,
        ack: t.ack,
        flags: t.flags,
        payload: data,
    }
}

/// The sessions after a segment between two addresses came in a frame.
pub open spec fn reached(
    e: EngineState,
    cfg: SessionConfig,
    src: Ip,
    dst: Ip,
    t: TcpHead,
    data: Seq<u8>,
    f: FrameModel,
) -> EngineState {
    processed(
        e,
        cfg,
        Endpoint { ip: src, port: t.sport },
        Endpoint { ip: dst, port: t.dport },
        written(t, data),
        f.ts_ns,
        f.index,
    )
}

/// A TCP segment in a whole IPv4 packet goes to the sessions as it was written, with the
/// time and the number of its frame, and does nothing else.
pub proof fn law_v4_segment_reaches_the_sessions(
    p: Progress,
    config: Config,
    f: FrameModel,
    addresses: Seq<u8>,
    h: V4Head,
    options: Seq<u8>,
    t: TcpHead,
    topts: Seq<u8>,
    data: Seq<u8>,
    pad: Seq<u8>,
)
    requires
        addresses.len() == 12,
        fit_options(topts),
        fit_v4(h, options, tcp_bytes(t, topts, data)),
        !h.more && h.units == 0,
        h.proto == 6,
        f.data == eth_bytes(
            addresses,
            0x0800,
            v4_bytes(h, options, tcp_bytes(t, topts, data)) + pad,
        ),
    ensures
        frame_taken(p, config, f).engine == reached(
            p.engine,
            config.sessions(),
            Ip::V4(h.src),
            Ip::V4(h.dst),
            t,
            data,
            f,
        ),
        frame_taken(p, config, f).defrag == p.defrag,
        frame_taken(p, config, f).ignored == p.ignored,
{
    let b = tcp_bytes(t, topts, data);
    law_ethernet_carries(addresses, v4_bytes(h, options, b) + pad);
    law_v4_read_back(h, options, b, pad);
    law_tcp_read_back(t, topts, data);
}

/// A TCP segment in an IPv6 packet goes to the sessions as it was written, with the time
/// and the number of its frame, and does nothing else.
pub proof fn law_v6_segment_reaches_the_sessions(
    p: Progress,
    config: Config,
    f: FrameModel,
    addresses: Seq<u8>,
    h: V6Head,
    t: TcpHead,
    topts: Seq<u8>,
    data: Seq<u8>,
    pad: Seq<u8>,
)
    requires
        addresses.len() == 12,
        fit_options(topts),
        tcp_bytes(t, topts, data).len() <= 0xffff,
        f.data == eth_bytes(addresses, 0x86dd, v6_bytes(h, 6, tcp_bytes(t, topts, data)) + pad),
    ensures
        frame_taken(p, config, f).engine == reached(
            p.engine,
            config.sessions(),
            Ip::V6(h.src),
            Ip::V6(h.dst),
            t,
            data,
            f,
        ),
        frame_taken(p, config, f).defrag == p.defrag,
        frame_taken(p, config, f).ignored == p.ignored,
{
    let b = tcp_bytes(t, topts, data);
    law_ethernet_carries(addresses, v6_bytes(h, 6, b) + pad);
    law_v6_read_back(h, 6, b, pad);
    law_tcp_read_back(t, topts, data);
}

/// What a frame does that is noted and passed over: one note with its number.
pub open spec fn only_noted(p: Progress, q: Progress, f: FrameModel) -> bool {
    &&& q.engine == p.engine
    &&& q.ignored.len() == p.ignored.len() + 1
    &&& q.ignored.drop_last() == p.ignored
    &&& q.ignored.last().0 == f.index
}

/// A frame that carries no packet, or a packet of another protocol, is noted and changes
/// nothing else.
pub proof fn law_other_frames_are_noted(
    p: Progress,
    config: Config,
    f: FrameModel,
    addresses: Seq<u8>,
    ethertype: int,
    h: V4Head,
    options: Seq<u8>,
    data: Seq<u8>,
    pad: Seq<u8>,
)
    requires
        addresses.len() == 12,
        0 <= ethertype <= 0xffff,
        ethertype != 0x86dd && ethertype != 0x8100 && ethertype != 0x88a8 && ethertype != 0x9100,
        fit_v4(h, options, data),
        !h.more && h.units == 0,
        h.proto != 6,
        f.data == eth_bytes(addresses, ethertype, v4_bytes(h, options, data) + pad),
    ensures
        only_noted(p, frame_taken(p, config, f), f),
        frame_taken(p, config, f).defrag == p.defrag,
        ethertype == 0x0800 ==> frame_taken(p, config, f).ignored.last().1 == "non-TCP protocol "@
            + dec(h.proto as nat),
{
    let b = v4_bytes(h, options, data) + pad;
    if ethertype == 0x0800 {
        law_ethernet_carries(addresses, b);
        law_v4_read_back(h, options, data, pad);
    } else {
        law_other_types_carry_none(addresses, ethertype, b);
    }
    assert(frame_taken(p, config, f).ignored.drop_last() =~= p.ignored);
}

/// A fragment goes to the datagrams with the place that it states. Where it completes one
/// that is a TCP segment, the segment goes to the sessions; where it completes another, it
/// is noted; else the sessions are as they were.
pub proof fn law_fragment_reaches_the_datagrams(
    p: Progress,
    config: Config,
    f: FrameModel,
    addresses: Seq<u8>,
    h: V4Head,
    options: Seq<u8>,
    piece: Seq<u8>,
    pad: Seq<u8>,
    t: TcpHead,
    topts: Seq<u8>,
    data: Seq<u8>,
)
    requires
        addresses.len() == 12,
        fit_v4(h, options, piece),
        h.more || h.units > 0,
        fit_options(topts),
        f.data == eth_bytes(addresses, 0x0800, v4_bytes(h, options, piece) + pad),
    ensures
        ({
            let frag = FragModel {
                src: Ip::V4(h.src),
                dst: Ip::V4(h.dst),
                proto: h.proto,
                ident: h.ident as u32,
                offset: h.units * 8,
                more: h.more,
                payload: piece,
            };
            let (defrag, out) = handled(p.defrag, config.defrag(), frag, f.index, f.ts_ns);
            let q = frame_taken(p, config, f);
            &&& q.defrag == defrag
            &&& match out {
                OutcomeModel::Complete { key, payload, frames } => {
                    &&& key.proto != 6 ==> only_noted(p, q, f)
                    &&& key.proto == 6 && payload == tcp_bytes(t, topts, data) ==> {
                        &&& q.engine == reached(
                            p.engine,
                            config.sessions(),
                            key.src,
                            key.dst,
                            t,
                            data,
                            f,
                        )
                        &&& q.ignored == p.ignored
                    }
                },
                _ => q.engine == p.engine && q.ignored == p.ignored,
            }
        }),
{
    law_ethernet_carries(addresses, v4_bytes(h, options, piece) + pad);
    law_v4_read_back(h, options, piece, pad);
    law_tcp_read_back(t, topts, data);
    let q = frame_taken(p, config, f);
    if q.ignored.len() > p.ignored.len() {
        assert(q.ignored.drop_last() =~= p.ignored);
    }
}

/// An IPv6 fragment goes to the datagrams with the place that it states.
pub proof fn law_v6_fragment_reaches_the_datagrams(
    p: Progress,
    config: Config,
    f: FrameModel,
    addresses: Seq<u8>,
    h: V6Head,
    frag: FragModel,
    units: u16,
    rest: (u8, u8),
    pad: Seq<u8>,
)
    requires
        addresses.len() == 12,
        frag.payload.len() + 8 <= 0xffff,
        units < 0x2000,
        frag.src == Ip::V6(h.src),
        frag.dst == Ip::V6(h.dst),
        frag.offset == units * 8,
        f.data == eth_bytes(
            addresses,
            0x86dd,
            v6_bytes(
                h,
                44,
                v6_fragment(
                    frag.proto,
                    rest.0,
                    units,
                    rest.1,
                    frag.more,
                    frag.ident,
                    frag.payload,
                ),
            ) + pad,
        ),
    ensures
        frame_taken(p, config, f).defrag == handled(
            p.defrag,
            config.defrag(),
            frag,
            f.index,
            f.ts_ns,
        ).0,
{
    let b = v6_fragment(
        frag.proto,
        rest.0,
        units,
        rest.1,
        frag.more,
        frag.ident,
        frag.payload,
    );
    law_ethernet_carries(addresses, v6_bytes(h, 44, b) + pad);
    law_v6_fragment_read_back(
        h,
        frag.proto,
        rest.0,
        units,
        rest.1,
        frag.more,
        frag.ident,
        frag.payload,
        pad,
    );
}

/// A frame comes before another: by time, and by number where the times are equal.
pub open spec fn earlier(a: FrameModel, b: FrameModel) -> bool {
    a.ts_ns < b.ts_ns || (a.ts_ns == b.ts_ns && a.index < b.index)
}

proof fn lemma_rising(o: Seq<usize>, i: int)
    requires
        forall|a: int, b: int| 0 <= a < b < o.len() ==> (#[trigger] o[a]) < (#[trigger] o[b]),
        forall|a: int| 0 <= a < o.len() ==> (#[trigger] o[a]) < o.len(),
        0 <= i < o.len(),
    ensures
        o[i] == i,
{
    lemma_at_least(o, i);
    lemma_at_most(o, i);
}

proof fn lemma_at_least(o: Seq<usize>, i: int)
    requires
        forall|a: int, b: int| 0 <= a < b < o.len() ==> (#[trigger] o[a]) < (#[trigger] o[b]),
        0 <= i < o.len(),
    ensures
        o[i] >= i,
    decreases i,
{
    if i > 0 {
        lemma_at_least(o, i - 1);
        assert(o[i - 1] < o[i]);
    }
}

proof fn lemma_at_most(o: Seq<usize>, i: int)
    requires
        forall|a: int, b: int| 0 <= a < b < o.len() ==> (#[trigger] o[a]) < (#[trigger] o[b]),
        forall|a: int| 0 <= a < o.len() ==> (#[trigger] o[a]) < o.len(),
        0 <= i < o.len(),
    ensures
        o[i] <= i,
    decreases o.len() - i,
{
    if i + 1 < o.len() {
        lemma_at_most(o, i + 1);
        assert(o[i] < o[i + 1]);
    }
}

/// Frames that stand in the order of their times are taken one after the other as they
/// stand, each once.
pub proof fn law_frames_are_taken_in_turn(frames: Seq<FrameModel>, config: Config, n: int)
    requires
        frames.len() <= usize::MAX,
        forall|i: int, j: int|
            0 <= i < j < frames.len() ==> earlier(#[trigger] frames[i], #[trigger] frames[j]),
        0 < n <= frames.len(),
    ensures
        frames_taken(frames, config, n) == frame_taken(
            frames_taken(frames, config, n - 1),
            config,
            frames[n - 1],
        ),
        frames_taken(frames, config, 0).engine.done.len() == 0,
        frames_taken(frames, config, 0).ignored.len() == 0,
{
    let keys = frame_keys(frames);
    let o = order_of(keys);
    law_order(keys, frames.len() as int);
    assert forall|a: int, b: int| 0 <= a < b < o.len() implies (#[trigger] o[a]) < (
    #[trigger] o[b]) by {
        assert(goes_before(keys, o[a], o[b]));
        if o[b] < o[a] {
            assert(earlier(frames[o[b] as int], frames[o[a] as int]));
        }
    }
    lemma_rising(o, n - 1);
}

/// Whatever order frames come in, they are taken in the order of their times, each once.
pub proof fn law_frames_are_taken_by_time(frames: Seq<FrameModel>, i: int, j: int)
    requires
        frames.len() <= usize::MAX,
        0 <= i < j < frames.len(),
    ensures
        ({
            let o = order_of(frame_keys(frames));
            let (a, b) = (frames[o[i] as int], frames[o[j] as int]);
            &&& o.len() == frames.len()
            &&& o[i] != o[j]
            &&& a.ts_ns < b.ts_ns || (a.ts_ns == b.ts_ns && a.index <= b.index)
        }),
{
    let keys = frame_keys(frames);
    let o = order_of(keys);
    law_order(keys, frames.len() as int);
    assert(goes_before(keys, o[i], o[j]));
}

/// The settings of an analysis reach the sessions: the timeout as it stands, and the
/// policy by its name.
pub proof fn law_settings_reach_the_sessions(config: Config)
    ensures
        config.sessions().timeout_ns == config.session_timeout_ns,
        config.defrag().timeout_ns == config.frag_timeout_ns,
        config.frag_max_fragments <= usize::MAX ==> config.defrag().max_fragments
            == config.frag_max_fragments,
        config.frag_max_datagram_bytes <= usize::MAX ==> config.defrag().max_datagram_bytes
            == config.frag_max_datagram_bytes,
        config.overlap@ == "last_seen"@ || config.overlap@ == "last-seen"@ || config.overlap@
            == "last"@ ==> config.sessions().overlap == OverlapPolicy::LastSeen,
        config.overlap@ != "last_seen"@ && config.overlap@ != "last-seen"@ && config.overlap@
            != "last"@ ==> config.sessions().overlap == OverlapPolicy::FirstSeen,
{
    reveal_strlit("last_seen");
    reveal_strlit("last-seen");
    reveal_strlit("last");
    reveal_strlit("first_seen");
    reveal_strlit("first-seen");
    reveal_strlit("first");
    assert("last_seen"@[0] == 'l' && "last-seen"@[0] == 'l' && "last"@[0] == 'l');
    assert("first_seen"@[0] == 'f' && "first-seen"@[0] == 'f' && "first"@[0] == 'f');
}

/// The files of an analysis hold the bytes of the sessions, one for each direction.
pub proof fn law_files_hold_the_streams(
    v: Seq<crate::analyze::PayloadOut>,
    done: Seq<DoneModel>,
    i: int,
)
    requires
        payloads_say(v, done),
        0 <= i < done.len(),
    ensures
        v.len() == done.len() + done.len(),
        v[i + i].data@ == done[i].a.payload,
        v[i + i + 1].data@ == done[i].b.payload,
        v[i + i].file@ == payload_name(i, 0),
        v[i + i + 1].file@ == payload_name(i, 1),
{
    assert(v[2 * i].data@ == done[i].a.payload);
    assert(v[2 * i + 1].data@ == done[i].b.payload);
}

/// The packet in a frame of a capture: the addresses as texts, the place of a fragment in
/// bytes, and the segment of a whole packet.
pub open spec fn packet_in(i: int, src: Ip, dst: Ip, proto: u8, l4: Seq<u8>) -> PacketModel {
    PacketModel {
        frame_idx: i as usize,
        ip_version: if src is V4 {
            4
        } else {
            6
        },
        src: src.text(),
        dst: dst.text(),
        ip_id: 0,
        proto,
        frag_off: 0,
        mf: false,
        l4,
        tcp: None,
    }
}

/// The segment that a TCP header, its options and data make for a session.
pub open spec fn segment_in(t: TcpHead, options: Seq<u8>, data: Seq<u8>) -> frame::SegmentModel {
    frame::SegmentModel {
        src_port: t.sport,
        dst_port: t.dport,
        seq: t.seq,
        ack: t.ack,
        flags: (t.flags % 64) as u8,
        window: t.window,
        data_offset: (20 + options.len()) as u8,
        payload: data,
    }
}

/// A frame with a TCP segment in a whole IPv4 packet is one packet more, with the segment
/// as it was written.
pub proof fn law_segment_is_a_packet(
    shots: Seq<Shot>,
    n: int,
    addresses: Seq<u8>,
    h: V4Head,
    options: Seq<u8>,
    t: TcpHead,
    topts: Seq<u8>,
    data: Seq<u8>,
    pad: Seq<u8>,
)
    requires
        0 < n <= shots.len(),
        addresses.len() == 12,
        fit_options(topts),
        fit_v4(h, options, tcp_bytes(t, topts, data)),
        !h.more && h.units == 0,
        h.proto == 6,
        shots[n - 1].bytes == eth_bytes(
            addresses,
            0x0800,
            v4_bytes(h, options, tcp_bytes(t, topts, data)) + pad,
        ),
    ensures
        packets_upto(shots, LinkKind::Ethernet, n) == packets_upto(
            shots,
            LinkKind::Ethernet,
            n - 1,
        ).push(
            (PacketModel {
                tcp: Some(segment_in(t, topts, data)),
                ..packet_in(
                    n - 1,
                    Ip::V4(h.src),
                    Ip::V4(h.dst),
                    6,
                    tcp_bytes(t, topts, data),
                )
            }),
        ),
{
    let b = tcp_bytes(t, topts, data);
    law_ethernet_carries(addresses, v4_bytes(h, options, b) + pad);
    law_network_v4_read_back(h, options, b, pad);
    law_frame_tcp_read_back(t, topts, data);
}

/// A frame with a fragment is one packet more, with the place that the fragment states;
/// one of another protocol is a packet without a segment.
pub proof fn law_other_packets_have_no_segment(
    shots: Seq<Shot>,
    n: int,
    addresses: Seq<u8>,
    h: V4Head,
    options: Seq<u8>,
    data: Seq<u8>,
    pad: Seq<u8>,
)
    requires
        0 < n <= shots.len(),
        addresses.len() == 12,
        fit_v4(h, options, data),
        h.more || h.units > 0 || h.proto != 6,
        shots[n - 1].bytes == eth_bytes(addresses, 0x0800, v4_bytes(h, options, data) + pad),
    ensures
        packets_upto(shots, LinkKind::Ethernet, n) == packets_upto(
            shots,
            LinkKind::Ethernet,
            n - 1,
        ).push(
            (PacketModel {
                ip_id: if h.more || h.units > 0 {
                    h.ident as u32
                } else {
                    0
                },
                frag_off: h.units * 8,
                mf: h.more,
                ..packet_in(n - 1, Ip::V4(h.src), Ip::V4(h.dst), h.proto, data)
            }),
        ),
{
    law_ethernet_carries(addresses, v4_bytes(h, options, data) + pad);
    law_network_v4_read_back(h, options, data, pad);
}

/// A frame with a TCP segment in an IPv6 packet is one packet more, with the segment as it
/// was written.
pub proof fn law_v6_segment_is_a_packet(
    shots: Seq<Shot>,
    n: int,
    addresses: Seq<u8>,
    h: V6Head,
    t: TcpHead,
    topts: Seq<u8>,
    data: Seq<u8>,
    pad: Seq<u8>,
)
    requires
        0 < n <= shots.len(),
        addresses.len() == 12,
        fit_options(topts),
        tcp_bytes(t, topts, data).len() <= 0xffff,
        shots[n - 1].bytes == eth_bytes(
            addresses,
            0x86dd,
            v6_bytes(h, 6, tcp_bytes(t, topts, data)) + pad,
        ),
    ensures
        packets_upto(shots, LinkKind::Ethernet, n) == packets_upto(
            shots,
            LinkKind::Ethernet,
            n - 1,
        ).push(
            (PacketModel {
                tcp: Some(segment_in(t, topts, data)),
                ..packet_in(
                    n - 1,
                    Ip::V6(h.src),
                    Ip::V6(h.dst),
                    6,
                    tcp_bytes(t, topts, data),
                )
            }),
        ),
{
    let b = tcp_bytes(t, topts, data);
    law_ethernet_carries(addresses, v6_bytes(h, 6, b) + pad);
    law_network_v6_read_back(h, 6, b, pad);
    law_frame_tcp_read_back(t, topts, data);
}

/// Each packet with a segment goes to the sessions in its turn, with the time of its
/// frame; a packet without one changes nothing.
pub proof fn law_packets_are_taken_in_turn(
    ds: Seq<PacketModel>,
    shots: Seq<Shot>,
    o: AnalysisOptions,
    n: int,
)
    requires
        0 < n <= ds.len(),
        ds[n - 1].frame_idx < shots.len(),
    ensures
        driven(ds, shots, o, 0).sessions.len() == 0,
        driven(ds, shots, o, 0).timeout_us == o.timeout_us,
        driven(ds, shots, o, 0).policy == o.policy,
        ds[n - 1].tcp is None ==> driven(ds, shots, o, n) == driven(ds, shots, o, n - 1),
        ds[n - 1].tcp matches Some(t) ==> driven(ds, shots, o, n) == driven(
            ds,
            shots,
            o,
            n - 1,
        ).ingested(
            (DatagramModel {
                frame_idx: ds[n - 1].frame_idx,
                ts_us: shots[ds[n - 1].frame_idx as int].ts_us,
                src: ds[n - 1].src,
                dst: ds[n - 1].dst,
                ip_version: ds[n - 1].ip_version,
                sport: t.src_port,
                dport: t.dst_port,
                seq: t.seq,
                flags: t.flags,
                payload: t.payload,
            }),
        ),
{
}

/// One event more of a kind counts one more for that kind and none for another.
pub proof fn law_events_are_counted(ev: Seq<(u32, SegKind)>, frame: u32, kind: SegKind, other: SegKind)
    ensures
        count(Seq::<(u32, SegKind)>::empty(), kind) == 0,
        count(ev.push((frame, kind)), kind) == count(ev, kind) + 1,
        other != kind ==> count(ev.push((frame, kind)), other) == count(ev, other),
{
    assert(ev.push((frame, kind)).drop_last() =~= ev);
}

/// The kind of a frame is that of its first event, and a frame without one has none.
pub proof fn law_first_event_tells_the_kind(ev: Seq<(u32, SegKind)>, frame: u32, i: int)
    requires
        0 <= i <= ev.len(),
        forall|j: int| 0 <= j < i ==> (#[trigger] ev[j]).0 != frame,
    ensures
        i == ev.len() ==> kind_from(ev, frame, 0) is None,
        i < ev.len() && ev[i].0 == frame ==> kind_from(ev, frame, 0) == Some(ev[i].1),
{
    lemma_kind_from(ev, frame, 0, i);
}

proof fn lemma_kind_from(ev: Seq<(u32, SegKind)>, frame: u32, a: int, i: int)
    requires
        0 <= a <= i <= ev.len(),
        forall|j: int| 0 <= j < i ==> (#[trigger] ev[j]).0 != frame,
    ensures
        kind_from(ev, frame, a) == kind_from(ev, frame, i),
    decreases i - a,
{
    if a < i {
        assert(ev[a].0 != frame);
        lemma_kind_from(ev, frame, a + 1, i);
    }
}

} // verus!
