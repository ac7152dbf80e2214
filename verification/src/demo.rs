//! Deterministic demonstration captures.

use vstd::prelude::*;
use vstd::utf8::{encode_scalar, encode_utf8};
use crate::builder::{
    fixture_json, frame_v4, handshake_frames, shot, Builder, BuilderModel, End, Head,
};
use crate::capture::{law_fixture_loads_back, loaded, reloaded, CaptureModel};
use crate::json::written;
use crate::model::{ACK, FIN, PSH, RST, SYN};
use crate::text::same;

verus! {

pub open spec fn client() -> (Seq<u8>, u16) {
    (seq![10u8, 0u8, 0u8, 1u8], 40000)
}

pub open spec fn server() -> (Seq<u8>, u16) {
    (seq![10u8, 0u8, 0u8, 2u8], 80)
}

pub open spec fn other_client() -> (Seq<u8>, u16) {
    (seq![10u8, 0u8, 0u8, 3u8], 5000)
}

pub open spec fn other_server() -> (Seq<u8>, u16) {
    (seq![10u8, 0u8, 0u8, 4u8], 81)
}

pub(crate) fn end(last: u8, port: u16) -> (r: End)
    ensures
        r@ == (seq![10u8, 0u8, 0u8, last], port),
{
    let ip: [u8; 4] = [10, 0, 0, last];
    let r = End { ip, port };
    assert(r.ip@ =~= seq![10u8, 0u8, 0u8, last]);
    r
}

/// A frame with a text as its data.
pub open spec fn said(
    ts: int,
    from: (Seq<u8>, u16),
    to: (Seq<u8>, u16),
    seq: u32,
    ack: u32,
    flags: u8,
    text: Seq<char>,
    id: u16,
) -> (int, Seq<u8>) {
    shot(ts, from, to, seq, ack, flags, encode_utf8(text), id)
}

/// A frame with a text as its data that is marked as a fragment.
#[verifier::opaque]
pub open spec fn piece(
    ts: int,
    seq: u32,
    ack: u32,
    flags: u8,
    text: Seq<char>,
    off: u16,
    more: bool,
) -> (int, Seq<u8>) {
    (
        ts,
        frame_v4(
            client().0,
            server().0,
            Head { sport: client().1, dport: server().1, seq, ack, flags },
            encode_utf8(text),
            950,
            Some((off, more)),
        ),
    )
}

proof fn lemma_encoded_len(s: Seq<char>)
    ensures
        encode_utf8(s).len() <= 4 * s.len(),
    decreases s.len(),
{
    if s.len() > 0 {
        lemma_encoded_len(s.drop_first());
        assert(encode_scalar(s[0] as u32).len() <= 4);
    }
}

pub(crate) fn say(
    b: &mut Builder,
    ts: i128,
    from: End,
    to: End,
    seq: u32,
    ack: u32,
    flags: u8,
    text: &str,
    id: u16,
)
    requires
        text@.len() <= 100,
    ensures
        final(b)@ == (BuilderModel {
            frames: old(b)@.frames.push(
                said(ts as int, from@, to@, seq, ack, flags, text@, id),
            ),
            ..old(b)@
        }),
{
    proof {
        lemma_encoded_len(text@);
    }
    b.shoot(ts, from, to, seq, ack, flags, text.as_bytes(), id);
}

pub(crate) fn signal(b: &mut Builder, ts: i128, from: End, to: End, seq: u32, ack: u32, flags: u8, id: u16)
    ensures
        final(b)@ == (BuilderModel {
            frames: old(b)@.frames.push(
                shot(ts as int, from@, to@, seq, ack, flags, seq![], id),
            ),
            ..old(b)@
        }),
{
    let none: Vec<u8> = Vec::new();
    assert(none@ =~= seq![]);
    b.shoot(ts, from, to, seq, ack, flags, none.as_slice(), id);
}

fn break_off(b: &mut Builder, ts: i128, seq: u32, ack: u32, flags: u8, text: &str, off: u16, more: bool)
    requires
        text@.len() <= 100,
    ensures
        final(b)@ == (BuilderModel {
            frames: old(b)@.frames.push(piece(ts as int, seq, ack, flags, text@, off, more)),
            ..old(b)@
        }),
{
    proof {
        lemma_encoded_len(text@);
        reveal(piece);
    }
    let c = end(1, 40000);
    let s = end(2, 80);
    let h = Head { sport: c.port, dport: s.port, seq, ack, flags };
    let f = crate::builder::segment_v4(&c.ip, &s.ip, h, text.as_bytes(), 950, Some((off, more)));
    let _ = b.add(ts, f);
}

/// Sequence numbers run over the 32-bit boundary.
pub open spec fn wrap_frames() -> Seq<(int, Seq<u8>)> {
    handshake_frames(0, client(), server(), 4294967291, 1000) + seq![
        said(300, client(), server(), 4294967292, 1001, PSH | ACK, "0123456789ABCDEF"@, 200),
        shot(400, server(), client(), 1001, 12, ACK, seq![], 201),
    ]
}

fn add_wrap(b: &mut Builder)
    ensures
        final(b)@ == (BuilderModel {
            frames: old(b)@.frames + wrap_frames(),
            ..old(b)@
        }),
{
    let ghost m = b@;
    let c = end(1, 40000);
    let s = end(2, 80);
    proof {
        reveal_strlit("0123456789ABCDEF");
    }
    let _ = b.shake(0, c, s, 4294967291, 1000);
    say(b, 300, c, s, 4294967292, 1001, PSH | ACK, "0123456789ABCDEF", 200);
    signal(b, 400, s, c, 1001, 12, ACK, 201);
    assert(b@.frames =~= m.frames + wrap_frames());
}

/// A retransmission, and one whose first byte differs.
pub open spec fn retrans_frames() -> Seq<(int, Seq<u8>)> {
    handshake_frames(0, client(), server(), 100, 500) + seq![
        said(300, client(), server(), 101, 501, PSH | ACK, "HELLO"@, 300),
        said(400, client(), server(), 101, 501, PSH | ACK, "HELLO"@, 301),
        said(500, client(), server(), 101, 501, PSH | ACK, "XELLO"@, 302),
    ]
}

fn add_retrans(b: &mut Builder)
    ensures
        final(b)@ == (BuilderModel {
            frames: old(b)@.frames + retrans_frames(),
            ..old(b)@
        }),
{
    let ghost m = b@;
    let c = end(1, 40000);
    let s = end(2, 80);
    proof {
        reveal_strlit("HELLO");
        reveal_strlit("XELLO");
    }
    let _ = b.shake(0, c, s, 100, 500);
    say(b, 300, c, s, 101, 501, PSH | ACK, "HELLO", 300);
    say(b, 400, c, s, 101, 501, PSH | ACK, "HELLO", 301);
    say(b, 500, c, s, 101, 501, PSH | ACK, "XELLO", 302);
    assert(b@.frames =~= m.frames + retrans_frames());
}

/// The first segment comes last.
pub open spec fn out_of_order_frames() -> Seq<(int, Seq<u8>)> {
    handshake_frames(0, client(), server(), 100, 500) + seq![
        said(1000, client(), server(), 111, 501, PSH | ACK, "KLMNOPQRST"@, 400),
        said(1100, client(), server(), 121, 501, PSH | ACK, "UVWXYZabcd"@, 401),
        said(1200, client(), server(), 101, 501, PSH | ACK, "ABCDEFGHIJ"@, 402),
    ]
}

fn add_out_of_order(b: &mut Builder)
    ensures
        final(b)@ == (BuilderModel {
            frames: old(b)@.frames + out_of_order_frames(),
            ..old(b)@
        }),
{
    let ghost m = b@;
    let c = end(1, 40000);
    let s = end(2, 80);
    proof {
        reveal_strlit("ABCDEFGHIJ");
        reveal_strlit("KLMNOPQRST");
        reveal_strlit("UVWXYZabcd");
    }
    let _ = b.shake(0, c, s, 100, 500);
    say(b, 1000, c, s, 111, 501, PSH | ACK, "KLMNOPQRST", 400);
    say(b, 1100, c, s, 121, 501, PSH | ACK, "UVWXYZabcd", 401);
    say(b, 1200, c, s, 101, 501, PSH | ACK, "ABCDEFGHIJ", 402);
    assert(b@.frames =~= m.frames + out_of_order_frames());
}

/// Fifteen bytes are missing.
pub open spec fn gap_frames() -> Seq<(int, Seq<u8>)> {
    handshake_frames(0, client(), server(), 100, 500) + seq![
        said(1000, client(), server(), 101, 501, PSH | ACK, "AAAAA"@, 500),
        said(1100, client(), server(), 121, 501, PSH | ACK, "BBBBB"@, 501),
    ]
}

fn add_gap(b: &mut Builder)
    ensures
        final(b)@ == (BuilderModel {
            frames: old(b)@.frames + gap_frames(),
            ..old(b)@
        }),
{
    let ghost m = b@;
    let c = end(1, 40000);
    let s = end(2, 80);
    proof {
        reveal_strlit("AAAAA");
        reveal_strlit("BBBBB");
    }
    let _ = b.shake(0, c, s, 100, 500);
    say(b, 1000, c, s, 101, 501, PSH | ACK, "AAAAA", 500);
    say(b, 1100, c, s, 121, 501, PSH | ACK, "BBBBB", 501);
    assert(b@.frames =~= m.frames + gap_frames());
}

/// A connection that closes, and another between the same ends.
pub open spec fn reuse_frames() -> Seq<(int, Seq<u8>)> {
    handshake_frames(0, client(), server(), 100, 500) + seq![
        said(300, client(), server(), 101, 501, PSH | ACK, "first"@, 600),
        shot(400, client(), server(), 106, 501, FIN | ACK, seq![], 601),
        shot(500, server(), client(), 501, 107, FIN | ACK, seq![], 602),
        shot(1600, client(), server(), 900, 0, SYN, seq![], 700),
        shot(1700, server(), client(), 9000, 901, SYN | ACK, seq![], 701),
        said(1800, client(), server(), 901, 9001, PSH | ACK, "second-conn"@, 702),
    ]
}

fn add_reuse(b: &mut Builder)
    ensures
        final(b)@ == (BuilderModel {
            frames: old(b)@.frames + reuse_frames(),
            ..old(b)@
        }),
{
    let ghost m = b@;
    let c = end(1, 40000);
    let s = end(2, 80);
    proof {
        reveal_strlit("first");
        reveal_strlit("second-conn");
    }
    let _ = b.shake(0, c, s, 100, 500);
    say(b, 300, c, s, 101, 501, PSH | ACK, "first", 600);
    signal(b, 400, c, s, 106, 501, FIN | ACK, 601);
    signal(b, 500, s, c, 501, 107, FIN | ACK, 602);
    signal(b, 1600, c, s, 900, 0, SYN, 700);
    signal(b, 1700, s, c, 9000, 901, SYN | ACK, 701);
    say(b, 1800, c, s, 901, 9001, PSH | ACK, "second-conn", 702);
    assert(b@.frames =~= m.frames + reuse_frames());
}

/// The capture starts in the middle of a connection.
pub open spec fn midcap_frames() -> Seq<(int, Seq<u8>)> {
    seq![
        said(1000, client(), server(), 777, 10, PSH | ACK, "mid-stream-data"@, 800),
        said(1100, server(), client(), 10, 792, PSH | ACK, "reply"@, 801),
    ]
}

fn add_midcap(b: &mut Builder)
    ensures
        final(b)@ == (BuilderModel {
            frames: old(b)@.frames + midcap_frames(),
            ..old(b)@
        }),
{
    let ghost m = b@;
    let c = end(1, 40000);
    let s = end(2, 80);
    proof {
        reveal_strlit("mid-stream-data");
        reveal_strlit("reply");
    }
    say(b, 1000, c, s, 777, 10, PSH | ACK, "mid-stream-data", 800);
    say(b, 1100, s, c, 10, 792, PSH | ACK, "reply", 801);
    assert(b@.frames =~= m.frames + midcap_frames());
}

/// A FIN and an RST of the same end.
pub open spec fn finrst_frames() -> Seq<(int, Seq<u8>)> {
    handshake_frames(0, client(), server(), 100, 500) + seq![
        said(300, client(), server(), 101, 501, PSH | ACK, "bye"@, 900),
        shot(400, client(), server(), 104, 501, FIN | ACK, seq![], 901),
        shot(450, client(), server(), 104, 501, RST | ACK, seq![], 902),
    ]
}

fn add_finrst(b: &mut Builder)
    ensures
        final(b)@ == (BuilderModel {
            frames: old(b)@.frames + finrst_frames(),
            ..old(b)@
        }),
{
    let ghost m = b@;
    let c = end(1, 40000);
    let s = end(2, 80);
    proof {
        reveal_strlit("bye");
    }
    let _ = b.shake(0, c, s, 100, 500);
    say(b, 300, c, s, 101, 501, PSH | ACK, "bye", 900);
    signal(b, 400, c, s, 104, 501, FIN | ACK, 901);
    signal(b, 450, c, s, 104, 501, RST | ACK, 902);
    assert(b@.frames =~= m.frames + finrst_frames());
}

/// All frames have the same time.
pub open spec fn same_ts_frames() -> Seq<(int, Seq<u8>)> {
    seq![
        shot(0, client(), server(), 100, 0, SYN, seq![], 1000),
        shot(0, server(), client(), 500, 101, SYN | ACK, seq![], 1001),
        shot(0, client(), server(), 101, 501, ACK, seq![], 1002),
        said(0, client(), server(), 101, 501, PSH | ACK, "AAA"@, 1003),
        said(0, client(), server(), 104, 501, PSH | ACK, "BBB"@, 1004),
    ]
}

fn add_same_ts(b: &mut Builder)
    ensures
        final(b)@ == (BuilderModel {
            frames: old(b)@.frames + same_ts_frames(),
            ..old(b)@
        }),
{
    let ghost m = b@;
    let c = end(1, 40000);
    let s = end(2, 80);
    proof {
        reveal_strlit("AAA");
        reveal_strlit("BBB");
    }
    signal(b, 0, c, s, 100, 0, SYN, 1000);
    signal(b, 0, s, c, 500, 101, SYN | ACK, 1001);
    signal(b, 0, c, s, 101, 501, ACK, 1002);
    say(b, 0, c, s, 101, 501, PSH | ACK, "AAA", 1003);
    say(b, 0, c, s, 104, 501, PSH | ACK, "BBB", 1004);
    assert(b@.frames =~= m.frames + same_ts_frames());
}

/// A gap that is filled, and a retransmission that differs.
pub open spec fn mixed_frames() -> Seq<(int, Seq<u8>)> {
    handshake_frames(0, client(), server(), 100, 500) + seq![
        said(300, client(), server(), 121, 501, PSH | ACK, "later"@, 1100),
        said(400, client(), server(), 101, 501, PSH | ACK, "first"@, 1101),
        said(500, client(), server(), 101, 501, PSH | ACK, "firsX"@, 1102),
        said(600, server(), client(), 501, 126, PSH | ACK, "resp"@, 1103),
        shot(700, client(), server(), 126, 505, FIN | ACK, seq![], 1104),
        shot(800, server(), client(), 505, 127, FIN | ACK, seq![], 1105),
    ]
}

fn add_mixed(b: &mut Builder)
    ensures
        final(b)@ == (BuilderModel {
            frames: old(b)@.frames + mixed_frames(),
            ..old(b)@
        }),
{
    let ghost m = b@;
    let c = end(1, 40000);
    let s = end(2, 80);
    proof {
        reveal_strlit("firsX");
        reveal_strlit("first");
        reveal_strlit("later");
        reveal_strlit("resp");
    }
    let _ = b.shake(0, c, s, 100, 500);
    say(b, 300, c, s, 121, 501, PSH | ACK, "later", 1100);
    say(b, 400, c, s, 101, 501, PSH | ACK, "first", 1101);
    say(b, 500, c, s, 101, 501, PSH | ACK, "firsX", 1102);
    say(b, 600, s, c, 501, 126, PSH | ACK, "resp", 1103);
    signal(b, 700, c, s, 126, 505, FIN | ACK, 1104);
    signal(b, 800, s, c, 505, 127, FIN | ACK, 1105);
    assert(b@.frames =~= m.frames + mixed_frames());
}

/// Fragments of a datagram overlap; another connection is untouched.
pub open spec fn frag_overlap_frames() -> Seq<(int, Seq<u8>)> {
    handshake_frames(0, client(), server(), 100, 500) + seq![
        piece(2000, 101, 501, PSH | ACK, "FRAG0001"@, 0, true),
        piece(2100, 0, 0, 0, "OVERLAP!!"@, 8, true),
        piece(2200, 0, 0, 0, "XX"@, 14, false),
        said(2300, other_client(), other_server(), 1, 1, PSH | ACK, "clean"@, 960),
    ]
}

fn add_frag_overlap(b: &mut Builder)
    ensures
        final(b)@ == (BuilderModel {
            frames: old(b)@.frames + frag_overlap_frames(),
            ..old(b)@
        }),
{
    let ghost m = b@;
    let c = end(1, 40000);
    let s = end(2, 80);
    proof {
        reveal_strlit("FRAG0001");
        reveal_strlit("OVERLAP!!");
        reveal_strlit("XX");
        reveal_strlit("clean");
    }
    let _ = b.shake(0, c, s, 100, 500);
    break_off(b, 2000, 101, 501, PSH | ACK, "FRAG0001", 0, true);
    break_off(b, 2100, 0, 0, 0, "OVERLAP!!", 8, true);
    break_off(b, 2200, 0, 0, 0, "XX", 14, false);
    let x = end(3, 5000);
    let y = end(4, 81);
    say(b, 2300, x, y, 1, 1, PSH | ACK, "clean", 960);
    assert(b@.frames =~= m.frames + frag_overlap_frames());
}

/// The frames of a scenario; an unknown name means the mixed one.
pub open spec fn demo_frames(name: Seq<char>) -> Seq<(int, Seq<u8>)> {
    if name == "wrap"@ {
        wrap_frames()
    } else if name == "retrans"@ {
        retrans_frames()
    } else if name == "outoforder"@ {
        out_of_order_frames()
    } else if name == "gap"@ {
        gap_frames()
    } else if name == "reuse"@ {
        reuse_frames()
    } else if name == "midcap"@ {
        midcap_frames()
    } else if name == "finrst"@ {
        finrst_frames()
    } else if name == "frag_overlap"@ {
        frag_overlap_frames()
    } else if name == "same_ts"@ {
        same_ts_frames()
    } else {
        mixed_frames()
    }
}

/// The fixture text of a scenario; an unknown name means the mixed one.
pub fn demo_fixture(name: &str) -> (r: String)
    ensures
        r@ == written(
            fixture_json(BuilderModel { linktype: 1, frames: demo_frames(name@) }),
            None,
        ),
{
    let mut b = Builder::new(1);
    if same(name, "wrap") {
        add_wrap(&mut b);
    } else if same(name, "retrans") {
        add_retrans(&mut b);
    } else if same(name, "outoforder") {
        add_out_of_order(&mut b);
    } else if same(name, "gap") {
        add_gap(&mut b);
    } else if same(name, "reuse") {
        add_reuse(&mut b);
    } else if same(name, "midcap") {
        add_midcap(&mut b);
    } else if same(name, "finrst") {
        add_finrst(&mut b);
    } else if same(name, "frag_overlap") {
        add_frag_overlap(&mut b);
    } else if same(name, "same_ts") {
        add_same_ts(&mut b);
    } else {
        add_mixed(&mut b);
    }
    assert(b@.frames =~= demo_frames(name@));
    b.to_json_string()
}

proof fn lemma_times()
    ensures
        forall|
            ts: int,
            from: (Seq<u8>, u16),
            to: (Seq<u8>, u16),
            seq: u32,
            ack: u32,
            flags: u8,
            payload: Seq<u8>,
            id: u16,
        |
            (#[trigger] shot(ts, from, to, seq, ack, flags, payload, id)).0 == ts,
        forall|ts: int, seq: u32, ack: u32, flags: u8, text: Seq<char>, off: u16, more: bool|
            (#[trigger] piece(ts, seq, ack, flags, text, off, more)).0 == ts,
{
    reveal(shot);
    reveal(piece);
}

/// Times that fit into a capture.
spec fn timed(fs: Seq<(int, Seq<u8>)>) -> bool {
    forall|i: int| 0 <= i < fs.len() ==> 0 <= (#[trigger] fs[i]).0 <= 10000
}

proof fn lemma_loads(fs: Seq<(int, Seq<u8>)>)
    requires
        timed(fs),
    ensures
        ({
            let m = BuilderModel { linktype: 1, frames: fs };
            loaded(encode_utf8(written(fixture_json(m), None))) == Some(
                Ok::<CaptureModel, Seq<char>>(reloaded(m)),
            )
        }),
{
    law_fixture_loads_back(BuilderModel { linktype: 1, frames: fs });
}

proof fn lemma_wrap_timed()
    ensures
        timed(wrap_frames()),
{
    lemma_times();
}

proof fn lemma_retrans_timed()
    ensures
        timed(retrans_frames()),
{
    lemma_times();
}

proof fn lemma_out_of_order_timed()
    ensures
        timed(out_of_order_frames()),
{
    lemma_times();
}

proof fn lemma_gap_timed()
    ensures
        timed(gap_frames()),
{
    lemma_times();
}

proof fn lemma_reuse_timed()
    ensures
        timed(reuse_frames()),
{
    lemma_times();
}

proof fn lemma_midcap_timed()
    ensures
        timed(midcap_frames()),
{
    lemma_times();
}

proof fn lemma_finrst_timed()
    ensures
        timed(finrst_frames()),
{
    lemma_times();
}

proof fn lemma_frag_overlap_timed()
    ensures
        timed(frag_overlap_frames()),
{
    lemma_times();
}

proof fn lemma_same_ts_timed()
    ensures
        timed(same_ts_frames()),
{
    lemma_times();
}

proof fn lemma_mixed_timed()
    ensures
        timed(mixed_frames()),
{
    lemma_times();
}

proof fn lemma_demo_timed(name: Seq<char>)
    ensures
        timed(demo_frames(name)),
{
    lemma_wrap_timed();
    lemma_retrans_timed();
    lemma_out_of_order_timed();
    lemma_gap_timed();
    lemma_reuse_timed();
    lemma_midcap_timed();
    lemma_finrst_timed();
    lemma_frag_overlap_timed();
    lemma_same_ts_timed();
    lemma_mixed_timed();
}

/// The fixture of every scenario loads as the frames of the scenario.
pub proof fn law_demo_loads(name: Seq<char>)
    ensures
        ({
            let m = BuilderModel { linktype: 1, frames: demo_frames(name) };
            loaded(encode_utf8(written(fixture_json(m), None))) == Some(
                Ok::<CaptureModel, Seq<char>>(reloaded(m)),
            )
        }),
{
    let m = BuilderModel { linktype: 1, frames: demo_frames(name) };
    lemma_demo_timed(name);
    lemma_loads(demo_frames(name));
}

} // verus!
