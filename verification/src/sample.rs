//! A sample capture: one connection with normal bytes, bytes out of order, a
//! retransmission, an overlap and a gap that is filled, which closes in good order.

use vstd::prelude::*;
use crate::builder::{frame_pairs, shot, Builder, BuilderModel, FrameSpec};
use crate::demo::{end, said, say, signal};
use crate::json::{hex_encode, items_of, written, Json, JsonModel};
use crate::model::{ACK, FIN, PSH, SYN};
use crate::text::hex_of;

verus! {

pub open spec fn client() -> (Seq<u8>, u16) {
    (seq![10u8, 0u8, 0u8, 1u8], 40001)
}

pub open spec fn server() -> (Seq<u8>, u16) {
    (seq![10u8, 0u8, 0u8, 2u8], 80)
}

/// The handshake, whose first sequence number stands before the 32-bit boundary, and
/// the first data with a gap that is filled.
pub open spec fn opening() -> Seq<(int, Seq<u8>)> {
    seq![
        shot(1000000, client(), server(), 0xfffffff0, 0x0, SYN, seq![], 0),
        shot(1010000, server(), client(), 0x3e8, 0xfffffff1, SYN | ACK, seq![], 1),
        shot(1020000, client(), server(), 0xfffffff1, 0x3e9, ACK, seq![], 2),
        said(1100000, client(), server(), 0xfffffff1, 0x3e9, PSH | ACK, "AAAAA"@, 3),
        said(1200000, client(), server(), 0xfffffffb, 0x3e9, ACK, "KKKKK"@, 4),
        said(1300000, client(), server(), 0xfffffff6, 0x3e9, PSH | ACK, "BBBBB"@, 5),
    ]
}

/// A retransmission, an overlap with other bytes, an answer and the close.
pub open spec fn closing() -> Seq<(int, Seq<u8>)> {
    seq![
        said(1400000, client(), server(), 0xfffffff1, 0x3e9, ACK, "AAAAA"@, 6),
        said(1500000, client(), server(), 0xfffffff4, 0x3e9, ACK, "XX"@, 7),
        said(1600000, server(), client(), 0x3e9, 0x10, PSH | ACK, "hi!"@, 8),
        shot(1700000, client(), server(), 0x10, 0x3ec, FIN | ACK, seq![], 9),
        shot(1800000, server(), client(), 0x3ec, 0x11, FIN | ACK, seq![], 10),
        shot(1900000, client(), server(), 0x11, 0x3ed, ACK, seq![], 11),
    ]
}

/// The frames of the sample.
pub open spec fn sample_frames() -> Seq<(int, Seq<u8>)> {
    opening() + closing()
}

fn add_opening(b: &mut Builder)
    ensures
        final(b)@ == (BuilderModel { frames: old(b)@.frames + opening(), ..old(b)@ }),
{
    let ghost m = b@;
    let c = end(1, 40001);
    let s = end(2, 80);
    proof {
        reveal_strlit("AAAAA");
        reveal_strlit("BBBBB");
        reveal_strlit("KKKKK");
    }
    signal(b, 1000000, c, s, 0xfffffff0, 0x0, SYN, 0);
    signal(b, 1010000, s, c, 0x3e8, 0xfffffff1, SYN | ACK, 1);
    signal(b, 1020000, c, s, 0xfffffff1, 0x3e9, ACK, 2);
    say(b, 1100000, c, s, 0xfffffff1, 0x3e9, PSH | ACK, "AAAAA", 3);
    say(b, 1200000, c, s, 0xfffffffb, 0x3e9, ACK, "KKKKK", 4);
    say(b, 1300000, c, s, 0xfffffff6, 0x3e9, PSH | ACK, "BBBBB", 5);
    assert(b@.frames =~= m.frames + opening());
}

fn add_closing(b: &mut Builder)
    ensures
        final(b)@ == (BuilderModel { frames: old(b)@.frames + closing(), ..old(b)@ }),
{
    let ghost m = b@;
    let c = end(1, 40001);
    let s = end(2, 80);
    proof {
        reveal_strlit("AAAAA");
        reveal_strlit("XX");
        reveal_strlit("hi!");
    }
    say(b, 1400000, c, s, 0xfffffff1, 0x3e9, ACK, "AAAAA", 6);
    say(b, 1500000, c, s, 0xfffffff4, 0x3e9, ACK, "XX", 7);
    say(b, 1600000, s, c, 0x3e9, 0x10, PSH | ACK, "hi!", 8);
    signal(b, 1700000, c, s, 0x10, 0x3ec, FIN | ACK, 9);
    signal(b, 1800000, s, c, 0x3ec, 0x11, FIN | ACK, 10);
    signal(b, 1900000, c, s, 0x11, 0x3ed, ACK, 11);
    assert(b@.frames =~= m.frames + closing());
}

/// The frames of the sample.
pub fn raw_frames() -> (r: Vec<FrameSpec>)
    ensures
        frame_pairs(r@) == sample_frames(),
{
    let mut b = Builder::new(1);
    add_opening(&mut b);
    add_closing(&mut b);
    assert(b@.frames =~= sample_frames());
    b.into_frames()
}

/// A frame of the sample's fixture.
pub open spec fn frame_json(f: (int, Seq<u8>)) -> JsonModel {
    JsonModel::Obj(seq![("us"@, JsonModel::Num(f.0)), ("hex"@, JsonModel::Str(hex_of(f.1)))])
}

/// The sample's fixture.
pub open spec fn sample_json() -> JsonModel {
    JsonModel::Obj(
        seq![
            ("format"@, JsonModel::Str("reasm-fixture/1"@)),
            ("link_type"@, JsonModel::Str("ethernet"@)),
            (
                "frames"@,
                JsonModel::Arr(sample_frames().map_values(|f: (int, Seq<u8>)| frame_json(f))),
            ),
        ],
    )
}

/// The sample's fixture.
pub fn fixture_json() -> (r: Json)
    ensures
        r@ == sample_json(),
{
    let frames = raw_frames();
    let ghost fs = sample_frames();
    let ghost g = |f: (int, Seq<u8>)| frame_json(f);
    let mut arr: Vec<Json> = Vec::new();
    let mut i: usize = 0;
    assert(items_of(arr@) =~= fs.map_values(g).take(0));
    while i < frames.len()
        invariant
            i <= frames@.len(),
            fs == frame_pairs(frames@),
            g == (|f: (int, Seq<u8>)| frame_json(f)),
            items_of(arr@) == fs.map_values(g).take(i as int),
        decreases frames@.len() - i,
    {
        let ghost before = arr@;
        let f = &frames[i];
        assert(fs[i as int] == (f.ts_us as int, f.bytes@));
        let mut o = Json::obj();
        o.set("us", Json::num(f.ts_us));
        o.set("hex", Json::str(hex_encode(f.bytes.as_slice())));
        assert(o@->Obj_0 =~= frame_json(fs[i as int])->Obj_0);
        let ghost om = o@;
        arr.push(o);
        i += 1;
        assert(items_of(arr@) =~= items_of(before).push(om));
        assert(items_of(arr@) =~= fs.map_values(g).take(i as int));
    }
    assert(fs.map_values(g).take(i as int) =~= fs.map_values(g));
    let mut root = Json::obj();
    root.set("format", Json::Str("reasm-fixture/1".to_string()));
    root.set("link_type", Json::Str("ethernet".to_string()));
    root.set("frames", Json::arr(arr));
    assert(root@->Obj_0 =~= sample_json()->Obj_0);
    root
}

/// The sample's fixture as text in lines.
pub fn fixture_json_string() -> (r: String)
    ensures
        r@ == written(sample_json(), Some(seq![])),
{
    fixture_json().to_pretty()
}

} // verus!
