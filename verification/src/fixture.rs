//! Deterministic frame fixtures.

use vstd::prelude::*;
use crate::hex::{decode, decode_spec, decodable, encode};
use crate::parse::{raws, RawFrame, RawModel};
use crate::sorting::{order_of, stable_order};
use crate::text::{cat_dec, dec, hex_of, push_quoted, push_text, quoted, same};

verus! {

pub const FIXTURE_FORMAT: &'static str = "pwgsb-fixture/1";

#[derive(Debug, Clone, PartialEq, Eq)]
pub struct Fixture {
    pub format: String,
    pub name: String,
    pub frames: Vec<FixtureFrame>,
}

#[derive(Debug, Clone, PartialEq, Eq)]
pub struct FixtureFrame {
    pub index: u64,
    pub ts_micros: i64,
    /// The bytes of the frame in lower-case hexadecimal.
    pub data: String,
}

/// A number that sorts as a signed time does.
pub open spec fn time_rank(ts: i64) -> u64 {
    (ts + 0x8000_0000_0000_0000) as u64
}

/// What frames are sorted by: time, then index.
pub open spec fn frame_keys(frames: Seq<RawFrame>) -> Seq<(u64, u64)> {
    frames.map_values(|f: RawFrame| (time_rank(f.ts_micros), f.index))
}

/// The fixture of some frames: sorted by time and index, numbered from 0 on.
pub fn to_canonical_fixture(frames: &[RawFrame], name: &str) -> (r: Fixture)
    ensures
        r.format@ == FIXTURE_FORMAT@,
        r.name@ == name@,
        r.frames@.len() == frames@.len(),
        forall|i: int|
            #![trigger r.frames@[i]]
            0 <= i < frames@.len() ==> {
                let f = frames@[order_of(frame_keys(frames@))[i] as int];
                &&& r.frames@[i].index == i
                &&& r.frames@[i].ts_micros == f.ts_micros
                &&& r.frames@[i].data@ == hex_of(f.data@)
            },
{
    let mut keys: Vec<(u64, u64)> = Vec::new();
    let mut k: usize = 0;
    while k < frames.len()
        invariant
            k <= frames@.len(),
            keys@ == frame_keys(frames@).take(k as int),
        decreases frames@.len() - k,
    {
        let rank: u64 = (frames[k].ts_micros as i128 + 0x8000_0000_0000_0000) as u64;
        keys.push((rank, frames[k].index));
        k += 1;
        assert(keys@ =~= frame_keys(frames@).take(k as int));
    }
    assert(keys@ =~= frame_keys(frames@));
    let order = stable_order(&keys);
    let mut out: Vec<FixtureFrame> = Vec::new();
    let mut i: usize = 0;
    while i < order.len()
        invariant
            i <= order@.len(),
            order@.len() == frames@.len(),
            order@ == order_of(frame_keys(frames@)),
            forall|j: int| 0 <= j < order@.len() ==> (#[trigger] order@[j]) < frames@.len(),
            out@.len() == i,
            forall|j: int|
                #![trigger out@[j]]
                0 <= j < i ==> {
                    let f = frames@[order@[j] as int];
                    &&& out@[j].index == j
                    &&& out@[j].ts_micros == f.ts_micros
                    &&& out@[j].data@ == hex_of(f.data@)
                },
        decreases order@.len() - i,
    {
        let f = &frames[order[i]];
        out.push(
            FixtureFrame {
                index: i as u64,
                ts_micros: f.ts_micros,
                data: encode(f.data.as_slice()),
            },
        );
        i += 1;
    }
    Fixture { format: FIXTURE_FORMAT.to_string(), name: name.to_string(), frames: out }
}

/// What decoding the text of a frame says where it is no hexadecimal text.
pub open spec fn frame_error(f: FixtureFrame, e: Seq<char>) -> bool {
    exists|d: Seq<char>| #[trigger]
        decode_spec(f.data@, "invalid hex character: "@, Err(d)) && e == "fixture frame "@ + dec(
            f.index as nat,
        ) + ": "@ + d
}

/// What the frames of a fixture are.
pub open spec fn fixture_frames(f: Fixture, r: Result<Seq<RawModel>, Seq<char>>) -> bool {
    if f.format@ != FIXTURE_FORMAT@ {
        r == Err::<Seq<RawModel>, Seq<char>>(
            "fixture: unsupported format "@ + quoted(f.format@) + " (want "@ + quoted(
                FIXTURE_FORMAT@,
            ) + ")"@,
        )
    } else {
        match r {
            Ok(v) => {
                &&& v.len() == f.frames@.len()
                &&& forall|i: int|
                    #![trigger v[i]]
                    0 <= i < v.len() ==> v[i].index == f.frames@[i].index && v[i].ts_micros
                        == f.frames@[i].ts_micros && decode_spec(
                        f.frames@[i].data@,
                        "invalid hex character: "@,
                        Ok(v[i].data),
                    )
            },
            Err(e) => exists|i: int|
                {
                    &&& 0 <= i < f.frames@.len()
                    &&& frame_error(#[trigger] f.frames@[i], e)
                    &&& forall|k: int| 0 <= k < i ==> decodable((#[trigger] f.frames@[k]).data@)
                },
        }
    }
}

/// The frames that a fixture lists.
pub fn parse_fixture(f: &Fixture) -> (r: Result<Vec<RawFrame>, String>)
    ensures
        match r {
            Ok(v) => fixture_frames(*f, Ok(raws(v@))),
            Err(e) => fixture_frames(*f, Err(e@)),
        },
{
    if !same(f.format.as_str(), FIXTURE_FORMAT) {
        let mut e = "fixture: unsupported format ".to_string();
        push_quoted(&mut e, f.format.as_str());
        push_text(&mut e, " (want ");
        push_quoted(&mut e, FIXTURE_FORMAT);
        push_text(&mut e, ")");
        return Err(e);
    }
    let mut out: Vec<RawFrame> = Vec::new();
    let mut i: usize = 0;
    while i < f.frames.len()
        invariant
            i <= f.frames@.len(),
            f.format@ == FIXTURE_FORMAT@,
            out@.len() == i,
            forall|k: int|
                #![trigger out@[k]]
                0 <= k < i ==> out@[k].index == f.frames@[k].index && out@[k].ts_micros
                    == f.frames@[k].ts_micros && decode_spec(
                    f.frames@[k].data@,
                    "invalid hex character: "@,
                    Ok(out@[k].data@),
                ),
        decreases f.frames@.len() - i,
    {
        let g = &f.frames[i];
        match decode(g.data.as_str()) {
            Ok(data) => {
                out.push(RawFrame { index: g.index, ts_micros: g.ts_micros, data });
            },
            Err(d) => {
                let mut e = cat_dec("fixture frame ", g.index);
                push_text(&mut e, ": ");
                push_text(&mut e, d.as_str());
                proof {
                    assert(decode_spec(
                        f.frames@[i as int].data@,
                        "invalid hex character: "@,
                        Err(d@),
                    ));
                    assert(frame_error(f.frames@[i as int], e@));
                    assert forall|k: int| 0 <= k < i implies decodable(
                        (#[trigger] f.frames@[k]).data@,
                    ) by {
                        assert(out@[k].index == f.frames@[k].index);
                    }
                }
                return Err(e);
            },
        }
        i += 1;
    }
    proof {
        let v = raws(out@);
        assert forall|i: int|
            #![trigger v[i]]
            0 <= i < v.len() implies v[i].index == f.frames@[i].index && v[i].ts_micros
            == f.frames@[i].ts_micros && decode_spec(
            f.frames@[i].data@,
            "invalid hex character: "@,
            Ok(v[i].data),
        ) by {
            assert(out@[i].index == f.frames@[i].index);
        }
    }
    Ok(out)
}

/// Frames read back from their canonical fixture are the frames in the order of
/// time and index, numbered from 0 on.
pub proof fn law_canonical_read_back(frames: Seq<RawFrame>, f: Fixture, v: Seq<RawModel>)
    requires
        f.format@ == FIXTURE_FORMAT@,
        f.frames@.len() == frames.len(),
        forall|i: int|
            #![trigger f.frames@[i]]
            0 <= i < frames.len() ==> f.frames@[i].index == i && f.frames@[i].ts_micros
                == frames[order_of(frame_keys(frames))[i] as int].ts_micros && f.frames@[i].data@
                == hex_of(frames[order_of(frame_keys(frames))[i] as int].data@),
        fixture_frames(f, Ok(v)),
    ensures
        v.len() == frames.len(),
        forall|i: int|
            #![trigger v[i]]
            0 <= i < v.len() ==> v[i].index == i && v[i].ts_micros == frames[order_of(
                frame_keys(frames),
            )[i] as int].ts_micros && v[i].data == frames[order_of(
                frame_keys(frames),
            )[i] as int].data@,
{
    assert forall|i: int|
        #![trigger v[i]]
        0 <= i < v.len() implies v[i].index == i && v[i].ts_micros == frames[order_of(
        frame_keys(frames),
    )[i] as int].ts_micros && v[i].data == frames[order_of(frame_keys(frames))[i] as int].data@ by {
        let g = f.frames@[i];
        crate::hex::law_decode_encode(frames[order_of(frame_keys(frames))[i] as int].data@);
    }
}

/// A canonical fixture lists frames by time, and frames of one time by index.
pub proof fn law_canonical_order(frames: Seq<RawFrame>, i: int, j: int)
    requires
        frames.len() <= usize::MAX,
        0 <= i < j < frames.len(),
    ensures
        ({
            let o = order_of(frame_keys(frames));
            let a = frames[o[i] as int];
            let b = frames[o[j] as int];
            a.ts_micros < b.ts_micros || (a.ts_micros == b.ts_micros && a.index <= b.index)
        }),
{
    let keys = frame_keys(frames);
    crate::sorting::law_order(keys, keys.len() as int);
    let o = order_of(keys);
    assert(crate::sorting::goes_before(keys, o[i], o[j]));
    assert(o[i] < frames.len() && o[j] < frames.len());
}

} // verus!
