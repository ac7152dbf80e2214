//! Captured frames: classic pcap files, and fixtures that list frames in
//! hexadecimal.

use vstd::prelude::*;
use crate::bytes::{
    be16, be32, copy_range, le16, le16_bytes, le32, le32_bytes, push_all, push_le16, push_le32,
    read_be16, read_be32, read_le16, read_le32,
};
use crate::capture::{
    lemma_packet_at, lemma_packet_stands, lemma_pcap_header, packet_bytes, pcap_file, Packet,
};
use crate::hex::{decodable, decode_spec, decode_with};
use crate::text::{cat, cat_dec, dec, hex_of, hex_string, is_space, push_text, same};

verus! {

#[derive(Clone, Debug)]
pub struct Frame {
    pub index: u64,
    pub ts_ns: u64,
    pub data: Vec<u8>,
}

/// What a frame is.
pub struct FrameModel {
    pub index: u64,
    pub ts_ns: u64,
    pub data: Seq<u8>,
}

impl View for Frame {
    type V = FrameModel;

    open spec fn view(&self) -> FrameModel {
        FrameModel { index: self.index, ts_ns: self.ts_ns, data: self.data@ }
    }
}

/// The models of a list of frames.
pub open spec fn frame_models(v: Seq<Frame>) -> Seq<FrameModel> {
    Seq::new(v.len(), |i: int| v[i]@)
}

pub fn to_hex(data: &[u8]) -> (s: String)
    ensures
        s@ == hex_of(data@),
{
    hex_string(data)
}

pub fn from_hex(s: &str) -> (r: Result<Vec<u8>, String>)
    ensures
        match r {
            Ok(v) => decode_spec(s@, "invalid hex char "@, Ok(v@)),
            Err(e) => decode_spec(s@, "invalid hex char "@, Err(e@)),
        },
{
    decode_with(s, "invalid hex char ")
}

pub struct FixtureFrame {
    pub ts_ns: u64,
    pub data: String,
}

pub struct Fixture {
    pub format: String,
    pub frames: Vec<FixtureFrame>,
}

pub const FIXTURE_FORMAT: &'static str = "frame-fixture-v1";

/// The fixture that lists frames, ready to be serialised.
pub fn export_fixture(frames: &[Frame]) -> (r: Fixture)
    ensures
        r.format@ == FIXTURE_FORMAT@,
        r.frames@.len() == frames@.len(),
        forall|i: int|
            0 <= i < frames@.len() ==> (#[trigger] r.frames@[i]).ts_ns == frames@[i].ts_ns
                && r.frames@[i].data@ == hex_of(frames@[i].data@),
{
    let mut out: Vec<FixtureFrame> = Vec::new();
    let mut i: usize = 0;
    while i < frames.len()
        invariant
            i <= frames@.len(),
            out@.len() == i,
            forall|k: int|
                0 <= k < i ==> (#[trigger] out@[k]).ts_ns == frames@[k].ts_ns && out@[k].data@
                    == hex_of(frames@[k].data@),
        decreases frames@.len() - i,
    {
        out.push(FixtureFrame { ts_ns: frames[i].ts_ns, data: to_hex(&frames[i].data) });
        i += 1;
    }
    Fixture { format: FIXTURE_FORMAT.to_string(), frames: out }
}

/// What the frames of a fixture decode to.
pub open spec fn fixture_spec(f: Fixture, r: Result<Seq<FrameModel>, Seq<char>>) -> bool {
    if f.format@ != FIXTURE_FORMAT@ {
        r == Err::<Seq<FrameModel>, Seq<char>>("unsupported fixture format "@ + f.format@)
    } else {
        match r {
            Ok(v) => {
                &&& v.len() == f.frames@.len()
                &&& forall|i: int|
                    #![trigger v[i]]
                    0 <= i < v.len() ==> v[i].index == i && v[i].ts_ns == f.frames@[i].ts_ns
                        && decode_spec(f.frames@[i].data@, "invalid hex char "@, Ok(v[i].data))
            },
            Err(e) => exists|i: int|
                {
                    &&& 0 <= i < f.frames@.len()
                    &&& decode_spec(
                        (#[trigger] f.frames@[i]).data@,
                        "invalid hex char "@,
                        Err(e),
                    )
                    &&& forall|k: int| 0 <= k < i ==> decodable((#[trigger] f.frames@[k]).data@)
                },
        }
    }
}

/// The frames that a fixture lists.
pub fn parse_fixture(f: &Fixture) -> (r: Result<Vec<Frame>, String>)
    ensures
        match r {
            Ok(v) => fixture_spec(*f, Ok(frame_models(v@))),
            Err(e) => fixture_spec(*f, Err(e@)),
        },
{
    if !same(f.format.as_str(), FIXTURE_FORMAT) {
        return Err(cat("unsupported fixture format ", f.format.as_str()));
    }
    let mut out: Vec<Frame> = Vec::new();
    let mut i: usize = 0;
    while i < f.frames.len()
        invariant
            i <= f.frames@.len(),
            f.format@ == FIXTURE_FORMAT@,
            out@.len() == i,
            forall|k: int|
                #![trigger out@[k]]
                0 <= k < i ==> out@[k].index == k && out@[k].ts_ns == f.frames@[k].ts_ns
                    && decode_spec(f.frames@[k].data@, "invalid hex char "@, Ok(out@[k].data@)),
        decreases f.frames@.len() - i,
    {
        match from_hex(f.frames[i].data.as_str()) {
            Ok(data) => {
                out.push(Frame { index: i as u64, ts_ns: f.frames[i].ts_ns, data });
            },
            Err(e) => {
                proof {
                    assert(decode_spec(
                        f.frames@[i as int].data@,
                        "invalid hex char "@,
                        Err(e@),
                    ));
                    assert forall|k: int| 0 <= k < i implies decodable(
                        (#[trigger] f.frames@[k]).data@,
                    ) by {
                        assert(out@[k].index == k);
                    }
                }
                return Err(e);
            },
        }
        i += 1;
    }
    proof {
        let v = frame_models(out@);
        assert forall|i: int|
            #![trigger v[i]]
            0 <= i < v.len() implies v[i].index == i && v[i].ts_ns == f.frames@[i].ts_ns
            && decode_spec(f.frames@[i].data@, "invalid hex char "@, Ok(v[i].data)) by {
            assert(out@[i].index == i);
        }
    }
    Ok(out)
}

/// The 32-bit number at `i`, in either byte order.
pub open spec fn num32(b: Seq<u8>, i: int, le: bool) -> int {
    if le {
        le32(b, i)
    } else {
        be32(b, i)
    }
}

/// The 16-bit number at `i`, in either byte order.
pub open spec fn num16(b: Seq<u8>, i: int, le: bool) -> int {
    if le {
        le16(b, i)
    } else {
        be16(b, i)
    }
}

/// Byte order and nanosecond resolution of a pcap file, by its magic number.
pub open spec fn magic_of(b: Seq<u8>) -> Option<(bool, bool)> {
    if be32(b, 0) == 0xd4c3b2a1 {
        Some((true, false))
    } else if be32(b, 0) == 0xa1b2c3d4 {
        Some((false, false))
    } else if be32(b, 0) == 0x4d3cb2a1 {
        Some((true, true))
    } else if be32(b, 0) == 0xa1b23c4d {
        Some((false, true))
    } else {
        None
    }
}

/// The time of a record in nanoseconds.
pub open spec fn record_time(b: Seq<u8>, off: int, le: bool, nano: bool) -> int {
    num32(b, off, le) * 1_000_000_000 + num32(b, off + 4, le) * (if nano {
        1int
    } else {
        1_000
    })
}

/// The frames of the records from `off` on, numbered from `index`. Less than a
/// record header at the end is ignored.
pub open spec fn records(b: Seq<u8>, off: int, index: int, le: bool, nano: bool) -> Result<
    Seq<FrameModel>,
    Seq<char>,
>
    decreases b.len() - off,
{
    if off + 16 > b.len() {
        Ok(seq![])
    } else {
        let incl = num32(b, off + 8, le);
        if off + 16 + incl > b.len() || incl < 0 {
            Err("truncated pcap record"@)
        } else {
            match records(b, off + 16 + incl, index + 1, le, nano) {
                Err(e) => Err(e),
                Ok(rest) => Ok(
                    seq![
                        FrameModel {
                            index: index as u64,
                            ts_ns: record_time(b, off, le, nano) as u64,
                            data: b.subrange(off + 16, off + 16 + incl),
                        },
                    ] + rest,
                ),
            }
        }
    }
}

/// The frames of an Ethernet pcap file.
pub open spec fn pcap_frames(b: Seq<u8>) -> Result<Seq<FrameModel>, Seq<char>> {
    if b.len() < 24 {
        Err("pcap too short"@)
    } else {
        match magic_of(b) {
            None => Err("unsupported pcap magic"@),
            Some((le, nano)) => if num16(b, 4, le) != 2 {
                Err("unsupported pcap major version"@)
            } else if num32(b, 20, le) != 1 {
                Err("unsupported linktype "@ + dec(num32(b, 20, le) as nat) + " (only Ethernet=1)"@)
            } else {
                records(b, 24, 0, le, nano)
            },
        }
    }
}

fn get32(b: &[u8], i: usize, le: bool) -> (v: u32)
    requires
        i + 4 <= b@.len(),
    ensures
        v == num32(b@, i as int, le),
{
    if le {
        read_le32(b, i)
    } else {
        read_be32(b, i)
    }
}

/// `done` frames before the rest of the records give the records from `off0`.
proof fn lemma_records_prepend(
    whole: Result<Seq<FrameModel>, Seq<char>>,
    done: Seq<FrameModel>,
    next: FrameModel,
    rest: Result<Seq<FrameModel>, Seq<char>>,
    rest2: Result<Seq<FrameModel>, Seq<char>>,
)
    requires
        match rest {
            Ok(r) => whole == Ok::<Seq<FrameModel>, Seq<char>>(done + r),
            Err(e) => whole == Err::<Seq<FrameModel>, Seq<char>>(e),
        },
        match rest2 {
            Ok(r) => rest == Ok::<Seq<FrameModel>, Seq<char>>(seq![next] + r),
            Err(e) => rest == Err::<Seq<FrameModel>, Seq<char>>(e),
        },
    ensures
        match rest2 {
            Ok(r) => whole == Ok::<Seq<FrameModel>, Seq<char>>(done.push(next) + r),
            Err(e) => whole == Err::<Seq<FrameModel>, Seq<char>>(e),
        },
{
    if let Ok(r) = rest2 {
        assert(done + (seq![next] + r) =~= done.push(next) + r);
    }
}

/// Reads a classic Ethernet pcap file.
pub fn parse_pcap(b: &[u8]) -> (r: Result<Vec<Frame>, String>)
    ensures
        match r {
            Ok(v) => pcap_frames(b@) == Ok::<Seq<FrameModel>, Seq<char>>(frame_models(v@)),
            Err(e) => pcap_frames(b@) == Err::<Seq<FrameModel>, Seq<char>>(e@),
        },
{
    if b.len() < 24 {
        return Err("pcap too short".to_string());
    }
    let magic: u32 = read_be32(b, 0);
    let le: bool;
    let nano: bool;
    if magic == 0xd4c3b2a1 {
        le = true;
        nano = false;
    } else if magic == 0xa1b2c3d4 {
        le = false;
        nano = false;
    } else if magic == 0x4d3cb2a1 {
        le = true;
        nano = true;
    } else if magic == 0xa1b23c4d {
        le = false;
        nano = true;
    } else {
        return Err("unsupported pcap magic".to_string());
    }
    let major: u16 = if le {
        read_le16(b, 4)
    } else {
        read_be16(b, 4)
    };
    if major != 2 {
        return Err("unsupported pcap major version".to_string());
    }
    let linktype: u32 = get32(b, 20, le);
    if linktype != 1 {
        let mut e = cat_dec("unsupported linktype ", linktype as u64);
        push_text(&mut e, " (only Ethernet=1)");
        return Err(e);
    }
    let n: usize = b.len();
    let mut off: usize = 24;
    let mut frames: Vec<Frame> = Vec::new();
    assert(frame_models(frames@) =~= seq![]);
    proof {
        let all = records(b@, 24, 0, le, nano);
        if let Ok(r) = all {
            assert(seq![] + r =~= r);
        }
    }
    while off <= n && n - off >= 16
        invariant
            n == b@.len(),
            24 <= off <= n,
            frames@.len() <= off,
            match records(b@, off as int, frames@.len() as int, le, nano) {
                Ok(r) => pcap_frames(b@) == Ok::<Seq<FrameModel>, Seq<char>>(
                    frame_models(frames@) + r,
                ),
                Err(e) => pcap_frames(b@) == Err::<Seq<FrameModel>, Seq<char>>(e),
            },
        decreases n - off,
    {
        let ts_sec: u64 = get32(b, off, le) as u64;
        let ts_frac: u64 = get32(b, off + 4, le) as u64;
        let incl: usize = get32(b, off + 8, le) as usize;
        if incl > n - off - 16 {
            return Err("truncated pcap record".to_string());
        }
        let ts_ns: u64 = if nano {
            ts_sec * 1_000_000_000 + ts_frac
        } else {
            ts_sec * 1_000_000_000 + ts_frac * 1_000
        };
        let data = copy_range(b, off + 16, off + 16 + incl);
        let ghost old_off = off as int;
        let ghost done = frames@;
        let frame = Frame { index: frames.len() as u64, ts_ns, data };
        let ghost next = frame@;
        frames.push(frame);
        proof {
            assert(frame_models(frames@) =~= frame_models(done).push(next));
            lemma_records_prepend(
                pcap_frames(b@),
                frame_models(done),
                next,
                records(b@, old_off, done.len() as int, le, nano),
                records(b@, old_off + 16 + incl, done.len() as int + 1, le, nano),
            );
        }
        off = off + 16 + incl;
    }
    assert(frame_models(frames@) + seq![] =~= frame_models(frames@));
    Ok(frames)
}

/// The record of a frame: seconds and microseconds modulo 2^32, the length
/// twice, the bytes.
pub open spec fn record_bytes(f: FrameModel) -> Seq<u8> {
    le32_bytes((f.ts_ns as int / 1_000_000_000) % 0x1_0000_0000) + le32_bytes(
        f.ts_ns as int % 1_000_000_000 / 1_000,
    ) + le32_bytes(f.data.len() as int) + le32_bytes(f.data.len() as int) + f.data
}

/// The header of a little-endian microsecond Ethernet pcap file.
pub open spec fn file_header() -> Seq<u8> {
    le32_bytes(0xa1b2c3d4) + le16_bytes(2) + le16_bytes(4) + le32_bytes(0) + le32_bytes(0)
        + le32_bytes(65535) + le32_bytes(1)
}

/// The first `n` frames as a pcap file.
pub open spec fn pcap_bytes(frames: Seq<FrameModel>, n: int) -> Seq<u8>
    decreases n,
{
    if n <= 0 {
        file_header()
    } else {
        pcap_bytes(frames, n - 1) + record_bytes(frames[n - 1])
    }
}

/// Writes a little-endian microsecond pcap file.
pub fn write_pcap(frames: &[Frame]) -> (out: Vec<u8>)
    requires
        forall|i: int| 0 <= i < frames@.len() ==> (#[trigger] frames@[i]).data@.len() <= u32::MAX,
    ensures
        out@ == pcap_bytes(frame_models(frames@), frames@.len() as int),
{
    let mut out: Vec<u8> = Vec::new();
    push_le32(&mut out, 0xa1b2c3d4);
    push_le16(&mut out, 2);
    push_le16(&mut out, 4);
    push_le32(&mut out, 0);
    push_le32(&mut out, 0);
    push_le32(&mut out, 65535);
    push_le32(&mut out, 1);
    assert(out@ =~= file_header());
    let mut i: usize = 0;
    while i < frames.len()
        invariant
            i <= frames@.len(),
            forall|i: int|
                0 <= i < frames@.len() ==> (#[trigger] frames@[i]).data@.len() <= u32::MAX,
            out@ == pcap_bytes(frame_models(frames@), i as int),
        decreases frames@.len() - i,
    {
        let f = &frames[i];
        let ghost before = out@;
        assert(frame_models(frames@)[i as int] == f@);
        let sec: u32 = (f.ts_ns / 1_000_000_000 % 0x1_0000_0000) as u32;
        let usec: u32 = (f.ts_ns % 1_000_000_000 / 1_000) as u32;
        let len: u32 = f.data.len() as u32;
        push_le32(&mut out, sec);
        push_le32(&mut out, usec);
        push_le32(&mut out, len);
        push_le32(&mut out, len);
        push_all(&mut out, &f.data);
        i += 1;
        assert(out@ =~= before + record_bytes(f@));
    }
    out
}

/// The input is the text of a fixture: its first character that is no white
/// space, among the first 64 bytes, is an opening brace.
pub open spec fn looks_like_fixture(b: Seq<u8>) -> bool {
    exists|i: int|
        {
            &&& 0 <= i < b.len()
            &&& i < 64
            &&& #[trigger] b[i] == 123
            &&& forall|k: int| 0 <= k < i ==> is_space((#[trigger] b[k]) as char)
        }
}

/// What a capture turns out to be.
pub enum CaptureInput {
    /// The text of a fixture.
    FixtureText,
    /// The frames of a pcap file.
    Frames(Vec<Frame>),
}

/// Tells fixtures from pcap files, and reads the latter.
pub fn parse_capture(bytes: &[u8]) -> (r: Result<CaptureInput, String>)
    ensures
        looks_like_fixture(bytes@) ==> r == Ok::<CaptureInput, String>(CaptureInput::FixtureText),
        !looks_like_fixture(bytes@) ==> match r {
            Ok(CaptureInput::Frames(v)) => pcap_frames(bytes@) == Ok::<Seq<FrameModel>, Seq<char>>(
                frame_models(v@),
            ),
            Ok(CaptureInput::FixtureText) => false,
            Err(e) => pcap_frames(bytes@) == Err::<Seq<FrameModel>, Seq<char>>(e@),
        },
{
    let mut i: usize = 0;
    while i < bytes.len() && i < 64 && crate::text::space(bytes[i] as char)
        invariant
            i <= bytes@.len(),
            i <= 64,
            forall|k: int| 0 <= k < i ==> is_space((#[trigger] bytes@[k]) as char),
        decreases bytes@.len() - i,
    {
        i += 1;
    }
    if i < bytes.len() && i < 64 && bytes[i] == 123 {
        return Ok(CaptureInput::FixtureText);
    }
    proof {
        if looks_like_fixture(bytes@) {
            let j = choose|j: int|
                {
                    &&& 0 <= j < bytes@.len()
                    &&& j < 64
                    &&& #[trigger] bytes@[j] == 123
                    &&& forall|k: int| 0 <= k < j ==> is_space((#[trigger] bytes@[k]) as char)
                };
            if j < i {
                assert(is_space(bytes@[j] as char));
            } else if j > i {
                assert(is_space(bytes@[i as int] as char));
            }
        }
    }
    match parse_pcap(bytes) {
        Ok(v) => Ok(CaptureInput::Frames(v)),
        Err(e) => Err(e),
    }
}

/// A frame that a microsecond pcap file can hold: its time is a whole number of
/// microseconds of a 32-bit number of seconds, and its length is a 32-bit number.
pub open spec fn pcap_exact(f: FrameModel) -> bool {
    &&& f.ts_ns as int / 1_000_000_000 < 0x1_0000_0000
    &&& f.ts_ns as int % 1_000 == 0
    &&& f.data.len() <= u32::MAX
}

proof fn lemma_file_prefix(frames: Seq<FrameModel>, k: int, n: int)
    requires
        0 <= k <= n <= frames.len(),
    ensures
        pcap_bytes(frames, n).len() >= pcap_bytes(frames, k).len() >= 24,
        pcap_bytes(frames, n).take(pcap_bytes(frames, k).len() as int) == pcap_bytes(frames, k),
    decreases n,
{
    if k == n {
        assert(pcap_bytes(frames, n).take(pcap_bytes(frames, n).len() as int) =~= pcap_bytes(
            frames,
            n,
        ));
        lemma_header();
        if n > 0 {
            lemma_file_prefix(frames, n - 1, n - 1);
        }
    } else {
        lemma_file_prefix(frames, k, n - 1);
        let a = pcap_bytes(frames, n - 1);
        let b = pcap_bytes(frames, n);
        let l = pcap_bytes(frames, k).len() as int;
        assert(b.take(l) =~= a.take(l));
    }
}

proof fn lemma_le32_shift(b: Seq<u8>, from: int, to: int, i: int)
    requires
        0 <= from,
        to <= b.len(),
        0 <= i,
        from + i + 4 <= to,
    ensures
        le32(b.subrange(from, to), i) == le32(b, from + i),
{
}

proof fn lemma_five(a: Seq<u8>, b: Seq<u8>, c: Seq<u8>, d: Seq<u8>, e: Seq<u8>)
    requires
        a.len() == 4,
        b.len() == 4,
        c.len() == 4,
        d.len() == 4,
    ensures
        (a + b + c + d + e).len() == 16 + e.len(),
        (a + b + c + d + e).subrange(0, 4) == a,
        (a + b + c + d + e).subrange(4, 8) == b,
        (a + b + c + d + e).subrange(8, 12) == c,
        forall|i: int| 0 <= i < e.len() ==> (a + b + c + d + e)[16 + i] == #[trigger] e[i],
{
    let r = a + b + c + d + e;
    assert(r.subrange(0, 4) =~= a);
    assert(r.subrange(4, 8) =~= b);
    assert(r.subrange(8, 12) =~= c);
}

proof fn lemma_time(ts: int)
    requires
        0 <= ts,
        ts % 1_000 == 0,
    ensures
        ts / 1_000_000_000 * 1_000_000_000 + ts % 1_000_000_000 / 1_000 * 1_000 == ts,
        ts % 1_000_000_000 / 1_000 < 1_000_000,
{
}

proof fn lemma_record_at(b: Seq<u8>, off: int, f: FrameModel)
    requires
        pcap_exact(f),
        0 <= off,
        off + record_bytes(f).len() <= b.len(),
        b.subrange(off, off + record_bytes(f).len()) == record_bytes(f),
    ensures
        record_bytes(f).len() == 16 + f.data.len(),
        le32(b, off + 8) == f.data.len(),
        b.subrange(off + 16, off + 16 + f.data.len()) == f.data,
        record_time(b, off, true, false) == f.ts_ns,
{
    let rec = record_bytes(f);
    let ts = f.ts_ns as int;
    let sec = ts / 1_000_000_000;
    let usec = ts % 1_000_000_000 / 1_000;
    let len = f.data.len() as int;
    lemma_time(ts);
    crate::bytes::law_le32_read_back(sec);
    crate::bytes::law_le32_read_back(usec);
    crate::bytes::law_le32_read_back(len);
    lemma_five(le32_bytes(sec), le32_bytes(usec), le32_bytes(len), le32_bytes(len), f.data);
    let to = off + rec.len();
    lemma_le32_shift(b, off, to, 0);
    lemma_le32_shift(b, off, to, 4);
    lemma_le32_shift(b, off, to, 8);
    lemma_le32_shift(rec, 0, 4, 0);
    lemma_le32_shift(rec, 4, 8, 0);
    lemma_le32_shift(rec, 8, 12, 0);
    let d = b.subrange(off + 16, off + 16 + len);
    assert forall|i: int| 0 <= i < len implies d[i] == f.data[i] by {
        assert(b.subrange(off, to)[16 + i] == rec[16 + i]);
        assert(rec[16 + i] == f.data[i]);
    }
    assert(d =~= f.data);
}

proof fn lemma_header()
    ensures
        file_header().len() == 24,
        be32(file_header(), 0) == 0xd4c3b2a1,
        le16(file_header(), 4) == 2,
        le32(file_header(), 20) == 1,
{
    let h = file_header();
    reveal(le32_bytes);
    assert(h =~= seq![
        0xd4u8,
        0xc3u8,
        0xb2u8,
        0xa1u8,
        2u8,
        0u8,
        4u8,
        0u8,
        0u8,
        0u8,
        0u8,
        0u8,
        0u8,
        0u8,
        0u8,
        0u8,
        0xffu8,
        0xffu8,
        0u8,
        0u8,
        1u8,
        0u8,
        0u8,
        0u8,
    ]);
}

proof fn lemma_records_read_back(frames: Seq<FrameModel>, k: int)
    requires
        0 <= k <= frames.len(),
        frames.len() <= u64::MAX,
        forall|i: int| 0 <= i < frames.len() ==> pcap_exact(#[trigger] frames[i]),
        forall|i: int| 0 <= i < frames.len() ==> (#[trigger] frames[i]).index == i,
    ensures
        records(
            pcap_bytes(frames, frames.len() as int),
            pcap_bytes(frames, k).len() as int,
            k,
            true,
            false,
        ) == Ok::<Seq<FrameModel>, Seq<char>>(frames.skip(k)),
    decreases frames.len() - k,
{
    let n = frames.len() as int;
    let b = pcap_bytes(frames, n);
    let off = pcap_bytes(frames, k).len() as int;
    if k == n {
        assert(frames.skip(k) =~= seq![]);
    } else {
        let f = frames[k];
        let rec = record_bytes(f);
        lemma_file_prefix(frames, k + 1, n);
        let p = pcap_bytes(frames, k + 1);
        assert(p =~= pcap_bytes(frames, k) + rec);
        assert(b.subrange(off, off + rec.len()) =~= rec) by {
            assert forall|i: int| 0 <= i < rec.len() implies b[off + i] == #[trigger] rec[i] by {
                assert(b.take(p.len() as int)[off + i] == p[off + i]);
            }
        }
        lemma_record_at(b, off, f);
        let len = f.data.len() as int;
        lemma_records_read_back(frames, k + 1);
        assert(p.len() == off + 16 + len);
        assert(frames.skip(k) =~= seq![f] + frames.skip(k + 1));
    }
}

/// Reading a written file gives the frames back, where they are numbered in
/// order and a microsecond file can hold them.
pub proof fn law_write_then_parse(frames: Seq<FrameModel>)
    requires
        frames.len() <= u64::MAX,
        forall|i: int| 0 <= i < frames.len() ==> pcap_exact(#[trigger] frames[i]),
        forall|i: int| 0 <= i < frames.len() ==> (#[trigger] frames[i]).index == i,
    ensures
        pcap_frames(pcap_bytes(frames, frames.len() as int)) == Ok::<Seq<FrameModel>, Seq<char>>(
            frames,
        ),
{
    let n = frames.len() as int;
    let b = pcap_bytes(frames, n);
    lemma_file_prefix(frames, 0, n);
    let h = file_header();
    lemma_header();
    assert(pcap_bytes(frames, 0) == h);
    assert(b.take(24) == h);
    assert(b[0] == h[0] && b[1] == h[1] && b[2] == h[2] && b[3] == h[3] && b[4] == h[4] && b[5] == h[5]);
    assert(b[20] == h[20] && b[21] == h[21] && b[22] == h[22] && b[23] == h[23]);
    lemma_records_read_back(frames, 0);
    assert(frames.skip(0) =~= frames);
}

/// Exporting frames as a fixture and reading it gives the frames back, where
/// they are numbered in order.
pub proof fn law_fixture_read_back(f: Fixture, frames: Seq<FrameModel>)
    requires
        f.format@ == FIXTURE_FORMAT@,
        f.frames@.len() == frames.len(),
        forall|i: int|
            0 <= i < frames.len() ==> (#[trigger] f.frames@[i]).ts_ns == frames[i].ts_ns
                && f.frames@[i].data@ == hex_of(frames[i].data),
        forall|i: int| 0 <= i < frames.len() ==> (#[trigger] frames[i]).index == i,
    ensures
        fixture_spec(f, Ok(frames)),
{
    assert forall|i: int|
        #![trigger frames[i]]
        0 <= i < frames.len() implies frames[i].index == i && frames[i].ts_ns == f.frames@[i].ts_ns
        && decode_spec(f.frames@[i].data@, "invalid hex char "@, Ok(frames[i].data)) by {
        crate::hex::law_decode_encode(frames[i].data);
        assert(f.frames@[i].ts_ns == frames[i].ts_ns);
    }
}

/// The frame that record `i` of a file stands for.
pub open spec fn packet_frame(p: Packet, i: int, nano: bool) -> FrameModel {
    FrameModel {
        index: i as u64,
        ts_ns: (p.sec * 1_000_000_000 + p.frac * (if nano {
            1int
        } else {
            1_000
        })) as u64,
        data: p.data,
    }
}

proof fn lemma_packets_read(b: Seq<u8>, ps: Seq<Packet>, nano: bool, big: bool, k: int)
    requires
        0 <= k <= ps.len(),
        forall|i: int| 0 <= i < ps.len() ==> (#[trigger] ps[i]).data.len() <= u32::MAX,
        b.len() == 24 + packet_bytes(ps, big, ps.len() as int).len(),
        b.skip(24) == packet_bytes(ps, big, ps.len() as int),
    ensures
        records(b, 24 + packet_bytes(ps, big, k).len() as int, k, !big, nano) == Ok::<
            Seq<FrameModel>,
            Seq<char>,
        >(Seq::new((ps.len() - k) as nat, |i: int| packet_frame(ps[k + i], k + i, nano))),
    decreases ps.len() - k,
{
    let n = ps.len() as int;
    let want = Seq::new((n - k) as nat, |i: int| packet_frame(ps[k + i], k + i, nano));
    if k < n {
        let a = packet_bytes(ps, big, k).len() as int;
        let e = packet_bytes(ps, big, k + 1).len() as int;
        lemma_packet_stands(ps, big, n, k);
        assert(b.subrange(24 + a, 24 + e) =~= b.skip(24).subrange(a, e));
        assert(ps[k].data.len() <= u32::MAX);
        lemma_packet_at(b, 24 + a, ps[k], nano, big);
        lemma_packets_read(b, ps, nano, big, k + 1);
        let rest = Seq::new(
            (n - k - 1) as nat,
            |i: int| packet_frame(ps[k + 1 + i], k + 1 + i, nano),
        );
        assert(want =~= seq![packet_frame(ps[k], k, nano)] + rest);
    } else {
        assert(want =~= seq![]);
    }
}

/// A pcap file reads as its records in either byte order and in either resolution.
pub proof fn law_pcap_reads_in_both_orders(ps: Seq<Packet>, nano: bool, rest: Seq<u8>, big: bool)
    requires
        rest.len() == 16,
        num16(rest, 0, !big) == 2,
        forall|i: int| 0 <= i < ps.len() ==> (#[trigger] ps[i]).data.len() <= u32::MAX,
    ensures
        pcap_frames(pcap_file(ps, 1, nano, rest, big)) == Ok::<Seq<FrameModel>, Seq<char>>(
            Seq::new(ps.len(), |i: int| packet_frame(ps[i], i, nano)),
        ),
{
    let b = pcap_file(ps, 1, nano, rest, big);
    reveal(le32_bytes);
    lemma_pcap_header(ps, 1, nano, rest, big, b.len() as int);
    assert(b.take(b.len() as int) =~= b);
    assert(b[4] == rest[0] && b[5] == rest[1]);
    lemma_packets_read(b, ps, nano, big, 0);
    assert(Seq::new((ps.len() - 0) as nat, |i: int| packet_frame(ps[0 + i], 0 + i, nano))
        =~= Seq::new(ps.len(), |i: int| packet_frame(ps[i], i, nano)));
}

} // verus!
