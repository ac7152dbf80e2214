//! TCP flags, parsed packets, and frames with the formats that captures come in.

use vstd::prelude::*;
use vstd::utf8::{decode_utf8, valid_utf8};
use crate::bytes::{be32, copy_range, le32, read_be32, read_le32};
use crate::capture::{
    lemma_packet_at, lemma_packet_stands, lemma_pcap_header, lemma_pcap_size, packet_bytes,
    pcap_file, Packet,
};
use crate::frame::{SegmentModel, TcpSegment};
use crate::hash::{sha256_hex, sha256_of};
use crate::json::{
    canonical, entry_at, hex_decode, hex_decoded, hex_encode, items_of, law_canonical_field,
    law_hex_read_back, law_parse_canonical, parsed, plain, written, Json, JsonModel, Step,
};
use crate::text::{cat_dec, dec, hex_of, push_dec, push_text, read_utf8, same};

verus! {

pub const FIN: u8 = 0x01;

pub const SYN: u8 = 0x02;

pub const RST: u8 = 0x04;

pub const PSH: u8 = 0x08;

pub const ACK: u8 = 0x10;

/// Whether a flag is set.
pub open spec fn flag(flags: u8, bit: u8) -> bool {
    flags & bit != 0
}

/// Whether a flag is set.
pub fn has_flag(flags: u8, bit: u8) -> (r: bool)
    ensures
        r == flag(flags, bit),
{
    flags & bit != 0
}

/// An IP packet: a whole datagram or one fragment.
#[derive(Debug, Clone)]
pub struct IpPacket {
    pub frame_idx: usize,
    pub ip_version: u8,
    pub src: String,
    pub dst: String,
    pub ip_id: u32,
    pub proto: u8,
    /// Offset of a fragment in bytes.
    pub frag_off: usize,
    /// Whether fragments follow.
    pub mf: bool,
    pub l4: Vec<u8>,
    /// The TCP segment, where the packet carries a readable one.
    pub tcp: Option<TcpSegment>,
}

/// What an IP packet is.
pub struct PacketModel {
    pub frame_idx: usize,
    pub ip_version: u8,
    pub src: Seq<char>,
    pub dst: Seq<char>,
    pub ip_id: u32,
    pub proto: u8,
    pub frag_off: int,
    pub mf: bool,
    pub l4: Seq<u8>,
    pub tcp: Option<SegmentModel>,
}

impl View for IpPacket {
    type V = PacketModel;

    open spec fn view(&self) -> PacketModel {
        PacketModel {
            frame_idx: self.frame_idx,
            ip_version: self.ip_version,
            src: self.src@,
            dst: self.dst@,
            ip_id: self.ip_id,
            proto: self.proto,
            frag_off: self.frag_off as int,
            mf: self.mf,
            l4: self.l4@,
            tcp: match self.tcp {
                Some(t) => Some(t@),
                None => None,
            },
        }
    }
}

/// The link layer of a frame.
#[derive(Debug, Clone, Copy, PartialEq, Eq, Structural)]
pub enum LinkType {
    Ethernet,
    RawIp,
}

impl LinkType {
    /// The name of a link layer.
    pub open spec fn text(self) -> Seq<char> {
        match self {
            LinkType::Ethernet => "eth"@,
            LinkType::RawIp => "raw"@,
        }
    }

    pub fn name(&self) -> (r: &'static str)
        ensures
            r@ == self.text(),
    {
        match self {
            LinkType::Ethernet => "eth",
            LinkType::RawIp => "raw",
        }
    }

    /// The link layer that a name stands for.
    pub open spec fn named(s: Seq<char>) -> Option<LinkType> {
        if s == "eth"@ || s == "ethernet"@ {
            Some(LinkType::Ethernet)
        } else if s == "raw"@ || s == "ip"@ {
            Some(LinkType::RawIp)
        } else {
            None
        }
    }

    pub fn from_name(s: &str) -> (r: Option<LinkType>)
        ensures
            r == Self::named(s@),
    {
        if same(s, "eth") || same(s, "ethernet") {
            Some(LinkType::Ethernet)
        } else if same(s, "raw") || same(s, "ip") {
            Some(LinkType::RawIp)
        } else {
            None
        }
    }
}

/// When a frame was captured.
#[derive(Debug)]
pub enum Stamp {
    /// Seconds, and millionths or, where `nano` is set, billionths of a second.
    Parts { sec: u32, frac: u32, nano: bool },
    /// The seconds as a number of a fixture.
    Seconds(Json),
}

/// When a frame was captured.
pub enum StampModel {
    Parts { sec: u32, frac: u32, nano: bool },
    Seconds(JsonModel),
}

impl View for Stamp {
    type V = StampModel;

    open spec fn view(&self) -> StampModel {
        match *self {
            Stamp::Parts { sec, frac, nano } => StampModel::Parts { sec, frac, nano },
            Stamp::Seconds(n) => StampModel::Seconds(n@),
        }
    }
}

/// A captured frame.
#[derive(Debug)]
pub struct Frame {
    /// The place in the capture, which decides between equal times.
    pub index: u64,
    pub ts: Stamp,
    pub link: LinkType,
    pub data: Vec<u8>,
    /// The content address of the bytes.
    pub hash: String,
}

/// What a captured frame is. The content address follows from the bytes.
pub struct FrameModel {
    pub index: int,
    pub ts: StampModel,
    pub link: LinkType,
    pub data: Seq<u8>,
    pub hash: Seq<char>,
}

impl View for Frame {
    type V = FrameModel;

    open spec fn view(&self) -> FrameModel {
        FrameModel {
            index: self.index as int,
            ts: self.ts@,
            link: self.link,
            data: self.data@,
            hash: self.hash@,
        }
    }
}

/// A frame with the content address of its bytes.
pub open spec fn framed(index: int, ts: StampModel, link: LinkType, data: Seq<u8>) -> FrameModel {
    FrameModel { index, ts, link, data, hash: hex_of(sha256_of(data)) }
}

impl Frame {
    pub fn new(index: u64, ts: Stamp, link: LinkType, data: Vec<u8>) -> (r: Frame)
        ensures
            r@ == framed(index as int, ts@, link, data@),
    {
        let hash = sha256_hex(data.as_slice());
        Frame { index, ts, link, data, hash }
    }
}

/// What frames are.
pub open spec fn frame_views(v: Seq<Frame>) -> Seq<FrameModel> {
    v.map_values(|f: Frame| f@)
}

/// Starts like a pcap file: the byte order is little-endian, and the times are in
/// nanoseconds.
pub open spec fn magic_spec(b: Seq<u8>) -> Option<(bool, bool)> {
    if b.len() < 4 {
        None
    } else if be32(b, 0) == 0xa1b2c3d4 {
        Some((false, false))
    } else if be32(b, 0) == 0xd4c3b2a1 {
        Some((true, false))
    } else if be32(b, 0) == 0xa1b23c4d {
        Some((false, true))
    } else if be32(b, 0) == 0x4d3cb2a1 {
        Some((true, true))
    } else {
        None
    }
}

fn magic(b: &[u8]) -> (r: Option<(bool, bool)>)
    ensures
        r == magic_spec(b@),
{
    if b.len() < 4 {
        return None;
    }
    let m: u32 = read_be32(b, 0);
    if m == 0xa1b2c3d4 {
        Some((false, false))
    } else if m == 0xd4c3b2a1 {
        Some((true, false))
    } else if m == 0xa1b23c4d {
        Some((false, true))
    } else if m == 0x4d3cb2a1 {
        Some((true, true))
    } else {
        None
    }
}

/// The number at `i` in the byte order of the file.
pub open spec fn word(b: Seq<u8>, i: int, le: bool) -> int {
    if le {
        le32(b, i)
    } else {
        be32(b, i)
    }
}

fn read_word(b: &[u8], i: usize, le: bool) -> (v: u32)
    requires
        i + 4 <= b@.len(),
    ensures
        v == word(b@, i as int, le),
{
    if le {
        read_le32(b, i)
    } else {
        read_be32(b, i)
    }
}

/// The frames of the records from `off` on, behind those read before. Bytes that are
/// left over are an error.
pub open spec fn records_from(
    b: Seq<u8>,
    off: int,
    le: bool,
    nano: bool,
    link: LinkType,
    acc: Seq<FrameModel>,
) -> Result<Seq<FrameModel>, Seq<char>>
    decreases b.len() - off,
{
    let incl = word(b, off + 8, le);
    if off < 0 || off + 16 > b.len() {
        if off == b.len() {
            Ok(acc)
        } else {
            Err("pcap: trailing garbage after last record"@)
        }
    } else if off + 16 + incl > b.len() {
        Err(
            "pcap: truncated record "@ + dec(acc.len()) + " (need "@ + dec(incl as nat)
                + " bytes)"@,
        )
    } else {
        records_from(
            b,
            off + 16 + incl,
            le,
            nano,
            link,
            acc.push(
                framed(
                    acc.len() as int,
                    StampModel::Parts {
                        sec: word(b, off, le) as u32,
                        frac: word(b, off + 4, le) as u32,
                        nano,
                    },
                    link,
                    b.subrange(off + 16, off + 16 + incl),
                ),
            ),
        )
    }
}

/// The link layer of a pcap link type, which is the low half of its field.
pub open spec fn pcap_link(field: int) -> Option<LinkType> {
    if field % 0x1_0000 == 1 {
        Some(LinkType::Ethernet)
    } else if field % 0x1_0000 == 101 || field % 0x1_0000 == 228 {
        Some(LinkType::RawIp)
    } else {
        None
    }
}

/// The frames of a pcap file.
pub open spec fn pcap_frames(b: Seq<u8>) -> Result<Seq<FrameModel>, Seq<char>> {
    if b.len() < 24 {
        Err("pcap: truncated global header"@)
    } else {
        match magic_spec(b) {
            None => Err("pcap: bad magic"@),
            Some((le, nano)) => match pcap_link(word(b, 20, le)) {
                None => Err(
                    "pcap: unsupported linktype "@ + dec((word(b, 20, le) % 0x1_0000) as nat),
                ),
                Some(link) => records_from(b, 24, le, nano, link, seq![]),
            },
        }
    }
}

fn truncated(index: usize, incl: u32) -> (r: String)
    ensures
        r@ == "pcap: truncated record "@ + dec(index as nat) + " (need "@ + dec(incl as nat)
            + " bytes)"@,
{
    let mut t = cat_dec("pcap: truncated record ", index as u64);
    push_text(&mut t, " (need ");
    push_dec(&mut t, incl as u64);
    push_text(&mut t, " bytes)");
    t
}

/// Reads a classic pcap file.
pub fn parse_pcap(data: &[u8]) -> (r: Result<Vec<Frame>, String>)
    ensures
        match r {
            Ok(v) => pcap_frames(data@) == Ok::<Seq<FrameModel>, Seq<char>>(frame_views(v@)),
            Err(e) => pcap_frames(data@) == Err::<Seq<FrameModel>, Seq<char>>(e@),
        },
{
    let len: usize = data.len();
    if len < 24 {
        return Err("pcap: truncated global header".to_string());
    }
    let (le, nano) = match magic(data) {
        Some(x) => x,
        None => {
            return Err("pcap: bad magic".to_string());
        },
    };
    let code: u32 = read_word(data, 20, le) % 0x1_0000;
    let link = if code == 1 {
        LinkType::Ethernet
    } else if code == 101 || code == 228 {
        LinkType::RawIp
    } else {
        return Err(cat_dec("pcap: unsupported linktype ", code as u64));
    };
    let mut frames: Vec<Frame> = Vec::new();
    let mut off: usize = 24;
    assert(frame_views(frames@) =~= seq![]);
    while len - off >= 16
        invariant
            24 <= off <= len,
            len == data@.len(),
            magic_spec(data@) == Some((le, nano)),
            pcap_link(word(data@, 20, le)) == Some(link),
            records_from(data@, off as int, le, nano, link, frame_views(frames@)) == records_from(
                data@,
                24,
                le,
                nano,
                link,
                seq![],
            ),
        decreases len - off,
    {
        let sec: u32 = read_word(data, off, le);
        let frac: u32 = read_word(data, off + 4, le);
        let incl: u32 = read_word(data, off + 8, le);
        let at: usize = off + 16;
        if ((len - at) as u64) < incl as u64 {
            return Err(truncated(frames.len(), incl));
        }
        let n: usize = incl as usize;
        let ghost before = frames@;
        let f = Frame::new(
            frames.len() as u64,
            Stamp::Parts { sec, frac, nano },
            link,
            copy_range(data, at, at + n),
        );
        let ghost fm = f@;
        frames.push(f);
        assert(frame_views(frames@) =~= frame_views(before).push(fm));
        off = at + n;
    }
    if off != len {
        return Err("pcap: trailing garbage after last record".to_string());
    }
    Ok(frames)
}

/// A frame number with words around it.
pub open spec fn about(i: int, what: Seq<char>) -> Seq<char> {
    "fixture: frame "@ + dec(i as nat) + what
}

/// The frame of an item of a fixture.
pub open spec fn item_frame(f: JsonModel, i: int) -> Result<FrameModel, Seq<char>> {
    let ts = f.field("ts"@);
    if !(ts matches Some(n) && (n is Num || n is Real)) {
        Err(about(i, " missing ts"@))
    } else {
        match f.str_field("link"@) {
            None => Err(about(i, " bad link"@)),
            Some(name) => match LinkType::named(name) {
                None => Err(about(i, " bad link"@)),
                Some(link) => match f.str_field("data"@) {
                    None => Err(about(i, " missing data"@)),
                    Some(t) => match hex_decoded(t) {
                        Err(e) => Err(about(i, " data: "@ + e)),
                        Ok(b) => Ok(framed(i, StampModel::Seconds(ts->0), link, b)),
                    },
                },
            },
        }
    }
}

/// The frames of the first `n` items.
pub open spec fn item_frames(v: Seq<JsonModel>, n: int) -> Result<Seq<FrameModel>, Seq<char>>
    decreases n,
{
    if n <= 0 {
        Ok(seq![])
    } else {
        match item_frames(v, n - 1) {
            Err(e) => Err(e),
            Ok(s) => match item_frame(v[n - 1], n - 1) {
                Err(e) => Err(e),
                Ok(x) => Ok(s.push(x)),
            },
        }
    }
}

/// The frames of a fixture.
pub open spec fn fixture_frames(v: JsonModel) -> Result<Seq<FrameModel>, Seq<char>> {
    match v.arr_field("frames"@) {
        None => Err("fixture: missing \"frames\" array"@),
        Some(items) => item_frames(items, items.len() as int),
    }
}

fn complain(i: usize, what: &str) -> (r: String)
    ensures
        r@ == about(i as int, what@),
{
    let mut t = cat_dec("fixture: frame ", i as u64);
    push_text(&mut t, what);
    t
}

fn read_item(f: &Json, i: usize) -> (r: Result<Frame, String>)
    ensures
        match r {
            Ok(x) => item_frame(f@, i as int) == Ok::<FrameModel, Seq<char>>(x@),
            Err(e) => item_frame(f@, i as int) == Err::<FrameModel, Seq<char>>(e@),
        },
{
    let ts = match f.get("ts") {
        Some(Json::Num(n)) => Json::Num(*n),
        Some(Json::Real(t)) => Json::Real(t.clone()),
        _ => {
            return Err(complain(i, " missing ts"));
        },
    };
    let link = match f.str_at("link") {
        Some(name) => match LinkType::from_name(name) {
            Some(l) => l,
            None => {
                return Err(complain(i, " bad link"));
            },
        },
        None => {
            return Err(complain(i, " bad link"));
        },
    };
    let data = match f.str_at("data") {
        Some(t) => t,
        None => {
            return Err(complain(i, " missing data"));
        },
    };
    match hex_decode(data) {
        Ok(b) => Ok(Frame::new(i as u64, Stamp::Seconds(ts), link, b)),
        Err(e) => {
            let mut t = complain(i, " data: ");
            push_text(&mut t, e.as_str());
            assert(t@ =~= about(i as int, " data: "@ + e@));
            Err(t)
        },
    }
}

proof fn lemma_items_fail(v: Seq<JsonModel>, i: int, n: int)
    requires
        item_frames(v, i) is Err,
        i <= n,
    ensures
        item_frames(v, n) == item_frames(v, i),
    decreases n - i,
{
    if i < n {
        lemma_items_fail(v, i, n - 1);
    }
}

/// Reads the frames of a fixture.
pub fn parse_fixture(v: &Json) -> (r: Result<Vec<Frame>, String>)
    ensures
        match r {
            Ok(f) => fixture_frames(v@) == Ok::<Seq<FrameModel>, Seq<char>>(frame_views(f@)),
            Err(e) => fixture_frames(v@) == Err::<Seq<FrameModel>, Seq<char>>(e@),
        },
{
    let items = match v.arr_at("frames") {
        Some(a) => a,
        None => {
            return Err("fixture: missing \"frames\" array".to_string());
        },
    };
    let ghost ms = items_of(items@);
    let mut out: Vec<Frame> = Vec::new();
    let mut i: usize = 0;
    assert(frame_views(out@) =~= seq![]);
    while i < items.len()
        invariant
            i <= items@.len(),
            ms == items_of(items@),
            v@.arr_field("frames"@) == Some(ms),
            item_frames(ms, i as int) == Ok::<Seq<FrameModel>, Seq<char>>(frame_views(out@)),
        decreases items@.len() - i,
    {
        assert(ms[i as int] == items@[i as int]@);
        match read_item(&items[i], i) {
            Ok(x) => {
                let ghost before = out@;
                let ghost xm = x@;
                out.push(x);
                assert(frame_views(out@) =~= frame_views(before).push(xm));
            },
            Err(e) => {
                proof {
                    lemma_items_fail(ms, i + 1, ms.len() as int);
                }
                return Err(e);
            },
        }
        i += 1;
    }
    Ok(out)
}

/// The frames of an input. Nothing comes of a JSON text that cannot be told.
pub open spec fn capture_frames(b: Seq<u8>) -> Option<Result<Seq<FrameModel>, Seq<char>>> {
    if magic_spec(b) is Some {
        Some(pcap_frames(b))
    } else if !valid_utf8(b) {
        Some(Err("input is neither pcap nor UTF-8 fixture JSON"@))
    } else {
        match parsed(decode_utf8(b)) {
            Step::Stuck => None,
            Step::Bad(e) => Some(Err(e)),
            Step::Got(m, _) => Some(fixture_frames(m)),
        }
    }
}

/// Reads a capture, whichever format it is in. Nothing comes back where the JSON
/// parser gives nothing.
pub fn parse_capture(input: &[u8]) -> (r: Option<Result<Vec<Frame>, String>>)
    ensures
        match r {
            Some(Ok(f)) => capture_frames(input@) == Some(
                Ok::<Seq<FrameModel>, Seq<char>>(frame_views(f@)),
            ),
            Some(Err(e)) => capture_frames(input@) == Some(Err::<Seq<FrameModel>, Seq<char>>(e@)),
            None => capture_frames(input@) is None,
        },
{
    if magic(input).is_some() {
        return Some(parse_pcap(input));
    }
    let text = match read_utf8(input) {
        Ok(t) => t,
        Err(_) => {
            return Some(Err("input is neither pcap nor UTF-8 fixture JSON".to_string()));
        },
    };
    match Json::try_parse(text.as_str()) {
        None => None,
        Some(Err(e)) => Some(Err(e)),
        Some(Ok(v)) => Some(parse_fixture(&v)),
    }
}

/// A frame of a fixture whose time is written as `ts`.
pub open spec fn frame_json(f: FrameModel, ts: JsonModel) -> JsonModel {
    JsonModel::Obj(
        seq![
            ("ts"@, ts),
            ("link"@, JsonModel::Str(f.link.text())),
            ("data"@, JsonModel::Str(hex_of(f.data))),
        ],
    )
}

/// The fixture of frames.
pub open spec fn fixture_json(fs: Seq<FrameModel>, times: Seq<JsonModel>) -> JsonModel {
    JsonModel::Obj(
        seq![
            ("format"@, JsonModel::Str("pairwise-fixture-v1"@)),
            ("frames"@, JsonModel::Arr(Seq::new(fs.len(), |i: int| frame_json(fs[i], times[i])))),
        ],
    )
}

/// The canonical fixture of frames, whose times are written as the given numbers of
/// seconds.
pub fn export_fixture(frames: &Vec<Frame>, times: &Vec<Json>) -> (r: String)
    requires
        frames@.len() == times@.len(),
    ensures
        r@ == written(fixture_json(frame_views(frames@), items_of(times@)), None),
{
    let ghost fs = frame_views(frames@);
    let ghost ts = items_of(times@);
    let mut arr: Vec<Json> = Vec::new();
    let mut i: usize = 0;
    assert(items_of(arr@) =~= Seq::new(0, |j: int| frame_json(fs[j], ts[j])));
    while i < frames.len()
        invariant
            i <= frames@.len(),
            frames@.len() == times@.len(),
            fs == frame_views(frames@),
            ts == items_of(times@),
            items_of(arr@) == Seq::new(i as nat, |j: int| frame_json(fs[j], ts[j])),
        decreases frames@.len() - i,
    {
        let ghost before = arr@;
        let f = &frames[i];
        assert(fs[i as int] == f@ && ts[i as int] == times@[i as int]@);
        let mut o = Json::obj();
        o.set("ts", times[i].copy());
        o.set("link", Json::Str(f.link.name().to_string()));
        o.set("data", Json::str(hex_encode(f.data.as_slice())));
        assert(o@->Obj_0 =~= frame_json(fs[i as int], ts[i as int])->Obj_0);
        let ghost om = o@;
        arr.push(o);
        i += 1;
        assert(items_of(arr@) =~= items_of(before).push(om));
        assert(items_of(arr@) =~= Seq::new(i as nat, |j: int| frame_json(fs[j], ts[j])));
    }
    let mut root = Json::obj();
    root.set("format", Json::Str("pairwise-fixture-v1".to_string()));
    root.set("frames", Json::arr(arr));
    assert(root@->Obj_0 =~= fixture_json(fs, ts)->Obj_0);
    root.to_canonical()
}

/// Frames as they come out of a fixture: numbered in order, with numbers as times.
pub open spec fn listed_frames(fs: Seq<FrameModel>, times: Seq<JsonModel>) -> bool {
    fs.len() == times.len() && forall|i: int|
        #![trigger fs[i]]
        0 <= i < fs.len() ==> {
            &&& fs[i] == framed(i, StampModel::Seconds(times[i]), fs[i].link, fs[i].data)
            &&& times[i] is Num || times[i] is Real
            &&& plain(times[i])
        }
}

proof fn lemma_frame_json(f: FrameModel, ts: JsonModel, i: int)
    requires
        f == framed(i, StampModel::Seconds(ts), f.link, f.data),
        ts is Num || ts is Real,
    ensures
        item_frame(canonical(frame_json(f, ts)), i) == Ok::<FrameModel, Seq<char>>(f),
{
    let j = frame_json(f, ts);
    reveal_strlit("ts");
    reveal_strlit("link");
    reveal_strlit("data");
    reveal_strlit("eth");
    reveal_strlit("raw");
    reveal_strlit("ethernet");
    reveal_strlit("ip");
    assert("ts"@.len() == 2 && "link"@.len() == 4 && "data"@.len() == 4);
    assert("link"@[0] == 'l' && "data"@[0] == 'd');
    assert("raw"@.len() == 3 && "ethernet"@.len() == 8 && "eth"@[0] == 'e' && "raw"@[0] == 'r');
    reveal_with_fuel(entry_at, 4);
    law_canonical_field(j, "ts"@);
    law_canonical_field(j, "link"@);
    law_canonical_field(j, "data"@);
    assert(j.field("ts"@) == Some(ts));
    assert(canonical(ts) == ts);
    law_hex_read_back(f.data);
}

proof fn lemma_frames_json(v: Seq<JsonModel>, fs: Seq<FrameModel>, times: Seq<JsonModel>, n: int)
    requires
        listed_frames(fs, times),
        v.len() == fs.len(),
        0 <= n <= fs.len(),
        forall|i: int|
            0 <= i < fs.len() ==> #[trigger] v[i] == canonical(frame_json(fs[i], times[i])),
    ensures
        item_frames(v, n) == Ok::<Seq<FrameModel>, Seq<char>>(fs.take(n)),
    decreases n,
{
    if n <= 0 {
        assert(fs.take(n) =~= seq![]);
    } else {
        lemma_frames_json(v, fs, times, n - 1);
        assert(fs[n - 1] == framed(
            n - 1,
            StampModel::Seconds(times[n - 1]),
            fs[n - 1].link,
            fs[n - 1].data,
        ));
        assert(v[n - 1] == canonical(frame_json(fs[n - 1], times[n - 1])));
        lemma_frame_json(fs[n - 1], times[n - 1], n - 1);
        assert(fs.take(n) =~= fs.take(n - 1).push(fs[n - 1]));
    }
}

proof fn lemma_fixture_plain(fs: Seq<FrameModel>, times: Seq<JsonModel>)
    requires
        listed_frames(fs, times),
    ensures
        plain(fixture_json(fs, times)),
{
    let root = fixture_json(fs, times);
    let items = Seq::new(fs.len(), |i: int| frame_json(fs[i], times[i]));
    assert forall|i: int| 0 <= i < items.len() implies plain(#[trigger] items[i]) by {
        assert(fs[i].link == fs[i].link);
        let o = frame_json(fs[i], times[i])->Obj_0;
        assert(plain(o[0].1) && plain(o[1].1) && plain(o[2].1));
        assert forall|k: int| 0 <= k < o.len() implies plain((#[trigger] o[k]).1) by {}
    }
    let o = root->Obj_0;
    assert(plain(o[0].1) && plain(o[1].1));
}

proof fn lemma_fixture_field(fs: Seq<FrameModel>, times: Seq<JsonModel>)
    ensures
        fixture_json(fs, times).field("frames"@) == Some(
            JsonModel::Arr(Seq::new(fs.len(), |i: int| frame_json(fs[i], times[i]))),
        ),
{
    reveal_strlit("format");
    reveal_strlit("frames");
    assert("format"@[1] == 'o' && "frames"@[1] == 'r');
    reveal_with_fuel(entry_at, 3);
}

/// Reading an exported fixture yields identical frames.
pub proof fn law_export_reads_back(fs: Seq<FrameModel>, times: Seq<JsonModel>)
    requires
        listed_frames(fs, times),
    ensures
        parsed(written(fixture_json(fs, times), None)) matches Step::Got(m, _)
            && fixture_frames(m) == Ok::<Seq<FrameModel>, Seq<char>>(fs),
{
    let root = fixture_json(fs, times);
    let items = Seq::new(fs.len(), |i: int| frame_json(fs[i], times[i]));
    let arr = JsonModel::Arr(items);
    lemma_fixture_plain(fs, times);
    law_parse_canonical(root);
    lemma_fixture_field(fs, times);
    law_canonical_field(root, "frames"@);
    let v = canonical(arr)->Arr_0;
    assert forall|i: int| 0 <= i < fs.len() implies #[trigger] v[i] == canonical(
        frame_json(fs[i], times[i]),
    ) by {
        assert(items[i] == frame_json(fs[i], times[i]));
    }
    lemma_frames_json(v, fs, times, fs.len() as int);
    assert(fs.take(fs.len() as int) =~= fs);
}

/// The frame that a record of a pcap file stands for.
pub open spec fn packet_frame(p: Packet, i: int, nano: bool, link: LinkType) -> FrameModel {
    FrameModel {
        index: i,
        ts: StampModel::Parts { sec: p.sec, frac: p.frac, nano },
        link,
        data: p.data,
        hash: hex_of(sha256_of(p.data)),
    }
}

/// The frames of the first `k` records.
pub open spec fn packet_frames(ps: Seq<Packet>, nano: bool, link: LinkType, k: int) -> Seq<FrameModel> {
    Seq::new(k as nat, |i: int| packet_frame(ps[i], i, nano, link))
}

proof fn lemma_records(b: Seq<u8>, ps: Seq<Packet>, nano: bool, big: bool, link: LinkType, k: int)
    requires
        0 <= k <= ps.len(),
        forall|i: int| 0 <= i < ps.len() ==> (#[trigger] ps[i]).data.len() <= u32::MAX,
        b.len() == 24 + packet_bytes(ps, big, ps.len() as int).len(),
        b.skip(24) == packet_bytes(ps, big, ps.len() as int),
    ensures
        records_from(
            b,
            24 + packet_bytes(ps, big, k).len() as int,
            !big,
            nano,
            link,
            packet_frames(ps, nano, link, k),
        ) == Ok::<Seq<FrameModel>, Seq<char>>(packet_frames(ps, nano, link, ps.len() as int)),
    decreases ps.len() - k,
{
    let n = ps.len() as int;
    if k < n {
        let a = packet_bytes(ps, big, k).len() as int;
        let e = packet_bytes(ps, big, k + 1).len() as int;
        lemma_packet_stands(ps, big, n, k);
        assert(b.subrange(24 + a, 24 + e) =~= b.skip(24).subrange(a, e));
        assert(ps[k].data.len() <= u32::MAX);
        lemma_packet_at(b, 24 + a, ps[k], nano, big);
        assert(packet_frames(ps, nano, link, k).push(packet_frame(ps[k], k, nano, link))
            =~= packet_frames(ps, nano, link, k + 1));
        lemma_records(b, ps, nano, big, link, k + 1);
    }
}

/// A pcap file reads as its records, in either byte order: one frame for each record, in
/// the order of the file, with its time as it stands there.
pub proof fn law_pcap_reads_in_both_orders(
    ps: Seq<Packet>,
    link: u32,
    nano: bool,
    rest: Seq<u8>,
    big: bool,
)
    requires
        rest.len() == 16,
        link == 1 || link == 101,
        forall|i: int| 0 <= i < ps.len() ==> (#[trigger] ps[i]).data.len() <= u32::MAX,
    ensures
        pcap_frames(pcap_file(ps, link, nano, rest, big)) == Ok::<Seq<FrameModel>, Seq<char>>(
            packet_frames(
                ps,
                nano,
                if link == 1 {
                    LinkType::Ethernet
                } else {
                    LinkType::RawIp
                },
                ps.len() as int,
            ),
        ),
{
    let b = pcap_file(ps, link, nano, rest, big);
    lemma_pcap_size(ps, link, nano, rest, big);
    lemma_pcap_header(ps, link, nano, rest, big, b.len() as int);
    assert(b.take(b.len() as int) =~= b);
    let kind = if link == 1 {
        LinkType::Ethernet
    } else {
        LinkType::RawIp
    };
    lemma_records(b, ps, nano, big, kind, 0);
    assert(packet_frames(ps, nano, kind, 0) =~= seq![]);
}

} // verus!
