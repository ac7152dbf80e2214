//! Captures from classic pcap files and from JSON fixtures.

use vstd::prelude::*;
use vstd::utf8::{
    decode_utf8, encode_utf8, encode_utf8_decode_utf8, encode_utf8_valid_utf8,
    leading_byte_width_1, valid_utf8,
};
use crate::builder::{fixture_json, frame_json, BuilderModel};
use crate::bytes::{
    be32, be32_bytes, copy_range, law_be32_read_back, law_le32_read_back, le32, le32_bytes,
    read_be32, read_le32,
};
use crate::json::{
    canonical, entry_at, hex_decode, hex_decoded, items_of, key_order, key_placed,
    law_hex_read_back, law_parse_canonical, parsed, plain, written, Json, JsonModel, Step,
};
use crate::text::{cat_dec, dec, hex_of, push_text, read_utf8, text_le};
use crate::types::LinkKind;
use crate::workbench::link_code;

verus! {

pub struct Capture {
    pub link: LinkKind,
    pub frames: Vec<Vec<u8>>,
    pub ts_us: Vec<i128>,
    pub orig_len: Vec<usize>,
    pub kind: String,
}

/// A frame of a capture: its bytes, its time in microseconds and its length on the
/// wire.
pub struct Shot {
    pub bytes: Seq<u8>,
    pub ts_us: int,
    pub orig_len: int,
}

/// What a capture is.
pub struct CaptureModel {
    pub link: LinkKind,
    pub shots: Seq<Shot>,
    pub kind: Seq<char>,
}

impl Capture {
    /// The three lists go together.
    pub open spec fn wf(self) -> bool {
        self.frames@.len() == self.ts_us@.len() && self.frames@.len() == self.orig_len@.len()
    }
}

/// The frames of three lists.
pub open spec fn shots(frames: Seq<Vec<u8>>, ts_us: Seq<i128>, orig_len: Seq<usize>) -> Seq<Shot> {
    Seq::new(
        frames.len(),
        |i: int|
            Shot { bytes: frames[i]@, ts_us: ts_us[i] as int, orig_len: orig_len[i] as int },
    )
}

impl View for Capture {
    type V = CaptureModel;

    open spec fn view(&self) -> CaptureModel {
        CaptureModel {
            link: self.link,
            shots: shots(self.frames@, self.ts_us@, self.orig_len@),
            kind: self.kind@,
        }
    }
}

impl Capture {
    pub fn len(&self) -> (r: usize)
        ensures
            r == self@.shots.len(),
    {
        self.frames.len()
    }
}

/// The link layer of a link type number.
pub open spec fn link_spec(code: int) -> Option<LinkKind> {
    if code == 1 {
        Some(LinkKind::Ethernet)
    } else if code == 113 {
        Some(LinkKind::LinuxSll)
    } else if code == 228 {
        Some(LinkKind::Ipv4Raw)
    } else if code == 31 {
        Some(LinkKind::Ipv6Raw)
    } else {
        None
    }
}

/// The link layer of a link type number.
pub fn link_of(code: u32) -> (r: Option<LinkKind>)
    ensures
        r == link_spec(code as int),
{
    if code == 1 {
        Some(LinkKind::Ethernet)
    } else if code == 113 {
        Some(LinkKind::LinuxSll)
    } else if code == 228 {
        Some(LinkKind::Ipv4Raw)
    } else if code == 31 {
        Some(LinkKind::Ipv6Raw)
    } else {
        None
    }
}

/// Starts like a pcap file: the byte order is swapped, and the times are in
/// nanoseconds.
pub open spec fn magic_spec(b: Seq<u8>) -> Option<(bool, bool)> {
    if b.len() < 4 {
        None
    } else if le32(b, 0) == 0xa1b2c3d4 {
        Some((false, false))
    } else if le32(b, 0) == 0xa1b23c4d {
        Some((false, true))
    } else if le32(b, 0) == 0xd4c3b2a1 {
        Some((true, false))
    } else if le32(b, 0) == 0x4d3cb2a1 {
        Some((true, true))
    } else {
        None
    }
}

fn magic(b: &[u8]) -> (r: Option<(bool, bool)>)
    ensures
        r == magic_spec(b@),
{
    if b.len() < 4 {
        return None;
    }
    let m: u32 = read_le32(b, 0);
    if m == 0xa1b2c3d4 {
        Some((false, false))
    } else if m == 0xa1b23c4d {
        Some((false, true))
    } else if m == 0xd4c3b2a1 {
        Some((true, false))
    } else if m == 0x4d3cb2a1 {
        Some((true, true))
    } else {
        None
    }
}

/// The number at `i` in the byte order of the file.
pub open spec fn word(b: Seq<u8>, i: int, swap: bool) -> int {
    if swap {
        be32(b, i)
    } else {
        le32(b, i)
    }
}

fn read_word(b: &[u8], i: usize, swap: bool) -> (v: u32)
    requires
        i + 4 <= b@.len(),
    ensures
        v == word(b@, i as int, swap),
{
    if swap {
        read_be32(b, i)
    } else {
        read_le32(b, i)
    }
}

pub open spec fn max(a: int, b: int) -> int {
    if a >= b {
        a
    } else {
        b
    }
}

/// The record at `off`, which holds `incl` bytes.
pub open spec fn record(b: Seq<u8>, off: int, swap: bool, nano: bool) -> Shot {
    let incl = word(b, off + 8, swap);
    let frac = word(b, off + 4, swap);
    Shot {
        bytes: b.subrange(off + 16, off + 16 + incl),
        ts_us: word(b, off, swap) * 1_000_000 + (if nano {
            frac / 1000
        } else {
            frac
        }),
        orig_len: max(word(b, off + 12, swap), incl),
    }
}

/// The frames of the records from `off` on, behind those read before. A rest that is
/// shorter than a record header is left alone.
pub open spec fn records_from(b: Seq<u8>, off: int, swap: bool, nano: bool, acc: Seq<Shot>) -> Result<
    Seq<Shot>,
    Seq<char>,
>
    decreases b.len() - off,
{
    let incl = word(b, off + 8, swap);
    if off < 0 || off + 16 > b.len() {
        Ok(acc)
    } else if off + 16 + incl > b.len() {
        Err("truncated pcap record"@)
    } else {
        records_from(b, off + 16 + incl, swap, nano, acc.push(record(b, off, swap, nano)))
    }
}

/// What a file with a pcap header holds.
pub open spec fn pcap_loaded(b: Seq<u8>, swap: bool, nano: bool) -> Result<
    CaptureModel,
    Seq<char>,
> {
    if b.len() < 24 {
        Err("pcap too short"@)
    } else {
        match link_spec(word(b, 20, swap)) {
            None => Err("unsupported linktype "@ + dec(word(b, 20, swap) as nat)),
            Some(link) => match records_from(b, 24, swap, nano, seq![]) {
                Err(e) => Err(e),
                Ok(s) => Ok(CaptureModel { link, shots: s, kind: "pcap"@ }),
            },
        }
    }
}

proof fn lemma_pushed(
    frames: Seq<Vec<u8>>,
    ts_us: Seq<i128>,
    orig_len: Seq<usize>,
    f: Vec<u8>,
    t: i128,
    n: usize,
)
    requires
        frames.len() == ts_us.len(),
        frames.len() == orig_len.len(),
    ensures
        shots(frames.push(f), ts_us.push(t), orig_len.push(n)) == shots(
            frames,
            ts_us,
            orig_len,
        ).push(Shot { bytes: f@, ts_us: t as int, orig_len: n as int }),
{
    assert(shots(frames.push(f), ts_us.push(t), orig_len.push(n)) =~= shots(
        frames,
        ts_us,
        orig_len,
    ).push(Shot { bytes: f@, ts_us: t as int, orig_len: n as int }));
}

fn parse_pcap(data: &[u8], swap: bool, nano: bool) -> (r: Result<Capture, String>)
    ensures
        match r {
            Ok(c) => c.wf() && pcap_loaded(data@, swap, nano) == Ok::<CaptureModel, Seq<char>>(c@),
            Err(e) => pcap_loaded(data@, swap, nano) == Err::<CaptureModel, Seq<char>>(e@),
        },
{
    let len: usize = data.len();
    if len < 24 {
        return Err("pcap too short".to_string());
    }
    let code: u32 = read_word(data, 20, swap);
    let link = match link_of(code) {
        Some(l) => l,
        None => {
            return Err(cat_dec("unsupported linktype ", code as u64));
        },
    };
    let mut frames: Vec<Vec<u8>> = Vec::new();
    let mut ts_us: Vec<i128> = Vec::new();
    let mut orig_len: Vec<usize> = Vec::new();
    let mut off: usize = 24;
    assert(shots(frames@, ts_us@, orig_len@) =~= seq![]);
    while len - off >= 16
        invariant
            24 <= off <= len,
            len == data@.len(),
            frames@.len() == ts_us@.len(),
            frames@.len() == orig_len@.len(),
            records_from(
                data@,
                off as int,
                swap,
                nano,
                shots(frames@, ts_us@, orig_len@),
            ) == records_from(data@, 24, swap, nano, seq![]),
            link_spec(word(data@, 20, swap)) == Some(link),
        decreases len - off,
    {
        let sec: u32 = read_word(data, off, swap);
        let frac: u32 = read_word(data, off + 4, swap);
        let incl: u32 = read_word(data, off + 8, swap);
        let orig: u32 = read_word(data, off + 12, swap);
        let at: usize = off + 16;
        if ((len - at) as u64) < incl as u64 {
            return Err("truncated pcap record".to_string());
        }
        let n: usize = incl as usize;
        let part: i128 = if nano {
            (frac / 1000) as i128
        } else {
            frac as i128
        };
        let ts: i128 = sec as i128 * 1_000_000 + part;
        let whole: usize = if orig >= incl {
            orig as usize
        } else {
            n
        };
        let f = copy_range(data, at, at + n);
        proof {
            lemma_pushed(frames@, ts_us@, orig_len@, f, ts, whole);
            assert(f@ == data@.subrange(at as int, at + n));
        }
        frames.push(f);
        ts_us.push(ts);
        orig_len.push(whole);
        off = at + n;
    }
    Ok(Capture { link, frames, ts_us, orig_len, kind: "pcap".to_string() })
}

/// The first value that one of two keys has.
pub open spec fn either(f: JsonModel, a: Seq<char>, b: Seq<char>) -> Option<JsonModel> {
    match f.field(a) {
        Some(v) => Some(v),
        None => f.field(b),
    }
}

/// A frame number with words around it.
pub open spec fn about(i: int, what: Seq<char>) -> Seq<char> {
    "frame "@ + dec(i as nat) + what
}

/// The frame of an item of a fixture.
pub open spec fn item_loaded(f: JsonModel, i: int) -> Result<Shot, Seq<char>> {
    match either(f, "data"@, "hex"@) {
        Some(JsonModel::Str(t)) => match hex_decoded(t) {
            Err(_) => Err(about(i, " bad hex"@)),
            Ok(bytes) => Ok(
                Shot {
                    bytes,
                    ts_us: match either(f, "ts_us"@, "ts"@) {
                        Some(JsonModel::Num(n)) => n,
                        _ => i,
                    },
                    orig_len: match f.u64_field("orig_len"@) {
                        Some(n) => max(n as u64 as usize as int, bytes.len() as int),
                        None => bytes.len() as int,
                    },
                },
            ),
        },
        _ => Err(about(i, " missing data"@)),
    }
}

/// The frames of the first `n` items.
pub open spec fn items_loaded(v: Seq<JsonModel>, n: int) -> Result<Seq<Shot>, Seq<char>>
    decreases n,
{
    if n <= 0 {
        Ok(seq![])
    } else {
        match items_loaded(v, n - 1) {
            Err(e) => Err(e),
            Ok(s) => match item_loaded(v[n - 1], n - 1) {
                Err(e) => Err(e),
                Ok(x) => Ok(s.push(x)),
            },
        }
    }
}

/// What a JSON fixture holds.
pub open spec fn fixture_loaded(v: JsonModel) -> Result<CaptureModel, Seq<char>> {
    let code = match v.u64_field("linktype"@) {
        Some(n) => n,
        None => 1,
    };
    match link_spec(code as u64 as u32 as int) {
        None => Err("unsupported linktype "@ + dec(code as nat)),
        Some(link) => match v.arr_field("frames"@) {
            None => Err("fixture needs a frames array"@),
            Some(items) => match items_loaded(items, items.len() as int) {
                Err(e) => Err(e),
                Ok(s) => Ok(CaptureModel { link, shots: s, kind: "fixture"@ }),
            },
        },
    }
}

fn complain(i: usize, what: &str) -> (r: String)
    ensures
        r@ == about(i as int, what@),
{
    let mut t = cat_dec("frame ", i as u64);
    push_text(&mut t, what);
    t
}

fn either_of<'a>(f: &'a Json, a: &str, b: &str) -> (r: Option<&'a Json>)
    ensures
        match r {
            Some(v) => either(f@, a@, b@) == Some(v@),
            None => either(f@, a@, b@) is None,
        },
{
    match f.get(a) {
        Some(v) => Some(v),
        None => f.get(b),
    }
}

fn load_item(f: &Json, i: usize) -> (r: Result<(Vec<u8>, i128, usize), String>)
    ensures
        match r {
            Ok((b, t, n)) => item_loaded(f@, i as int) == Ok::<Shot, Seq<char>>(
                (Shot { bytes: b@, ts_us: t as int, orig_len: n as int }),
            ),
            Err(e) => item_loaded(f@, i as int) == Err::<Shot, Seq<char>>(e@),
        },
{
    let hex = match either_of(f, "data", "hex") {
        Some(v) => match v.as_str() {
            Some(t) => t,
            None => {
                return Err(complain(i, " missing data"));
            },
        },
        None => {
            return Err(complain(i, " missing data"));
        },
    };
    let bytes = match hex_decode(hex) {
        Ok(b) => b,
        Err(_) => {
            return Err(complain(i, " bad hex"));
        },
    };
    let ts: i128 = match either_of(f, "ts_us", "ts") {
        Some(v) => match v.as_num() {
            Some(n) => n,
            None => i as i128,
        },
        None => i as i128,
    };
    let len: usize = bytes.len();
    let orig: usize = match f.u64_at("orig_len") {
        Some(n) => n as usize,
        None => len,
    };
    Ok(
        (
            bytes,
            ts,
            if orig >= len {
                orig
            } else {
                len
            },
        ),
    )
}

proof fn lemma_items_fail(v: Seq<JsonModel>, i: int, n: int)
    requires
        items_loaded(v, i) is Err,
        i <= n,
    ensures
        items_loaded(v, n) == items_loaded(v, i),
    decreases n - i,
{
    if i < n {
        lemma_items_fail(v, i, n - 1);
    }
}

fn parse_fixture(v: &Json) -> (r: Result<Capture, String>)
    ensures
        match r {
            Ok(c) => c.wf() && fixture_loaded(v@) == Ok::<CaptureModel, Seq<char>>(c@),
            Err(e) => fixture_loaded(v@) == Err::<CaptureModel, Seq<char>>(e@),
        },
{
    let code: u64 = match v.u64_at("linktype") {
        Some(n) => n,
        None => 1,
    };
    let link = match link_of(code as u32) {
        Some(l) => l,
        None => {
            return Err(cat_dec("unsupported linktype ", code));
        },
    };
    let items = match v.arr_at("frames") {
        Some(a) => a,
        None => {
            return Err("fixture needs a frames array".to_string());
        },
    };
    let ghost ms = items_of(items@);
    let mut frames: Vec<Vec<u8>> = Vec::new();
    let mut ts_us: Vec<i128> = Vec::new();
    let mut orig_len: Vec<usize> = Vec::new();
    let mut i: usize = 0;
    assert(shots(frames@, ts_us@, orig_len@) =~= seq![]);
    while i < items.len()
        invariant
            i <= items@.len(),
            ms == items_of(items@),
            v@.arr_field("frames"@) == Some(ms),
            frames@.len() == ts_us@.len(),
            frames@.len() == orig_len@.len(),
            items_loaded(ms, i as int) == Ok::<Seq<Shot>, Seq<char>>(
                shots(frames@, ts_us@, orig_len@),
            ),
            code == (match v@.u64_field("linktype"@) {
                Some(n) => n,
                None => 1,
            }),
            link_spec(code as u32 as int) == Some(link),
        decreases items@.len() - i,
    {
        assert(ms[i as int] == items@[i as int]@);
        match load_item(&items[i], i) {
            Ok((b, t, n)) => {
                proof {
                    lemma_pushed(frames@, ts_us@, orig_len@, b, t, n);
                }
                frames.push(b);
                ts_us.push(t);
                orig_len.push(n);
            },
            Err(e) => {
                proof {
                    lemma_items_fail(ms, i + 1, ms.len() as int);
                }
                return Err(e);
            },
        }
        i += 1;
    }
    Ok(Capture { link, frames, ts_us, orig_len, kind: "fixture".to_string() })
}

/// What an input holds. Nothing comes of a JSON text that cannot be told.
pub open spec fn loaded(b: Seq<u8>) -> Option<Result<CaptureModel, Seq<char>>> {
    match magic_spec(b) {
        Some((swap, nano)) => Some(pcap_loaded(b, swap, nano)),
        None => if !valid_utf8(b) {
            Some(Err("input is neither pcap nor UTF-8 JSON"@))
        } else {
            match parsed(decode_utf8(b)) {
                Step::Stuck => None,
                Step::Bad(e) => Some(Err(e)),
                Step::Got(m, _) => Some(fixture_loaded(m)),
            }
        },
    }
}

/// Reads a capture, whichever format it is in. Nothing comes back where the JSON
/// parser gives nothing.
pub fn try_load(data: &[u8]) -> (r: Option<Result<Capture, String>>)
    ensures
        match r {
            Some(Ok(c)) => c.wf() && loaded(data@) == Some(Ok::<CaptureModel, Seq<char>>(c@)),
            Some(Err(e)) => loaded(data@) == Some(Err::<CaptureModel, Seq<char>>(e@)),
            None => loaded(data@) is None,
        },
{
    if let Some((swap, nano)) = magic(data) {
        return Some(parse_pcap(data, swap, nano));
    }
    let text = match read_utf8(data) {
        Ok(t) => t,
        Err(_) => {
            return Some(Err("input is neither pcap nor UTF-8 JSON".to_string()));
        },
    };
    match Json::try_parse(text.as_str()) {
        None => None,
        Some(Err(e)) => Some(Err(e)),
        Some(Ok(v)) => Some(parse_fixture(&v)),
    }
}

/// Reads a capture, whichever format it is in.
pub fn load(data: &[u8]) -> (r: Result<Capture, String>)
    requires
        loaded(data@) is Some,
    ensures
        match r {
            Ok(c) => c.wf() && loaded(data@) == Some(Ok::<CaptureModel, Seq<char>>(c@)),
            Err(e) => loaded(data@) == Some(Err::<CaptureModel, Seq<char>>(e@)),
        },
{
    match try_load(data) {
        Some(r) => r,
        None => Err(String::new()),
    }
}

proof fn lemma_two_entries(a: Seq<char>, x: JsonModel, b: Seq<char>, y: JsonModel)
    requires
        !text_le(a, b),
    ensures
        canonical(JsonModel::Obj(seq![(a, x), (b, y)])) == JsonModel::Obj(
            seq![(b, canonical(y)), (a, canonical(x))],
        ),
{
    let o = seq![(a, x), (b, y)];
    assert(key_order(o, 0) =~= seq![]);
    assert(key_order(o, 1) =~= seq![0int]) by {
        assert(key_placed(seq![], o, 0) =~= seq![0int]);
    }
    assert(key_order(o, 2) =~= seq![1int, 0int]) by {
        let first = seq![0int];
        assert(first.drop_last() =~= seq![]);
        assert(key_placed(first.drop_last(), o, 1) =~= seq![1int]);
        assert(key_placed(first, o, 1) =~= seq![1int, 0int]);
    }
    assert(canonical(JsonModel::Obj(o))->Obj_0 =~= seq![(b, canonical(y)), (a, canonical(x))]);
}

proof fn lemma_two_fields(a: Seq<char>, x: JsonModel, b: Seq<char>, y: JsonModel, key: Seq<char>)
    ensures
        JsonModel::Obj(seq![(a, x), (b, y)]).field(key) == (if key == a {
            Some(x)
        } else if key == b {
            Some(y)
        } else {
            None
        }),
{
    let o = seq![(a, x), (b, y)];
    assert(entry_at(o, key, 2) is None);
    assert(entry_at(o, key, 1) == (if key == b {
        Some(1int)
    } else {
        None
    }));
}

/// What the fixture of a builder loads as.
pub open spec fn reloaded(m: BuilderModel) -> CaptureModel {
    CaptureModel {
        link: link_spec(m.linktype as int)->0,
        shots: m.frames.map_values(
            |f: (int, Seq<u8>)| Shot { bytes: f.1, ts_us: f.0, orig_len: f.1.len() as int },
        ),
        kind: "fixture"@,
    }
}

proof fn lemma_frame_reloads(f: (int, Seq<u8>), i: int)
    ensures
        item_loaded(canonical(frame_json(f)), i) == Ok::<Shot, Seq<char>>(
            (Shot { bytes: f.1, ts_us: f.0, orig_len: f.1.len() as int }),
        ),
{
    let data = JsonModel::Str(hex_of(f.1));
    let ts = JsonModel::Num(f.0);
    reveal_strlit("ts_us");
    reveal_strlit("data");
    reveal_strlit("orig_len");
    assert("ts_us"@[0] == 't' && "data"@[0] == 'd');
    assert(!text_le("ts_us"@, "data"@));
    lemma_two_entries("ts_us"@, ts, "data"@, data);
    let c = canonical(frame_json(f));
    assert(c == JsonModel::Obj(seq![("data"@, data), ("ts_us"@, ts)]));
    lemma_two_fields("data"@, data, "ts_us"@, ts, "data"@);
    lemma_two_fields("data"@, data, "ts_us"@, ts, "ts_us"@);
    lemma_two_fields("data"@, data, "ts_us"@, ts, "orig_len"@);
    assert("orig_len"@.len() == 8 && "data"@.len() == 4 && "ts_us"@.len() == 5);
    law_hex_read_back(f.1);
}

proof fn lemma_frames_reload(v: Seq<JsonModel>, fs: Seq<(int, Seq<u8>)>, n: int)
    requires
        v.len() == fs.len(),
        0 <= n <= fs.len(),
        forall|i: int| 0 <= i < fs.len() ==> v[i] == canonical(frame_json(#[trigger] fs[i])),
    ensures
        items_loaded(v, n) == Ok::<Seq<Shot>, Seq<char>>(
            fs.take(n).map_values(
                |f: (int, Seq<u8>)| Shot { bytes: f.1, ts_us: f.0, orig_len: f.1.len() as int },
            ),
        ),
    decreases n,
{
    let g = |f: (int, Seq<u8>)| Shot { bytes: f.1, ts_us: f.0, orig_len: f.1.len() as int };
    if n <= 0 {
        assert(fs.take(n).map_values(g) =~= seq![]);
    } else {
        lemma_frames_reload(v, fs, n - 1);
        lemma_frame_reloads(fs[n - 1], n - 1);
        assert(fs.take(n).map_values(g) =~= fs.take(n - 1).map_values(g).push(g(fs[n - 1])));
    }
}

proof fn lemma_plain_fixture(m: BuilderModel)
    requires
        forall|i: int|
            0 <= i < m.frames.len() ==> i128::MIN <= (#[trigger] m.frames[i]).0 <= i128::MAX,
    ensures
        plain(fixture_json(m)),
{
    let items = m.frames.map_values(|f: (int, Seq<u8>)| frame_json(f));
    assert forall|i: int| 0 <= i < items.len() implies plain(#[trigger] items[i]) by {
        let f = m.frames[i];
        let o = frame_json(f)->Obj_0;
        assert(plain(o[0].1) && plain(o[1].1));
    }
    let o = fixture_json(m)->Obj_0;
    assert(plain(o[0].1) && plain(o[1].1));
}

proof fn lemma_fixture_value(m: BuilderModel)
    requires
        link_spec(m.linktype as int) is Some,
    ensures
        fixture_loaded(canonical(fixture_json(m))) == Ok::<CaptureModel, Seq<char>>(reloaded(m)),
{
    let items = m.frames.map_values(|f: (int, Seq<u8>)| frame_json(f));
    let arr = JsonModel::Arr(items);
    let num = JsonModel::Num(m.linktype as int);
    reveal_strlit("linktype");
    reveal_strlit("frames");
    assert("linktype"@[0] == 'l' && "frames"@[0] == 'f');
    assert(!text_le("linktype"@, "frames"@));
    lemma_two_entries("linktype"@, num, "frames"@, arr);
    let c = canonical(fixture_json(m));
    assert(c == JsonModel::Obj(seq![("frames"@, canonical(arr)), ("linktype"@, num)]));
    lemma_two_fields("frames"@, canonical(arr), "linktype"@, num, "frames"@);
    lemma_two_fields("frames"@, canonical(arr), "linktype"@, num, "linktype"@);
    let v = canonical(arr)->Arr_0;
    assert forall|i: int| 0 <= i < m.frames.len() implies v[i] == canonical(
        frame_json(#[trigger] m.frames[i]),
    ) by {
        assert(items[i] == frame_json(m.frames[i]));
    }
    lemma_frames_reload(v, m.frames, m.frames.len() as int);
    assert(m.frames.take(m.frames.len() as int) =~= m.frames);
    assert(m.linktype as int as u64 as u32 == m.linktype);
}

proof fn lemma_no_magic(text: Seq<char>)
    requires
        text.len() > 0,
        text[0] == '{',
    ensures
        magic_spec(encode_utf8(text)) is None,
{
    let b = encode_utf8(text);
    assert(b[0] == 0x7b) by {
        assert((0x7bu32 & 0x7F) as u8 == 0x7b) by (bit_vector);
        assert(leading_byte_width_1('{' as u32) == 0x7b);
    }
    assert(le32(b, 0) % 256 == 0x7b);
}

/// The text of a builder's fixture loads back as the builder's frames, with their
/// times and their order.
pub proof fn law_fixture_loads_back(m: BuilderModel)
    requires
        link_spec(m.linktype as int) is Some,
        forall|i: int|
            0 <= i < m.frames.len() ==> i128::MIN <= (#[trigger] m.frames[i]).0 <= i128::MAX,
    ensures
        loaded(encode_utf8(written(fixture_json(m), None))) == Some(
            Ok::<CaptureModel, Seq<char>>(reloaded(m)),
        ),
{
    let text = written(fixture_json(m), None);
    lemma_plain_fixture(m);
    law_parse_canonical(fixture_json(m));
    lemma_fixture_value(m);
    encode_utf8_valid_utf8(text);
    encode_utf8_decode_utf8(text);
    assert(text[0] == '{');
    lemma_no_magic(text);
}

/// A record of a pcap file: its time in seconds and a fraction, its length on the wire,
/// and its bytes.
pub struct Packet {
    pub sec: u32,
    pub frac: u32,
    pub orig: u32,
    pub data: Seq<u8>,
}

/// The four bytes of a number, big-endian or little-endian.
pub open spec fn word_bytes(v: int, big: bool) -> Seq<u8> {
    if big {
        be32_bytes(v)
    } else {
        le32_bytes(v)
    }
}

impl Packet {
    /// The record in a file.
    pub open spec fn bytes(self, big: bool) -> Seq<u8> {
        word_bytes(self.sec as int, big) + word_bytes(self.frac as int, big) + word_bytes(
            self.data.len() as int,
            big,
        ) + word_bytes(self.orig as int, big) + self.data
    }

    /// The frame that the record stands for.
    pub open spec fn shot(self, nano: bool) -> Shot {
        Shot {
            bytes: self.data,
            ts_us: self.sec * 1_000_000 + (if nano {
                self.frac as int / 1000
            } else {
                self.frac as int
            }),
            orig_len: if self.orig > self.data.len() {
                self.orig as int
            } else {
                self.data.len() as int
            },
        }
    }
}

/// The first `n` records in a file.
pub open spec fn packet_bytes(ps: Seq<Packet>, big: bool, n: int) -> Seq<u8>
    decreases n,
{
    if n <= 0 {
        seq![]
    } else {
        packet_bytes(ps, big, n - 1) + ps[n - 1].bytes(big)
    }
}

/// The number that a pcap file starts with.
pub open spec fn magic_number(nano: bool) -> int {
    if nano {
        0xa1b23c4d
    } else {
        0xa1b2c3d4
    }
}

/// A pcap file in one of the two byte orders. `rest` are the sixteen bytes of the header
/// between the magic number and the link type: version, time zone, accuracy and limit.
pub open spec fn pcap_file(ps: Seq<Packet>, link: u32, nano: bool, rest: Seq<u8>, big: bool) -> Seq<u8> {
    word_bytes(magic_number(nano), big) + rest + word_bytes(link as int, big) + packet_bytes(
        ps,
        big,
        ps.len() as int,
    )
}

proof fn lemma_word_at(b: Seq<u8>, i: int, v: int, big: bool)
    requires
        0 <= i,
        i + 4 <= b.len(),
        0 <= v < 0x1_0000_0000,
        b.subrange(i, i + 4) == word_bytes(v, big),
    ensures
        word(b, i, big) == v,
{
    reveal(le32_bytes);
    law_le32_read_back(v);
    law_be32_read_back(v);
    let w = word_bytes(v, big);
    assert(b[i] == w[0] && b[i + 1] == w[1] && b[i + 2] == w[2] && b[i + 3] == w[3]) by {
        assert(b.subrange(i, i + 4)[0] == b[i]);
        assert(b.subrange(i, i + 4)[1] == b[i + 1]);
        assert(b.subrange(i, i + 4)[2] == b[i + 2]);
        assert(b.subrange(i, i + 4)[3] == b[i + 3]);
    }
}

proof fn lemma_word_len(v: int, big: bool)
    ensures
        word_bytes(v, big).len() == 4,
{
    reveal(le32_bytes);
}

pub(crate) proof fn lemma_packet_stands(ps: Seq<Packet>, big: bool, n: int, k: int)
    requires
        0 <= k < n <= ps.len(),
    ensures
        ({
            let a = packet_bytes(ps, big, k).len() as int;
            let e = packet_bytes(ps, big, k + 1).len() as int;
            &&& e == a + ps[k].bytes(big).len()
            &&& e <= packet_bytes(ps, big, n).len()
            &&& packet_bytes(ps, big, n).subrange(a, e) == ps[k].bytes(big)
        }),
    decreases n,
{
    let a = packet_bytes(ps, big, k).len() as int;
    let e = packet_bytes(ps, big, k + 1).len() as int;
    if k == n - 1 {
        assert(packet_bytes(ps, big, n).subrange(a, e) =~= ps[k].bytes(big));
    } else {
        lemma_packet_stands(ps, big, n - 1, k);
        let f = packet_bytes(ps, big, n - 1);
        assert(packet_bytes(ps, big, n).subrange(a, e) =~= f.subrange(a, e));
    }
}

pub(crate) proof fn lemma_packet_at(b: Seq<u8>, off: int, p: Packet, nano: bool, big: bool)
    requires
        0 <= off,
        off + p.bytes(big).len() <= b.len(),
        p.data.len() <= u32::MAX,
        b.subrange(off, off + p.bytes(big).len()) == p.bytes(big),
    ensures
        p.bytes(big).len() == 16 + p.data.len(),
        word(b, off, big) == p.sec,
        word(b, off + 4, big) == p.frac,
        word(b, off + 8, big) == p.data.len(),
        b.subrange(off + 16, off + 16 + p.data.len()) == p.data,
        record(b, off, big, nano) == p.shot(nano),
{
    let n = p.data.len() as int;
    lemma_word_len(p.sec as int, big);
    lemma_word_len(p.frac as int, big);
    lemma_word_len(n, big);
    lemma_word_len(p.orig as int, big);
    let t = p.bytes(big);
    let w = b.subrange(off, off + t.len());
    assert(b.subrange(off, off + 4) =~= w.subrange(0, 4));
    assert(t.subrange(0, 4) =~= word_bytes(p.sec as int, big));
    lemma_word_at(b, off, p.sec as int, big);
    assert(b.subrange(off + 4, off + 8) =~= w.subrange(4, 8));
    assert(t.subrange(4, 8) =~= word_bytes(p.frac as int, big));
    lemma_word_at(b, off + 4, p.frac as int, big);
    assert(b.subrange(off + 8, off + 12) =~= w.subrange(8, 12));
    assert(t.subrange(8, 12) =~= word_bytes(n, big));
    lemma_word_at(b, off + 8, n, big);
    assert(b.subrange(off + 12, off + 16) =~= w.subrange(12, 16));
    assert(t.subrange(12, 16) =~= word_bytes(p.orig as int, big));
    lemma_word_at(b, off + 12, p.orig as int, big);
    assert(b.subrange(off + 16, off + 16 + n) =~= w.subrange(16, 16 + n));
    assert(t.subrange(16, 16 + n) =~= p.data);
}

/// The frames of the first `k` records.
pub open spec fn packet_shots(ps: Seq<Packet>, nano: bool, k: int) -> Seq<Shot> {
    Seq::new(k as nat, |i: int| ps[i].shot(nano))
}

proof fn lemma_records(b: Seq<u8>, ps: Seq<Packet>, nano: bool, big: bool, n: int, k: int)
    requires
        0 <= k <= n <= ps.len(),
        forall|i: int| 0 <= i < ps.len() ==> (#[trigger] ps[i]).data.len() <= u32::MAX,
        b.len() >= 24 + packet_bytes(ps, big, n).len() as int,
        b.subrange(24, 24 + packet_bytes(ps, big, n).len() as int) == packet_bytes(ps, big, n),
    ensures
        records_from(
            b,
            24 + packet_bytes(ps, big, k).len() as int,
            big,
            nano,
            packet_shots(ps, nano, k),
        ) == records_from(
            b,
            24 + packet_bytes(ps, big, n).len() as int,
            big,
            nano,
            packet_shots(ps, nano, n),
        ),
    decreases n - k,
{
    if k < n {
        let all = packet_bytes(ps, big, n);
        let a = packet_bytes(ps, big, k).len() as int;
        let e = packet_bytes(ps, big, k + 1).len() as int;
        lemma_packet_stands(ps, big, n, k);
        assert(b.subrange(24 + a, 24 + e) =~= b.subrange(24, 24 + all.len() as int).subrange(a, e));
        assert(ps[k].data.len() <= u32::MAX);
        lemma_packet_at(b, 24 + a, ps[k], nano, big);
        assert(packet_shots(ps, nano, k).push(ps[k].shot(nano)) =~= packet_shots(
            ps,
            nano,
            k + 1,
        ));
        lemma_records(b, ps, nano, big, n, k + 1);
    }
}

pub(crate) proof fn lemma_pcap_header(ps: Seq<Packet>, link: u32, nano: bool, rest: Seq<u8>, big: bool, cut: int)
    requires
        rest.len() == 16,
        24 <= cut <= pcap_file(ps, link, nano, rest, big).len(),
    ensures
        pcap_file(ps, link, nano, rest, big).len() == 24 + packet_bytes(
            ps,
            big,
            ps.len() as int,
        ).len(),
        magic_spec(pcap_file(ps, link, nano, rest, big).take(cut)) == Some((big, nano)),
        be32(pcap_file(ps, link, nano, rest, big).take(cut), 0) == (if big {
            magic_number(nano)
        } else if nano {
            0x4d3cb2a1
        } else {
            0xd4c3b2a1
        }),
        word(pcap_file(ps, link, nano, rest, big).take(cut), 20, big) == link,
        pcap_file(ps, link, nano, rest, big).skip(24) == packet_bytes(ps, big, ps.len() as int),
{
    let f = pcap_file(ps, link, nano, rest, big);
    let b = f.take(cut);
    let m = magic_number(nano);
    lemma_word_len(m, big);
    lemma_word_len(link as int, big);
    assert(f.skip(24) =~= packet_bytes(ps, big, ps.len() as int));
    assert(b.subrange(0, 4) =~= word_bytes(m, big));
    assert(b.subrange(20, 24) =~= word_bytes(link as int, big));
    lemma_word_at(b, 0, m, big);
    lemma_word_at(b, 20, link as int, big);
    let w = word_bytes(m, big);
    reveal(le32_bytes);
    assert(b.subrange(0, 4)[0] == b[0] && b.subrange(0, 4)[1] == b[1] && b.subrange(0, 4)[2] == b[2]
        && b.subrange(0, 4)[3] == b[3]);
    assert(b[0] == w[0] && b[1] == w[1] && b[2] == w[2] && b[3] == w[3]);
    if big && nano {
        assert(b[0] == 0xa1 && b[1] == 0xb2 && b[2] == 0x3c && b[3] == 0x4d);
    } else if big {
        assert(b[0] == 0xa1 && b[1] == 0xb2 && b[2] == 0xc3 && b[3] == 0xd4);
    } else if nano {
        assert(b[0] == 0x4d && b[1] == 0x3c && b[2] == 0xb2 && b[3] == 0xa1);
    } else {
        assert(b[0] == 0xd4 && b[1] == 0xc3 && b[2] == 0xb2 && b[3] == 0xa1);
    }
}

/// A pcap file loads as its records, in either byte order: one frame for each record, in
/// the order of the file, with its time in microseconds and a length on the wire that is
/// at least the length of the frame.
pub proof fn law_pcap_loads_in_both_orders(
    ps: Seq<Packet>,
    link: u32,
    nano: bool,
    rest: Seq<u8>,
    big: bool,
)
    requires
        rest.len() == 16,
        link_spec(link as int) is Some,
        forall|i: int| 0 <= i < ps.len() ==> (#[trigger] ps[i]).data.len() <= u32::MAX,
    ensures
        loaded(pcap_file(ps, link, nano, rest, big)) == Some(
            Ok::<CaptureModel, Seq<char>>(
                CaptureModel {
                    link: link_spec(link as int)->0,
                    shots: packet_shots(ps, nano, ps.len() as int),
                    kind: "pcap"@,
                },
            ),
        ),
{
    let b = pcap_file(ps, link, nano, rest, big);
    let n = ps.len() as int;
    lemma_word_len(magic_number(nano), big);
    lemma_word_len(link as int, big);
    lemma_pcap_header(ps, link, nano, rest, big, b.len() as int);
    assert(b.take(b.len() as int) =~= b);
    let body = packet_bytes(ps, big, n);
    assert(b.subrange(24, 24 + body.len() as int) =~= body);
    lemma_records(b, ps, nano, big, n, 0);
    assert(packet_shots(ps, nano, 0) =~= seq![]);
}

/// A pcap file that was cut off inside the bytes of its last record is refused, in either
/// byte order.
pub proof fn law_cut_pcap_is_refused(
    ps: Seq<Packet>,
    link: u32,
    nano: bool,
    rest: Seq<u8>,
    big: bool,
    lost: int,
)
    requires
        rest.len() == 16,
        link_spec(link as int) is Some,
        forall|i: int| 0 <= i < ps.len() ==> (#[trigger] ps[i]).data.len() <= u32::MAX,
        ps.len() > 0,
        0 < lost <= ps.last().data.len(),
    ensures
        ({
            let b = pcap_file(ps, link, nano, rest, big);
            loaded(b.take(b.len() - lost)) == Some(
                Err::<CaptureModel, Seq<char>>("truncated pcap record"@),
            )
        }),
{
    let f = pcap_file(ps, link, nano, rest, big);
    let n = ps.len() as int;
    let p = ps.last();
    let cut = f.len() - lost;
    let b = f.take(cut);
    lemma_word_len(magic_number(nano), big);
    lemma_word_len(link as int, big);
    lemma_word_len(p.sec as int, big);
    lemma_word_len(p.frac as int, big);
    lemma_word_len(p.data.len() as int, big);
    lemma_word_len(p.orig as int, big);
    let head = packet_bytes(ps, big, n - 1);
    let all = packet_bytes(ps, big, n);
    assert(all == head + p.bytes(big));
    assert(f.len() == 24 + all.len());
    lemma_pcap_header(ps, link, nano, rest, big, cut);
    assert(b.subrange(24, 24 + head.len() as int) =~= head);
    lemma_records(b, ps, nano, big, n - 1, 0);
    assert(packet_shots(ps, nano, 0) =~= seq![]);
    let off = 24 + head.len() as int;
    assert(f.subrange(off, off + p.bytes(big).len()) =~= p.bytes(big));
    lemma_packet_at(f, off, p, nano, big);
    assert(word(b, off + 8, big) == word(f, off + 8, big));
}

pub(crate) proof fn lemma_pcap_size(ps: Seq<Packet>, link: u32, nano: bool, rest: Seq<u8>, big: bool)
    requires
        rest.len() == 16,
    ensures
        pcap_file(ps, link, nano, rest, big).len() >= 24,
{
    lemma_word_len(magic_number(nano), big);
    lemma_word_len(link as int, big);
}

/// The packets of a capture are looked for behind the link header that the number in the
/// file names; the two numbers of raw packets name none.
pub proof fn law_link_number_is_kept(code: int)
    requires
        link_spec(code) is Some,
    ensures
        code == 228 || code == 31 || code == link_code(link_spec(code)->0),
        code == 228 || code == 31 ==> link_code(link_spec(code)->0) == 101,
{
}

} // verus!
