//! Builds Ethernet frames with IPv4 or IPv6 and TCP, and lists of them.

use vstd::prelude::*;
use crate::bytes::{
    be16, be16_bytes, be32, be32_bytes, push_all, push_be16, push_be32,
};
use crate::checksum::{
    complement, folded, law_complement_verifies, ones_complement, sum_fits, word_sum,
};
use crate::frame::{frame_parsed, tcp_parsed, ParsedModel, SegmentModel};
use crate::json::{hex_encode, items_of, lemma_dec, Json, JsonModel};
use crate::model::{ACK, PSH, SYN};
use crate::text::{
    chars_of, dec, fields, hex_of, number, push_dec, push_text, split_fields, sub_string, views,
};
use crate::types::{
    double_colon, find_double_colon, group_bytes, groups_array, ints, pad_groups, parse_parts,
    parse_side, part_numbers, side_groups, Ip, LinkKind,
};
use crate::wire::{is_v4_at, is_v6_at, v4_at, v6_at};

verus! {

/// A frame and its time.
#[derive(Debug, Clone)]
pub struct FrameSpec {
    pub ts_us: i128,
    pub bytes: Vec<u8>,
}

pub struct Builder {
    linktype: u32,
    frames: Vec<FrameSpec>,
}

/// What a builder holds: a link type, and frames with their times.
pub struct BuilderModel {
    pub linktype: u32,
    pub frames: Seq<(int, Seq<u8>)>,
}

pub open spec fn frame_pairs(s: Seq<FrameSpec>) -> Seq<(int, Seq<u8>)> {
    s.map_values(|f: FrameSpec| (f.ts_us as int, f.bytes@))
}

impl View for Builder {
    type V = BuilderModel;

    closed spec fn view(&self) -> BuilderModel {
        BuilderModel { linktype: self.linktype, frames: frame_pairs(self.frames@) }
    }
}

/// The JSON object of a frame.
pub open spec fn frame_json(f: (int, Seq<u8>)) -> JsonModel {
    JsonModel::Obj(
        seq![("ts_us"@, JsonModel::Num(f.0)), ("data"@, JsonModel::Str(hex_of(f.1)))],
    )
}

/// The JSON fixture of frames.
pub open spec fn fixture_json(m: BuilderModel) -> JsonModel {
    JsonModel::Obj(
        seq![
            ("linktype"@, JsonModel::Num(m.linktype as int)),
            ("frames"@, JsonModel::Arr(m.frames.map_values(|f: (int, Seq<u8>)| frame_json(f)))),
        ],
    )
}

impl Builder {
    pub fn new(linktype: u32) -> (r: Builder)
        ensures
            r@ == (BuilderModel { linktype, frames: seq![] }),
    {
        let r = Builder { linktype, frames: Vec::new() };
        assert(r@.frames =~= seq![]);
        r
    }

    /// Adds a frame, and returns its number.
    pub fn add(&mut self, ts_us: i128, bytes: Vec<u8>) -> (r: usize)
        ensures
            r == old(self)@.frames.len(),
            final(self)@ == (BuilderModel {
                frames: old(self)@.frames.push((ts_us as int, bytes@)),
                ..old(self)@
            }),
    {
        let ghost m = self@;
        let i: usize = self.frames.len();
        self.frames.push(FrameSpec { ts_us, bytes });
        assert(self@.frames =~= m.frames.push((ts_us as int, bytes@)));
        i
    }

    /// The JSON fixture of the frames.
    pub fn to_json(&self) -> (r: Json)
        ensures
            r@ == fixture_json(self@),
    {
        let ghost fs = self@.frames;
        let ghost g = |f: (int, Seq<u8>)| frame_json(f);
        let mut arr: Vec<Json> = Vec::new();
        let mut i: usize = 0;
        while i < self.frames.len()
            invariant
                i <= self.frames@.len(),
                fs == self@.frames,
                g == (|f: (int, Seq<u8>)| frame_json(f)),
                items_of(arr@) == fs.map_values(g).take(i as int),
            decreases self.frames@.len() - i,
        {
            let ghost before = arr@;
            let f = &self.frames[i];
            assert(fs[i as int] == (f.ts_us as int, f.bytes@));
            let mut o = Json::obj();
            o.set("ts_us", Json::num(f.ts_us));
            o.set("data", Json::str(hex_encode(f.bytes.as_slice())));
            assert(o@->Obj_0 =~= frame_json(fs[i as int])->Obj_0);
            let ghost om = o@;
            arr.push(o);
            i += 1;
            proof {
                assert(items_of(arr@) =~= items_of(before).push(om));
                assert(items_of(arr@) =~= fs.map_values(g).take(i as int));
            }
        }
        assert(fs.map_values(g).take(i as int) =~= fs.map_values(g));
        let mut root = Json::obj();
        root.set("linktype", Json::num(self.linktype as i128));
        root.set("frames", Json::arr(arr));
        assert(root@->Obj_0 =~= fixture_json(self@)->Obj_0);
        root
    }

    /// The canonical text of the JSON fixture.
    pub fn to_json_string(&self) -> (r: String)
        ensures
            r@ == crate::json::written(fixture_json(self@), None),
    {
        self.to_json().to_canonical()
    }

    /// The frames themselves.
    pub fn into_frames(self) -> (r: Vec<FrameSpec>)
        ensures
            frame_pairs(r@) == self@.frames,
    {
        self.frames
    }

    pub fn frame_count(&self) -> (r: usize)
        ensures
            r == self@.frames.len(),
    {
        self.frames.len()
    }
}

/// The dotted text of four octets.
pub open spec fn dotted(a: Seq<u8>) -> Seq<char> {
    dec(a[0] as nat) + "."@ + dec(a[1] as nat) + "."@ + dec(a[2] as nat) + "."@ + dec(a[3] as nat)
}

/// The dotted text of four octets.
pub fn ipv4(a: [u8; 4]) -> (s: String)
    ensures
        s@ == dotted(a@),
{
    let mut s = String::new();
    push_dec(&mut s, a[0] as u64);
    push_text(&mut s, ".");
    push_dec(&mut s, a[1] as u64);
    push_text(&mut s, ".");
    push_dec(&mut s, a[2] as u64);
    push_text(&mut s, ".");
    push_dec(&mut s, a[3] as u64);
    assert(s@ =~= dec(a@[0] as nat) + "."@ + dec(a@[1] as nat) + "."@ + dec(a@[2] as nat) + "."@
        + dec(a@[3] as nat));
    s
}

/// The numbers between the dots of a text, each at most 255.
pub open spec fn octets(s: Seq<char>) -> Result<Seq<int>, Seq<char>> {
    part_numbers(fields(s, '.'), 10, 255, seq![], None, fields(s, '.').len() as int)
}

/// The text starts with four octets and holds nothing but octets.
pub open spec fn is_v4(s: Seq<char>) -> bool {
    octets(s) matches Ok(v) && v.len() >= 4
}

/// The four octets of an address.
pub open spec fn v4_bytes(s: Seq<char>) -> Seq<u8> {
    Seq::new(4, |i: int| octets(s)->Ok_0[i] as u8)
}

/// The four octets of an address.
pub fn parse_ipv4(s: &str) -> (r: [u8; 4])
    requires
        is_v4(s@),
    ensures
        r@ == v4_bytes(s@),
{
    let parts = split_fields(s, '.');
    assert(views(parts@).len() == parts@.len());
    let what = "";
    proof {
        reveal_strlit("");
        assert(what@ =~= seq![]);
    }
    match parse_parts(&parts, 10, 255, what, None) {
        Ok(v) => {
            let a: [u8; 4] = [v[0] as u8, v[1] as u8, v[2] as u8, v[3] as u8];
            assert(a@ =~= v4_bytes(s@));
            a
        },
        Err(_) => [0, 0, 0, 0],
    }
}

pub(crate) proof fn lemma_fields_go_on(s: Seq<char>, t: Seq<char>, c: char)
    requires
        forall|i: int| 0 <= i < t.len() ==> #[trigger] t[i] != c,
    ensures
        fields(s, c).len() > 0,
        fields(s + t, c) == fields(s, c).drop_last().push(fields(s, c).last() + t),
    decreases s.len() + t.len(),
{
    if s.len() > 0 {
        lemma_fields_go_on(s.drop_last(), seq![], c);
    }
    let r = fields(s, c);
    if t.len() == 0 {
        assert(s + t =~= s);
        assert(r.last() + t =~= r.last());
        assert(r.drop_last().push(r.last()) =~= r);
    } else {
        let u = t.drop_last();
        assert forall|i: int| 0 <= i < u.len() implies #[trigger] u[i] != c by {
            assert(u[i] == t[i]);
        }
        lemma_fields_go_on(s, u, c);
        assert((s + t).drop_last() =~= s + u);
        assert((s + t).last() == t.last());
        let q = fields(s + u, c);
        assert(q.drop_last() =~= r.drop_last());
        assert((r.last() + u).push(t.last()) =~= r.last() + t);
    }
}

pub(crate) proof fn lemma_fields_cut(s: Seq<char>, t: Seq<char>, c: char)
    requires
        forall|i: int| 0 <= i < t.len() ==> #[trigger] t[i] != c,
    ensures
        fields(s + seq![c] + t, c) == fields(s, c).push(t),
{
    let d = s + seq![c];
    assert(d.drop_last() =~= s);
    assert(fields(d, c) == fields(s, c).push(Seq::<char>::empty()));
    lemma_fields_go_on(d, t, c);
    let r = fields(d, c);
    assert(r.drop_last() =~= fields(s, c));
    assert(r.last() + t =~= t);
}

/// Four octets written with dots read back.
pub proof fn law_dotted_reads_back(a: Seq<u8>)
    requires
        a.len() == 4,
    ensures
        is_v4(dotted(a)),
        v4_bytes(dotted(a)) == a,
{
    reveal_strlit(".");
    let d = Seq::new(4, |i: int| dec(a[i] as nat));
    assert forall|i: int, j: int| 0 <= i < 4 && 0 <= j < d[i].len() implies #[trigger] d[i][j]
        != '.' && d[i][0] != '+' && d[i].len() > 0 by {
        lemma_dec(a[i] as nat);
        assert(crate::json::digit(dec(a[i] as nat)[j]));
        assert(crate::json::digit(dec(a[i] as nat)[0]));
    }
    lemma_dec(a[0] as nat);
    lemma_dec(a[1] as nat);
    lemma_dec(a[2] as nat);
    lemma_dec(a[3] as nat);
    assert(d[0][0] != '+' && d[1][0] != '+' && d[2][0] != '+' && d[3][0] != '+');
    let e = Seq::<char>::empty();
    lemma_fields_go_on(e, d[0], '.');
    assert(e + d[0] =~= d[0]);
    assert(fields(e, '.') =~= seq![e]);
    assert(fields(d[0], '.') =~= seq![d[0]]);
    assert("."@ =~= seq!['.']);
    lemma_fields_cut(d[0], d[1], '.');
    let s1 = d[0] + seq!['.'] + d[1];
    lemma_fields_cut(s1, d[2], '.');
    let s2 = s1 + seq!['.'] + d[2];
    lemma_fields_cut(s2, d[3], '.');
    let s3 = s2 + seq!['.'] + d[3];
    assert(s3 == dotted(a));
    let f = fields(s3, '.');
    assert(f =~= d);
    reveal_with_fuel(part_numbers, 5);
    assert(number(d[0], 10, 255) == Some(a[0] as int));
    assert(number(d[1], 10, 255) == Some(a[1] as int));
    assert(number(d[2], 10, 255) == Some(a[2] as int));
    assert(number(d[3], 10, 255) == Some(a[3] as int));
    let v = seq![a[0] as int, a[1] as int, a[2] as int, a[3] as int];
    assert(octets(s3)->Ok_0 =~= v);
    assert(v4_bytes(dotted(a)) =~= a);
}

/// The groups before and behind the first `::` of a text.
pub open spec fn v6_sides(s: Seq<char>) -> Option<(Seq<int>, Seq<int>)> {
    let (h, t) = match double_colon(s, 0) {
        Some(p) => (side_groups(s.take(p)), side_groups(s.skip(p + 2))),
        None => (side_groups(s), side_groups(seq![])),
    };
    match (h, t) {
        (Ok(h), Ok(t)) if h.len() + t.len() <= 8 => Some((h, t)),
        _ => None,
    }
}

/// The text is made of up to eight groups.
pub open spec fn is_v6(s: Seq<char>) -> bool {
    v6_sides(s) is Some
}

/// The sixteen bytes of an address; zeros fill it up to eight groups.
pub open spec fn v6_bytes(s: Seq<char>) -> Seq<u8> {
    let (h, t) = v6_sides(s)->0;
    group_bytes(h + Seq::new((8 - h.len() - t.len()) as nat, |i: int| 0int) + t)
}

fn parse_ipv6(s: &str) -> (r: [u8; 16])
    requires
        is_v6(s@),
    ensures
        r@ == v6_bytes(s@),
{
    let v = chars_of(s);
    let n: usize = v.len();
    let (head, tail) = match find_double_colon(&v, 0) {
        Some(p) => {
            assert(p + 2 <= n);
            (sub_string(&v, 0, p), sub_string(&v, p + 2, n))
        },
        None => (sub_string(&v, 0, n), String::new()),
    };
    proof {
        match double_colon(s@, 0) {
            Some(p) => {
                assert(head@ =~= s@.take(p));
                assert(tail@ =~= s@.skip(p + 2));
            },
            None => {
                assert(head@ =~= s@);
                assert(tail@ =~= seq![]);
            },
        }
    }
    let zero: [u8; 16] = [0, 0, 0, 0, 0, 0, 0, 0, 0, 0, 0, 0, 0, 0, 0, 0];
    match parse_side(head.as_str()) {
        Ok(h) => match parse_side(tail.as_str()) {
            Ok(t) => {
                assert(ints(h@).len() == h@.len() && ints(t@).len() == t@.len());
                groups_array(&pad_groups(h, t))
            },
            Err(_) => zero,
        },
        Err(_) => zero,
    }
}

/// What a TCP header says.
#[derive(Clone, Copy)]
pub struct Head {
    pub sport: u16,
    pub dport: u16,
    pub seq: u32,
    pub ack: u32,
    pub flags: u8,
}

/// The first sixteen bytes of a TCP header.
pub open spec fn tcp_front(h: Head) -> Seq<u8> {
    be16_bytes(h.sport as int) + be16_bytes(h.dport as int) + be32_bytes(h.seq as int) + be32_bytes(
        h.ack as int,
    ) + seq![0x50u8, h.flags] + be16_bytes(64240)
}

/// A TCP segment with a given checksum.
pub open spec fn tcp_bytes(h: Head, sum: int, payload: Seq<u8>) -> Seq<u8> {
    tcp_front(h) + be16_bytes(sum) + be16_bytes(0) + payload
}

/// What the checksum of a segment over IPv4 covers.
pub open spec fn covered_v4(src: Seq<u8>, dst: Seq<u8>, tcp: Seq<u8>) -> Seq<u8> {
    src + dst + seq![0u8, 6u8] + be16_bytes(tcp.len() as int % 0x1_0000) + tcp
}

/// What the checksum of a segment over IPv6 covers.
pub open spec fn covered_v6(src: Seq<u8>, dst: Seq<u8>, tcp: Seq<u8>) -> Seq<u8> {
    src + dst + be32_bytes(tcp.len() as int % 0x1_0000_0000) + seq![0u8, 0u8, 0u8, 6u8] + tcp
}

/// The checksum of a segment over IPv4.
pub open spec fn sum_v4(src: Seq<u8>, dst: Seq<u8>, h: Head, payload: Seq<u8>) -> int {
    complement(word_sum(covered_v4(src, dst, tcp_bytes(h, 0, payload))))
}

/// The checksum of a segment over IPv6.
pub open spec fn sum_v6(src: Seq<u8>, dst: Seq<u8>, h: Head, payload: Seq<u8>) -> int {
    complement(word_sum(covered_v6(src, dst, tcp_bytes(h, 0, payload))))
}

/// An IPv4 header with a given checksum.
pub open spec fn ip_bytes(src: Seq<u8>, dst: Seq<u8>, total: int, id: u16, frag: int, sum: int) -> Seq<
    u8,
> {
    seq![0x45u8, 0u8] + be16_bytes(total % 0x1_0000) + be16_bytes(id as int) + be16_bytes(frag)
        + seq![64u8, 6u8] + be16_bytes(sum) + src + dst
}

/// The checksum of an IPv4 header.
pub open spec fn ip_sum(src: Seq<u8>, dst: Seq<u8>, total: int, id: u16, frag: int) -> int {
    complement(word_sum(ip_bytes(src, dst, total, id, frag, 0)))
}

/// The Ethernet header of every frame.
pub open spec fn ether_bytes(ether_type: int) -> Seq<u8> {
    seq![2u8, 0u8, 0u8, 0u8, 0u8, 2u8, 2u8, 0u8, 0u8, 0u8, 0u8, 1u8] + be16_bytes(ether_type)
}

/// The fragment word of an offset in bytes.
pub open spec fn frag_word(frag: Option<(u16, bool)>) -> int {
    match frag {
        Some((off, more)) => off as int / 8 + (if more {
            0x2000int
        } else {
            0
        }),
        None => 0,
    }
}

/// A frame with a TCP segment over IPv4.
pub open spec fn frame_v4(
    src: Seq<u8>,
    dst: Seq<u8>,
    h: Head,
    payload: Seq<u8>,
    id: u16,
    frag: Option<(u16, bool)>,
) -> Seq<u8> {
    let total = 40 + payload.len() as int;
    let w = frag_word(frag);
    ether_bytes(0x0800) + ip_bytes(src, dst, total, id, w, ip_sum(src, dst, total, id, w))
        + tcp_bytes(h, sum_v4(src, dst, h, payload), payload)
}

/// An IPv6 header.
pub open spec fn ip6_bytes(src: Seq<u8>, dst: Seq<u8>, len: int, next: u8) -> Seq<u8> {
    be32_bytes(0x6000_0000) + be16_bytes(len % 0x1_0000) + seq![next, 64u8] + src + dst
}

/// A frame with a TCP segment over IPv6.
pub open spec fn frame_v6(src: Seq<u8>, dst: Seq<u8>, h: Head, payload: Seq<u8>) -> Seq<u8> {
    ether_bytes(0x86dd) + ip6_bytes(src, dst, 20 + payload.len() as int, 6) + tcp_bytes(
        h,
        sum_v6(src, dst, h, payload),
        payload,
    )
}

/// What an IPv6 fragment carries: the first one the TCP header and the first
/// payload, a later one payload alone.
pub open spec fn fragment_v6(
    src: Seq<u8>,
    dst: Seq<u8>,
    h: Head,
    payload: Seq<u8>,
    off: u16,
) -> Seq<u8> {
    if off == 0 {
        tcp_bytes(h, sum_v6(src, dst, h, payload), payload)
    } else {
        payload
    }
}

/// A frame with an IPv6 fragment.
pub open spec fn frame_v6_frag(
    src: Seq<u8>,
    dst: Seq<u8>,
    h: Head,
    payload: Seq<u8>,
    off: u16,
    more: bool,
    ident: u32,
) -> Seq<u8> {
    let l4 = fragment_v6(src, dst, h, payload, off);
    ether_bytes(0x86dd) + ip6_bytes(src, dst, 8 + l4.len() as int, 44) + seq![6u8, 0u8]
        + be16_bytes(off as int / 8 * 8 + (if more {
        1int
    } else {
        0
    })) + be32_bytes(ident as int) + l4
}

/// The checksums of a segment and of its header can be summed up in 32 bits.
pub open spec fn sums_fit(payload: Seq<u8>) -> bool {
    payload.len() <= 0x1_ff00
}

proof fn lemma_fits(s: Seq<u8>)
    requires
        s.len() <= 0x2_0000,
    ensures
        sum_fits(s),
{
    crate::checksum::law_short_sums_fit(s);
}

fn push_front(out: &mut Vec<u8>, h: Head)
    ensures
        final(out)@ == old(out)@ + tcp_front(h),
{
    let ghost o = out@;
    push_be16(out, h.sport);
    push_be16(out, h.dport);
    push_be32(out, h.seq);
    push_be32(out, h.ack);
    out.push(0x50);
    out.push(h.flags);
    push_be16(out, 64240);
    assert(out@ =~= o + tcp_front(h));
}

fn segment(h: Head, sum: u16, payload: &[u8]) -> (r: Vec<u8>)
    ensures
        r@ == tcp_bytes(h, sum as int, payload@),
{
    let mut out: Vec<u8> = Vec::new();
    push_front(&mut out, h);
    push_be16(&mut out, sum);
    push_be16(&mut out, 0);
    push_all(&mut out, payload);
    assert(out@ =~= tcp_bytes(h, sum as int, payload@));
    out
}

fn tcp_checksum(src: &[u8; 4], dst: &[u8; 4], h: Head, payload: &[u8]) -> (r: u16)
    requires
        sums_fit(payload@),
    ensures
        r == sum_v4(src@, dst@, h, payload@),
{
    let tcp = segment(h, 0, payload);
    let mut p: Vec<u8> = Vec::new();
    push_all(&mut p, src.as_slice());
    push_all(&mut p, dst.as_slice());
    p.push(0);
    p.push(6);
    push_be16(&mut p, (tcp.len() % 0x1_0000) as u16);
    push_all(&mut p, tcp.as_slice());
    assert(p@ =~= covered_v4(src@, dst@, tcp@));
    proof {
        lemma_fits(p@);
    }
    ones_complement(p.as_slice())
}

fn tcp_checksum_v6(src: &[u8; 16], dst: &[u8; 16], h: Head, payload: &[u8]) -> (r: u16)
    requires
        sums_fit(payload@),
    ensures
        r == sum_v6(src@, dst@, h, payload@),
{
    let tcp = segment(h, 0, payload);
    let mut p: Vec<u8> = Vec::new();
    push_all(&mut p, src.as_slice());
    push_all(&mut p, dst.as_slice());
    push_be32(&mut p, tcp.len() as u32);
    p.push(0);
    p.push(0);
    p.push(0);
    p.push(6);
    push_all(&mut p, tcp.as_slice());
    assert(p@ =~= covered_v6(src@, dst@, tcp@));
    proof {
        lemma_fits(p@);
    }
    ones_complement(p.as_slice())
}

fn header(src: &[u8; 4], dst: &[u8; 4], total: usize, id: u16, frag: u16, sum: u16) -> (r: Vec<u8>)
    ensures
        r@ == ip_bytes(src@, dst@, total as int, id, frag as int, sum as int),
{
    let mut ip: Vec<u8> = Vec::new();
    ip.push(0x45);
    ip.push(0);
    push_be16(&mut ip, (total % 0x1_0000) as u16);
    push_be16(&mut ip, id);
    push_be16(&mut ip, frag);
    ip.push(64);
    ip.push(6);
    push_be16(&mut ip, sum);
    push_all(&mut ip, src.as_slice());
    push_all(&mut ip, dst.as_slice());
    assert(ip@ =~= ip_bytes(src@, dst@, total as int, id, frag as int, sum as int));
    ip
}

fn ether(ether_type: u16) -> (r: Vec<u8>)
    ensures
        r@ == ether_bytes(ether_type as int),
{
    let mut out: Vec<u8> = vec![2u8, 0u8, 0u8, 0u8, 0u8, 2u8, 2u8, 0u8, 0u8, 0u8, 0u8, 1u8];
    push_be16(&mut out, ether_type);
    assert(out@ =~= ether_bytes(ether_type as int));
    out
}

/// A frame with a TCP segment over IPv4.
pub fn segment_v4(
    src: &[u8; 4],
    dst: &[u8; 4],
    h: Head,
    payload: &[u8],
    id: u16,
    frag: Option<(u16, bool)>,
) -> (r: Vec<u8>)
    requires
        sums_fit(payload@),
    ensures
        r@ == frame_v4(src@, dst@, h, payload@, id, frag),
{
    let sum: u16 = tcp_checksum(src, dst, h, payload);
    let tcp = segment(h, sum, payload);
    let word: u16 = match frag {
        Some((off, more)) => off / 8 + (if more {
            0x2000
        } else {
            0
        }),
        None => 0,
    };
    let total: usize = 20 + tcp.len();
    let bare = header(src, dst, total, id, word, 0);
    proof {
        lemma_fits(bare@);
    }
    let ip_sum: u16 = ones_complement(bare.as_slice());
    let ip = header(src, dst, total, id, word, ip_sum);
    let mut out = ether(0x0800);
    push_all(&mut out, ip.as_slice());
    push_all(&mut out, tcp.as_slice());
    out
}

/// A frame with a TCP segment over IPv4.
pub fn tcp_packet(
    src: &str,
    sport: u16,
    dst: &str,
    dport: u16,
    seq: u32,
    ack: u32,
    flags: u8,
    payload: &[u8],
    ip_id: u16,
) -> (r: Vec<u8>)
    requires
        is_v4(src@),
        is_v4(dst@),
        sums_fit(payload@),
    ensures
        r@ == frame_v4(
            v4_bytes(src@),
            v4_bytes(dst@),
            (Head { sport, dport, seq, ack, flags }),
            payload@,
            ip_id,
            None,
        ),
{
    tcp_packet_frag(src, sport, dst, dport, seq, ack, flags, payload, ip_id, None)
}

/// A frame with a TCP segment over IPv6 without extension headers.
pub fn tcp_packet_v6(
    src: &str,
    sport: u16,
    dst: &str,
    dport: u16,
    seq: u32,
    ack: u32,
    flags: u8,
    payload: &[u8],
) -> (r: Vec<u8>)
    requires
        is_v6(src@),
        is_v6(dst@),
        sums_fit(payload@),
    ensures
        r@ == frame_v6(
            v6_bytes(src@),
            v6_bytes(dst@),
            (Head { sport, dport, seq, ack, flags }),
            payload@,
        ),
{
    let s = parse_ipv6(src);
    let d = parse_ipv6(dst);
    let h = Head { sport, dport, seq, ack, flags };
    let sum: u16 = tcp_checksum_v6(&s, &d, h, payload);
    let tcp = segment(h, sum, payload);
    let mut out = ether(0x86dd);
    push_ip6(&mut out, &s, &d, tcp.len(), 6);
    push_all(&mut out, tcp.as_slice());
    assert(out@ =~= frame_v6(s@, d@, h, payload@));
    out
}

fn push_ip6(out: &mut Vec<u8>, src: &[u8; 16], dst: &[u8; 16], len: usize, next: u8)
    ensures
        final(out)@ == old(out)@ + ip6_bytes(src@, dst@, len as int, next),
{
    let ghost o = out@;
    push_be32(out, 0x6000_0000);
    push_be16(out, (len % 0x1_0000) as u16);
    out.push(next);
    out.push(64);
    push_all(out, src.as_slice());
    push_all(out, dst.as_slice());
    assert(out@ =~= o + ip6_bytes(src@, dst@, len as int, next));
}

/// A frame with an IPv6 fragment at an offset in bytes. The first fragment carries
/// the TCP header and the first payload, a later one payload alone.
pub fn tcp_packet_v6_frag(
    src: &str,
    sport: u16,
    dst: &str,
    dport: u16,
    seq: u32,
    ack: u32,
    flags: u8,
    payload: &[u8],
    frag_off: u16,
    mf: bool,
    ident: u32,
) -> (r: Vec<u8>)
    requires
        is_v6(src@),
        is_v6(dst@),
        sums_fit(payload@),
    ensures
        r@ == frame_v6_frag(
            v6_bytes(src@),
            v6_bytes(dst@),
            (Head { sport, dport, seq, ack, flags }),
            payload@,
            frag_off,
            mf,
            ident,
        ),
{
    let s = parse_ipv6(src);
    let d = parse_ipv6(dst);
    let h = Head { sport, dport, seq, ack, flags };
    let l4: Vec<u8> = if frag_off == 0 {
        let sum: u16 = tcp_checksum_v6(&s, &d, h, payload);
        segment(h, sum, payload)
    } else {
        crate::bytes::copy_bytes(payload)
    };
    let mut out = ether(0x86dd);
    push_ip6(&mut out, &s, &d, 8 + l4.len(), 44);
    out.push(6);
    out.push(0);
    let word: u16 = frag_off / 8 * 8 + (if mf {
        1
    } else {
        0
    });
    push_be16(&mut out, word);
    push_be32(&mut out, ident);
    push_all(&mut out, l4.as_slice());
    assert(out@ =~= frame_v6_frag(s@, d@, h, payload@, frag_off, mf, ident));
    out
}

/// A frame with a TCP segment over IPv4, marked as a fragment at an offset in
/// bytes.
pub fn tcp_packet_frag(
    src: &str,
    sport: u16,
    dst: &str,
    dport: u16,
    seq: u32,
    ack: u32,
    flags: u8,
    payload: &[u8],
    ip_id: u16,
    frag: Option<(u16, bool)>,
) -> (r: Vec<u8>)
    requires
        is_v4(src@),
        is_v4(dst@),
        sums_fit(payload@),
    ensures
        r@ == frame_v4(
            v4_bytes(src@),
            v4_bytes(dst@),
            (Head { sport, dport, seq, ack, flags }),
            payload@,
            ip_id,
            frag,
        ),
{
    let s = parse_ipv4(src);
    let d = parse_ipv4(dst);
    segment_v4(&s, &d, Head { sport, dport, seq, ack, flags }, payload, ip_id, frag)
}

/// One end of a connection.
#[derive(Clone, Copy)]
pub struct End {
    pub ip: [u8; 4],
    pub port: u16,
}

impl View for End {
    type V = (Seq<u8>, u16);

    open spec fn view(&self) -> (Seq<u8>, u16) {
        (self.ip@, self.port)
    }
}

/// A frame of a connection at a time.
#[verifier::opaque]
pub open spec fn shot(
    ts: int,
    from: (Seq<u8>, u16),
    to: (Seq<u8>, u16),
    seq: u32,
    ack: u32,
    flags: u8,
    payload: Seq<u8>,
    id: u16,
) -> (int, Seq<u8>) {
    (
        ts,
        frame_v4(
            from.0,
            to.0,
            Head { sport: from.1, dport: to.1, seq, ack, flags },
            payload,
            id,
            None,
        ),
    )
}

/// The next sequence number.
pub open spec fn next(seq: u32) -> u32 {
    ((seq + 1) % 0x1_0000_0000) as u32
}

/// The three frames of a handshake.
pub open spec fn handshake_frames(
    ts: int,
    c: (Seq<u8>, u16),
    s: (Seq<u8>, u16),
    isn_c: u32,
    isn_s: u32,
) -> Seq<(int, Seq<u8>)> {
    seq![
        shot(ts, c, s, isn_c, 0, SYN, seq![], 100),
        shot(ts + 100, s, c, isn_s, next(isn_c), SYN | ACK, seq![], 101),
        shot(ts + 200, c, s, next(isn_c), next(isn_s), ACK, seq![], 102),
    ]
}

impl Builder {
    /// Adds a frame of a connection.
    pub fn shoot(
        &mut self,
        ts: i128,
        from: End,
        to: End,
        seq: u32,
        ack: u32,
        flags: u8,
        payload: &[u8],
        id: u16,
    )
        requires
            sums_fit(payload@),
        ensures
            final(self)@ == (BuilderModel {
                frames: old(self)@.frames.push(
                    shot(ts as int, from@, to@, seq, ack, flags, payload@, id),
                ),
                ..old(self)@
            }),
    {
        let h = Head { sport: from.port, dport: to.port, seq, ack, flags };
        let f = segment_v4(&from.ip, &to.ip, h, payload, id, None);
        let _ = self.add(ts, f);
        reveal(shot);
    }

    /// Adds a three-way handshake, and returns the time behind it.
    pub fn shake(&mut self, ts: i128, c: End, s: End, isn_c: u32, isn_s: u32) -> (r: i128)
        requires
            ts <= i128::MAX - 300,
        ensures
            r == ts + 300,
            final(self)@ == (BuilderModel {
                frames: old(self)@.frames + handshake_frames(ts as int, c@, s@, isn_c, isn_s),
                ..old(self)@
            }),
    {
        let ghost m = self@;
        let none: Vec<u8> = Vec::new();
        assert(none@ =~= seq![]);
        self.shoot(ts, c, s, isn_c, 0, SYN, none.as_slice(), 100);
        self.shoot(
            ts + 100,
            s,
            c,
            isn_s,
            isn_c.wrapping_add(1),
            SYN | ACK,
            none.as_slice(),
            101,
        );
        self.shoot(
            ts + 200,
            c,
            s,
            isn_c.wrapping_add(1),
            isn_s.wrapping_add(1),
            ACK,
            none.as_slice(),
            102,
        );
        assert(self@.frames =~= m.frames + handshake_frames(ts as int, c@, s@, isn_c, isn_s));
        ts + 300
    }
}

/// Adds a three-way handshake, and returns the time behind it.
pub fn handshake(
    b: &mut Builder,
    ts: i128,
    c: &str,
    cp: u16,
    s: &str,
    sp: u16,
    isn_c: u32,
    isn_s: u32,
) -> (r: i128)
    requires
        is_v4(c@),
        is_v4(s@),
        ts <= i128::MAX - 300,
    ensures
        r == ts + 300,
        final(b)@ == (BuilderModel {
            frames: old(b)@.frames + handshake_frames(
                ts as int,
                (v4_bytes(c@), cp),
                (v4_bytes(s@), sp),
                isn_c,
                isn_s,
            ),
            ..old(b)@
        }),
{
    let x = End { ip: parse_ipv4(c), port: cp };
    let y = End { ip: parse_ipv4(s), port: sp };
    b.shake(ts, x, y, isn_c, isn_s)
}

/// Adds a frame with data, and returns the time behind it.
pub fn data(
    b: &mut Builder,
    ts: i128,
    src: &str,
    sp: u16,
    dst: &str,
    dp: u16,
    seq: u32,
    ack: u32,
    payload: &[u8],
    id: u16,
) -> (r: i128)
    requires
        is_v4(src@),
        is_v4(dst@),
        sums_fit(payload@),
        ts <= i128::MAX - 100,
    ensures
        r == ts + 100,
        final(b)@ == (BuilderModel {
            frames: old(b)@.frames.push(
                (
                    ts as int,
                    frame_v4(
                        v4_bytes(src@),
                        v4_bytes(dst@),
                        (Head { sport: sp, dport: dp, seq, ack, flags: PSH | ACK }),
                        payload@,
                        id,
                        None,
                    ),
                ),
            ),
            ..old(b)@
        }),
{
    let f = tcp_packet(src, sp, dst, dp, seq, ack, PSH | ACK, payload, id);
    let _ = b.add(ts, f);
    ts + 100
}

/// Adds a frame without data, and returns the time behind it.
pub fn flags(
    b: &mut Builder,
    ts: i128,
    src: &str,
    sp: u16,
    dst: &str,
    dp: u16,
    seq: u32,
    ack: u32,
    fl: u8,
    id: u16,
) -> (r: i128)
    requires
        is_v4(src@),
        is_v4(dst@),
        ts <= i128::MAX - 100,
    ensures
        r == ts + 100,
        final(b)@ == (BuilderModel {
            frames: old(b)@.frames.push(
                (
                    ts as int,
                    frame_v4(
                        v4_bytes(src@),
                        v4_bytes(dst@),
                        (Head { sport: sp, dport: dp, seq, ack, flags: fl }),
                        seq![],
                        id,
                        None,
                    ),
                ),
            ),
            ..old(b)@
        }),
{
    let none: Vec<u8> = Vec::new();
    assert(none@ =~= seq![]);
    let f = tcp_packet(src, sp, dst, dp, seq, ack, fl, none.as_slice(), id);
    let _ = b.add(ts, f);
    ts + 100
}

proof fn lemma_be32_at(b: Seq<u8>, i: int, v: u32)
    requires
        0 <= i <= b.len() - 4,
        b.subrange(i, i + 4) == be32_bytes(v as int),
    ensures
        be32(b, i) == v,
{
    let w = b.subrange(i, i + 4);
    assert(w[0] == b[i] && w[1] == b[i + 1] && w[2] == b[i + 2] && w[3] == b[i + 3]);
}

/// A TCP segment reads back as what was put into it, but for the two high bits of
/// the flags.
pub proof fn law_tcp_read_back(h: Head, sum: int, payload: Seq<u8>)
    ensures
        tcp_parsed(tcp_bytes(h, sum, payload)) == Ok::<SegmentModel, Seq<char>>(
            SegmentModel {
                src_port: h.sport,
                dst_port: h.dport,
                seq: h.seq,
                ack: h.ack,
                flags: h.flags % 64,
                window: 64240,
                data_offset: 20,
                payload,
            },
        ),
{
    let b = tcp_bytes(h, sum, payload);
    assert(b.skip(20) =~= payload);
    assert(b.subrange(4, 8) =~= be32_bytes(h.seq as int));
    assert(b.subrange(8, 12) =~= be32_bytes(h.ack as int));
    lemma_be32_at(b, 4, h.seq);
    lemma_be32_at(b, 8, h.ack);
    assert(b[12] == 0x50 && b[13] == h.flags);
    assert(be16(b, 0) == h.sport);
    assert(be16(b, 2) == h.dport);
    assert(be16(b, 14) == 64240);
}

/// A frame over IPv4 reads back as a whole datagram with its addresses and its TCP
/// segment.
pub proof fn law_v4_read_back(src: [u8; 4], dst: [u8; 4], h: Head, payload: Seq<u8>, id: u16)
    requires
        payload.len() <= 65495,
    ensures
        frame_parsed(frame_v4(src@, dst@, h, payload, id, None), LinkKind::Ethernet) == Ok::<
            ParsedModel,
            Seq<char>,
        >(
            ParsedModel::Complete {
                src: Ip::V4(src),
                dst: Ip::V4(dst),
                protocol: 6,
                payload: tcp_bytes(h, sum_v4(src@, dst@, h, payload), payload),
            },
        ),
{
    let total = 40 + payload.len() as int;
    let sum = ip_sum(src@, dst@, total, id, 0);
    let tcp = tcp_bytes(h, sum_v4(src@, dst@, h, payload), payload);
    let ip = ip_bytes(src@, dst@, total, id, 0, sum);
    let f = frame_v4(src@, dst@, h, payload, id, None);
    let b = f.skip(14);
    assert(f == ether_bytes(0x0800) + ip + tcp);
    assert(ip.len() == 20);
    assert(b =~= ip + tcp);
    assert(be16(f, 12) == 0x0800);
    lemma_v4_fields(src, dst, total, id, 0, sum, tcp);
    assert(b.subrange(20, total) =~= tcp);
}

/// A frame over IPv4 that is marked as a fragment reads back as that fragment.
pub proof fn law_v4_fragment_read_back(
    src: [u8; 4],
    dst: [u8; 4],
    h: Head,
    payload: Seq<u8>,
    id: u16,
    off: u16,
    more: bool,
)
    requires
        payload.len() <= 65495,
        off >= 8 || more,
    ensures
        frame_parsed(
            frame_v4(src@, dst@, h, payload, id, Some((off, more))),
            LinkKind::Ethernet,
        ) == Ok::<ParsedModel, Seq<char>>(
            ParsedModel::Fragment {
                src: Ip::V4(src),
                dst: Ip::V4(dst),
                protocol: 6,
                frag_id: id as u32,
                offset: off as int / 8 * 8,
                more,
                data: tcp_bytes(h, sum_v4(src@, dst@, h, payload), payload),
            },
        ),
{
    let w = frag_word(Some((off, more)));
    let total = 40 + payload.len() as int;
    let sum = ip_sum(src@, dst@, total, id, w);
    let tcp = tcp_bytes(h, sum_v4(src@, dst@, h, payload), payload);
    let ip = ip_bytes(src@, dst@, total, id, w, sum);
    let f = frame_v4(src@, dst@, h, payload, id, Some((off, more)));
    let b = f.skip(14);
    assert(f == ether_bytes(0x0800) + ip + tcp);
    assert(ip.len() == 20);
    assert(b =~= ip + tcp);
    assert(be16(f, 12) == 0x0800);
    lemma_v4_fields(src, dst, total, id, w, sum, tcp);
    assert(b.subrange(20, total) =~= tcp);
}

proof fn lemma_v4_fields(
    src: [u8; 4],
    dst: [u8; 4],
    total: int,
    id: u16,
    frag: int,
    sum: int,
    rest: Seq<u8>,
)
    requires
        0 <= total < 0x1_0000,
        0 <= frag < 0x1_0000,
    ensures
        ({
            let b = ip_bytes(src@, dst@, total, id, frag, sum) + rest;
            &&& b[0] == 0x45
            &&& b[9] == 6
            &&& be16(b, 2) == total
            &&& be16(b, 4) == id
            &&& be16(b, 6) == frag
            &&& v4_at(b, 12) == Ip::V4(src)
            &&& v4_at(b, 16) == Ip::V4(dst)
        }),
{
    let b = ip_bytes(src@, dst@, total, id, frag, sum) + rest;
    assert(b.subrange(12, 16) =~= src@);
    assert(b.subrange(16, 20) =~= dst@);
    assert(is_v4_at(Ip::V4(src), b, 12));
    assert(is_v4_at(Ip::V4(dst), b, 16));
    if let Ip::V4(x) = v4_at(b, 12) {
        assert(x =~= src);
    }
    if let Ip::V4(x) = v4_at(b, 16) {
        assert(x =~= dst);
    }
}

/// A frame over IPv6 reads back as a whole datagram with its addresses and its TCP
/// segment.
pub proof fn law_v6_read_back(src: [u8; 16], dst: [u8; 16], h: Head, payload: Seq<u8>)
    requires
        payload.len() <= 65515,
    ensures
        frame_parsed(frame_v6(src@, dst@, h, payload), LinkKind::Ethernet) == Ok::<
            ParsedModel,
            Seq<char>,
        >(
            ParsedModel::Complete {
                src: Ip::V6(src),
                dst: Ip::V6(dst),
                protocol: 6,
                payload: tcp_bytes(h, sum_v6(src@, dst@, h, payload), payload),
            },
        ),
{
    let len = 20 + payload.len() as int;
    let tcp = tcp_bytes(h, sum_v6(src@, dst@, h, payload), payload);
    let ip = ip6_bytes(src@, dst@, len, 6);
    let f = frame_v6(src@, dst@, h, payload);
    let b = f.skip(14);
    assert(f == ether_bytes(0x86dd) + ip + tcp);
    assert(ip.len() == 40);
    assert(b =~= ip + tcp);
    assert(be16(f, 12) == 0x86dd);
    assert(b[0] == 0x60);
    assert(b[6] == 6);
    assert(be16(b, 4) == len);
    assert(b.subrange(8, 24) =~= src@);
    assert(b.subrange(24, 40) =~= dst@);
    assert(is_v6_at(Ip::V6(src), b, 8));
    assert(is_v6_at(Ip::V6(dst), b, 24));
    if let Ip::V6(x) = v6_at(b, 8) {
        assert(x =~= src);
    }
    if let Ip::V6(x) = v6_at(b, 24) {
        assert(x =~= dst);
    }
    assert(b.subrange(40, 40 + len) =~= tcp);
}

proof fn lemma_sum_split(a: Seq<u8>, b: Seq<u8>)
    requires
        a.len() % 2 == 0,
    ensures
        word_sum(a + b) == word_sum(a) + word_sum(b),
    decreases a.len(),
{
    if a.len() == 0 {
        assert(a + b =~= b);
    } else {
        lemma_sum_split(a.skip(2), b);
        assert((a + b).skip(2) =~= a.skip(2) + b);
        assert(be16(a + b, 0) == be16(a, 0));
    }
}

proof fn lemma_sum_completes(front: Seq<u8>, back: Seq<u8>)
    requires
        front.len() % 2 == 0,
    ensures
        ({
            let sum = complement(word_sum(front + be16_bytes(0) + back));
            folded(word_sum(front + be16_bytes(sum) + back)) == 0xffff
        }),
{
    let n = word_sum(front + be16_bytes(0) + back);
    let sum = complement(n);
    law_complement_verifies(n);
    crate::checksum::law_folded(n);
    assert forall|v: int| 0 <= v < 0x1_0000 implies word_sum(front + #[trigger] be16_bytes(v) + back)
        == word_sum(front) + v + word_sum(back) by {
        lemma_sum_split(front + be16_bytes(v), back);
        lemma_sum_split(front, be16_bytes(v));
        assert(word_sum(be16_bytes(v).skip(2)) == 0);
        assert(be16(be16_bytes(v), 0) == v);
    }
}

/// The checksum of an IPv4 header verifies.
pub proof fn law_header_sum_verifies(src: [u8; 4], dst: [u8; 4], total: int, id: u16, frag: int)
    ensures
        folded(
            word_sum(
                ip_bytes(src@, dst@, total, id, frag, ip_sum(src@, dst@, total, id, frag)),
            ),
        ) == 0xffff,
{
    let front = seq![0x45u8, 0u8] + be16_bytes(total % 0x1_0000) + be16_bytes(id as int)
        + be16_bytes(frag) + seq![64u8, 6u8];
    lemma_sum_completes(front, src@ + dst@);
    assert forall|v: int| ip_bytes(src@, dst@, total, id, frag, v) == front + #[trigger] be16_bytes(v)
        + (src@ + dst@) by {
        assert(ip_bytes(src@, dst@, total, id, frag, v) =~= front + be16_bytes(v) + (src@
            + dst@));
    }
    let z = be16_bytes(0);
    let s = be16_bytes(ip_sum(src@, dst@, total, id, frag));
}

/// The checksum of a segment over IPv4 verifies.
pub proof fn law_v4_sum_verifies(src: [u8; 4], dst: [u8; 4], h: Head, payload: Seq<u8>)
    ensures
        folded(
            word_sum(
                covered_v4(src@, dst@, tcp_bytes(h, sum_v4(src@, dst@, h, payload), payload)),
            ),
        ) == 0xffff,
{
    let len = (20 + payload.len()) as int;
    let front = src@ + dst@ + seq![0u8, 6u8] + be16_bytes(len % 0x1_0000) + tcp_front(h);
    let back = be16_bytes(0) + payload;
    lemma_sum_completes(front, back);
    assert forall|v: int| covered_v4(src@, dst@, tcp_bytes(h, v, payload)) == front
        + #[trigger] be16_bytes(v) + back by {
        assert(covered_v4(src@, dst@, tcp_bytes(h, v, payload)) =~= front + be16_bytes(v) + back);
    }
    let z = be16_bytes(0);
    let s = be16_bytes(sum_v4(src@, dst@, h, payload));
}

/// The checksum of a segment over IPv6 verifies.
pub proof fn law_v6_sum_verifies(src: [u8; 16], dst: [u8; 16], h: Head, payload: Seq<u8>)
    ensures
        folded(
            word_sum(
                covered_v6(src@, dst@, tcp_bytes(h, sum_v6(src@, dst@, h, payload), payload)),
            ),
        ) == 0xffff,
{
    let len = (20 + payload.len()) as int;
    let front = src@ + dst@ + be32_bytes(len % 0x1_0000_0000) + seq![0u8, 0u8, 0u8, 6u8]
        + tcp_front(h);
    let back = be16_bytes(0) + payload;
    lemma_sum_completes(front, back);
    assert forall|v: int| covered_v6(src@, dst@, tcp_bytes(h, v, payload)) == front
        + #[trigger] be16_bytes(v) + back by {
        assert(covered_v6(src@, dst@, tcp_bytes(h, v, payload)) =~= front + be16_bytes(v) + back);
    }
    let z = be16_bytes(0);
    let s = be16_bytes(sum_v6(src@, dst@, h, payload));
}

} // verus!
