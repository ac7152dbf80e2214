//! IP fragment reassembly within a byte budget.
//!
//! Fragments are put together strictly within their own datagram. Overlapping
//! fragments, or fragments beyond a budget, isolate their datagram and touch no
//! other one. Times are in microseconds.

use vstd::prelude::*;
use crate::bytes::copy_bytes;
use crate::cover::{
    any_meets, assemble, assembled, bounded, covers, covers_all, disjoint, greatest_end, max_end,
    meets_any, models, Piece, PieceModel,
};
use crate::datagrams::{lemma_made, lemma_prefix, made_of, make_up};
use crate::text::{cat_dec, dec, push_dec, push_text, same};

verus! {

#[derive(Debug, Clone, PartialEq, Eq, Hash)]
pub struct FragKey {
    pub src: String,
    pub dst: String,
    pub ident: u32,
    pub protocol: u8,
}

#[derive(Debug, Clone)]
pub struct Frag {
    /// Offset of the fragment within the datagram, in bytes.
    pub offset: usize,
    /// Whether fragments follow.
    pub more: bool,
    pub data: Vec<u8>,
    pub frame: u64,
    pub ts: i64,
}

#[derive(Debug, Clone)]
pub struct FragSet {
    pub frags: Vec<Frag>,
    pub first_frame: u64,
    pub last_ts: i64,
}

#[derive(Debug, Clone)]
pub enum FragResult {
    /// The fragment is held; fragments are missing.
    Pending,
    /// The payload of the whole datagram.
    Complete(Vec<u8>),
    /// The datagram is dropped, for this reason.
    Isolated(String),
}

/// What a key is.
pub struct KeyModel {
    pub src: Seq<char>,
    pub dst: Seq<char>,
    pub ident: u32,
    pub protocol: u8,
}

impl View for FragKey {
    type V = KeyModel;

    open spec fn view(&self) -> KeyModel {
        KeyModel { src: self.src@, dst: self.dst@, ident: self.ident, protocol: self.protocol }
    }
}

/// What a fragment is.
pub struct FragModel {
    pub offset: int,
    pub more: bool,
    pub data: Seq<u8>,
    pub frame: u64,
    pub ts: int,
}

impl View for Frag {
    type V = FragModel;

    open spec fn view(&self) -> FragModel {
        FragModel {
            offset: self.offset as int,
            more: self.more,
            data: self.data@,
            frame: self.frame,
            ts: self.ts as int,
        }
    }
}

impl FragModel {
    pub open spec fn end(self) -> int {
        self.offset + self.data.len()
    }

    pub open spec fn piece(self) -> PieceModel {
        PieceModel { offset: self.offset, data: self.data }
    }
}

pub open spec fn frag_models(s: Seq<Frag>) -> Seq<FragModel> {
    s.map_values(|f: Frag| f@)
}

pub open spec fn pieces_of(s: Seq<FragModel>) -> Seq<PieceModel> {
    s.map_values(|f: FragModel| f.piece())
}

/// How many bytes fragments hold.
pub open spec fn bytes_in(s: Seq<FragModel>) -> nat
    decreases s.len(),
{
    if s.len() == 0 {
        0
    } else {
        bytes_in(s.drop_last()) + s.last().data.len()
    }
}

/// The end that the last final fragment sets.
pub open spec fn final_end(s: Seq<FragModel>) -> Option<int>
    decreases s.len(),
{
    if s.len() == 0 {
        None
    } else if !s.last().more {
        Some(s.last().end())
    } else {
        final_end(s.drop_last())
    }
}

/// The fragments of one datagram.
pub struct SetModel {
    pub key: KeyModel,
    pub frags: Seq<FragModel>,
    pub first_frame: u64,
    pub last_ts: int,
}

impl SetModel {
    pub open spec fn wf(self) -> bool {
        bounded(pieces_of(self.frags)) && disjoint(pieces_of(self.frags))
    }

    pub open spec fn fresh(key: KeyModel, f: FragModel) -> SetModel {
        SetModel { key, frags: seq![], first_frame: f.frame, last_ts: f.ts }
    }

    /// The set with one fragment more.
    pub open spec fn with(self, f: FragModel) -> SetModel {
        SetModel {
            frags: self.frags.push(f),
            last_ts: if f.ts > self.last_ts {
                f.ts
            } else {
                self.last_ts
            },
            ..self
        }
    }

    /// The end is known and everything up to it is held.
    pub open spec fn complete(self) -> bool {
        final_end(self.frags) is Some && covers(pieces_of(self.frags), final_end(self.frags)->0)
    }
}

/// The place of a key among the first `n` sets.
pub open spec fn place_of(s: Seq<SetModel>, k: KeyModel, n: int) -> Option<int>
    decreases n,
{
    if n <= 0 {
        None
    } else if s[n - 1].key == k {
        Some(n - 1)
    } else {
        place_of(s, k, n - 1)
    }
}

/// How many bytes the first `n` sets hold.
pub open spec fn total(s: Seq<SetModel>, n: int) -> nat
    decreases n,
{
    if n <= 0 {
        0
    } else {
        total(s, n - 1) + bytes_in(s[n - 1].frags)
    }
}

/// Whether a set is too old at time `now`.
pub open spec fn stale(s: SetModel, now: int, timeout: int) -> bool {
    now - s.last_ts > timeout
}

/// Those of the first `n` sets that are not too old.
pub open spec fn kept(s: Seq<SetModel>, now: int, timeout: int, n: int) -> Seq<SetModel>
    decreases n,
{
    if n <= 0 {
        seq![]
    } else if stale(s[n - 1], now, timeout) {
        kept(s, now, timeout, n - 1)
    } else {
        kept(s, now, timeout, n - 1).push(s[n - 1])
    }
}

/// The keys of those of the first `n` sets that are too old.
pub open spec fn gone(s: Seq<SetModel>, now: int, timeout: int, n: int) -> Seq<KeyModel>
    decreases n,
{
    if n <= 0 {
        seq![]
    } else if stale(s[n - 1], now, timeout) {
        gone(s, now, timeout, n - 1).push(s[n - 1].key)
    } else {
        gone(s, now, timeout, n - 1)
    }
}

/// What feeding a fragment yields.
pub enum ResultModel {
    Pending,
    Complete(Seq<u8>),
    Isolated(Seq<char>),
}

impl FragResult {
    /// The result is the modelled one.
    pub open spec fn is(self, m: ResultModel) -> bool {
        match (self, m) {
            (FragResult::Pending, ResultModel::Pending) => true,
            (FragResult::Complete(v), ResultModel::Complete(s)) => v@ == s,
            (FragResult::Isolated(t), ResultModel::Isolated(s)) => t@ == s,
            _ => false,
        }
    }
}

/// What a reassembler holds, the sets in the order in which their first fragment
/// came.
pub struct State {
    pub pending: Seq<SetModel>,
    pub budget_bytes: nat,
    pub max_datagram: nat,
    pub timeout: int,
}

impl State {
    pub open spec fn wf(self) -> bool {
        forall|i: int| 0 <= i < self.pending.len() ==> (#[trigger] self.pending[i]).wf()
    }

    /// How many bytes are held in all.
    pub open spec fn buffered(self) -> nat {
        total(self.pending, self.pending.len() as int)
    }

    pub open spec fn find(self, k: KeyModel) -> Option<int> {
        place_of(self.pending, k, self.pending.len() as int)
    }

    /// What is held of the datagram of a fragment.
    pub open spec fn held(self, k: KeyModel, f: FragModel) -> SetModel {
        match self.find(k) {
            Some(i) => self.pending[i],
            None => SetModel::fresh(k, f),
        }
    }

    /// The sets without one.
    pub open spec fn without(self, k: KeyModel) -> State {
        State {
            pending: match self.find(k) {
                Some(i) => self.pending.remove(i),
                None => self.pending,
            },
            ..self
        }
    }

    /// The sets with another state of one.
    pub open spec fn replaced(self, s: SetModel) -> State {
        State {
            pending: match self.find(s.key) {
                Some(i) => self.pending.update(i, s),
                None => self.pending.push(s),
            },
            ..self
        }
    }

    /// What a fragment does and yields.
    pub open spec fn added(self, k: KeyModel, f: FragModel) -> (State, ResultModel) {
        let s = self.held(k, f);
        let h = s.with(f);
        if f.data.len() + self.buffered() > self.budget_bytes || f.end() > self.max_datagram {
            (self.without(k), ResultModel::Isolated("fragment budget exceeded"@))
        } else if any_meets(pieces_of(s.frags), f.offset, f.end()) {
            (
                self.without(k),
                ResultModel::Isolated(
                    "overlapping fragments at datagram offset "@ + dec(f.offset as nat) + ".."@ + dec(
                        f.end() as nat,
                    ),
                ),
            )
        } else if h.complete() {
            (
                self.without(k),
                ResultModel::Complete(assembled(pieces_of(h.frags), final_end(h.frags)->0)),
            )
        } else {
            (self.replaced(h), ResultModel::Pending)
        }
    }

    /// A complete datagram has no fragment beyond its end.
    pub open spec fn end_is_sound(self, k: KeyModel, f: FragModel) -> bool {
        let h = self.held(k, f).with(f);
        self.added(k, f).1 is Complete ==> forall|i: int|
            0 <= i < h.frags.len() ==> (#[trigger] h.frags[i]).end() <= final_end(h.frags)->0
    }

    /// A fragment that can be fed: the sizes can be counted, and the end is sound.
    pub open spec fn takes(self, k: KeyModel, f: FragModel) -> bool {
        &&& f.data.len() + self.buffered() <= usize::MAX
        &&& f.end() <= usize::MAX
        &&& self.end_is_sound(k, f)
    }
}

struct Entry {
    key: FragKey,
    set: FragSet,
}

impl View for Entry {
    type V = SetModel;

    closed spec fn view(&self) -> SetModel {
        SetModel {
            key: self.key@,
            frags: frag_models(self.set.frags@),
            first_frame: self.set.first_frame,
            last_ts: self.set.last_ts as int,
        }
    }
}

spec fn entry_models(s: Seq<Entry>) -> Seq<SetModel> {
    s.map_values(|e: Entry| e@)
}

pub struct FragmentReassembler {
    pending: Vec<Entry>,
    /// The most bytes held across all datagrams.
    pub budget_bytes: usize,
    /// The greatest size of a datagram.
    pub max_datagram: usize,
    /// The time after which an incomplete datagram is dropped.
    pub timeout: i64,
    buffered: usize,
}

impl View for FragmentReassembler {
    type V = State;

    closed spec fn view(&self) -> State {
        State {
            pending: entry_models(self.pending@),
            budget_bytes: self.budget_bytes as nat,
            max_datagram: self.max_datagram as nat,
            timeout: self.timeout as int,
        }
    }
}

impl FragKey {
    fn same(&self, o: &FragKey) -> (r: bool)
        ensures
            r == (self@ == o@),
    {
        self.ident == o.ident && self.protocol == o.protocol && same(
            self.src.as_str(),
            o.src.as_str(),
        ) && same(self.dst.as_str(), o.dst.as_str())
    }
}

proof fn lemma_place_of(s: Seq<SetModel>, k: KeyModel, n: int)
    requires
        0 <= n <= s.len(),
    ensures
        match place_of(s, k, n) {
            Some(i) => 0 <= i < n && s[i].key == k,
            None => true,
        },
    decreases n,
{
    if n > 0 {
        lemma_place_of(s, k, n - 1);
    }
}

proof fn lemma_total_prefix(a: Seq<SetModel>, b: Seq<SetModel>, n: int)
    requires
        0 <= n <= a.len(),
        n <= b.len(),
        forall|i: int| 0 <= i < n ==> #[trigger] a[i] == b[i],
    ensures
        total(a, n) == total(b, n),
    decreases n,
{
    if n > 0 {
        lemma_total_prefix(a, b, n - 1);
        assert(a[n - 1] == b[n - 1]);
    }
}

proof fn lemma_total_remove(s: Seq<SetModel>, i: int, n: int)
    requires
        0 <= i < n <= s.len(),
    ensures
        total(s.remove(i), n - 1) + bytes_in(s[i].frags) == total(s, n),
    decreases n,
{
    let r = s.remove(i);
    if n == i + 1 {
        lemma_total_prefix(r, s, i);
    } else {
        lemma_total_remove(s, i, n - 1);
        assert(r[n - 2] == s[n - 1]);
    }
}

fn pieces(v: &Vec<Frag>) -> (r: Vec<Piece>)
    ensures
        models(r@) == pieces_of(frag_models(v@)),
{
    let mut out: Vec<Piece> = Vec::new();
    let ghost ps = pieces_of(frag_models(v@));
    let mut i: usize = 0;
    while i < v.len()
        invariant
            i <= v@.len(),
            ps == pieces_of(frag_models(v@)),
            out@.len() == i,
            forall|j: int| 0 <= j < i ==> (#[trigger] out@[j])@ == ps[j],
        decreases v@.len() - i,
    {
        out.push(Piece { offset: v[i].offset, data: copy_bytes(v[i].data.as_slice()) });
        i += 1;
    }
    assert(models(out@) =~= ps);
    out
}

fn size(v: &Vec<Frag>) -> (r: usize)
    requires
        bytes_in(frag_models(v@)) <= usize::MAX,
    ensures
        r == bytes_in(frag_models(v@)),
{
    let ghost ms = frag_models(v@);
    let mut n: usize = 0;
    let mut i: usize = 0;
    assert(ms.take(0) =~= seq![]);
    while i < v.len()
        invariant
            i <= v@.len(),
            ms == frag_models(v@),
            bytes_in(ms) <= usize::MAX,
            n == bytes_in(ms.take(i as int)),
        decreases v@.len() - i,
    {
        proof {
            assert(ms.take(i + 1).drop_last() =~= ms.take(i as int));
            assert(ms.take(i + 1).last() == v@[i as int]@);
            lemma_bytes_grow(ms, i + 1);
        }
        n = n + v[i].data.len();
        i += 1;
    }
    assert(ms.take(i as int) =~= ms);
    n
}

proof fn lemma_bytes_grow(s: Seq<FragModel>, i: int)
    requires
        0 <= i <= s.len(),
    ensures
        bytes_in(s.take(i)) <= bytes_in(s),
    decreases s.len(),
{
    if i == s.len() {
        assert(s.take(i) =~= s);
    } else {
        lemma_bytes_grow(s.drop_last(), i);
        assert(s.drop_last().take(i) =~= s.take(i));
    }
}

fn end_of(v: &Vec<Frag>) -> (r: Option<usize>)
    requires
        bounded(pieces_of(frag_models(v@))),
    ensures
        match r {
            Some(e) => final_end(frag_models(v@)) == Some(e as int),
            None => final_end(frag_models(v@)) is None,
        },
{
    let ghost ms = frag_models(v@);
    let mut n: usize = v.len();
    assert(ms.take(n as int) =~= ms);
    while n > 0
        invariant
            n <= v@.len(),
            ms == frag_models(v@),
            bounded(pieces_of(ms)),
            final_end(ms) == final_end(ms.take(n as int)),
        decreases n,
    {
        proof {
            assert(ms.take(n as int).drop_last() =~= ms.take(n - 1));
            assert(ms.take(n as int).last() == v@[n - 1]@);
            assert(pieces_of(ms)[n - 1].end() <= usize::MAX);
        }
        if !v[n - 1].more {
            return Some(v[n - 1].offset + v[n - 1].data.len());
        }
        n -= 1;
    }
    None
}

impl Default for FragmentReassembler {
    fn default() -> (r: Self)
        ensures
            r.wf(),
            r@ == (State {
                pending: seq![],
                budget_bytes: 4 * 1024 * 1024,
                max_datagram: 128 * 1024,
                timeout: 30_000_000,
            }),
    {
        FragmentReassembler::with_limits(4 * 1024 * 1024, 128 * 1024, 30_000_000)
    }
}

impl FragmentReassembler {
    pub closed spec fn wf(&self) -> bool {
        &&& self@.wf()
        &&& self.buffered == self@.buffered()
    }

    /// A reassembler with other limits than the default ones.
    pub fn with_limits(budget_bytes: usize, max_datagram: usize, timeout: i64) -> (r: Self)
        ensures
            r.wf(),
            r@ == (State {
                pending: seq![],
                budget_bytes: budget_bytes as nat,
                max_datagram: max_datagram as nat,
                timeout: timeout as int,
            }),
    {
        let r = FragmentReassembler {
            pending: Vec::new(),
            budget_bytes,
            max_datagram,
            timeout,
            buffered: 0,
        };
        assert(r@.pending =~= seq![]);
        r
    }

    fn find(&self, key: &FragKey) -> (r: Option<usize>)
        ensures
            match r {
                Some(i) => self@.find(key@) == Some(i as int) && i < self.pending@.len(),
                None => self@.find(key@) is None,
            },
    {
        let mut n: usize = self.pending.len();
        while n > 0
            invariant
                n <= self.pending@.len(),
                self@.find(key@) == place_of(self@.pending, key@, n as int),
            decreases n,
        {
            assert(self@.pending[n - 1] == self.pending@[n - 1]@);
            if self.pending[n - 1].key.same(key) {
                return Some(n - 1);
            }
            n -= 1;
        }
        None
    }

    /// Drops the set at a place, and returns it.
    fn take(&mut self, i: usize) -> (e: Entry)
        requires
            old(self).wf(),
            i < old(self)@.pending.len(),
        ensures
            final(self).wf(),
            final(self)@ == (State { pending: old(self)@.pending.remove(i as int), ..old(self)@ }),
            e@ == old(self)@.pending[i as int],
            final(self).buffered + bytes_in(e@.frags) == old(self).buffered,
            final(self).pending@.len() == final(self)@.pending.len(),
    {
        let ghost s0 = self@;
        proof {
            lemma_total_remove(s0.pending, i as int, s0.pending.len() as int);
        }
        assert(self.pending@.len() == s0.pending.len());
        let e = self.pending.remove(i);
        self.buffered = self.buffered - size(&e.set.frags);
        proof {
            assert(self@.pending =~= s0.pending.remove(i as int));
            assert forall|j: int| 0 <= j < self@.pending.len() implies (
            #[trigger] self@.pending[j]).wf() by {
                if j < i {
                    assert(self@.pending[j] == s0.pending[j]);
                } else {
                    assert(self@.pending[j] == s0.pending[j + 1]);
                }
            }
        }
        e
    }

    /// Drops incomplete datagrams that are too old, and returns their keys with
    /// the reason.
    pub fn expire(&mut self, now: i64) -> (r: Vec<(FragKey, String)>)
        requires
            old(self).wf(),
            forall|i: int|
                0 <= i < old(self)@.pending.len() ==> i64::MIN <= now - (
                #[trigger] old(self)@.pending[i]).last_ts <= i64::MAX,
        ensures
            final(self).wf(),
            ({
                let s = old(self)@;
                let n = s.pending.len() as int;
                &&& final(self)@ == (State {
                    pending: kept(s.pending, now as int, s.timeout, n),
                    ..s
                })
                &&& r@.len() == gone(s.pending, now as int, s.timeout, n).len()
                &&& forall|i: int|
                    0 <= i < r@.len() ==> (#[trigger] r@[i]).0@ == gone(
                        s.pending,
                        now as int,
                        s.timeout,
                        n,
                    )[i] && r@[i].1@ == "fragment timeout"@
            }),
    {
        let ghost s0 = self@;
        let mut out: Vec<(FragKey, String)> = Vec::new();
        let mut k: usize = 0;
        let ghost mut n: int = 0;
        proof {
            assert(kept(s0.pending, now as int, s0.timeout, 0) + s0.pending.skip(0)
                =~= s0.pending);
        }
        while k < self.pending.len()
            invariant
                self.wf(),
                s0 == old(self)@,
                0 <= n <= s0.pending.len(),
                forall|i: int|
                    0 <= i < s0.pending.len() ==> i64::MIN <= now - (
                    #[trigger] s0.pending[i]).last_ts <= i64::MAX,
                self@ == (State {
                    pending: kept(s0.pending, now as int, s0.timeout, n) + s0.pending.skip(n),
                    ..s0
                }),
                k == kept(s0.pending, now as int, s0.timeout, n).len(),
                out@.len() == gone(s0.pending, now as int, s0.timeout, n).len(),
                forall|i: int|
                    0 <= i < out@.len() ==> (#[trigger] out@[i]).0@ == gone(
                        s0.pending,
                        now as int,
                        s0.timeout,
                        n,
                    )[i] && out@[i].1@ == "fragment timeout"@,
            decreases s0.pending.len() - n,
        {
            let ghost kp = kept(s0.pending, now as int, s0.timeout, n);
            proof {
                assert(self@.pending.len() == self.pending@.len());
                assert(n < s0.pending.len());
                assert(self@.pending[k as int] == s0.pending[n]);
                assert(self@.pending[k as int] == self.pending@[k as int]@);
            }
            let age: i64 = now - self.pending[k].set.last_ts;
            if age > self.timeout {
                let e = self.take(k);
                proof {
                    assert(self@.pending =~= kp + s0.pending.skip(n + 1));
                }
                out.push((e.key, "fragment timeout".to_string()));
            } else {
                proof {
                    assert(kp.push(s0.pending[n]) + s0.pending.skip(n + 1) =~= kp
                        + s0.pending.skip(n));
                }
                k += 1;
            }
            proof {
                n = n + 1;
            }
        }
        proof {
            assert(self@.pending.len() == self.pending@.len());
            assert(n == s0.pending.len());
            assert(kept(s0.pending, now as int, s0.timeout, n) + s0.pending.skip(n) =~= kept(
                s0.pending,
                now as int,
                s0.timeout,
                n,
            ));
        }
        out
    }

    fn is_sound(&self, key: &FragKey, frag: &Frag) -> (r: bool)
        requires
            self.wf(),
            frag@.data.len() + self@.buffered() <= usize::MAX,
            frag@.end() <= usize::MAX,
        ensures
            r == self@.end_is_sound(key@, frag@),
    {
        let ghost f = frag@;
        let ghost held = self@.held(key@, f);
        let ghost h = held.with(f);
        let end: usize = frag.offset + frag.data.len();
        if frag.data.len() + self.buffered > self.budget_bytes || end > self.max_datagram {
            return true;
        }
        let found = self.find(key);
        let mut ps: Vec<Piece> = Vec::new();
        let mut last: Option<usize> = None;
        assert(models(ps@) =~= seq![]);
        if let Some(i) = found {
            assert(self@.pending[i as int] == self.pending@[i as int]@);
            assert(self@.pending[i as int].wf());
            ps = pieces(&self.pending[i].set.frags);
            last = end_of(&self.pending[i].set.frags);
        }
        proof {
            assert(models(ps@) =~= pieces_of(held.frags));
            assert(held.wf());
            assert(found is None ==> held.frags.len() == 0);
        }
        let ghost known = last;
        assert(match known {
            Some(l) => final_end(held.frags) == Some(l as int),
            None => final_end(held.frags) is None,
        });
        if meets_any(&ps, frag.offset, end) {
            return true;
        }
        if !frag.more {
            last = Some(end);
        }
        let ghost before = ps@;
        let piece = Piece { offset: frag.offset, data: copy_bytes(&frag.data) };
        let ghost pm = piece@;
        ps.push(piece);
        proof {
            assert(models(ps@) =~= models(before).push(pm));
            assert(pieces_of(h.frags) =~= pieces_of(held.frags).push(f.piece()));
            assert(models(ps@) == pieces_of(h.frags));
            assert(h.frags.drop_last() =~= held.frags);
            lemma_with_wf(held, f);
            assert(match last {
                Some(l) => final_end(h.frags) == Some(l as int),
                None => final_end(h.frags) is None,
            });
        }
        if let Some(l) = last {
            if covers_all(&ps, l) {
                let top: usize = greatest_end(&ps);
                proof {
                    let all = pieces_of(h.frags);
                    crate::cover::lemma_max_end(all);
                    assert(self@.added(key@, f).1 is Complete);
                    if top <= l {
                        assert forall|i: int| 0 <= i < h.frags.len() implies (
                        #[trigger] h.frags[i]).end() <= final_end(h.frags)->0 by {
                            assert(all[i].end() == h.frags[i].end());
                        }
                    } else {
                        let i = choose|i: int| 0 <= i < all.len() && (#[trigger] all[i]).end() == max_end(
                            all,
                        );
                        assert(h.frags[i].end() == all[i].end());
                    }
                }
                return top <= l;
            }
        }
        true
    }

    /// Feeds one fragment. Nothing happens, and nothing comes back, where sizes cannot be
    /// counted, or where the datagram would be complete with a fragment beyond its end.
    pub fn try_add(&mut self, key: FragKey, frag: Frag) -> (r: Option<FragResult>)
        requires
            old(self).wf(),
        ensures
            final(self).wf(),
            match r {
                Some(r) => {
                    &&& old(self)@.takes(key@, frag@)
                    &&& final(self)@ == old(self)@.added(key@, frag@).0
                    &&& r.is(old(self)@.added(key@, frag@).1)
                },
                None => !old(self)@.takes(key@, frag@) && final(self)@ == old(self)@,
            },
    {
        let n: usize = frag.data.len();
        if n.checked_add(self.buffered).is_none() || n.checked_add(frag.offset).is_none() {
            return None;
        }
        if !self.is_sound(&key, &frag) {
            return None;
        }
        Some(self.add(key, frag))
    }

    /// Feeds one fragment.
    pub fn add(&mut self, key: FragKey, frag: Frag) -> (r: FragResult)
        requires
            old(self).wf(),
            old(self)@.takes(key@, frag@),
        ensures
            final(self).wf(),
            final(self)@ == old(self)@.added(key@, frag@).0,
            r.is(old(self)@.added(key@, frag@).1),
    {
        let ghost s0 = self@;
        let ghost f = frag@;
        let ghost kk = key@;
        proof {
            lemma_place_of(s0.pending, kk, s0.pending.len() as int);
        }
        let found = self.find(&key);
        let start: usize = frag.offset;
        let end: usize = frag.offset + frag.data.len();
        if frag.data.len() + self.buffered > self.budget_bytes || end > self.max_datagram {
            if let Some(i) = found {
                let _ = self.take(i);
            }
            return FragResult::Isolated("fragment budget exceeded".to_string());
        }
        let mut e = match found {
            Some(i) => self.take(i),
            None => Entry {
                key,
                set: FragSet { frags: Vec::new(), first_frame: frag.frame, last_ts: frag.ts },
            },
        };
        let ghost s1 = self@;
        let ghost held = s0.held(kk, f);
        proof {
            if found is None {
                assert(e@.frags =~= seq![]);
            }
            assert(e@ == held);
            assert(held.wf());
            assert(s1 == s0.without(kk));
        }
        let ps = pieces(&e.set.frags);
        if meets_any(&ps, start, end) {
            let mut t = cat_dec("overlapping fragments at datagram offset ", start as u64);
            push_text(&mut t, "..");
            push_dec(&mut t, end as u64);
            return FragResult::Isolated(t);
        }
        let n: usize = frag.data.len();
        if frag.ts > e.set.last_ts {
            e.set.last_ts = frag.ts;
        }
        e.set.frags.push(frag);
        let ghost h = held.with(f);
        proof {
            assert(frag_models(e.set.frags@) =~= held.frags.push(f));
            assert(e@ == h);
            assert(h.frags.drop_last() =~= held.frags);
            assert(bytes_in(h.frags) == bytes_in(held.frags) + f.data.len());
            assert(found is None ==> bytes_in(held.frags) == 0);
            lemma_with_wf(held, f);
        }
        if let Some(last) = end_of(&e.set.frags) {
            let all = pieces(&e.set.frags);
            if covers_all(&all, last) {
                let buf = assemble(&all, last);
                return FragResult::Complete(buf);
            }
        }
        self.buffered = self.buffered + size(&e.set.frags);
        match found {
            Some(i) => {
                self.pending.insert(i, e);
                proof {
                    assert(self@.pending =~= s1.pending.insert(i as int, h));
                    assert(self@.pending =~= s0.pending.update(i as int, h));
                    lemma_total_remove(self@.pending, i as int, self@.pending.len() as int);
                    assert(self@.pending.remove(i as int) =~= s1.pending);
                }
            },
            None => {
                self.pending.push(e);
                proof {
                    assert(self@.pending =~= s0.pending.push(h));
                    lemma_total_prefix(self@.pending, s0.pending, s0.pending.len() as int);
                }
            },
        }
        proof {
            assert(self@ == s0.replaced(h));
            assert forall|j: int| 0 <= j < self@.pending.len() implies (
            #[trigger] self@.pending[j]).wf() by {
                if self@.pending[j] != h {
                    assert(self@.pending[j] == s0.pending[j]);
                }
            }
        }
        FragResult::Pending
    }
}

proof fn lemma_with_wf(s: SetModel, f: FragModel)
    requires
        s.wf(),
        0 <= f.offset,
        f.end() <= usize::MAX,
        !any_meets(pieces_of(s.frags), f.offset, f.end()),
    ensures
        s.with(f).wf(),
{
    let a = pieces_of(s.frags);
    let b = pieces_of(s.with(f).frags);
    assert(b =~= a.push(f.piece()));
    assert forall|i: int| 0 <= i < b.len() implies (#[trigger] b[i]).end() <= usize::MAX
        && b[i].offset >= 0 by {
        if i < a.len() {
            assert(b[i] == a[i]);
        }
    }
    assert forall|i: int, j: int| 0 <= i < j < b.len() implies !(#[trigger] b[i]).meets(
        (#[trigger] b[j]).offset,
        b[j].end(),
    ) by {
        assert(b[i] == a[i]);
        if j < a.len() {
            assert(b[j] == a[j]);
        }
    }
}

proof fn lemma_same_prefix(a: Seq<SetModel>, b: Seq<SetModel>, k: KeyModel, n: int)
    requires
        0 <= n <= a.len(),
        n <= b.len(),
        forall|i: int| 0 <= i < n ==> (#[trigger] a[i]).key == b[i].key,
    ensures
        place_of(a, k, n) == place_of(b, k, n),
    decreases n,
{
    if n > 0 {
        lemma_same_prefix(a, b, k, n - 1);
    }
}

proof fn lemma_remove_other(s: Seq<SetModel>, i: int, k: KeyModel, n: int)
    requires
        0 <= i < n <= s.len(),
        s[i].key != k,
    ensures
        place_of(s.remove(i), k, n - 1) == match place_of(s, k, n) {
            Some(j) => Some(
                if j < i {
                    j
                } else {
                    j - 1
                },
            ),
            None => None,
        },
    decreases n,
{
    let r = s.remove(i);
    if n == i + 1 {
        lemma_same_prefix(r, s, k, i);
        lemma_place_of(s, k, i);
    } else {
        lemma_remove_other(s, i, k, n - 1);
        assert(r[n - 2] == s[n - 1]);
    }
}

/// A fragment changes nothing that is held of another datagram.
pub proof fn law_other_datagrams_untouched(s: State, k: KeyModel, f: FragModel, other: KeyModel)
    requires
        other != k,
    ensures
        s.added(k, f).0.find(other) is Some == s.find(other) is Some,
        s.find(other) is Some ==> s.added(k, f).0.held(other, f) == s.held(other, f),
{
    let n = s.pending.len() as int;
    lemma_place_of(s.pending, k, n);
    lemma_place_of(s.pending, other, n);
    let h = s.held(k, f).with(f);
    assert(h.key == k);
    match s.find(k) {
        Some(i) => {
            lemma_remove_other(s.pending, i, other, n);
            lemma_same_prefix(s.pending.update(i, h), s.pending, other, n);
        },
        None => {
            lemma_same_prefix(s.pending.push(h), s.pending, other, n);
        },
    }
}

/// What is held never exceeds the budget.
pub proof fn law_budget(s: State, k: KeyModel, f: FragModel)
    requires
        s.buffered() <= s.budget_bytes,
    ensures
        s.added(k, f).0.buffered() <= s.budget_bytes,
{
    let n = s.pending.len() as int;
    lemma_place_of(s.pending, k, n);
    let held = s.held(k, f);
    let h = held.with(f);
    assert(h.frags.drop_last() =~= held.frags);
    assert(bytes_in(h.frags) == bytes_in(held.frags) + f.data.len());
    assert(h.key == k);
    match s.find(k) {
        Some(i) => {
            lemma_total_remove(s.pending, i, n);
            let u = s.pending.update(i, h);
            lemma_total_remove(u, i, n);
            assert(u.remove(i) =~= s.pending.remove(i));
        },
        None => {
            lemma_total_prefix(s.pending.push(h), s.pending, n);
        },
    }
}

/// A completed datagram holds the bytes of each of its fragments.
pub proof fn law_complete_keeps_fragments(s: SetModel, i: int)
    requires
        s.wf(),
        s.complete(),
        0 <= i < s.frags.len(),
        s.frags[i].end() <= final_end(s.frags)->0,
        0 <= s.frags[i].offset,
    ensures
        assembled(pieces_of(s.frags), final_end(s.frags)->0).subrange(
            s.frags[i].offset,
            s.frags[i].end(),
        ) == s.frags[i].data,
{
    crate::cover::law_pieces_kept(pieces_of(s.frags), final_end(s.frags)->0, i);
}

/// How many bytes the first `n` fragments carry.
pub open spec fn carried_upto(fs: Seq<FragModel>, n: int) -> nat
    decreases n,
{
    if n <= 0 {
        0
    } else {
        carried_upto(fs, n - 1) + fs[n - 1].data.len()
    }
}

/// How many bytes the fragments of the first `n` sets carry.
pub open spec fn waiting_upto(s: Seq<SetModel>, n: int) -> nat
    decreases n,
{
    if n <= 0 {
        0
    } else {
        waiting_upto(s, n - 1) + carried_upto(s[n - 1].frags, s[n - 1].frags.len() as int)
    }
}

proof fn lemma_carried_prefix(a: Seq<FragModel>, b: Seq<FragModel>, n: int)
    requires
        0 <= n <= a.len(),
        n <= b.len(),
        forall|i: int| 0 <= i < n ==> #[trigger] a[i] == b[i],
    ensures
        carried_upto(a, n) == carried_upto(b, n),
    decreases n,
{
    if n > 0 {
        lemma_carried_prefix(a, b, n - 1);
        assert(a[n - 1] == b[n - 1]);
    }
}

proof fn lemma_carried(fs: Seq<FragModel>)
    ensures
        carried_upto(fs, fs.len() as int) == bytes_in(fs),
    decreases fs.len(),
{
    if fs.len() > 0 {
        lemma_carried(fs.drop_last());
        lemma_carried_prefix(fs, fs.drop_last(), fs.len() - 1);
    }
}

proof fn lemma_waiting(s: Seq<SetModel>, n: int)
    requires
        0 <= n <= s.len(),
    ensures
        waiting_upto(s, n) == total(s, n),
    decreases n,
{
    if n > 0 {
        lemma_waiting(s, n - 1);
        lemma_carried(s[n - 1].frags);
    }
}

/// The state after the first `n` of some fragments of one datagram.
pub open spec fn after_fragments(s: State, k: KeyModel, fs: Seq<FragModel>, n: int) -> State
    decreases n,
{
    if n <= 0 {
        s
    } else {
        after_fragments(s, k, fs, n - 1).added(k, fs[n - 1]).0
    }
}

/// Fragments that make up one datagram: the one that ends it says that no more follow,
/// and the others say that more do.
pub open spec fn one_datagram(fs: Seq<FragModel>, whole: Seq<u8>) -> bool {
    &&& make_up(
        Seq::new(fs.len(), |i: int| PieceModel { offset: fs[i].offset, data: fs[i].data }),
        whole,
    )
    &&& forall|i: int|
        0 <= i < fs.len() ==> (#[trigger] fs[i]).more == (fs[i].offset + fs[i].data.len()
            < whole.len())
}

proof fn lemma_final_end(fs: Seq<FragModel>, whole: Seq<u8>, n: int)
    requires
        one_datagram(fs, whole),
        0 <= n <= fs.len(),
    ensures
        final_end(fs.take(n)) is Some ==> final_end(fs.take(n)) == Some(whole.len() as int),
        n == fs.len() ==> final_end(fs.take(n)) is Some,
        final_end(fs.take(n)) is Some <==> exists|i: int| 0 <= i < n && !(#[trigger] fs[i]).more,
    decreases n,
{
    let v = Seq::new(fs.len(), |i: int| PieceModel { offset: fs[i].offset, data: fs[i].data });
    if n > 0 {
        lemma_final_end(fs, whole, n - 1);
        assert(fs.take(n).drop_last() =~= fs.take(n - 1));
        assert(fs.take(n).last() == fs[n - 1]);
        assert(v[n - 1].offset + v[n - 1].data.len() <= whole.len());
        if !fs[n - 1].more {
            assert(!fs[n - 1].more);
        }
        if final_end(fs.take(n - 1)) is Some {
            let i = choose|i: int| 0 <= i < n - 1 && !(#[trigger] fs[i]).more;
            assert(!fs[i].more);
        }
    }
    if n == fs.len() {
        assert(v[0].data.len() > 0);
        assert(crate::datagrams::reached(v, whole.len() - 1));
        let i = choose|i: int|
            0 <= i < v.len() && (#[trigger] v[i]).offset <= whole.len() - 1 < v[i].offset
                + v[i].data.len();
        assert(!fs[i].more);
    }
}

#[verifier::rlimit(60)]
#[verifier::spinoff_prover]
proof fn lemma_after_fragments(
    s: State,
    k: KeyModel,
    fs: Seq<FragModel>,
    whole: Seq<u8>,
    n: int,
)
    requires
        one_datagram(fs, whole),
        s.find(k) is None,
        whole.len() <= s.max_datagram,
        waiting_upto(s.pending, s.pending.len() as int) + carried_upto(fs, fs.len() as int)
            <= s.budget_bytes,
        0 <= n < fs.len(),
    ensures
        ({
            let t = after_fragments(s, k, fs, n);
            let d = t.held(k, fs[n]);
            let (u, r) = t.added(k, fs[n]);
            &&& t == (State { pending: t.pending, ..s })
            &&& n == 0 ==> t.pending == s.pending
            &&& n > 0 ==> t.pending == s.pending.push(d)
            &&& d.key == k
            &&& d.frags == fs.take(n)
            &&& n + 1 < fs.len() ==> r is Pending && u == (State {
                pending: s.pending.push(d.with(fs[n])),
                ..s
            })
            &&& n + 1 == fs.len() ==> r == ResultModel::Complete(whole) && u == s
        }),
    decreases n,
{
    let t = after_fragments(s, k, fs, n);
    let v = Seq::new(fs.len(), |i: int| PieceModel { offset: fs[i].offset, data: fs[i].data });
    let f = fs[n];
    let d = t.held(k, f);
    let l = s.pending.len() as int;
    if n > 0 {
        lemma_after_fragments(s, k, fs, whole, n - 1);
        let e = after_fragments(s, k, fs, n - 1).held(k, fs[n - 1]).with(fs[n - 1]);
        assert(t.pending == s.pending.push(e));
        assert(t.find(k) == Some(l));
        assert(d == e);
        assert(d.frags =~= fs.take(n));
    } else {
        assert(d.frags =~= fs.take(0));
    }
    let h = d.with(f);
    assert(h.frags =~= fs.take(n + 1));
    assert(pieces_of(d.frags) =~= v.take(n));
    assert(pieces_of(h.frags) =~= v.take(n + 1));
    assert(v[n].offset == f.offset && v[n].data == f.data);
    lemma_prefix(v, whole, n);
    lemma_prefix(v, whole, n + 1);
    lemma_final_end(fs, whole, n + 1);
    lemma_waiting(s.pending, l);
    lemma_carried(fs.take(n));
    lemma_carried_prefix(fs.take(n), fs, n);
    lemma_carried_grows(fs, n + 1, fs.len() as int);
    assert(carried_upto(fs, n + 1) == carried_upto(fs, n) + fs[n].data.len());
    assert(t.buffered() == s.buffered() + carried_upto(fs, n)) by {
        if n > 0 {
            lemma_total_prefix(t.pending, s.pending, l);
            assert(total(t.pending, l + 1) == total(t.pending, l) + bytes_in(t.pending[l].frags));
        }
    }
    if n > 0 {
        assert(t.pending.update(l, h) =~= s.pending.push(h));
        assert(t.pending.remove(l) =~= s.pending);
    }
}

proof fn lemma_carried_grows(fs: Seq<FragModel>, a: int, b: int)
    requires
        0 <= a <= b <= fs.len(),
    ensures
        carried_upto(fs, a) <= carried_upto(fs, b),
    decreases b - a,
{
    if a < b {
        lemma_carried_grows(fs, a, b - 1);
    }
}

/// Fragments that make up a datagram complete it, in whatever order they come: each but
/// the last waits, and the last yields the datagram, byte for byte, and leaves nothing of
/// it behind.
pub proof fn law_fragments_complete_in_any_order(
    s: State,
    k: KeyModel,
    fs: Seq<FragModel>,
    whole: Seq<u8>,
    n: int,
)
    requires
        one_datagram(fs, whole),
        s.find(k) is None,
        whole.len() <= s.max_datagram,
        waiting_upto(s.pending, s.pending.len() as int) + carried_upto(fs, fs.len() as int)
            <= s.budget_bytes,
        0 <= n < fs.len(),
    ensures
        n + 1 < fs.len() ==> after_fragments(s, k, fs, n).added(k, fs[n]).1 is Pending,
        n + 1 == fs.len() ==> after_fragments(s, k, fs, n).added(k, fs[n]) == (
            s,
            ResultModel::Complete(whole),
        ),
{
    lemma_after_fragments(s, k, fs, whole, n);
}

/// What is completed is made of fragments that came, without a hole; what waits is all
/// that came; and a datagram is set aside only where it would take more than the budget,
/// is too long, or brings an offset again.
pub proof fn law_completed_is_what_came(s: State, k: KeyModel, f: FragModel)
    requires
        s.wf(),
        0 <= f.offset,
    ensures
        ({
            let (u, r) = s.added(k, f);
            let old = s.held(k, f).frags;
            let ps = pieces_of(old).push(PieceModel { offset: f.offset, data: f.data });
            match r {
                ResultModel::Complete(b) => made_of(b, ps) && (!f.more ==> b.len() == f.offset
                    + f.data.len()),
                ResultModel::Pending => u.find(k) is Some && u.held(k, f).frags == old.push(f),
                ResultModel::Isolated(_) => f.data.len() + waiting_upto(
                    s.pending,
                    s.pending.len() as int,
                ) > s.budget_bytes || f.offset + f.data.len() > s.max_datagram || any_meets(
                    pieces_of(old),
                    f.offset,
                    f.offset + f.data.len(),
                ),
            }
        }),
{
    let d = s.held(k, f);
    let h = d.with(f);
    lemma_place_of(s.pending, k, s.pending.len() as int);
    lemma_waiting(s.pending, s.pending.len() as int);
    let old = d.frags;
    let ps = pieces_of(old).push(PieceModel { offset: f.offset, data: f.data });
    assert(pieces_of(h.frags) =~= ps);
    if s.added(k, f).1 is Complete {
        assert forall|i: int| 0 <= i < h.frags.len() implies (#[trigger] h.frags[i]).offset >= 0 by {
            if i < old.len() {
                assert(h.frags[i] == old[i]);
                assert(pieces_of(old)[i].offset >= 0);
            }
        }
        lemma_final_end_held(h.frags);
        lemma_made(ps, final_end(h.frags)->0);
        assert(h.frags.last() == f);
    }
    if s.added(k, f).1 is Pending {
        match s.find(k) {
            Some(i) => {
                let v = s.pending.update(i, h);
                lemma_same_prefix(v, s.pending, k, s.pending.len() as int);
            },
            None => {},
        }
    }
}

proof fn lemma_final_end_held(fs: Seq<FragModel>)
    requires
        final_end(fs) is Some,
        forall|i: int| 0 <= i < fs.len() ==> (#[trigger] fs[i]).offset >= 0,
    ensures
        final_end(fs)->0 >= 0,
    decreases fs.len(),
{
    if fs.len() > 0 {
        assert(fs[fs.len() - 1].offset >= 0);
        if fs.last().more {
            let t = fs.drop_last();
            assert forall|i: int| 0 <= i < t.len() implies (#[trigger] t[i]).offset >= 0 by {
                assert(t[i] == fs[i]);
            }
            lemma_final_end_held(t);
        }
    }
}

} // verus!
