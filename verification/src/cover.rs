//! Pieces of a byte string at given offsets: overlap, coverage, assembly.

use vstd::prelude::*;

verus! {

/// A piece of a byte string.
pub struct Piece {
    pub offset: usize,
    pub data: Vec<u8>,
}

/// What a piece is.
pub struct PieceModel {
    pub offset: int,
    pub data: Seq<u8>,
}

impl PieceModel {
    /// One past the last offset of the piece.
    pub open spec fn end(self) -> int {
        self.offset + self.data.len()
    }

    /// The piece meets `a..b`.
    pub open spec fn meets(self, a: int, b: int) -> bool {
        a < self.end() && self.offset < b
    }

    /// The piece holds offset `x`.
    pub open spec fn holds(self, x: int) -> bool {
        self.offset <= x < self.end()
    }
}

impl View for Piece {
    type V = PieceModel;

    open spec fn view(&self) -> PieceModel {
        PieceModel { offset: self.offset as int, data: self.data@ }
    }
}

/// The models of a list of pieces.
pub open spec fn models(v: Seq<Piece>) -> Seq<PieceModel> {
    Seq::new(v.len(), |i: int| v[i]@)
}

/// Every piece ends at an offset that fits.
pub open spec fn bounded(ps: Seq<PieceModel>) -> bool {
    forall|i: int| 0 <= i < ps.len() ==> (#[trigger] ps[i]).end() <= usize::MAX && ps[i].offset >= 0
}

/// Some piece meets `a..b`.
pub open spec fn any_meets(ps: Seq<PieceModel>, a: int, b: int) -> bool {
    exists|i: int| 0 <= i < ps.len() && (#[trigger] ps[i]).meets(a, b)
}

/// No two pieces meet.
pub open spec fn disjoint(ps: Seq<PieceModel>) -> bool {
    forall|i: int, j: int|
        0 <= i < j < ps.len() ==> !(#[trigger] ps[i]).meets(
            (#[trigger] ps[j]).offset,
            ps[j].end(),
        )
}

/// Some piece holds offset `x`.
pub open spec fn held(ps: Seq<PieceModel>, x: int) -> bool {
    exists|i: int| 0 <= i < ps.len() && (#[trigger] ps[i]).holds(x)
}

/// Every offset below `total` is held.
pub open spec fn covers(ps: Seq<PieceModel>, total: int) -> bool {
    forall|x: int| 0 <= x < total ==> #[trigger] held(ps, x)
}

/// The greatest end of a piece, 0 where there is none.
pub open spec fn max_end(ps: Seq<PieceModel>) -> int
    decreases ps.len(),
{
    if ps.len() == 0 {
        0
    } else {
        let m = max_end(ps.drop_last());
        if ps.last().end() > m {
            ps.last().end()
        } else {
            m
        }
    }
}

/// The byte at `x`: that of the last piece that holds it, else 0.
pub open spec fn byte_at(ps: Seq<PieceModel>, x: int) -> u8
    decreases ps.len(),
{
    if ps.len() == 0 {
        0
    } else if ps.last().holds(x) {
        ps.last().data[x - ps.last().offset]
    } else {
        byte_at(ps.drop_last(), x)
    }
}

/// The first `total` bytes that the pieces make up.
pub open spec fn assembled(ps: Seq<PieceModel>, total: int) -> Seq<u8> {
    Seq::new(total as nat, |x: int| byte_at(ps, x))
}

pub proof fn lemma_max_end(ps: Seq<PieceModel>)
    ensures
        forall|i: int| 0 <= i < ps.len() ==> (#[trigger] ps[i]).end() <= max_end(ps),
        max_end(ps) >= 0,
        max_end(ps) > 0 ==> exists|i: int| 0 <= i < ps.len() && (#[trigger] ps[i]).end() == max_end(ps),
    decreases ps.len(),
{
    if ps.len() > 0 {
        let t = ps.drop_last();
        lemma_max_end(t);
        assert forall|i: int| 0 <= i < ps.len() implies (#[trigger] ps[i]).end() <= max_end(ps) by {
            if i < t.len() {
                assert(t[i] == ps[i]);
            }
        }
        if max_end(ps) > 0 {
            if ps.last().end() == max_end(ps) {
                assert(ps[ps.len() - 1].end() == max_end(ps));
            } else {
                let i = choose|i: int| 0 <= i < t.len() && (#[trigger] t[i]).end() == max_end(t);
                assert(ps[i].end() == max_end(ps));
            }
        }
    }
}

/// Whether a piece meets `a..b`.
pub fn meets_any(ps: &Vec<Piece>, a: usize, b: usize) -> (r: bool)
    requires
        bounded(models(ps@)),
    ensures
        r == any_meets(models(ps@), a as int, b as int),
{
    let ghost ms = models(ps@);
    let mut i: usize = 0;
    while i < ps.len()
        invariant
            i <= ps@.len(),
            ms == models(ps@),
            bounded(ms),
            forall|j: int| 0 <= j < i ==> !(#[trigger] ms[j]).meets(a as int, b as int),
        decreases ps@.len() - i,
    {
        assert(ms[i as int] == ps@[i as int]@);
        let end: usize = ps[i].offset + ps[i].data.len();
        if a < end && ps[i].offset < b {
            assert(ms[i as int].meets(a as int, b as int));
            return true;
        }
        i += 1;
    }
    false
}

/// The greatest end of a piece.
pub fn greatest_end(ps: &Vec<Piece>) -> (r: usize)
    requires
        bounded(models(ps@)),
    ensures
        r == max_end(models(ps@)),
{
    let ghost ms = models(ps@);
    let mut m: usize = 0;
    let mut i: usize = 0;
    assert(ms.take(0) =~= seq![]);
    while i < ps.len()
        invariant
            i <= ps@.len(),
            ms == models(ps@),
            bounded(ms),
            m == max_end(ms.take(i as int)),
        decreases ps@.len() - i,
    {
        assert(ms[i as int] == ps@[i as int]@);
        assert(ms.take(i + 1).drop_last() =~= ms.take(i as int));
        let end: usize = ps[i].offset + ps[i].data.len();
        if end > m {
            m = end;
        }
        i += 1;
    }
    assert(ms.take(i as int) =~= ms);
    m
}

/// The first `total` bytes that the pieces make up.
pub fn assemble(ps: &Vec<Piece>, total: usize) -> (r: Vec<u8>)
    requires
        bounded(models(ps@)),
    ensures
        r@ == assembled(models(ps@), total as int),
{
    let ghost ms = models(ps@);
    let mut out: Vec<u8> = Vec::new();
    let mut z: usize = 0;
    while z < total
        invariant
            z <= total,
            out@ == Seq::new(z as nat, |x: int| 0u8),
        decreases total - z,
    {
        out.push(0);
        z += 1;
        assert(out@ =~= Seq::new(z as nat, |x: int| 0u8));
    }
    assert(ms.take(0) =~= seq![]);
    assert(out@ =~= assembled(ms.take(0), total as int));
    let mut i: usize = 0;
    while i < ps.len()
        invariant
            i <= ps@.len(),
            ms == models(ps@),
            bounded(ms),
            out@ == assembled(ms.take(i as int), total as int),
        decreases ps@.len() - i,
    {
        let ghost before = out@;
        let p = &ps[i];
        assert(ms[i as int] == p@);
        assert(p@.end() <= usize::MAX);
        let n: usize = p.data.len();
        let mut j: usize = 0;
        while j < n && p.offset + j < total
            invariant
                j <= n,
                n == p.data@.len(),
                p.offset + n <= usize::MAX,
                out@.len() == total,
                before.len() == total,
                forall|x: int|
                    0 <= x < total ==> out@[x] == (if p.offset <= x < p.offset + j {
                        p.data@[x - p.offset]
                    } else {
                        before[x]
                    }),
            decreases n - j,
        {
            out.set(p.offset + j, p.data[j]);
            j += 1;
        }
        proof {
            let t = ms.take(i + 1);
            assert(t.drop_last() =~= ms.take(i as int));
            assert(t.last() == p@);
            assert(out@ =~= assembled(t, total as int));
        }
        i += 1;
    }
    assert(ms.take(i as int) =~= ms);
    out
}

/// Whether every offset below `total` is held.
pub fn covers_all(ps: &Vec<Piece>, total: usize) -> (r: bool)
    requires
        bounded(models(ps@)),
    ensures
        r == covers(models(ps@), total as int),
{
    let ghost ms = models(ps@);
    let mut marks: Vec<bool> = Vec::new();
    let mut z: usize = 0;
    while z < total
        invariant
            z <= total,
            marks@.len() == z,
            forall|x: int| 0 <= x < z ==> !marks@[x],
        decreases total - z,
    {
        marks.push(false);
        z += 1;
    }
    let mut i: usize = 0;
    while i < ps.len()
        invariant
            i <= ps@.len(),
            ms == models(ps@),
            bounded(ms),
            marks@.len() == total,
            forall|x: int| 0 <= x < total ==> marks@[x] == #[trigger] held(ms.take(i as int), x),
        decreases ps@.len() - i,
    {
        let ghost before = marks@;
        let p = &ps[i];
        assert(ms[i as int] == p@);
        let end: usize = p.offset + p.data.len();
        let stop: usize = if end < total {
            end
        } else {
            total
        };
        let mut x: usize = p.offset;
        while x < stop
            invariant
                p.offset <= x,
                x <= stop || x == p.offset,
                stop <= total,
                stop <= end,
                marks@.len() == total,
                before.len() == total,
                forall|y: int|
                    0 <= y < total ==> marks@[y] == (before[y] || p.offset <= y < x),
            decreases stop - x,
        {
            marks.set(x, true);
            x += 1;
        }
        proof {
            let s = ms.take(i as int);
            let t = ms.take(i + 1);
            assert forall|y: int| 0 <= y < total implies marks@[y] == #[trigger] held(t, y) by {
                assert(marks@[y] == (before[y] || p@.holds(y)));
                assert(before[y] == held(s, y));
                if held(s, y) {
                    let k = choose|k: int| 0 <= k < s.len() && (#[trigger] s[k]).holds(y);
                    assert(t[k] == s[k]);
                }
                if p@.holds(y) {
                    assert(t[i as int] == p@);
                }
                if held(t, y) {
                    let k = choose|k: int| 0 <= k < t.len() && (#[trigger] t[k]).holds(y);
                    if k < i {
                        assert(s[k] == t[k]);
                    }
                }
            }
        }
        i += 1;
    }
    assert(ms.take(i as int) =~= ms);
    let mut y: usize = 0;
    while y < total
        invariant
            y <= total,
            ms == models(ps@),
            marks@.len() == total,
            forall|x: int| 0 <= x < total ==> marks@[x] == #[trigger] held(ms, x),
            forall|x: int| 0 <= x < y ==> #[trigger] held(ms, x),
        decreases total - y,
    {
        if !marks[y] {
            assert(!held(ms, y as int));
            return false;
        }
        assert(held(ms, y as int));
        y += 1;
    }
    true
}

/// Where no two pieces meet, the assembled bytes hold every piece as it came.
pub proof fn law_pieces_kept(ps: Seq<PieceModel>, total: int, i: int)
    requires
        disjoint(ps),
        0 <= i < ps.len(),
        0 <= ps[i].offset,
        ps[i].end() <= total,
    ensures
        assembled(ps, total).subrange(ps[i].offset, ps[i].end()) == ps[i].data,
{
    let s = assembled(ps, total).subrange(ps[i].offset, ps[i].end());
    assert forall|k: int| 0 <= k < ps[i].data.len() implies s[k] == ps[i].data[k] by {
        lemma_byte_of_piece(ps, i, ps[i].offset + k);
    }
    assert(s =~= ps[i].data);
}

proof fn lemma_byte_of_piece(ps: Seq<PieceModel>, i: int, x: int)
    requires
        disjoint(ps),
        0 <= i < ps.len(),
        ps[i].holds(x),
    ensures
        byte_at(ps, x) == ps[i].data[x - ps[i].offset],
    decreases ps.len(),
{
    if i < ps.len() - 1 {
        assert(!ps[i].meets(ps[ps.len() - 1].offset, ps[ps.len() - 1].end()));
        assert(!ps.last().holds(x));
        let t = ps.drop_last();
        assert forall|a: int, b: int| 0 <= a < b < t.len() implies !(#[trigger] t[a]).meets(
            (#[trigger] t[b]).offset,
            t[b].end(),
        ) by {
            assert(t[a] == ps[a] && t[b] == ps[b]);
        }
        lemma_byte_of_piece(t, i, x);
    }
}

} // verus!
