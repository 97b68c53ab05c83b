//! The band of sentence pairs that may gather evidence in a cycle.
use std::collections::{HashMap, HashSet};
use vstd::prelude::*;

use crate::sentence_alignment_table::SentenceAlignmentTable;
use crate::{crosses, Coordinates, X, Y};

verus! {

broadcast use vstd::std_specs::hash::group_hash_axioms;

/// Texts of up to this many sentences keep the band's arithmetic within `u128`.
pub const MAX_SENTENCES: u64 = 0x7fff_ffff;

/// The integer square root of `n`, rounded down.
pub open spec fn sqrt_floor(n: nat) -> nat {
    choose|r: nat| #[trigger] (r * r) <= n && n < (r + 1) * (r + 1)
}

/// Width of the band, `max(1, floor(sqrt(inner) * (1 - taper)))`, at step `k`
/// of `outer`, with `1 - taper = (outer - |outer - 2k|) / outer`.
pub open spec fn band_width(inner: int, outer: int, k: int) -> int {
    let p = if 2 * k <= outer {
        2 * k
    } else {
        2 * outer - 2 * k
    };
    let w = sqrt_floor((inner * p * p) as nat) as int / outer;
    if w < 1 {
        1
    } else {
        w
    }
}

/// First inner position of the band at step `k`: `floor(center - width / 2)`
/// with `center = start + k * inner / outer`, not below `start`.
pub open spec fn row_lo(start: int, inner: int, outer: int, k: int) -> int {
    let w = band_width(inner, outer, k);
    if 2 * k * inner >= w * outer {
        start + (2 * k * inner - w * outer) / (2 * outer)
    } else {
        start
    }
}

/// Last inner position of the band at step `k`: `floor(center + width / 2)`,
/// not beyond `stop`.
pub open spec fn row_hi(start: int, stop: int, inner: int, outer: int, k: int) -> int {
    let w = band_width(inner, outer, k);
    let v = start + (2 * k * inner + w * outer) / (2 * outer);
    if v < stop {
        v
    } else {
        stop
    }
}

/// The outer and inner positions of `c`; the outer axis is `y` when `outer_y`.
pub open spec fn split(outer_y: bool, c: (usize, usize)) -> (int, int) {
    if outer_y {
        (c.1 as int, c.0 as int)
    } else {
        (c.0 as int, c.1 as int)
    }
}

/// `c` lies in the band that steps the outer axis from `so` to `eo` and the
/// inner axis from `si` to `ei`.
pub open spec fn in_rows(so: int, eo: int, si: int, ei: int, outer_y: bool, c: (usize, usize)) -> bool {
    let (o, i) = split(outer_y, c);
    &&& so <= o <= eo
    &&& row_lo(si, ei - si, eo - so, o - so) <= i
    &&& i <= row_hi(si, ei, ei - si, eo - so, o - so)
}

/// The lens-shaped corridor between the anchors `s` and `e`. The outer axis is
/// `y` where the segment is wider than tall, else `x`; a segment with no outer
/// extent is the single pair `s`.
pub open spec fn in_band(s: (usize, usize), e: (usize, usize), c: (usize, usize)) -> bool {
    let dx = e.0 - s.0;
    let dy = e.1 - s.1;
    if dx > dy {
        if dy == 0 {
            c == s
        } else {
            in_rows(s.1 as int, e.1 as int, s.0 as int, e.0 as int, true, c)
        }
    } else {
        if dx == 0 {
            c == s
        } else {
            in_rows(s.0 as int, e.0 as int, s.1 as int, e.1 as int, false, c)
        }
    }
}

pub open spec fn band(s: (usize, usize), e: (usize, usize)) -> Set<(usize, usize)> {
    Set::new(|c: (usize, usize)| in_band(s, e, c))
}

/// The bands of the consecutive anchors of `sat` from `start` on, following
/// at most `fuel` segments.
pub open spec fn region_from(sat: SentenceAlignmentTable, start: (usize, usize), fuel: nat) -> Set<
    (usize, usize),
>
    decreases fuel,
{
    if fuel == 0 {
        Set::empty()
    } else {
        let n = sat.next_key(start);
        if n == start {
            Set::empty()
        } else {
            band(start, n).union(region_from(sat, n, (fuel - 1) as nat))
        }
    }
}

/// The region of `sat`: the bands between consecutive anchors, from the origin
/// to the end of the table.
pub open spec fn region_of(sat: SentenceAlignmentTable) -> Set<(usize, usize)> {
    region_from(sat, (0, 0), (sat.end_key().0 + sat.end_key().1 + 1) as nat)
}

/// A band lies within the box of its two ends.
pub proof fn lemma_band_within(s: (usize, usize), e: (usize, usize), c: (usize, usize))
    requires
        s.0 <= e.0,
        s.1 <= e.1,
        in_band(s, e, c),
    ensures
        s.0 <= c.0 <= e.0,
        s.1 <= c.1 <= e.1,
{
}

proof fn lemma_sqrt_unique(n: nat, r: nat)
    requires
        r * r <= n < (r + 1) * (r + 1),
    ensures
        sqrt_floor(n) == r,
{
    let c = sqrt_floor(n);
    assert(c * c <= n < (c + 1) * (c + 1));
    if c < r {
        assert((c + 1) * (c + 1) <= r * r) by (nonlinear_arith)
            requires
                c + 1 <= r,
        ;
    } else if c > r {
        assert((r + 1) * (r + 1) <= c * c) by (nonlinear_arith)
            requires
                r + 1 <= c,
        ;
    }
}

/// The integer square root of `n`, by bisection.
fn isqrt(n: u128) -> (r: u128)
    ensures
        r * r <= n < (r + 1) * (r + 1),
        r == sqrt_floor(n as nat),
{
    let mut lo: u128 = 0;
    let mut hi: u128 = 0x1_0000_0000_0000_0000;
    assert(n < hi * hi) by (nonlinear_arith)
        requires
            hi == 0x1_0000_0000_0000_0000u128,
            n <= u128::MAX,
    ;
    while hi - lo > 1
        invariant
            lo < hi <= 0x1_0000_0000_0000_0000u128,
            lo * lo <= n,
            n < hi * hi,
        decreases hi - lo,
    {
        let mid = lo + (hi - lo) / 2;
        assert(mid * mid <= 0xffff_ffff_ffff_ffffu128 * 0xffff_ffff_ffff_ffffu128) by (nonlinear_arith)
            requires
                mid <= 0xffff_ffff_ffff_ffffu128,
        ;
        if mid * mid <= n {
            lo = mid;
        } else {
            hi = mid;
        }
    }
    proof {
        lemma_sqrt_unique(n as nat, lo as nat);
    }
    lo
}

/// A set of sentence pairs, kept with the order in which they were added.
pub struct AlignableSentenceTable {
    rows: HashMap<usize, HashSet<usize>>,
    cells: Vec<Coordinates>,
}

impl View for AlignableSentenceTable {
    type V = Set<(usize, usize)>;

    closed spec fn view(&self) -> Set<(usize, usize)> {
        Set::new(
            |k: (usize, usize)| self.rows@.contains_key(k.0) && self.rows@[k.0]@.contains(k.1),
        )
    }
}

impl AlignableSentenceTable {
    pub closed spec fn wf(&self) -> bool {
        &&& forall|i: int| 0 <= i < self.cells@.len() ==> self@.contains(#[trigger] self.cells@[i].key())
        &&& forall|i: int, j: int|
            0 <= i < j < self.cells@.len() ==> #[trigger] self.cells@[i].key()
                != #[trigger] self.cells@[j].key()
        &&& forall|k: (usize, usize)|
            #[trigger] self@.contains(k) ==> exists|i: int|
                0 <= i < self.cells@.len() && #[trigger] self.cells@[i].key() == k
    }

    /// The empty set.
    pub fn new() -> (r: Self)
        ensures
            r.wf(),
            r@ == Set::<(usize, usize)>::empty(),
    {
        let r = AlignableSentenceTable { rows: HashMap::new(), cells: Vec::new() };
        assert(r@ =~= Set::<(usize, usize)>::empty());
        r
    }

    pub fn contains(&self, c: Coordinates) -> (r: bool)
        ensures
            r == self@.contains(c.key()),
    {
        match self.rows.get(&c.0.0) {
            Some(ys) => ys.contains(&c.1.0),
            None => false,
        }
    }

    pub fn insert(&mut self, c: Coordinates)
        requires
            old(self).wf(),
        ensures
            final(self).wf(),
            final(self)@ == old(self)@.insert(c.key()),
    {
        if self.contains(c) {
            assert(self@ =~= self@.insert(c.key()));
            return;
        }
        let ghost before = *self;
        let mut ys = match self.rows.remove(&c.0.0) {
            Some(ys) => ys,
            None => HashSet::new(),
        };
        ys.insert(c.1.0);
        self.rows.insert(c.0.0, ys);
        self.cells.push(c);
        proof {
            assert(self@ =~= before@.insert(c.key()));
            let n = before.cells@.len() as int;
            assert(self.cells@[n] == c);
            assert forall|i: int| 0 <= i < self.cells@.len() implies self@.contains(
                #[trigger] self.cells@[i].key(),
            ) by {
                if i < n {
                    assert(self.cells@[i] == before.cells@[i]);
                }
            }
            assert forall|i: int, j: int|
                0 <= i < j < self.cells@.len() implies #[trigger] self.cells@[i].key()
                != #[trigger] self.cells@[j].key() by {
                if j == n {
                    assert(self.cells@[i] == before.cells@[i]);
                    assert(before@.contains(before.cells@[i].key()));
                }
            }
            assert forall|k: (usize, usize)| #[trigger] self@.contains(k) implies exists|i: int|
                0 <= i < self.cells@.len() && #[trigger] self.cells@[i].key() == k by {
                if k == c.key() {
                    assert(self.cells@[n].key() == k);
                } else {
                    let i = choose|i: int|
                        0 <= i < before.cells@.len() && #[trigger] before.cells@[i].key() == k;
                    assert(self.cells@[i] == before.cells@[i]);
                }
            }
        }
    }

    /// The pairs of the band `in_rows(so, eo, si, ei, outer_y, _)` whose outer
    /// position is before `o`, or is `o` with an inner position before `i`.
    pub open spec fn rows_before(
        so: int,
        eo: int,
        si: int,
        ei: int,
        outer_y: bool,
        o: int,
        i: int,
    ) -> Set<(usize, usize)> {
        Set::new(
            |c: (usize, usize)|
                in_rows(so, eo, si, ei, outer_y, c) && (split(outer_y, c).0 < o || (split(
                    outer_y,
                    c,
                ).0 == o && split(outer_y, c).1 < i)),
        )
    }

    /// Adds the band that steps the outer axis from `so` to `eo`, the inner
    /// axis from `si` to `ei`.
    fn fill_rows(&mut self, so: usize, eo: usize, si: usize, ei: usize, outer_y: bool)
        requires
            old(self).wf(),
            so < eo,
            si <= ei,
            eo < MAX_SENTENCES,
            ei < MAX_SENTENCES,
        ensures
            final(self).wf(),
            final(self)@ == old(self)@.union(
                Set::new(|c: (usize, usize)| in_rows(so as int, eo as int, si as int, ei as int, outer_y, c)),
            ),
    {
        let ghost (gso, geo, gsi, gei) = (so as int, eo as int, si as int, ei as int);
        let ghost start = self@;
        let outer: u128 = (eo - so) as u128;
        let inner: u128 = (ei - si) as u128;
        let mut o: usize = so;
        assert(Self::rows_before(gso, geo, gsi, gei, outer_y, o as int, 0) =~= Set::empty());
        assert(self@ =~= start.union(Self::rows_before(gso, geo, gsi, gei, outer_y, o as int, 0)));
        while o <= eo
            invariant
                self.wf(),
                so <= o <= eo + 1,
                outer == eo - so,
                inner == ei - si,
                gso == so,
                geo == eo,
                gsi == si,
                gei == ei,
                so < eo,
                si <= ei,
                eo < MAX_SENTENCES,
                ei < MAX_SENTENCES,
                self@ == start.union(Self::rows_before(gso, geo, gsi, gei, outer_y, o as int, 0)),
            decreases eo + 1 - o,
        {
            let k: u128 = (o - so) as u128;
            let p: u128 = if 2 * k <= outer {
                2 * k
            } else {
                2 * outer - 2 * k
            };
            assert(p <= outer);
            assert(inner * p * p < 0x1_0000_0000_0000_0000_0000_0000u128) by (nonlinear_arith)
                requires
                    inner < 0x1_0000_0000u128,
                    p < 0x1_0000_0000u128,
            ;
            assert(inner * p < 0x1_0000_0000_0000_0000u128) by (nonlinear_arith)
                requires
                    inner < 0x1_0000_0000u128,
                    p < 0x1_0000_0000u128,
            ;
            let sq = isqrt(inner * p * p);
            assert(sq < 0x1_0000_0000_0000u128) by (nonlinear_arith)
                requires
                    sq * sq < 0x1_0000_0000_0000_0000_0000_0000u128,
            ;
            let mut w: u128 = sq / outer;
            if w < 1 {
                w = 1;
            }
            assert(w as int == band_width(inner as int, outer as int, k as int));
            assert(w * outer < 0x1_0000_0000_0000_0000_0000u128) by (nonlinear_arith)
                requires
                    w < 0x1_0000_0000_0000u128,
                    outer < 0x1_0000_0000u128,
            ;
            assert(2 * k * inner < 0x1_0000_0000_0000_0000_0000u128) by (nonlinear_arith)
                requires
                    k < 0x1_0000_0000u128,
                    inner < 0x1_0000_0000u128,
            ;
            let a: u128 = 2 * k * inner;
            let b: u128 = w * outer;
            let lo: u128 = if a >= b {
                si as u128 + (a - b) / (2 * outer)
            } else {
                si as u128
            };
            let v: u128 = si as u128 + (a + b) / (2 * outer);
            let hi: u128 = if v < ei as u128 {
                v
            } else {
                ei as u128
            };
            assert(k as int == o - gso);
            assert(inner as int == gei - gsi);
            assert(outer as int == geo - gso);
            assert(a as int == 2 * (k as int) * (inner as int));
            assert(b as int == (w as int) * (outer as int));
            assert(lo as int == row_lo(gsi, gei - gsi, geo - gso, o - gso));
            assert(hi as int == row_hi(gsi, gei, gei - gsi, geo - gso, o - gso));
            let mut i: u128 = lo;
            while i <= hi
                invariant
                    self.wf(),
                    so <= o <= eo,
                    gso == so,
                    geo == eo,
                    gsi == si,
                    gei == ei,
                    lo <= i,
                    i <= hi + 1 || i == lo,
                    hi <= ei,
                    ei < MAX_SENTENCES,
                    lo as int == row_lo(gsi, gei - gsi, geo - gso, o - gso),
                    hi as int == row_hi(gsi, gei, gei - gsi, geo - gso, o - gso),
                    self@ == start.union(
                        Self::rows_before(gso, geo, gsi, gei, outer_y, o as int, i as int),
                    ),
                decreases hi + 1 - i,
            {
                let c = if outer_y {
                    Coordinates(X(i as usize), Y(o))
                } else {
                    Coordinates(X(o), Y(i as usize))
                };
                let ghost before = self@;
                self.insert(c);
                assert(split(outer_y, c.key()) == (o as int, i as int));
                assert(in_rows(gso, geo, gsi, gei, outer_y, c.key()));
                assert(Self::rows_before(gso, geo, gsi, gei, outer_y, o as int, i + 1)
                    =~= Self::rows_before(gso, geo, gsi, gei, outer_y, o as int, i as int).insert(
                    c.key(),
                ));
                assert(self@ =~= start.union(
                    Self::rows_before(gso, geo, gsi, gei, outer_y, o as int, i + 1),
                ));
                i += 1;
            }
            assert(Self::rows_before(gso, geo, gsi, gei, outer_y, o as int, i as int)
                =~= Self::rows_before(gso, geo, gsi, gei, outer_y, o + 1, 0));
            o += 1;
        }
        assert(Self::rows_before(gso, geo, gsi, gei, outer_y, o as int, 0) =~= Set::new(
            |c: (usize, usize)| in_rows(gso, geo, gsi, gei, outer_y, c),
        ));
    }

    /// Adds the band between the anchors `s` and `e`.
    fn fill_band(&mut self, s: Coordinates, e: Coordinates)
        requires
            old(self).wf(),
            s.0.0 <= e.0.0,
            s.1.0 <= e.1.0,
            e.0.0 < MAX_SENTENCES,
            e.1.0 < MAX_SENTENCES,
        ensures
            final(self).wf(),
            final(self)@ == old(self)@.union(band(s.key(), e.key())),
    {
        let dx = e.0.0 - s.0.0;
        let dy = e.1.0 - s.1.0;
        if (dx > dy && dy == 0) || (dx <= dy && dx == 0) {
            self.insert(s);
            assert(band(s.key(), e.key()) =~= set![s.key()]);
            assert(old(self)@.insert(s.key()) =~= old(self)@.union(set![s.key()]));
        } else if dx > dy {
            self.fill_rows(s.1.0, e.1.0, s.0.0, e.0.0, true);
            assert(band(s.key(), e.key()) =~= Set::new(
                |c: (usize, usize)| in_rows(s.1.0 as int, e.1.0 as int, s.0.0 as int, e.0.0 as int, true, c),
            ));
        } else {
            self.fill_rows(s.0.0, e.0.0, s.1.0, e.1.0, false);
            assert(band(s.key(), e.key()) =~= Set::new(
                |c: (usize, usize)| in_rows(s.0.0 as int, e.0.0 as int, s.1.0 as int, e.1.0 as int, false, c),
            ));
        }
    }

    /// The region of `sat`: the bands between consecutive anchors, walked from
    /// the origin with `next_anchor` until the end of the table.
    #[verifier::rlimit(60)]
    pub fn from(sat: &SentenceAlignmentTable) -> (r: Self)
        requires
            sat.wf(),
            sat.monotone(),
            sat.end_key().0 < MAX_SENTENCES,
            sat.end_key().1 < MAX_SENTENCES,
        ensures
            r.wf(),
            r@ == region_of(*sat),
            forall|k: (usize, usize)| r@.contains(k) ==> sat.in_bounds(k),
    {
        let mut ast = Self::new();
        let mut start = sat.next_anchor(None);
        let mut end = sat.next_anchor(Some(start));
        let ghost last = sat.end_key();
        let ghost mut fuel: nat = (last.0 + last.1 + 1) as nat;
        assert(ast@.union(region_from(*sat, start.key(), fuel)) =~= region_of(*sat));
        while start != end
            invariant
                sat.wf(),
                ast.wf(),
                last == sat.end_key(),
                last.0 < MAX_SENTENCES,
                last.1 < MAX_SENTENCES,
                start.0.0 <= last.0 && start.1.0 <= last.1,
                end.key() == sat.next_key(start.key()),
                sat.follows(start.key(), end.key()) || end.key() == last,
                sat.monotone(),
                start.key() == (0usize, 0usize) || sat.is_anchor(start.key()) || start.key() == last,
                fuel >= last.0 + last.1 - start.0.0 - start.1.0 + 1,
                ast@.union(region_from(*sat, start.key(), fuel)) == region_of(*sat),
                forall|k: (usize, usize)| ast@.contains(k) ==> sat.in_bounds(k),
            decreases last.0 + last.1 - start.0.0 - start.1.0,
        {
            proof {
                if start.key() == last && sat.follows(start.key(), end.key()) {
                    assert(false);
                }
                if sat.follows(start.key(), end.key()) && start.key() != (0usize, 0usize) {
                    assert(sat.is_anchor(start.key()) && sat.is_anchor(end.key()));
                    assert(!crosses(start.key(), end.key()));
                }
                assert(start.0.0 <= end.0.0 && start.1.0 <= end.1.0);
            }
            let ghost before = ast@;
            ast.fill_band(start, end);
            proof {
                assert(region_from(*sat, start.key(), fuel) == band(start.key(), end.key()).union(
                    region_from(*sat, end.key(), (fuel - 1) as nat),
                ));
                assert(ast@.union(region_from(*sat, end.key(), (fuel - 1) as nat)) =~= region_of(
                    *sat,
                ));
                fuel = (fuel - 1) as nat;
                assert forall|k: (usize, usize)| ast@.contains(k) implies sat.in_bounds(k) by {
                    if !before.contains(k) {
                        lemma_band_within(start.key(), end.key(), k);
                    }
                }
            }
            start = end;
            end = sat.next_anchor(Some(start));
        }
        proof {
            assert(start.key() == end.key());
            assert(region_from(*sat, start.key(), fuel) =~= Set::empty());
            assert(ast@ =~= region_of(*sat));
        }
        ast
    }

    /// Every pair of the set, each once, in the order in which they were added.
    pub fn all(&self) -> (r: Vec<Coordinates>)
        requires
            self.wf(),
        ensures
            forall|k: (usize, usize)|
                self@.contains(k) <==> exists|i: int| 0 <= i < r@.len() && #[trigger] r@[i].key() == k,
            forall|i: int, j: int|
                0 <= i < j < r@.len() ==> #[trigger] r@[i].key() != #[trigger] r@[j].key(),
    {
        let mut r: Vec<Coordinates> = Vec::new();
        let mut i: usize = 0;
        while i < self.cells.len()
            invariant
                i <= self.cells@.len(),
                r@ == self.cells@.take(i as int),
            decreases self.cells@.len() - i,
        {
            r.push(self.cells[i]);
            assert(r@ =~= self.cells@.take(i + 1));
            i += 1;
        }
        assert(r@ =~= self.cells@);
        r
    }
}

} // verus!
