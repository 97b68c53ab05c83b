//! The result of an alignment run.
use vstd::prelude::*;

use crate::sentence_alignment_table::SentenceAlignmentTable;

verus! {

pub open spec fn ascending(s: Seq<usize>) -> bool {
    forall|i: int, j: int| 0 <= i < j < s.len() ==> #[trigger] s[i] < #[trigger] s[j]
}

/// Adds `e` to the ascending `v`, unless it is there already.
fn insert_sorted(v: &mut Vec<usize>, e: usize)
    requires
        ascending(old(v)@),
    ensures
        ascending(final(v)@),
        forall|t: usize| #[trigger] final(v)@.contains(t) <==> old(v)@.contains(t) || t == e,
{
    let mut i: usize = 0;
    while i < v.len() && v[i] < e
        invariant
            i <= v@.len(),
            forall|j: int| 0 <= j < i ==> #[trigger] v@[j] < e,
        decreases v@.len() - i,
    {
        i += 1;
    }
    if i < v.len() && v[i] == e {
        assert forall|t: usize| #[trigger] v@.contains(t) <==> v@.contains(t) || t == e by {
            if t == e {
                assert(v@[i as int] == e);
            }
        }
        return;
    }
    let ghost v0 = v@;
    v.insert(i, e);
    proof {
        assert(v@ == v0.insert(i as int, e));
        assert forall|a: int, b: int| 0 <= a < b < v@.len() implies #[trigger] v@[a] < #[trigger] v@[b] by {
            if b < i {
                assert(v@[a] == v0[a] && v@[b] == v0[b]);
            } else if b == i {
                assert(v@[a] == v0[a]);
            } else if a == i {
                assert(v@[b] == v0[b - 1]);
                assert(v0[i as int] >= e);
                if b - 1 > i {
                    assert(v0[i as int] < v0[b - 1]);
                }
            } else if a < i {
                assert(v@[a] == v0[a] && v@[b] == v0[b - 1]);
            } else {
                assert(v@[a] == v0[a - 1] && v@[b] == v0[b - 1]);
            }
        }
        assert forall|t: usize| #[trigger] v@.contains(t) <==> v0.contains(t) || t == e by {
            if v@.contains(t) {
                let j = choose|j: int| 0 <= j < v@.len() && v@[j] == t;
                if j < i {
                    assert(v0[j] == t);
                } else if j > i {
                    assert(v0[j - 1] == t);
                }
            }
            if v0.contains(t) {
                let j = choose|j: int| 0 <= j < v0.len() && v0[j] == t;
                if j < i {
                    assert(v@[j] == t);
                } else {
                    assert(v@[j + 1] == t);
                }
            }
            if t == e {
                assert(v@[i as int] == e);
            }
        }
    }
}

/// The anchors of a finished run, per sentence of each text, and the number
/// of aligned sentences after each cycle.
pub struct Output {
    a_alignments: Vec<Vec<usize>>,
    b_alignments: Vec<Vec<usize>>,
    coverage: Vec<usize>,
}

impl Output {
    /// The sentences of text B aligned with sentence `i` of text A.
    pub closed spec fn a_view(&self, i: int) -> Seq<usize> {
        if 0 <= i < self.a_alignments@.len() {
            self.a_alignments@[i]@
        } else {
            Seq::empty()
        }
    }

    /// The sentences of text A aligned with sentence `i` of text B.
    pub closed spec fn b_view(&self, i: int) -> Seq<usize> {
        if 0 <= i < self.b_alignments@.len() {
            self.b_alignments@[i]@
        } else {
            Seq::empty()
        }
    }

    pub closed spec fn coverage_view(&self) -> Seq<usize> {
        self.coverage@
    }

    /// The anchors of `sat`, for texts of `a_len` and `b_len` sentences, and
    /// the coverage trace `coverage`.
    pub fn new(a_len: usize, b_len: usize, sat: &SentenceAlignmentTable, coverage: Vec<usize>) -> (r: Self)
        requires
            sat.wf(),
            sat.end_key() == ((b_len - 1) as usize, (a_len - 1) as usize),
            a_len >= 1,
            b_len >= 1,
        ensures
            forall|y: int, x: usize|
                #![trigger r.a_view(y).contains(x)]
                0 <= y < a_len ==> (r.a_view(y).contains(x) <==> sat.is_anchor((x, y as usize))),
            forall|x: int, y: usize|
                #![trigger r.b_view(x).contains(y)]
                0 <= x < b_len ==> (r.b_view(x).contains(y) <==> sat.is_anchor((x as usize, y))),
            forall|i: int| #[trigger] ascending(r.a_view(i)),
            forall|i: int| #[trigger] ascending(r.b_view(i)),
            forall|i: int| i >= a_len ==> #[trigger] r.a_view(i).len() == 0,
            forall|i: int| i >= b_len ==> #[trigger] r.b_view(i).len() == 0,
            r.coverage_view() == coverage@,
    {
        let mut a_alignments: Vec<Vec<usize>> = Vec::new();
        let mut i: usize = 0;
        while i < a_len
            invariant
                i <= a_len,
                a_alignments@.len() == i,
                forall|j: int| 0 <= j < i ==> (#[trigger] a_alignments@[j])@.len() == 0,
            decreases a_len - i,
        {
            a_alignments.push(Vec::new());
            i += 1;
        }
        let mut b_alignments: Vec<Vec<usize>> = Vec::new();
        let mut i: usize = 0;
        while i < b_len
            invariant
                i <= b_len,
                b_alignments@.len() == i,
                forall|j: int| 0 <= j < i ==> (#[trigger] b_alignments@[j])@.len() == 0,
            decreases b_len - i,
        {
            b_alignments.push(Vec::new());
            i += 1;
        }
        let anchors = sat.anchors();
        let mut n: usize = 0;
        while n < anchors.len()
            invariant
                sat.wf(),
                a_len >= 1,
                b_len >= 1,
                sat.end_key() == ((b_len - 1) as usize, (a_len - 1) as usize),
                n <= anchors@.len(),
                a_alignments@.len() == a_len,
                b_alignments@.len() == b_len,
                forall|i: int| 0 <= i < anchors@.len() ==> sat.in_bounds(#[trigger] anchors@[i].key()),
                forall|k: (usize, usize)|
                    sat.is_anchor(k) <==> exists|i: int|
                        0 <= i < anchors@.len() && #[trigger] anchors@[i].key() == k,
                forall|j: int| 0 <= j < a_len ==> ascending(#[trigger] a_alignments@[j]@),
                forall|j: int| 0 <= j < b_len ==> ascending(#[trigger] b_alignments@[j]@),
                forall|y: int, x: usize|
                    0 <= y < a_len ==> (#[trigger] a_alignments@[y]@.contains(x) <==> exists|i: int|
                        0 <= i < n && #[trigger] anchors@[i].key() == (x, y as usize)),
                forall|x: int, y: usize|
                    0 <= x < b_len ==> (#[trigger] b_alignments@[x]@.contains(y) <==> exists|i: int|
                        0 <= i < n && #[trigger] anchors@[i].key() == (x as usize, y)),
            decreases anchors@.len() - n,
        {
            let c = anchors[n];
            proof {
                assert(sat.in_bounds(anchors@[n as int].key()));
            }
            let x = c.0.0;
            let y = c.1.0;
            let ghost a0 = a_alignments@;
            let ghost b0 = b_alignments@;
            assert(ascending(a_alignments@[y as int]@));
            assert(ascending(b_alignments@[x as int]@));
            let mut row = a_alignments[y].clone();
            insert_sorted(&mut row, x);
            a_alignments.set(y, row);
            let mut col = b_alignments[x].clone();
            insert_sorted(&mut col, y);
            b_alignments.set(x, col);
            proof {
                assert(anchors@[n as int].key() == (x, y));
                assert forall|y2: int, x2: usize|
                    0 <= y2 < a_len implies (#[trigger] a_alignments@[y2]@.contains(x2) <==> exists|
                        i: int,
                    | 0 <= i < n + 1 && #[trigger] anchors@[i].key() == (x2, y2 as usize)) by {
                    if exists|i: int| 0 <= i < n + 1 && #[trigger] anchors@[i].key() == (x2, y2 as usize) {
                        let i = choose|i: int|
                            0 <= i < n + 1 && #[trigger] anchors@[i].key() == (x2, y2 as usize);
                        if i < n {
                            assert(a0[y2]@.contains(x2));
                        }
                    }
                    if a0[y2]@.contains(x2) {
                        let i = choose|i: int|
                            0 <= i < n && #[trigger] anchors@[i].key() == (x2, y2 as usize);
                    }
                }
                assert forall|x2: int, y2: usize|
                    0 <= x2 < b_len implies (#[trigger] b_alignments@[x2]@.contains(y2) <==> exists|
                        i: int,
                    | 0 <= i < n + 1 && #[trigger] anchors@[i].key() == (x2 as usize, y2)) by {
                    if exists|i: int| 0 <= i < n + 1 && #[trigger] anchors@[i].key() == (x2 as usize, y2) {
                        let i = choose|i: int|
                            0 <= i < n + 1 && #[trigger] anchors@[i].key() == (x2 as usize, y2);
                        if i < n {
                            assert(b0[x2]@.contains(y2));
                        }
                    }
                    if b0[x2]@.contains(y2) {
                        let i = choose|i: int|
                            0 <= i < n && #[trigger] anchors@[i].key() == (x2 as usize, y2);
                    }
                }
            }
            n += 1;
        }
        let r = Output { a_alignments, b_alignments, coverage };
        proof {
            assert forall|i: int| #[trigger] ascending(r.a_view(i)) by {
                if 0 <= i < a_len {
                    assert(ascending(r.a_alignments@[i]@));
                }
            }
            assert forall|i: int| #[trigger] ascending(r.b_view(i)) by {
                if 0 <= i < b_len {
                    assert(ascending(r.b_alignments@[i]@));
                }
            }
            assert forall|y: int, x: usize|
                0 <= y < a_len implies (#[trigger] r.a_view(y).contains(x) <==> sat.is_anchor(
                (x, y as usize),
            )) by {
                assert(r.a_view(y) == r.a_alignments@[y]@);
                if sat.is_anchor((x, y as usize)) {
                    let i = choose|i: int|
                        0 <= i < anchors@.len() && #[trigger] anchors@[i].key() == (x, y as usize);
                }
            }
            assert forall|x: int, y: usize|
                0 <= x < b_len implies (#[trigger] r.b_view(x).contains(y) <==> sat.is_anchor(
                (x as usize, y),
            )) by {
                assert(r.b_view(x) == r.b_alignments@[x]@);
                if sat.is_anchor((x as usize, y)) {
                    let i = choose|i: int|
                        0 <= i < anchors@.len() && #[trigger] anchors@[i].key() == (x as usize, y);
                }
            }
        }
        r
    }

    /// The sentences of text B aligned with sentence `i` of text A, ascending;
    /// none for an index past the text.
    pub fn a_alignments(&self, i: usize) -> (r: Vec<usize>)
        ensures
            r@ == self.a_view(i as int),
    {
        if i < self.a_alignments.len() {
            self.a_alignments[i].clone()
        } else {
            Vec::new()
        }
    }

    /// The sentences of text A aligned with sentence `i` of text B, ascending;
    /// none for an index past the text.
    pub fn b_alignments(&self, i: usize) -> (r: Vec<usize>)
        ensures
            r@ == self.b_view(i as int),
    {
        if i < self.b_alignments.len() {
            self.b_alignments[i].clone()
        } else {
            Vec::new()
        }
    }

    /// The number of aligned sentences, of both texts together, after each
    /// cycle; divided by the number of sentences it gives the coverage.
    pub fn coverage(&self) -> (r: Vec<usize>)
        ensures
            r@ == self.coverage_view(),
    {
        self.coverage.clone()
    }
}

} // verus!
