//! Sparse accumulator of alignment evidence between sentence pairs.
use vstd::prelude::*;

use crate::{at, crosses, lex_lt, Coordinates, X, Y};

verus! {

/// A score after one more piece of evidence, held at `usize::MAX`.
pub open spec fn bump(s: nat) -> nat {
    if s < usize::MAX {
        s + 1
    } else {
        s
    }
}

/// Count of the evidence gathered for one sentence pair.
#[derive(Clone, Copy, Debug, PartialEq, Eq, Structural)]
pub struct Score(pub usize);

struct Entry {
    at: Coordinates,
    score: usize,
}

/// Scores of sentence pairs; only pairs with a positive score are stored.
///
/// A pair is an anchor when its score reaches the table's threshold.
pub struct SentenceAlignmentTable {
    anchor_threshold: Score,
    entries: Vec<Entry>,
    end: Coordinates,
    scores: Ghost<Map<(usize, usize), nat>>,
}

impl View for SentenceAlignmentTable {
    type V = Map<(usize, usize), nat>;

    /// The stored pairs and their (positive) scores.
    closed spec fn view(&self) -> Map<(usize, usize), nat> {
        self.scores@
    }
}

impl SentenceAlignmentTable {
    /// The score that makes a pair an anchor.
    pub closed spec fn threshold(&self) -> nat {
        self.anchor_threshold.0 as nat
    }

    /// The last pair of the table: the last sentence of each text.
    pub closed spec fn end_key(&self) -> (usize, usize) {
        self.end.key()
    }

    pub open spec fn score_of(&self, k: (usize, usize)) -> nat {
        if self@.contains_key(k) {
            self@[k]
        } else {
            0
        }
    }

    pub open spec fn is_anchor(&self, k: (usize, usize)) -> bool {
        self.score_of(k) > 0 && self.score_of(k) >= self.threshold()
    }

    pub open spec fn in_bounds(&self, k: (usize, usize)) -> bool {
        k.0 <= self.end_key().0 && k.1 <= self.end_key().1
    }

    /// No two anchors cross.
    pub open spec fn monotone(&self) -> bool {
        forall|a: (usize, usize), b: (usize, usize)|
            #![trigger self.is_anchor(a), self.is_anchor(b)]
            self.is_anchor(a) && self.is_anchor(b) ==> !crosses(a, b)
    }

    /// An anchor that `from` must not cross to become one itself.
    pub open spec fn crossing_anchor(&self, from: (usize, usize), a: (usize, usize)) -> bool {
        self.is_anchor(a) && crosses(a, from)
    }

    /// `k` is an anchor once it gains one more piece of evidence.
    pub open spec fn bumped_anchor(&self, k: (usize, usize)) -> bool {
        bump(self.score_of(k)) >= self.threshold()
    }

    /// Promoting `k` must not cross an anchor: it has no score yet, or it
    /// becomes an anchor now.
    pub open spec fn guarded(&self, k: (usize, usize)) -> bool {
        self.score_of(k) == 0 || (!self.is_anchor(k) && self.bumped_anchor(k))
    }

    /// An anchor after `from` in the order of `x`, then `y`, within the table.
    pub open spec fn follows(&self, from: (usize, usize), k: (usize, usize)) -> bool {
        &&& self.is_anchor(k)
        &&& lex_lt(from, k)
        &&& self.in_bounds(k)
    }

    /// The least anchor, in the order of `x` then `y`, that follows `from`;
    /// the end of the table where none does.
    pub open spec fn next_key(&self, from: (usize, usize)) -> (usize, usize) {
        if exists|k: (usize, usize)| self.follows(from, k) {
            choose|k: (usize, usize)|
                self.follows(from, k) && forall|k2: (usize, usize)|
                    #[trigger] self.follows(from, k2) ==> !lex_lt(k2, k)
        } else {
            self.end_key()
        }
    }

    pub closed spec fn wf(&self) -> bool {
        &&& forall|i: int|
            #![trigger self.entries@[i]]
            0 <= i < self.entries@.len() ==> {
                &&& self.entries@[i].score > 0
                &&& self.scores@.contains_key(self.entries@[i].at.key())
                &&& self.scores@[self.entries@[i].at.key()] == self.entries@[i].score as nat
            }
        &&& forall|i: int, j: int|
            0 <= i < j < self.entries@.len() ==> #[trigger] self.entries@[i].at.key()
                != #[trigger] self.entries@[j].at.key()
        &&& forall|k: (usize, usize)|
            #[trigger] self.scores@.contains_key(k) ==> {
                &&& self.in_bounds(k)
                &&& exists|i: int|
                    0 <= i < self.entries@.len() && #[trigger] self.entries@[i].at.key() == k
            }
    }

    /// One more piece of evidence for `k` keeps the anchors free of crossings
    /// when `k` is an anchor already, stays below the threshold, or crosses
    /// no anchor.
    pub proof fn lemma_increment_keeps_monotone(
        before: SentenceAlignmentTable,
        after: SentenceAlignmentTable,
        k: (usize, usize),
    )
        requires
            before.monotone(),
            after@ == before@.insert(k, bump(before.score_of(k))),
            after.threshold() == before.threshold(),
            before.is_anchor(k) || bump(before.score_of(k)) < before.threshold() || !exists|c: (
                usize,
                usize,
            )| before.crossing_anchor(k, c),
        ensures
            after.monotone(),
    {
        assert forall|a: (usize, usize), b: (usize, usize)|
            after.is_anchor(a) && after.is_anchor(b) implies !crosses(a, b) by {
            if a != k && b != k {
                assert(before.is_anchor(a) && before.is_anchor(b));
            } else if a == k && b != k {
                assert(before.is_anchor(b));
                if !before.is_anchor(k) {
                    assert(!before.crossing_anchor(k, b));
                }
            } else if a != k && b == k {
                assert(before.is_anchor(a));
                if !before.is_anchor(k) {
                    assert(!before.crossing_anchor(k, a));
                }
            }
        }
    }

    /// Every anchor lies within the table.
    pub proof fn lemma_anchor_in_bounds(&self, k: (usize, usize))
        requires
            self.wf(),
            self.is_anchor(k),
        ensures
            self.in_bounds(k),
    {
    }

    /// An empty table for text `a` (rows) and text `b` (columns).
    pub fn new<T, U>(a: &[T], b: &[U], anchor_threshold: Score) -> (r: Self)
        requires
            a@.len() >= 1,
            b@.len() >= 1,
        ensures
            r.wf(),
            r@ == Map::<(usize, usize), nat>::empty(),
            r.threshold() == anchor_threshold.0,
            r.end_key() == ((b@.len() - 1) as usize, (a@.len() - 1) as usize),
    {
        SentenceAlignmentTable {
            anchor_threshold,
            entries: Vec::new(),
            end: Coordinates(X(b.len() - 1), Y(a.len() - 1)),
            scores: Ghost(Map::empty()),
        }
    }

    /// The last pair of the table.
    pub fn end(&self) -> (r: Coordinates)
        ensures
            r.key() == self.end_key(),
    {
        self.end
    }

    /// The score that makes a pair an anchor.
    pub fn anchor_threshold(&self) -> (r: Score)
        ensures
            r.0 == self.threshold(),
    {
        self.anchor_threshold
    }

    /// Position of the entry of `k`, if it has one.
    fn find(&self, k: Coordinates) -> (r: Option<usize>)
        requires
            self.wf(),
        ensures
            match r {
                Some(i) => i < self.entries@.len() && self.entries@[i as int].at.key() == k.key(),
                None => !self@.contains_key(k.key()),
            },
    {
        let mut i: usize = 0;
        while i < self.entries.len()
            invariant
                i <= self.entries@.len(),
                forall|j: int| 0 <= j < i ==> #[trigger] self.entries@[j].at.key() != k.key(),
            decreases self.entries@.len() - i,
        {
            if self.entries[i].at.0.0 == k.0.0 && self.entries[i].at.1.0 == k.1.0 {
                return Some(i);
            }
            i += 1;
        }
        None
    }

    /// The score of `c`, zero where nothing was recorded.
    pub fn score(&self, c: Coordinates) -> (r: Score)
        requires
            self.wf(),
        ensures
            r.0 == self.score_of(c.key()),
    {
        match self.find(c) {
            Some(i) => Score(self.entries[i].score),
            None => Score(0),
        }
    }

    /// Adds one to the score of `c`; a score stops at `usize::MAX`.
    pub fn increment(&mut self, c: Coordinates)
        requires
            old(self).wf(),
            old(self).in_bounds(c.key()),
        ensures
            final(self).wf(),
            final(self)@ == old(self)@.insert(c.key(), bump(old(self).score_of(c.key()))),
            final(self).threshold() == old(self).threshold(),
            final(self).end_key() == old(self).end_key(),
    {
        let ghost k = c.key();
        match self.find(c) {
            Some(i) => {
                let s = self.entries[i].score;
                let t = if s < usize::MAX {
                    s + 1
                } else {
                    s
                };
                self.entries.set(i, Entry { at: c, score: t });
                self.scores = Ghost(self.scores@.insert(k, t as nat));
                assert forall|k2: (usize, usize)| #[trigger]
                    self.scores@.contains_key(k2) implies exists|j: int|
                    0 <= j < self.entries@.len() && #[trigger] self.entries@[j].at.key() == k2 by {
                    if k2 != k {
                        let j = choose|j: int|
                            0 <= j < old(self).entries@.len() && #[trigger] old(
                                self,
                            ).entries@[j].at.key() == k2;
                        assert(self.entries@[j].at.key() == k2);
                    } else {
                        assert(self.entries@[i as int].at.key() == k2);
                    }
                }
            },
            None => {
                self.entries.push(Entry { at: c, score: 1 });
                self.scores = Ghost(self.scores@.insert(k, 1));
                let n = self.entries.len() - 1;
                assert forall|k2: (usize, usize)| #[trigger]
                    self.scores@.contains_key(k2) implies exists|j: int|
                    0 <= j < self.entries@.len() && #[trigger] self.entries@[j].at.key() == k2 by {
                    if k2 != k {
                        let j = choose|j: int|
                            0 <= j < old(self).entries@.len() && #[trigger] old(
                                self,
                            ).entries@[j].at.key() == k2;
                        assert(self.entries@[j].at.key() == k2);
                    } else {
                        assert(self.entries@[n as int].at.key() == k2);
                    }
                }
                assert forall|a: int, b: int|
                    0 <= a < b < self.entries@.len() implies #[trigger] self.entries@[a].at.key()
                    != #[trigger] self.entries@[b].at.key() by {
                    if b == n {
                        assert(old(self).scores@.contains_key(self.entries@[a].at.key()));
                    }
                }
            },
        }
    }

    /// The first anchor after `from` in the order of `x`, then `y`; the end of
    /// the table where there is none. Without `from`, the origin `(0, 0)`.
    pub fn next_anchor(&self, from: Option<Coordinates>) -> (r: Coordinates)
        requires
            self.wf(),
        ensures
            match from {
                None => r == at((0, 0)),
                Some(f) => r.key() == self.next_key(f.key()) && if exists|k: (usize, usize)| self.follows(f.key(), k) {
                    &&& self.follows(f.key(), r.key())
                    &&& forall|k: (usize, usize)|
                        #[trigger] self.follows(f.key(), k) ==> !lex_lt(k, r.key())
                } else {
                    r.key() == self.end_key()
                },
            },
    {
        match from {
            None => Coordinates(X(0), Y(0)),
            Some(f) => {
                let mut best: Option<usize> = None;
                let mut i: usize = 0;
                while i < self.entries.len()
                    invariant
                        self.wf(),
                        i <= self.entries@.len(),
                        best matches Some(b) ==> {
                            &&& b < i
                            &&& self.follows(f.key(), self.entries@[b as int].at.key())
                        },
                        forall|j: int|
                            0 <= j < i && #[trigger] self.follows(
                                f.key(),
                                self.entries@[j].at.key(),
                            ) ==> (best matches Some(b) && !lex_lt(
                                self.entries@[j].at.key(),
                                self.entries@[b as int].at.key(),
                            )),
                    decreases self.entries@.len() - i,
                {
                    let e = &self.entries[i];
                    proof {
                        assert(self.entries@[i as int] == *e);
                    }
                    if e.score >= self.anchor_threshold.0 && (f.0.0 < e.at.0.0 || (f.0.0
                        == e.at.0.0 && f.1.0 < e.at.1.0)) && e.at.0.0 <= self.end.0.0 && e.at.1.0
                        <= self.end.1.0 {
                        let better = match best {
                            None => true,
                            Some(b) => {
                                let c = &self.entries[b];
                                e.at.0.0 < c.at.0.0 || (e.at.0.0 == c.at.0.0 && e.at.1.0
                                    < c.at.1.0)
                            },
                        };
                        if better {
                            best = Some(i);
                        }
                    }
                    i += 1;
                }
                match best {
                    Some(b) => {
                        proof {
                            assert forall|k: (usize, usize)| #[trigger]
                                self.follows(f.key(), k) implies !lex_lt(
                                k,
                                self.entries@[b as int].at.key(),
                            ) by {
                                let j = choose|j: int|
                                    0 <= j < self.entries@.len() && #[trigger] self.entries@[j].at.key()
                                        == k;
                                assert(self.follows(f.key(), self.entries@[j].at.key()));
                            }
                            let r = self.entries@[b as int].at.key();
                            let c = choose|k: (usize, usize)|
                                self.follows(f.key(), k) && forall|k2: (usize, usize)|
                                    #[trigger] self.follows(f.key(), k2) ==> !lex_lt(k2, k);
                            assert(self.follows(f.key(), c));
                            assert(!lex_lt(c, r) && !lex_lt(r, c));
                            assert(c == r);
                        }
                        self.entries[b].at
                    },
                    None => {
                        proof {
                            assert forall|k: (usize, usize)|
                                !#[trigger] self.follows(f.key(), k) by {
                                if self.follows(f.key(), k) {
                                    let j = choose|j: int|
                                        0 <= j < self.entries@.len()
                                            && #[trigger] self.entries@[j].at.key() == k;
                                    assert(self.follows(f.key(), self.entries@[j].at.key()));
                                }
                            }
                        }
                        self.end
                    },
                }
            },
        }
    }

    /// Whether some anchor crosses `c`: one strictly right of it and strictly
    /// above, or strictly left of it and strictly below.
    pub fn crossover(&self, c: Coordinates) -> (r: bool)
        requires
            self.wf(),
        ensures
            r == exists|a: (usize, usize)| self.crossing_anchor(c.key(), a),
    {
        let mut i: usize = 0;
        while i < self.entries.len()
            invariant
                self.wf(),
                i <= self.entries@.len(),
                forall|j: int|
                    0 <= j < i ==> !#[trigger] self.crossing_anchor(
                        c.key(),
                        self.entries@[j].at.key(),
                    ),
            decreases self.entries@.len() - i,
        {
            let e = &self.entries[i];
            proof {
                assert(self.entries@[i as int] == *e);
            }
            if e.score >= self.anchor_threshold.0 && ((e.at.0.0 > c.0.0 && e.at.1.0 < c.1.0) || (
            e.at.0.0 < c.0.0 && e.at.1.0 > c.1.0)) {
                proof {
                    assert(self.crossing_anchor(c.key(), e.at.key()));
                }
                return true;
            }
            i += 1;
        }
        proof {
            assert forall|a: (usize, usize)| !#[trigger] self.crossing_anchor(c.key(), a) by {
                if self.crossing_anchor(c.key(), a) {
                    let j = choose|j: int|
                        0 <= j < self.entries@.len() && #[trigger] self.entries@[j].at.key() == a;
                    assert(self.crossing_anchor(c.key(), self.entries@[j].at.key()));
                }
            }
        }
        false
    }

    /// Every anchor, each once.
    pub fn anchors(&self) -> (r: Vec<Coordinates>)
        requires
            self.wf(),
        ensures
            forall|i: int| 0 <= i < r@.len() ==> self.in_bounds(#[trigger] r@[i].key()),
            forall|k: (usize, usize)|
                self.is_anchor(k) <==> exists|i: int| 0 <= i < r@.len() && #[trigger] r@[i].key() == k,
            forall|i: int, j: int|
                0 <= i < j < r@.len() ==> #[trigger] r@[i].key() != #[trigger] r@[j].key(),
    {
        let mut r: Vec<Coordinates> = Vec::new();
        let ghost mut idx: Seq<int> = Seq::empty();
        let mut i: usize = 0;
        while i < self.entries.len()
            invariant
                self.wf(),
                i <= self.entries@.len(),
                r@.len() == idx.len(),
                forall|m: int|
                    0 <= m < r@.len() ==> {
                        &&& 0 <= #[trigger] idx[m] < i
                        &&& r@[m] == self.entries@[idx[m]].at
                        &&& self.is_anchor(r@[m].key())
                    },
                forall|a: int, b: int| 0 <= a < b < idx.len() ==> #[trigger] idx[a] < #[trigger] idx[b],
                forall|j: int|
                    0 <= j < i && #[trigger] self.is_anchor(self.entries@[j].at.key()) ==> exists|
                        m: int,
                    | 0 <= m < idx.len() && #[trigger] idx[m] == j,
            decreases self.entries@.len() - i,
        {
            let e = &self.entries[i];
            proof {
                assert(self.entries@[i as int] == *e);
            }
            if e.score >= self.anchor_threshold.0 {
                r.push(e.at);
                proof {
                    let idx0 = idx;
                    idx = idx.push(i as int);
                    assert forall|j: int|
                        0 <= j < i + 1 && #[trigger] self.is_anchor(
                            self.entries@[j].at.key(),
                        ) implies exists|m: int| 0 <= m < idx.len() && #[trigger] idx[m] == j by {
                        if j < i {
                            let m = choose|m: int| 0 <= m < idx0.len() && #[trigger] idx0[m] == j;
                            assert(idx[m] == idx0[m]);
                        } else {
                            assert(idx[idx0.len() as int] == j);
                        }
                    }
                }
            }
            i += 1;
        }
        proof {
            assert forall|k: (usize, usize)|
                self.is_anchor(k) implies exists|m: int|
                0 <= m < r@.len() && #[trigger] r@[m].key() == k by {
                let j = choose|j: int|
                    0 <= j < self.entries@.len() && #[trigger] self.entries@[j].at.key() == k;
                assert(self.is_anchor(self.entries@[j].at.key()));
                let m = choose|m: int| 0 <= m < idx.len() && #[trigger] idx[m] == j;
                assert(r@[m].key() == k);
            }
            assert forall|k: (usize, usize)|
                (exists|m: int| 0 <= m < r@.len() && #[trigger] r@[m].key() == k) implies self.is_anchor(
                k,
            ) by {
                let m = choose|m: int| 0 <= m < r@.len() && #[trigger] r@[m].key() == k;
                assert(0 <= idx[m]);
            }
            assert forall|i: int| 0 <= i < r@.len() implies self.in_bounds(#[trigger] r@[i].key()) by {
                assert(0 <= idx[i]);
                assert(self.scores@.contains_key(self.entries@[idx[i]].at.key()));
            }
            assert forall|a: int, b: int|
                0 <= a < b < r@.len() implies #[trigger] r@[a].key() != #[trigger] r@[b].key() by {
                assert(idx[a] < idx[b]);
                assert(self.entries@[idx[a]].at.key() != self.entries@[idx[b]].at.key());
            }
        }
        r
    }
}

} // verus!
