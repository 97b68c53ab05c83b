//! Scoring of token pairs, and the promotion of the sentence pairs they support.
use vstd::prelude::*;

use crate::alignable_sentence_table::AlignableSentenceTable;
use crate::sentence_alignment_table::{bump, SentenceAlignmentTable};
use crate::word_association_table::outranks;
use crate::word_sentence_index::WordSentenceIndex;
use crate::{crosses, Coordinates, X, Y};

verus! {

/// The most pairs `(b[j], a[i])` of `region` that can be matched in the order
/// of both sequences: the score of an optimal global alignment of `a` and `b`
/// that earns 1 for a pair in `region` and 0 for any other pair or a gap.
pub open spec fn best_alignment(a: Seq<usize>, b: Seq<usize>, region: Set<(usize, usize)>) -> nat
    decreases a.len() + b.len(),
{
    if a.len() == 0 || b.len() == 0 {
        0
    } else {
        let skip_a = best_alignment(a.drop_last(), b, region);
        let skip_b = best_alignment(a, b.drop_last(), region);
        let pair = best_alignment(a.drop_last(), b.drop_last(), region) + if region.contains(
            (b.last(), a.last()),
        ) {
            1nat
        } else {
            0nat
        };
        if skip_a >= skip_b && skip_a >= pair {
            skip_a
        } else if skip_b >= pair {
            skip_b
        } else {
            pair
        }
    }
}

/// A sentence of text A (`in_a`) or of text B, compared with one of the other
/// text by whether the pair lies in the region.
pub struct Candidate<'a> {
    pub sentence: usize,
    pub in_a: bool,
    pub region: &'a AlignableSentenceTable,
}

impl<'a> PartialEq for Candidate<'a> {
    fn eq(&self, other: &Self) -> (r: bool) {
        if self.in_a == other.in_a {
            false
        } else if self.in_a {
            self.region.contains(Coordinates(X(other.sentence), Y(self.sentence)))
        } else {
            self.region.contains(Coordinates(X(self.sentence), Y(other.sentence)))
        }
    }
}

impl<'a> vstd::std_specs::cmp::PartialEqSpecImpl for Candidate<'a> {
    open spec fn obeys_eq_spec() -> bool {
        false
    }

    open spec fn eq_spec(&self, other: &Self) -> bool {
        if self.in_a == other.in_a {
            false
        } else if self.in_a {
            self.region@.contains((other.sentence, self.sentence))
        } else {
            self.region@.contains((self.sentence, other.sentence))
        }
    }
}

/// Relies on `hirschberg::Config::compute` with match score 1, mismatch and
/// gap score 0: the score of an optimal global alignment of the two sequences,
/// where an aligned pair matches when `PartialEq` says so (here: when the pair
/// of sentences lies in `region`).
#[verifier::external_body]
fn alignment_score(region: &AlignableSentenceTable, a: &Vec<usize>, b: &Vec<usize>) -> (r: usize)
    requires
        a@.len() <= i32::MAX,
    ensures
        r == best_alignment(a@, b@, region@),
{
    let a: Vec<Candidate> = a.iter().map(|&sentence| Candidate { sentence, in_a: true, region }).collect();
    let b: Vec<Candidate> = b.iter().map(|&sentence| Candidate { sentence, in_a: false, region }).collect();
    let output = hirschberg::Config { match_score: 1, mismatch_score: 0, gap_score: 0 }.compute(&a, &b);
    output.score() as usize
}

/// A ratio `numerator / denominator` in `[0, 1]`.
#[derive(Clone, Copy, Debug, PartialEq, Eq, Structural)]
pub struct Similarity {
    pub numerator: u128,
    pub denominator: u128,
}

/// `2c / (|ya| + |xb|)`, with `c` the best alignment of the two position lists
/// within `region`; zero where both lists are empty.
pub open spec fn similarity_of(region: Set<(usize, usize)>, ya: Seq<usize>, xb: Seq<usize>) -> Similarity {
    let n = ya.len() + xb.len();
    if n == 0 {
        Similarity { numerator: 0, denominator: 1 }
    } else {
        Similarity {
            numerator: (2 * best_alignment(ya, xb, region)) as u128,
            denominator: n as u128,
        }
    }
}

pub proof fn lemma_best_alignment_bounded(a: Seq<usize>, b: Seq<usize>, region: Set<(usize, usize)>)
    ensures
        best_alignment(a, b, region) <= a.len(),
        best_alignment(a, b, region) <= b.len(),
    decreases a.len() + b.len(),
{
    if a.len() > 0 && b.len() > 0 {
        lemma_best_alignment_bounded(a.drop_last(), b, region);
        lemma_best_alignment_bounded(a, b.drop_last(), region);
        lemma_best_alignment_bounded(a.drop_last(), b.drop_last(), region);
    }
}

/// The similarity of token `a` of text A and token `b` of text B: how well
/// their occurrences line up within `region`.
pub fn similarity(
    region: &AlignableSentenceTable,
    a_index: &WordSentenceIndex,
    b_index: &WordSentenceIndex,
    a: u64,
    b: u64,
) -> (r: Similarity)
    requires
        a_index.sentences_of(a).len() <= i32::MAX,
        b_index.sentences_of(b).len() <= i32::MAX,
    ensures
        r == similarity_of(region@, a_index.sentences_of(a), b_index.sentences_of(b)),
        r.denominator <= u64::MAX,
        r.numerator <= r.denominator,
        r.denominator > 0,
{
    let ya = a_index.sentences(a);
    let xb = b_index.sentences(b);
    let c = alignment_score(region, &ya, &xb);
    proof {
        lemma_best_alignment_bounded(ya@, xb@, region@);
    }
    let n = ya.len() as u128 + xb.len() as u128;
    if n == 0 {
        Similarity { numerator: 0, denominator: 1 }
    } else {
        Similarity { numerator: 2 * (c as u128), denominator: n }
    }
}

/// A scored pair of tokens: `a` of text A and `b` of text B, with the number
/// of occurrences of each in its text.
#[derive(Clone, Copy, Debug, PartialEq, Eq, Structural)]
pub struct WordAssociation {
    pub a: u64,
    pub b: u64,
    pub similarity: Similarity,
    pub a_occurrences: usize,
    pub b_occurrences: usize,
}

/// The association of `a` and `b`. A forced pair has similarity 1 and the
/// largest occurrence counts, so that it wins every comparison and threshold.
pub open spec fn association_of(
    region: Set<(usize, usize)>,
    a_index: WordSentenceIndex,
    b_index: WordSentenceIndex,
    a: u64,
    b: u64,
    forced: bool,
) -> WordAssociation {
    if forced {
        WordAssociation {
            a,
            b,
            similarity: Similarity { numerator: 1, denominator: 1 },
            a_occurrences: usize::MAX,
            b_occurrences: usize::MAX,
        }
    } else {
        WordAssociation {
            a,
            b,
            similarity: similarity_of(region, a_index.sentences_of(a), b_index.sentences_of(b)),
            a_occurrences: a_index.sentences_of(a).len() as usize,
            b_occurrences: b_index.sentences_of(b).len() as usize,
        }
    }
}

/// `k = (x, y)` lies in `region`, with `y` a sentence of `ya` and `x` one of `xb`.
pub open spec fn supported(ya: Seq<usize>, xb: Seq<usize>, region: Set<(usize, usize)>, k: (usize, usize)) -> bool {
    ya.contains(k.1) && xb.contains(k.0) && region.contains(k)
}

/// `k = (x, y)` is supported, and neither `x` nor `y` has another supported
/// partner: a one-to-one match.
pub open spec fn unique_match(ya: Seq<usize>, xb: Seq<usize>, region: Set<(usize, usize)>, k: (usize, usize)) -> bool {
    &&& supported(ya, xb, region, k)
    &&& forall|y: usize| #[trigger] supported(ya, xb, region, (k.0, y)) ==> y == k.1
    &&& forall|x: usize| #[trigger] supported(ya, xb, region, (x, k.1)) ==> x == k.0
}

proof fn lemma_push_contains(s: Seq<usize>, e: usize)
    ensures
        forall|t: usize| #[trigger] s.push(e).contains(t) <==> s.contains(t) || t == e,
        s.no_duplicates() && !s.contains(e) ==> s.push(e).no_duplicates(),
{
    assert forall|t: usize| #[trigger] s.push(e).contains(t) <==> s.contains(t) || t == e by {
        if s.contains(t) {
            let j = choose|j: int| 0 <= j < s.len() && s[j] == t;
            assert(s.push(e)[j] == t);
        }
        if t == e {
            assert(s.push(e)[s.len() as int] == e);
        }
        if s.push(e).contains(t) {
            let j = choose|j: int| 0 <= j < s.len() + 1 && s.push(e)[j] == t;
            if j < s.len() {
                assert(s[j] == t);
            }
        }
    }
    if s.no_duplicates() && !s.contains(e) {
        assert forall|i: int, j: int|
            0 <= i < s.len() + 1 && 0 <= j < s.len() + 1 && i != j implies s.push(e)[i] != s.push(
            e,
        )[j] by {
            if i == s.len() {
                assert(s[j] == s.push(e)[j]);
            } else if j == s.len() {
                assert(s[i] == s.push(e)[i]);
            }
        }
    }
}

/// A pair forced by the association predicate is applied before every pair
/// scored from the texts whose occurrence counts are not both the largest.
pub proof fn lemma_forced_dominates(
    region: Set<(usize, usize)>,
    a_index: WordSentenceIndex,
    b_index: WordSentenceIndex,
    forced_a: u64,
    forced_b: u64,
    a: u64,
    b: u64,
)
    requires
        a_index.sentences_of(a).len() <= usize::MAX,
        b_index.sentences_of(b).len() <= usize::MAX,
        a_index.sentences_of(a).len() < usize::MAX || b_index.sentences_of(b).len() < usize::MAX,
    ensures
        outranks(
            association_of(region, a_index, b_index, forced_a, forced_b, true),
            association_of(region, a_index, b_index, a, b, false),
        ),
{
    let ya = a_index.sentences_of(a);
    let xb = b_index.sentences_of(b);
    lemma_best_alignment_bounded(ya, xb, region);
}

/// The batch of one-to-one matches may not be promoted: one of them that
/// has no score yet, or becomes an anchor now, crosses an anchor; or two of
/// them that are anchors after the promotion cross each other.
pub open spec fn blocked(
    sat: SentenceAlignmentTable,
    ya: Seq<usize>,
    xb: Seq<usize>,
    region: Set<(usize, usize)>,
) -> bool {
    ||| exists|k: (usize, usize)|
        #[trigger] unique_match(ya, xb, region, k) && sat.guarded(k) && exists|c: (usize, usize)|
            sat.crossing_anchor(k, c)
    ||| exists|k1: (usize, usize), k2: (usize, usize)|
        #[trigger] unique_match(ya, xb, region, k1) && #[trigger] unique_match(ya, xb, region, k2)
            && sat.bumped_anchor(k1) && sat.bumped_anchor(k2) && crosses(k1, k2)
}

/// Whether `v` holds `e`.
fn holds(v: &Vec<usize>, e: usize) -> (r: bool)
    ensures
        r == v@.contains(e),
{
    let mut i: usize = 0;
    while i < v.len()
        invariant
            i <= v@.len(),
            forall|j: int| 0 <= j < i ==> v@[j] != e,
        decreases v@.len() - i,
    {
        if v[i] == e {
            assert(v@[i as int] == e);
            return true;
        }
        i += 1;
    }
    false
}

/// The values of `v`, each once, in the order of their first occurrence.
fn distinct_values(v: &Vec<usize>) -> (r: Vec<usize>)
    ensures
        r@.no_duplicates(),
        forall|e: usize| r@.contains(e) <==> v@.contains(e),
{
    let mut r: Vec<usize> = Vec::new();
    let mut i: usize = 0;
    while i < v.len()
        invariant
            i <= v@.len(),
            r@.no_duplicates(),
            forall|e: usize| r@.contains(e) <==> v@.take(i as int).contains(e),
        decreases v@.len() - i,
    {
        let e = v[i];
        assert(v@.take(i + 1) =~= v@.take(i as int).push(e));
        proof {
            lemma_push_contains(v@.take(i as int), e);
            lemma_push_contains(r@, e);
        }
        if !holds(&r, e) {
            r.push(e);
        }
        i += 1;
    }
    assert(v@.take(i as int) =~= v@);
    r
}

/// The partners of the sentence `s` within `region`: the values `t` of `v`
/// with `(s, t)` in `region` where `s_is_x`, else with `(t, s)` in it.
fn partners(region: &AlignableSentenceTable, s: usize, s_is_x: bool, v: &Vec<usize>) -> (r: Vec<usize>)
    requires
        v@.no_duplicates(),
    ensures
        r@.no_duplicates(),
        forall|t: usize|
            r@.contains(t) <==> v@.contains(t) && region@.contains(
                if s_is_x {
                    (s, t)
                } else {
                    (t, s)
                },
            ),
{
    let mut r: Vec<usize> = Vec::new();
    let mut i: usize = 0;
    while i < v.len()
        invariant
            i <= v@.len(),
            v@.no_duplicates(),
            r@.no_duplicates(),
            forall|t: usize|
                r@.contains(t) <==> v@.take(i as int).contains(t) && region@.contains(
                    if s_is_x {
                        (s, t)
                    } else {
                        (t, s)
                    },
                ),
        decreases v@.len() - i,
    {
        let t = v[i];
        assert(v@.take(i + 1) =~= v@.take(i as int).push(t));
        proof {
            lemma_push_contains(v@.take(i as int), t);
            lemma_push_contains(r@, t);
            if v@.take(i as int).contains(t) {
                let j = choose|j: int| 0 <= j < i && v@.take(i as int)[j] == t;
                assert(v@[j] == v@[i as int]);
            }
        }
        let c = if s_is_x {
            Coordinates(X(s), Y(t))
        } else {
            Coordinates(X(t), Y(s))
        };
        if region.contains(c) {
            r.push(t);
        }
        i += 1;
    }
    assert(v@.take(i as int) =~= v@);
    r
}

proof fn lemma_single(s: Seq<usize>, e: usize)
    requires
        s.no_duplicates(),
        s.contains(e),
        forall|t: usize| s.contains(t) ==> t == e,
    ensures
        s.len() == 1,
        s[0] == e,
{
    if s.len() > 1 {
        assert(s.contains(s[0]));
        assert(s.contains(s[1]));
    }
}

impl WordAssociation {
    /// Scores the pair `a`, `b`; `forced` is the answer of the association
    /// predicate for it.
    pub fn new(
        region: &AlignableSentenceTable,
        a_index: &WordSentenceIndex,
        b_index: &WordSentenceIndex,
        a: u64,
        b: u64,
        forced: bool,
    ) -> (r: Self)
        requires
            !forced ==> a_index.sentences_of(a).len() <= i32::MAX,
            !forced ==> b_index.sentences_of(b).len() <= i32::MAX,
        ensures
            r == association_of(region@, *a_index, *b_index, a, b, forced),
            r.similarity.numerator <= r.similarity.denominator,
            r.similarity.denominator > 0,
            r.similarity.denominator <= u64::MAX,
    {
        if forced {
            WordAssociation {
                a,
                b,
                similarity: Similarity { numerator: 1, denominator: 1 },
                a_occurrences: usize::MAX,
                b_occurrences: usize::MAX,
            }
        } else {
            WordAssociation {
                a,
                b,
                similarity: similarity(region, a_index, b_index, a, b),
                a_occurrences: a_index.occurrences(a),
                b_occurrences: b_index.occurrences(b),
            }
        }
    }

    /// The one-to-one matches of the two tokens' sentences within `region`.
    fn unique_matches(
        &self,
        region: &AlignableSentenceTable,
        a_index: &WordSentenceIndex,
        b_index: &WordSentenceIndex,
    ) -> (r: Vec<Coordinates>)
        ensures
            forall|k: (usize, usize)|
                unique_match(
                    a_index.sentences_of(self.a),
                    b_index.sentences_of(self.b),
                    region@,
                    k,
                ) <==> exists|i: int| 0 <= i < r@.len() && #[trigger] r@[i].key() == k,
            forall|i: int, j: int|
                0 <= i < j < r@.len() ==> #[trigger] r@[i].key() != #[trigger] r@[j].key(),
    {
        let ghost ya0 = a_index.sentences_of(self.a);
        let ghost xb0 = b_index.sentences_of(self.b);
        let ya = distinct_values(&a_index.sentences(self.a));
        let xb = distinct_values(&b_index.sentences(self.b));
        let mut r: Vec<Coordinates> = Vec::new();
        let mut i: usize = 0;
        while i < xb.len()
            invariant
                i <= xb@.len(),
                xb@.no_duplicates(),
                ya@.no_duplicates(),
                forall|e: usize| ya@.contains(e) <==> ya0.contains(e),
                forall|e: usize| xb@.contains(e) <==> xb0.contains(e),
                forall|m: int| 0 <= m < r@.len() ==> unique_match(ya0, xb0, region@, #[trigger] r@[m].key()),
                forall|m: int, j: int|
                    0 <= m < r@.len() && i <= j < xb@.len() ==> #[trigger] xb@[j] != #[trigger] r@[m].0.0,
                forall|a: int, b: int|
                    0 <= a < b < r@.len() ==> #[trigger] r@[a].0.0 != #[trigger] r@[b].0.0,
                forall|j: int, y: usize|
                    0 <= j < i && #[trigger] unique_match(ya0, xb0, region@, (xb@[j], y)) ==> exists|
                        m: int,
                    | 0 <= m < r@.len() && #[trigger] r@[m].key() == (xb@[j], y),
            decreases xb@.len() - i,
        {
            let x = xb[i];
            let ys = partners(region, x, true, &ya);
            assert(xb@.contains(x)) by {
                assert(xb@[i as int] == x);
            }
            if ys.len() == 1 {
                let y = ys[0];
                assert(ys@.contains(y)) by {
                    assert(ys@[0] == y);
                }
                let xs = partners(region, y, false, &xb);
                if xs.len() == 1 {
                    let ghost k = (x, y);
                    proof {
                        assert(xs@.contains(x));
                        assert(xs@[0] == x) by {
                            let j = choose|j: int| 0 <= j < xs@.len() && xs@[j] == x;
                        }
                        assert forall|y2: usize| #[trigger]
                            supported(ya0, xb0, region@, (k.0, y2)) implies y2 == k.1 by {
                            assert(ys@.contains(y2));
                            let j = choose|j: int| 0 <= j < ys@.len() && ys@[j] == y2;
                        }
                        assert forall|x2: usize| #[trigger]
                            supported(ya0, xb0, region@, (x2, k.1)) implies x2 == k.0 by {
                            assert(xs@.contains(x2));
                            let j = choose|j: int| 0 <= j < xs@.len() && xs@[j] == x2;
                        }
                        assert(unique_match(ya0, xb0, region@, k));
                    }
                    let ghost r0 = r@;
                    r.push(Coordinates(X(x), Y(y)));
                    proof {
                        assert(r@[r0.len() as int].key() == k);
                        assert forall|m: int| 0 <= m < r@.len() implies unique_match(
                            ya0,
                            xb0,
                            region@,
                            #[trigger] r@[m].key(),
                        ) by {
                            if m < r0.len() {
                                assert(r@[m] == r0[m]);
                            }
                        }
                        assert forall|m: int, j: int|
                            0 <= m < r@.len() && i + 1 <= j < xb@.len() implies #[trigger] xb@[j]
                            != #[trigger] r@[m].0.0 by {
                            if m < r0.len() {
                                assert(r@[m] == r0[m]);
                            } else {
                                assert(xb@[i as int] == x);
                            }
                        }
                        assert forall|a: int, b: int|
                            0 <= a < b < r@.len() implies #[trigger] r@[a].0.0 != #[trigger] r@[b].0.0 by {
                            assert(r@[a] == r0[a]);
                            if b < r0.len() {
                                assert(r@[b] == r0[b]);
                            } else {
                                assert(xb@[i as int] != r0[a].0.0);
                            }
                        }
                        assert forall|j: int, y2: usize|
                            0 <= j < i + 1 && #[trigger] unique_match(
                                ya0,
                                xb0,
                                region@,
                                (xb@[j], y2),
                            ) implies exists|m: int|
                            0 <= m < r@.len() && #[trigger] r@[m].key() == (xb@[j], y2) by {
                            if j < i {
                                let m = choose|m: int|
                                    0 <= m < r0.len() && #[trigger] r0[m].key() == (xb@[j], y2);
                                assert(r@[m] == r0[m]);
                            } else {
                                assert(supported(ya0, xb0, region@, (x, y2)));
                                assert(r@[r0.len() as int].key() == (xb@[j], y2));
                            }
                        }
                    }
                } else {
                    proof {
                        assert forall|j: int, y2: usize|
                            0 <= j < i + 1 && #[trigger] unique_match(
                                ya0,
                                xb0,
                                region@,
                                (xb@[j], y2),
                            ) implies exists|m: int|
                            0 <= m < r@.len() && #[trigger] r@[m].key() == (xb@[j], y2) by {
                            if j == i {
                                assert(supported(ya0, xb0, region@, (x, y2)));
                                assert(ys@.contains(y2));
                                let jj = choose|jj: int| 0 <= jj < ys@.len() && ys@[jj] == y2;
                                assert(y2 == y);
                                assert forall|t: usize| xs@.contains(t) implies t == x by {
                                    assert(supported(ya0, xb0, region@, (t, y)));
                                }
                                assert(xs@.contains(x));
                                lemma_single(xs@, x);
                            }
                        }
                    }
                }
            } else {
                proof {
                    assert forall|j: int, y2: usize|
                        0 <= j < i + 1 && #[trigger] unique_match(
                            ya0,
                            xb0,
                            region@,
                            (xb@[j], y2),
                        ) implies exists|m: int|
                        0 <= m < r@.len() && #[trigger] r@[m].key() == (xb@[j], y2) by {
                        if j == i {
                            assert forall|t: usize| ys@.contains(t) implies t == y2 by {
                                assert(supported(ya0, xb0, region@, (x, t)));
                            }
                            assert(supported(ya0, xb0, region@, (x, y2)));
                            lemma_single(ys@, y2);
                        }
                    }
                }
            }
            i += 1;
        }
        proof {
            assert forall|k: (usize, usize)|
                unique_match(ya0, xb0, region@, k) implies exists|m: int|
                0 <= m < r@.len() && #[trigger] r@[m].key() == k by {
                assert(xb@.contains(k.0));
                let j = choose|j: int| 0 <= j < xb@.len() && xb@[j] == k.0;
                assert(unique_match(ya0, xb0, region@, (xb@[j], k.1)));
            }
            assert forall|a: int, b: int|
                0 <= a < b < r@.len() implies #[trigger] r@[a].key() != #[trigger] r@[b].key() by {
                assert(r@[a].0.0 != r@[b].0.0);
            }
        }
        r
    }
    /// Promotes the one-to-one matches of the two tokens' sentences within
    /// `region`. Where the batch is `blocked` (a match with no score yet, or
    /// one that becomes an anchor now, would cross an anchor, or two matches
    /// that are anchors afterwards cross), nothing changes and nothing is
    /// returned; otherwise each gains one and all are returned. Anchors that
    /// did not cross before do not cross afterwards.
    pub fn align_sentences(
        &self,
        region: &AlignableSentenceTable,
        a_index: &WordSentenceIndex,
        b_index: &WordSentenceIndex,
        sat: &mut SentenceAlignmentTable,
    ) -> (r: Vec<Coordinates>)
        requires
            old(sat).wf(),
            forall|i: int|
                0 <= i < a_index.sentences_of(self.a).len() ==> #[trigger] a_index.sentences_of(
                    self.a,
                )[i] <= old(sat).end_key().1,
            forall|i: int|
                0 <= i < b_index.sentences_of(self.b).len() ==> #[trigger] b_index.sentences_of(
                    self.b,
                )[i] <= old(sat).end_key().0,
        ensures
            final(sat).wf(),
            final(sat).threshold() == old(sat).threshold(),
            final(sat).end_key() == old(sat).end_key(),
            forall|i: int| 0 <= i < r@.len() ==> region@.contains(#[trigger] r@[i].key()),
            forall|i: int, j: int|
                0 <= i < j < r@.len() ==> #[trigger] r@[i].key() != #[trigger] r@[j].key(),
            old(sat).monotone() ==> final(sat).monotone(),
            if blocked(*old(sat), a_index.sentences_of(self.a), b_index.sentences_of(self.b), region@) {
                &&& r@.len() == 0
                &&& final(sat)@ == old(sat)@
            } else {
                &&& forall|k: (usize, usize)|
                    unique_match(
                        a_index.sentences_of(self.a),
                        b_index.sentences_of(self.b),
                        region@,
                        k,
                    ) <==> exists|i: int| 0 <= i < r@.len() && #[trigger] r@[i].key() == k
                &&& forall|k: (usize, usize)|
                    #[trigger] final(sat).score_of(k) == if unique_match(
                        a_index.sentences_of(self.a),
                        b_index.sentences_of(self.b),
                        region@,
                        k,
                    ) {
                        bump(old(sat).score_of(k))
                    } else {
                        old(sat).score_of(k)
                    }
            },
    {
        let ghost ya0 = a_index.sentences_of(self.a);
        let ghost xb0 = b_index.sentences_of(self.b);
        let found = self.unique_matches(region, a_index, b_index);
        proof {
            assert forall|m: int| 0 <= m < found@.len() implies unique_match(
                ya0,
                xb0,
                region@,
                #[trigger] found@[m].key(),
            ) by {
                let k = found@[m].key();
                assert(exists|i: int| 0 <= i < found@.len() && #[trigger] found@[i].key() == k);
            }
        }
        let threshold = sat.anchor_threshold().0;
        let mut i: usize = 0;
        while i < found.len()
            invariant
                sat.wf(),
                *sat == *old(sat),
                threshold == sat.threshold(),
                ya0 == a_index.sentences_of(self.a),
                xb0 == b_index.sentences_of(self.b),
                forall|m: int|
                    0 <= m < found@.len() ==> unique_match(ya0, xb0, region@, #[trigger] found@[m].key()),
                i <= found@.len(),
                forall|j: int|
                    0 <= j < i ==> !(#[trigger] sat.guarded(found@[j].key()) && exists|
                        c: (usize, usize),
                    | sat.crossing_anchor(found@[j].key(), c)),
            decreases found@.len() - i,
        {
            let m = found[i];
            let s = sat.score(m).0;
            let t = if s < usize::MAX {
                s + 1
            } else {
                s
            };
            let guarded = s == 0 || (!(s > 0 && s >= threshold) && t >= threshold);
            if guarded && sat.crossover(m) {
                proof {
                    assert(found@[i as int].key() == m.key());
                    assert(unique_match(ya0, xb0, region@, m.key()));
                    assert(old(sat).guarded(m.key()));
                }
                let r: Vec<Coordinates> = Vec::new();
                assert(r@.len() == 0);
                return r;
            }
            i += 1;
        }
        let mut i: usize = 0;
        while i < found.len()
            invariant
                sat.wf(),
                *sat == *old(sat),
                threshold == sat.threshold(),
                ya0 == a_index.sentences_of(self.a),
                xb0 == b_index.sentences_of(self.b),
                forall|m: int|
                    0 <= m < found@.len() ==> unique_match(ya0, xb0, region@, #[trigger] found@[m].key()),
                i <= found@.len(),
                forall|p: int, q: int|
                    0 <= p < i && 0 <= q < found@.len() ==> !(sat.bumped_anchor(
                        #[trigger] found@[p].key(),
                    ) && sat.bumped_anchor(#[trigger] found@[q].key()) && crosses(
                        found@[p].key(),
                        found@[q].key(),
                    )),
            decreases found@.len() - i,
        {
            let p = found[i];
            let sp = sat.score(p).0;
            let bp = sp == usize::MAX || sp + 1 >= threshold;
            let mut j: usize = 0;
            while j < found.len()
                invariant
                    sat.wf(),
                    *sat == *old(sat),
                    threshold == sat.threshold(),
                    ya0 == a_index.sentences_of(self.a),
                    xb0 == b_index.sentences_of(self.b),
                    forall|m: int|
                        0 <= m < found@.len() ==> unique_match(ya0, xb0, region@, #[trigger] found@[m].key()),
                    i < found@.len(),
                    p == found@[i as int],
                    bp == sat.bumped_anchor(p.key()),
                    j <= found@.len(),
                    forall|q: int|
                        0 <= q < j ==> !(sat.bumped_anchor(p.key()) && sat.bumped_anchor(
                            #[trigger] found@[q].key(),
                        ) && crosses(p.key(), found@[q].key())),
                decreases found@.len() - j,
            {
                let q = found[j];
                let sq = sat.score(q).0;
                let bq = sq == usize::MAX || sq + 1 >= threshold;
                let cross = (p.0.0 < q.0.0 && p.1.0 > q.1.0) || (p.0.0 > q.0.0 && p.1.0 < q.1.0);
                if bp && bq && cross {
                    proof {
                        assert(found@[j as int] == q);
                        assert(unique_match(ya0, xb0, region@, p.key()));
                        assert(unique_match(ya0, xb0, region@, q.key()));
                        assert(old(sat).bumped_anchor(p.key()) && old(sat).bumped_anchor(q.key())
                            && crosses(p.key(), q.key()));
                    }
                    let r: Vec<Coordinates> = Vec::new();
                    assert(r@.len() == 0);
                    return r;
                }
                proof {
                    assert(found@[j as int] == q);
                }
                j += 1;
            }
            proof {
                assert forall|pp: int, qq: int|
                    0 <= pp < i + 1 && 0 <= qq < found@.len() implies !(sat.bumped_anchor(
                    #[trigger] found@[pp].key(),
                ) && sat.bumped_anchor(#[trigger] found@[qq].key()) && crosses(
                    found@[pp].key(),
                    found@[qq].key(),
                )) by {
                    if pp == i {
                        assert(found@[pp] == p);
                        assert(!(sat.bumped_anchor(p.key()) && sat.bumped_anchor(found@[qq].key())
                            && crosses(p.key(), found@[qq].key())));
                    }
                }
            }
            i += 1;
        }
        proof {
            assert forall|k: (usize, usize)|
                #[trigger] unique_match(ya0, xb0, region@, k) implies !(old(sat).guarded(k)
                && exists|c: (usize, usize)| old(sat).crossing_anchor(k, c)) by {
                let j = choose|j: int| 0 <= j < found@.len() && #[trigger] found@[j].key() == k;
                assert(!(sat.guarded(found@[j].key()) && exists|c: (usize, usize)|
                    sat.crossing_anchor(found@[j].key(), c)));
            }
            assert forall|k1: (usize, usize), k2: (usize, usize)|
                #[trigger] unique_match(ya0, xb0, region@, k1) && #[trigger] unique_match(
                    ya0,
                    xb0,
                    region@,
                    k2,
                ) implies !(old(sat).bumped_anchor(k1) && old(sat).bumped_anchor(k2) && crosses(
                k1,
                k2,
            )) by {
                let p = choose|j: int| 0 <= j < found@.len() && #[trigger] found@[j].key() == k1;
                let q = choose|j: int| 0 <= j < found@.len() && #[trigger] found@[j].key() == k2;
                assert(!(sat.bumped_anchor(found@[p].key()) && sat.bumped_anchor(found@[q].key())
                    && crosses(found@[p].key(), found@[q].key())));
            }
            assert(!blocked(*old(sat), ya0, xb0, region@));
        }
        let mut i: usize = 0;
        while i < found.len()
            invariant
                sat.wf(),
                sat.threshold() == old(sat).threshold(),
                sat.end_key() == old(sat).end_key(),
                ya0 == a_index.sentences_of(self.a),
                xb0 == b_index.sentences_of(self.b),
                i <= found@.len(),
                forall|m: int|
                    0 <= m < found@.len() ==> unique_match(ya0, xb0, region@, #[trigger] found@[m].key()),
                forall|a: int, b: int|
                    0 <= a < b < found@.len() ==> #[trigger] found@[a].key()
                        != #[trigger] found@[b].key(),
                forall|j: int| 0 <= j < ya0.len() ==> #[trigger] ya0[j] <= old(sat).end_key().1,
                forall|j: int| 0 <= j < xb0.len() ==> #[trigger] xb0[j] <= old(sat).end_key().0,
                forall|k: (usize, usize)|
                    #[trigger] sat.score_of(k) == if exists|j: int|
                        0 <= j < i && #[trigger] found@[j].key() == k {
                        bump(old(sat).score_of(k))
                    } else {
                        old(sat).score_of(k)
                    },
            decreases found@.len() - i,
        {
            let m = found[i];
            proof {
                assert(found@[i as int] == m);
                assert(unique_match(ya0, xb0, region@, m.key()));
                let jy = choose|j: int| 0 <= j < ya0.len() && ya0[j] == m.1.0;
                let jx = choose|j: int| 0 <= j < xb0.len() && xb0[j] == m.0.0;
            }
            let ghost before = *sat;
            sat.increment(m);
            proof {
                assert forall|k: (usize, usize)|
                    #[trigger] sat.score_of(k) == if exists|j: int|
                        0 <= j < i + 1 && #[trigger] found@[j].key() == k {
                        bump(old(sat).score_of(k))
                    } else {
                        old(sat).score_of(k)
                    } by {
                    if k == m.key() {
                        assert(found@[i as int].key() == k);
                        if exists|j: int| 0 <= j < i && #[trigger] found@[j].key() == k {
                            let j = choose|j: int| 0 <= j < i && #[trigger] found@[j].key() == k;
                            assert(false);
                        }
                        assert(before.score_of(k) == old(sat).score_of(k));
                    } else {
                        assert(sat.score_of(k) == before.score_of(k));
                        if exists|j: int| 0 <= j < i + 1 && #[trigger] found@[j].key() == k {
                            let j = choose|j: int| 0 <= j < i + 1 && #[trigger] found@[j].key() == k;
                            assert(j < i);
                        }
                    }
                }
            }
            i += 1;
        }
        proof {
            assert forall|k: (usize, usize)|
                #[trigger] sat.score_of(k) == if unique_match(ya0, xb0, region@, k) {
                    bump(old(sat).score_of(k))
                } else {
                    old(sat).score_of(k)
                } by {
                if unique_match(ya0, xb0, region@, k) {
                    let j = choose|j: int| 0 <= j < found@.len() && #[trigger] found@[j].key() == k;
                    assert(exists|j: int| 0 <= j < i && #[trigger] found@[j].key() == k);
                } else if exists|j: int| 0 <= j < i && #[trigger] found@[j].key() == k {
                    let j = choose|j: int| 0 <= j < i && #[trigger] found@[j].key() == k;
                    assert(unique_match(ya0, xb0, region@, found@[j].key()));
                }
            }
            assert forall|j: int| 0 <= j < found@.len() implies region@.contains(
                #[trigger] found@[j].key(),
            ) by {
                assert(unique_match(ya0, xb0, region@, found@[j].key()));
            }
        }
        proof {
            if old(sat).monotone() {
                assert forall|a: (usize, usize), b: (usize, usize)|
                    sat.is_anchor(a) && sat.is_anchor(b) implies !crosses(a, b) by {
                    let ua = unique_match(ya0, xb0, region@, a);
                    let ub = unique_match(ya0, xb0, region@, b);
                    if !ua && !ub {
                        assert(old(sat).is_anchor(a) && old(sat).is_anchor(b));
                    } else if ua && ub {
                        assert(old(sat).bumped_anchor(a) && old(sat).bumped_anchor(b));
                    } else if ua {
                        assert(old(sat).is_anchor(b));
                        if !old(sat).is_anchor(a) {
                            assert(old(sat).guarded(a));
                            assert(!old(sat).crossing_anchor(a, b));
                        }
                    } else {
                        assert(old(sat).is_anchor(a));
                        if !old(sat).is_anchor(b) {
                            assert(old(sat).guarded(b));
                            assert(!old(sat).crossing_anchor(b, a));
                        }
                    }
                }
            }
        }
        found
    }
}

} // verus!
