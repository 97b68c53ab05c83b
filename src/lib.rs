//! Unsupervised sentence alignment of two texts from token co-occurrence.
use vstd::prelude::*;

pub mod alignable_sentence_table;
pub mod output;
pub mod sentence_alignment_table;
pub mod word_association;
pub mod word_association_table;
pub mod word_sentence_index;

pub use alignable_sentence_table::AlignableSentenceTable;
pub use output::Output;
pub use sentence_alignment_table::{Score, SentenceAlignmentTable};
pub use word_sentence_index::WordSentenceIndex;

use alignable_sentence_table::MAX_SENTENCES;
use output::ascending;
use vstd::set_lib::set_int_range;
use word_association::unique_match;
use word_association_table::word_association_table;
use word_sentence_index::{lemma_positions_bounded, lemma_positions_hold, positions};

verus! {

/// Index of a sentence of text B.
#[derive(Clone, Copy, Debug, PartialEq, Eq, Structural, Hash)]
pub struct X(pub usize);

/// Index of a sentence of text A.
#[derive(Clone, Copy, Debug, PartialEq, Eq, Structural, Hash)]
pub struct Y(pub usize);

/// A pair of sentence indices: `x` in text B, `y` in text A.
#[derive(Clone, Copy, Debug, PartialEq, Eq, Structural, Hash)]
pub struct Coordinates(pub X, pub Y);

impl Coordinates {
    /// The pair as two plain indices `(x, y)`.
    pub open spec fn key(self) -> (usize, usize) {
        (self.0.0, self.1.0)
    }

    pub fn x(&self) -> (r: X)
        ensures
            r == self.0,
    {
        self.0
    }

    pub fn y(&self) -> (r: Y)
        ensures
            r == self.1,
    {
        self.1
    }
}

/// Builds the coordinates of the pair `(x, y)`.
pub open spec fn at(k: (usize, usize)) -> Coordinates {
    Coordinates(X(k.0), Y(k.1))
}

/// Two pairs cross when one lies strictly left of and strictly below the other
/// in the opposite order of the two texts.
pub open spec fn crosses(a: (usize, usize), b: (usize, usize)) -> bool {
    (a.0 < b.0 && a.1 > b.1) || (a.0 > b.0 && a.1 < b.1)
}

/// Lexicographic order on pairs: by `x`, then by `y`.
pub open spec fn lex_lt(a: (usize, usize), b: (usize, usize)) -> bool {
    a.0 < b.0 || (a.0 == b.0 && a.1 < b.1)
}

/// A sentence: an ordered sequence of tokens.
pub trait Sentence<Word> {
    fn words(&self) -> &[Word];
}

/// `max(floor, base - cycle * taper)`: a threshold after `cycle` cycles.
pub open spec fn tapered(base: int, taper: int, cycle: int, floor: int) -> int {
    if base - cycle * taper > floor {
        base - cycle * taper
    } else {
        floor
    }
}

fn tapered_exec(base: u128, taper: u128, cycle: u128, floor: u128) -> (r: u128)
    requires
        base <= u64::MAX,
        taper <= u64::MAX,
        cycle <= u64::MAX,
        floor <= u64::MAX,
    ensures
        r == tapered(base as int, taper as int, cycle as int, floor as int),
        r <= base || r == floor,
{
    assert(cycle * taper <= u64::MAX as int * u64::MAX as int) by (nonlinear_arith)
        requires
            cycle <= u64::MAX,
            taper <= u64::MAX,
    ;
    let step = cycle * taper;
    if base > step && base - step > floor {
        base - step
    } else {
        floor
    }
}

/// Some token of sentence `k.1` of `a` and some token of sentence `k.0` of
/// `b` back the pair `k`.
pub open spec fn backed(a: Seq<Vec<u64>>, b: Seq<Vec<u64>>, k: (usize, usize)) -> bool {
    exists|s: u64, t: u64| a[k.1 as int]@.contains(s) && b[k.0 as int]@.contains(t)
}

/// `aligned` sentences out of `total` reach the coverage `min` (thousandths).
pub open spec fn reached(aligned: int, total: int, min: int) -> bool {
    aligned * 1000 >= min * total
}

/// The sentences of one text that took part in a promotion.
struct AlignedSet {
    flags: Vec<bool>,
    count: usize,
    members: Ghost<Set<int>>,
}

impl AlignedSet {
    spec fn wf(&self) -> bool {
        &&& forall|i: int| 0 <= i < self.flags@.len() ==> (self.flags@[i] <==> self.members@.contains(i))
        &&& self.members@.subset_of(set_int_range(0, self.flags@.len() as int))
        &&& self.members@.finite()
        &&& self.count == self.members@.len()
        &&& self.count <= self.flags@.len()
    }

    fn new(n: usize) -> (r: Self)
        ensures
            r.wf(),
            r.flags@.len() == n,
            r.count == 0,
    {
        let mut flags: Vec<bool> = Vec::new();
        let mut i: usize = 0;
        while i < n
            invariant
                i <= n,
                flags@.len() == i,
                forall|j: int| 0 <= j < i ==> !flags@[j],
            decreases n - i,
        {
            flags.push(false);
            i += 1;
        }
        let r = AlignedSet { flags, count: 0, members: Ghost(Set::empty()) };
        r
    }

    fn insert(&mut self, i: usize)
        requires
            old(self).wf(),
            i < old(self).flags@.len(),
        ensures
            final(self).wf(),
            final(self).flags@.len() == old(self).flags@.len(),
            final(self).count >= old(self).count,
            final(self).members@ == old(self).members@.insert(i as int),
    {
        let len = self.flags.len();
        if !self.flags[i] {
            let ghost m0 = self.members@;
            self.flags.set(i, true);
            self.members = Ghost(m0.insert(i as int));
            proof {
                assert(!m0.contains(i as int));
                assert(self.members@.len() == m0.len() + 1);
                assert(self.members@.subset_of(set_int_range(0, self.flags@.len() as int)));
                vstd::set_lib::lemma_int_range(0, self.flags@.len() as int);
                vstd::set_lib::lemma_len_subset(self.members@, set_int_range(0, self.flags@.len() as int));
                assert(self.members@.len() <= self.flags@.len());
                assert(self.count == m0.len());
                assert(self.count + 1 <= len);
            }
            self.count = self.count + 1;
        } else {
            assert(self.members@ =~= self.members@.insert(i as int));
        }
    }
}

/// Settings of an alignment run. Similarities and coverage are given in
/// thousandths.
#[derive(Clone, Copy, Debug)]
pub struct Config {
    /// Score that makes a sentence pair an anchor.
    pub anchor_threshold: usize,
    /// Most cycles to run.
    pub max_cycles: usize,
    /// Occurrences each token of a pair needs, in the first cycle.
    pub word_frequency_threshold: usize,
    /// Decrease of the frequency threshold per cycle.
    pub word_frequency_taper: usize,
    /// Floor of the frequency threshold.
    pub word_frequency_minimum: usize,
    /// Similarity a pair needs, in the first cycle.
    pub word_similarity_threshold: u32,
    /// Decrease of the similarity threshold per cycle.
    pub word_similarity_taper: u32,
    /// Floor of the similarity threshold.
    pub word_similarity_minimum: u32,
    /// Share of aligned sentences at which the run stops.
    pub min_coverage: u32,
}

impl Default for Config {
    fn default() -> (r: Self)
        ensures
            r.anchor_threshold == 3,
            r.max_cycles == 20,
            r.word_frequency_threshold == 5,
            r.word_frequency_taper == 0,
            r.word_frequency_minimum == 0,
            r.word_similarity_threshold == 800,
            r.word_similarity_taper == 50,
            r.word_similarity_minimum == 300,
            r.min_coverage == 950,
    {
        Config {
            anchor_threshold: 3,
            max_cycles: 20,
            word_frequency_threshold: 5,
            word_frequency_taper: 0,
            word_frequency_minimum: 0,
            word_similarity_threshold: 800,
            word_similarity_taper: 50,
            word_similarity_minimum: 300,
            min_coverage: 950,
        }
    }
}

impl Config {
    /// Aligns the sentences of text `a` with those of text `b`, each sentence
    /// a sequence of token ids. `association_mapper` forces the association
    /// of a token of `a` with a token of `b`.
    ///
    /// Each cycle builds the region from the anchors, scores the token pairs
    /// within it at the cycle's thresholds and promotes their matches in rank
    /// order. The run stops once the coverage reaches `min_coverage` or after
    /// `max_cycles` cycles.
    pub fn align<F: Fn(u64, u64) -> bool>(
        &self,
        a: &Vec<Vec<u64>>,
        b: &Vec<Vec<u64>>,
        association_mapper: F,
    ) -> (r: Output)
        requires
            1 <= a@.len() < MAX_SENTENCES,
            1 <= b@.len() < MAX_SENTENCES,
            forall|x: u64, y: u64| association_mapper.requires((x, y)),
        ensures
            r.coverage_view().len() <= self.max_cycles,
            forall|i: int, j: int|
                0 <= i < j < r.coverage_view().len() ==> #[trigger] r.coverage_view()[i]
                    <= #[trigger] r.coverage_view()[j],
            forall|i: int|
                0 <= i < r.coverage_view().len() ==> #[trigger] r.coverage_view()[i] <= a@.len()
                    + b@.len(),
            forall|i: int|
                0 <= i < r.coverage_view().len() - 1 ==> !reached(
                    #[trigger] r.coverage_view()[i] as int,
                    (a@.len() + b@.len()) as int,
                    self.min_coverage as int,
                ),
            r.coverage_view().len() < self.max_cycles ==> reached(
                if r.coverage_view().len() == 0 {
                    0
                } else {
                    r.coverage_view().last() as int
                },
                (a@.len() + b@.len()) as int,
                self.min_coverage as int,
            ),
            forall|y: int, x: usize|
                #![trigger r.a_view(y).contains(x)]
                0 <= y < a@.len() ==> (r.a_view(y).contains(x) <==> (x as int) < b@.len() && r.b_view(x as int).contains(y as usize)),
            forall|y: int, x: usize|
                #![trigger r.a_view(y).contains(x)]
                0 <= y < a@.len() && r.a_view(y).contains(x) ==> backed(a@, b@, (x, y as usize)),
            forall|y1: int, x1: usize, y2: int, x2: usize|
                #![trigger r.a_view(y1).contains(x1), r.a_view(y2).contains(x2)]
                0 <= y1 < a@.len() && 0 <= y2 < a@.len() && r.a_view(y1).contains(x1) && r.a_view(
                    y2,
                ).contains(x2) ==> !crosses(
                    (x1, y1 as usize),
                    (x2, y2 as usize),
                ),
            forall|i: int| #[trigger] ascending(r.a_view(i)),
            forall|i: int| #[trigger] ascending(r.b_view(i)),
            forall|i: int| i >= a@.len() ==> #[trigger] r.a_view(i).len() == 0,
            forall|i: int| i >= b@.len() ==> #[trigger] r.b_view(i).len() == 0,
            r.coverage_view().len() > 0 ==> Set::new(
                |y: int| 0 <= y < a@.len() && r.a_view(y).len() > 0,
            ).len() + Set::new(|x: int| 0 <= x < b@.len() && r.b_view(x).len() > 0).len()
                <= r.coverage_view().last(),
    {
        let a_index = WordSentenceIndex::new(a);
        let b_index = WordSentenceIndex::new(b);
        let mut sat = SentenceAlignmentTable::new(a.as_slice(), b.as_slice(), Score(self.anchor_threshold));
        let mut a_aligned = AlignedSet::new(a.len());
        let mut b_aligned = AlignedSet::new(b.len());
        let total = a.len() + b.len();
        let mut cycle: usize = 0;
        let mut covered: usize = 0;
        let mut trace: Vec<usize> = Vec::new();
        assert(sat.monotone());
        assert((self.min_coverage as u128) * (total as u128) <= u64::MAX) by (nonlinear_arith)
            requires
                self.min_coverage <= u32::MAX,
                total < 0x1_0000_0000u128,
        ;
        let goal: u128 = (self.min_coverage as u128) * (total as u128);
        while (covered as u128) * 1000 < goal && cycle
            < self.max_cycles
            invariant
                sat.wf(),
                sat.end_key() == ((b@.len() - 1) as usize, (a@.len() - 1) as usize),
                1 <= a@.len() < MAX_SENTENCES,
                1 <= b@.len() < MAX_SENTENCES,
                total == a@.len() + b@.len(),
                goal == self.min_coverage * total,
                forall|x: u64, y: u64| association_mapper.requires((x, y)),
                forall|w: u64| #[trigger] a_index.sentences_of(w) == positions(a@, w),
                forall|w: u64| #[trigger] b_index.sentences_of(w) == positions(b@, w),
                a_aligned.wf(),
                b_aligned.wf(),
                a_aligned.flags@.len() == a@.len(),
                b_aligned.flags@.len() == b@.len(),
                covered == a_aligned.count + b_aligned.count,
                cycle == trace@.len(),
                cycle <= self.max_cycles,
                trace@.len() > 0 ==> trace@.last() == covered,
                trace@.len() == 0 ==> covered == 0,
                forall|i: int, j: int| 0 <= i < j < trace@.len() ==> #[trigger] trace@[i] <= #[trigger] trace@[j],
                forall|i: int| 0 <= i < trace@.len() ==> #[trigger] trace@[i] <= covered,
                forall|i: int| 0 <= i < trace@.len() ==> #[trigger] trace@[i] <= total,
                forall|i: int|
                    0 <= i < trace@.len() - 1 ==> !reached(
                        #[trigger] trace@[i] as int,
                        total as int,
                        self.min_coverage as int,
                    ),
                forall|k: (usize, usize)| #[trigger] sat.score_of(k) > 0 ==> backed(a@, b@, k),
                sat.monotone(),
                forall|k: (usize, usize)|
                    #[trigger] sat.score_of(k) > 0 ==> a_aligned.members@.contains(k.1 as int)
                        && b_aligned.members@.contains(k.0 as int),
            decreases self.max_cycles - cycle,
        {
            let ghost covered0 = covered;
            let ghost trace0 = trace@;
            let region = AlignableSentenceTable::from(&sat);
            proof {
                assert forall|k: (usize, usize)| region@.contains(k) implies k.0 < b@.len() && k.1
                    < a@.len() by {
                    assert(sat.in_bounds(k));
                }
            }
            let similarity_threshold = tapered_exec(
                self.word_similarity_threshold as u128,
                self.word_similarity_taper as u128,
                cycle as u128,
                self.word_similarity_minimum as u128,
            ) as u32;
            let frequency_threshold = tapered_exec(
                self.word_frequency_threshold as u128,
                self.word_frequency_taper as u128,
                cycle as u128,
                self.word_frequency_minimum as u128,
            ) as usize;
            let wat = word_association_table(
                a,
                b,
                &a_index,
                &b_index,
                &region,
                similarity_threshold,
                frequency_threshold,
                &association_mapper,
            );
            let mut n: usize = 0;
            while n < wat.len()
                invariant
                    sat.wf(),
                    1 <= a@.len() < MAX_SENTENCES,
                    1 <= b@.len() < MAX_SENTENCES,
                    sat.end_key() == ((b@.len() - 1) as usize, (a@.len() - 1) as usize),
                    forall|w: u64| #[trigger] a_index.sentences_of(w) == positions(a@, w),
                    forall|w: u64| #[trigger] b_index.sentences_of(w) == positions(b@, w),
                    forall|k: (usize, usize)| region@.contains(k) ==> k.0 < b@.len() && k.1 < a@.len(),
                    a_aligned.wf(),
                    b_aligned.wf(),
                    a_aligned.flags@.len() == a@.len(),
                    b_aligned.flags@.len() == b@.len(),
                    a_aligned.count + b_aligned.count >= covered0,
                    forall|k: (usize, usize)| #[trigger] sat.score_of(k) > 0 ==> backed(a@, b@, k),
                    sat.monotone(),
                    forall|k: (usize, usize)|
                        #[trigger] sat.score_of(k) > 0 ==> a_aligned.members@.contains(k.1 as int)
                            && b_aligned.members@.contains(k.0 as int),
                decreases wat@.len() - n,
            {
                let w = wat[n];
                proof {
                    lemma_positions_bounded(a@, w.a);
                    lemma_positions_bounded(b@, w.b);
                }
                proof {
                    assert forall|i: int| 0 <= i < a_index.sentences_of(w.a).len() implies #[trigger] a_index.sentences_of(
                        w.a,
                    )[i] <= sat.end_key().1 by {
                        assert(a_index.sentences_of(w.a) == positions(a@, w.a));
                        assert(positions(a@, w.a)[i] < a@.len());
                    }
                    assert forall|i: int| 0 <= i < b_index.sentences_of(w.b).len() implies #[trigger] b_index.sentences_of(
                        w.b,
                    )[i] <= sat.end_key().0 by {
                        assert(b_index.sentences_of(w.b) == positions(b@, w.b));
                        assert(positions(b@, w.b)[i] < b@.len());
                    }
                }
                let ghost sat0 = sat;
                let promoted = w.align_sentences(&region, &a_index, &b_index, &mut sat);
                proof {
                    assert forall|k: (usize, usize)| #[trigger] sat.score_of(k) > 0 implies backed(
                        a@,
                        b@,
                        k,
                    ) by {
                        if sat0.score_of(k) == 0 {
                            let ya = a_index.sentences_of(w.a);
                            let xb = b_index.sentences_of(w.b);
                            assert(unique_match(ya, xb, region@, k));
                            let i = choose|i: int| 0 <= i < ya.len() && ya[i] == k.1;
                            let j = choose|j: int| 0 <= j < xb.len() && xb[j] == k.0;
                            lemma_positions_hold(a@, w.a, i);
                            lemma_positions_hold(b@, w.b, j);
                        }
                    }
                    assert forall|k: (usize, usize)| #[trigger] sat.score_of(k) > 0 implies (sat0.score_of(k)
                        > 0 || exists|i: int| 0 <= i < promoted@.len() && promoted@[i].key() == k) by {
                        if sat0.score_of(k) == 0 {
                            assert(unique_match(a_index.sentences_of(w.a), b_index.sentences_of(w.b), region@, k));
                            assert(exists|i: int| 0 <= i < promoted@.len() && #[trigger] promoted@[i].key() == k);
                        }
                    }
                }
                let mut m: usize = 0;
                while m < promoted.len()
                    invariant
                        forall|i: int| 0 <= i < promoted@.len() ==> region@.contains(#[trigger] promoted@[i].key()),
                        forall|k: (usize, usize)| region@.contains(k) ==> k.0 < b@.len() && k.1 < a@.len(),
                        a_aligned.wf(),
                        b_aligned.wf(),
                        a_aligned.flags@.len() == a@.len(),
                        b_aligned.flags@.len() == b@.len(),
                        a_aligned.count + b_aligned.count >= covered0,
                        m <= promoted@.len(),
                        forall|k: (usize, usize)|
                            #[trigger] sat.score_of(k) > 0 ==> (sat0.score_of(k) > 0 || exists|i: int|
                                0 <= i < promoted@.len() && promoted@[i].key() == k),
                        forall|k: (usize, usize)|
                            #[trigger] sat0.score_of(k) > 0 ==> a_aligned.members@.contains(k.1 as int)
                                && b_aligned.members@.contains(k.0 as int),
                        forall|i: int|
                            0 <= i < m ==> a_aligned.members@.contains(#[trigger] promoted@[i].key().1 as int)
                                && b_aligned.members@.contains(promoted@[i].key().0 as int),
                    decreases promoted@.len() - m,
                {
                    let c = promoted[m];
                    proof {
                        assert(region@.contains(promoted@[m as int].key()));
                    }
                    a_aligned.insert(c.1.0);
                    b_aligned.insert(c.0.0);
                    proof {
                        assert(promoted@[m as int] == c);
                    }
                    m += 1;
                }
                proof {
                    assert forall|k: (usize, usize)| #[trigger] sat.score_of(k) > 0 implies a_aligned.members@.contains(
                        k.1 as int,
                    ) && b_aligned.members@.contains(k.0 as int) by {
                        if sat0.score_of(k) == 0 {
                            let i = choose|i: int| 0 <= i < promoted@.len() && promoted@[i].key() == k;
                            assert(a_aligned.members@.contains(promoted@[i].key().1 as int));
                        }
                    }
                }
                n += 1;
            }
            cycle += 1;
            covered = a_aligned.count + b_aligned.count;
            trace.push(covered);
            proof {
                assert(trace@ == trace0.push(covered));
                assert forall|i: int, j: int| 0 <= i < j < trace@.len() implies #[trigger] trace@[i]
                    <= #[trigger] trace@[j] by {
                    if j < trace0.len() {
                        assert(trace@[i] == trace0[i] && trace@[j] == trace0[j]);
                    } else {
                        assert(trace@[i] == trace0[i] || i == trace0.len());
                    }
                }
                assert forall|i: int| 0 <= i < trace@.len() implies #[trigger] trace@[i] <= covered by {
                    if i < trace0.len() {
                        assert(trace@[i] == trace0[i]);
                    }
                }
                assert forall|i: int| 0 <= i < trace@.len() implies #[trigger] trace@[i] <= total by {
                    if i < trace0.len() {
                        assert(trace@[i] == trace0[i]);
                    }
                }
                assert forall|i: int|
                    0 <= i < trace@.len() - 1 implies !reached(
                    #[trigger] trace@[i] as int,
                    total as int,
                    self.min_coverage as int,
                ) by {
                    assert(trace@[i] == trace0[i]);
                    if i == trace0.len() - 1 {
                        assert(trace0.last() == covered0);
                    }
                }
            }
        }
        let r = Output::new(a.len(), b.len(), &sat, trace);
        proof {
            assert forall|y: int, x: usize|
                0 <= y < a@.len() implies (#[trigger] r.a_view(y).contains(x) <==> (x as int) < b@.len()
                && r.b_view(x as int).contains(y as usize)) by {
                if sat.is_anchor((x, y as usize)) {
                    sat.lemma_anchor_in_bounds((x, y as usize));
                    assert(sat.score_of((x, y as usize)) > 0);
                }
            }
            let sa = Set::new(|y: int| 0 <= y < a@.len() && r.a_view(y).len() > 0);
            let sb = Set::new(|x: int| 0 <= x < b@.len() && r.b_view(x).len() > 0);
            assert forall|y: int| sa.contains(y) implies a_aligned.members@.contains(y) by {
                let x = r.a_view(y)[0];
                assert(r.a_view(y).contains(x));
                assert(sat.is_anchor((x, y as usize)));
                assert(sat.score_of((x, y as usize)) > 0);
            }
            assert forall|x: int| sb.contains(x) implies b_aligned.members@.contains(x) by {
                let y = r.b_view(x)[0];
                assert(r.b_view(x).contains(y));
                assert(sat.is_anchor((x as usize, y)));
                assert(sat.score_of((x as usize, y)) > 0);
            }
            vstd::set_lib::lemma_len_subset(sa, a_aligned.members@);
            vstd::set_lib::lemma_len_subset(sb, b_aligned.members@);
            assert forall|y1: int, x1: usize, y2: int, x2: usize|
                0 <= y1 < a@.len() && 0 <= y2 < a@.len() && r.a_view(y1).contains(x1) && r.a_view(
                    y2,
                ).contains(x2) implies !crosses((x1, y1 as usize), (x2, y2 as usize)) by {
                assert(sat.is_anchor((x1, y1 as usize)) && sat.is_anchor((x2, y2 as usize)));
            }
        }
        r
    }
}

} // verus!
