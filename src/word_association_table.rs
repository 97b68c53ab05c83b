//! The order in which scored token pairs are applied.
use vstd::multiset::Multiset;
use vstd::prelude::*;

use std::collections::{HashMap, HashSet};

use crate::alignable_sentence_table::AlignableSentenceTable;
use crate::word_association::{association_of, WordAssociation};
use crate::word_sentence_index::{positions, WordSentenceIndex};

verus! {

broadcast use {vstd::seq_lib::group_to_multiset_ensures, vstd::std_specs::hash::group_hash_axioms};

/// `p` is applied before `q`: higher similarity first, then the larger sum of
/// occurrences, then the smaller token of text A, then the smaller token of
/// text B.
pub open spec fn outranks(p: WordAssociation, q: WordAssociation) -> bool {
    let sp = p.similarity.numerator * q.similarity.denominator;
    let sq = q.similarity.numerator * p.similarity.denominator;
    let op = p.a_occurrences + p.b_occurrences;
    let oq = q.a_occurrences + q.b_occurrences;
    sp > sq || (sp == sq && (op > oq || (op == oq && (p.a < q.a || (p.a == q.a && p.b < q.b)))))
}

/// A similarity whose terms keep the comparisons within `u128`.
pub open spec fn ranked_form(p: WordAssociation) -> bool {
    0 < p.similarity.denominator <= u64::MAX && p.similarity.numerator <= u64::MAX
}

proof fn lemma_cross(a: int, b: int, c: int, d: int, e: int, f: int)
    requires
        b > 0,
        d > 0,
        f > 0,
        a * d >= c * b,
        c * f >= e * d,
    ensures
        a * f >= e * b,
        (a * d > c * b || c * f > e * d) ==> a * f > e * b,
        (a * d == c * b && c * f == e * d) ==> a * f == e * b,
{
    assert(a * d * f >= c * b * f) by (nonlinear_arith)
        requires
            a * d >= c * b,
            f > 0,
    ;
    assert(c * f * b >= e * d * b) by (nonlinear_arith)
        requires
            c * f >= e * d,
            b > 0,
    ;
    assert(a * f * d >= e * b * d) by (nonlinear_arith)
        requires
            a * d * f >= c * b * f,
            c * f * b >= e * d * b,
    ;
    assert(a * f >= e * b) by (nonlinear_arith)
        requires
            a * f * d >= e * b * d,
            d > 0,
    ;
    if a * d > c * b || c * f > e * d {
        assert(a * d * f > c * b * f || c * f * b > e * d * b) by (nonlinear_arith)
            requires
                a * d > c * b || c * f > e * d,
                f > 0,
                b > 0,
        ;
        assert(a * f * d > e * b * d) by (nonlinear_arith)
            requires
                a * d * f >= c * b * f,
                c * f * b >= e * d * b,
                a * d * f > c * b * f || c * f * b > e * d * b,
        ;
        assert(a * f > e * b) by (nonlinear_arith)
            requires
                a * f * d > e * b * d,
                d > 0,
        ;
    }
    if a * d == c * b && c * f == e * d {
        assert(a * f * d == e * b * d) by (nonlinear_arith)
            requires
                a * d == c * b,
                c * f == e * d,
        ;
        assert(a * f == e * b) by (nonlinear_arith)
            requires
                a * f * d == e * b * d,
                d > 0,
        ;
    }
}

/// The ranking is transitive.
pub proof fn lemma_outranks_transitive(p: WordAssociation, q: WordAssociation, r: WordAssociation)
    requires
        ranked_form(p),
        ranked_form(q),
        ranked_form(r),
        outranks(p, q),
        outranks(q, r),
    ensures
        outranks(p, r),
{
    lemma_cross(
        p.similarity.numerator as int,
        p.similarity.denominator as int,
        q.similarity.numerator as int,
        q.similarity.denominator as int,
        r.similarity.numerator as int,
        r.similarity.denominator as int,
    );
}

/// The ranking is asymmetric.
pub proof fn lemma_outranks_asymmetric(p: WordAssociation, q: WordAssociation)
    ensures
        !(outranks(p, q) && outranks(q, p)),
{
    let (a, b, c, d) = (
        p.similarity.numerator as int,
        p.similarity.denominator as int,
        q.similarity.numerator as int,
        q.similarity.denominator as int,
    );
    assert(a * d == d * a && c * b == b * c) by (nonlinear_arith);
}

/// Whether `p` is applied before `q`.
pub fn outranks_exec(p: &WordAssociation, q: &WordAssociation) -> (r: bool)
    requires
        ranked_form(*p),
        ranked_form(*q),
    ensures
        r == outranks(*p, *q),
{
    assert(p.similarity.numerator * q.similarity.denominator <= u64::MAX as int * u64::MAX as int)
        by (nonlinear_arith)
        requires
            p.similarity.numerator <= u64::MAX,
            q.similarity.denominator <= u64::MAX,
    ;
    assert(q.similarity.numerator * p.similarity.denominator <= u64::MAX as int * u64::MAX as int)
        by (nonlinear_arith)
        requires
            q.similarity.numerator <= u64::MAX,
            p.similarity.denominator <= u64::MAX,
    ;
    let sp = p.similarity.numerator * q.similarity.denominator;
    let sq = q.similarity.numerator * p.similarity.denominator;
    let op = p.a_occurrences as u128 + p.b_occurrences as u128;
    let oq = q.a_occurrences as u128 + q.b_occurrences as u128;
    sp > sq || (sp == sq && (op > oq || (op == oq && (p.a < q.a || (p.a == q.a && p.b < q.b)))))
}

/// `v` in the order of application: a permutation of `v` in which no entry is
/// outranked by a later one.
pub fn rank(v: Vec<WordAssociation>) -> (r: Vec<WordAssociation>)
    requires
        forall|i: int| 0 <= i < v@.len() ==> ranked_form(#[trigger] v@[i]),
    ensures
        r@.to_multiset() == v@.to_multiset(),
        forall|i: int, j: int| 0 <= i < j < r@.len() ==> !outranks(#[trigger] r@[j], #[trigger] r@[i]),
{
    let ghost all = v@;
    let mut rest = v;
    let mut out: Vec<WordAssociation> = Vec::new();
    while rest.len() > 0
        invariant
            out@.to_multiset().add(rest@.to_multiset()) == all.to_multiset(),
            forall|i: int| 0 <= i < rest@.len() ==> ranked_form(#[trigger] rest@[i]),
            forall|i: int, j: int|
                0 <= i < j < out@.len() ==> !outranks(#[trigger] out@[j], #[trigger] out@[i]),
            forall|i: int, j: int|
                0 <= i < out@.len() && 0 <= j < rest@.len() ==> !outranks(
                    #[trigger] rest@[j],
                    #[trigger] out@[i],
                ),
        decreases rest@.len(),
    {
        let mut best: usize = 0;
        let mut i: usize = 1;
        while i < rest.len()
            invariant
                0 <= best < i <= rest@.len(),
                forall|k: int| 0 <= k < rest@.len() ==> ranked_form(#[trigger] rest@[k]),
                forall|j: int| 0 <= j < i ==> !outranks(#[trigger] rest@[j], rest@[best as int]),
            decreases rest@.len() - i,
        {
            if outranks_exec(&rest[i], &rest[best]) {
                proof {
                    assert forall|j: int| 0 <= j < i + 1 implies !outranks(
                        #[trigger] rest@[j],
                        rest@[i as int],
                    ) by {
                        lemma_outranks_asymmetric(rest@[j], rest@[i as int]);
                        if outranks(rest@[j], rest@[i as int]) {
                            lemma_outranks_transitive(
                                rest@[j],
                                rest@[i as int],
                                rest@[best as int],
                            );
                        }
                    }
                }
                best = i;
            } else {
                proof {
                    lemma_outranks_asymmetric(rest@[i as int], rest@[i as int]);
                }
            }
            i += 1;
        }
        let ghost rest0 = rest@;
        let ghost out0 = out@;
        let x = rest.remove(best);
        out.push(x);
        proof {
            assert(rest@ == rest0.remove(best as int));
            assert(out@ == out0.push(x));
            assert(rest0.remove(best as int).to_multiset() == rest0.to_multiset().remove(x));
            assert(out@.to_multiset() == out0.to_multiset().insert(x));
            assert(rest0.to_multiset().contains(x)) by {
                assert(rest0[best as int] == x);
            }
            assert(out@.to_multiset().add(rest@.to_multiset()) =~= all.to_multiset());
            assert forall|i: int| 0 <= i < rest@.len() implies ranked_form(#[trigger] rest@[i]) by {
                if i < best {
                    assert(rest@[i] == rest0[i]);
                } else {
                    assert(rest@[i] == rest0[i + 1]);
                }
            }
            assert forall|i: int, j: int|
                0 <= i < j < out@.len() implies !outranks(#[trigger] out@[j], #[trigger] out@[i]) by {
                if j == out0.len() {
                    assert(out@[i] == out0[i]);
                    assert(!outranks(rest0[best as int], out0[i]));
                } else {
                    assert(out@[i] == out0[i] && out@[j] == out0[j]);
                }
            }
            assert forall|i: int, j: int|
                0 <= i < out@.len() && 0 <= j < rest@.len() implies !outranks(
                #[trigger] rest@[j],
                #[trigger] out@[i],
            ) by {
                let jj = if j < best {
                    j
                } else {
                    j + 1
                };
                assert(rest@[j] == rest0[jj]);
                if i < out0.len() {
                    assert(out@[i] == out0[i]);
                    assert(!outranks(rest0[jj], out0[i]));
                } else {
                    assert(!outranks(rest0[jj], rest0[best as int]));
                }
            }
        }
    }
    proof {
        assert(rest@.to_multiset() =~= Multiset::empty());
        assert(out@.to_multiset() =~= all.to_multiset());
    }
    out
}

/// `w` reaches the similarity threshold `similarity` (in thousandths) and
/// both of its tokens occur at least `frequency` times.
pub open spec fn passes(w: WordAssociation, similarity: u32, frequency: usize) -> bool {
    &&& w.similarity.numerator * 1000 >= similarity * w.similarity.denominator
    &&& w.a_occurrences >= frequency
    &&& w.b_occurrences >= frequency
}

/// `a` occurs in sentence `y` of text A and `b` in sentence `x` of text B,
/// for some pair `(x, y)` of `region`.
pub open spec fn co_occur(
    a_text: Seq<Vec<u64>>,
    b_text: Seq<Vec<u64>>,
    region: Set<(usize, usize)>,
    a: u64,
    b: u64,
) -> bool {
    exists|k: (usize, usize)|
        #[trigger] region.contains(k) && k.1 < a_text.len() && k.0 < b_text.len() && a_text[k.1 as int]@.contains(a)
            && b_text[k.0 as int]@.contains(b)
}

pub open spec fn seen(m: Map<u64, HashSet<u64>>, a: u64, b: u64) -> bool {
    m.contains_key(a) && m[a]@.contains(b)
}

fn is_seen(m: &HashMap<u64, HashSet<u64>>, a: u64, b: u64) -> (r: bool)
    ensures
        r == seen(m@, a, b),
{
    match m.get(&a) {
        Some(bs) => bs.contains(&b),
        None => false,
    }
}

fn mark(m: &mut HashMap<u64, HashSet<u64>>, a: u64, b: u64)
    ensures
        forall|a2: u64, b2: u64|
            #[trigger] seen(final(m)@, a2, b2) <==> seen(old(m)@, a2, b2) || (a2 == a && b2 == b),
{
    let mut bs = match m.remove(&a) {
        Some(bs) => bs,
        None => HashSet::new(),
    };
    bs.insert(b);
    m.insert(a, bs);
}

/// Whether `w` reaches both thresholds.
fn passes_exec(w: &WordAssociation, similarity: u32, frequency: usize) -> (r: bool)
    requires
        ranked_form(*w),
    ensures
        r == passes(*w, similarity, frequency),
{
    assert(similarity * w.similarity.denominator <= u32::MAX as int * u64::MAX as int) by (nonlinear_arith)
        requires
            similarity <= u32::MAX,
            w.similarity.denominator <= u64::MAX,
    ;
    w.similarity.numerator * 1000 >= (similarity as u128) * w.similarity.denominator
        && w.a_occurrences >= frequency && w.b_occurrences >= frequency
}

/// Some entry of `s` is the association of `a` and `b`.
pub open spec fn listed(s: Seq<WordAssociation>, a: u64, b: u64) -> bool {
    exists|i: int| 0 <= i < s.len() && (#[trigger] s[i]).a == a && s[i].b == b
}

/// Both tokens occur at most `i32::MAX` times, which the alignment
/// primitive can count.
pub open spec fn countable(a_index: WordSentenceIndex, b_index: WordSentenceIndex, a: u64, b: u64) -> bool {
    a_index.sentences_of(a).len() <= i32::MAX && b_index.sentences_of(b).len() <= i32::MAX
}

/// The pair `a`, `b` was dealt with: it is listed in `found`, it cannot be
/// counted, or its association misses a threshold for an answer that
/// `mapper` gave for it.
pub open spec fn dealt_with<F: Fn(u64, u64) -> bool>(
    found: Seq<WordAssociation>,
    region: Set<(usize, usize)>,
    a_index: WordSentenceIndex,
    b_index: WordSentenceIndex,
    mapper: F,
    similarity: u32,
    frequency: usize,
    a: u64,
    b: u64,
) -> bool {
    ||| listed(found, a, b)
    ||| !countable(a_index, b_index, a, b) && exists|forced: bool|
        mapper.ensures((a, b), forced) && !forced
    ||| exists|forced: bool|
        mapper.ensures((a, b), forced) && !passes(
            association_of(region, a_index, b_index, a, b, forced),
            similarity,
            frequency,
        )
}

/// Every token of sentence `k.1` of text A has met every token of sentence
/// `k.0` of text B.
pub open spec fn cell_done(
    v: Map<u64, HashSet<u64>>,
    a_text: Seq<Vec<u64>>,
    b_text: Seq<Vec<u64>>,
    k: (usize, usize),
) -> bool {
    forall|a: u64, b: u64|
        a_text[k.1 as int]@.contains(a) && b_text[k.0 as int]@.contains(b) ==> #[trigger] seen(v, a, b)
}

proof fn lemma_take_push_contains(s: Seq<u64>, j: int, t: u64)
    requires
        0 <= j < s.len(),
    ensures
        s.take(j + 1).contains(t) <==> s.take(j).contains(t) || t == s[j],
{
    assert(s.take(j + 1) =~= s.take(j).push(s[j]));
    if s.take(j).contains(t) {
        let i = choose|i: int| 0 <= i < j && #[trigger] s.take(j)[i] == t;
        assert(s.take(j + 1)[i] == t);
    }
    if t == s[j] {
        assert(s.take(j + 1)[j] == t);
    }
    if s.take(j + 1).contains(t) {
        let i = choose|i: int| 0 <= i < j + 1 && #[trigger] s.take(j + 1)[i] == t;
        if i < j {
            assert(s.take(j)[i] == t);
        }
    }
}

/// The token pairs of the sentence pairs of `region`, each scored once, kept
/// where they reach both thresholds, in the order of application.
/// `association_mapper` forces a pair; a pair that is not forced and has a
/// token that occurs more than `i32::MAX` times, which the alignment
/// primitive cannot count, is left out.
pub fn word_association_table<F: Fn(u64, u64) -> bool>(
    a_text: &Vec<Vec<u64>>,
    b_text: &Vec<Vec<u64>>,
    a_index: &WordSentenceIndex,
    b_index: &WordSentenceIndex,
    region: &AlignableSentenceTable,
    similarity_threshold: u32,
    frequency_threshold: usize,
    association_mapper: &F,
) -> (r: Vec<WordAssociation>)
    requires
        region.wf(),
        forall|k: (usize, usize)|
            region@.contains(k) ==> k.0 < b_text@.len() && k.1 < a_text@.len(),
        forall|w: u64| #[trigger] a_index.sentences_of(w) == positions(a_text@, w),
        forall|w: u64| #[trigger] b_index.sentences_of(w) == positions(b_text@, w),
        forall|a: u64, b: u64| association_mapper.requires((a, b)),
    ensures
        forall|i: int, j: int| 0 <= i < j < r@.len() ==> !outranks(#[trigger] r@[j], #[trigger] r@[i]),
        forall|i: int, j: int|
            0 <= i < j < r@.len() ==> (#[trigger] r@[i].a, r@[i].b) != (#[trigger] r@[j].a, r@[j].b),
        forall|i: int|
            0 <= i < r@.len() ==> {
                &&& ranked_form(#[trigger] r@[i])
                &&& passes(r@[i], similarity_threshold, frequency_threshold)
                &&& co_occur(a_text@, b_text@, region@, r@[i].a, r@[i].b)
                &&& exists|forced: bool|
                    association_mapper.ensures((r@[i].a, r@[i].b), forced) && r@[i]
                        == association_of(region@, *a_index, *b_index, r@[i].a, r@[i].b, forced)
            },
        forall|a: u64, b: u64|
            #[trigger] co_occur(a_text@, b_text@, region@, a, b) ==> dealt_with(
                r@,
                region@,
                *a_index,
                *b_index,
                *association_mapper,
                similarity_threshold,
                frequency_threshold,
                a,
                b,
            ),
{
    let cells = region.all();
    let mut visited: HashMap<u64, HashSet<u64>> = HashMap::new();
    let mut found: Vec<WordAssociation> = Vec::new();
    let mut i: usize = 0;
    while i < cells.len()
        invariant
            region.wf(),
            forall|k: (usize, usize)|
                region@.contains(k) ==> k.0 < b_text@.len() && k.1 < a_text@.len(),
            forall|k: (usize, usize)|
                region@.contains(k) <==> exists|c: int|
                    0 <= c < cells@.len() && #[trigger] cells@[c].key() == k,
            forall|a: u64, b: u64| association_mapper.requires((a, b)),
            forall|n: int| 0 <= n < found@.len() ==> seen(visited@, #[trigger] found@[n].a, found@[n].b),
            forall|n: int, m: int|
                0 <= n < m < found@.len() ==> (#[trigger] found@[n].a, found@[n].b) != (
                    #[trigger] found@[m].a,
                    found@[m].b,
                ),
            forall|n: int|
                0 <= n < found@.len() ==> {
                    &&& ranked_form(#[trigger] found@[n])
                    &&& passes(found@[n], similarity_threshold, frequency_threshold)
                    &&& co_occur(a_text@, b_text@, region@, found@[n].a, found@[n].b)
                    &&& exists|forced: bool|
                        association_mapper.ensures((found@[n].a, found@[n].b), forced) && found@[n]
                            == association_of(region@, *a_index, *b_index, found@[n].a, found@[n].b, forced)
                },
            forall|a: u64, b: u64|
                #[trigger] seen(visited@, a, b) ==> dealt_with(
                    found@,
                    region@,
                    *a_index,
                    *b_index,
                    *association_mapper,
                    similarity_threshold,
                    frequency_threshold,
                    a,
                    b,
                ),
            forall|c: int| 0 <= c < i ==> cell_done(visited@, a_text@, b_text@, #[trigger] cells@[c].key()),
        decreases cells@.len() - i,
    {
        let cell = cells[i];
        proof {
            assert(region@.contains(cells@[i as int].key()));
        }
        proof {
            assert forall|n: int| 0 <= n < found@.len() implies ranked_form(#[trigger] found@[n]) by {}
            assert forall|n: int| 0 <= n < found@.len() implies passes(
                #[trigger] found@[n],
                similarity_threshold,
                frequency_threshold,
            ) by {}
            assert forall|n: int| 0 <= n < found@.len() implies co_occur(
                a_text@,
                b_text@,
                region@,
                #[trigger] found@[n].a,
                found@[n].b,
            ) by {}
        }
        let a_words = &a_text[cell.1.0];
        let b_words = &b_text[cell.0.0];
        let mut j: usize = 0;
        while j < a_words.len()
            invariant
                region.wf(),
                j <= a_words@.len(),
                region@.contains(cell.key()),
                cell == cells@[i as int],
                i < cells@.len(),
                cell.key().0 < b_text@.len() && cell.key().1 < a_text@.len(),
                *a_words == a_text@[cell.1.0 as int],
                *b_words == b_text@[cell.0.0 as int],
                forall|a: u64, b: u64| association_mapper.requires((a, b)),
                forall|n: int| 0 <= n < found@.len() ==> seen(visited@, #[trigger] found@[n].a, found@[n].b),
                forall|n: int, m: int|
                    0 <= n < m < found@.len() ==> (#[trigger] found@[n].a, found@[n].b) != (
                        #[trigger] found@[m].a,
                        found@[m].b,
                    ),
                forall|n: int|
                    0 <= n < found@.len() ==> {
                        &&& ranked_form(#[trigger] found@[n])
                        &&& passes(found@[n], similarity_threshold, frequency_threshold)
                        &&& co_occur(a_text@, b_text@, region@, found@[n].a, found@[n].b)
                        &&& exists|forced: bool|
                            association_mapper.ensures((found@[n].a, found@[n].b), forced) && found@[n]
                                == association_of(region@, *a_index, *b_index, found@[n].a, found@[n].b, forced)
                    },
                forall|a: u64, b: u64|
                    #[trigger] seen(visited@, a, b) ==> dealt_with(
                        found@,
                        region@,
                        *a_index,
                        *b_index,
                        *association_mapper,
                        similarity_threshold,
                        frequency_threshold,
                        a,
                        b,
                    ),
                forall|c: int| 0 <= c < i ==> cell_done(visited@, a_text@, b_text@, #[trigger] cells@[c].key()),
                forall|a: u64, b: u64|
                    a_words@.take(j as int).contains(a) && b_words@.contains(b) ==> #[trigger] seen(visited@, a, b),
            decreases a_words@.len() - j,
        {
            proof {
                assert forall|n: int| 0 <= n < found@.len() implies ranked_form(#[trigger] found@[n]) by {}
                assert forall|n: int| 0 <= n < found@.len() implies passes(
                    #[trigger] found@[n],
                    similarity_threshold,
                    frequency_threshold,
                ) by {}
                assert forall|n: int| 0 <= n < found@.len() implies co_occur(
                    a_text@,
                    b_text@,
                    region@,
                    #[trigger] found@[n].a,
                    found@[n].b,
                ) by {}
            }
            let a_word = a_words[j];
            let mut l: usize = 0;
            while l < b_words.len()
                invariant
                    region.wf(),
                    l <= b_words@.len(),
                    region@.contains(cell.key()),
                    cell == cells@[i as int],
                    i < cells@.len(),
                    cell.key().0 < b_text@.len() && cell.key().1 < a_text@.len(),
                    *a_words == a_text@[cell.1.0 as int],
                    *b_words == b_text@[cell.0.0 as int],
                    j < a_words@.len(),
                    a_word == a_words@[j as int],
                    forall|a: u64, b: u64| association_mapper.requires((a, b)),
                    forall|n: int| 0 <= n < found@.len() ==> seen(visited@, #[trigger] found@[n].a, found@[n].b),
                    forall|n: int, m: int|
                        0 <= n < m < found@.len() ==> (#[trigger] found@[n].a, found@[n].b) != (
                            #[trigger] found@[m].a,
                            found@[m].b,
                        ),
                    forall|n: int|
                        0 <= n < found@.len() ==> {
                            &&& ranked_form(#[trigger] found@[n])
                            &&& passes(found@[n], similarity_threshold, frequency_threshold)
                            &&& co_occur(a_text@, b_text@, region@, found@[n].a, found@[n].b)
                            &&& exists|forced: bool|
                                association_mapper.ensures((found@[n].a, found@[n].b), forced)
                                    && found@[n] == association_of(
                                    region@,
                                    *a_index,
                                    *b_index,
                                    found@[n].a,
                                    found@[n].b,
                                    forced,
                                )
                        },
                    forall|a: u64, b: u64|
                        #[trigger] seen(visited@, a, b) ==> dealt_with(
                            found@,
                            region@,
                            *a_index,
                            *b_index,
                            *association_mapper,
                            similarity_threshold,
                            frequency_threshold,
                            a,
                            b,
                        ),
                    forall|c: int| 0 <= c < i ==> cell_done(visited@, a_text@, b_text@, #[trigger] cells@[c].key()),
                    forall|a: u64, b: u64|
                        a_words@.take(j as int).contains(a) && b_words@.contains(b) ==> #[trigger] seen(visited@, a, b),
                    forall|b: u64| b_words@.take(l as int).contains(b) ==> #[trigger] seen(visited@, a_word, b),
                decreases b_words@.len() - l,
            {
                let b_word = b_words[l];
                let ghost v0 = visited@;
                let ghost f0 = found@;
                if !is_seen(&visited, a_word, b_word) {
                    mark(&mut visited, a_word, b_word);
                    let forced = association_mapper(a_word, b_word);
                    if forced || (a_index.occurrences(a_word) <= i32::MAX as usize
                        && b_index.occurrences(b_word) <= i32::MAX as usize) {
                        let w = WordAssociation::new(region, a_index, b_index, a_word, b_word, forced);
                        if passes_exec(&w, similarity_threshold, frequency_threshold) {
                            found.push(w);
                            proof {
                                assert(a_words@[j as int] == a_word);
                                assert(b_words@[l as int] == b_word);
                                assert(a_text@[cell.1.0 as int]@.contains(a_word));
                                assert(b_text@[cell.0.0 as int]@.contains(b_word));
                                assert(co_occur(a_text@, b_text@, region@, a_word, b_word));
                                assert(found@[f0.len() as int] == w);
                                assert(listed(found@, a_word, b_word));
                                assert forall|n: int| 0 <= n < found@.len() implies seen(
                                    visited@,
                                    #[trigger] found@[n].a,
                                    found@[n].b,
                                ) by {
                                    if n < f0.len() {
                                        assert(found@[n] == f0[n]);
                                        assert(seen(v0, f0[n].a, f0[n].b));
                                    }
                                }
                                assert forall|n: int, m: int|
                                    0 <= n < m < found@.len() implies (
                                    #[trigger] found@[n].a,
                                    found@[n].b,
                                ) != (#[trigger] found@[m].a, found@[m].b) by {
                                    assert(found@[n] == f0[n]);
                                    if m < f0.len() {
                                        assert(found@[m] == f0[m]);
                                    } else {
                                        assert(seen(v0, f0[n].a, f0[n].b));
                                    }
                                }
                                assert forall|n: int| 0 <= n < found@.len() implies {
                                    &&& ranked_form(#[trigger] found@[n])
                                    &&& passes(found@[n], similarity_threshold, frequency_threshold)
                                    &&& co_occur(a_text@, b_text@, region@, found@[n].a, found@[n].b)
                                    &&& exists|forced: bool|
                                        association_mapper.ensures((found@[n].a, found@[n].b), forced)
                                            && found@[n] == association_of(
                                            region@,
                                            *a_index,
                                            *b_index,
                                            found@[n].a,
                                            found@[n].b,
                                            forced,
                                        )
                                } by {
                                    if n < f0.len() {
                                        assert(found@[n] == f0[n]);
                                    } else {
                                        assert(w.a == a_word && w.b == b_word);
                                        assert(association_mapper.ensures((w.a, w.b), forced));
                                    }
                                }
                                assert forall|a: u64, b: u64|
                                    #[trigger] seen(visited@, a, b) implies dealt_with(
                                    found@,
                                    region@,
                                    *a_index,
                                    *b_index,
                                    *association_mapper,
                                    similarity_threshold,
                                    frequency_threshold,
                                    a,
                                    b,
                                ) by {
                                    if seen(v0, a, b) && listed(f0, a, b) {
                                        let n = choose|n: int|
                                            0 <= n < f0.len() && (#[trigger] f0[n]).a == a && f0[n].b == b;
                                        assert(found@[n] == f0[n]);
                                    }
                                }
                            }
                        } else {
                            proof {
                                assert(!passes(
                                    association_of(region@, *a_index, *b_index, a_word, b_word, forced),
                                    similarity_threshold,
                                    frequency_threshold,
                                ));
                            }
                        }
                    }
                }
                proof {
                    assert(b_words@[l as int] == b_word);
                    assert(seen(visited@, a_word, b_word));
                    assert forall|b: u64| b_words@.take(l + 1).contains(b) implies #[trigger] seen(
                        visited@,
                        a_word,
                        b,
                    ) by {
                        lemma_take_push_contains(b_words@, l as int, b);
                        if b != b_word {
                            assert(seen(v0, a_word, b));
                        }
                    }
                    assert forall|a: u64, b: u64|
                        a_words@.take(j as int).contains(a) && b_words@.contains(b) implies #[trigger] seen(
                        visited@,
                        a,
                        b,
                    ) by {
                        assert(seen(v0, a, b));
                    }
                    assert forall|c: int| 0 <= c < i implies cell_done(
                        visited@,
                        a_text@,
                        b_text@,
                        #[trigger] cells@[c].key(),
                    ) by {
                        assert(cell_done(v0, a_text@, b_text@, cells@[c].key()));
                        assert forall|a: u64, b: u64|
                            a_text@[cells@[c].key().1 as int]@.contains(a) && b_text@[cells@[c].key().0 as int]@.contains(b)
                            implies #[trigger] seen(visited@, a, b) by {
                            assert(seen(v0, a, b));
                        }
                    }
                    assert forall|n: int| 0 <= n < found@.len() implies ranked_form(#[trigger] found@[n]) by {}
                    assert forall|n: int| 0 <= n < found@.len() implies passes(
                        #[trigger] found@[n],
                        similarity_threshold,
                        frequency_threshold,
                    ) by {}
                    assert forall|n: int| 0 <= n < found@.len() implies co_occur(
                        a_text@,
                        b_text@,
                        region@,
                        #[trigger] found@[n].a,
                        found@[n].b,
                    ) by {}
                }
                l += 1;
            }
            proof {
                assert(b_words@.take(l as int) =~= b_words@);
                assert forall|a: u64, b: u64|
                    a_words@.take(j + 1).contains(a) && b_words@.contains(b) implies #[trigger] seen(
                    visited@,
                    a,
                    b,
                ) by {
                    lemma_take_push_contains(a_words@, j as int, a);
                }
            }
            j += 1;
        }
        proof {
            assert(a_words@.take(j as int) =~= a_words@);
            assert forall|c: int| 0 <= c < i + 1 implies cell_done(
                visited@,
                a_text@,
                b_text@,
                #[trigger] cells@[c].key(),
            ) by {
                if c == i {
                    assert forall|a: u64, b: u64|
                        a_text@[cells@[c].key().1 as int]@.contains(a) && b_text@[cells@[c].key().0 as int]@.contains(b)
                        implies #[trigger] seen(visited@, a, b) by {
                        assert(a_words@.take(j as int).contains(a));
                    }
                }
            }
        }
        i += 1;
    }
    proof {
        assert forall|n: int| 0 <= n < found@.len() implies ranked_form(#[trigger] found@[n]) by {}
    }
    let ghost f = found@;
    let r = rank(found);
    proof {
        assert forall|i: int| 0 <= i < r@.len() implies f.contains(#[trigger] r@[i]) by {
            assert(r@.to_multiset().count(r@[i]) > 0);
            assert(f.to_multiset().count(r@[i]) > 0);
        }
        assert forall|i: int| 0 <= i < r@.len() implies {
            &&& ranked_form(#[trigger] r@[i])
            &&& passes(r@[i], similarity_threshold, frequency_threshold)
            &&& co_occur(a_text@, b_text@, region@, r@[i].a, r@[i].b)
            &&& exists|forced: bool|
                association_mapper.ensures((r@[i].a, r@[i].b), forced) && r@[i]
                    == association_of(region@, *a_index, *b_index, r@[i].a, r@[i].b, forced)
        } by {
            assert(f.contains(r@[i]));
            let n = choose|n: int| 0 <= n < f.len() && f[n] == r@[i];
            assert(ranked_form(f[n]));
        }
        assert forall|i: int, j: int|
            0 <= i < j < r@.len() implies (#[trigger] r@[i].a, r@[i].b) != (#[trigger] r@[j].a, r@[j].b) by {
            assert(f.contains(r@[i]));
            assert(f.contains(r@[j]));
            let n = choose|n: int| 0 <= n < f.len() && f[n] == r@[i];
            let m = choose|m: int| 0 <= m < f.len() && f[m] == r@[j];
            if n == m {
                lemma_count_two(r@, i, j);
                lemma_pairs_distinct_no_dup(f);
                f.lemma_multiset_has_no_duplicates();
                assert(f.to_multiset().count(r@[i]) == 1);
            } else if n > m {
                assert((f[m].a, f[m].b) != (f[n].a, f[n].b));
            }
        }
        assert forall|a: u64, b: u64|
            #[trigger] co_occur(a_text@, b_text@, region@, a, b) implies dealt_with(
            r@,
            region@,
            *a_index,
            *b_index,
            *association_mapper,
            similarity_threshold,
            frequency_threshold,
            a,
            b,
        ) by {
            let k = choose|k: (usize, usize)|
                #[trigger] region@.contains(k) && k.1 < a_text@.len() && k.0 < b_text@.len()
                    && a_text@[k.1 as int]@.contains(a) && b_text@[k.0 as int]@.contains(b);
            let c = choose|c: int| 0 <= c < cells@.len() && #[trigger] cells@[c].key() == k;
            assert(cell_done(visited@, a_text@, b_text@, cells@[c].key()));
            assert(seen(visited@, a, b));
            if listed(f, a, b) {
                let n = choose|n: int| 0 <= n < f.len() && (#[trigger] f[n]).a == a && f[n].b == b;
                assert(f.to_multiset().count(f[n]) > 0);
                assert(r@.to_multiset().count(f[n]) > 0);
                assert(r@.contains(f[n]));
                let m = choose|m: int| 0 <= m < r@.len() && r@[m] == f[n];
                assert(r@[m].a == a && r@[m].b == b);
            }
        }
    }
    r
}

proof fn lemma_pairs_distinct_no_dup(f: Seq<WordAssociation>)
    requires
        forall|n: int, m: int|
            0 <= n < m < f.len() ==> (#[trigger] f[n].a, f[n].b) != (#[trigger] f[m].a, f[m].b),
    ensures
        f.no_duplicates(),
{
    assert forall|i: int, j: int| 0 <= i < f.len() && 0 <= j < f.len() && i != j implies f[i] != f[j] by {
        if i < j {
            assert((f[i].a, f[i].b) != (f[j].a, f[j].b));
        } else {
            assert((f[j].a, f[j].b) != (f[i].a, f[i].b));
        }
    }
}

proof fn lemma_count_two(s: Seq<WordAssociation>, i: int, j: int)
    requires
        0 <= i < j < s.len(),
        s[i] == s[j],
    ensures
        s.to_multiset().count(s[i]) >= 2,
{
    let x = s[i];
    let t = s.remove(j);
    assert(t[i] == x);
    assert(t.to_multiset().count(x) > 0);
    assert(s.remove(j).to_multiset() == s.to_multiset().remove(s[j]));
}

} // verus!
