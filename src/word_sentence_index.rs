//! For each token of a text, the sentences in which it occurs.
use std::collections::HashMap;
use vstd::prelude::*;

verus! {

broadcast use vstd::std_specs::hash::group_hash_axioms;

/// How many times `w` occurs in `s`.
pub open spec fn hits(s: Seq<u64>, w: u64) -> nat
    decreases s.len(),
{
    if s.len() == 0 {
        0
    } else {
        hits(s.drop_last(), w) + if s.last() == w {
            1nat
        } else {
            0nat
        }
    }
}

/// The index of each sentence of `text` once for each occurrence of `w` in it,
/// in the order of the text.
pub open spec fn positions(text: Seq<Vec<u64>>, w: u64) -> Seq<usize>
    decreases text.len(),
{
    if text.len() == 0 {
        Seq::empty()
    } else {
        positions(text.drop_last(), w) + Seq::new(
            hits(text.last()@, w),
            |_j: int| (text.len() - 1) as usize,
        )
    }
}

/// Every position of a token names a sentence of the text.
pub proof fn lemma_positions_bounded(text: Seq<Vec<u64>>, w: u64)
    ensures
        forall|i: int|
            0 <= i < positions(text, w).len() ==> (#[trigger] positions(text, w)[i] as int)
                < text.len(),
    decreases text.len(),
{
    if text.len() > 0 {
        lemma_positions_bounded(text.drop_last(), w);
        let p0 = positions(text.drop_last(), w);
        assert forall|i: int|
            0 <= i < positions(text, w).len() implies (#[trigger] positions(text, w)[i] as int)
            < text.len() by {
            if i < p0.len() {
                assert(positions(text, w)[i] == p0[i]);
            }
        }
    }
}

proof fn lemma_hits_contains(s: Seq<u64>, w: u64)
    ensures
        hits(s, w) > 0 ==> s.contains(w),
    decreases s.len(),
{
    if s.len() > 0 {
        lemma_hits_contains(s.drop_last(), w);
        if hits(s.drop_last(), w) > 0 {
            let i = choose|i: int| 0 <= i < s.drop_last().len() && s.drop_last()[i] == w;
            assert(s[i] == w);
        }
        if s.last() == w {
            assert(s[s.len() - 1] == w);
        }
    }
}

/// A position of `w` names a sentence that holds `w`.
pub proof fn lemma_positions_hold(text: Seq<Vec<u64>>, w: u64, i: int)
    requires
        0 <= i < positions(text, w).len(),
        text.len() <= usize::MAX,
    ensures
        (positions(text, w)[i] as int) < text.len(),
        text[positions(text, w)[i] as int]@.contains(w),
    decreases text.len(),
{
    lemma_positions_bounded(text, w);
    let p0 = positions(text.drop_last(), w);
    if i < p0.len() {
        lemma_positions_hold(text.drop_last(), w, i);
        assert(positions(text, w)[i] == p0[i]);
        assert(text.drop_last()[p0[i] as int] == text[p0[i] as int]);
    } else {
        lemma_hits_contains(text.last()@, w);
        assert(hits(text.last()@, w) > 0);
        assert(positions(text, w)[i] == (text.len() - 1) as usize);
        assert(((text.len() - 1) as usize) as int == text.len() - 1);
    }
}

/// Token to sentence positions, for one text.
pub struct WordSentenceIndex {
    map: HashMap<u64, Vec<usize>>,
}

impl WordSentenceIndex {
    /// The positions recorded for `w`; empty for a token never seen.
    pub closed spec fn sentences_of(&self, w: u64) -> Seq<usize> {
        if self.map@.contains_key(w) {
            self.map@[w]@
        } else {
            Seq::empty()
        }
    }

    /// Indexes `text`, a sequence of sentences of tokens, in one pass.
    pub fn new(text: &Vec<Vec<u64>>) -> (r: Self)
        ensures
            forall|w: u64| #[trigger] r.sentences_of(w) == positions(text@, w),
    {
        let mut map: HashMap<u64, Vec<usize>> = HashMap::new();
        let mut i: usize = 0;
        while i < text.len()
            invariant
                i <= text@.len(),
                forall|w: u64|
                    #[trigger] Self::entry(map@, w) == positions(text@.take(i as int), w),
            decreases text@.len() - i,
        {
            let sentence = &text[i];
            let mut j: usize = 0;
            while j < sentence.len()
                invariant
                    i < text@.len(),
                    *sentence == text@[i as int],
                    j <= sentence@.len(),
                    forall|w: u64|
                        #[trigger] Self::entry(map@, w) == positions(text@.take(i as int), w)
                            + Seq::new(hits(sentence@.take(j as int), w), |_j: int| i),
                decreases sentence@.len() - j,
            {
                let t = sentence[j];
                let ghost before = map@;
                let mut v = match map.remove(&t) {
                    Some(v) => v,
                    None => Vec::new(),
                };
                v.push(i);
                map.insert(t, v);
                proof {
                    assert(sentence@.take(j + 1).drop_last() =~= sentence@.take(j as int));
                    assert forall|w: u64|
                        #[trigger] Self::entry(map@, w) == positions(text@.take(i as int), w)
                            + Seq::new(hits(sentence@.take(j + 1), w), |_j: int| i) by {
                        if w == t {
                            assert(Seq::new(hits(sentence@.take(j + 1), w), |_j: int| i)
                                =~= Seq::new(hits(sentence@.take(j as int), w), |_j: int| i).push(
                                i,
                            ));
                            assert(Self::entry(map@, w) =~= Self::entry(before, w).push(i));
                        } else {
                            assert(Self::entry(map@, w) == Self::entry(before, w));
                        }
                    }
                }
                j += 1;
            }
            proof {
                assert(sentence@.take(j as int) =~= sentence@);
                assert(text@.take(i + 1).drop_last() =~= text@.take(i as int));
                assert forall|w: u64|
                    #[trigger] Self::entry(map@, w) == positions(text@.take(i + 1), w) by {
                    assert(text@.take(i + 1).last() == text@[i as int]);
                }
            }
            i += 1;
        }
        proof {
            assert(text@.take(i as int) =~= text@);
        }
        let r = WordSentenceIndex { map };
        assert forall|w: u64| #[trigger] r.sentences_of(w) == positions(text@, w) by {
            assert(r.sentences_of(w) == Self::entry(map@, w));
        }
        r
    }

    /// What `m` holds for `w`, empty where it holds nothing.
    pub closed spec fn entry(m: Map<u64, Vec<usize>>, w: u64) -> Seq<usize> {
        if m.contains_key(w) {
            m[w]@
        } else {
            Seq::empty()
        }
    }

    /// The sentences in which `w` occurs, once per occurrence, in text order.
    pub fn sentences(&self, w: u64) -> (r: Vec<usize>)
        ensures
            r@ == self.sentences_of(w),
    {
        match self.map.get(&w) {
            Some(v) => v.clone(),
            None => Vec::new(),
        }
    }

    /// How many times `w` occurs in the text; zero for a token never seen.
    pub fn occurrences(&self, w: u64) -> (r: usize)
        ensures
            r == self.sentences_of(w).len(),
    {
        match self.map.get(&w) {
            Some(v) => v.len(),
            None => 0,
        }
    }
}

} // verus!
