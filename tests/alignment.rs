use bitext_align::word_association::{similarity, Similarity, WordAssociation};
use bitext_align::word_association_table::rank;
use bitext_align::{
    AlignableSentenceTable, Config, Coordinates, Score, SentenceAlignmentTable, WordSentenceIndex,
    X, Y,
};

fn at(x: usize, y: usize) -> Coordinates {
    Coordinates(X(x), Y(y))
}

fn config(anchor_threshold: usize, max_cycles: usize, frequency: usize) -> Config {
    let mut c = Config::default();
    c.anchor_threshold = anchor_threshold;
    c.max_cycles = max_cycles;
    c.word_frequency_threshold = frequency;
    c
}

#[test]
fn index_lists_sentences_per_occurrence() {
    let text = vec![vec![1, 2, 1], vec![2], vec![3, 1]];
    let index = WordSentenceIndex::new(&text);
    assert_eq!(index.sentences(1), vec![0, 0, 2]);
    assert_eq!(index.sentences(2), vec![0, 1]);
    assert_eq!(index.occurrences(1), 3);
    assert_eq!(index.occurrences(3), 1);
    assert_eq!(index.occurrences(9), 0);
    assert!(index.sentences(9).is_empty());
}

#[test]
fn table_scores_start_at_zero_and_grow() {
    let a = vec![0u8; 4];
    let b = vec![0u8; 5];
    let mut sat = SentenceAlignmentTable::new(a.as_slice(), b.as_slice(), Score(2));
    assert_eq!(sat.end(), at(4, 3));
    assert_eq!(sat.score(at(1, 1)), Score(0));
    sat.increment(at(1, 1));
    sat.increment(at(1, 1));
    sat.increment(at(2, 3));
    assert_eq!(sat.score(at(1, 1)), Score(2));
    assert_eq!(sat.score(at(2, 3)), Score(1));
    assert_eq!(sat.anchors(), vec![at(1, 1)]);
}

#[test]
fn next_anchor_walks_down_and_right() {
    let a = vec![0u8; 6];
    let b = vec![0u8; 6];
    let mut sat = SentenceAlignmentTable::new(a.as_slice(), b.as_slice(), Score(1));
    assert_eq!(sat.next_anchor(None), at(0, 0));
    assert_eq!(sat.next_anchor(Some(at(0, 0))), at(5, 5));
    sat.increment(at(3, 2));
    sat.increment(at(1, 4));
    sat.increment(at(2, 2));
    assert_eq!(sat.next_anchor(Some(at(0, 0))), at(1, 4));
    assert_eq!(sat.next_anchor(Some(at(1, 1))), at(1, 4));
    assert_eq!(sat.next_anchor(Some(at(1, 4))), at(2, 2));
    assert_eq!(sat.next_anchor(Some(at(2, 2))), at(3, 2));
    assert_eq!(sat.next_anchor(Some(at(3, 2))), at(5, 5));
    assert_eq!(sat.next_anchor(Some(at(5, 5))), at(5, 5));
}

#[test]
fn next_anchor_takes_the_same_row_first() {
    let a = vec![0u8; 2];
    let b = vec![0u8; 2];
    let mut sat = SentenceAlignmentTable::new(a.as_slice(), b.as_slice(), Score(1));
    sat.increment(at(1, 0));
    assert_eq!(sat.next_anchor(Some(at(0, 0))), at(1, 0));
    assert_eq!(sat.next_anchor(Some(at(1, 0))), at(1, 1));
}

#[test]
fn promotion_rejects_a_new_anchor_that_crosses() {
    let a_text = vec![vec![], vec![], vec![], vec![], vec![], vec![7]];
    let b_text = vec![vec![], vec![], vec![], vec![], vec![8], vec![]];
    let ai = WordSentenceIndex::new(&a_text);
    let bi = WordSentenceIndex::new(&b_text);
    let mut ast = AlignableSentenceTable::new();
    ast.insert(at(4, 5));
    let mut sat = SentenceAlignmentTable::new(a_text.as_slice(), b_text.as_slice(), Score(2));
    sat.increment(at(5, 4));
    sat.increment(at(5, 4));
    sat.increment(at(4, 5));
    let w = WordAssociation::new(&ast, &ai, &bi, 7, 8, false);
    assert!(w.align_sentences(&ast, &ai, &bi, &mut sat).is_empty());
    assert_eq!(sat.score(at(4, 5)), Score(1));
}

#[test]
fn promotion_rejects_a_batch_that_crosses_itself() {
    let a_text = vec![vec![7], vec![7]];
    let b_text = vec![vec![8], vec![8]];
    let ai = WordSentenceIndex::new(&a_text);
    let bi = WordSentenceIndex::new(&b_text);
    let mut ast = AlignableSentenceTable::new();
    ast.insert(at(0, 1));
    ast.insert(at(1, 0));
    let mut sat = SentenceAlignmentTable::new(a_text.as_slice(), b_text.as_slice(), Score(1));
    let w = WordAssociation::new(&ast, &ai, &bi, 7, 8, false);
    assert!(w.align_sentences(&ast, &ai, &bi, &mut sat).is_empty());
    assert!(sat.anchors().is_empty());
}

#[test]
fn crossing_anchors_never_appear_in_a_run() {
    let (p, q, r, s, t, v) = (1, 2, 3, 4, 5, 6);
    let mut a = vec![vec![]; 10];
    let mut b = vec![vec![]; 10];
    a[4] = vec![r, t];
    a[5] = vec![p, v];
    b[4] = vec![q];
    b[5] = vec![s];
    let out = config(2, 3, 1).align(&a, &b, |_, _| false);
    for y1 in 0..10 {
        for x1 in out.a_alignments(y1) {
            for y2 in 0..10 {
                for x2 in out.a_alignments(y2) {
                    assert!(!(x1 < x2 && y1 > y2));
                }
            }
        }
    }
}

#[test]
fn crossover_sees_anchors_only() {
    let a = vec![0u8; 6];
    let b = vec![0u8; 6];
    let mut sat = SentenceAlignmentTable::new(a.as_slice(), b.as_slice(), Score(2));
    sat.increment(at(3, 3));
    assert!(!sat.crossover(at(1, 4)));
    sat.increment(at(3, 3));
    assert!(sat.crossover(at(1, 4)));
    assert!(sat.crossover(at(4, 1)));
    assert!(!sat.crossover(at(4, 4)));
    assert!(!sat.crossover(at(3, 5)));
    assert!(!sat.crossover(at(1, 1)));
}

#[test]
fn region_set_operations() {
    let mut ast = AlignableSentenceTable::new();
    ast.insert(at(1, 2));
    ast.insert(at(1, 2));
    ast.insert(at(0, 0));
    assert!(ast.contains(at(1, 2)));
    assert!(!ast.contains(at(2, 1)));
    assert_eq!(ast.all(), vec![at(1, 2), at(0, 0)]);
}

#[test]
fn region_of_empty_table_is_a_band_on_the_diagonal() {
    let a = vec![0u8; 4];
    let b = vec![0u8; 4];
    let sat = SentenceAlignmentTable::new(a.as_slice(), b.as_slice(), Score(1));
    let ast = AlignableSentenceTable::from(&sat);
    let mut cells = ast.all();
    cells.sort_by_key(|c| (c.0 .0, c.1 .0));
    assert_eq!(
        cells,
        vec![at(0, 0), at(1, 0), at(1, 1), at(2, 1), at(2, 2), at(3, 2), at(3, 3)]
    );
}

#[test]
fn region_follows_anchors() {
    let a = vec![0u8; 3];
    let b = vec![0u8; 9];
    let mut sat = SentenceAlignmentTable::new(a.as_slice(), b.as_slice(), Score(1));
    sat.increment(at(4, 1));
    let ast = AlignableSentenceTable::from(&sat);
    assert!(ast.contains(at(0, 0)));
    assert!(ast.contains(at(4, 1)));
    assert!(ast.contains(at(8, 2)));
    assert!(!ast.contains(at(0, 2)));
    assert!(!ast.contains(at(8, 0)));
}

#[test]
fn flat_segment_is_a_single_point() {
    let a = vec![0u8; 1];
    let b = vec![0u8; 4];
    let sat = SentenceAlignmentTable::new(a.as_slice(), b.as_slice(), Score(1));
    let ast = AlignableSentenceTable::from(&sat);
    assert_eq!(ast.all(), vec![at(0, 0)]);
}

#[test]
fn similarity_counts_ordered_matches_in_region() {
    let a_text = vec![vec![7], vec![7], vec![1]];
    let b_text = vec![vec![8], vec![2], vec![8]];
    let ai = WordSentenceIndex::new(&a_text);
    let bi = WordSentenceIndex::new(&b_text);
    let mut ast = AlignableSentenceTable::new();
    ast.insert(at(0, 0));
    ast.insert(at(2, 1));
    let s = similarity(&ast, &ai, &bi, 7, 8);
    assert_eq!(s, Similarity { numerator: 4, denominator: 4 });
    let mut crossing = AlignableSentenceTable::new();
    crossing.insert(at(2, 0));
    crossing.insert(at(0, 1));
    let t = similarity(&crossing, &ai, &bi, 7, 8);
    assert_eq!(t, Similarity { numerator: 2, denominator: 4 });
    assert_eq!(similarity(&crossing, &ai, &bi, 7, 8), t);
    let none = similarity(&AlignableSentenceTable::new(), &ai, &bi, 7, 8);
    assert_eq!(none, Similarity { numerator: 0, denominator: 4 });
}

#[test]
fn forced_pair_has_full_similarity_and_counts() {
    let a_text = vec![vec![7]];
    let b_text = vec![vec![8]];
    let ai = WordSentenceIndex::new(&a_text);
    let bi = WordSentenceIndex::new(&b_text);
    let ast = AlignableSentenceTable::new();
    let w = WordAssociation::new(&ast, &ai, &bi, 7, 8, true);
    assert_eq!(w.similarity, Similarity { numerator: 1, denominator: 1 });
    assert_eq!(w.a_occurrences, usize::MAX);
    assert_eq!(w.b_occurrences, usize::MAX);
    let u = WordAssociation::new(&ast, &ai, &bi, 7, 8, false);
    assert_eq!(u.similarity, Similarity { numerator: 0, denominator: 2 });
    assert_eq!(u.a_occurrences, 1);
}

fn assoc(a: u64, b: u64, num: u128, den: u128, occ: usize) -> WordAssociation {
    WordAssociation {
        a,
        b,
        similarity: Similarity { numerator: num, denominator: den },
        a_occurrences: occ,
        b_occurrences: occ,
    }
}

#[test]
fn ranking_orders_by_similarity_then_counts_then_tokens() {
    let v = vec![
        assoc(5, 1, 1, 2, 3),
        assoc(4, 1, 2, 2, 3),
        assoc(3, 1, 3, 4, 3),
        assoc(2, 2, 3, 4, 9),
        assoc(2, 1, 3, 4, 9),
        assoc(9, 9, 1, 1, usize::MAX),
    ];
    let r = rank(v);
    let order: Vec<(u64, u64)> = r.iter().map(|w| (w.a, w.b)).collect();
    assert_eq!(order, vec![(9, 9), (4, 1), (2, 1), (2, 2), (3, 1), (5, 1)]);
}

#[test]
fn promotion_takes_one_to_one_matches() {
    let a_text = vec![vec![7], vec![7], vec![]];
    let b_text = vec![vec![8], vec![], vec![8]];
    let ai = WordSentenceIndex::new(&a_text);
    let bi = WordSentenceIndex::new(&b_text);
    let mut ast = AlignableSentenceTable::new();
    ast.insert(at(0, 0));
    ast.insert(at(2, 1));
    let mut sat = SentenceAlignmentTable::new(a_text.as_slice(), b_text.as_slice(), Score(1));
    let w = WordAssociation::new(&ast, &ai, &bi, 7, 8, false);
    let mut got = w.align_sentences(&ast, &ai, &bi, &mut sat);
    got.sort_by_key(|c| c.0 .0);
    assert_eq!(got, vec![at(0, 0), at(2, 1)]);
    assert_eq!(sat.score(at(2, 1)), Score(1));
}

#[test]
fn promotion_rejects_batch_that_crosses() {
    let a_text = vec![vec![7], vec![], vec![], vec![]];
    let b_text = vec![vec![], vec![], vec![8], vec![]];
    let ai = WordSentenceIndex::new(&a_text);
    let bi = WordSentenceIndex::new(&b_text);
    let mut ast = AlignableSentenceTable::new();
    ast.insert(at(2, 0));
    let mut sat = SentenceAlignmentTable::new(a_text.as_slice(), b_text.as_slice(), Score(1));
    sat.increment(at(1, 2));
    let w = WordAssociation::new(&ast, &ai, &bi, 7, 8, false);
    assert!(w.align_sentences(&ast, &ai, &bi, &mut sat).is_empty());
    assert_eq!(sat.score(at(2, 0)), Score(0));
}

#[test]
fn promotion_skips_ambiguous_matches() {
    let a_text = vec![vec![7], vec![7]];
    let b_text = vec![vec![8], vec![]];
    let ai = WordSentenceIndex::new(&a_text);
    let bi = WordSentenceIndex::new(&b_text);
    let mut ast = AlignableSentenceTable::new();
    ast.insert(at(0, 0));
    ast.insert(at(0, 1));
    let mut sat = SentenceAlignmentTable::new(a_text.as_slice(), b_text.as_slice(), Score(1));
    let w = WordAssociation::new(&ast, &ai, &bi, 7, 8, false);
    assert!(w.align_sentences(&ast, &ai, &bi, &mut sat).is_empty());
}

#[test]
fn single_shared_token_becomes_the_only_anchor() {
    let cat = 1;
    let a = vec![vec![], vec![cat], vec![], vec![]];
    let b = vec![vec![], vec![cat], vec![], vec![]];
    let out = config(1, 1, 1).align(&a, &b, |_, _| false);
    assert_eq!(out.a_alignments(1), vec![1]);
    assert_eq!(out.b_alignments(1), vec![1]);
    for i in [0, 2, 3] {
        assert!(out.a_alignments(i).is_empty());
        assert!(out.b_alignments(i).is_empty());
    }
    assert_eq!(out.coverage(), vec![2]);
}

#[test]
fn identical_texts_reach_full_coverage_early() {
    let a = vec![vec![1, 1, 1, 1, 1], vec![2, 2, 2, 2, 2]];
    let b = a.clone();
    let out = config(1, 20, 5).align(&a, &b, |_, _| false);
    let trace = out.coverage();
    assert_eq!(trace, vec![4]);
    assert!(out.a_alignments(0).contains(&0));
    assert!(out.a_alignments(1).contains(&1));
}

#[test]
fn disjoint_rare_tokens_never_align() {
    let a = vec![vec![1, 2], vec![3], vec![4, 5]];
    let b = vec![vec![6], vec![7, 8], vec![9]];
    let out = Config::default().align(&a, &b, |_, _| false);
    assert_eq!(out.coverage(), vec![0; 20]);
    for i in 0..3 {
        assert!(out.a_alignments(i).is_empty());
        assert!(out.b_alignments(i).is_empty());
    }
}

#[test]
fn coverage_trace_never_decreases() {
    let a = vec![vec![1, 2], vec![3, 1], vec![2, 3], vec![1]];
    let b = vec![vec![1, 2], vec![3, 1], vec![2, 3], vec![1]];
    let out = config(2, 6, 1).align(&a, &b, |_, _| false);
    let trace = out.coverage();
    assert!(!trace.is_empty() && trace.len() <= 6);
    for w in trace.windows(2) {
        assert!(w[0] <= w[1]);
    }
}

#[test]
fn forced_association_aligns_rare_tokens() {
    let a = vec![vec![1], vec![2]];
    let b = vec![vec![3], vec![4]];
    let out = config(1, 1, 5).align(&a, &b, |x, y| (x, y) == (1, 3));
    assert_eq!(out.a_alignments(0), vec![0]);
    assert_eq!(out.coverage(), vec![2]);
}

#[test]
fn default_config_values() {
    let c = Config::default();
    assert_eq!(c.anchor_threshold, 3);
    assert_eq!(c.max_cycles, 20);
    assert_eq!(c.word_frequency_threshold, 5);
    assert_eq!(c.word_similarity_threshold, 800);
    assert_eq!(c.word_similarity_taper, 50);
    assert_eq!(c.word_similarity_minimum, 300);
    assert_eq!(c.min_coverage, 950);
}

#[test]
fn zero_cycles_reports_nothing() {
    let a = vec![vec![1]];
    let b = vec![vec![1]];
    let out = config(1, 0, 1).align(&a, &b, |_, _| false);
    assert!(out.coverage().is_empty());
    assert!(out.a_alignments(0).is_empty());
    assert!(out.a_alignments(7).is_empty());
}
