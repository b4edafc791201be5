use resonant_search::engine::{
    combination_weights, rank, score_order_key, ExactScores, IndexedDocument, QueryVectors,
    ResonantEngine, HISTORY_CAPACITY,
};
use resonant_search::crawler::CrawledDocument;

fn entropy_of(entries: &[(u64, u64)], total: usize) -> f64 {
    let mut h = 0.0;
    for e in entries {
        let p = e.1 as f64 / total as f64;
        h -= p * p.log2();
    }
    h
}

fn standard_score(d: &IndexedDocument<()>, q: &QueryVectors, s: ExactScores) -> f64 {
    let dot = s.dot.num as f64 / s.dot.den as f64;
    let hd = entropy_of(&d.vector.entries, d.vector.total);
    let hq = entropy_of(&q.vector.entries, q.vector.total);
    dot - (hd - hq).abs() * 0.1
}

fn key_of(x: f64) -> u64 {
    score_order_key(x.to_bits())
}

fn corpus() -> ResonantEngine<()> {
    let mut e = ResonantEngine::new();
    assert!(e.add_document("d0".into(), "apple banana cherry".into(), "/d0".into(), 100, ()));
    assert!(e.add_document("d1".into(), "apple apple banana".into(), "/d1".into(), 100, ()));
    assert!(e.add_document("d2".into(), "cherry date elder".into(), "/d2".into(), 100, ()));
    e
}

#[test]
fn three_documents_rank_by_standard_score() {
    let mut e = corpus();
    let r = e.search("apple banana", 10, |d: &IndexedDocument<()>, q: &QueryVectors, s: ExactScores| {
        key_of(standard_score(d, q, s))
    });
    // d1: 1/2 - 0.1 * |0.918 - 1|, d0: 1/3 - 0.1 * |1.585 - 1|, d2: 0 - 0.1 * 0.585
    let expected = [0.5 - 0.1 * (1.0 - 0.9182958340544896), 1.0 / 3.0 - 0.1 * (1.584962500721156 - 1.0), -0.1 * (1.584962500721156 - 1.0)];
    assert_eq!(r.iter().map(|x| x.title.as_str()).collect::<Vec<_>>(), vec!["d1", "d0", "d2"]);
    assert_eq!(r.iter().map(|x| x.index).collect::<Vec<_>>(), vec![1, 0, 2]);
    for (x, want) in r.iter().zip(expected.iter()) {
        let d = e.document(x.index);
        let q_dot = x.scores.dot.num as f64 / x.scores.dot.den as f64;
        let got = q_dot - (entropy_of(&d.vector.entries, d.vector.total) - 1.0).abs() * 0.1;
        assert!((got - want).abs() < 1e-9);
    }
    assert!(r[0].key >= r[1].key && r[1].key >= r[2].key);
}

#[test]
fn search_results_never_exceed_the_limit() {
    let mut e = corpus();
    let r = e.search("apple", 2, |_d: &IndexedDocument<()>, _q: &QueryVectors, s: ExactScores| s.dot.num as u64);
    assert_eq!(r.len(), 2);
    assert_eq!(r[0].index, 1);
    assert_eq!(r[1].index, 0);
    assert_eq!(r[0].snippet, "apple apple banana");
    assert_eq!(r[0].path, "/d1");
}

#[test]
fn equal_keys_keep_insertion_order() {
    let mut e = corpus();
    let r = e.search("zebra", 3, |_d: &IndexedDocument<()>, _q: &QueryVectors, _s: ExactScores| 7);
    assert_eq!(r.iter().map(|x| x.index).collect::<Vec<_>>(), vec![0, 1, 2]);
}

#[test]
fn empty_query_gives_no_results() {
    let mut e = corpus();
    let r = e.search("", 10, |_d: &IndexedDocument<()>, _q: &QueryVectors, _s: ExactScores| 1);
    assert!(r.is_empty());
    let r = e.search(" ?! ", 10, |_d: &IndexedDocument<()>, _q: &QueryVectors, _s: ExactScores| 1);
    assert!(r.is_empty());
}

#[test]
fn empty_corpus_gives_no_results() {
    let mut e: ResonantEngine<()> = ResonantEngine::new();
    let r = e.search("apple", 10, |_d: &IndexedDocument<()>, _q: &QueryVectors, _s: ExactScores| 1);
    assert!(r.is_empty());
}

#[test]
fn document_without_words_is_dropped() {
    let mut e: ResonantEngine<u8> = ResonantEngine::new();
    assert!(!e.add_document("t".into(), "   ".into(), "/t".into(), 1, 0));
    assert!(!e.add_document("t".into(), "...".into(), "/t".into(), 1, 0));
    assert_eq!(e.len(), 0);
    assert!(e.add_document("t".into(), "word".into(), "/t".into(), 1, 9));
    assert_eq!(e.len(), 1);
    assert_eq!(e.document(0).meta, 9);
    assert_eq!(e.document(0).timestamp, 1);
    assert_eq!(e.document(0).tokens, vec![3]);
    e.set_meta(0, 4);
    assert_eq!(e.document(0).meta, 4);
}

#[test]
fn crawled_document_is_ingested_under_its_url() {
    let mut e: ResonantEngine<()> = ResonantEngine::new();
    let doc = CrawledDocument { url: "https://a.example/".into(), title: "A".into(), text: "some text".into() };
    assert!(e.add_crawled_document(doc, 5, ()));
    assert_eq!(e.document(0).path, "https://a.example/");
    assert_eq!(e.document(0).title, "A");
}

#[test]
fn quantum_jump_touches_only_resonant_documents() {
    let mut e = corpus();
    let q = e.prepare_query("apple").unwrap();
    let now = 100 + 10 * 86400;
    let hits = e.apply_quantum_jump(&q, now);
    // dot(apple, d0) = 1/3, dot(apple, d1) = 2/3, dot(apple, d2) = 0
    assert_eq!(hits.iter().map(|h| h.0).collect::<Vec<_>>(), vec![0, 1]);
    assert_eq!(hits[0].1.num * 3, hits[0].1.den);
    assert_eq!(e.document(0).timestamp, now - 5 * 86400);
    assert_eq!(e.document(1).timestamp, now - 5 * 86400);
    assert_eq!(e.document(2).timestamp, 100);
}

#[test]
fn quantum_jump_leaves_recent_documents_dated() {
    let mut e = corpus();
    let q = e.prepare_query("apple").unwrap();
    let hits = e.apply_quantum_jump(&q, 100 + 86400);
    assert_eq!(hits.len(), 2);
    assert_eq!(e.document(0).timestamp, 100);
}

#[test]
fn quantum_jump_threshold_is_strict() {
    let mut e: ResonantEngine<()> = ResonantEngine::new();
    // one shared term of ten: dot = 1/10 exactly
    assert!(e.add_document("d".into(), "a b c d e f g h i j".into(), "/d".into(), 0, ()));
    let q = e.prepare_query("a").unwrap();
    assert!(e.apply_quantum_jump(&q, 10 * 86400).is_empty());
    assert_eq!(e.document(0).timestamp, 0);
}

#[test]
fn history_keeps_the_last_five_snapshots() {
    let mut e = corpus();
    for _ in 0..7 {
        e.refresh_history(20);
    }
    let h = &e.document(1).history;
    assert_eq!(h.len(), HISTORY_CAPACITY);
    assert_eq!(h.get(4).len(), 21);
    assert_eq!(h.get(4)[3], 2);
    assert_eq!(h.get(4)[5], 1);
}

#[test]
fn rank_is_a_stable_descending_top_k() {
    let keys = vec![5, 9, 5, 1, 9];
    assert_eq!(rank(&keys, 10), vec![1, 4, 0, 2, 3]);
    assert_eq!(rank(&keys, 3), vec![1, 4, 0]);
    assert_eq!(rank(&keys, 0), Vec::<usize>::new());
    assert_eq!(rank(&vec![], 4), Vec::<usize>::new());
}

#[test]
fn order_keys_follow_the_doubles() {
    let xs = [-3.5f64, -0.25, 0.0, 0.1, 2.0, 1e300];
    for w in xs.windows(2) {
        assert!(key_of(w[0]) < key_of(w[1]));
    }
}

#[test]
fn combination_weights_follow_the_switches() {
    assert_eq!(combination_weights(true, true), (50, 25, 25));
    assert_eq!(combination_weights(true, false), (70, 30, 0));
    assert_eq!(combination_weights(false, true), (70, 0, 30));
    assert_eq!(combination_weights(false, false), (100, 0, 0));
}

#[test]
fn switches_start_on() {
    let mut e: ResonantEngine<()> = ResonantEngine::new();
    assert!(e.use_quantum_score() && e.use_persistence_score());
    e.set_use_quantum_score(false);
    assert!(!e.use_quantum_score() && e.use_persistence_score());
    e.set_use_persistence_score(false);
    assert!(!e.use_persistence_score());
}

#[test]
fn crawled_document_keeps_meta_and_switches() {
    let mut e: ResonantEngine<u32> = ResonantEngine::new();
    e.set_use_persistence_score(false);
    let doc = CrawledDocument { url: "http://a.example/".into(), title: "A".into(), text: "words here".into() };
    assert!(e.add_crawled_document(doc, 3, 42));
    assert_eq!(e.document(0).meta, 42);
    assert_eq!(e.document(0).history.len(), 0);
    assert_eq!(e.combination_weights(), (70, 30, 0));
    let empty = CrawledDocument { url: "http://b.example/".into(), title: "B".into(), text: " ".into() };
    assert!(!e.add_crawled_document(empty, 3, 0));
    assert_eq!(e.len(), 1);
}
