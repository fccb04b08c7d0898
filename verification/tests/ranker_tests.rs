use bm25::key::{bits_of_key, key_of_bits};
use bm25::ranker::{calculate_bm25, QueryStatistics, SearchError, TermStatistics, BM25};
use bm25::ranking::Hit;

fn words(list: &[&str]) -> Vec<String> {
    list.iter().map(|s| s.to_string()).collect()
}

fn sample() -> BM25 {
    let mut ranker = BM25::new();
    ranker.add_document("d1".to_string(), words(&["cat", "dog", "dog"]));
    ranker.add_document("d2".to_string(), words(&["dog", "bird"]));
    ranker.add_document("d3".to_string(), words(&["fish"]));
    ranker
}

fn score(statistics: &QueryStatistics, i: usize) -> f32 {
    let k1: f32 = 1.2;
    let b: f32 = 0.75;
    let n = statistics.document_count as f32;
    let average = statistics.total_length as f32 / n;
    let document = &statistics.documents[i];
    let mut score: f32 = 0.0;
    for term in document.terms.iter() {
        let tf = term.term_frequency as f32;
        let df = term.document_frequency as f32;
        let idf = (((n - df + 0.5) / (df + 0.5)) + 1.0).ln();
        score += (tf * (1.0 + k1) / (tf + k1 * ((1.0 - b) + b * (document.length as f32 / average))))
            * idf;
    }
    score
}

fn key(statistics: &QueryStatistics, i: usize) -> u64 {
    key_of_bits(score(statistics, i).to_bits())
}

fn value(hit: &Hit) -> f32 {
    f32::from_bits(bits_of_key(hit.score).unwrap())
}

fn ids(hits: &[Hit]) -> Vec<&str> {
    hits.iter().map(|h| h.id.as_str()).collect()
}

fn entry(term_frequency: usize, document_frequency: usize) -> TermStatistics {
    TermStatistics { term_frequency, document_frequency }
}

#[test]
fn empty_corpus_has_no_statistics() {
    let ranker = BM25::new();
    let result = ranker.statistics(&words(&["x"]));
    assert_eq!(result, Err(SearchError::EmptyCorpus));
}

#[test]
fn empty_corpus_search_fails() {
    let ranker = BM25::new();
    let result = ranker.search(&words(&["x"]), Some(10), &key);
    assert_eq!(result, Err(SearchError::EmptyCorpus));
}

#[test]
fn search_fails_again_once_every_document_is_removed() {
    let mut ranker = BM25::new();
    ranker.add_document("d1".to_string(), words(&["x"]));
    assert!(ranker.search(&words(&["x"]), None, &key).is_ok());
    ranker.remove_document("d1".to_string());
    assert_eq!(ranker.search(&words(&["x"]), None, &key), Err(SearchError::EmptyCorpus));
}

#[test]
fn statistics_give_the_numbers_of_the_corpus() {
    let statistics = sample().statistics(&words(&["dog"])).unwrap();
    assert_eq!(statistics.document_count, 3);
    assert_eq!(statistics.total_length, 6);
    assert_eq!(statistics.documents.len(), 3);
    assert_eq!(statistics.documents[0].id, "d1");
    assert_eq!(statistics.documents[0].length, 3);
    assert_eq!(statistics.documents[1].id, "d2");
    assert_eq!(statistics.documents[1].length, 2);
    assert_eq!(statistics.documents[2].id, "d3");
    assert_eq!(statistics.documents[2].length, 1);
}

#[test]
fn statistics_hold_an_entry_for_each_held_query_token() {
    let statistics = sample().statistics(&words(&["dog"])).unwrap();
    assert_eq!(statistics.documents[0].terms, vec![entry(2, 2)]);
    assert_eq!(statistics.documents[1].terms, vec![entry(1, 2)]);
    assert_eq!(statistics.documents[2].terms, vec![]);
}

#[test]
fn statistics_follow_the_order_of_the_query() {
    let statistics = sample().statistics(&words(&["fish", "cat", "zebra", "dog"])).unwrap();
    assert_eq!(statistics.documents[0].terms, vec![entry(1, 1), entry(2, 2)]);
    assert_eq!(statistics.documents[1].terms, vec![entry(1, 2)]);
    assert_eq!(statistics.documents[2].terms, vec![entry(1, 1)]);
}

#[test]
fn repeated_query_token_has_an_entry_for_each_repetition() {
    let statistics = sample().statistics(&words(&["dog", "dog", "cat"])).unwrap();
    assert_eq!(statistics.documents[0].terms, vec![entry(2, 2), entry(2, 2), entry(1, 1)]);
    assert_eq!(statistics.documents[1].terms, vec![entry(1, 2), entry(1, 2)]);
    assert_eq!(statistics.documents[2].terms, vec![]);
}

#[test]
fn repeated_query_token_doubles_its_weight() {
    let ranker = sample();
    let once = ranker.search(&words(&["dog"]), None, &key).unwrap();
    let twice = ranker.search(&words(&["dog", "dog"]), None, &key).unwrap();
    assert_eq!(ids(&once), ids(&twice));
    for (a, b) in once.iter().zip(twice.iter()) {
        assert!((2.0 * value(a) - value(b)).abs() < 1e-6);
    }
}

#[test]
fn empty_query_gives_every_document_no_entry() {
    let statistics = sample().statistics(&words(&[])).unwrap();
    assert_eq!(statistics.documents.len(), 3);
    for document in statistics.documents.iter() {
        assert!(document.terms.is_empty());
    }
}

#[test]
fn empty_query_lists_every_document_with_score_zero() {
    let hits = sample().search(&words(&[]), None, &key).unwrap();
    assert_eq!(ids(&hits), vec!["d1", "d2", "d3"]);
    for hit in hits.iter() {
        assert_eq!(value(hit), 0.0);
    }
}

#[test]
fn dog_query_ranks_d1_then_d2_then_d3() {
    let hits = sample().search(&words(&["dog"]), None, &key).unwrap();
    assert_eq!(ids(&hits), vec!["d1", "d2", "d3"]);
    let idf = (1.6f32).ln();
    assert!((value(&hits[0]) - idf * 4.4 / 3.65).abs() < 1e-5);
    assert!((value(&hits[1]) - idf).abs() < 1e-5);
    assert_eq!(value(&hits[2]), 0.0);
    assert!(value(&hits[0]) > value(&hits[1]));
    assert!(value(&hits[1]) > value(&hits[2]));
}

#[test]
fn added_document_is_found_by_one_of_its_tokens() {
    let mut ranker = sample();
    ranker.add_document("d4".to_string(), words(&["owl", "cat"]));
    let hits = ranker.search(&words(&["owl", "zebra"]), None, &key).unwrap();
    assert_eq!(hits.len(), 4);
    assert_eq!(hits[0].id, "d4");
    assert!(value(&hits[0]) > 0.0);
}

#[test]
fn adding_twice_is_adding_once() {
    let mut once = sample();
    let mut twice = sample();
    once.add_document("d4".to_string(), words(&["owl"]));
    twice.add_document("d4".to_string(), words(&["owl"]));
    twice.add_document("d4".to_string(), words(&["dog", "dog", "dog"]));
    assert_eq!(twice.document_count(), 4);
    for query in [words(&["dog"]), words(&["owl"]), words(&["dog", "owl", "cat"])] {
        assert_eq!(once.statistics(&query), twice.statistics(&query));
        assert_eq!(
            once.search(&query, None, &key),
            twice.search(&query, None, &key)
        );
    }
}

#[test]
fn removed_document_is_not_listed() {
    let mut ranker = sample();
    assert!(ranker.contains("d1"));
    ranker.remove_document("d1".to_string());
    assert!(!ranker.contains("d1"));
    for query in [words(&["dog"]), words(&["cat"]), words(&[])] {
        let hits = ranker.search(&query, None, &key).unwrap();
        assert_eq!(hits.len(), 2);
        assert!(hits.iter().all(|hit| hit.id != "d1"));
    }
}

#[test]
fn removal_lowers_the_document_frequency() {
    let mut ranker = sample();
    ranker.remove_document("d1".to_string());
    let statistics = ranker.statistics(&words(&["dog"])).unwrap();
    assert_eq!(statistics.document_count, 2);
    assert_eq!(statistics.total_length, 3);
    assert_eq!(statistics.documents[0].id, "d2");
    assert_eq!(statistics.documents[0].terms, vec![entry(1, 1)]);
}

#[test]
fn equal_documents_score_equally_and_rank_by_identifier() {
    let mut ranker = BM25::new();
    ranker.add_document("b".to_string(), words(&["dog", "cat"]));
    ranker.add_document("a".to_string(), words(&["cat", "dog"]));
    ranker.add_document("c".to_string(), words(&["fish", "fish"]));
    let hits = ranker.search(&words(&["dog"]), None, &key).unwrap();
    assert_eq!(ids(&hits), vec!["a", "b", "c"]);
    assert_eq!(hits[0].score, hits[1].score);
}

#[test]
fn higher_term_frequency_scores_at_least_as_high() {
    let mut ranker = BM25::new();
    ranker.add_document("low".to_string(), words(&["dog", "cat", "cat"]));
    ranker.add_document("high".to_string(), words(&["dog", "dog", "cat"]));
    let hits = ranker.search(&words(&["dog"]), None, &key).unwrap();
    assert_eq!(ids(&hits), vec!["high", "low"]);
    assert!(value(&hits[0]) >= value(&hits[1]));
}

#[test]
fn search_respects_the_limit() {
    let ranker = sample();
    let query = words(&["dog"]);
    let all = ranker.search(&query, None, &key).unwrap();
    for limit in 0..5 {
        let hits = ranker.search(&query, Some(limit), &key).unwrap();
        assert_eq!(hits.len(), limit.min(3));
        assert_eq!(hits[..], all[..hits.len()]);
        for pair in hits.windows(2) {
            assert!(value(&pair[0]) >= value(&pair[1]));
        }
    }
}

#[test]
fn search_lists_by_the_scores_of_the_scorer() {
    let ranker = sample();
    let by_length = |statistics: &QueryStatistics, i: usize| statistics.documents[i].length as u64;
    let hits = ranker.search(&words(&[]), None, &by_length).unwrap();
    assert_eq!(
        hits,
        vec![
            Hit { id: "d1".to_string(), score: 3 },
            Hit { id: "d2".to_string(), score: 2 },
            Hit { id: "d3".to_string(), score: 1 },
        ]
    );
    let constant = |_: &QueryStatistics, _: usize| 4u64;
    let hits = ranker.search(&words(&[]), Some(2), &constant).unwrap();
    assert_eq!(ids(&hits), vec!["d1", "d2"]);
}

#[test]
fn from_documents_adds_in_order_and_skips_known_identifiers() {
    let entries = vec![
        ("d1".to_string(), words(&["cat", "dog", "dog"])),
        ("d2".to_string(), words(&["dog", "bird"])),
        ("d1".to_string(), words(&["zebra"])),
        ("d3".to_string(), words(&["fish"])),
    ];
    let ranker = BM25::from_documents(&entries);
    assert_eq!(ranker.document_count(), 3);
    let query = words(&["dog", "zebra", "fish"]);
    assert_eq!(ranker.statistics(&query), sample().statistics(&query));
}

#[test]
fn calculate_answers_each_query() {
    let documents = vec![
        ("d1".to_string(), words(&["cat", "dog", "dog"])),
        ("d2".to_string(), words(&["dog", "bird"])),
        ("d3".to_string(), words(&["fish"])),
    ];
    let queries = vec![words(&["dog"]), words(&["fish"]), words(&[])];
    let found = calculate_bm25(&queries, &documents, Some(2), &key).unwrap();
    assert_eq!(found.len(), 3);
    assert_eq!(ids(&found[0]), vec!["d1", "d2"]);
    assert_eq!(ids(&found[1]), vec!["d3", "d1"]);
    assert_eq!(ids(&found[2]), vec!["d1", "d2"]);
    let ranker = sample();
    for (query, hits) in queries.iter().zip(found.iter()) {
        assert_eq!(&ranker.search(query, Some(2), &key).unwrap(), hits);
    }
}

#[test]
fn calculate_fails_on_a_query_without_documents() {
    let queries = vec![words(&["dog"])];
    assert_eq!(calculate_bm25(&queries, &vec![], None, &key), Err(SearchError::EmptyCorpus));
}

#[test]
fn calculate_without_queries_gives_no_result() {
    assert_eq!(calculate_bm25(&vec![], &vec![], None, &key), Ok(vec![]));
    let documents = vec![("d1".to_string(), words(&["cat"]))];
    assert_eq!(calculate_bm25(&vec![], &documents, None, &key), Ok(vec![]));
}

#[test]
fn empty_corpus_error_says_what_went_wrong() {
    assert_eq!(SearchError::EmptyCorpus.message(), "the ranker holds no document");
}

#[test]
fn default_ranker_is_empty() {
    let ranker = BM25::default();
    assert_eq!(ranker.document_count(), 0);
    assert!(!ranker.contains("d1"));
}
