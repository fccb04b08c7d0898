use bm25::InvertedIndex;

fn words(list: &[&str]) -> Vec<String> {
    list.iter().map(|s| s.to_string()).collect()
}

fn sample() -> InvertedIndex {
    let mut index = InvertedIndex::new();
    index.upsert_document("d1", &words(&["cat", "dog", "dog"]));
    index.upsert_document("d2", &words(&["dog", "bird"]));
    index.upsert_document("d3", &words(&["fish"]));
    index
}

#[test]
fn new_index_is_empty() {
    let index = InvertedIndex::new();
    assert_eq!(index.document_count(), 0);
    assert_eq!(index.total_length(), 0);
    assert_eq!(index.document_frequency("dog"), 0);
    assert_eq!(index.find_document("d1"), None);
}

#[test]
fn upsert_records_documents_in_order() {
    let index = sample();
    assert_eq!(index.document_count(), 3);
    assert_eq!(index.find_document("d1"), Some(0));
    assert_eq!(index.find_document("d2"), Some(1));
    assert_eq!(index.find_document("d3"), Some(2));
    assert_eq!(index.find_document("d4"), None);
    assert_eq!(index.document_id(1), "d2");
}

#[test]
fn term_frequency_counts_occurrences() {
    let index = sample();
    assert_eq!(index.term_frequency(0, "dog"), 2);
    assert_eq!(index.term_frequency(0, "cat"), 1);
    assert_eq!(index.term_frequency(0, "bird"), 0);
    assert_eq!(index.term_frequency(1, "dog"), 1);
    assert_eq!(index.term_frequency(2, "fish"), 1);
}

#[test]
fn length_is_the_number_of_tokens() {
    let index = sample();
    assert_eq!(index.document_length(0), 3);
    assert_eq!(index.document_length(1), 2);
    assert_eq!(index.document_length(2), 1);
    assert_eq!(index.total_length(), 6);
}

#[test]
fn document_frequency_counts_documents() {
    let index = sample();
    assert_eq!(index.document_frequency("dog"), 2);
    assert_eq!(index.document_frequency("cat"), 1);
    assert_eq!(index.document_frequency("bird"), 1);
    assert_eq!(index.document_frequency("fish"), 1);
    assert_eq!(index.document_frequency("zebra"), 0);
}

#[test]
fn upsert_of_a_known_identifier_changes_nothing() {
    let mut index = sample();
    index.upsert_document("d1", &words(&["zebra", "zebra", "zebra", "zebra"]));
    assert_eq!(index.document_count(), 3);
    assert_eq!(index.document_length(0), 3);
    assert_eq!(index.term_frequency(0, "dog"), 2);
    assert_eq!(index.term_frequency(0, "zebra"), 0);
    assert_eq!(index.document_frequency("zebra"), 0);
    assert_eq!(index.total_length(), 6);
}

#[test]
fn upsert_accepts_a_document_without_tokens() {
    let mut index = sample();
    index.upsert_document("d4", &words(&[]));
    assert_eq!(index.document_count(), 4);
    assert_eq!(index.document_length(3), 0);
    assert_eq!(index.total_length(), 6);
    assert_eq!(index.document_frequency("dog"), 2);
}

#[test]
fn remove_takes_the_document_and_what_is_listed_of_it() {
    let mut index = sample();
    index.remove_document("d2");
    assert_eq!(index.document_count(), 2);
    assert_eq!(index.find_document("d2"), None);
    assert_eq!(index.find_document("d1"), Some(0));
    assert_eq!(index.find_document("d3"), Some(1));
    assert_eq!(index.document_frequency("dog"), 1);
    assert_eq!(index.document_frequency("bird"), 0);
    assert_eq!(index.document_frequency("fish"), 1);
    assert_eq!(index.total_length(), 4);
}

#[test]
fn remove_of_an_unknown_identifier_changes_nothing() {
    let mut index = sample();
    index.remove_document("d9");
    assert_eq!(index.document_count(), 3);
    assert_eq!(index.document_frequency("dog"), 2);
    assert_eq!(index.total_length(), 6);
}

#[test]
fn removed_document_can_come_back_with_other_tokens() {
    let mut index = sample();
    index.remove_document("d1");
    index.upsert_document("d1", &words(&["bird", "bird"]));
    assert_eq!(index.document_count(), 3);
    assert_eq!(index.find_document("d1"), Some(2));
    assert_eq!(index.term_frequency(2, "bird"), 2);
    assert_eq!(index.term_frequency(2, "dog"), 0);
    assert_eq!(index.document_frequency("bird"), 2);
    assert_eq!(index.document_frequency("dog"), 1);
    assert_eq!(index.document_frequency("cat"), 0);
    assert_eq!(index.total_length(), 5);
}

#[test]
fn removing_every_document_empties_the_index() {
    let mut index = sample();
    index.remove_document("d1");
    index.remove_document("d2");
    index.remove_document("d3");
    assert_eq!(index.document_count(), 0);
    assert_eq!(index.total_length(), 0);
    for token in ["cat", "dog", "bird", "fish"] {
        assert_eq!(index.document_frequency(token), 0);
    }
}

#[test]
fn many_documents_keep_their_statistics() {
    let mut index = InvertedIndex::new();
    for i in 0..50 {
        let mut tokens = vec!["common".to_string()];
        for _ in 0..(i % 5) {
            tokens.push(format!("t{}", i % 7));
        }
        index.upsert_document(&format!("doc{}", i), &tokens);
    }
    assert_eq!(index.document_count(), 50);
    assert_eq!(index.document_frequency("common"), 50);
    let expected_total: u128 = (0..50u128).map(|i| 1 + i % 5).sum();
    assert_eq!(index.total_length(), expected_total);
    for i in (0..50).step_by(2) {
        index.remove_document(&format!("doc{}", i));
    }
    assert_eq!(index.document_count(), 25);
    assert_eq!(index.document_frequency("common"), 25);
    let held = (0..50).filter(|i| i % 2 == 1 && i % 7 == 3 && i % 5 != 0).count();
    assert_eq!(index.document_frequency("t3"), held);
}

#[test]
fn a_token_lists_a_document_as_often_as_the_document_holds_it() {
    let index = sample();
    assert_eq!(index.posting_count("dog", "d1"), 2);
    assert_eq!(index.posting_count("dog", "d2"), 1);
    assert_eq!(index.posting_count("dog", "d3"), 0);
    assert_eq!(index.posting_count("cat", "d1"), 1);
    assert_eq!(index.posting_count("zebra", "d1"), 0);
    assert_eq!(index.posting_count("dog", "d9"), 0);
}

#[test]
fn removal_takes_the_document_out_of_the_lists_of_its_tokens() {
    let mut index = sample();
    index.remove_document("d1");
    assert_eq!(index.posting_count("dog", "d1"), 0);
    assert_eq!(index.posting_count("cat", "d1"), 0);
    assert_eq!(index.posting_count("dog", "d2"), 1);
    index.upsert_document("d1", &words(&["dog"]));
    assert_eq!(index.posting_count("dog", "d1"), 1);
    assert_eq!(index.posting_count("cat", "d1"), 0);
}

#[test]
fn a_token_is_listed_while_a_document_holds_it() {
    let mut index = sample();
    assert!(index.has_token("dog"));
    assert!(index.has_token("fish"));
    assert!(!index.has_token("zebra"));
    index.remove_document("d3");
    assert!(!index.has_token("fish"));
    index.remove_document("d1");
    assert!(index.has_token("dog"));
    index.remove_document("d2");
    assert!(!index.has_token("dog"));
}
