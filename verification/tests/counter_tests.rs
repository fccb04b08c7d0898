use bm25::counter::{Counter, Tally};

#[test]
fn new_counter_is_empty() {
    let counter = Counter::new();
    assert_eq!(counter.distinct_len(), 0);
    assert_eq!(counter.count("dog"), 0);
}

#[test]
fn add_neighbour_counts_occurrences() {
    let mut counter = Counter::new();
    counter.add_neighbour("dog");
    counter.add_neighbour("cat");
    counter.add_neighbour("dog");
    assert_eq!(counter.count("dog"), 2);
    assert_eq!(counter.count("cat"), 1);
    assert_eq!(counter.count("bird"), 0);
    assert_eq!(counter.distinct_len(), 2);
}

#[test]
fn remove_takes_every_occurrence() {
    let mut counter = Counter::new();
    counter.add_neighbour("dog");
    counter.add_neighbour("cat");
    counter.add_neighbour("dog");
    assert_eq!(counter.remove("dog"), 2);
    assert_eq!(counter.count("dog"), 0);
    assert_eq!(counter.count("cat"), 1);
    assert_eq!(counter.distinct_len(), 1);
}

#[test]
fn remove_of_an_absent_name_changes_nothing() {
    let mut counter = Counter::new();
    counter.add_neighbour("cat");
    assert_eq!(counter.remove("dog"), 0);
    assert_eq!(counter.count("cat"), 1);
    assert_eq!(counter.distinct_len(), 1);
}

#[test]
fn pop_hands_out_one_name_with_its_count() {
    let mut counter = Counter::new();
    counter.add_neighbour("dog");
    counter.add_neighbour("dog");
    let entry = counter.pop();
    assert_eq!(entry, Some(Tally { name: "dog".to_string(), count: 2 }));
    assert_eq!(counter.count("dog"), 0);
    assert_eq!(counter.distinct_len(), 0);
    assert_eq!(counter.pop(), None);
}

#[test]
fn pop_empties_a_counter_name_by_name() {
    let mut counter = Counter::new();
    for name in ["a", "b", "a", "c", "b", "a"] {
        counter.add_neighbour(name);
    }
    let mut total = 0;
    let mut names = Vec::new();
    while let Some(entry) = counter.pop() {
        total += entry.count;
        names.push(entry.name);
    }
    names.sort();
    assert_eq!(total, 6);
    assert_eq!(names, vec!["a".to_string(), "b".to_string(), "c".to_string()]);
}
