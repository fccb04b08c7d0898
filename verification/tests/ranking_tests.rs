use bm25::ranking::{rank, ranks_first, Hit};

fn hit(id: &str, score: u64) -> Hit {
    Hit { id: id.to_string(), score }
}

fn ids(hits: &[Hit]) -> Vec<&str> {
    hits.iter().map(|h| h.id.as_str()).collect()
}

#[test]
fn higher_score_ranks_first() {
    assert!(ranks_first(&hit("b", 7), &hit("a", 5)));
    assert!(!ranks_first(&hit("a", 5), &hit("b", 7)));
}

#[test]
fn equal_scores_rank_by_identifier() {
    assert!(ranks_first(&hit("a", 5), &hit("b", 5)));
    assert!(!ranks_first(&hit("b", 5), &hit("a", 5)));
    assert!(ranks_first(&hit("a", 5), &hit("a", 5)));
}

#[test]
fn rank_orders_by_descending_score() {
    let hits = vec![hit("a", 1), hit("b", 3), hit("c", 2)];
    let listed = rank(&hits, None);
    assert_eq!(listed, vec![hit("b", 3), hit("c", 2), hit("a", 1)]);
}

#[test]
fn rank_breaks_ties_by_ascending_identifier() {
    let hits = vec![hit("b", 5), hit("a", 5), hit("c", 7), hit("d", 5)];
    let listed = rank(&hits, None);
    assert_eq!(ids(&listed), vec!["c", "a", "b", "d"]);
}

#[test]
fn rank_does_not_depend_on_the_order_of_its_input() {
    let one = vec![hit("x", 2), hit("y", 2), hit("z", 9), hit("w", 0)];
    let other = vec![hit("w", 0), hit("z", 9), hit("y", 2), hit("x", 2)];
    assert_eq!(rank(&one, None), rank(&other, None));
}

#[test]
fn rank_respects_the_limit() {
    let hits = vec![hit("b", 5), hit("a", 5), hit("c", 7)];
    assert_eq!(rank(&hits, Some(2)), vec![hit("c", 7), hit("a", 5)]);
    assert_eq!(rank(&hits, Some(1)), vec![hit("c", 7)]);
    assert_eq!(rank(&hits, Some(0)), vec![]);
}

#[test]
fn rank_with_a_large_limit_lists_everything() {
    let hits = vec![hit("b", 5), hit("a", 5), hit("c", 7)];
    assert_eq!(rank(&hits, Some(3)).len(), 3);
    assert_eq!(rank(&hits, Some(10)).len(), 3);
    assert_eq!(rank(&hits, Some(usize::MAX)), rank(&hits, None));
}

#[test]
fn rank_of_nothing_is_nothing() {
    assert_eq!(rank(&[].to_vec(), None), vec![]);
    assert_eq!(rank(&[].to_vec(), Some(5)), vec![]);
}

#[test]
fn rank_keeps_one_hit() {
    assert_eq!(rank(&vec![hit("a", 1)], None), vec![hit("a", 1)]);
}

#[test]
fn rank_sorts_many_hits() {
    let mut hits = Vec::new();
    let mut seed: u64 = 12345;
    for i in 0..200 {
        seed = seed.wrapping_mul(6364136223846793005).wrapping_add(1442695040888963407);
        hits.push(hit(&format!("doc{:03}", i), (seed >> 33) % 17));
    }
    let listed = rank(&hits, None);
    assert_eq!(listed.len(), 200);
    for pair in listed.windows(2) {
        assert!(
            pair[0].score > pair[1].score
                || (pair[0].score == pair[1].score && pair[0].id < pair[1].id)
        );
    }
    let mut expected = hits.clone();
    expected.sort_by(|a, b| b.score.cmp(&a.score).then(a.id.cmp(&b.id)));
    assert_eq!(listed, expected);
    assert_eq!(rank(&hits, Some(25)), expected[..25].to_vec());
}

#[test]
fn rank_keeps_hits_that_are_equal() {
    let hits = vec![hit("a", 1), hit("a", 1), hit("b", 1)];
    assert_eq!(rank(&hits, None), vec![hit("a", 1), hit("a", 1), hit("b", 1)]);
    assert_eq!(rank(&hits, Some(2)), vec![hit("a", 1), hit("a", 1)]);
}

#[test]
fn rank_orders_identifiers_by_their_bytes() {
    let hits = vec![hit("\u{e9}", 1), hit("z", 1), hit("Z", 1), hit("", 1), hit("a", 1)];
    let listed = rank(&hits, None);
    assert_eq!(ids(&listed), vec!["", "Z", "a", "z", "\u{e9}"]);
}
