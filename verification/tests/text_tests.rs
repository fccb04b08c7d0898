use bm25::text::{same_text, text_at_most};

#[test]
fn same_text_tells_equal_strings() {
    assert!(same_text("", ""));
    assert!(same_text("dog", "dog"));
    assert!(same_text("caf\u{e9}", "caf\u{e9}"));
}

#[test]
fn same_text_tells_different_strings() {
    assert!(!same_text("dog", "dot"));
    assert!(!same_text("dog", "dogs"));
    assert!(!same_text("", "a"));
    assert!(!same_text("cafe", "caf\u{e9}"));
}

#[test]
fn empty_string_comes_first() {
    assert!(text_at_most("", ""));
    assert!(text_at_most("", "a"));
    assert!(!text_at_most("a", ""));
}

#[test]
fn prefix_comes_before_longer_string() {
    assert!(text_at_most("a", "ab"));
    assert!(!text_at_most("ab", "a"));
}

#[test]
fn first_difference_decides() {
    assert!(text_at_most("ab", "b"));
    assert!(!text_at_most("b", "ab"));
    assert!(text_at_most("d1", "d2"));
    assert!(text_at_most("d10", "d2"));
    assert!(!text_at_most("d2", "d10"));
}

#[test]
fn order_is_reflexive() {
    assert!(text_at_most("dog", "dog"));
}

#[test]
fn order_follows_code_points() {
    assert!(text_at_most("z", "\u{e9}"));
    assert!(!text_at_most("\u{e9}", "z"));
    assert!(text_at_most("Z", "a"));
    assert!(text_at_most("\u{e9}", "\u{4e2d}"));
}

#[test]
fn order_agrees_with_the_standard_order_of_strings() {
    let samples = ["", "a", "ab", "b", "B", "d1", "d10", "d2", "\u{e9}", "z", "\u{1f600}", "zz"];
    for a in samples.iter() {
        for b in samples.iter() {
            assert_eq!(text_at_most(a, b), a <= b);
            assert_eq!(same_text(a, b), a == b);
        }
    }
}
