use rope::{Rope, JOIN_LENGTH, SPLIT_LENGTH};

fn text_of(n: usize) -> String {
    let letters = "abcdefghijklmnopqrstuvwxyz";
    let mut s = String::new();
    for i in 0..n {
        let k = i % letters.len();
        s.push_str(&letters[k..k + 1]);
    }
    s
}

#[test]
fn it_allocates_a_new_rope() {
    let rope = Rope::new("hello world");

    assert!(rope.is_leaf());
}

#[test]
fn it_converts_a_rope_into_a_string() {
    let rope = Rope::new("hello world");

    assert_eq!(rope.to_string(), "hello world");
}

#[test]
fn round_trip_of_several_texts() {
    for n in [0, 1, 7, 3999, 4000, 4001, 10_000, 65_537] {
        let text = text_of(n);
        let rope = Rope::new(&text);
        assert_eq!(rope.to_string(), text);
        assert_eq!(rope.length(), n);
    }
}

#[test]
fn empty_text_gives_an_empty_leaf() {
    let rope = Rope::new("");
    assert!(rope.is_leaf());
    assert_eq!(rope.length(), 0);
    assert_eq!(rope.to_string(), "");
}

#[test]
fn length_counts_characters() {
    let rope = Rope::new("h\u{e9}llo w\u{f6}rld");
    assert_eq!(rope.length(), 11);
    assert_eq!(rope.to_string(), "h\u{e9}llo w\u{f6}rld");
}

#[test]
fn short_text_stays_a_leaf() {
    let rope = Rope::new("abcdefgh");
    assert!(rope.is_leaf());
    assert_eq!(rope.length(), 8);
    assert_eq!(rope.to_string(), "abcdefgh");
    assert_eq!(rope.get_left_right_ratio(), None);
    assert_eq!(rope.get_right_left_ratio(), None);
}

#[test]
fn four_thousand_characters_split_after_a_quarter() {
    let text = text_of(4000);
    let rope = Rope::new(&text);
    assert!(!rope.is_leaf());
    assert_eq!(rope.length(), 4000);
    assert_eq!(rope.get_left_right_ratio(), Some((1000, 3000)));
    assert_eq!(rope.get_right_left_ratio(), Some((3000, 1000)));
    assert_eq!(rope.to_string(), text);
}

#[test]
fn split_threshold_boundary() {
    let below = Rope::new(&text_of(4 * SPLIT_LENGTH - 1));
    assert!(below.is_leaf());
    let at = Rope::new(&text_of(4 * SPLIT_LENGTH));
    assert!(!at.is_leaf());
}

#[test]
fn split_of_a_longer_text_uses_the_quarter() {
    let text = text_of(10_003);
    let rope = Rope::new(&text);
    assert_eq!(rope.get_left_right_ratio(), Some((2500, 7503)));
    assert_eq!(rope.to_string(), text);
}

#[test]
fn join_length_text_does_not_split() {
    let rope = Rope::new(&text_of(JOIN_LENGTH));
    assert!(rope.is_leaf());
    assert_eq!(rope.length(), JOIN_LENGTH);
}

#[test]
fn rebuild_on_a_leaf_fails() {
    let mut rope = Rope::new("");
    assert_eq!(rope.build_tree(), Err(()));
    assert!(rope.is_leaf());
    assert_eq!(rope.to_string(), "");
}

#[test]
fn rebalance_on_a_leaf_fails() {
    let mut rope = Rope::new("");
    assert_eq!(rope.balance(), Err(()));
    assert!(rope.is_leaf());
}

#[test]
fn rebuild_keeps_text_and_shape() {
    let text = text_of(4000);
    let mut rope = Rope::new(&text);
    assert_eq!(rope.build_tree(), Ok(()));
    assert!(!rope.is_leaf());
    assert_eq!(rope.get_left_right_ratio(), Some((1000, 3000)));
    assert_eq!(rope.to_string(), text);
}

#[test]
fn rebalance_twice_changes_nothing() {
    let text = text_of(20_000);
    let mut rope = Rope::new(&text);
    assert_eq!(rope.balance(), Ok(()));
    let first = rope.get_left_right_ratio();
    assert_eq!(first, Some((5000, 15000)));
    assert_eq!(rope.to_string(), text);
    assert_eq!(rope.balance(), Ok(()));
    assert_eq!(rope.get_left_right_ratio(), first);
    assert_eq!(rope.length(), 20_000);
    assert_eq!(rope.to_string(), text);
}
