use trie::Trie;

fn sorted(mut words: Vec<String>) -> Vec<String> {
    words.sort();
    words
}

fn owned(words: &[&str]) -> Vec<String> {
    words.iter().map(|w| w.to_string()).collect()
}

#[test]
fn inserted_words_are_found() {
    let words = ["a", "ab", "abc", "b", "", "zebra", "naïve", "日本語", "🦀rust"];
    let mut t = Trie::default();
    for w in words {
        t.insert(w);
        assert!(t.search(w));
    }
    for w in words {
        assert!(t.search(w));
    }
}

#[test]
fn words_never_inserted_are_not_found() {
    let mut t = Trie::default();
    assert!(!t.search(""));
    assert!(!t.search("a"));
    t.insert("abc");
    t.insert("abd");
    assert!(!t.search(""));
    assert!(!t.search("a"));
    assert!(!t.search("ab"));
    assert!(!t.search("abcd"));
    assert!(!t.search("abe"));
    assert!(!t.search("xyz"));
}

#[test]
fn second_insert_changes_nothing() {
    let mut t = Trie::default();
    t.insert("data");
    t.insert("date");
    let before = sorted(t.traverse());
    t.insert("data");
    assert!(t.search("data"));
    assert!(t.search("date"));
    assert_eq!(sorted(t.traverse()), before);
    assert_eq!(sorted(t.traverse_with_stack()), before);
    assert_eq!(before, owned(&["data", "date"]));
}

#[test]
fn delete_of_an_absent_word_changes_nothing() {
    let mut t = Trie::default();
    t.insert("data");
    t.insert("database");
    let before = sorted(t.traverse());
    assert!(!t.delete("nonexistent"));
    assert!(!t.delete("dat"));
    assert!(!t.delete("databases"));
    assert!(!t.delete(""));
    assert_eq!(sorted(t.traverse()), before);
}

#[test]
fn delete_of_an_absent_word_in_an_empty_tree() {
    let mut t = Trie::default();
    assert!(!t.delete("nonexistent"));
    assert_eq!(t.traverse(), Vec::<String>::new());
}

#[test]
fn empty_word_in_an_empty_tree_gives_the_signal() {
    let mut t = Trie::default();
    assert!(t.delete(""));
    assert_eq!(t.traverse(), Vec::<String>::new());
}

#[test]
fn listing_holds_the_live_words_after_inserts_and_deletes() {
    let mut t = Trie::default();
    t.insert("car");
    t.insert("cart");
    t.insert("care");
    t.insert("dog");
    t.delete("cart");
    t.insert("do");
    t.delete("dog");
    t.delete("missing");
    t.insert("cart");
    t.delete("car");
    let expected = owned(&["care", "cart", "do"]);
    assert_eq!(sorted(t.traverse()), expected);
    assert_eq!(sorted(t.traverse_with_stack()), expected);
    assert_eq!(sorted(t.auto_complete("")), expected);
}

#[test]
fn both_walks_list_each_word_once() {
    let mut t = Trie::default();
    for w in ["b", "ba", "bab", "bac", "c", "abc", "ab", "b"] {
        t.insert(w);
    }
    let first = t.traverse();
    let second = t.traverse_with_stack();
    assert_eq!(first.len(), 7);
    assert_eq!(second.len(), 7);
    assert_eq!(sorted(first), sorted(second));
}

#[test]
fn completions_are_the_words_with_the_prefix() {
    let mut t = Trie::default();
    for w in ["car", "cart", "care", "cat", "dog"] {
        t.insert(w);
    }
    assert_eq!(sorted(t.auto_complete("car")), owned(&["car", "care", "cart"]));
    assert_eq!(sorted(t.auto_complete("ca")), owned(&["car", "care", "cart", "cat"]));
    assert_eq!(sorted(t.auto_complete("dog")), owned(&["dog"]));
    assert_eq!(sorted(t.auto_complete("cart")), owned(&["cart"]));
}

#[test]
fn completions_of_a_missing_prefix_are_none() {
    let mut t = Trie::default();
    for w in ["car", "cart", "dog"] {
        t.insert(w);
    }
    assert_eq!(t.auto_complete("cab"), Vec::<String>::new());
    assert_eq!(t.auto_complete("carts"), Vec::<String>::new());
    assert_eq!(t.auto_complete("x"), Vec::<String>::new());
    assert_eq!(t.auto_complete("dogs"), Vec::<String>::new());
}

#[test]
fn empty_word_is_a_word_of_its_own() {
    let mut t = Trie::default();
    assert!(!t.search(""));
    t.insert("");
    assert!(t.search(""));
    assert_eq!(t.traverse(), owned(&[""]));
    assert_eq!(t.traverse_with_stack(), owned(&[""]));
    t.insert("a");
    assert_eq!(sorted(t.auto_complete("")), owned(&["", "a"]));
    assert!(!t.delete(""));
    assert!(!t.search(""));
    assert!(t.search("a"));
    t.insert("");
    assert!(!t.delete("a"));
    assert!(t.delete(""));
}

#[test]
fn words_beyond_ascii_come_back_as_they_went_in() {
    let mut t = Trie::default();
    let words = ["naïve", "naïf", "日本語", "日本", "🦀", "\u{10FFFF}x", "\u{0}"];
    for w in words {
        t.insert(w);
    }
    let mut expected = owned(&words);
    expected.sort();
    assert_eq!(sorted(t.traverse()), expected);
    assert_eq!(sorted(t.traverse_with_stack()), expected);
    assert_eq!(sorted(t.auto_complete("日")), owned(&["日本", "日本語"]));
    assert_eq!(sorted(t.auto_complete("naï")), owned(&["naïf", "naïve"]));
    assert!(t.start_with("日本".chars()));
    assert!(!t.start_with("日語".chars()));
    assert!(!t.delete("日本"));
    assert!(t.search("日本語"));
}

#[test]
fn a_copy_holds_the_same_words_and_lives_apart() {
    let mut t = Trie::default();
    t.insert("one");
    t.insert("two");
    let mut copy = t.clone();
    assert_eq!(sorted(copy.traverse()), owned(&["one", "two"]));
    copy.delete("one");
    copy.insert("three");
    assert_eq!(sorted(t.traverse()), owned(&["one", "two"]));
    assert_eq!(sorted(copy.traverse()), owned(&["three", "two"]));
}
