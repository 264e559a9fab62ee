use trie::{Node, Trie};

fn sorted(mut words: Vec<String>) -> Vec<String> {
    words.sort();
    words
}

fn owned(words: &[&str]) -> Vec<String> {
    words.iter().map(|w| w.to_string()).collect()
}

fn sample() -> Trie {
    let mut t = Trie::new(Node::default());
    t.insert("data");
    t.insert("database");
    t.insert("databaseware");
    t.insert("databasewarehouse");
    t.insert("databasehouse");
    t.insert("datahouse");
    t.insert("string");
    t
}

#[test]
fn sample_completes_a_stored_prefix() {
    let t = sample();
    assert_eq!(
        sorted(t.auto_complete("databaseware")),
        owned(&["databaseware", "databasewarehouse"])
    );
}

#[test]
fn sample_lists_all_seven_words() {
    let t = sample();
    let expected = owned(&[
        "data",
        "database",
        "databasehouse",
        "databaseware",
        "databasewarehouse",
        "datahouse",
        "string",
    ]);
    assert_eq!(sorted(t.traverse()), expected);
    assert_eq!(sorted(t.traverse_with_stack()), expected);
}

#[test]
fn sample_after_delete_keeps_the_neighbours() {
    let mut t = sample();
    assert!(!t.delete("databasehouse"));
    let all = t.traverse();
    assert!(!all.contains(&"databasehouse".to_string()));
    assert!(all.contains(&"datahouse".to_string()));
    assert!(all.contains(&"database".to_string()));
    assert_eq!(all.len(), 6);
    assert!(t.search("database"));
    assert!(!t.search("databasehouse"));
    assert_eq!(sorted(t.traverse_with_stack()), sorted(all));
}

#[test]
fn sample_prefix_questions() {
    let t = sample();
    assert!(t.start_with("dat".chars()));
    assert!(!t.start_with("dala".chars()));
    assert!(t.start_with("".chars()));
    assert!(t.start_with("string".chars()));
    assert!(!t.start_with("strings".chars()));
}

#[test]
fn prefix_of_a_word_is_no_word() {
    let mut t = Trie::default();
    t.insert("database");
    assert!(!t.search("data"));
    assert!(t.start_with("data".chars()));
    assert!(t.search("database"));
}

#[test]
fn delete_of_a_prefix_word_keeps_the_longer_word() {
    let mut t = Trie::default();
    t.insert("data");
    t.insert("database");
    assert!(!t.delete("data"));
    assert!(t.search("database"));
    assert!(!t.search("data"));
    assert!(t.start_with("data".chars()));
    assert_eq!(t.traverse(), owned(&["database"]));
}

#[test]
fn delete_of_the_only_word_prunes_to_the_root() {
    let mut t = Trie::default();
    t.insert("leaf");
    assert!(t.delete("leaf"));
    assert_eq!(t.traverse(), Vec::<String>::new());
    assert_eq!(t.traverse_with_stack(), Vec::<String>::new());
    assert!(!t.start_with("l".chars()));
    assert!(!t.start_with("leaf".chars()));
    assert!(t.start_with("".chars()));
}

#[test]
fn delete_of_the_longer_word_prunes_back_to_the_shorter() {
    let mut t = Trie::default();
    t.insert("data");
    t.insert("database");
    assert!(!t.delete("database"));
    assert!(t.search("data"));
    assert!(!t.start_with("datab".chars()));
    assert_eq!(t.traverse(), owned(&["data"]));
}

#[test]
fn delete_prunes_only_the_dead_part_of_a_fork() {
    let mut t = Trie::default();
    t.insert("team");
    t.insert("tear");
    assert!(!t.delete("team"));
    assert!(t.start_with("tea".chars()));
    assert!(!t.start_with("team".chars()));
    assert!(t.search("tear"));
    assert!(t.delete("tear"));
    assert!(!t.start_with("t".chars()));
}

#[test]
fn delete_of_a_longer_word_keeps_the_marked_node_above() {
    let mut t = Trie::default();
    t.insert("a");
    t.insert("ab");
    assert!(!t.delete("ab"));
    assert!(t.search("a"));
    assert!(!t.search("ab"));
    assert!(!t.start_with("ab".chars()));
    assert_eq!(t.traverse(), owned(&["a"]));
    assert!(t.delete("a"));
    assert_eq!(t.traverse(), Vec::<String>::new());
}

#[test]
fn delete_prunes_a_long_dead_branch_in_one_go() {
    let mut t = Trie::default();
    t.insert("a");
    t.insert("abcdefgh");
    t.insert("axy");
    assert!(!t.delete("abcdefgh"));
    assert!(!t.start_with("ab".chars()));
    assert!(t.start_with("ax".chars()));
    assert_eq!(sorted(t.traverse()), owned(&["a", "axy"]));
    assert_eq!(sorted(t.traverse_with_stack()), owned(&["a", "axy"]));
}
