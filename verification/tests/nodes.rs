use trie::{Node, Trie};

#[test]
fn new_node_holds_nothing() {
    let node = Node::new();
    let mut out = vec!["kept".to_string()];
    node.traverse_node("pre".to_string(), &mut out);
    assert_eq!(out, vec!["kept".to_string()]);
    node.traverse_node_with_stack("pre".to_string(), &mut out);
    assert_eq!(out, vec!["kept".to_string()]);
    assert_eq!(node._auto_complete(""), Vec::<String>::new());
    assert_eq!(node._auto_complete("a"), Vec::<String>::new());
}

#[test]
fn default_node_is_a_new_node() {
    let t = Trie::new(Node::default());
    assert_eq!(t.traverse(), Vec::<String>::new());
    assert!(!t.search(""));
    assert!(t.start_with("".chars()));
    assert!(!t.start_with("a".chars()));
}

#[test]
fn delete_on_a_new_node() {
    let mut node = Node::new();
    assert!(!node.delete_node("word".chars()));
    assert!(node.delete_node("".chars()));
    let mut out = Vec::new();
    node.traverse_node(String::new(), &mut out);
    assert_eq!(out, Vec::<String>::new());
}

#[test]
fn delete_node_reads_what_the_iterator_has_left() {
    let mut node = Node::new().clone();
    let mut query = "xword".chars();
    query.next();
    assert!(!node.delete_node(query));
    let t = Trie::new(node);
    assert_eq!(t.traverse(), Vec::<String>::new());
}

#[test]
fn any_source_of_characters_is_taken() {
    let mut t = Trie::default();
    t.insert("data");
    t.insert("date");
    assert!(t.start_with(vec!['d', 'a', 't'].into_iter()));
    assert!(!t.start_with(vec!['d', 'o'].into_iter()));
    assert!(t.start_with("tad".chars().rev()));
    assert!(t.start_with(std::iter::empty::<char>()));
    assert!(t.start_with("DAT".chars().map(|c| c.to_ascii_lowercase())));
}

#[test]
fn delete_node_takes_any_source_of_characters() {
    let mut node = Node::new();
    assert!(!node.delete_node(vec!['n', 'o'].into_iter()));
    assert!(node.delete_node(std::iter::empty::<char>()));
    assert!(!node.delete_node("on".chars().rev()));
}
