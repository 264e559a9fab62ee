//! Making nodes and trees.

use crate::{Node, Trie};
use std::collections::HashMap;
use vstd::prelude::*;
use vstd::std_specs::hash::*;
use vstd::std_specs::iter::IteratorSpec;

verus! {

broadcast use vstd::std_specs::hash::group_hash_axioms;

impl Node {
    /// A node with no branch that ends no word.
    pub fn new() -> (node: Self)
        ensures
            node@ == Set::<Seq<char>>::empty(),
            node.wf(),
    {
        let node = Node { children: HashMap::new(), is_terminal: false };
        proof {
            node.lemma_vacant_iff_empty();
        }
        node
    }
}

impl Default for Node {
    /// The node that `Node::new` makes.
    fn default() -> (node: Self)
        ensures
            node@ == Set::<Seq<char>>::empty(),
            node.wf(),
    {
        Node::new()
    }
}

impl Clone for Node {
    /// A copy of the whole subtree: it stores the same words, and obeys the
    /// invariant where the original does.
    fn clone(&self) -> (copy: Self)
        ensures
            copy@ == self@,
            self.wf() ==> copy.wf(),
        decreases self,
    {
        let mut children: HashMap<u32, Node> = HashMap::new();
        let ghost items = spec_hash_map_iter(&self.children).remaining();
        let ghost mut visited = 0int;
        for entry in it: self.children.iter()
            invariant
                it.seq() == items,
                it.index() == visited,
                items == spec_hash_map_iter(&self.children).remaining(),
                forall|j: int|
                    0 <= j < visited ==> children@.contains_key(*(#[trigger] items[j]).0),
                forall|key: u32| #[trigger]
                    children@.contains_key(key) ==> {
                        &&& self.children@.contains_key(key)
                        &&& children@[key]@ == self.children@[key]@
                        &&& self.children@[key].wf() ==> children@[key].wf()
                    },
        {
            let (key, child) = entry;
            assert(self.children@.contains_key(*key) && self.children@[*key] == *child);
            children.insert(*key, child.clone());
            proof {
                visited = visited + 1;
            }
        }
        let copy = Node { children, is_terminal: self.is_terminal };
        proof {
            assert forall|key: u32|
                self.children@.contains_key(key) implies copy.children@.contains_key(key) by {
                let pair = (&key, &self.children@[key]);
                assert(items.contains(pair));
                let j = choose|j: int| 0 <= j < items.len() && items[j] == pair;
                assert(*items[j].0 == key);
            }
            assert forall|word: Seq<char>| copy.has_word(word) == self.has_word(word) by {
                if word.len() > 0 {
                    let key = word[0] as u32;
                    if self.children@.contains_key(key) {
                        assert(copy.children@[key]@.contains(word.drop_first())
                            == self.children@[key]@.contains(word.drop_first()));
                    }
                }
            }
            assert(copy@ =~= self@);
            if self.wf() {
                assert forall|key: u32| #[trigger]
                    copy.children@.contains_key(key) implies !copy.children@[key].is_vacant() by {
                    self.children@[key].lemma_vacant_iff_empty();
                    copy.children@[key].lemma_vacant_iff_empty();
                }
            }
        }
        copy
    }
}

impl Clone for Trie {
    /// A copy of the tree: it holds the same words.
    fn clone(&self) -> (copy: Self)
        ensures
            copy@ == self@,
            self.wf() ==> copy.wf(),
    {
        Trie { root: self.root.clone() }
    }
}

impl Trie {
    /// The tree whose root is `root`: it holds the words that `root` holds.
    pub fn new(root: Node) -> (trie: Self)
        requires
            root.wf(),
        ensures
            trie.wf(),
            trie@ == root@,
    {
        Trie { root }
    }
}

impl Default for Trie {
    /// The tree that holds no word.
    fn default() -> (trie: Self)
        ensures
            trie.wf(),
            trie@ == Set::<Seq<char>>::empty(),
    {
        Trie { root: Node::new() }
    }
}

} // verus!
