//! A prefix tree over characters: an in-memory index of a set of words that
//! answers membership and prefix queries, lists the stored words, and gives
//! back the nodes that a removal leaves without a purpose.
//!
//! The contract of every operation speaks of one model: the set of words that
//! the tree holds, each word a sequence of characters.

use std::collections::HashMap;
use vstd::prelude::*;

pub mod construct;
pub mod count;
pub mod delete;
pub mod insert;
pub mod laws;
pub mod lemmas;
pub mod lookup;
pub mod text;
pub mod traverse;
pub mod worklist;

verus! {

broadcast use vstd::std_specs::hash::group_hash_axioms;

/// One position in the tree. The branches that leave it are keyed by the
/// scalar value of the character they stand for.
#[derive(Debug)]
pub struct Node {
    children: HashMap<u32, Node>,
    is_terminal: bool,
}

/// The index itself: the node that stands for the empty prefix, and all that
/// hangs below it.
#[derive(Debug)]
pub struct Trie {
    root: Node,
}

/// The entries of `strings`, each as the sequence of its characters.
pub open spec fn texts(strings: Seq<String>) -> Seq<Seq<char>> {
    strings.map_values(|s: String| s@)
}

/// The words of `words`, each with `prefix` put in front of it.
pub open spec fn prefixed(prefix: Seq<char>, words: Set<Seq<char>>) -> Set<Seq<char>> {
    Set::new(|s: Seq<char>| prefix.is_prefix_of(s) && words.contains(s.skip(prefix.len() as int)))
}

/// The words of `words` that begin with `prefix`.
pub open spec fn completions(prefix: Seq<char>, words: Set<Seq<char>>) -> Set<Seq<char>> {
    Set::new(|w: Seq<char>| words.contains(w) && prefix.is_prefix_of(w))
}

/// `prefix` is empty, or it is how one of `words` begins.
pub open spec fn begins_some(prefix: Seq<char>, words: Set<Seq<char>>) -> bool {
    prefix.len() == 0 || exists|word: Seq<char>| words.contains(word) && prefix.is_prefix_of(word)
}

/// The signal that a removal hands up: after `word` has been taken out of
/// `words` nothing is left, and either `word` is empty or it was among them.
pub open spec fn leaves_nothing(words: Set<Seq<char>>, word: Seq<char>) -> bool {
    words.remove(word).is_empty() && (word.len() == 0 || words.contains(word))
}

impl Node {
    /// Whether the path that `word` spells below this node exists and ends on
    /// a node that is marked as the end of a word.
    pub closed spec fn has_word(self, word: Seq<char>) -> bool
        decreases word.len(),
    {
        if word.len() == 0 {
            self.is_terminal
        } else {
            let key = word[0] as u32;
            self.children@.contains_key(key) && self.children@[key].has_word(word.drop_first())
        }
    }

    /// A node that neither ends a word nor has a branch: it serves no stored
    /// word.
    pub closed spec fn is_vacant(self) -> bool {
        !self.is_terminal && self.children@.is_empty()
    }

    /// The invariant of a subtree: every branch is keyed by the scalar value
    /// of a character, and no node below this one is vacant.
    pub closed spec fn wf(self) -> bool
        decreases self,
    {
        forall|key: u32| #[trigger]
            self.children@.contains_key(key) ==> {
                &&& text::is_scalar_value(key)
                &&& !self.children@[key].is_vacant()
                &&& self.children@[key].wf()
            }
    }
}

impl View for Node {
    type V = Set<Seq<char>>;

    /// The words stored in the subtree, read from this node on.
    open spec fn view(&self) -> Set<Seq<char>> {
        Set::new(|word: Seq<char>| self.has_word(word))
    }
}

impl Trie {
    /// The invariant of the tree: below the root no node is vacant.
    pub closed spec fn wf(self) -> bool {
        self.root.wf()
    }
}

impl View for Trie {
    type V = Set<Seq<char>>;

    /// The set of words that the tree holds.
    closed spec fn view(&self) -> Set<Seq<char>> {
        self.root@
    }
}

} // verus!
