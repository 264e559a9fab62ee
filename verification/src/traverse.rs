//! Listing the stored words: the walk that recurses, the walk that keeps its
//! own work list, and the completion of a prefix.

use crate::lemmas::lemma_completions_of_nothing;
use crate::text::{is_scalar_value, lemma_char_is_scalar_value};
use crate::{completions, prefixed, texts, Node, Trie};
use vstd::prelude::*;
use vstd::seq_lib::{lemma_no_dup_in_concat, seq_to_set_distributes_over_add};
use vstd::std_specs::hash::*;
use vstd::std_specs::iter::IteratorSpec;

verus! {

broadcast use vstd::std_specs::hash::group_hash_axioms;

/// The words that `node` stores under `prefix` and that either end right
/// after `prefix` or go on with a character whose scalar value is in `keys`.
pub(crate) closed spec fn reached(node: Node, prefix: Seq<char>, keys: Set<u32>) -> Set<Seq<char>> {
    Set::new(
        |s: Seq<char>|
            prefixed(prefix, node@).contains(s) && (s.len() == prefix.len() || keys.contains(
                s[prefix.len() as int] as u32,
            )),
    )
}

/// Before any branch is taken, only the word that ends at the node itself
/// has been reached.
pub(crate) proof fn lemma_reached_start(node: Node, prefix: Seq<char>)
    ensures
        reached(node, prefix, Set::empty()) == if node.is_terminal {
            seq![prefix].to_set()
        } else {
            Seq::<Seq<char>>::empty().to_set()
        },
{
    let first = reached(node, prefix, Set::empty());
    assert(prefix.skip(prefix.len() as int) =~= Seq::empty());
    assert forall|s: Seq<char>| first.contains(s) == (node.is_terminal && s == prefix) by {
        if prefix.is_prefix_of(s) && s.len() == prefix.len() {
            assert(s =~= prefix);
        }
    }
    if node.is_terminal {
        assert(seq![prefix][0] == prefix);
        assert(first =~= seq![prefix].to_set());
    } else {
        assert(first =~= Seq::<Seq<char>>::empty().to_set());
    }
}

/// With the branch for `c` taken as well, what has been reached grows by the
/// words of that branch.
pub(crate) proof fn lemma_reached_insert(node: Node, prefix: Seq<char>, done: Set<u32>, c: char)
    requires
        node.children@.contains_key(c as u32),
    ensures
        reached(node, prefix, done.insert(c as u32)) == reached(node, prefix, done) + prefixed(
            prefix.push(c),
            node.children@[c as u32]@,
        ),
        !done.contains(c as u32) ==> reached(node, prefix, done).disjoint(
            prefixed(prefix.push(c), node.children@[c as u32]@),
        ),
        prefixed(prefix.push(c), node.children@[c as u32]@).subset_of(prefixed(prefix, node@)),
{
    node.lemma_branch_words(prefix, c);
    assert(reached(node, prefix, done.insert(c as u32)) =~= reached(node, prefix, done) + prefixed(
        prefix.push(c),
        node.children@[c as u32]@,
    ));
}

/// Taking the branch for `c` adds the words of that branch to what has been
/// reached, and none of them was reached before.
pub(crate) proof fn lemma_reached_grows(
    node: Node,
    prefix: Seq<char>,
    done: Set<u32>,
    c: char,
    so_far: Seq<Seq<char>>,
    added: Seq<Seq<char>>,
)
    requires
        node.children@.contains_key(c as u32),
        !done.contains(c as u32),
        so_far.no_duplicates(),
        so_far.to_set() == reached(node, prefix, done),
        added.no_duplicates(),
        added.to_set() == prefixed(prefix.push(c), node.children@[c as u32]@),
    ensures
        (so_far + added).no_duplicates(),
        (so_far + added).to_set() == reached(node, prefix, done.insert(c as u32)),
{
    lemma_reached_insert(node, prefix, done, c);
    assert forall|i: int, j: int| 0 <= i < so_far.len() && 0 <= j < added.len() implies so_far[i]
        != added[j] by {
        assert(so_far.to_set().contains(so_far[i]));
        assert(added.to_set().contains(added[j]));
    }
    lemma_no_dup_in_concat(so_far, added);
    seq_to_set_distributes_over_add(so_far, added);
}

/// A key that is the scalar value of no character leads to no word.
pub(crate) proof fn lemma_reached_skips(node: Node, prefix: Seq<char>, done: Set<u32>, key: u32)
    requires
        !is_scalar_value(key),
    ensures
        reached(node, prefix, done.insert(key)) == reached(node, prefix, done),
{
    assert forall|s: Seq<char>|
        reached(node, prefix, done.insert(key)).contains(s) implies reached(
        node,
        prefix,
        done,
    ).contains(s) by {
        if s.len() != prefix.len() {
            lemma_char_is_scalar_value(s[prefix.len() as int]);
        }
    }
    assert(reached(node, prefix, done.insert(key)) =~= reached(node, prefix, done));
}

/// Once every branch has been taken, every word under the prefix has been
/// reached.
pub(crate) proof fn lemma_reached_all(node: Node, prefix: Seq<char>, done: Set<u32>)
    requires
        forall|key: u32| node.children@.contains_key(key) ==> done.contains(key),
    ensures
        reached(node, prefix, done) == prefixed(prefix, node@),
{
    assert forall|s: Seq<char>| prefixed(prefix, node@).contains(s) implies reached(
        node,
        prefix,
        done,
    ).contains(s) by {
        if s.len() != prefix.len() {
            let rest = s.skip(prefix.len() as int);
            assert(rest[0] == s[prefix.len() as int]);
            assert(node.children@.contains_key(rest[0] as u32));
        }
    }
    assert(reached(node, prefix, done) =~= prefixed(prefix, node@));
}

/// Putting one more entry at the end of a list puts its text at the end of
/// the list's texts.
pub(crate) proof fn lemma_texts_push(strings: Seq<String>, from: int, last: String)
    requires
        0 <= from <= strings.len(),
    ensures
        texts(strings.push(last).skip(from)) == texts(strings.skip(from)).push(last@),
{
    assert(texts(strings.push(last).skip(from)) =~= texts(strings.skip(from)).push(last@));
}

/// What a list gained since it had `from` entries is what it had gained up
/// to `mid` entries, followed by what it gained after that.
pub(crate) proof fn lemma_texts_split(strings: Seq<String>, from: int, mid: int)
    requires
        0 <= from <= mid <= strings.len(),
    ensures
        texts(strings.skip(from)) == texts(strings.take(mid).skip(from)) + texts(strings.skip(mid)),
{
    assert(texts(strings.skip(from)) =~= texts(strings.take(mid).skip(from)) + texts(
        strings.skip(mid),
    ));
}

impl Node {
    /// Appends to `result` every word of this subtree, each with `prefix` in
    /// front, by recursion over the branches. What `result` held before stays
    /// in place; what is added holds each such word once.
    pub fn traverse_node(&self, prefix: String, result: &mut Vec<String>)
        ensures
            old(result)@.is_prefix_of(final(result)@),
            texts(final(result)@.skip(old(result)@.len() as int)).no_duplicates(),
            texts(final(result)@.skip(old(result)@.len() as int)).to_set() == prefixed(
                prefix@,
                self@,
            ),
        decreases self,
    {
        let ghost start = result@.len() as int;
        let ghost mut done = Set::<u32>::empty();
        if self.is_terminal {
            result.push(prefix.clone());
        }
        proof {
            lemma_reached_start(*self, prefix@);
            if self.is_terminal {
                lemma_texts_push(old(result)@, start, prefix);
                assert(texts(result@.skip(start)) =~= seq![prefix@]);
            } else {
                assert(texts(result@.skip(start)) =~= Seq::empty());
            }
        }
        let ghost items = spec_hash_map_iter(&self.children).remaining();
        let ghost mut visited = 0int;
        for entry in it: self.children.iter()
            invariant
                it.seq() == items,
                it.index() == visited,
                items == spec_hash_map_iter(&self.children).remaining(),
                items.no_duplicates(),
                start == old(result)@.len(),
                old(result)@.is_prefix_of(result@),
                texts(result@.skip(start)).no_duplicates(),
                texts(result@.skip(start)).to_set() == reached(*self, prefix@, done),
                forall|j: int| 0 <= j < visited ==> done.contains(*(#[trigger] items[j]).0),
                forall|key: u32|
                    done.contains(key) ==> exists|j: int|
                        0 <= j < visited && *(#[trigger] items[j]).0 == key,
        {
            let (key, child) = entry;
            let ghost at = visited;
            let ghost mid = result@.len() as int;
            let ghost so_far = texts(result@.skip(start));
            let ghost held = result@;
            assert(self.children@.contains_key(*key) && self.children@[*key] == *child);
            assert(!done.contains(*key)) by {
                if done.contains(*key) {
                    let j = choose|j: int| 0 <= j < at && *(#[trigger] items[j]).0 == *key;
                    assert(items[j] == items[at]);
                }
            }
            match char::from_u32(*key) {
                Some(c) => {
                    let mut new_prefix = prefix.clone();
                    new_prefix.push(c);
                    child.traverse_node(new_prefix, result);
                    proof {
                        let added = texts(result@.skip(mid));
                        assert(result@.take(mid) =~= held);
                        lemma_texts_split(result@, start, mid);
                        lemma_reached_grows(*self, prefix@, done, c, so_far, added);
                    }
                },
                None => {
                    proof {
                        lemma_reached_skips(*self, prefix@, done, *key);
                    }
                },
            }
            proof {
                done = done.insert(*key);
                visited = visited + 1;
            }
        }
        assert(reached(*self, prefix@, done) == prefixed(prefix@, self@)) by {
            assert forall|key: u32| self.children@.contains_key(key) implies done.contains(key) by {
                let pair = (&key, &self.children@[key]);
                assert(items.contains(pair));
                let j = choose|j: int| 0 <= j < items.len() && items[j] == pair;
                assert(*items[j].0 == key);
            }
            lemma_reached_all(*self, prefix@, done);
        }
    }

    /// The words of this subtree that begin with `prefix`, each once. Where
    /// the path that `prefix` spells does not exist there is no such word, and
    /// the list is empty.
    pub fn _auto_complete(&self, prefix: &str) -> (words: Vec<String>)
        ensures
            texts(words@).no_duplicates(),
            texts(words@).to_set() == completions(prefix@, self@),
    {
        let mut head = self;
        let ghost mut visited = 0int;
        proof {
            lemma_completions_of_nothing(self@);
            assert(prefix@.take(0) =~= Seq::empty());
        }
        for c in it: prefix.chars()
            invariant
                it.seq() == prefix@,
                it.index() == visited,
                prefixed(prefix@.take(visited), head@) == completions(prefix@.take(visited), self@),
        {
            proof {
                head.lemma_step_down(self@, prefix@.take(visited), c);
                assert(prefix@.take(visited).push(c) =~= prefix@.take(visited + 1));
            }
            match head.children.get(&(c as u32)) {
                Some(next) => {
                    head = next;
                },
                None => {
                    let none: Vec<String> = Vec::new();
                    assert(texts(none@).to_set() =~= completions(prefix@, self@)) by {
                        assert forall|s: Seq<char>| !completions(prefix@, self@).contains(s) by {
                            if prefix@.is_prefix_of(s) {
                                assert(prefix@.take(visited + 1).is_prefix_of(s));
                                if self@.contains(s) {
                                    assert(completions(prefix@.take(visited + 1), self@).contains(
                                        s,
                                    ));
                                }
                            }
                        }
                    }
                    return none;
                },
            }
            proof {
                visited = visited + 1;
            }
        }
        let mut result = Vec::new();
        head.traverse_node(prefix.to_string(), &mut result);
        proof {
            assert(prefix@.take(visited) =~= prefix@);
            assert(result@.skip(0) =~= result@);
        }
        result
    }
}

impl Trie {
    /// Every stored word, once, in the order in which the recursive walk
    /// comes upon them.
    pub fn traverse(&self) -> (words: Vec<String>)
        ensures
            texts(words@).no_duplicates(),
            texts(words@).to_set() == self@,
    {
        let mut result = Vec::new();
        let prefix = String::new();
        self.root.traverse_node(prefix, &mut result);
        proof {
            assert(result@.skip(0) =~= result@);
            lemma_completions_of_nothing(self.root@);
        }
        result
    }

    /// The stored words that begin with `prefix`, each once; none where no
    /// stored word begins that way.
    pub fn auto_complete(&self, prefix: &str) -> (words: Vec<String>)
        ensures
            texts(words@).no_duplicates(),
            texts(words@).to_set() == completions(prefix@, self@),
    {
        self.root._auto_complete(prefix)
    }
}

} // verus!
