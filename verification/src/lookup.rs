//! Questions about what is stored: whether a word is, and whether anything
//! begins with a given prefix.

use crate::lemmas::lemma_completions_of_nothing;
use crate::{begins_some, completions, prefixed, Trie};
use vstd::prelude::*;
use vstd::std_specs::iter::IteratorSpec;

verus! {

broadcast use vstd::std_specs::hash::group_hash_axioms;

impl Trie {
    /// Whether `query` is one of the stored words. A word that is only the
    /// beginning of a stored one is not.
    pub fn search(&self, query: &str) -> (found: bool)
        ensures
            found == self@.contains(query@),
    {
        let mut head = &self.root;
        let ghost mut visited = 0int;
        proof {
            lemma_completions_of_nothing(self@);
            assert(query@.take(0) =~= Seq::empty());
        }
        for c in it: query.chars()
            invariant
                it.seq() == query@,
                it.index() == visited,
                prefixed(query@.take(visited), head@) == completions(query@.take(visited), self@),
        {
            proof {
                head.lemma_step_down(self@, query@.take(visited), c);
                assert(query@.take(visited).push(c) =~= query@.take(visited + 1));
            }
            match head.children.get(&(c as u32)) {
                Some(next) => {
                    head = next;
                },
                None => {
                    assert(!self@.contains(query@)) by {
                        if self@.contains(query@) {
                            assert(completions(query@.take(visited + 1), self@).contains(query@));
                        }
                    }
                    return false;
                },
            }
            proof {
                visited = visited + 1;
            }
        }
        assert(head.is_terminal == self@.contains(query@)) by {
            assert(query@.take(visited) =~= query@);
            assert(query@.skip(visited) =~= Seq::empty());
            assert(self@.contains(query@) == completions(query@, self@).contains(query@));
            assert(head.is_terminal == prefixed(query@, head@).contains(query@));
        }
        head.is_terminal
    }

    /// Whether the path that `query` spells exists in the tree: that is the
    /// case for the empty path, and otherwise exactly when some stored word
    /// begins with what `query` yields. The answer is stated for a source of
    /// characters that yields a sequence and then ends, as the characters of
    /// a string do.
    pub fn start_with<I: Iterator<Item = char>>(&self, query: I) -> (found: bool)
        requires
            self.wf(),
        ensures
            query.obeys_prophetic_iter_laws() ==> found == begins_some(
                query.remaining(),
                self@,
            ),
    {
        let mut head = &self.root;
        let mut pending = query;
        let ghost path = query.remaining();
        let ghost lawful = query.obeys_prophetic_iter_laws();
        let ghost mut visited = 0int;
        proof {
            lemma_completions_of_nothing(self@);
        }
        assert(path.take(0) =~= Seq::empty());
        assert(path.skip(0) =~= path);
        loop
            invariant
                path == query.remaining(),
                lawful == query.obeys_prophetic_iter_laws(),
                lawful == pending.obeys_prophetic_iter_laws(),
                0 <= visited <= path.len(),
                lawful ==> pending.remaining() == path.skip(visited),
                head.wf(),
                visited > 0 ==> !head.is_vacant(),
                lawful ==> prefixed(path.take(visited), head@) == completions(
                    path.take(visited),
                    self@,
                ),
            ensures
                lawful ==> begins_some(path, self@),
            decreases head,
        {
            match pending.next() {
                Some(c) => {
                    assert(lawful ==> visited < path.len() && c == path[visited]);
                    assert(lawful ==> path.take(visited).push(c) =~= path.take(visited + 1));
                    assert(lawful ==> path.skip(visited).drop_first() =~= path.skip(visited + 1));
                    proof {
                        if lawful {
                            head.lemma_step_down(self@, path.take(visited), c);
                        }
                    }
                    match head.children.get(&(c as u32)) {
                        Some(next) => {
                            head = next;
                        },
                        None => {
                            assert(lawful ==> !begins_some(path, self@)) by {
                                if lawful {
                                    assert forall|word: Seq<char>|
                                        self@.contains(word) implies !path.is_prefix_of(word) by {
                                        let longer = path.take(visited + 1);
                                        if path.is_prefix_of(word) {
                                            assert(longer.is_prefix_of(word));
                                            assert(completions(longer, self@).contains(word));
                                        }
                                    }
                                }
                            }
                            return false;
                        },
                    }
                    proof {
                        if lawful {
                            visited = visited + 1;
                        }
                    }
                },
                None => {
                    assert(lawful ==> begins_some(path, self@)) by {
                        if lawful && path.len() > 0 {
                            assert(path.take(visited) =~= path);
                            let rest = head.lemma_occupied_has_word();
                            let word = path + rest;
                            assert(word.skip(path.len() as int) =~= rest);
                            assert(path.is_prefix_of(word));
                            assert(prefixed(path, head@).contains(word));
                            assert(completions(path, self@).contains(word));
                        }
                    }
                    break;
                },
            }
        }
        true
    }
}

} // verus!
