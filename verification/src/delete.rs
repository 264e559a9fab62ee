//! Removal of a word, with the pruning of the branch that it leaves dead.

use crate::text::lemma_same_head_and_tail;
use crate::{leaves_nothing, Node, Trie};
use std::collections::hash_map::Entry;
use vstd::prelude::*;
use vstd::std_specs::hash::*;
use vstd::std_specs::iter::IteratorSpec;

verus! {

broadcast use vstd::std_specs::hash::group_hash_axioms;

impl Node {
    /// Removes the word that `query` still has to yield from this subtree, and
    /// with it every node below this one that the removal leaves vacant.
    ///
    /// The result tells the caller whether this node itself has become a
    /// candidate for pruning: with nothing left to read that is the case when
    /// the node has no branch; otherwise when a word was in fact removed and
    /// nothing is stored here any more. A node for which the signal is given
    /// is vacant, and a node that was not vacant and gets no signal is not.
    ///
    /// Which word goes is stated for a source of characters that yields a
    /// sequence and then ends, as the characters of a string do.
    pub fn delete_node<I: Iterator<Item = char>>(&mut self, mut query: I) -> (vacated: bool)
        requires
            old(self).wf(),
        ensures
            final(self).wf(),
            vacated ==> final(self).is_vacant(),
            !vacated && !old(self).is_vacant() ==> !final(self).is_vacant(),
            query.obeys_prophetic_iter_laws() ==> final(self)@ == old(self)@.remove(
                query.remaining(),
            ),
            query.obeys_prophetic_iter_laws() ==> vacated == leaves_nothing(
                old(self)@,
                query.remaining(),
            ),
        decreases *old(self),
    {
        let ghost word = query.remaining();
        let ghost lawful = query.obeys_prophetic_iter_laws();
        match query.next() {
            None => {
                if self.is_terminal {
                    self.is_terminal = false;
                }
                let childless = self.children.is_empty();
                assert(self.wf());
                assert(self.is_vacant() <==> self@.is_empty()) by {
                    self.lemma_vacant_iff_empty();
                }
                assert(lawful ==> self@ =~= old(self)@.remove(word)) by {
                    if lawful {
                        assert forall|w: Seq<char>|
                            self.has_word(w) == (old(self).has_word(w) && w != word) by {
                            if w.len() == 0 {
                                assert(w =~= word);
                            }
                        }
                    }
                }
                childless
            },
            Some(c) => {
                let key = c as u32;
                let ghost rest = query.remaining();
                assert(lawful ==> word.len() > 0 && word[0] == c && rest == word.drop_first());
                let ghost mut pruned = false;
                let ghost mut after = *self;
                match self.children.entry(key) {
                    Entry::Occupied(mut slot) => {
                        let child = slot.get_mut();
                        let prune = child.delete_node(query);
                        proof {
                            pruned = prune;
                            after = *child;
                        }
                        if prune {
                            slot.remove();
                        } else {
                            // The branch stays: the slot goes back to the map.
                            slot.into_mut();
                        }
                    },
                    Entry::Vacant(_) => {
                        assert(self.children@ =~= old(self).children@);
                        assert(lawful ==> self@ =~= old(self)@.remove(word));
                        return false;
                    },
                }
                let ghost before = old(self).children@[key];
                assert(old(self).children@.contains_key(key));
                assert(self.children@ =~= if pruned {
                    old(self).children@.remove(key)
                } else {
                    old(self).children@.insert(key, after)
                });
                assert(self.wf());
                assert(lawful ==> self@ =~= old(self)@.remove(word)) by {
                    if lawful {
                        assert forall|w: Seq<char>|
                            self.has_word(w) == (old(self).has_word(w) && w != word) by {
                            if w.len() > 0 && w[0] as u32 == key {
                                let tail = w.drop_first();
                                assert(after.has_word(tail) == (before.has_word(tail) && tail
                                    != rest)) by {
                                    assert(after@.contains(tail) == before@.remove(rest).contains(
                                        tail,
                                    ));
                                }
                                if tail == rest {
                                    lemma_same_head_and_tail(w, word);
                                }
                                if pruned {
                                    after.lemma_vacant_iff_empty();
                                    assert(!after@.contains(tail));
                                }
                            }
                        }
                    }
                }
                assert(lawful ==> self.is_vacant() == leaves_nothing(old(self)@, word)) by {
                    if lawful {
                        self.lemma_vacant_iff_empty();
                        old(self).lemma_vacant_iff_empty();
                        if self@.is_empty() && !old(self)@.contains(word) {
                            assert(old(self)@ =~= self@);
                        }
                    }
                }
                !self.is_terminal && self.children.is_empty()
            },
        }
    }
}

impl Trie {
    /// Removes `query` from the stored words, if it is among them, and prunes
    /// what the removal leaves dead. The result is the root's own signal: the
    /// tree holds nothing any more and, unless `query` is empty, it was this
    /// call that emptied it.
    pub fn delete(&mut self, query: &str) -> (vacated: bool)
        requires
            old(self).wf(),
        ensures
            final(self).wf(),
            final(self)@ == old(self)@.remove(query@),
            vacated == leaves_nothing(old(self)@, query@),
    {
        self.root.delete_node(query.chars())
    }
}

} // verus!
