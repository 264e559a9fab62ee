//! Storing a word.

use crate::lemmas::{extensions, lemma_completions_of_nothing};
use crate::{completions, prefixed, Node, Trie};
use vstd::prelude::*;
use vstd::std_specs::hash::*;

verus! {

broadcast use vstd::std_specs::hash::group_hash_axioms;

impl Trie {
    /// Adds `word` to the stored words. The nodes that its path still lacks
    /// are made on the way down, and the node at its end is marked.
    pub fn insert(&mut self, word: &str)
        requires
            old(self).wf(),
        ensures
            final(self).wf(),
            final(self)@ == old(self)@.insert(word@),
    {
        let ghost before = old(self).root@;
        let mut head = &mut self.root;
        let ghost mut visited = 0int;
        proof {
            lemma_completions_of_nothing(before);
        }
        assert(word@.take(0) =~= Seq::empty());
        assert(after_borrow(self.root)@ == before.difference(completions(word@.take(0), before))
            + prefixed(word@.take(0), final(head)@)) by {
            lemma_completions_of_nothing(final(head)@);
            assert(before.difference(before) + final(head)@ =~= final(head)@);
        }
        for c in it: word.chars()
            invariant
                it.seq() == word@,
                it.index() == visited,
                head.wf(),
                prefixed(word@.take(visited), head@) == completions(word@.take(visited), before),
                final(head).wf() && (visited > 0 ==> !final(head).is_vacant())
                    ==> after_borrow(self.root).wf(),
                after_borrow(self.root)@ == before.difference(
                    completions(word@.take(visited), before),
                ) + prefixed(word@.take(visited), final(head)@),
        {
            let ghost path = word@.take(visited);
            let ghost longer = word@.take(visited + 1);
            let ghost above = *head;
            let ghost above_final = *final(head);
            assert(path.push(c) =~= longer);
            proof {
                above.lemma_step_down(before, path, c);
            }
            head = head.children.entry(c as u32).or_insert(Node::new());
            assert(above_final.is_terminal == above.is_terminal);
            assert(above_final.children@ == above.children@.insert(c as u32, *final(head)));
            assert(head.wf());
            assert(prefixed(longer, head@) == completions(longer, before)) by {
                if !above.children@.contains_key(c as u32) {
                    assert(prefixed(longer, head@) =~= Set::<Seq<char>>::empty());
                }
            }
            assert(final(head).wf() && !final(head).is_vacant() ==> above_final.wf()
                && !above_final.is_vacant()) by {
                if final(head).wf() && !final(head).is_vacant() {
                    crate::text::lemma_char_is_scalar_value(c);
                    assert(above_final.children@.contains_key(c as u32));
                    assert(above_final.wf());
                }
            }
            assert(after_borrow(self.root)@ == before.difference(completions(longer, before))
                + prefixed(longer, final(head)@)) by {
                above.lemma_graft(above_final, path, c, *final(head));
                assert(completions(longer, before) =~= completions(path, before).intersect(
                    extensions(longer),
                )) by {
                    assert forall|s: Seq<char>| longer.is_prefix_of(s) implies path.is_prefix_of(
                        s,
                    ) by {
                        assert(path =~= longer.subrange(0, visited));
                    }
                }
                assert(before.difference(completions(path, before)) + (completions(
                    path,
                    before,
                ).difference(extensions(longer)) + prefixed(longer, final(head)@))
                    =~= before.difference(completions(longer, before)) + prefixed(
                    longer,
                    final(head)@,
                ));
            }
            proof {
                visited = visited + 1;
            }
        }
        let ghost last = *head;
        head.is_terminal = true;
        assert(word@.take(visited) =~= word@);
        assert(head.wf() && !head.is_vacant());
        assert(prefixed(word@, head@) =~= prefixed(word@, last@).insert(word@)) by {
            assert(word@.skip(word@.len() as int) =~= Seq::empty());
            assert forall|s: Seq<char>|
                prefixed(word@, head@).contains(s) == prefixed(word@, last@).insert(word@).contains(
                    s,
                ) by {
                if word@.is_prefix_of(s) {
                    if s.len() == word@.len() {
                        assert(s =~= word@);
                    } else {
                        let rest = s.skip(word@.len() as int);
                        assert(rest.len() > 0);
                    }
                }
            }
        }
        assert(before.difference(completions(word@, before)) + completions(word@, before).insert(
            word@,
        ) =~= before.insert(word@));
    }
}

} // verus!
