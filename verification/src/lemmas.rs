//! Facts about the shape of a subtree that the operations rest on.

use crate::{completions, prefixed, Node};
use vstd::prelude::*;

verus! {

broadcast use vstd::std_specs::hash::group_hash_axioms;

impl Node {
    /// A subtree that obeys the invariant and whose top node is not vacant
    /// holds at least one word; the lemma hands one back.
    pub proof fn lemma_occupied_has_word(self) -> (word: Seq<char>)
        requires
            self.wf(),
            !self.is_vacant(),
        ensures
            self.has_word(word),
        decreases self,
    {
        if self.is_terminal {
            Seq::empty()
        } else {
            let key = choose|key: u32| self.children@.contains_key(key);
            assert(self.children@.contains_key(key)) by {
                if forall|k: u32| !self.children@.dom().contains(k) {
                    assert(self.children@.dom() =~= Set::empty());
                }
            }
            let rest = self.children@[key].lemma_occupied_has_word();
            let word = seq![key as char] + rest;
            assert(word[0] as u32 == key);
            assert(word.drop_first() == rest);
            word
        }
    }

    /// Under the invariant a node is vacant exactly when its subtree holds no
    /// word at all.
    pub proof fn lemma_vacant_iff_empty(self)
        requires
            self.wf(),
        ensures
            self.is_vacant() <==> self@.is_empty(),
    {
        if self.is_vacant() {
            assert forall|word: Seq<char>| !self.has_word(word) by {
                if word.len() > 0 {
                    assert(!self.children@.dom().contains(word[0] as u32));
                }
            }
            assert(self@ =~= Set::empty());
        } else {
            let word = self.lemma_occupied_has_word();
            assert(self@.contains(word));
        }
    }

    /// The words that a subtree stores under `prefix` and that go on with the
    /// character `c` are those that the branch for `c` stores under `prefix`
    /// followed by `c`.
    pub(crate) proof fn lemma_branch_words(self, prefix: Seq<char>, c: char)
        requires
            self.children@.contains_key(c as u32),
        ensures
            prefixed(prefix.push(c), self.children@[c as u32]@) == Set::new(
                |s: Seq<char>|
                    prefixed(prefix, self@).contains(s) && s.len() > prefix.len()
                        && s[prefix.len() as int] as u32 == c as u32,
            ),
    {
        let child = self.children@[c as u32];
        let n = prefix.len() as int;
        let through = Set::new(
            |s: Seq<char>|
                prefixed(prefix, self@).contains(s) && s.len() > prefix.len() && s[n] as u32
                    == c as u32,
        );
        assert forall|s: Seq<char>|
            prefixed(prefix.push(c), child@).contains(s) == through.contains(s) by {
            if s.len() > n {
                let rest = s.skip(n);
                assert(rest[0] == s[n]);
                assert(rest.drop_first() =~= s.skip(n + 1));
                if prefix.push(c).is_prefix_of(s) {
                    assert(s[n] == prefix.push(c)[n]);
                    assert(prefix =~= s.subrange(0, n));
                }
                if prefix.is_prefix_of(s) && s[n] as u32 == c as u32 {
                    crate::text::lemma_scalar_value_injective(s[n], c);
                    assert(prefix.push(c) =~= s.subrange(0, n + 1));
                }
            }
        }
        assert(prefixed(prefix.push(c), child@) =~= through);
    }

    /// A node that differs from this one only in the branch for `c` stores
    /// what this one stores, but for the words that go on with `c`: those are
    /// the words of the new branch.
    pub(crate) proof fn lemma_graft(self, later: Node, prefix: Seq<char>, c: char, branch: Node)
        requires
            later.is_terminal == self.is_terminal,
            later.children@ == self.children@.insert(c as u32, branch),
        ensures
            prefixed(prefix, later@) == prefixed(prefix, self@).difference(
                extensions(prefix.push(c)),
            ) + prefixed(prefix.push(c), branch@),
    {
        let n = prefix.len() as int;
        let longer = prefix.push(c);
        let kept = prefixed(prefix, self@).difference(extensions(longer));
        let grafted = prefixed(longer, branch@);
        later.lemma_branch_words(prefix, c);
        assert forall|s: Seq<char>|
            prefixed(prefix, later@).contains(s) == (kept + grafted).contains(s) by {
            if prefix.is_prefix_of(s) {
                let rest = s.skip(n);
                if s.len() > n {
                    assert(rest[0] == s[n]);
                    if s[n] as u32 == c as u32 {
                        crate::text::lemma_scalar_value_injective(s[n], c);
                        assert(longer =~= s.subrange(0, n + 1));
                    } else {
                        if longer.is_prefix_of(s) {
                            assert(s[n] == longer[n]);
                        }
                    }
                }
            }
        }
        assert(prefixed(prefix, later@) =~= kept + grafted);
    }

    /// One step down from a node that is reached by `path`: where the branch
    /// for `c` exists, it is reached by `path` followed by `c`; where it does
    /// not, no word of `all` begins that way.
    pub(crate) proof fn lemma_step_down(self, all: Set<Seq<char>>, path: Seq<char>, c: char)
        requires
            prefixed(path, self@) == completions(path, all),
        ensures
            self.children@.contains_key(c as u32) ==> prefixed(
                path.push(c),
                self.children@[c as u32]@,
            ) == completions(path.push(c), all),
            !self.children@.contains_key(c as u32) ==> completions(path.push(c), all)
                == Set::<Seq<char>>::empty(),
    {
        let n = path.len() as int;
        let longer = path.push(c);
        let through = Set::new(
            |s: Seq<char>|
                prefixed(path, self@).contains(s) && s.len() > path.len() && s[n] as u32
                    == c as u32,
        );
        assert forall|s: Seq<char>| completions(longer, all).contains(s) == through.contains(s) by {
            if s.len() > n {
                if longer.is_prefix_of(s) {
                    assert(s[n] == longer[n]);
                    assert(path =~= s.subrange(0, n));
                }
                if path.is_prefix_of(s) && s[n] as u32 == c as u32 {
                    crate::text::lemma_scalar_value_injective(s[n], c);
                    assert(longer =~= s.subrange(0, n + 1));
                }
            }
        }
        assert(completions(longer, all) =~= through);
        if self.children@.contains_key(c as u32) {
            self.lemma_branch_words(path, c);
        } else {
            assert forall|s: Seq<char>| !through.contains(s) by {
                if s.len() > n && path.is_prefix_of(s) {
                    let rest = s.skip(n);
                    assert(rest[0] == s[n]);
                }
            }
            assert(through =~= Set::<Seq<char>>::empty());
        }
    }
}

/// The sequences that begin with `path`.
pub(crate) open spec fn extensions(path: Seq<char>) -> Set<Seq<char>> {
    Set::new(|s: Seq<char>| path.is_prefix_of(s))
}

/// Every word begins with nothing: the root of a tree is reached by the
/// empty path.
pub(crate) proof fn lemma_completions_of_nothing(all: Set<Seq<char>>)
    ensures
        prefixed(Seq::empty(), all) == all,
        completions(Seq::empty(), all) == all,
{
    assert forall|s: Seq<char>| prefixed(Seq::empty(), all).contains(s) == all.contains(s) by {
        assert(s.skip(0) =~= s);
    }
    assert(prefixed(Seq::empty(), all) =~= all);
    assert(completions(Seq::empty(), all) =~= all);
}

} // verus!
