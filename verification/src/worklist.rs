//! The walk over the tree that keeps its own work list in place of the call
//! stack.

use crate::lemmas::lemma_completions_of_nothing;
use crate::traverse::{
    lemma_reached_all, lemma_reached_insert, lemma_reached_skips, lemma_reached_start,
    lemma_texts_push, reached,
};
use crate::{prefixed, texts, Node, Trie};
use vstd::prelude::*;
use vstd::std_specs::hash::*;
use vstd::std_specs::iter::IteratorSpec;

verus! {

broadcast use vstd::std_specs::hash::group_hash_axioms;

/// What an entry of the work list stands for: the words below its node, each
/// with the entry's path in front.
spec fn region(frame: (Seq<char>, Node)) -> Set<Seq<char>> {
    prefixed(frame.0, frame.1@)
}

/// The work list as the walk's proof reads it: each path as a sequence of
/// characters, each node as a value.
spec fn frames(stack: Seq<(String, &Node)>) -> Seq<(Seq<char>, Node)> {
    stack.map_values(|entry: (String, &Node)| (entry.0@, *entry.1))
}

/// The number of nodes that the entries of the work list still stand for.
spec fn pending(frames: Seq<(Seq<char>, Node)>) -> nat
    decreases frames.len(),
{
    if frames.len() == 0 {
        0
    } else {
        pending(frames.drop_last()) + frames.last().1.node_count()
    }
}

/// The state of a walk that is to list the words of `all`: `emitted` holds
/// what has been listed, without repetition; the rest is split, without
/// overlap, between the regions of the work list and the part `open` of the
/// node that is being expanded.
spec fn walk_inv(
    all: Set<Seq<char>>,
    emitted: Seq<Seq<char>>,
    frames: Seq<(Seq<char>, Node)>,
    open: Set<Seq<char>>,
) -> bool {
    &&& emitted.no_duplicates()
    &&& forall|s: Seq<char>| #[trigger]
        all.contains(s) ==> emitted.contains(s) || open.contains(s) || exists|i: int|
            0 <= i < frames.len() && #[trigger] region(frames[i]).contains(s)
    &&& forall|s: Seq<char>| #[trigger] emitted.contains(s) ==> all.contains(s) && !open.contains(s)
    &&& forall|s: Seq<char>| #[trigger] open.contains(s) ==> all.contains(s)
    &&& forall|s: Seq<char>, i: int|
        0 <= i < frames.len() && #[trigger] region(frames[i]).contains(s) ==> all.contains(s)
            && !emitted.contains(s) && !open.contains(s)
    &&& forall|s: Seq<char>, i: int, j: int|
        0 <= i < j < frames.len() && #[trigger] region(frames[i]).contains(s) ==> !(
        #[trigger] region(frames[j]).contains(s))
}

/// A walk starts with nothing listed and the whole subtree on the work list.
proof fn lemma_walk_start(root: Node, top: Seq<char>)
    ensures
        walk_inv(prefixed(top, root@), Seq::empty(), seq![(top, root)], Set::empty()),
{
    let frames = seq![(top, root)];
    assert(region(frames[0]) == prefixed(top, root@));
}

/// Taking the last entry off the work list opens its region.
proof fn lemma_walk_pop(
    all: Set<Seq<char>>,
    emitted: Seq<Seq<char>>,
    frames: Seq<(Seq<char>, Node)>,
)
    requires
        frames.len() > 0,
        walk_inv(all, emitted, frames, Set::empty()),
    ensures
        walk_inv(all, emitted, frames.drop_last(), region(frames.last())),
{
    let rest = frames.drop_last();
    let open = region(frames.last());
    assert forall|i: int| 0 <= i < rest.len() implies rest[i] == frames[i] by {}
    assert forall|s: Seq<char>| #[trigger] all.contains(s) implies emitted.contains(s)
        || open.contains(s) || exists|i: int|
        0 <= i < rest.len() && #[trigger] region(rest[i]).contains(s) by {
        if !emitted.contains(s) {
            let i = choose|i: int|
                0 <= i < frames.len() && #[trigger] region(frames[i]).contains(s);
            if i < rest.len() {
                assert(region(rest[i]).contains(s));
            }
        }
    }
    assert forall|s: Seq<char>| #[trigger] open.contains(s) implies all.contains(s) by {
        assert(region(frames[frames.len() - 1]).contains(s));
    }
    assert forall|s: Seq<char>| #[trigger] emitted.contains(s) implies !open.contains(s) by {
        if open.contains(s) {
            assert(region(frames[frames.len() - 1]).contains(s));
        }
    }
    assert forall|s: Seq<char>, i: int|
        0 <= i < rest.len() && #[trigger] region(rest[i]).contains(s) implies all.contains(s)
        && !emitted.contains(s) && !open.contains(s) by {
        assert(region(frames[i]).contains(s));
        if open.contains(s) {
            assert(region(frames[frames.len() - 1]).contains(s));
        }
    }
    assert forall|s: Seq<char>, i: int, j: int|
        0 <= i < j < rest.len() && #[trigger] region(rest[i]).contains(s) implies !(
    #[trigger] region(rest[j]).contains(s)) by {
        assert(region(frames[i]).contains(s));
        if region(rest[j]).contains(s) {
            assert(region(frames[j]).contains(s));
        }
    }
}

/// Listing a word of the open part takes it out of that part.
proof fn lemma_walk_emit(
    all: Set<Seq<char>>,
    emitted: Seq<Seq<char>>,
    frames: Seq<(Seq<char>, Node)>,
    open: Set<Seq<char>>,
    word: Seq<char>,
)
    requires
        walk_inv(all, emitted, frames, open),
        open.contains(word),
    ensures
        walk_inv(all, emitted.push(word), frames, open.remove(word)),
{
    let more = emitted.push(word);
    assert(more[emitted.len() as int] == word);
    assert forall|s: Seq<char>| more.contains(s) == (emitted.contains(s) || s == word) by {
        if emitted.contains(s) {
            let i = choose|i: int| 0 <= i < emitted.len() && emitted[i] == s;
            assert(more[i] == s);
        }
        if more.contains(s) {
            let i = choose|i: int| 0 <= i < more.len() && more[i] == s;
            if i < emitted.len() {
                assert(emitted[i] == s);
            }
        }
    }
    assert(more.no_duplicates()) by {
        assert forall|i: int, j: int| 0 <= i < more.len() && 0 <= j < more.len() && i
            != j implies more[i] != more[j] by {
            if i < emitted.len() {
                assert(emitted.contains(more[i]));
            }
            if j < emitted.len() {
                assert(emitted.contains(more[j]));
            }
        }
    }
}

/// Putting an entry on the work list whose region lies in the open part
/// takes that region out of the open part.
proof fn lemma_walk_push(
    all: Set<Seq<char>>,
    emitted: Seq<Seq<char>>,
    frames: Seq<(Seq<char>, Node)>,
    open: Set<Seq<char>>,
    frame: (Seq<char>, Node),
)
    requires
        walk_inv(all, emitted, frames, open),
        region(frame).subset_of(open),
    ensures
        walk_inv(all, emitted, frames.push(frame), open.difference(region(frame))),
{
    let more = frames.push(frame);
    let less = open.difference(region(frame));
    assert(more[frames.len() as int] == frame);
    assert forall|i: int| 0 <= i < frames.len() implies more[i] == frames[i] by {}
    assert forall|s: Seq<char>| #[trigger] all.contains(s) implies emitted.contains(s)
        || less.contains(s) || exists|i: int|
        0 <= i < more.len() && #[trigger] region(more[i]).contains(s) by {
        if !emitted.contains(s) && !less.contains(s) {
            if open.contains(s) {
                assert(region(more[frames.len() as int]).contains(s));
            } else {
                let i = choose|i: int|
                    0 <= i < frames.len() && #[trigger] region(frames[i]).contains(s);
                assert(region(more[i]).contains(s));
            }
        }
    }
    assert forall|s: Seq<char>, i: int|
        0 <= i < more.len() && #[trigger] region(more[i]).contains(s) implies all.contains(s)
        && !emitted.contains(s) && !less.contains(s) by {
        if i < frames.len() {
            assert(region(frames[i]).contains(s));
        } else {
            assert(open.contains(s));
        }
    }
    assert forall|s: Seq<char>, i: int, j: int|
        0 <= i < j < more.len() && #[trigger] region(more[i]).contains(s) implies !(
    #[trigger] region(more[j]).contains(s)) by {
        assert(region(frames[i]).contains(s));
        if region(more[j]).contains(s) {
            if j < frames.len() {
                assert(region(frames[j]).contains(s));
            } else {
                assert(open.contains(s));
            }
        }
    }
}

/// One more entry on the work list adds the size of its subtree to what is
/// pending.
proof fn lemma_pending_push(frames: Seq<(Seq<char>, Node)>, frame: (Seq<char>, Node))
    ensures
        pending(frames.push(frame)) == pending(frames) + frame.1.node_count(),
{
    assert(frames.push(frame).drop_last() =~= frames);
}

impl Node {
    /// Appends to `result` every word of this subtree, each with `prefix` in
    /// front, by working off a list of the subtrees that are still to be
    /// visited. What `result` held before stays in place; what is added holds
    /// each such word once.
    pub fn traverse_node_with_stack(&self, prefix: String, result: &mut Vec<String>)
        ensures
            old(result)@.is_prefix_of(final(result)@),
            texts(final(result)@.skip(old(result)@.len() as int)).no_duplicates(),
            texts(final(result)@.skip(old(result)@.len() as int)).to_set() == prefixed(
                prefix@,
                self@,
            ),
    {
        let ghost start = result@.len() as int;
        let ghost all = prefixed(prefix@, self@);
        let mut stack: Vec<(String, &Node)> = Vec::new();
        stack.push((prefix, self));
        proof {
            lemma_walk_start(*self, prefix@);
            assert(frames(stack@) =~= seq![(prefix@, *self)]);
            assert(texts(result@.skip(start)) =~= Seq::empty());
        }
        while stack.len() > 0
            invariant
                start == old(result)@.len(),
                old(result)@.is_prefix_of(result@),
                walk_inv(all, texts(result@.skip(start)), frames(stack@), Set::empty()),
            decreases pending(frames(stack@)),
        {
            let ghost listed = frames(stack@);
            let ghost held = result@;
            let (path, head) = stack.pop().unwrap();
            let ghost rest = frames(stack@);
            let ghost whole = prefixed(path@, head@);
            let ghost mut done = Set::<u32>::empty();
            proof {
                assert(rest =~= listed.drop_last());
                assert(listed.last() == (path@, *head));
                lemma_walk_pop(all, texts(held.skip(start)), listed);
                lemma_reached_start(*head, path@);
            }
            if head.is_terminal {
                result.push(path.clone());
                proof {
                    lemma_texts_push(held, start, path);
                    assert(seq![path@][0] == path@);
                    lemma_walk_emit(all, texts(held.skip(start)), rest, whole, path@);
                    assert(whole.remove(path@) =~= whole.difference(reached(*head, path@, done)));
                }
            } else {
                assert(whole =~= whole.difference(reached(*head, path@, done)));
            }
            let ghost items = spec_hash_map_iter(&head.children).remaining();
            let ghost mut visited = 0int;
            for entry in it: head.children.iter()
                invariant
                    it.seq() == items,
                    it.index() == visited,
                    items == spec_hash_map_iter(&head.children).remaining(),
                    items.no_duplicates(),
                    start == old(result)@.len(),
                    old(result)@.is_prefix_of(result@),
                    whole == prefixed(path@, head@),
                    walk_inv(
                        all,
                        texts(result@.skip(start)),
                        frames(stack@),
                        whole.difference(reached(*head, path@, done)),
                    ),
                    done.finite(),
                    pending(frames(stack@)) <= pending(rest) + head.branch_count(done),
                    forall|j: int| 0 <= j < visited ==> done.contains(*(#[trigger] items[j]).0),
                    forall|key: u32|
                        done.contains(key) ==> exists|j: int|
                            0 <= j < visited && *(#[trigger] items[j]).0 == key,
            {
                let (key, child) = entry;
                let ghost at = visited;
                assert(head.children@.contains_key(*key) && head.children@[*key] == *child);
                assert(!done.contains(*key)) by {
                    if done.contains(*key) {
                        let j = choose|j: int| 0 <= j < at && *(#[trigger] items[j]).0 == *key;
                        assert(items[j] == items[at]);
                    }
                }
                proof {
                    head.lemma_branch_count_insert(done, *key);
                }
                match char::from_u32(*key) {
                    Some(c) => {
                        let mut next = path.clone();
                        next.push(c);
                        let ghost before = frames(stack@);
                        let ghost open = whole.difference(reached(*head, path@, done));
                        stack.push((next, child));
                        proof {
                            let frame = (next@, *child);
                            assert(frames(stack@) =~= before.push(frame));
                            lemma_reached_insert(*head, path@, done, c);
                            lemma_walk_push(all, texts(result@.skip(start)), before, open, frame);
                            assert(open.difference(region(frame)) =~= whole.difference(
                                reached(*head, path@, done.insert(*key)),
                            ));
                            lemma_pending_push(before, frame);
                        }
                    },
                    None => {
                        proof {
                            lemma_reached_skips(*head, path@, done, *key);
                        }
                    },
                }
                proof {
                    done = done.insert(*key);
                    visited = visited + 1;
                }
            }
            proof {
                assert forall|key: u32| head.children@.contains_key(key) implies done.contains(
                    key,
                ) by {
                    let pair = (&key, &head.children@[key]);
                    assert(items.contains(pair));
                    let j = choose|j: int| 0 <= j < items.len() && items[j] == pair;
                    assert(*items[j].0 == key);
                }
                lemma_reached_all(*head, path@, done);
                assert(whole.difference(reached(*head, path@, done)) =~= Set::empty());
                assert(done =~= head.children@.dom());
                lemma_pending_push(rest, (path@, *head));
                assert(listed =~= rest.push((path@, *head)));
            }
        }
        assert(texts(result@.skip(start)).to_set() =~= all) by {
            let emitted = texts(result@.skip(start));
            assert forall|s: Seq<char>| all.contains(s) implies emitted.contains(s) by {
                assert(frames(stack@).len() == 0);
            }
        }
    }
}

impl Trie {
    /// Every stored word, once, in the order in which the walk with the work
    /// list comes upon them.
    pub fn traverse_with_stack(&self) -> (words: Vec<String>)
        ensures
            texts(words@).no_duplicates(),
            texts(words@).to_set() == self@,
    {
        let mut result = Vec::new();
        let prefix = String::new();
        self.root.traverse_node_with_stack(prefix, &mut result);
        proof {
            assert(result@.skip(0) =~= result@);
            lemma_completions_of_nothing(self.root@);
        }
        result
    }
}

} // verus!
