//! What holds of the operations taken together, stated over the set of
//! words that a tree holds.

use crate::{completions, leaves_nothing, texts, Trie};
use vstd::prelude::*;

verus! {

/// One change to the stored words.
pub enum Edit {
    Insert(Seq<char>),
    Delete(Seq<char>),
}

/// The words that are stored once `edits` have been applied, in order, to a
/// tree that held nothing.
pub open spec fn replay(edits: Seq<Edit>) -> Set<Seq<char>>
    decreases edits.len(),
{
    if edits.len() == 0 {
        Set::empty()
    } else {
        match edits.last() {
            Edit::Insert(word) => replay(edits.drop_last()).insert(word),
            Edit::Delete(word) => replay(edits.drop_last()).remove(word),
        }
    }
}

/// `word` was inserted at some point of `edits` and not deleted after that.
pub open spec fn live_in(edits: Seq<Edit>, word: Seq<char>) -> bool {
    exists|i: int|
        0 <= i < edits.len() && edits[i] == Edit::Insert(word) && forall|j: int|
            i < j < edits.len() ==> edits[j] != Edit::Delete(word)
}

/// A tree that holds nothing stands at the start of every run of edits, and
/// each insertion and each deletion moves the stored words as the next edit
/// of the run does.
pub proof fn law_replay_follows_the_tree(
    edits: Seq<Edit>,
    before: Trie,
    after: Trie,
    word: Seq<char>,
)
    requires
        before@ == replay(edits),
    ensures
        replay(Seq::empty()) == Set::<Seq<char>>::empty(),
        after@ == before@.insert(word) ==> after@ == replay(edits.push(Edit::Insert(word))),
        after@ == before@.remove(word) ==> after@ == replay(edits.push(Edit::Delete(word))),
{
    assert(edits.push(Edit::Insert(word)).drop_last() =~= edits);
    assert(edits.push(Edit::Delete(word)).drop_last() =~= edits);
}

/// A word that has been inserted is found: whatever the tree held before,
/// the tree that `insert` leaves holds the word, so `search` answers true.
pub proof fn law_inserted_word_is_found(before: Trie, after: Trie, word: Seq<char>)
    requires
        after@ == before@.insert(word),
    ensures
        after@.contains(word),
{
}

/// A word that was never inserted is not found, whatever else was inserted
/// and deleted, words that it begins among them.
pub proof fn law_word_never_inserted_is_absent(edits: Seq<Edit>, word: Seq<char>)
    requires
        forall|i: int| 0 <= i < edits.len() ==> edits[i] != Edit::Insert(word),
    ensures
        !replay(edits).contains(word),
    decreases edits.len(),
{
    if edits.len() > 0 {
        let earlier = edits.drop_last();
        assert forall|i: int| 0 <= i < earlier.len() implies earlier[i] != Edit::Insert(word) by {
            assert(earlier[i] == edits[i]);
        }
        law_word_never_inserted_is_absent(earlier, word);
        assert(edits.last() == edits[edits.len() - 1]);
    }
}

/// Inserting a word a second time changes nothing: the stored words are the
/// same, and a listing, which holds each stored word once, has the same
/// entries.
pub proof fn law_insert_is_idempotent(before: Trie, once: Trie, twice: Trie, word: Seq<char>)
    requires
        once@ == before@.insert(word),
        twice@ == once@.insert(word),
    ensures
        twice@ == once@,
{
    assert(twice@ =~= once@);
}

/// Deleting a word leaves every other word in place, the words that the
/// deleted one begins among them, and takes the word itself away.
pub proof fn law_delete_keeps_other_words(before: Trie, after: Trie, word: Seq<char>)
    requires
        after@ == before@.remove(word),
    ensures
        !after@.contains(word),
        forall|other: Seq<char>|
            other != word ==> after@.contains(other) == before@.contains(other),
{
}

/// Deleting the only word of a tree leaves a tree that holds nothing, and
/// the removal says so.
pub proof fn law_delete_of_only_word_empties(before: Trie, after: Trie, word: Seq<char>)
    requires
        before@ == Set::<Seq<char>>::empty().insert(word),
        after@ == before@.remove(word),
    ensures
        after@ == Set::<Seq<char>>::empty(),
        leaves_nothing(before@, word),
{
    assert(after@ =~= Set::<Seq<char>>::empty());
}

/// Deleting a word that is not stored changes nothing and gives no removal
/// signal. Left out is the one case in which the signal is given all the
/// same: the empty word, asked of a tree that holds nothing.
pub proof fn law_delete_of_absent_word(before: Trie, after: Trie, word: Seq<char>)
    requires
        !before@.contains(word),
        word.len() > 0 || !before@.is_empty(),
        after@ == before@.remove(word),
    ensures
        after@ == before@,
        !leaves_nothing(before@, word),
{
    assert(after@ =~= before@);
}

/// After any run of insertions and deletions the stored words are those
/// that were inserted and not deleted since.
pub proof fn law_stored_words_are_the_live_ones(edits: Seq<Edit>, word: Seq<char>)
    ensures
        replay(edits).contains(word) <==> live_in(edits, word),
    decreases edits.len(),
{
    if edits.len() > 0 {
        let earlier = edits.drop_last();
        let last = edits.len() - 1;
        law_stored_words_are_the_live_ones(earlier, word);
        assert(edits.last() == edits[last]);
        assert forall|i: int| 0 <= i < earlier.len() implies earlier[i] == edits[i] by {}
        if edits[last] == Edit::Insert(word) {
            assert(live_in(edits, word));
        } else if edits[last] == Edit::Delete(word) {
            assert(!live_in(edits, word));
        } else {
            if live_in(earlier, word) {
                let i = choose|i: int|
                    0 <= i < earlier.len() && earlier[i] == Edit::Insert(word) && forall|j: int|
                        i < j < earlier.len() ==> earlier[j] != Edit::Delete(word);
                assert(edits[i] == Edit::Insert(word));
                assert forall|j: int| i < j < edits.len() implies edits[j] != Edit::Delete(
                    word,
                ) by {
                    if j < last {
                        assert(earlier[j] == edits[j]);
                    }
                }
                assert(live_in(edits, word));
            }
            if live_in(edits, word) {
                let i = choose|i: int|
                    0 <= i < edits.len() && edits[i] == Edit::Insert(word) && forall|j: int|
                        i < j < edits.len() ==> edits[j] != Edit::Delete(word);
                assert(earlier[i] == Edit::Insert(word));
                assert forall|j: int| i < j < earlier.len() implies earlier[j] != Edit::Delete(
                    word,
                ) by {
                    assert(earlier[j] == edits[j]);
                }
                assert(live_in(earlier, word));
            }
        }
    }
}

/// Two listings of one tree, by whichever of the two walks, hold the same
/// words and have the same number of entries.
pub proof fn law_listings_agree(trie: Trie, first: Seq<String>, second: Seq<String>)
    requires
        texts(first).no_duplicates(),
        texts(first).to_set() == trie@,
        texts(second).no_duplicates(),
        texts(second).to_set() == trie@,
    ensures
        texts(first).to_set() == texts(second).to_set(),
        first.len() == second.len(),
{
    texts(first).unique_seq_to_set();
    texts(second).unique_seq_to_set();
}

/// The completions of the empty prefix are all stored words: a listing is
/// the completion of nothing.
pub proof fn law_completions_of_empty_prefix(trie: Trie)
    ensures
        completions(Seq::empty(), trie@) == trie@,
{
    crate::lemmas::lemma_completions_of_nothing(trie@);
}

} // verus!
