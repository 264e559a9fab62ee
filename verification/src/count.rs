//! The size of a subtree, counted in nodes: the measure by which a walk over
//! the tree is seen to end.

use crate::Node;
use vstd::prelude::*;

verus! {

broadcast use vstd::std_specs::hash::group_hash_axioms;

impl Node {
    /// The number of nodes of the subtree, this node included.
    pub(crate) open spec fn node_count(self) -> nat
        decreases self, 1nat, 0nat,
    {
        1 + self.branch_count(self.children@.dom())
    }

    /// The number of nodes in the subtree of the branch under `key`; nothing
    /// where there is no such branch.
    pub(crate) open spec fn weight(self, key: u32) -> nat
        decreases self, 0nat, 0nat,
    {
        if self.children@.contains_key(key) {
            self.children@[key].node_count()
        } else {
            0
        }
    }

    /// The number of nodes in the subtrees of the branches under `keys`.
    pub(crate) open spec fn branch_count(self, keys: Set<u32>) -> nat
        decreases self, 0nat, keys.len(),
    {
        if keys.finite() && keys.len() > 0 {
            let key = keys.choose();
            self.weight(key) + self.branch_count(keys.remove(key))
        } else {
            0
        }
    }

    /// Counting the branches under a set of keys does not depend on the
    /// order in which the keys are taken: one more key adds its own weight.
    pub(crate) proof fn lemma_branch_count_insert(self, keys: Set<u32>, key: u32)
        requires
            keys.finite(),
            !keys.contains(key),
        ensures
            self.branch_count(keys.insert(key)) == self.branch_count(keys) + self.weight(key),
        decreases keys.len(),
    {
        let more = keys.insert(key);
        let first = more.choose();
        assert(more.len() == keys.len() + 1);
        assert(more.contains(first));
        if first == key {
            assert(more.remove(first) =~= keys);
        } else {
            let fewer = keys.remove(first);
            assert(more.remove(first) =~= fewer.insert(key));
            self.lemma_branch_count_insert(fewer, key);
            assert(fewer.insert(first) =~= keys);
            self.lemma_branch_count_insert(fewer, first);
        }
    }
}

} // verus!
