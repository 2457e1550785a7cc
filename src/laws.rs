//! Properties that relate several operations of the tree, or several calls.

use crate::order::{strictly_ascending, total_order};
use crate::tree::Tree;
use vstd::prelude::*;

verus! {

/// Keys inserted one after another into a new tree, in any order, are the
/// keys that `find` then reports: `true` for each of them and `false` for
/// every key never inserted.
pub proof fn lemma_inserted_keys_are_found<T: Ord>(keys: Seq<T>, k: T)
    requires
        total_order::<T>(),
    ensures
        Tree::<T>::empty().insert_all(keys)@.contains(k) <==> keys.contains(k),
{
    Tree::<T>::lemma_empty();
    Tree::<T>::empty().lemma_insert_all(keys);
}

/// Inserting a key a second time reports a duplicate and changes nothing:
/// once inserted the key is held, so each later `insert` of it returns
/// `false` and leaves the tree, and so every traversal, as it was.
pub proof fn lemma_insert_twice<T: Ord>(t: Tree<T>, key: T)
    requires
        total_order::<T>(),
        t.well_formed(),
    ensures
        t.inserted(key)@.contains(key),
        t.inserted(key).inserted(key) == t.inserted(key),
        t.inserted(key).inserted(key).preorder_seq() == t.inserted(key).preorder_seq(),
        t.inserted(key).inserted(key).inorder_seq() == t.inserted(key).inorder_seq(),
        t.inserted(key).inserted(key).postorder_seq() == t.inserted(key).postorder_seq(),
{
    t.lemma_inserted(key);
    t.inserted(key).lemma_inserted(key);
}

/// After any sequence of insertions into a new tree, the inorder sequence
/// ascends strictly and holds exactly the inserted keys: it is the set of
/// inserted keys, sorted, each once.
pub proof fn lemma_inorder_is_sorted_keys<T: Ord>(keys: Seq<T>)
    requires
        total_order::<T>(),
    ensures
        strictly_ascending(Tree::<T>::empty().insert_all(keys).inorder_seq()),
        Tree::<T>::empty().insert_all(keys).inorder_seq().to_set() == keys.to_set(),
{
    Tree::<T>::lemma_empty();
    let t = Tree::<T>::empty().insert_all(keys);
    Tree::<T>::empty().lemma_insert_all(keys);
    assert(Set::<T>::empty() + keys.to_set() =~= keys.to_set());
    t.lemma_inorder_ascending();
    t.lemma_traversal_contents();
}

/// After any sequence of insertions into a new tree, the three traversals
/// are all as long as the number of distinct keys inserted.
pub proof fn lemma_traversal_lengths<T: Ord>(keys: Seq<T>)
    requires
        total_order::<T>(),
    ensures
        Tree::<T>::empty().insert_all(keys).preorder_seq().len() == keys.to_set().len(),
        Tree::<T>::empty().insert_all(keys).inorder_seq().len() == keys.to_set().len(),
        Tree::<T>::empty().insert_all(keys).postorder_seq().len() == keys.to_set().len(),
{
    Tree::<T>::lemma_empty();
    let t = Tree::<T>::empty().insert_all(keys);
    Tree::<T>::empty().lemma_insert_all(keys);
    assert(Set::<T>::empty() + keys.to_set() =~= keys.to_set());
    t.lemma_traversal_lengths();
}

/// The three traversals of any tree hold the same values, each as often as
/// the others; only their order differs.
pub proof fn lemma_traversal_multisets<T: Ord>(t: Tree<T>)
    ensures
        t.preorder_seq().to_multiset() == t.inorder_seq().to_multiset(),
        t.postorder_seq().to_multiset() == t.inorder_seq().to_multiset(),
{
    t.lemma_traversal_contents();
}

/// A traversal depends on the tree alone: two calls of `inorder` on an
/// unchanged tree return equal sequences.
pub proof fn lemma_inorder_repeatable<T: Ord>(t: Tree<T>, first: Seq<&T>, second: Seq<&T>)
    requires
        first == t.inorder_seq().as_ref(),
        second == t.inorder_seq().as_ref(),
    ensures
        first == second,
{
}

} // verus!
