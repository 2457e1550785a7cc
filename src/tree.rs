//! The tree itself: its model, its invariant and its operations.

use crate::order::{lemma_total_order, less, strictly_ascending, total_order};
use vstd::prelude::*;

verus! {

/// A binary search tree node. The root of a tree that has received no key
/// holds no value and no children; every other node holds a value.
pub struct Tree<T> {
    value: Option<T>,
    left_child: Option<Box<Tree<T>>>,
    right_child: Option<Box<Tree<T>>>,
}

impl<T: Ord> Tree<T> {
    /// The tree that has received no key.
    pub closed spec fn empty() -> Tree<T> {
        Tree { value: None, left_child: None, right_child: None }
    }

    /// The tree that holds `key` alone.
    pub closed spec fn leaf(key: T) -> Tree<T> {
        Tree { value: Some(key), left_child: None, right_child: None }
    }

    /// The keys held in an optional subtree.
    spec fn child_keys(child: Option<Box<Tree<T>>>) -> Set<T>
        decreases child,
    {
        match child {
            Some(node) => node.keys(),
            None => Set::empty(),
        }
    }

    /// The set of keys held in the tree.
    pub closed spec fn keys(self) -> Set<T>
        decreases self,
    {
        match self.value {
            Some(v) => Self::child_keys(self.left_child).union(
                Self::child_keys(self.right_child),
            ).insert(v),
            None => Set::empty(),
        }
    }

    /// An optional subtree is absent, or is a well-formed node that holds a value.
    pub(crate) closed spec fn child_well_formed(child: Option<Box<Tree<T>>>) -> bool
        decreases child,
    {
        match child {
            Some(node) => node.value is Some && node.well_formed(),
            None => true,
        }
    }

    /// The search-tree invariant: an empty root has no children, and below
    /// each value the left subtree holds only smaller keys and the right
    /// subtree only greater ones.
    pub closed spec fn well_formed(self) -> bool
        decreases self,
    {
        match self.value {
            None => self.left_child is None && self.right_child is None,
            Some(v) => {
                &&& Self::child_well_formed(self.left_child)
                &&& Self::child_well_formed(self.right_child)
                &&& forall|x: T| #[trigger]
                    Self::child_keys(self.left_child).contains(x) ==> less(x, v)
                &&& forall|x: T| #[trigger]
                    Self::child_keys(self.right_child).contains(x) ==> less(v, x)
            },
        }
    }

    /// The optional subtree `child` after `key` is inserted into it: a
    /// missing child becomes a leaf that holds `key`.
    spec fn child_inserted(child: Option<Box<Tree<T>>>, key: T) -> Tree<T>
        decreases child,
    {
        match child {
            Some(node) => node.inserted(key),
            None => Self::leaf(key),
        }
    }

    /// The tree after `key` is inserted. An empty root takes the key; a node
    /// that holds the key stays as it is; otherwise the key goes down the
    /// left side when smaller and the right side when greater, where it
    /// ends as a new leaf. No existing node is moved.
    pub closed spec fn inserted(self, key: T) -> Tree<T>
        decreases self,
    {
        match self.value {
            None => Tree {
                value: Some(key),
                left_child: self.left_child,
                right_child: self.right_child,
            },
            Some(v) => if key == v {
                self
            } else if less(key, v) {
                Tree {
                    value: self.value,
                    left_child: Some(Box::new(Self::child_inserted(self.left_child, key))),
                    right_child: self.right_child,
                }
            } else {
                Tree {
                    value: self.value,
                    left_child: self.left_child,
                    right_child: Some(Box::new(Self::child_inserted(self.right_child, key))),
                }
            },
        }
    }

    proof fn lemma_child_inserted(child: Option<Box<Tree<T>>>, key: T)
        requires
            total_order::<T>(),
            Self::child_well_formed(child),
        ensures
            Self::child_well_formed(Some(Box::new(Self::child_inserted(child, key)))),
            Self::child_keys(Some(Box::new(Self::child_inserted(child, key)))) == Self::child_keys(
                child,
            ).insert(key),
            Self::child_keys(child).contains(key) ==> Some(
                Box::new(Self::child_inserted(child, key)),
            ) == child,
        decreases child,
    {
        match child {
            Some(node) => node.lemma_inserted(key),
            None => {
                let leaf = Self::child_inserted(child, key);
                assert(leaf@ =~= Set::<T>::empty().insert(key));
            },
        }
    }

    /// Inserting keeps the invariant and adds `key` to the keys; a tree that
    /// already holds `key` is left as it is.
    pub(crate) proof fn lemma_inserted(self, key: T)
        requires
            total_order::<T>(),
            self.well_formed(),
        ensures
            self.inserted(key).well_formed(),
            Self::child_well_formed(Some(Box::new(self.inserted(key)))),
            self.inserted(key)@ == self@.insert(key),
            self@.contains(key) ==> self.inserted(key) == self,
        decreases self,
    {
        lemma_total_order::<T>();
        let t = self.inserted(key);
        match self.value {
            None => {
                assert(t@ =~= self@.insert(key));
            },
            Some(v) => {
                if key == v {
                    assert(t@ =~= self@.insert(key));
                } else if less(key, v) {
                    Self::lemma_child_inserted(self.left_child, key);
                    assert(t@ =~= self@.insert(key));
                    assert(!Self::child_keys(self.right_child).contains(key));
                } else {
                    assert(less(v, key));
                    Self::lemma_child_inserted(self.right_child, key);
                    assert(t@ =~= self@.insert(key));
                    assert(!Self::child_keys(self.left_child).contains(key));
                }
            },
        }
    }

    /// The preorder sequence of an optional subtree.
    spec fn child_preorder(child: Option<Box<Tree<T>>>) -> Seq<T>
        decreases child,
    {
        match child {
            Some(node) => node.preorder_seq(),
            None => Seq::empty(),
        }
    }

    /// Each value before the values of its left subtree, and those before
    /// the values of its right subtree.
    pub closed spec fn preorder_seq(self) -> Seq<T>
        decreases self,
    {
        match self.value {
            Some(v) => seq![v] + Self::child_preorder(self.left_child) + Self::child_preorder(
                self.right_child,
            ),
            None => Seq::empty(),
        }
    }

    /// The inorder sequence of an optional subtree.
    spec fn child_inorder(child: Option<Box<Tree<T>>>) -> Seq<T>
        decreases child,
    {
        match child {
            Some(node) => node.inorder_seq(),
            None => Seq::empty(),
        }
    }

    /// Each value after the values of its left subtree and before those of
    /// its right subtree.
    pub closed spec fn inorder_seq(self) -> Seq<T>
        decreases self,
    {
        match self.value {
            Some(v) => Self::child_inorder(self.left_child) + seq![v] + Self::child_inorder(
                self.right_child,
            ),
            None => Seq::empty(),
        }
    }

    /// The postorder sequence of an optional subtree.
    spec fn child_postorder(child: Option<Box<Tree<T>>>) -> Seq<T>
        decreases child,
    {
        match child {
            Some(node) => node.postorder_seq(),
            None => Seq::empty(),
        }
    }

    /// Each value after the values of its left subtree and then those of its
    /// right subtree.
    pub closed spec fn postorder_seq(self) -> Seq<T>
        decreases self,
    {
        match self.value {
            Some(v) => Self::child_postorder(self.left_child) + Self::child_postorder(
                self.right_child,
            ) + seq![v],
            None => Seq::empty(),
        }
    }

    /// The tree after each key of `keys` is inserted, first to last.
    pub open spec fn insert_all(self, keys: Seq<T>) -> Tree<T>
        decreases keys.len(),
    {
        if keys.len() == 0 {
            self
        } else {
            self.inserted(keys[0]).insert_all(keys.drop_first())
        }
    }

    /// Inserting keys one after another keeps the invariant and adds exactly
    /// those keys.
    pub(crate) proof fn lemma_insert_all(self, keys: Seq<T>)
        requires
            total_order::<T>(),
            self.well_formed(),
        ensures
            self.insert_all(keys).well_formed(),
            self.insert_all(keys)@ == self@ + keys.to_set(),
        decreases keys.len(),
    {
        if keys.len() == 0 {
            assert(self@ + keys.to_set() =~= self@);
        } else {
            self.lemma_inserted(keys[0]);
            let rest = keys.drop_first();
            self.inserted(keys[0]).lemma_insert_all(rest);
            assert(keys =~= seq![keys[0]] + rest);
            assert forall|x: T| keys.contains(x) <==> (x == keys[0] || rest.contains(x)) by {
                if rest.contains(x) {
                    let i = choose|i: int| 0 <= i < rest.len() && rest[i] == x;
                    assert(keys[i + 1] == x);
                }
                if keys.contains(x) && x != keys[0] {
                    let i = choose|i: int| 0 <= i < keys.len() && keys[i] == x;
                    assert(rest[i - 1] == x);
                }
            }
            assert(self.insert_all(keys)@ =~= self@ + keys.to_set());
        }
    }

    /// An optional subtree's inorder sequence holds exactly its keys, and
    /// its three traversals hold the same values equally often.
    proof fn lemma_child_traversal_contents(child: Option<Box<Tree<T>>>)
        ensures
            Self::child_preorder(child).to_multiset() == Self::child_inorder(child).to_multiset(),
            Self::child_postorder(child).to_multiset() == Self::child_inorder(child).to_multiset(),
            Self::child_inorder(child).to_set() == Self::child_keys(child),
        decreases child,
    {
        match child {
            Some(node) => node.lemma_traversal_contents(),
            None => {
                assert(Self::child_inorder(child).to_set() =~= Self::child_keys(child));
            },
        }
    }

    /// The inorder sequence holds exactly the tree's keys, and the three
    /// traversals hold the same values equally often.
    pub(crate) proof fn lemma_traversal_contents(self)
        ensures
            self.preorder_seq().to_multiset() == self.inorder_seq().to_multiset(),
            self.postorder_seq().to_multiset() == self.inorder_seq().to_multiset(),
            self.inorder_seq().to_set() == self@,
        decreases self,
    {
        broadcast use vstd::seq_lib::lemma_multiset_commutative;
        broadcast use vstd::seq_lib::group_to_multiset_ensures;
        broadcast use vstd::seq_lib::group_seq_properties;

        match self.value {
            None => {
                assert(self.inorder_seq().to_set() =~= self@);
            },
            Some(v) => {
                Self::lemma_child_traversal_contents(self.left_child);
                Self::lemma_child_traversal_contents(self.right_child);
                let lp = Self::child_preorder(self.left_child);
                let li = Self::child_inorder(self.left_child);
                let lq = Self::child_postorder(self.left_child);
                let rp = Self::child_preorder(self.right_child);
                let ri = Self::child_inorder(self.right_child);
                let rq = Self::child_postorder(self.right_child);
                let sv = seq![v];
                assert(self.preorder_seq().to_multiset() =~= sv.to_multiset().add(
                    lp.to_multiset(),
                ).add(rp.to_multiset()));
                assert(self.inorder_seq().to_multiset() =~= li.to_multiset().add(
                    sv.to_multiset(),
                ).add(ri.to_multiset()));
                assert(self.postorder_seq().to_multiset() =~= lq.to_multiset().add(
                    rq.to_multiset(),
                ).add(sv.to_multiset()));
                assert(self.preorder_seq().to_multiset() =~= self.inorder_seq().to_multiset());
                assert(self.postorder_seq().to_multiset() =~= self.inorder_seq().to_multiset());
                assert forall|x: T| #[trigger]
                    self.inorder_seq().contains(x) <==> (li.contains(x) || x == v || ri.contains(
                        x,
                    )) by {
                    assert(self.inorder_seq() == li + sv + ri);
                    assert((li + sv).contains(x) <==> (li.contains(x) || sv.contains(x)));
                    assert(sv.contains(x) <==> x == v) by {
                        if x == v {
                            assert(sv[0] == x);
                        }
                    }
                }
                assert(li.to_set().contains(v) == li.contains(v));
                assert(self.inorder_seq().to_set() =~= self@);
            },
        }
    }

    proof fn lemma_child_ascending(child: Option<Box<Tree<T>>>)
        requires
            total_order::<T>(),
            Self::child_well_formed(child),
        ensures
            strictly_ascending(Self::child_inorder(child)),
        decreases child,
    {
        match child {
            Some(node) => node.lemma_inorder_ascending(),
            None => {},
        }
    }

    /// With a total order, the inorder sequence of a well-formed tree
    /// ascends strictly.
    pub(crate) proof fn lemma_inorder_ascending(self)
        requires
            total_order::<T>(),
            self.well_formed(),
        ensures
            strictly_ascending(self.inorder_seq()),
        decreases self,
    {
        lemma_total_order::<T>();
        match self.value {
            None => {},
            Some(v) => {
                Self::lemma_child_ascending(self.left_child);
                Self::lemma_child_ascending(self.right_child);
                Self::lemma_child_traversal_contents(self.left_child);
                Self::lemma_child_traversal_contents(self.right_child);
                let li = Self::child_inorder(self.left_child);
                let ri = Self::child_inorder(self.right_child);
                let s = self.inorder_seq();
                assert(s == li + seq![v] + ri);
                assert forall|i: int| 0 <= i < li.len() implies less(#[trigger] li[i], v) by {
                    assert(li.to_set().contains(li[i]));
                }
                assert forall|i: int| 0 <= i < ri.len() implies less(v, #[trigger] ri[i]) by {
                    assert(ri.to_set().contains(ri[i]));
                }
                assert forall|i: int, j: int| 0 <= i < j < s.len() implies less(
                    #[trigger] s[i],
                    #[trigger] s[j],
                ) by {
                    let n = li.len() as int;
                    if j < n {
                        assert(s[i] == li[i] && s[j] == li[j]);
                    } else if j == n {
                        assert(s[i] == li[i]);
                    } else if i > n {
                        assert(s[i] == ri[i - n - 1] && s[j] == ri[j - n - 1]);
                    } else if i == n {
                        assert(s[j] == ri[j - n - 1]);
                    } else {
                        assert(s[i] == li[i] && s[j] == ri[j - n - 1]);
                        assert(less(li[i], v) && less(v, ri[j - n - 1]));
                    }
                }
            },
        }
    }

    /// With a total order, each traversal of a well-formed tree is as long
    /// as the number of its keys.
    pub(crate) proof fn lemma_traversal_lengths(self)
        requires
            total_order::<T>(),
            self.well_formed(),
        ensures
            self.preorder_seq().len() == self@.len(),
            self.inorder_seq().len() == self@.len(),
            self.postorder_seq().len() == self@.len(),
    {
        broadcast use vstd::seq_lib::group_to_multiset_ensures;

        lemma_total_order::<T>();
        self.lemma_traversal_contents();
        self.lemma_inorder_ascending();
        let s = self.inorder_seq();
        assert(s.no_duplicates()) by {
            assert forall|i: int, j: int| 0 <= i < s.len() && 0 <= j < s.len() && i != j implies s[i]
                != s[j] by {
                if i < j {
                    assert(less(s[i], s[j]));
                } else {
                    assert(less(s[j], s[i]));
                }
            }
        }
        s.unique_seq_to_set();
        assert(self.preorder_seq().len() == self.preorder_seq().to_multiset().len());
        assert(self.postorder_seq().len() == self.postorder_seq().to_multiset().len());
        assert(s.len() == s.to_multiset().len());
    }

    /// The tree that has received no key is well-formed and holds no key.
    pub(crate) proof fn lemma_empty()
        ensures
            Self::empty().well_formed(),
            Self::empty()@ == Set::<T>::empty(),
    {
        assert(Self::empty()@ =~= Set::<T>::empty());
    }
}

impl<T: Ord> View for Tree<T> {
    type V = Set<T>;

    closed spec fn view(&self) -> Set<T> {
        self.keys()
    }
}

impl<T: Ord> Tree<T> {
    /// Creates an empty tree.
    pub fn new() -> (r: Self)
        ensures
            r == Self::empty(),
            r.well_formed(),
            r@ == Set::<T>::empty(),
    {
        Tree { value: None, left_child: None, right_child: None }
    }

    /// Creates a tree that holds `key` alone.
    pub fn new_with_value(key: T) -> (r: Self)
        ensures
            r == Self::leaf(key),
            r.well_formed(),
            r@ == Set::<T>::empty().insert(key),
    {
        let r = Tree { value: Some(key), left_child: None, right_child: None };
        proof {
            assert(r@ =~= Set::<T>::empty().insert(key));
        }
        r
    }

    /// Inserts `key` if the tree does not hold it yet. Returns `false` if
    /// `key` already exists in the tree, and `true` otherwise.
    pub fn insert(&mut self, key: T) -> (r: bool)
        requires
            total_order::<T>(),
            old(self).well_formed(),
        ensures
            final(self).well_formed(),
            *final(self) == old(self).inserted(key),
            final(self)@ == old(self)@.insert(key),
            r == !old(self)@.contains(key),
            !r ==> *final(self) == *old(self),
        decreases *old(self),
    {
        proof {
            lemma_total_order::<T>();
            old(self).lemma_inserted(key);
        }
        match self.value {
            None => {
                self.value = Some(key);
                true
            },
            Some(ref curr_value) => {
                if key == *curr_value {
                    false
                } else if key < *curr_value {
                    assert(!Self::child_keys(self.right_child).contains(key));
                    match self.left_child {
                        Some(ref mut left_node) => left_node.insert(key),
                        None => {
                            self.left_child = Some(Box::new(Tree::new_with_value(key)));
                            true
                        },
                    }
                } else {
                    assert(less(*curr_value, key));
                    assert(!Self::child_keys(self.left_child).contains(key));
                    match self.right_child {
                        Some(ref mut right_node) => right_node.insert(key),
                        None => {
                            self.right_child = Some(Box::new(Tree::new_with_value(key)));
                            true
                        },
                    }
                }
            },
        }
    }

    /// Returns `true` if `key` exists in the tree, and `false` otherwise.
    pub fn find(&self, key: &T) -> (r: bool)
        requires
            total_order::<T>(),
            self.well_formed(),
        ensures
            r == self@.contains(*key),
        decreases self,
    {
        proof {
            lemma_total_order::<T>();
        }
        match self.value {
            None => {
                assert(self@ == Set::<T>::empty());
                false
            },
            Some(ref curr_value) => {
                if *key == *curr_value {
                    true
                } else if *key < *curr_value {
                    assert(!Self::child_keys(self.right_child).contains(*key));
                    match self.left_child {
                        Some(ref left_node) => left_node.find(key),
                        None => false,
                    }
                } else {
                    assert(less(*curr_value, *key));
                    assert(!Self::child_keys(self.left_child).contains(*key));
                    match self.right_child {
                        Some(ref right_node) => right_node.find(key),
                        None => false,
                    }
                }
            },
        }
    }

    /// Returns the preorder traversal of the tree.
    pub fn preorder(&self) -> (r: Vec<&T>)
        ensures
            r@ == self.preorder_seq().as_ref(),
            total_order::<T>() && self.well_formed() ==> r@.len() == self@.len(),
        decreases self,
    {
        proof {
            if total_order::<T>() && self.well_formed() {
                self.lemma_traversal_lengths();
            }
        }
        match self.value {
            None => Vec::new(),
            Some(ref curr_value) => {
                let mut return_vec: Vec<&T> = Vec::new();
                return_vec.push(curr_value);
                match self.left_child {
                    Some(ref left_node) => {
                        let mut left_child_vec = left_node.preorder();
                        return_vec.append(&mut left_child_vec);
                    },
                    None => {},
                }
                match self.right_child {
                    Some(ref right_node) => {
                        let mut right_child_vec = right_node.preorder();
                        return_vec.append(&mut right_child_vec);
                    },
                    None => {},
                }
                assert(return_vec@ =~= self.preorder_seq().as_ref());
                return_vec
            },
        }
    }

    /// Returns the inorder traversal of the tree.
    pub fn inorder(&self) -> (r: Vec<&T>)
        ensures
            r@ == self.inorder_seq().as_ref(),
            total_order::<T>() && self.well_formed() ==> r@.len() == self@.len(),
            total_order::<T>() && self.well_formed() ==> strictly_ascending(self.inorder_seq())
                && self.inorder_seq().to_set() == self@,
        decreases self,
    {
        proof {
            if total_order::<T>() && self.well_formed() {
                self.lemma_traversal_lengths();
                self.lemma_inorder_ascending();
                self.lemma_traversal_contents();
            }
        }
        match self.value {
            None => Vec::new(),
            Some(ref curr_value) => {
                let mut return_vec: Vec<&T> = Vec::new();
                match self.left_child {
                    Some(ref left_node) => {
                        let mut left_child_vec = left_node.inorder();
                        return_vec.append(&mut left_child_vec);
                    },
                    None => {},
                }
                return_vec.push(curr_value);
                match self.right_child {
                    Some(ref right_node) => {
                        let mut right_child_vec = right_node.inorder();
                        return_vec.append(&mut right_child_vec);
                    },
                    None => {},
                }
                assert(return_vec@ =~= self.inorder_seq().as_ref());
                return_vec
            },
        }
    }

    /// Returns the postorder traversal of the tree.
    pub fn postorder(&self) -> (r: Vec<&T>)
        ensures
            r@ == self.postorder_seq().as_ref(),
            total_order::<T>() && self.well_formed() ==> r@.len() == self@.len(),
        decreases self,
    {
        proof {
            if total_order::<T>() && self.well_formed() {
                self.lemma_traversal_lengths();
            }
        }
        match self.value {
            None => Vec::new(),
            Some(ref curr_value) => {
                let mut return_vec: Vec<&T> = Vec::new();
                match self.left_child {
                    Some(ref left_node) => {
                        let mut left_child_vec = left_node.postorder();
                        return_vec.append(&mut left_child_vec);
                    },
                    None => {},
                }
                match self.right_child {
                    Some(ref right_node) => {
                        let mut right_child_vec = right_node.postorder();
                        return_vec.append(&mut right_child_vec);
                    },
                    None => {},
                }
                return_vec.push(curr_value);
                assert(return_vec@ =~= self.postorder_seq().as_ref());
                return_vec
            },
        }
    }
}

} // verus!
