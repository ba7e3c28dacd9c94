//! The tree: a root node and the branching parameter, with the operations
//! that callers use.

use vstd::prelude::*;
use crate::laws::{lemma_delete_keeps_others, lemma_insert_one};
use crate::node::Node;
use crate::order::total_order;
use crate::sorted::{
    first_at, insert_sorted, lemma_inserted_sorted, lemma_remove_sorted,
    lemma_remove_sorted_takes, remove_sorted, sorted,
};

verus! {

/// A B-tree of keys of type `T` with branching parameter `t`: every node
/// but the root holds between `t - 1` and `2t - 1` keys, and all leaves lie
/// at the same depth. Equal keys may be stored more than once.
pub struct BTree<T: PartialOrd + Copy> {
    pub root: Box<Node<T>>,
    pub t: usize,
}

impl<T: PartialOrd + Copy> View for BTree<T> {
    type V = Seq<T>;

    /// The keys of the tree in order.
    open spec fn view(&self) -> Seq<T> {
        self.root.seq()
    }
}

impl<T: PartialOrd + Copy> BTree<T> {
    /// The invariant of the tree: the key type is totally ordered, the root
    /// has the shape of a subtree for `t`, a root that is not a leaf holds a
    /// key, and the keys in order are sorted.
    pub open spec fn wf(self) -> bool {
        &&& total_order::<T>()
        &&& self.root.shape(self.t)
        &&& !self.root.leaf ==> self.root.keys.len() >= 1
        &&& sorted(self@)
    }

    /// An empty tree with branching parameter `t`.
    pub fn new(t: usize) -> (r: BTree<T>)
        requires
            total_order::<T>(),
            2 <= t,
            2 * t <= usize::MAX,
        ensures
            r.wf(),
            r.t == t,
            r.root.leaf,
            r@ == Seq::<T>::empty(),
    {
        let tree = BTree { root: Box::new(Node::<T>::leaf(t)), t };
        tree
    }

    /// Puts `value` into the tree. A key that is already there is stored
    /// once more. A full root is split first, under a new root: the tree
    /// grows by one level.
    pub fn insert(&mut self, value: T)
        requires
            old(self).wf(),
        ensures
            final(self).wf(),
            final(self).t == old(self).t,
            final(self)@ == insert_sorted(old(self)@, value),
            final(self)@.len() == old(self)@.len() + 1,
            final(self)@.contains(value),
            forall|w: T| old(self)@.contains(w) ==> #[trigger] final(self)@.contains(w),
            final(self).root.height() == old(self).root.height() + (if old(self).root.keys.len()
                == 2 * old(self).t - 1 {
                1nat
            } else {
                0nat
            }),
    {
        proof {
            lemma_insert_one(old(self)@, value);
        }
        if self.root.count != 2 * self.t - 1 {
            self.root.insert_nonfull(value);
            proof {
                lemma_inserted_sorted(old(self)@, self@, value);
            }
            return;
        }
        let mut full = Box::new(Node::<T>::empty(self.t));
        core::mem::swap(&mut self.root, &mut full);
        self.root.children.push(full);
        proof {
            assert(self.root.kids() =~= seq![old(self)@]);
        }
        self.root.split(0);
        self.root.insert_nonfull(value);
        proof {
            lemma_inserted_sorted(old(self)@, self@, value);
        }
    }

    /// The keys of the tree in ascending order.
    pub fn to_vec(&self) -> (r: Vec<T>)
        requires
            self.wf(),
        ensures
            r@ == self@,
            sorted(r@),
    {
        self.root.to_vec()
    }

    /// Whether `value` is a key of the tree.
    pub fn contains(&self, value: T) -> (r: bool)
        requires
            self.wf(),
        ensures
            r == self@.contains(value),
    {
        self.root.contains(value)
    }

    /// Takes one `value` out of the tree. Returns whether `value` was there;
    /// if it was not, the keys stay as they are. A root that has lost its
    /// last key gives way to its only child.
    pub fn delete(&mut self, value: T) -> (r: bool)
        requires
            old(self).wf(),
        ensures
            final(self).wf(),
            final(self).t == old(self).t,
            r == old(self)@.contains(value),
            r ==> final(self)@ == remove_sorted(old(self)@, value),
            r ==> final(self)@.len() == old(self)@.len() - 1,
            !r ==> final(self)@ == old(self)@,
            forall|w: T|
                w != value && old(self)@.contains(w) ==> #[trigger] final(self)@.contains(w),
            final(self).root.height() <= old(self).root.height() <= final(self).root.height() + 1,
            final(self).root.height() < old(self).root.height() ==> old(self).root.keys.len() == 1,
    {
        proof {
            if old(self)@.contains(value) {
                assert forall|w: T| w != value && old(self)@.contains(w) implies #[trigger]
                    remove_sorted(old(self)@, value).contains(w) by {
                    lemma_delete_keeps_others(old(self)@, value, w);
                }
            }
        }
        if self.root.leaf {
            let found = self.root.remove_key(value);
            proof {
                if found {
                    let p = choose|p: int| #[trigger]
                        first_at(old(self)@, p, value) && self@ == old(self)@.remove(p);
                    lemma_remove_sorted(old(self)@, p, value);
                }
            }
            return found;
        }
        let found = self.root.delete(value);
        proof {
            if found {
                lemma_remove_sorted_takes(old(self)@, value);
            }
        }
        if self.root.is_empty() {
            let ghost mid = *self.root;
            let child = self.root.children.pop().unwrap();
            self.root = child;
            proof {
                mid.lemma_child(-1, 0);
            }
        }
        found
    }
}

} // verus!
