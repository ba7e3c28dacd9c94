//! Putting a key in: splitting a full child, and the descent to a leaf.

use vstd::prelude::*;
use crate::inorder::{after, before, lemma_inorder_concat};
use crate::node::Node;
use crate::order::{le, less, lt, total_order};
use crate::sorted::{fits, fits_last, inserted, lemma_inserted_middle, slot};

verus! {

impl<T: PartialOrd + Copy> Node<T> {
    /// The two halves of a full node, around its middle key, are nodes of
    /// the same height that hold its sequence between them.
    pub proof fn lemma_halves(self, l: Self, r: Self, m: T)
        requires
            self.shape(self.t),
            self.keys.len() == 2 * self.t - 1,
            l.t == self.t,
            r.t == self.t,
            l.leaf == self.leaf,
            r.leaf == self.leaf,
            l.count == self.t - 1,
            r.count == self.t - 1,
            m == self.keys[self.t - 1],
            l.keys@ == self.keys@.take(self.t - 1),
            r.keys@ == self.keys@.skip(self.t as int),
            self.leaf ==> l.children.len() == 0 && r.children.len() == 0,
            !self.leaf ==> l.children@ == self.children@.take(self.t as int) && r.children@
                == self.children@.skip(self.t as int),
        ensures
            l.shape(self.t),
            r.shape(self.t),
            l.height() == self.height(),
            r.height() == self.height(),
            self.seq() == l.seq() + seq![m] + r.seq(),
    {
        assert(l.keys@ + seq![m] + r.keys@ =~= self.keys@);
        if !self.leaf {
            assert(l.children[0] == self.children[0]);
            assert(r.children[0] == self.children[self.t as int]);
            assert(l.kids() + r.kids() =~= self.kids());
            lemma_inorder_concat(l.kids(), l.keys@, m, r.kids(), r.keys@);
        }
    }

    /// Splits the full child at `i` in two around its middle key, which moves
    /// up into this node, between the two halves.
    pub fn split(&mut self, i: usize)
        requires
            old(self).shape(old(self).t),
            !old(self).leaf,
            i < old(self).children.len(),
            old(self).keys.len() < 2 * old(self).t - 1,
            old(self).children[i as int].keys.len() == 2 * old(self).t - 1,
        ensures
            final(self).shape(old(self).t),
            !final(self).leaf,
            final(self).height() == old(self).height(),
            final(self).seq() == old(self).seq(),
            final(self).keys@ == old(self).keys@.insert(
                i as int,
                old(self).children[i as int].keys[old(self).t - 1],
            ),
            final(self).children.len() == old(self).children.len() + 1,
            final(self).children[i as int].keys@ == old(self).children[i as int].keys@.take(
                old(self).t - 1,
            ),
            final(self).children[i + 1].keys@ == old(self).children[i as int].keys@.skip(
                old(self).t as int,
            ),
            final(self).children[i as int].leaf == old(self).children[i as int].leaf,
            final(self).children[i + 1].leaf == old(self).children[i as int].leaf,
            !old(self).children[i as int].leaf ==> {
                &&& final(self).children[i as int].children@ == old(self).children[i as int].children@.take(old(self).t as int)
                &&& final(self).children[i + 1].children@ == old(self).children[i as int].children@.skip(old(self).t as int)
            },
            forall|j: int| 0 <= j < i ==> final(self).children[j] == old(self).children[j],
            forall|j: int|
                i + 1 < j < final(self).children.len() ==> final(self).children[j] == old(self).children[j - 1],
    {
        let t = self.t;
        proof {
            self.lemma_child(-1, i as int);
        }
        let left = &mut self.children[i];
        let mut right = Node::<T>::empty(t);
        right.leaf = left.leaf;
        right.count = t - 1;
        right.keys = left.keys.split_off(t);
        if !left.leaf {
            right.children = left.children.split_off(t);
        }
        left.count = t - 1;
        let median = left.keys.pop().unwrap();
        self.keys.insert(i, median);
        self.children.insert(i + 1, Box::new(right));
        self.count += 1;
        proof {
            let c0 = old(self).children[i as int];
            let l = self.children[i as int];
            let r = self.children[i + 1];
            assert(l.keys@ =~= c0.keys@.take(t - 1));
            c0.lemma_halves(*l, *r, median);
            assert(old(self).children[0].height() + 1 == old(self).height());
            self.lemma_pair_or_one(*old(self), i as int, median);
        }
    }
    /// A key that goes into child `i` where it fits there, and that does
    /// not disagree with the keys on both sides of that child, goes into
    /// the node where it fits.
    pub proof fn lemma_insert_into_child(self, other: Self, i: int, v: T)
        requires
            !self.leaf,
            !other.leaf,
            self.children.len() == self.keys.len() + 1,
            0 <= i < self.children.len(),
            other.keys@ == self.keys@,
            other.children.len() == self.children.len(),
            forall|j: int|
                0 <= j < self.children.len() && j != i ==> other.children[j] == self.children[j],
            inserted(self.children[i].seq(), other.children[i].seq(), v),
            i > 0 ==> le(self.keys[i - 1], v),
            i < self.keys.len() ==> le(v, self.keys[i]),
        ensures
            inserted(self.seq(), other.seq(), v),
    {
        let b = before(self.kids(), self.keys@, i);
        let a = after(self.kids(), self.keys@, i);
        self.lemma_update_child(other, i);
        lemma_inserted_middle(b, self.children[i].seq(), other.children[i].seq(), a, v);
    }

    /// The child of this inner node in which `value` goes down: the one
    /// behind the last key that comes strictly before `value`.
    pub fn child_for(&self, value: T) -> (r: usize)
        requires
            total_order::<T>(),
            self.count == self.keys.len(),
            self.keys.len() >= 1,
        ensures
            r == slot(self.keys@, value),
            r <= self.keys.len(),
            r > 0 ==> lt(self.keys[r - 1], value),
            r < self.keys.len() ==> le(value, self.keys[r as int]),
    {
        let mut i = self.count - 1;
        proof {
            assert(self.keys@.take(i + 1) =~= self.keys@);
        }
        while i > 0 && !less(self.keys[i], value)
            invariant
                total_order::<T>(),
                self.count == self.keys.len(),
                i < self.count,
                forall|j: int| i < j < self.keys.len() ==> le(value, #[trigger] self.keys[j]),
                slot(self.keys@, value) == slot(self.keys@.take(i + 1), value),
            decreases i,
        {
            proof {
                assert(self.keys@.take(i + 1).drop_last() =~= self.keys@.take(i as int));
            }
            i -= 1;
        }
        proof {
            assert(self.keys@.take(i + 1).drop_last() =~= self.keys@.take(i as int));
            assert(slot(self.keys@.take(0), value) == 0);
        }
        if less(self.keys[i], value) {
            i += 1;
        }
        i
    }

    /// Puts `value` into the subtree of a node that is not full, at a leaf.
    pub fn insert_nonfull(&mut self, value: T)
        requires
            total_order::<T>(),
            old(self).shape(old(self).t),
            old(self).keys.len() < 2 * old(self).t - 1,
            !old(self).leaf ==> old(self).keys.len() >= 1,
        ensures
            final(self).shape(old(self).t),
            final(self).leaf == old(self).leaf,
            final(self).height() == old(self).height(),
            old(self).keys.len() <= final(self).keys.len() <= old(self).keys.len() + 1,
            inserted(old(self).seq(), final(self).seq(), value),
            old(self).leaf ==> exists|p: int| #[trigger]
                fits_last(old(self).keys@, p, value) && final(self).keys@ == old(self).keys@.insert(
                    p,
                    value,
                ),
            !old(self).leaf ==> 0 <= slot(old(self).keys@, value) < old(self).children.len(),
            !old(self).leaf && old(self).children[slot(old(self).keys@, value)].keys.len() < 2
                * old(self).t - 1 ==> {
                &&& final(self).keys@ == old(self).keys@
                &&& final(self).children.len() == old(self).children.len()
                &&& forall|j: int|
                    0 <= j < old(self).children.len() && j != slot(old(self).keys@, value)
                        ==> final(self).children[j] == old(self).children[j]
                &&& inserted(
                    old(self).children[slot(old(self).keys@, value)].seq(),
                    final(self).children[slot(old(self).keys@, value)].seq(),
                    value,
                )
            },
            !old(self).leaf && old(self).children[slot(old(self).keys@, value)].keys.len() == 2
                * old(self).t - 1 ==> {
                &&& final(self).keys@ == old(self).keys@.insert(
                    slot(old(self).keys@, value),
                    old(self).children[slot(old(self).keys@, value)].keys[old(self).t - 1],
                )
                &&& final(self).children.len() == old(self).children.len() + 1
                &&& forall|j: int|
                    0 <= j < slot(old(self).keys@, value) ==> final(self).children[j] == old(self).children[j]
                &&& forall|j: int|
                    slot(old(self).keys@, value) + 1 < j < final(self).children.len() ==> final(self).children[j] == old(self).children[j - 1]
            },
        decreases old(self).height(),
    {
        if self.leaf {
            let mut i = self.count;
            self.keys.push(value);
            self.count += 1;
            while i >= 1 && less(value, self.keys[i - 1])
                invariant
                    total_order::<T>(),
                    i <= old(self).keys.len(),
                    self.keys@ == old(self).keys@.insert(i as int, value),
                    forall|j: int| i <= j < old(self).keys.len() ==> lt(value, old(self).keys[j]),
                    self.leaf,
                    self.t == old(self).t,
                    self.count == old(self).count + 1,
                    self.children == old(self).children,
                decreases i,
            {
                let prev = self.keys[i - 1];
                self.keys[i] = prev;
                self.keys[i - 1] = value;
                i -= 1;
            }
            proof {
                assert(fits(old(self).seq(), i as int, value));
                assert(fits_last(old(self).keys@, i as int, value));
            }
            return;
        }
        let mut i = self.child_for(value);
        proof {
            self.lemma_child(-1, i as int);
        }
        if self.is_full(i) {
            self.split(i);
            if less(self.keys[i], value) {
                i += 1;
            }
        }
        let ghost mid = *self;
        proof {
            mid.lemma_child(-1, i as int);
        }
        self.children[i].insert_nonfull(value);
        proof {
            mid.lemma_child_replaced(*self, i as int);
            mid.lemma_insert_into_child(*self, i as int, value);
        }
    }
}

} // verus!
