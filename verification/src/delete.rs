//! Taking a key out: from a leaf, from the least place of a subtree, and
//! by value from the subtree of an inner node.

use vstd::prelude::*;
use crate::inorder::{after, before};
use crate::node::Node;
use crate::order::{same, total_order};
use crate::sorted::{
    first_at, lemma_remove_sorted, lemma_remove_sorted_takes, lemma_removed_middle,
    lemma_removed_sorted, remove_sorted, removed, sorted, stands_at,
};

verus! {

impl<T: PartialOrd + Copy> Node<T> {
    /// Takes the first key equal to `key` out of the keys of this node.
    /// Returns whether there was one.
    pub fn remove_key(&mut self, key: T) -> (r: bool)
        requires
            total_order::<T>(),
            old(self).count == old(self).keys.len(),
        ensures
            r == old(self).keys@.contains(key),
            r ==> exists|p: int| #[trigger]
                first_at(old(self).keys@, p, key) && final(self).keys@ == old(self).keys@.remove(p),
            !r ==> final(self).keys@ == old(self).keys@,
            final(self).count == final(self).keys.len(),
            final(self).leaf == old(self).leaf,
            final(self).t == old(self).t,
            final(self).children == old(self).children,
    {
        let mut index: usize = 0;
        while index < self.keys.len() && !same(self.keys[index], key)
            invariant
                total_order::<T>(),
                self == old(self),
                index <= self.keys.len(),
                forall|j: int| 0 <= j < index ==> self.keys[j] != key,
            decreases self.keys.len() - index,
        {
            index += 1;
        }
        if index == self.keys.len() {
            return false;
        }
        self.keys.remove(index);
        self.count = self.count - 1;
        proof {
            assert(first_at(old(self).keys@, index as int, key));
        }
        true
    }

    /// Takes the least key out of the subtree and returns it. The node may
    /// be left with one key less than before.
    pub fn remove_min(&mut self) -> (r: T)
        requires
            old(self).shape(old(self).t),
            old(self).keys.len() >= 1,
        ensures
            final(self).shape(old(self).t),
            final(self).leaf == old(self).leaf,
            final(self).height() == old(self).height(),
            old(self).keys.len() <= final(self).keys.len() + 1,
            final(self).keys.len() <= old(self).keys.len(),
            old(self).seq().len() >= 1,
            r == old(self).seq()[0],
            final(self).seq() == old(self).seq().skip(1),
        decreases old(self).height(),
    {
        if self.leaf {
            self.count = self.count - 1;
            let r = self.keys.remove(0);
            proof {
                assert(self.keys@ =~= old(self).keys@.skip(1));
            }
            return r;
        }
        proof {
            self.lemma_child(-1, 0);
        }
        let r = self.children[0].remove_min();
        let ghost mid = *self;
        proof {
            old(self).lemma_update_child(mid, 0);
            assert(mid.seq() =~= old(self).seq().skip(1));
            old(self).lemma_child_replaced(mid, 0);
            mid.lemma_child(0, 0);
        }
        if self.children[0].count < self.t - 1 {
            self.refill(0);
        }
        r
    }

    /// Takes `value` out of the child at `i`, which is a leaf. A leaf that
    /// holds no more than the least number of keys is refilled first.
    /// Returns whether `value` was among the keys of the leaf, as refilled,
    /// and so went out.
    pub fn delete_from_leaf(&mut self, value: T, i: usize) -> (r: bool)
        requires
            total_order::<T>(),
            old(self).shape(old(self).t),
            !old(self).leaf,
            old(self).keys.len() >= 1,
            i < old(self).children.len(),
            old(self).children[i as int].leaf,
        ensures
            final(self).shape(old(self).t),
            !final(self).leaf,
            final(self).height() == old(self).height(),
            old(self).keys.len() <= final(self).keys.len() + 1,
            final(self).keys.len() <= old(self).keys.len(),
            r == old(self).refilled_keys(i as int).contains(value),
            old(self).children[i as int].seq().contains(value) ==> r,
            r ==> removed(old(self).seq(), final(self).seq(), value),
            !r ==> final(self).seq() == old(self).seq(),
            0 <= old(self).refilled_place(i as int) < final(self).children.len(),
            r ==> exists|p: int| #[trigger]
                first_at(old(self).refilled_keys(i as int), p, value) && final(self).children[old(self).refilled_place(i as int)].keys@ == old(self).refilled_keys(
                    i as int,
                ).remove(p),
            !r ==> final(self).children[old(self).refilled_place(i as int)].keys@ == old(self).refilled_keys(i as int),
    {
        proof {
            self.lemma_child(-1, i as int);
            if self.children[i as int].keys@.contains(value) {
                self.lemma_refilled_holds(i as int, value);
            }
        }
        let mut at = i;
        if self.children[i].count < self.t {
            at = self.refill(i);
        }
        let ghost mid = *self;
        proof {
            mid.lemma_child(-1, at as int);
        }
        let found = self.children[at].remove_key(value);
        proof {
            let c = mid.children[at as int];
            let d = self.children[at as int];
            assert(d.shape(self.t));
            assert(d.height() == c.height());
            mid.lemma_child_replaced(*self, at as int);
            mid.lemma_update_child(*self, at as int);
            if found {
                let p = choose|p: int| #[trigger]
                    first_at(c.keys@, p, value) && d.keys@ == c.keys@.remove(p);
                assert(stands_at(c.seq(), p, value));
                lemma_removed_middle(
                    before(mid.kids(), mid.keys@, at as int),
                    c.seq(),
                    d.seq(),
                    after(mid.kids(), mid.keys@, at as int),
                    value,
                );
            }
        }
        found
    }

    /// What the child at `i` holds it still holds when it has been
    /// refilled.
    pub proof fn lemma_refilled_holds(self, i: int, v: T)
        requires
            0 <= i < self.children.len(),
            self.children[i].keys@.contains(v),
        ensures
            self.refilled_keys(i).contains(v),
    {
        let own = self.children[i].keys@;
        let all = self.refilled_keys(i);
        let j = choose|j: int| 0 <= j < own.len() && own[j] == v;
        if own.len() >= self.t {
        } else if self.can_spare(i - 1) {
            assert(all[j + 1] == v);
        } else if self.can_spare(i + 1) {
            assert(all[j] == v);
        } else if i > 0 {
            assert(all[self.children[i - 1].keys@.len() + 1 + j] == v);
        } else {
            assert(all[j] == v);
        }
    }

    /// Where key `i` of this inner node stands in the sequence of its
    /// subtree.
    pub open spec fn key_position(self, i: int) -> int {
        (before(self.kids(), self.keys@, i).len() + self.children[i].seq().len()) as int
    }

    /// When the least key of the child right of key `i` leaves that child
    /// and takes the place of key `i`, the sequence of the node loses that
    /// key and is otherwise as before.
    pub proof fn lemma_successor_moves_up(self, other: Self, i: int)
        requires
            !self.leaf,
            !other.leaf,
            self.children.len() == self.keys.len() + 1,
            0 <= i < self.keys.len(),
            other.children.len() == self.children.len(),
            other.keys.len() == self.keys.len(),
            forall|j: int| 0 <= j < self.keys.len() && j != i ==> other.keys[j] == self.keys[j],
            forall|j: int|
                0 <= j < self.children.len() && j != i + 1 ==> other.children[j]
                    == self.children[j],
            self.children[i + 1].seq().len() >= 1,
            other.keys[i] == self.children[i + 1].seq()[0],
            other.children[i + 1].seq() == self.children[i + 1].seq().skip(1),
        ensures
            stands_at(self.seq(), self.key_position(i), self.keys[i]),
            other.seq() == self.seq().remove(self.key_position(i)),
    {
        self.lemma_pair_around(other, i);
        assert(other.seq() =~= self.seq().remove(self.key_position(i)));
    }

    /// Takes key `i` out of this inner node: its successor, the least key of
    /// the child to its right, leaves that child and takes its place. The
    /// child is refilled if that left it with too few keys; the node itself
    /// may be left with one key less than before.
    pub fn delete_key_at(&mut self, i: usize)
        requires
            old(self).shape(old(self).t),
            !old(self).leaf,
            i < old(self).keys.len(),
        ensures
            final(self).shape(old(self).t),
            !final(self).leaf,
            final(self).height() == old(self).height(),
            old(self).keys.len() <= final(self).keys.len() + 1,
            final(self).keys.len() <= old(self).keys.len(),
            stands_at(old(self).seq(), old(self).key_position(i as int), old(self).keys[i as int]),
            final(self).seq() == old(self).seq().remove(old(self).key_position(i as int)),
    {
        proof {
            self.lemma_child(-1, i + 1);
        }
        let successor = self.children[i + 1].remove_min();
        self.keys[i] = successor;
        let ghost mid = *self;
        proof {
            old(self).lemma_child_replaced(mid, i + 1);
            mid.lemma_child(i + 1, i + 1);
            old(self).lemma_successor_moves_up(mid, i as int);
        }
        if self.children[i + 1].count < self.t - 1 {
            self.refill(i + 1);
        }
    }

    /// Takes one `value` out of the subtree of this inner node. A key of
    /// this node that is `value` gives way to its successor, the least key
    /// of the child to its right; else the search goes on in the child
    /// between the keys around `value`. A child that is left with too few
    /// keys is refilled. The node itself may be left with one key less than
    /// before. Returns whether `value` was there.
    pub fn delete(&mut self, value: T) -> (r: bool)
        requires
            total_order::<T>(),
            old(self).shape(old(self).t),
            !old(self).leaf,
            old(self).keys.len() >= 1,
            sorted(old(self).seq()),
        ensures
            final(self).shape(old(self).t),
            !final(self).leaf,
            final(self).height() == old(self).height(),
            old(self).keys.len() <= final(self).keys.len() + 1,
            final(self).keys.len() <= old(self).keys.len(),
            r == old(self).seq().contains(value),
            r ==> final(self).seq() == remove_sorted(old(self).seq(), value),
            !r ==> final(self).seq() == old(self).seq(),
            sorted(final(self).seq()),
        decreases old(self).height(),
    {
        let i = self.lower_bound(value);
        if i < self.count && same(self.keys[i], value) {
            self.delete_key_at(i);
            proof {
                lemma_remove_sorted(
                    old(self).seq(),
                    old(self).key_position(i as int),
                    value,
                );
            }
            return true;
        }
        proof {
            self.lemma_child(-1, i as int);
            self.lemma_only_in_child(i as int, value);
        }
        if self.children[i].leaf {
            let found = self.delete_from_leaf(value, i);
            proof {
                if found {
                    lemma_removed_sorted(old(self).seq(), self.seq(), value);
                    let q = choose|q: int| #[trigger]
                        stands_at(old(self).seq(), q, value) && self.seq() == old(self).seq().remove(q);
                    assert(old(self).seq()[q] == value);
                }
            }
            return found;
        }
        let found = self.children[i].delete(value);
        let ghost mid = *self;
        proof {
            let c = old(self).children[i as int];
            let d = mid.children[i as int];
            old(self).lemma_child_replaced(mid, i as int);
            mid.lemma_child(i as int, i as int);
            old(self).lemma_update_child(mid, i as int);
            if found {
                lemma_remove_sorted_takes(c.seq(), value);
                lemma_removed_middle(
                    before(old(self).kids(), old(self).keys@, i as int),
                    c.seq(),
                    d.seq(),
                    after(old(self).kids(), old(self).keys@, i as int),
                    value,
                );
                lemma_removed_sorted(old(self).seq(), mid.seq(), value);
            }
        }
        if self.children[i].count < self.t - 1 {
            self.refill(i);
        }
        found
    }
}

} // verus!
