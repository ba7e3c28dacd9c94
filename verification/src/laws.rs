//! What holds of the operations taken together, and what the invariant of
//! the tree means for each of its nodes.

use vstd::prelude::*;
use crate::inorder::{after, before};
use crate::node::Node;
use crate::order::{le, total_order};
use crate::sorted::{
    insert_sorted, lemma_insert_sorted, lemma_rank, lemma_remove_sorted, lemma_sorted_part, rank,
    remove_sorted, sorted,
};
use crate::tree::BTree;

verus! {

/// The built-in integer types are totally ordered, so a tree can hold them.
pub proof fn lemma_integers_total_order()
    ensures
        total_order::<u8>(),
        total_order::<u16>(),
        total_order::<u32>(),
        total_order::<u64>(),
        total_order::<u128>(),
        total_order::<usize>(),
        total_order::<i8>(),
        total_order::<i16>(),
        total_order::<i32>(),
        total_order::<i64>(),
        total_order::<i128>(),
        total_order::<isize>(),
{
}

/// `s` after the keys of `vs` went in, one after the other.
pub open spec fn insert_all<T: PartialOrd>(s: Seq<T>, vs: Seq<T>) -> Seq<T>
    decreases vs.len(),
{
    if vs.len() == 0 {
        s
    } else {
        insert_sorted(insert_all(s, vs.drop_last()), vs.last())
    }
}

/// No more elements come before `v` than there are.
pub proof fn lemma_rank_bound<T: PartialOrd>(s: Seq<T>, v: T)
    ensures
        rank(s, v) <= s.len(),
    decreases s.len(),
{
    if s.len() > 0 {
        lemma_rank_bound(s.drop_last(), v);
    }
}

/// Putting a key in makes the sequence longer by one, and the key is then
/// in it, beside all that were in it before.
pub proof fn lemma_insert_one<T: PartialOrd>(s: Seq<T>, v: T)
    ensures
        insert_sorted(s, v).len() == s.len() + 1,
        insert_sorted(s, v).contains(v),
        forall|w: T| s.contains(w) ==> #[trigger] insert_sorted(s, v).contains(w),
{
    lemma_rank_bound(s, v);
    let p = rank(s, v) as int;
    let r = insert_sorted(s, v);
    assert(r[p] == v);
    assert forall|w: T| s.contains(w) implies #[trigger] r.contains(w) by {
        let j = choose|j: int| 0 <= j < s.len() && s[j] == w;
        if j < p {
            assert(r[j] == w);
        } else {
            assert(r[j + 1] == w);
        }
    }
}

/// Whatever keys go into an empty tree, in whatever order, the keys of the
/// tree in order are then sorted, and as many as went in, equal ones
/// counted each time.
pub proof fn lemma_insertions<T: PartialOrd>(vs: Seq<T>)
    requires
        total_order::<T>(),
    ensures
        sorted(insert_all(Seq::<T>::empty(), vs)),
        insert_all(Seq::<T>::empty(), vs).len() == vs.len(),
    decreases vs.len(),
{
    if vs.len() > 0 {
        let s = insert_all(Seq::<T>::empty(), vs.drop_last());
        lemma_insertions(vs.drop_last());
        lemma_rank(s, vs.last());
        lemma_insert_sorted(s, rank(s, vs.last()) as int, vs.last());
        lemma_insert_one(s, vs.last());
    }
}

/// A key that is in the tree stays in it when another key is taken out.
pub proof fn lemma_delete_keeps_others<T: PartialOrd>(s: Seq<T>, v: T, w: T)
    requires
        total_order::<T>(),
        sorted(s),
        s.contains(v),
        s.contains(w),
        v != w,
    ensures
        remove_sorted(s, v).contains(w),
{
    let p = choose|p: int| 0 <= p < s.len() && s[p] == v;
    lemma_remove_sorted(s, p, v);
    let q = rank(s, v) as int;
    let j = choose|j: int| 0 <= j < s.len() && s[j] == w;
    let r = remove_sorted(s, v);
    if j < q {
        assert(r[j] == w);
    } else {
        assert(r[j - 1] == w);
    }
}

/// Taking out a key that is in the tree exactly once leaves a tree
/// without that key.
pub proof fn lemma_delete_the_only_one<T: PartialOrd>(s: Seq<T>, v: T)
    requires
        total_order::<T>(),
        sorted(s),
        s.contains(v),
        forall|i: int, j: int| 0 <= i < s.len() && 0 <= j < s.len() && s[i] == v && s[j] == v ==> i == j,
    ensures
        !remove_sorted(s, v).contains(v),
        remove_sorted(s, v).len() == s.len() - 1,
{
    let p = choose|p: int| 0 <= p < s.len() && s[p] == v;
    lemma_remove_sorted(s, p, v);
    let q = rank(s, v) as int;
    let r = remove_sorted(s, v);
    assert forall|j: int| 0 <= j < r.len() implies r[j] != v by {
        if j < q {
            assert(r[j] == s[j]);
        } else {
            assert(r[j] == s[j + 1]);
        }
    }
}

/// Two traversals of the same tree give the same keys.
pub proof fn lemma_traversal_repeats<T: PartialOrd + Copy>(tree: BTree<T>, first: Vec<T>, second: Vec<T>)
    requires
        first@ == tree@,
        second@ == tree@,
    ensures
        first@ == second@,
{
}

impl<T: PartialOrd + Copy> Node<T> {
    /// The node reached from this one by going, at each level, to the child
    /// whose index `path` gives; none if `path` leaves the tree.
    pub open spec fn descend(self, path: Seq<int>) -> Option<Node<T>>
        decreases path.len(),
    {
        if path.len() == 0 {
            Some(self)
        } else if self.leaf || !(0 <= path[0] < self.children.len()) {
            None
        } else {
            (*self.children[path[0]]).descend(path.skip(1))
        }
    }

    /// Every node below a node of the right shape holds between `t - 1` and
    /// `2t - 1` keys and, unless it is a leaf, one child more than keys; and
    /// every leaf lies as many levels down as the node is high, so all
    /// leaves lie at the same depth.
    pub proof fn lemma_every_node(self, path: Seq<int>)
        requires
            self.shape(self.t),
        ensures
            match self.descend(path) {
                Some(n) => {
                    &&& n.shape(self.t)
                    &&& n.keys.len() <= 2 * self.t - 1
                    &&& path.len() > 0 ==> n.keys.len() >= self.t - 1
                    &&& !n.leaf ==> n.children.len() == n.keys.len() + 1
                    &&& n.leaf ==> n.children.len() == 0
                    &&& n.height() + path.len() == self.height()
                    &&& n.leaf ==> path.len() == self.height()
                },
                None => true,
            },
        decreases path.len(),
    {
        if path.len() > 0 && !self.leaf && 0 <= path[0] < self.children.len() {
            let c = *self.children[path[0]];
            self.lemma_child(-1, path[0]);
            c.lemma_every_node(path.skip(1));
            if path.len() > 1 {
                assert(path.skip(1).len() > 0);
            }
        }
    }

    /// In a node whose subtree is sorted, the keys are sorted, and in an
    /// inner node every child's subtree is sorted and every key lies between
    /// the subtrees on its two sides: no key of the subtree to its left
    /// comes after it, and no key of the subtree to its right before it.
    pub proof fn lemma_search_tree(self)
        requires
            total_order::<T>(),
            self.shape(self.t),
            sorted(self.seq()),
        ensures
            sorted(self.keys@),
            !self.leaf ==> forall|i: int|
                0 <= i < self.children.len() ==> sorted((#[trigger] self.children[i]).seq()),
            !self.leaf ==> forall|i: int| 0 <= i < self.keys.len() ==> #[trigger] self.between(i),
    {
        if !self.leaf {
            assert forall|i: int| 0 <= i < self.children.len() implies sorted(
                (#[trigger] self.children[i]).seq(),
            ) by {
                self.lemma_seq_around(i);
                lemma_sorted_part(
                    before(self.kids(), self.keys@, i),
                    self.children[i].seq(),
                    after(self.kids(), self.keys@, i),
                );
            }
            assert forall|i: int| 0 <= i < self.keys.len() implies #[trigger] self.between(i) by {
                self.lemma_between(i);
            }
            assert forall|i: int, j: int| 0 <= i <= j < self.keys.len() implies le(
                #[trigger] self.keys[i],
                #[trigger] self.keys[j],
            ) by {
                self.lemma_keys_ordered(i, j);
            }
        }
    }

    /// Key `i` lies between the subtrees on its two sides, and before the
    /// next key.
    pub open spec fn between(self, i: int) -> bool {
        &&& forall|j: int|
            0 <= j < self.children[i].seq().len() ==> le(
                #[trigger] self.children[i].seq()[j],
                self.keys[i],
            )
        &&& forall|j: int|
            0 <= j < self.children[i + 1].seq().len() ==> le(
                self.keys[i],
                #[trigger] self.children[i + 1].seq()[j],
            )
        &&& i + 1 < self.keys.len() ==> le(self.keys[i], self.keys[i + 1])
    }

    /// In a sorted inner node every key lies between its neighbours.
    pub proof fn lemma_between(self, i: int)
        requires
            total_order::<T>(),
            !self.leaf,
            self.children.len() == self.keys.len() + 1,
            sorted(self.seq()),
            0 <= i < self.keys.len(),
        ensures
            self.between(i),
    {
        let b = before(self.kids(), self.keys@, i);
        let l = self.children[i].seq();
        let r = self.children[i + 1].seq();
        let s = self.seq();
        self.lemma_pair_around(self, i);
        let at = (b.len() + l.len()) as int;
        assert(s[at] == self.keys[i]);
        assert forall|j: int| 0 <= j < l.len() implies le(#[trigger] l[j], self.keys[i]) by {
            assert(s[b.len() + j] == l[j]);
        }
        assert forall|j: int| 0 <= j < r.len() implies le(self.keys[i], #[trigger] r[j]) by {
            assert(s[at + 1 + j] == r[j]);
        }
        if i + 1 < self.keys.len() {
            assert(s[at + 1 + r.len()] == self.keys[i + 1]);
        }
    }

    /// In a sorted inner node an earlier key does not come after a later one.
    pub proof fn lemma_keys_ordered(self, i: int, j: int)
        requires
            total_order::<T>(),
            !self.leaf,
            self.children.len() == self.keys.len() + 1,
            sorted(self.seq()),
            0 <= i <= j < self.keys.len(),
        ensures
            le(self.keys[i], self.keys[j]),
        decreases j - i,
    {
        if i < j {
            self.lemma_keys_ordered(i, j - 1);
            self.lemma_between(j - 1);
        }
    }
}

} // verus!
