//! The nodes of the tree and the algorithms that work within one node and
//! its children.

use vstd::prelude::*;
use crate::inorder::{
    after, before, inorder, lemma_inorder_around, lemma_inorder_around_pair, lemma_inorder_take,
};
use crate::order::{le, less, lt, same, total_order};
use crate::sorted::{lemma_sorted_between, lemma_sorted_part, sorted};

verus! {

/// A node: up to `2t - 1` keys and, unless it is a leaf, one child more than
/// it has keys.
#[derive(Debug)]
pub struct Node<T: PartialOrd + Copy> {
    pub leaf: bool,
    pub count: usize,
    pub keys: Vec<T>,
    pub children: Vec<Box<Node<T>>>,
    pub t: usize,
}

impl<T: PartialOrd + Copy> Node<T> {
    /// The in-order sequences of the children.
    pub open spec fn kids(self) -> Seq<Seq<T>>
        decreases self, 0nat,
    {
        Seq::new(
            self.children.len() as nat,
            |i: int|
                if 0 <= i < self.children.len() {
                    self.children[i].seq()
                } else {
                    Seq::empty()
                },
        )
    }

    /// The keys of the subtree in order: for a leaf its keys, else the
    /// children's sequences with the node's keys between them.
    pub open spec fn seq(self) -> Seq<T>
        decreases self, 1nat,
    {
        if self.leaf {
            self.keys@
        } else {
            inorder(self.kids(), self.keys@)
        }
    }

    /// The number of levels below the node, along its first children.
    pub open spec fn height(self) -> nat
        decreases self,
    {
        if self.leaf || self.children.len() == 0 {
            0
        } else {
            1 + self.children[0].height()
        }
    }

    /// The shape of a subtree with branching parameter `t`: `t` is at least 2,
    /// `count` is the number of keys, which is at most `2t - 1`; a leaf has no
    /// children; another node has one child more than keys, each child has
    /// this shape, lies one level lower, and holds at least `t - 1` keys.
    /// The child at `hole`, if there is one, may hold fewer. Nothing is asked
    /// of how many keys the node itself holds at least.
    pub open spec fn shape_but(self, t: usize, hole: int) -> bool
        decreases self,
    {
        &&& 2 <= t
        &&& 2 * t <= usize::MAX
        &&& self.t == t
        &&& self.count == self.keys.len()
        &&& self.keys.len() <= 2 * t - 1
        &&& self.leaf ==> self.children.len() == 0
        &&& !self.leaf ==> {
            &&& self.children.len() == self.keys.len() + 1
            &&& forall|i: int|
                0 <= i < self.children.len() ==> {
                    &&& (#[trigger] self.children[i]).shape_but(t, -1)
                    &&& self.children[i].height() + 1 == self.height()
                    &&& i != hole ==> self.children[i].keys.len() >= t - 1
                }
        }
    }

    /// `shape_but` with no child left out.
    pub open spec fn shape(self, t: usize) -> bool {
        self.shape_but(t, -1)
    }

    /// The node's sequence is what comes before child `i`, that child's
    /// sequence, and what comes after it.
    pub proof fn lemma_seq_around(self, i: int)
        requires
            !self.leaf,
            self.children.len() == self.keys.len() + 1,
            0 <= i < self.children.len(),
        ensures
            self.seq() == before(self.kids(), self.keys@, i) + self.children[i].seq() + after(
                self.kids(),
                self.keys@,
                i,
            ),
    {
        lemma_inorder_around(self.kids(), self.keys@, i);
    }

    /// What the shape of a node says of its child `i`, spelled out.
    pub proof fn lemma_child(self, hole: int, i: int)
        requires
            self.shape_but(self.t, hole),
            !self.leaf,
            0 <= i < self.children.len(),
        ensures
            self.children[i].t == self.t,
            self.children[i].shape(self.children[i].t),
            self.children[i].count == self.children[i].keys.len(),
            self.children[i].keys.len() <= 2 * self.t - 1,
            self.children[i].height() + 1 == self.height(),
            self.children[i].leaf <==> self.height() == 1,
            i != hole ==> self.children[i].keys.len() >= self.t - 1,
            !self.children[i].leaf ==> self.children[i].children.len()
                == self.children[i].keys.len() + 1,
            self.children[i].leaf ==> self.children[i].children.len() == 0,
    {
        assert(self.children[i].shape_but(self.t, -1));
    }

    /// A node of the right shape keeps it, and its height, when one child
    /// gives way to a node of the right shape and the same height; only
    /// that child may then hold too few keys.
    pub proof fn lemma_child_replaced(self, other: Self, i: int)
        requires
            self.shape_but(self.t, -1) || self.shape_but(self.t, i),
            !self.leaf,
            !other.leaf,
            0 <= i < self.children.len(),
            other.t == self.t,
            other.count == other.keys.len(),
            other.keys.len() == self.keys.len(),
            other.children.len() == self.children.len(),
            forall|j: int|
                0 <= j < self.children.len() && j != i ==> other.children[j] == self.children[j],
            other.children[i].shape(self.t),
            other.children[i].height() == self.children[i].height(),
        ensures
            other.shape_but(self.t, i),
            other.height() == self.height(),
            other.children[i].keys.len() >= self.t - 1 ==> other.shape(self.t),
    {
        assert(self.children[0].height() + 1 == self.height());
        assert(self.children[i].height() + 1 == self.height());
    }

    /// Two inner nodes that differ only in child `i` have the same
    /// surroundings of that child.
    pub proof fn lemma_update_child(self, other: Self, i: int)
        requires
            !self.leaf,
            !other.leaf,
            self.children.len() == self.keys.len() + 1,
            0 <= i < self.children.len(),
            other.keys@ == self.keys@,
            other.children.len() == self.children.len(),
            forall|j: int|
                0 <= j < self.children.len() && j != i ==> other.children[j] == self.children[j],
        ensures
            self.seq() == before(self.kids(), self.keys@, i) + self.children[i].seq() + after(
                self.kids(),
                self.keys@,
                i,
            ),
            other.seq() == before(self.kids(), self.keys@, i) + other.children[i].seq() + after(
                self.kids(),
                self.keys@,
                i,
            ),
    {
        let sk = self.kids();
        let ok = other.kids();
        let y = self.keys@;
        lemma_inorder_around(sk, y, i);
        lemma_inorder_around(ok, y, i);
        assert(before(ok, y, i) =~= before(sk, y, i)) by {
            if i > 0 {
                assert(ok.take(i) =~= sk.take(i));
            }
        }
        assert(after(ok, y, i) =~= after(sk, y, i)) by {
            if i < y.len() {
                assert(ok.skip(i + 1) =~= sk.skip(i + 1));
            }
        }
    }

    /// An inner node with the children `i` and `i + 1` around the key `m`
    /// has the same sequence as one that has, in their place, a single child
    /// holding all three.
    pub proof fn lemma_pair_or_one(self, one: Self, i: int, m: T)
        requires
            !self.leaf,
            !one.leaf,
            one.children.len() == one.keys.len() + 1,
            0 <= i < one.children.len(),
            self.children.len() == one.children.len() + 1,
            self.keys@ == one.keys@.insert(i, m),
            forall|j: int| 0 <= j < i ==> self.children[j] == one.children[j],
            forall|j: int|
                i + 1 < j < self.children.len() ==> self.children[j] == one.children[j - 1],
            one.children[i].seq() == self.children[i].seq() + seq![m] + self.children[i + 1].seq(),
        ensures
            self.seq() == one.seq(),
    {
        let nk = self.kids();
        let ny = self.keys@;
        let ok = one.kids();
        let oy = one.keys@;
        lemma_inorder_around_pair(nk, ny, i);
        lemma_inorder_around(ok, oy, i);
        assert(before(nk, ny, i) =~= before(ok, oy, i)) by {
            if i > 0 {
                assert(nk.take(i) =~= ok.take(i));
                assert(ny.take(i - 1) =~= oy.take(i - 1));
            }
        }
        assert(after(nk, ny, i + 1) =~= after(ok, oy, i)) by {
            if i < oy.len() {
                assert(nk.skip(i + 2) =~= ok.skip(i + 1));
                assert(ny.skip(i + 2) =~= oy.skip(i + 1));
            }
        }
    }

    /// Two inner nodes that differ only in the children `i` and `i + 1` and
    /// in the key between them have the same surroundings of those three.
    pub proof fn lemma_pair_around(self, other: Self, i: int)
        requires
            !self.leaf,
            !other.leaf,
            self.children.len() == self.keys.len() + 1,
            0 <= i < self.keys.len(),
            other.children.len() == self.children.len(),
            other.keys.len() == self.keys.len(),
            forall|j: int| 0 <= j < self.keys.len() && j != i ==> other.keys[j] == self.keys[j],
            forall|j: int|
                0 <= j < self.children.len() && j != i && j != i + 1 ==> other.children[j]
                    == self.children[j],
        ensures
            self.seq() == before(self.kids(), self.keys@, i) + (self.children[i].seq()
                + seq![self.keys[i]] + self.children[i + 1].seq()) + after(
                self.kids(),
                self.keys@,
                i + 1,
            ),
            other.seq() == before(self.kids(), self.keys@, i) + (other.children[i].seq()
                + seq![other.keys[i]] + other.children[i + 1].seq()) + after(
                self.kids(),
                self.keys@,
                i + 1,
            ),
    {
        let sk = self.kids();
        let sy = self.keys@;
        let ok = other.kids();
        let oy = other.keys@;
        lemma_inorder_around_pair(sk, sy, i);
        lemma_inorder_around_pair(ok, oy, i);
        assert(before(ok, oy, i) =~= before(sk, sy, i)) by {
            if i > 0 {
                assert(ok.take(i) =~= sk.take(i));
                assert(oy.take(i - 1) =~= sy.take(i - 1));
            }
        }
        assert(after(ok, oy, i + 1) =~= after(sk, sy, i + 1)) by {
            if i + 1 < sy.len() {
                assert(ok.skip(i + 2) =~= sk.skip(i + 2));
                assert(oy.skip(i + 2) =~= sy.skip(i + 2));
            }
        }
    }

    /// Two inner nodes that differ only in the children `i` and `i + 1` and
    /// in the key between them have the same sequence if those three make
    /// up the same sequence in both.
    pub proof fn lemma_same_pair(self, other: Self, i: int)
        requires
            !self.leaf,
            !other.leaf,
            self.children.len() == self.keys.len() + 1,
            0 <= i < self.keys.len(),
            other.children.len() == self.children.len(),
            other.keys.len() == self.keys.len(),
            forall|j: int| 0 <= j < self.keys.len() && j != i ==> other.keys[j] == self.keys[j],
            forall|j: int|
                0 <= j < self.children.len() && j != i && j != i + 1 ==> other.children[j]
                    == self.children[j],
            other.children[i].seq() + seq![other.keys[i]] + other.children[i + 1].seq()
                == self.children[i].seq() + seq![self.keys[i]] + self.children[i + 1].seq(),
        ensures
            other.seq() == self.seq(),
    {
        self.lemma_pair_around(other, i);
    }

    /// In a sorted inner node, a value that lies strictly between the keys
    /// on both sides of child `i` can only be in that child, which is sorted
    /// too.
    pub proof fn lemma_only_in_child(self, i: int, v: T)
        requires
            total_order::<T>(),
            !self.leaf,
            self.children.len() == self.keys.len() + 1,
            0 <= i < self.children.len(),
            sorted(self.seq()),
            i > 0 ==> lt(self.keys[i - 1], v),
            i < self.keys.len() ==> lt(v, self.keys[i]),
        ensures
            sorted(self.children[i].seq()),
            self.seq().contains(v) == self.children[i].seq().contains(v),
    {
        let l = before(self.kids(), self.keys@, i);
        let c = self.children[i].seq();
        let r = after(self.kids(), self.keys@, i);
        self.lemma_seq_around(i);
        lemma_sorted_part(l, c, r);
        if c.contains(v) {
            let j = choose|j: int| 0 <= j < c.len() && c[j] == v;
            assert(self.seq()[l.len() + j] == v);
        }
        if self.seq().contains(v) {
            let p = choose|p: int| 0 <= p < self.seq().len() && self.seq()[p] == v;
            lemma_sorted_between(l, c, r, v, p);
        }
    }

    /// An inner node without keys or children.
    pub fn empty(t: usize) -> (r: Self)
        ensures
            !r.leaf,
            r.count == 0,
            r.keys@ == Seq::<T>::empty(),
            r.children@ == Seq::<Box<Node<T>>>::empty(),
            r.t == t,
    {
        Node { keys: Vec::new(), children: Vec::new(), count: 0, leaf: false, t }
    }

    /// A leaf without keys.
    pub fn leaf(t: usize) -> (r: Self)
        ensures
            r.leaf,
            r.count == 0,
            r.keys@ == Seq::<T>::empty(),
            r.children@ == Seq::<Box<Node<T>>>::empty(),
            r.t == t,
    {
        Node { keys: Vec::new(), children: Vec::new(), count: 0, leaf: true, t }
    }

    /// Whether the child at `index` holds as many keys as a node can.
    pub fn is_full(&self, index: usize) -> (r: bool)
        requires
            index < self.children.len(),
            1 <= self.t,
            2 * self.t <= usize::MAX,
        ensures
            r == (self.children[index as int].count == 2 * self.t - 1),
    {
        self.children[index].count == 2 * self.t - 1
    }

    /// Whether the node holds no key.
    pub fn is_empty(&self) -> (r: bool)
        ensures
            r == (self.count == 0),
    {
        self.count == 0
    }

    /// The places next to the child at `index`: its left neighbour if it
    /// has one, itself, and its right neighbour if it has one.
    pub fn siblings(children: &Vec<Box<Node<T>>>, index: usize) -> (r: (
        Option<usize>,
        usize,
        Option<usize>,
    ))
        requires
            index < children.len(),
        ensures
            r.0 == (if index > 0 {
                Some((index - 1) as usize)
            } else {
                None
            }),
            r.1 == index,
            r.2 == (if index + 1 < children.len() {
                Some((index + 1) as usize)
            } else {
                None
            }),
    {
        let left = if index > 0 {
            Some(index - 1)
        } else {
            None
        };
        let right = if index < children.len() - 1 {
            Some(index + 1)
        } else {
            None
        };
        (left, index, right)
    }

    /// The keys of the subtree in order.
    pub fn to_vec(&self) -> (r: Vec<T>)
        requires
            self.shape(self.t),
        ensures
            r@ == self.seq(),
        decreases self.height(),
    {
        let mut acc: Vec<T> = Vec::new();
        if self.leaf {
            let mut j: usize = 0;
            while j < self.count
                invariant
                    self.count == self.keys.len(),
                    j <= self.count,
                    acc@ == self.keys@.take(j as int),
                decreases self.count - j,
            {
                acc.push(self.keys[j]);
                proof {
                    assert(self.keys@.take(j + 1) =~= self.keys@.take(j as int).push(
                        self.keys@[j as int],
                    ));
                }
                j += 1;
            }
            return acc;
        }
        let mut i: usize = 0;
        while i <= self.count
            invariant
                !self.leaf,
                self.shape(self.t),
                i <= self.count + 1,
                i <= self.count ==> acc@ == before(self.kids(), self.keys@, i as int),
                i == self.count + 1 ==> acc@ == self.seq(),
            decreases self.count + 1 - i,
        {
            proof {
                self.lemma_child(-1, i as int);
            }
            let mut sub = self.children[i].to_vec();
            acc.append(&mut sub);
            if i != self.count {
                acc.push(self.keys[i]);
                proof {
                    lemma_inorder_take(self.kids(), self.keys@, i as int);
                }
            } else {
                proof {
                    self.lemma_seq_around(i as int);
                }
            }
            i += 1;
        }
        acc
    }

    /// The place of the first key that does not come strictly before
    /// `value`; the number of keys if there is none.
    pub fn lower_bound(&self, value: T) -> (r: usize)
        requires
            total_order::<T>(),
            self.count == self.keys.len(),
        ensures
            r <= self.keys.len(),
            forall|j: int| 0 <= j < r ==> lt(#[trigger] self.keys[j], value),
            r < self.keys.len() ==> le(value, self.keys[r as int]),
    {
        let mut i: usize = 0;
        while i < self.count && less(self.keys[i], value)
            invariant
                self.count == self.keys.len(),
                total_order::<T>(),
                i <= self.count,
                forall|j: int| 0 <= j < i ==> lt(#[trigger] self.keys[j], value),
            decreases self.count - i,
        {
            i += 1;
        }
        i
    }

    /// Whether `value` is a key of the subtree.
    pub fn contains(&self, value: T) -> (r: bool)
        requires
            total_order::<T>(),
            self.shape(self.t),
            sorted(self.seq()),
        ensures
            r == self.seq().contains(value),
        decreases self.height(),
    {
        let i = self.lower_bound(value);
        if self.leaf {
            if i == self.count {
                return false;
            }
            return same(self.keys[i], value);
        }
        if i < self.count && same(value, self.keys[i]) {
            proof {
                let l = before(self.kids(), self.keys@, i as int);
                let c = self.children[i as int].seq();
                self.lemma_seq_around(i as int);
                assert(self.seq()[(l.len() + c.len()) as int] == value);
            }
            return true;
        }
        proof {
            self.lemma_child(-1, i as int);
            self.lemma_only_in_child(i as int, value);
        }
        let found = self.children[i].contains(value);
        found
    }
}

} // verus!
