//! Moving keys between neighbouring children of a node: joining two of
//! them around the key between them, and passing one key from a child
//! through the parent to the child next to it.

use vstd::prelude::*;
use crate::inorder::lemma_inorder_concat;
use crate::node::Node;

verus! {

impl<T: PartialOrd + Copy> Node<T> {
    /// A node made of the keys and children of `self`, then the key `m`,
    /// then those of `b`, holds the sequences of both around `m`, and has
    /// their shape and height if it is not too large.
    pub proof fn lemma_merged(self, b: Self, m: T, c: Self)
        requires
            self.shape(self.t),
            b.shape(self.t),
            self.height() == b.height(),
            self.leaf == b.leaf,
            c.t == self.t,
            c.leaf == self.leaf,
            c.count == c.keys.len(),
            c.keys@ == self.keys@ + seq![m] + b.keys@,
            c.children@ == self.children@ + b.children@,
        ensures
            c.seq() == self.seq() + seq![m] + b.seq(),
            c.height() == self.height(),
            c.keys.len() <= 2 * self.t - 1 ==> c.shape(self.t),
    {
        let t = self.t;
        if !self.leaf {
            assert(c.children[0] == self.children[0]);
            assert forall|j: int| 0 <= j < c.children.len() implies {
                &&& (#[trigger] c.children[j]).shape_but(t, -1)
                &&& c.children[j].height() + 1 == c.height()
                &&& c.children[j].keys.len() >= t - 1
            } by {
                if j < self.children.len() {
                    assert(c.children[j] == self.children[j]);
                } else {
                    assert(c.children[j] == b.children[j - self.children.len()]);
                    assert(b.children[0].height() + 1 == b.height());
                }
            }
            assert(c.kids() =~= self.kids() + b.kids());
            lemma_inorder_concat(self.kids(), self.keys@, m, b.kids(), b.keys@);
        }
    }

    /// A node and the node that is left of it when its first key goes, and
    /// with it, unless they are leaves, its first child.
    pub proof fn lemma_front(self, rest: Self, k: T)
        requires
            rest.t == self.t,
            rest.leaf == self.leaf,
            self.count == self.keys.len(),
            rest.count == rest.keys.len(),
            self.keys@ == seq![k] + rest.keys@,
            self.leaf ==> self.children.len() == 0 && rest.children.len() == 0,
            !self.leaf ==> self.children.len() == self.keys.len() + 1 && rest.children@
                == self.children@.skip(1),
        ensures
            self.leaf ==> self.seq() == seq![k] + rest.seq(),
            !self.leaf ==> self.seq() == self.children[0].seq() + seq![k] + rest.seq(),
            self.shape(self.t) ==> rest.shape(self.t) && rest.height() == self.height(),
            rest.shape(self.t) && self.keys.len() <= 2 * self.t - 1 && (!self.leaf ==> {
                &&& self.children[0].shape(self.t)
                &&& self.children[0].height() + 1 == rest.height()
                &&& self.children[0].keys.len() >= self.t - 1
            }) ==> self.shape(self.t) && self.height() == rest.height(),
    {
        let t = self.t;
        if !self.leaf {
            let first = seq![self.children[0].seq()];
            assert(self.kids() =~= first + rest.kids());
            assert(self.keys@ =~= Seq::<T>::empty() + seq![k] + rest.keys@);
            lemma_inorder_concat(first, Seq::<T>::empty(), k, rest.kids(), rest.keys@);
            assert(rest.children[0] == self.children[1]);
            if self.shape(t) {
                assert forall|j: int| 0 <= j < rest.children.len() implies {
                    &&& (#[trigger] rest.children[j]).shape_but(t, -1)
                    &&& rest.children[j].height() + 1 == rest.height()
                    &&& rest.children[j].keys.len() >= t - 1
                } by {
                    assert(rest.children[j] == self.children[j + 1]);
                    assert(self.children[1].height() + 1 == self.height());
                    assert(self.children[0].height() + 1 == self.height());
                }
            }
            if rest.shape(t) && self.keys.len() <= 2 * t - 1 && self.children[0].shape(t)
                && self.children[0].height() + 1 == rest.height() && self.children[0].keys.len()
                >= t - 1 {
                assert forall|j: int| 0 <= j < self.children.len() implies {
                    &&& (#[trigger] self.children[j]).shape_but(t, -1)
                    &&& self.children[j].height() + 1 == self.height()
                    &&& self.children[j].keys.len() >= t - 1
                } by {
                    if j > 0 {
                        assert(self.children[j] == rest.children[j - 1]);
                    }
                }
            }
        }
    }

    /// A node and the node that is left of it when its last key goes, and
    /// with it, unless they are leaves, its last child.
    pub proof fn lemma_back(self, rest: Self, k: T)
        requires
            rest.t == self.t,
            rest.leaf == self.leaf,
            self.count == self.keys.len(),
            rest.count == rest.keys.len(),
            self.keys@ == rest.keys@ + seq![k],
            self.leaf ==> self.children.len() == 0 && rest.children.len() == 0,
            !self.leaf ==> self.children.len() == self.keys.len() + 1 && rest.children@
                == self.children@.drop_last(),
        ensures
            self.leaf ==> self.seq() == rest.seq() + seq![k],
            !self.leaf ==> self.seq() == rest.seq() + seq![k] + self.children@.last().seq(),
            self.shape(self.t) ==> rest.shape(self.t) && rest.height() == self.height(),
            rest.shape(self.t) && self.keys.len() <= 2 * self.t - 1 && (!self.leaf ==> {
                &&& self.children@.last().shape(self.t)
                &&& self.children@.last().height() + 1 == rest.height()
                &&& self.children@.last().keys.len() >= self.t - 1
            }) ==> self.shape(self.t) && self.height() == rest.height(),
    {
        let t = self.t;
        if !self.leaf {
            assert(self.kids().drop_last() =~= rest.kids());
            assert(self.keys@.drop_last() =~= rest.keys@);
            assert(self.kids().last() == self.children@.last().seq());
            assert(rest.children[0] == self.children[0]);
            if self.shape(t) {
                assert forall|j: int| 0 <= j < rest.children.len() implies {
                    &&& (#[trigger] rest.children[j]).shape_but(t, -1)
                    &&& rest.children[j].height() + 1 == rest.height()
                    &&& rest.children[j].keys.len() >= t - 1
                } by {
                    assert(rest.children[j] == self.children[j]);
                }
            }
            if rest.shape(t) && self.keys.len() <= 2 * t - 1 && self.children@.last().shape(t)
                && self.children@.last().height() + 1 == rest.height()
                && self.children@.last().keys.len() >= t - 1 {
                assert forall|j: int| 0 <= j < self.children.len() implies {
                    &&& (#[trigger] self.children[j]).shape_but(t, -1)
                    &&& self.children[j].height() + 1 == self.height()
                    &&& self.children[j].keys.len() >= t - 1
                } by {
                    if j < rest.children.len() {
                        assert(self.children[j] == rest.children[j]);
                    }
                }
            }
        }
    }
    /// A node keeps its shape and height when the children `i` and `i + 1`
    /// give way to nodes of the right shape and of their heights that hold
    /// enough keys.
    pub proof fn lemma_pair_replaced(self, other: Self, i: int, hole: int)
        requires
            self.shape_but(self.t, hole),
            hole == -1 || hole == i || hole == i + 1,
            !self.leaf,
            !other.leaf,
            0 <= i,
            i + 1 < self.children.len(),
            other.t == self.t,
            other.count == other.keys.len(),
            other.keys.len() == self.keys.len(),
            other.children.len() == self.children.len(),
            forall|j: int|
                0 <= j < self.children.len() && j != i && j != i + 1 ==> other.children[j]
                    == self.children[j],
            other.children[i].shape(self.t),
            other.children[i + 1].shape(self.t),
            other.children[i].height() == self.children[i].height(),
            other.children[i + 1].height() == self.children[i + 1].height(),
            other.children[i].keys.len() >= self.t - 1,
            other.children[i + 1].keys.len() >= self.t - 1,
        ensures
            other.shape(self.t),
            other.height() == self.height(),
    {
        let t = self.t;
        assert(self.children[0].height() + 1 == self.height());
        assert(self.children[i].height() + 1 == self.height());
        assert(self.children[i + 1].height() + 1 == self.height());
        assert(other.children[0].height() + 1 == self.height()) by {
            if i != 0 {
                assert(other.children[0] == self.children[0]);
            }
        }
        assert forall|j: int| 0 <= j < other.children.len() implies {
            &&& (#[trigger] other.children[j]).shape_but(t, -1)
            &&& other.children[j].height() + 1 == other.height()
            &&& other.children[j].keys.len() >= t - 1
        } by {
            if j != i && j != i + 1 {
                assert(other.children[j] == self.children[j]);
            }
        }
    }

    /// A node keeps its shape and height when the children `i` and `i + 1`
    /// and the key between them give way to one node of the right shape
    /// and of their height that holds enough keys.
    pub proof fn lemma_pair_joined(self, other: Self, i: int, hole: int)
        requires
            self.shape_but(self.t, hole),
            hole == -1 || hole == i || hole == i + 1,
            !self.leaf,
            !other.leaf,
            0 <= i,
            i + 1 < self.children.len(),
            other.t == self.t,
            other.count == other.keys.len(),
            other.keys.len() + 1 == self.keys.len(),
            other.children.len() + 1 == self.children.len(),
            forall|j: int| 0 <= j < i ==> other.children[j] == self.children[j],
            forall|j: int|
                i < j < other.children.len() ==> other.children[j] == self.children[j + 1],
            other.children[i].shape(self.t),
            other.children[i].height() == self.children[i].height(),
            other.children[i].keys.len() >= self.t - 1,
        ensures
            other.shape(self.t),
            other.height() == self.height(),
    {
        let t = self.t;
        assert(self.children[0].height() + 1 == self.height());
        assert(self.children[i].height() + 1 == self.height());
        assert(other.children[0].height() + 1 == self.height()) by {
            if i != 0 {
                assert(other.children[0] == self.children[0]);
            }
        }
        assert forall|j: int| 0 <= j < other.children.len() implies {
            &&& (#[trigger] other.children[j]).shape_but(t, -1)
            &&& other.children[j].height() + 1 == other.height()
            &&& other.children[j].keys.len() >= t - 1
        } by {
            if j < i {
                assert(other.children[j] == self.children[j]);
            } else if j > i {
                assert(other.children[j] == self.children[j + 1]);
            }
        }
    }

    /// Joins the child at `target` with a neighbour: with the one to its
    /// left if it has one, else with the one to its right. The left one of
    /// the two takes `delimiter` and then the keys and children of the
    /// right one, which leaves `children`. Returns the place of the joined
    /// node.
    pub fn merge(children: &mut Vec<Box<Node<T>>>, target: usize, delimiter: T) -> (r: usize)
        requires
            old(children).len() >= 2,
            target < old(children).len(),
        ensures
            r == (if target > 0 {
                target - 1
            } else {
                0
            }),
            final(children).len() == old(children).len() - 1,
            forall|j: int| 0 <= j < r ==> final(children)[j] == old(children)[j],
            forall|j: int| r < j < final(children).len() ==> final(children)[j] == old(children)[j + 1],
            final(children)[r as int].keys@ == old(children)[r as int].keys@ + seq![delimiter]
                + old(children)[r + 1].keys@,
            final(children)[r as int].children@ == old(children)[r as int].children@ + old(children)[r + 1].children@,
            final(children)[r as int].leaf == old(children)[r as int].leaf,
            final(children)[r as int].t == old(children)[r as int].t,
            final(children)[r as int].count == final(children)[r as int].keys.len(),
    {
        let (left, _, _) = Self::siblings(children, target);
        let at = match left {
            Some(l) => l,
            None => target,
        };
        let mut right = children.remove(at + 1);
        let node = &mut children[at];
        node.keys.push(delimiter);
        node.keys.append(&mut right.keys);
        node.children.append(&mut right.children);
        node.count = node.keys.len();
        at
    }

    /// Takes the last key off this node and, unless it is a leaf, its last
    /// child.
    pub fn pop_back(&mut self) -> (r: (T, Option<Box<Node<T>>>))
        requires
            old(self).shape(old(self).t),
            old(self).keys.len() >= 1,
        ensures
            final(self).shape(old(self).t),
            final(self).height() == old(self).height(),
            final(self).leaf == old(self).leaf,
            final(self).keys@ == old(self).keys@.drop_last(),
            r.0 == old(self).keys@.last(),
            old(self).leaf ==> r.1.is_none() && old(self).seq() == final(self).seq() + seq![r.0],
            !old(self).leaf ==> {
                &&& r.1 == Some(old(self).children@.last())
                &&& final(self).children@ == old(self).children@.drop_last()
                &&& old(self).seq() == final(self).seq() + seq![r.0] + old(self).children@.last().seq()
                &&& old(self).children@.last().shape(old(self).t)
                &&& old(self).children@.last().height() + 1 == old(self).height()
                &&& old(self).children@.last().keys.len() >= old(self).t - 1
            },
    {
        let key = self.keys.pop().unwrap();
        let child = self.children.pop();
        self.count = self.count - 1;
        proof {
            assert(old(self).keys@ =~= self.keys@ + seq![key]);
            if !self.leaf {
                assert(self.children@ =~= old(self).children@.drop_last());
                old(self).lemma_child(-1, old(self).children.len() - 1);
            }
            old(self).lemma_back(*self, key);
        }
        (key, child)
    }

    /// Takes the first key off this node and, unless it is a leaf, its first
    /// child.
    pub fn pop_front(&mut self) -> (r: (T, Option<Box<Node<T>>>))
        requires
            old(self).shape(old(self).t),
            old(self).keys.len() >= 1,
        ensures
            final(self).shape(old(self).t),
            final(self).height() == old(self).height(),
            final(self).leaf == old(self).leaf,
            final(self).keys@ == old(self).keys@.skip(1),
            r.0 == old(self).keys[0],
            old(self).leaf ==> r.1.is_none() && old(self).seq() == seq![r.0] + final(self).seq(),
            !old(self).leaf ==> {
                &&& r.1 == Some(old(self).children[0])
                &&& final(self).children@ == old(self).children@.skip(1)
                &&& old(self).seq() == old(self).children[0].seq() + seq![r.0] + final(self).seq()
                &&& old(self).children[0].shape(old(self).t)
                &&& old(self).children[0].height() + 1 == old(self).height()
                &&& old(self).children[0].keys.len() >= old(self).t - 1
            },
    {
        let key = self.keys.remove(0);
        let child = if self.leaf {
            None
        } else {
            Some(self.children.remove(0))
        };
        self.count = self.count - 1;
        proof {
            assert(old(self).keys@ =~= seq![key] + self.keys@);
            if !self.leaf {
                assert(self.children@ =~= old(self).children@.skip(1));
                old(self).lemma_child(-1, 0);
            }
            old(self).lemma_front(*self, key);
        }
        (key, child)
    }

    /// Puts `key` in front of the keys of this node and, unless it is a
    /// leaf, `child` in front of its children.
    pub fn push_front(&mut self, key: T, child: Option<Box<Node<T>>>)
        requires
            old(self).shape(old(self).t),
            old(self).keys.len() < 2 * old(self).t - 1,
            child.is_none() == old(self).leaf,
            child matches Some(c) ==> {
                &&& c.shape(old(self).t)
                &&& c.height() + 1 == old(self).height()
                &&& c.keys.len() >= old(self).t - 1
            },
        ensures
            final(self).shape(old(self).t),
            final(self).height() == old(self).height(),
            final(self).leaf == old(self).leaf,
            final(self).keys@ == seq![key] + old(self).keys@,
            old(self).leaf ==> final(self).seq() == seq![key] + old(self).seq(),
            !old(self).leaf ==> {
                &&& final(self).children@ == seq![child.unwrap()] + old(self).children@
                &&& final(self).seq() == child.unwrap().seq() + seq![key] + old(self).seq()
            },
    {
        self.keys.insert(0, key);
        match child {
            Some(c) => {
                self.children.insert(0, c);
            },
            None => {},
        }
        self.count = self.count + 1;
        proof {
            assert(self.keys@ =~= seq![key] + old(self).keys@);
            if !self.leaf {
                assert(self.children@ =~= seq![child.unwrap()] + old(self).children@);
                assert(self.children@.skip(1) =~= old(self).children@);
            }
            self.lemma_front(*old(self), key);
        }
    }

    /// Puts `key` behind the keys of this node and, unless it is a leaf,
    /// `child` behind its children.
    pub fn push_back(&mut self, key: T, child: Option<Box<Node<T>>>)
        requires
            old(self).shape(old(self).t),
            old(self).keys.len() < 2 * old(self).t - 1,
            child.is_none() == old(self).leaf,
            child matches Some(c) ==> {
                &&& c.shape(old(self).t)
                &&& c.height() + 1 == old(self).height()
                &&& c.keys.len() >= old(self).t - 1
            },
        ensures
            final(self).shape(old(self).t),
            final(self).height() == old(self).height(),
            final(self).leaf == old(self).leaf,
            final(self).keys@ == old(self).keys@ + seq![key],
            old(self).leaf ==> final(self).seq() == old(self).seq() + seq![key],
            !old(self).leaf ==> {
                &&& final(self).children@ == old(self).children@ + seq![child.unwrap()]
                &&& final(self).seq() == old(self).seq() + seq![key] + child.unwrap().seq()
            },
    {
        self.keys.push(key);
        match child {
            Some(c) => {
                self.children.push(c);
            },
            None => {},
        }
        self.count = self.count + 1;
        proof {
            assert(self.keys@ =~= old(self).keys@ + seq![key]);
            if !self.leaf {
                assert(self.children@ =~= old(self).children@ + seq![child.unwrap()]);
                assert(self.children@.drop_last() =~= old(self).children@);
            }
            self.lemma_back(*old(self), key);
        }
    }

    /// Passes one key from the child left of `i` to the child at `i`: the
    /// last key of the left child goes up into this node, and the key that
    /// stood between the two children goes down to the front of child `i`.
    /// The last child of the left child, if it has children, goes over too.
    pub fn borrow_from_left(&mut self, i: usize)
        requires
            old(self).shape_but(old(self).t, i as int),
            !old(self).leaf,
            1 <= i < old(self).children.len(),
            old(self).children[i - 1].keys.len() >= old(self).t,
            old(self).children[i as int].keys.len() < 2 * old(self).t - 1,
            old(self).children[i as int].keys.len() + 2 >= old(self).t,
        ensures
            final(self).shape(old(self).t),
            !final(self).leaf,
            final(self).height() == old(self).height(),
            final(self).seq() == old(self).seq(),
            final(self).keys@ == old(self).keys@.update(
                i - 1,
                old(self).children[i - 1].keys@.last(),
            ),
            final(self).children.len() == old(self).children.len(),
            forall|j: int|
                0 <= j < old(self).children.len() && j != i && j != i - 1 ==> final(self).children[j]
                    == old(self).children[j],
            final(self).children[i - 1].keys@ == old(self).children[i - 1].keys@.drop_last(),
            final(self).children[i as int].keys@ == seq![old(self).keys[i - 1]] + old(self).children[i as int].keys@,
            final(self).children[i as int].leaf == old(self).children[i as int].leaf,
            !old(self).children[i as int].leaf ==> {
                &&& final(self).children[i - 1].children@ == old(self).children[i - 1].children@.drop_last()
                &&& final(self).children[i as int].children@ == seq![
                    old(self).children[i - 1].children@.last(),
                ] + old(self).children[i as int].children@
            },
    {
        proof {
            self.lemma_child(i as int, i - 1);
            self.lemma_child(i as int, i as int);
        }
        let (up, over) = self.children[i - 1].pop_back();
        let down = self.keys[i - 1];
        self.keys[i - 1] = up;
        self.children[i].push_front(down, over);
        proof {
            let l0 = old(self).children[i - 1];
            let g0 = old(self).children[i as int];
            let l1 = self.children[i - 1];
            let g1 = self.children[i as int];
            old(self).lemma_pair_replaced(*self, i - 1, i as int);
            assert(l1.seq() + seq![up] + g1.seq() =~= l0.seq() + seq![down] + g0.seq());
            old(self).lemma_same_pair(*self, i - 1);
        }
    }

    /// Passes one key from the child right of `i` to the child at `i`: the
    /// first key of the right child goes up into this node, and the key that
    /// stood between the two children goes down to the end of child `i`.
    /// The first child of the right child, if it has children, goes over too.
    pub fn borrow_from_right(&mut self, i: usize)
        requires
            old(self).shape_but(old(self).t, i as int),
            !old(self).leaf,
            i + 1 < old(self).children.len(),
            old(self).children[i + 1].keys.len() >= old(self).t,
            old(self).children[i as int].keys.len() < 2 * old(self).t - 1,
            old(self).children[i as int].keys.len() + 2 >= old(self).t,
        ensures
            final(self).shape(old(self).t),
            !final(self).leaf,
            final(self).height() == old(self).height(),
            final(self).seq() == old(self).seq(),
            final(self).keys@ == old(self).keys@.update(
                i as int,
                old(self).children[i + 1].keys[0],
            ),
            final(self).children.len() == old(self).children.len(),
            forall|j: int|
                0 <= j < old(self).children.len() && j != i && j != i + 1 ==> final(self).children[j]
                    == old(self).children[j],
            final(self).children[i + 1].keys@ == old(self).children[i + 1].keys@.skip(1),
            final(self).children[i as int].keys@ == old(self).children[i as int].keys@ + seq![
                old(self).keys[i as int],
            ],
            final(self).children[i as int].leaf == old(self).children[i as int].leaf,
            !old(self).children[i as int].leaf ==> {
                &&& final(self).children[i + 1].children@ == old(self).children[i + 1].children@.skip(1)
                &&& final(self).children[i as int].children@ == old(self).children[i as int].children@ + seq![old(self).children[i + 1].children[0]]
            },
    {
        proof {
            self.lemma_child(i as int, i + 1);
            self.lemma_child(i as int, i as int);
        }
        let (up, over) = self.children[i + 1].pop_front();
        let down = self.keys[i];
        self.keys[i] = up;
        self.children[i].push_back(down, over);
        proof {
            let r0 = old(self).children[i + 1];
            let g0 = old(self).children[i as int];
            let r1 = self.children[i + 1];
            let g1 = self.children[i as int];
            old(self).lemma_pair_replaced(*self, i as int, i as int);
            assert(g1.seq() + seq![up] + r1.seq() =~= g0.seq() + seq![down] + r0.seq());
            old(self).lemma_same_pair(*self, i as int);
        }
    }

    /// The place of the left one of the two children that are joined when
    /// the child at `i` is joined with a neighbour.
    pub open spec fn join_place(i: int) -> int {
        if i > 0 {
            i - 1
        } else {
            0
        }
    }

    /// Joins the child at `i` with a neighbour, its left one if it has one,
    /// around the key between them, which leaves this node. Returns the
    /// place of the joined node.
    pub fn join_children(&mut self, i: usize) -> (r: usize)
        requires
            old(self).shape_but(old(self).t, i as int),
            !old(self).leaf,
            old(self).keys.len() >= 1,
            i < old(self).children.len(),
            old(self).children[Self::join_place(i as int)].keys.len() + old(self).children[Self::join_place(i as int) + 1].keys.len() + 1 <= 2 * old(self).t - 1,
        ensures
            r == Self::join_place(i as int),
            final(self).shape(old(self).t),
            !final(self).leaf,
            final(self).height() == old(self).height(),
            final(self).seq() == old(self).seq(),
            final(self).keys@ == old(self).keys@.remove(r as int),
            final(self).children.len() == old(self).children.len() - 1,
            forall|j: int| 0 <= j < r ==> final(self).children[j] == old(self).children[j],
            forall|j: int|
                r < j < final(self).children.len() ==> final(self).children[j] == old(self).children[j + 1],
            final(self).children[r as int].keys@ == old(self).children[r as int].keys@ + seq![
                old(self).keys[r as int],
            ] + old(self).children[r + 1].keys@,
            final(self).children[r as int].children@ == old(self).children[r as int].children@
                + old(self).children[r + 1].children@,
            final(self).children[r as int].leaf == old(self).children[i as int].leaf,
    {
        let ghost t = self.t;
        let delim = if i > 0 {
            self.keys[i - 1]
        } else {
            self.keys[i]
        };
        let at = Self::merge(&mut self.children, i, delim);
        self.keys.remove(at);
        self.count = self.count - 1;
        proof {
            let a = old(self).children[at as int];
            let b = old(self).children[at + 1];
            let c = self.children[at as int];
            old(self).lemma_child(i as int, at as int);
            old(self).lemma_child(i as int, at + 1);
            old(self).lemma_child(i as int, i as int);
            a.lemma_merged(*b, delim, *c);
            assert(c.shape(t));
            old(self).lemma_pair_joined(*self, at as int, i as int);
            assert(old(self).keys@ =~= self.keys@.insert(at as int, delim));
            assert(self.keys@ =~= old(self).keys@.remove(at as int));
            old(self).lemma_pair_or_one(*self, at as int, delim);
        }
        at
    }

    /// There is a child at `j`, and it holds more keys than it must.
    pub open spec fn can_spare(self, j: int) -> bool {
        0 <= j < self.children.len() && self.children[j].keys.len() >= self.t
    }

    /// The keys of the child at `i` once it has been refilled, or as they
    /// are if it holds `t` keys or more. A left neighbour with keys to spare
    /// sends the key that stands before the child to its front; else a right
    /// neighbour with keys to spare sends the key that stands behind it to
    /// its end; else the child is joined with its left neighbour around the
    /// key between them or, if it is the first child, with its right one.
    pub open spec fn refilled_keys(self, i: int) -> Seq<T> {
        let own = self.children[i].keys@;
        if own.len() >= self.t {
            own
        } else if self.can_spare(i - 1) {
            seq![self.keys[i - 1]] + own
        } else if self.can_spare(i + 1) {
            own + seq![self.keys[i]]
        } else if i > 0 {
            self.children[i - 1].keys@ + seq![self.keys[i - 1]] + own
        } else {
            own + seq![self.keys[i]] + self.children[i + 1].keys@
        }
    }

    /// The place at which the child at `i` stands once it has been refilled:
    /// its own, unless it was joined with its left neighbour.
    pub open spec fn refilled_place(self, i: int) -> int {
        if self.children[i].keys.len() >= self.t || self.can_spare(i - 1) || self.can_spare(
            i + 1,
        ) {
            i
        } else {
            Self::join_place(i)
        }
    }

    /// Gives the child at `i`, which holds few keys, more of them: a key
    /// from its left neighbour if that one can spare it, else one from its
    /// right neighbour if that one can, else it is joined with a neighbour
    /// around the key between them, which leaves this node. Returns the
    /// place at which the child, or the node it became part of, now stands.
    pub fn refill(&mut self, i: usize) -> (r: usize)
        requires
            old(self).shape_but(old(self).t, i as int),
            !old(self).leaf,
            old(self).keys.len() >= 1,
            i < old(self).children.len(),
            old(self).children[i as int].keys.len() + 2 >= old(self).t,
            old(self).children[i as int].keys.len() <= old(self).t - 1,
        ensures
            final(self).shape(old(self).t),
            !final(self).leaf,
            final(self).height() == old(self).height(),
            final(self).seq() == old(self).seq(),
            old(self).keys.len() <= final(self).keys.len() + 1,
            final(self).keys.len() <= old(self).keys.len(),
            r == old(self).refilled_place(i as int),
            r < final(self).children.len(),
            final(self).children[r as int].leaf == old(self).children[i as int].leaf,
            final(self).children[r as int].keys.len() > old(self).children[i as int].keys.len(),
            final(self).children[r as int].keys@ == old(self).refilled_keys(i as int),
            old(self).can_spare(i - 1) ==> final(self).keys@ == old(self).keys@.update(
                i - 1,
                old(self).children[i - 1].keys@.last(),
            ),
            !old(self).can_spare(i - 1) && old(self).can_spare(i + 1) ==> final(self).keys@ == old(self).keys@.update(i as int, old(self).children[i + 1].keys[0]),
            !old(self).can_spare(i - 1) && !old(self).can_spare(i + 1) ==> final(self).keys@
                == old(self).keys@.remove(r as int),
    {
        let (left, _, right) = Self::siblings(&self.children, i);
        match left {
            Some(l) => {
                proof {
                    self.lemma_child(i as int, l as int);
                }
                if self.children[l].count >= self.t {
                    self.borrow_from_left(i);
                    return i;
                }
            },
            None => {},
        }
        match right {
            Some(r) => {
                proof {
                    self.lemma_child(i as int, r as int);
                }
                if self.children[r].count >= self.t {
                    self.borrow_from_right(i);
                    return i;
                }
            },
            None => {},
        }
        self.join_children(i)
    }
}

} // verus!
