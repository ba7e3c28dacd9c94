//! The in-order sequence of a node, as a function of its keys and of the
//! in-order sequences of its children, and how that sequence splits
//! around one child or around two neighbouring children.

use vstd::prelude::*;

verus! {

/// `kids[0] ++ [keys[0]] ++ kids[1] ++ [keys[1]] ++ .. ++ kids[n]`, for `n`
/// keys between `n + 1` child sequences.
pub open spec fn inorder<T>(kids: Seq<Seq<T>>, keys: Seq<T>) -> Seq<T>
    decreases kids.len(),
{
    if kids.len() == 0 {
        Seq::empty()
    } else if kids.len() == 1 {
        kids[0]
    } else {
        inorder(kids.drop_last(), keys.drop_last()) + seq![keys.last()] + kids.last()
    }
}

/// Everything that comes before child `i`: empty for the first child, else
/// the children and keys to its left, ending in `keys[i - 1]`.
pub open spec fn before<T>(kids: Seq<Seq<T>>, keys: Seq<T>, i: int) -> Seq<T> {
    if i <= 0 {
        Seq::empty()
    } else {
        inorder(kids.take(i), keys.take(i - 1)) + seq![keys[i - 1]]
    }
}

/// Everything that comes after child `i`: empty for the last child, else
/// `keys[i]` followed by the children and keys to its right.
pub open spec fn after<T>(kids: Seq<Seq<T>>, keys: Seq<T>, i: int) -> Seq<T> {
    if i >= keys.len() {
        Seq::empty()
    } else {
        seq![keys[i]] + inorder(kids.skip(i + 1), keys.skip(i + 1))
    }
}

/// Two runs of children, each with its keys, joined by one more key.
pub proof fn lemma_inorder_concat<T>(
    k1: Seq<Seq<T>>,
    y1: Seq<T>,
    x: T,
    k2: Seq<Seq<T>>,
    y2: Seq<T>,
)
    requires
        k1.len() == y1.len() + 1,
        k2.len() == y2.len() + 1,
    ensures
        inorder(k1 + k2, y1 + seq![x] + y2) == inorder(k1, y1) + seq![x] + inorder(k2, y2),
    decreases k2.len(),
{
    let kids = k1 + k2;
    let keys = y1 + seq![x] + y2;
    if k2.len() == 1 {
        assert(kids.drop_last() =~= k1);
        assert(keys.drop_last() =~= y1);
    } else {
        lemma_inorder_concat(k1, y1, x, k2.drop_last(), y2.drop_last());
        assert(kids.drop_last() =~= k1 + k2.drop_last());
        assert(keys.drop_last() =~= y1 + seq![x] + y2.drop_last());
    }
}

/// The sequence starts with the first child.
pub proof fn lemma_inorder_head<T>(kids: Seq<Seq<T>>, keys: Seq<T>)
    requires
        kids.len() == keys.len() + 1,
    ensures
        inorder(kids, keys) == kids[0] + after(kids, keys, 0),
{
    if keys.len() > 0 {
        let k1 = seq![kids[0]];
        let y1 = Seq::<T>::empty();
        lemma_inorder_concat(k1, y1, keys[0], kids.skip(1), keys.skip(1));
        assert(k1 + kids.skip(1) =~= kids);
        assert(y1 + seq![keys[0]] + keys.skip(1) =~= keys);
    }
}

/// The sequence is what comes before child `i`, then child `i`, then what
/// comes after it.
pub proof fn lemma_inorder_around<T>(kids: Seq<Seq<T>>, keys: Seq<T>, i: int)
    requires
        kids.len() == keys.len() + 1,
        0 <= i < kids.len(),
    ensures
        inorder(kids, keys) == before(kids, keys, i) + kids[i] + after(kids, keys, i),
{
    let rk = kids.skip(i);
    let ry = keys.skip(i);
    lemma_inorder_head(rk, ry);
    assert(after(rk, ry, 0) =~= after(kids, keys, i)) by {
        if i < keys.len() {
            assert(rk.skip(1) =~= kids.skip(i + 1));
            assert(ry.skip(1) =~= keys.skip(i + 1));
        }
    }
    if i == 0 {
        assert(rk =~= kids);
        assert(ry =~= keys);
    } else {
        lemma_inorder_concat(kids.take(i), keys.take(i - 1), keys[i - 1], rk, ry);
        assert(kids.take(i) + rk =~= kids);
        assert(keys.take(i - 1) + seq![keys[i - 1]] + ry =~= keys);
    }
}

/// The sequence around two neighbouring children and the key between them.
pub proof fn lemma_inorder_around_pair<T>(kids: Seq<Seq<T>>, keys: Seq<T>, i: int)
    requires
        kids.len() == keys.len() + 1,
        0 <= i < keys.len(),
    ensures
        inorder(kids, keys) == before(kids, keys, i) + kids[i] + seq![keys[i]] + kids[i + 1]
            + after(kids, keys, i + 1),
{
    let rk = kids.skip(i + 1);
    let ry = keys.skip(i + 1);
    lemma_inorder_around(kids, keys, i);
    lemma_inorder_head(rk, ry);
    assert(after(rk, ry, 0) =~= after(kids, keys, i + 1)) by {
        if i + 1 < keys.len() {
            assert(rk.skip(1) =~= kids.skip(i + 2));
            assert(ry.skip(1) =~= keys.skip(i + 2));
        }
    }
    assert(inorder(kids, keys) =~= before(kids, keys, i) + kids[i] + seq![keys[i]] + kids[i + 1]
        + after(kids, keys, i + 1));
}

/// Up to and including child `i`, the sequence is what comes before that
/// child, then the child.
pub proof fn lemma_inorder_take<T>(kids: Seq<Seq<T>>, keys: Seq<T>, i: int)
    requires
        kids.len() == keys.len() + 1,
        0 <= i < kids.len(),
    ensures
        inorder(kids.take(i + 1), keys.take(i)) == before(kids, keys, i) + kids[i],
{
    let tk = kids.take(i + 1);
    let ty = keys.take(i);
    if i > 0 {
        assert(tk.drop_last() =~= kids.take(i));
        assert(ty.drop_last() =~= keys.take(i - 1));
    }
}

} // verus!
