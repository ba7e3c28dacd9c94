//! Sorted sequences of keys: where a key goes in, which key comes out, and
//! why neither depends on the choice among equal keys.

use vstd::prelude::*;
use crate::order::{le, lt, total_order};

verus! {

/// No element comes before an earlier one.
pub open spec fn sorted<T: PartialOrd>(s: Seq<T>) -> bool {
    forall|i: int, j: int| 0 <= i <= j < s.len() ==> le(#[trigger] s[i], #[trigger] s[j])
}

/// `v` may go in at position `p` of `s`: what stands before that position
/// does not come after `v`, and what stands at it does not come before `v`.
pub open spec fn fits<T: PartialOrd>(s: Seq<T>, p: int, v: T) -> bool {
    &&& 0 <= p <= s.len()
    &&& p > 0 ==> le(s[p - 1], v)
    &&& p < s.len() ==> le(v, s[p])
}

/// `p` is the last position at which `v` fits in `s`: what stands before
/// it does not come after `v`, and all that follows does.
pub open spec fn fits_last<T: PartialOrd>(s: Seq<T>, p: int, v: T) -> bool {
    &&& 0 <= p <= s.len()
    &&& p > 0 ==> le(s[p - 1], v)
    &&& forall|j: int| p <= j < s.len() ==> lt(v, #[trigger] s[j])
}

/// The place behind the last key of `keys` that comes strictly before `v`;
/// 0 if there is none. In an inner node with these keys, this is the child
/// in which `v` goes down.
pub open spec fn slot<T: PartialOrd>(keys: Seq<T>, v: T) -> int
    decreases keys.len(),
{
    if keys.len() == 0 {
        0
    } else if lt(keys.last(), v) {
        keys.len() as int
    } else {
        slot(keys.drop_last(), v)
    }
}

/// `r` is `s` with `v` put in at a position where it fits.
pub open spec fn inserted<T: PartialOrd>(s: Seq<T>, r: Seq<T>, v: T) -> bool {
    exists|p: int| #[trigger] fits(s, p, v) && r == s.insert(p, v)
}

/// `p` is a position of `v` in `s`.
pub open spec fn stands_at<T>(s: Seq<T>, p: int, v: T) -> bool {
    0 <= p < s.len() && s[p] == v
}

/// `p` is the first position of `v` in `s`.
pub open spec fn first_at<T>(s: Seq<T>, p: int, v: T) -> bool {
    stands_at(s, p, v) && forall|j: int| 0 <= j < p ==> s[j] != v
}

/// `r` is `s` with one `v` taken out.
pub open spec fn removed<T>(s: Seq<T>, r: Seq<T>, v: T) -> bool {
    exists|p: int| #[trigger] stands_at(s, p, v) && r == s.remove(p)
}

/// The number of elements of `s` that come strictly before `v`.
pub open spec fn rank<T: PartialOrd>(s: Seq<T>, v: T) -> nat
    decreases s.len(),
{
    if s.len() == 0 {
        0
    } else {
        rank(s.drop_last(), v) + if lt(s.last(), v) {
            1nat
        } else {
            0nat
        }
    }
}

/// `s` with `v` put in behind the elements that come strictly before it.
pub open spec fn insert_sorted<T: PartialOrd>(s: Seq<T>, v: T) -> Seq<T> {
    s.insert(rank(s, v) as int, v)
}

/// `s` without the first of its elements that are not before `v`; on a
/// sorted `s` that holds `v`, this takes out one `v`.
pub open spec fn remove_sorted<T: PartialOrd>(s: Seq<T>, v: T) -> Seq<T> {
    s.remove(rank(s, v) as int)
}

/// In a sorted sequence the elements before `v` are exactly the first
/// `rank(s, v)` ones.
pub proof fn lemma_rank<T: PartialOrd>(s: Seq<T>, v: T)
    requires
        total_order::<T>(),
        sorted(s),
    ensures
        rank(s, v) <= s.len(),
        forall|i: int| 0 <= i < rank(s, v) ==> lt(#[trigger] s[i], v),
        forall|i: int| rank(s, v) <= i < s.len() ==> le(v, #[trigger] s[i]),
    decreases s.len(),
{
    if s.len() > 0 {
        let d = s.drop_last();
        assert(sorted(d));
        lemma_rank(d, v);
        assert forall|i: int| 0 <= i < rank(s, v) implies lt(#[trigger] s[i], v) by {
            if i < d.len() {
                assert(d[i] == s[i]);
            }
        }
        assert forall|i: int| rank(s, v) <= i < s.len() implies le(v, #[trigger] s[i]) by {
            if i < d.len() {
                assert(d[i] == s[i]);
            }
        }
    }
}

/// A sorted sequence stays sorted when a key goes in where it fits.
pub proof fn lemma_sorted_insert<T: PartialOrd>(s: Seq<T>, p: int, v: T)
    requires
        total_order::<T>(),
        sorted(s),
        fits(s, p, v),
    ensures
        sorted(s.insert(p, v)),
{
}

/// A sorted sequence stays sorted when an element comes out.
pub proof fn lemma_sorted_remove<T: PartialOrd>(s: Seq<T>, p: int)
    requires
        sorted(s),
        0 <= p < s.len(),
    ensures
        sorted(s.remove(p)),
{
}

/// A stretch of a sorted sequence is sorted.
pub proof fn lemma_sorted_part<T: PartialOrd>(a: Seq<T>, b: Seq<T>, c: Seq<T>)
    requires
        sorted(a + b + c),
    ensures
        sorted(b),
{
    let s = a + b + c;
    assert forall|i: int, j: int| 0 <= i <= j < b.len() implies le(
        #[trigger] b[i],
        #[trigger] b[j],
    ) by {
        assert(s[a.len() + i] == b[i] && s[a.len() + j] == b[j]);
    }
}

/// In a sorted `l ++ c ++ r` where `l` ends before `v` and `r` starts
/// after it, `v` can only stand in `c`.
pub proof fn lemma_sorted_between<T: PartialOrd>(l: Seq<T>, c: Seq<T>, r: Seq<T>, v: T, p: int)
    requires
        total_order::<T>(),
        sorted(l + c + r),
        l.len() > 0 ==> lt(l.last(), v),
        r.len() > 0 ==> lt(v, r[0]),
        0 <= p < (l + c + r).len(),
        (l + c + r)[p] == v,
    ensures
        l.len() <= p < l.len() + c.len(),
{
    let s = l + c + r;
    if p < l.len() {
        assert(s[l.len() - 1] == l.last());
    } else if p >= l.len() + c.len() {
        let k = (l.len() + c.len()) as int;
        assert(s[k] == r[0]);
    }
}

/// Where a key fits in a sorted sequence, putting it in gives the same
/// sequence as `insert_sorted`.
pub proof fn lemma_insert_sorted<T: PartialOrd>(s: Seq<T>, p: int, v: T)
    requires
        total_order::<T>(),
        sorted(s),
        fits(s, p, v),
    ensures
        s.insert(p, v) == insert_sorted(s, v),
        sorted(insert_sorted(s, v)),
{
    lemma_rank(s, v);
    lemma_sorted_insert(s, p, v);
    assert(s.insert(p, v) =~= s.insert(rank(s, v) as int, v));
}

/// Taking any one `v` out of a sorted sequence gives the same sequence as
/// `remove_sorted`.
pub proof fn lemma_remove_sorted<T: PartialOrd>(s: Seq<T>, p: int, v: T)
    requires
        total_order::<T>(),
        sorted(s),
        0 <= p < s.len(),
        s[p] == v,
    ensures
        rank(s, v) < s.len(),
        s[rank(s, v) as int] == v,
        s.remove(p) == remove_sorted(s, v),
        sorted(remove_sorted(s, v)),
{
    lemma_rank(s, v);
    lemma_sorted_remove(s, p);
    assert(s.remove(p) =~= s.remove(rank(s, v) as int));
}

/// What goes into the middle stretch of a sequence, and agrees with the
/// ends of the stretches around it, goes into the whole.
pub proof fn lemma_inserted_middle<T: PartialOrd>(b: Seq<T>, c: Seq<T>, d: Seq<T>, a: Seq<T>, v: T)
    requires
        inserted(c, d, v),
        b.len() > 0 ==> le(b.last(), v),
        a.len() > 0 ==> le(v, a[0]),
    ensures
        inserted(b + c + a, b + d + a, v),
{
    let q = choose|q: int| #[trigger] fits(c, q, v) && d == c.insert(q, v);
    let p = b.len() + q;
    let s = b + c + a;
    assert(b + d + a =~= s.insert(p, v));
    assert(fits(s, p, v));
}

/// What comes out of the middle stretch of a sequence comes out of the
/// whole.
pub proof fn lemma_removed_middle<T>(b: Seq<T>, c: Seq<T>, d: Seq<T>, a: Seq<T>, v: T)
    requires
        removed(c, d, v),
    ensures
        removed(b + c + a, b + d + a, v),
{
    let q = choose|q: int| #[trigger] stands_at(c, q, v) && d == c.remove(q);
    let p = b.len() + q;
    let s = b + c + a;
    assert(b + d + a =~= s.remove(p));
    assert(stands_at(s, p, v));
}

/// Taking one `v` out of a sorted sequence gives `remove_sorted`, which is
/// sorted.
pub proof fn lemma_removed_sorted<T: PartialOrd>(s: Seq<T>, r: Seq<T>, v: T)
    requires
        total_order::<T>(),
        sorted(s),
        removed(s, r, v),
    ensures
        r == remove_sorted(s, v),
        sorted(r),
        r.len() == s.len() - 1,
{
    let p = choose|p: int| #[trigger] stands_at(s, p, v) && r == s.remove(p);
    lemma_remove_sorted(s, p, v);
}

/// Putting `v` into a sorted sequence where it fits gives `insert_sorted`,
/// which is sorted.
pub proof fn lemma_inserted_sorted<T: PartialOrd>(s: Seq<T>, r: Seq<T>, v: T)
    requires
        total_order::<T>(),
        sorted(s),
        inserted(s, r, v),
    ensures
        r == insert_sorted(s, v),
        sorted(r),
        r.len() == s.len() + 1,
{
    let p = choose|p: int| #[trigger] fits(s, p, v) && r == s.insert(p, v);
    lemma_insert_sorted(s, p, v);
}

/// `remove_sorted` takes one `v` out of a sorted sequence that holds it.
pub proof fn lemma_remove_sorted_takes<T: PartialOrd>(s: Seq<T>, v: T)
    requires
        total_order::<T>(),
        sorted(s),
        s.contains(v),
    ensures
        removed(s, remove_sorted(s, v), v),
        remove_sorted(s, v).len() == s.len() - 1,
{
    let p = choose|p: int| 0 <= p < s.len() && s[p] == v;
    lemma_remove_sorted(s, p, v);
    assert(stands_at(s, rank(s, v) as int, v));
}

} // verus!
