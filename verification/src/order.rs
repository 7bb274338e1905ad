//! Sorting: a merge sort for vectors of small values that have a total
//! order.

use vstd::prelude::*;

verus! {

/// Values with a total order.
pub trait Ordered: Sized {
    /// `a` stands before `b` in the order, or is equal to it.
    spec fn precedes(a: Self, b: Self) -> bool;

    /// Of two values one precedes the other, and what precedes a value
    /// precedes what that value precedes.
    proof fn lemma_order()
        ensures
            forall|a: Self, b: Self| #[trigger] Self::precedes(a, b) || Self::precedes(b, a),
            forall|a: Self, b: Self, c: Self|
                #![trigger Self::precedes(a, b), Self::precedes(b, c)]
                Self::precedes(a, b) && Self::precedes(b, c) ==> Self::precedes(a, c),
    ;

    /// Whether `a` precedes `b`.
    fn comes_before(a: &Self, b: &Self) -> (r: bool)
        ensures
            r == Self::precedes(*a, *b),
    ;
}

/// Each value of `s` precedes those after it.
pub open spec fn is_sorted<T: Ordered>(s: Seq<T>) -> bool {
    forall|i: int, j: int| 0 <= i < j < s.len() ==> T::precedes(#[trigger] s[i], #[trigger] s[j])
}

/// A sequence followed by another holds what the two hold.
pub(crate) proof fn lemma_concat_multiset<T>(a: Seq<T>, b: Seq<T>)
    ensures
        (a + b).to_multiset() =~= a.to_multiset().add(b.to_multiset()),
    decreases b.len(),
{
    broadcast use vstd::multiset::group_multiset_axioms;

    if b.len() == 0 {
        assert(a + b =~= a);
        b.to_multiset_ensures();
        assert(b.to_multiset() =~= vstd::multiset::Multiset::<T>::empty());
    } else {
        let rest = b.drop_last();
        lemma_concat_multiset(a, rest);
        assert((a + rest).push(b.last()) =~= a + b);
        assert(rest.push(b.last()) =~= b);
        (a + rest).to_multiset_ensures();
        rest.to_multiset_ensures();
    }
}

/// The first `n + 1` values of a sequence hold what the first `n` hold, and
/// the value at `n`.
proof fn lemma_take_one_more<T>(s: Seq<T>, n: int)
    requires
        0 <= n < s.len(),
    ensures
        s.take(n + 1).to_multiset() =~= s.take(n).to_multiset().insert(s[n]),
{
    assert(s.take(n + 1) =~= s.take(n).push(s[n]));
    s.take(n).to_multiset_ensures();
}

/// Merges two sorted vectors into one.
fn merge<T: Ordered + Copy>(left: &Vec<T>, right: &Vec<T>) -> (out: Vec<T>)
    requires
        is_sorted(left@),
        is_sorted(right@),
    ensures
        is_sorted(out@),
        out@.to_multiset() == left@.to_multiset().add(right@.to_multiset()),
{
    broadcast use vstd::multiset::group_multiset_axioms;

    let mut out: Vec<T> = Vec::new();
    let mut i: usize = 0;
    let mut j: usize = 0;
    proof {
        T::lemma_order();
        left@.take(0).to_multiset_ensures();
        right@.take(0).to_multiset_ensures();
        out@.to_multiset_ensures();
        assert(left@.take(0).to_multiset() =~= vstd::multiset::Multiset::<T>::empty());
        assert(right@.take(0).to_multiset() =~= vstd::multiset::Multiset::<T>::empty());
        assert(out@.to_multiset() =~= vstd::multiset::Multiset::<T>::empty());
    }
    while i < left.len() || j < right.len()
        invariant
            0 <= i <= left.len(),
            0 <= j <= right.len(),
            is_sorted(left@),
            is_sorted(right@),
            is_sorted(out@),
            out@.to_multiset() == left@.take(i as int).to_multiset().add(
                right@.take(j as int).to_multiset(),
            ),
            forall|k: int, m: int|
                0 <= k < out@.len() && i <= m < left@.len() ==> T::precedes(
                    #[trigger] out@[k],
                    #[trigger] left@[m],
                ),
            forall|k: int, m: int|
                0 <= k < out@.len() && j <= m < right@.len() ==> T::precedes(
                    #[trigger] out@[k],
                    #[trigger] right@[m],
                ),
            forall|a: T, b: T| #[trigger] T::precedes(a, b) || T::precedes(b, a),
            forall|a: T, b: T, c: T|
                #![trigger T::precedes(a, b), T::precedes(b, c)]
                T::precedes(a, b) && T::precedes(b, c) ==> T::precedes(a, c),
        decreases left.len() - i + right.len() - j,
    {
        let ghost before = out@;
        let from_left = if i >= left.len() {
            false
        } else if j >= right.len() {
            true
        } else {
            T::comes_before(&left[i], &right[j])
        };
        if from_left {
            let x = left[i];
            proof {
                lemma_take_one_more(left@, i as int);
                before.to_multiset_ensures();
                assert forall|m: int| j <= m < right@.len() implies T::precedes(x, right@[m]) by {
                    assert(T::precedes(left@[i as int], right@[j as int]));
                    if m > j {
                        assert(T::precedes(right@[j as int], right@[m]));
                    }
                }
                assert forall|m: int| i < m < left@.len() implies T::precedes(x, left@[m]) by {
                    assert(T::precedes(left@[i as int], left@[m]));
                }
            }
            out.push(x);
            i += 1;
        } else {
            let x = right[j];
            proof {
                lemma_take_one_more(right@, j as int);
                before.to_multiset_ensures();
                assert forall|m: int| i <= m < left@.len() implies T::precedes(x, left@[m]) by {
                    assert(T::precedes(right@[j as int], left@[i as int]));
                    if m > i {
                        assert(T::precedes(left@[i as int], left@[m]));
                    }
                }
                assert forall|m: int| j < m < right@.len() implies T::precedes(x, right@[m]) by {
                    assert(T::precedes(right@[j as int], right@[m]));
                }
            }
            out.push(x);
            j += 1;
        }
        proof {
            assert forall|a: int, b: int| 0 <= a < b < out@.len() implies T::precedes(
                #[trigger] out@[a],
                #[trigger] out@[b],
            ) by {
                if b < before.len() {
                    assert(T::precedes(before[a], before[b]));
                }
            }
        }
    }
    assert(left@.take(left@.len() as int) =~= left@);
    assert(right@.take(right@.len() as int) =~= right@);
    out
}

/// The values of `v` from `from` up to `to`.
fn part<T: Copy>(v: &Vec<T>, from: usize, to: usize) -> (out: Vec<T>)
    requires
        from <= to <= v.len(),
    ensures
        out@ == v@.subrange(from as int, to as int),
{
    let mut out: Vec<T> = Vec::new();
    let mut i: usize = from;
    while i < to
        invariant
            from <= i <= to,
            to <= v.len(),
            out@ == v@.subrange(from as int, i as int),
        decreases to - i,
    {
        out.push(v[i]);
        assert(out@ =~= v@.subrange(from as int, i + 1));
        i += 1;
    }
    out
}

/// The values of `v` in ascending order.
pub fn sorted<T: Ordered + Copy>(v: &Vec<T>) -> (out: Vec<T>)
    ensures
        is_sorted(out@),
        out@.to_multiset() == v@.to_multiset(),
    decreases v.len(),
{
    let n = v.len();
    if n <= 1 {
        let out = part(v, 0, n);
        assert(out@ =~= v@);
        return out;
    }
    let mid = n / 2;
    let left = part(v, 0, mid);
    let right = part(v, mid, n);
    proof {
        assert(v@ =~= left@ + right@);
        lemma_concat_multiset(left@, right@);
    }
    let left_sorted = sorted(&left);
    let right_sorted = sorted(&right);
    merge(&left_sorted, &right_sorted)
}

} // verus!
