//! Sorting by an order that is given as an executable test and as a specification.

use vstd::multiset::Multiset;
use vstd::prelude::*;
use vstd::relations::sorted_by;
use vstd::seq_lib::*;

verus! {

/// Any two items can be put in order, and the order is transitive.
pub open spec fn total_preorder<T>(leq: spec_fn(T, T) -> bool) -> bool {
    &&& forall|a: T, b: T| #[trigger] leq(a, b) || leq(b, a)
    &&& forall|a: T, b: T, c: T| #[trigger] leq(a, b) && #[trigger] leq(b, c) ==> leq(a, c)
}

/// `before` decides `leq` on any two items.
pub open spec fn decides<T, F: Fn(T, T) -> bool>(before: F, leq: spec_fn(T, T) -> bool) -> bool {
    &&& forall|a: T, b: T| #[trigger] call_requires(before, (a, b))
    &&& forall|a: T, b: T, r: bool| #[trigger]
        call_ensures(before, (a, b), r) ==> r == leq(a, b)
}

/// Merges two sorted vectors into one.
fn merge<T: Copy, F: Fn(T, T) -> bool>(
    left: &Vec<T>,
    right: &Vec<T>,
    before: &F,
    Ghost(leq): Ghost<spec_fn(T, T) -> bool>,
) -> (merged: Vec<T>)
    requires
        total_preorder(leq),
        decides(*before, leq),
        sorted_by(left@, leq),
        sorted_by(right@, leq),
    ensures
        sorted_by(merged@, leq),
        merged@.to_multiset() == left@.to_multiset().add(right@.to_multiset()),
{
    let mut merged: Vec<T> = Vec::new();
    let mut i: usize = 0;
    let mut j: usize = 0;
    assert(left@.take(0) =~= Seq::empty());
    assert(right@.take(0) =~= Seq::empty());
    assert(Seq::<T>::empty().to_multiset() =~= Multiset::empty()) by {
        broadcast use to_multiset_contains;

    }
    while i < left.len() || j < right.len()
        invariant
            i <= left.len(),
            j <= right.len(),
            total_preorder(leq),
            decides(*before, leq),
            sorted_by(left@, leq),
            sorted_by(right@, leq),
            sorted_by(merged@, leq),
            forall|k: int, l: int|
                0 <= k < merged.len() && i <= l < left.len() ==> leq(
                    #[trigger] merged[k],
                    #[trigger] left[l],
                ),
            forall|k: int, l: int|
                0 <= k < merged.len() && j <= l < right.len() ==> leq(
                    #[trigger] merged[k],
                    #[trigger] right[l],
                ),
            merged@.to_multiset() =~= left@.take(i as int).to_multiset().add(
                right@.take(j as int).to_multiset(),
            ),
        decreases left.len() - i + right.len() - j,
    {
        broadcast use to_multiset_build;

        let ghost before_push = merged@;
        if j == right.len() || (i < left.len() && before(left[i], right[j])) {
            assert(left@.take(i + 1) =~= left@.take(i as int).push(left[i as int]));
            assert forall|l: int| i + 1 <= l < left.len() implies leq(left[i as int], #[trigger] left[l]) by {}
            assert forall|l: int| j <= l < right.len() implies leq(left[i as int], #[trigger] right[l]) by {
                assert(leq(left[i as int], right[j as int]));
                assert(leq(right[j as int], right[l]));
            }
            merged.push(left[i]);
            i += 1;
        } else {
            assert(right@.take(j + 1) =~= right@.take(j as int).push(right[j as int]));
            assert forall|l: int| j + 1 <= l < right.len() implies leq(right[j as int], #[trigger] right[l]) by {}
            assert forall|l: int| i <= l < left.len() implies leq(right[j as int], #[trigger] left[l]) by {
                assert(!leq(left[i as int], right[j as int]));
                assert(leq(right[j as int], left[i as int]));
                assert(leq(left[i as int], left[l]));
            }
            merged.push(right[j]);
            j += 1;
        }
    }
    assert(left@.take(left@.len() as int) =~= left@);
    assert(right@.take(right@.len() as int) =~= right@);
    merged
}

/// The same items in the order that `before` decides. Items that are equal in that order keep
/// no particular order among themselves.
pub(crate) fn sort<T: Copy, F: Fn(T, T) -> bool>(
    items: Vec<T>,
    before: &F,
    Ghost(leq): Ghost<spec_fn(T, T) -> bool>,
) -> (sorted: Vec<T>)
    requires
        total_preorder(leq),
        decides(*before, leq),
    ensures
        sorted_by(sorted@, leq),
        sorted@.to_multiset() == items@.to_multiset(),
    decreases items.len(),
{
    if items.len() <= 1 {
        return items;
    }
    let half: usize = items.len() / 2;
    let mut left: Vec<T> = Vec::new();
    let mut right: Vec<T> = Vec::new();
    for i in 0..half
        invariant
            half <= items.len(),
            left@ =~= items@.take(i as int),
    {
        left.push(items[i]);
    }
    for i in half..items.len()
        invariant
            half <= items.len(),
            right@ =~= items@.subrange(half as int, i as int),
    {
        right.push(items[i]);
    }
    assert(items@ =~= left@ + right@);
    proof {
        lemma_multiset_commutative(left@, right@);
    }
    let left = sort(left, before, Ghost(leq));
    let right = sort(right, before, Ghost(leq));
    merge(&left, &right, before, Ghost(leq))
}

} // verus!
