//! The order that the channel asks of its items, stated over the comparison
//! that `Ord` supplies.
//!
//! Items that compare equal need not be identical: nothing here identifies
//! `Ordering::Equal` with equality of values.

use vstd::prelude::*;
use vstd::std_specs::cmp::OrdSpec;
use std::cmp::Ordering;

verus! {

/// `a` does not compare greater than `b`.
pub open spec fn at_most<T: Ord>(a: T, b: T) -> bool {
    a.cmp_spec(&b) != Ordering::Greater
}

/// The comparison of `T` is a total order up to ties: the executable `cmp`
/// computes `cmp_spec`, swapping the arguments swaps `Less` and `Greater`, and
/// `at_most` is transitive.
pub open spec fn total_order<T: Ord>() -> bool {
    &&& T::obeys_cmp_spec()
    &&& forall|a: T, b: T|
        #![trigger a.cmp_spec(&b)]
        a.cmp_spec(&b) == Ordering::Less <==> b.cmp_spec(&a) == Ordering::Greater
    &&& forall|a: T, b: T, c: T| #[trigger]
        at_most(a, b) && #[trigger] at_most(b, c) ==> at_most(a, c)
}

/// No item of `s` compares greater than one behind it.
pub open spec fn ascending<T: Ord>(s: Seq<T>) -> bool {
    forall|i: int, j: int| 0 <= i <= j < s.len() ==> at_most(#[trigger] s[i], #[trigger] s[j])
}

/// No item of `s` compares less than one behind it.
pub open spec fn descending<T: Ord>(s: Seq<T>) -> bool {
    forall|i: int, j: int| 0 <= i <= j < s.len() ==> at_most(#[trigger] s[j], #[trigger] s[i])
}

/// Under a total order any two items are comparable, and each item ties with
/// itself.
pub proof fn lemma_total<T: Ord>(a: T, b: T)
    requires
        total_order::<T>(),
    ensures
        at_most(a, b) || at_most(b, a),
        at_most(a, a),
{
    assert(a.cmp_spec(&b) == Ordering::Less <==> b.cmp_spec(&a) == Ordering::Greater);
    assert(b.cmp_spec(&a) == Ordering::Less <==> a.cmp_spec(&b) == Ordering::Greater);
    assert(a.cmp_spec(&a) == Ordering::Less <==> a.cmp_spec(&a) == Ordering::Greater);
}

/// Whether `a` compares less than or equal to `b`.
pub fn precedes<T: Ord>(a: &T, b: &T) -> (r: bool)
    requires
        T::obeys_cmp_spec(),
    ensures
        r == at_most(*a, *b),
{
    match a.cmp(b) {
        Ordering::Greater => false,
        _ => true,
    }
}

/// The unsigned 32-bit integers are totally ordered.
pub proof fn lemma_u32_total_order()
    ensures
        total_order::<u32>(),
{
}

/// The unsigned 64-bit integers are totally ordered.
pub proof fn lemma_u64_total_order()
    ensures
        total_order::<u64>(),
{
}

/// The signed 32-bit integers are totally ordered.
pub proof fn lemma_i32_total_order()
    ensures
        total_order::<i32>(),
{
}

/// The signed 64-bit integers are totally ordered.
pub proof fn lemma_i64_total_order()
    ensures
        total_order::<i64>(),
{
}

} // verus!
