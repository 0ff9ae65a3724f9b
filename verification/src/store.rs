//! The ordered store: the pending items of a channel, kept ascending.
//!
//! The store is a search tree whose depth is logarithmic in expectation, and
//! each of its operations walks a fixed number of paths from the root: an
//! item arrives by one split and two joins, the least item leaves from the
//! left end, and the greatest leaves after the last item was taken out and
//! the first of the items that tie with it was found by one split.

use vstd::prelude::*;
use vstd::seq_lib::to_multiset_remove;
use crate::order::{ascending, at_most, lemma_total, total_order};
use crate::tree::{heap_ordered, in_order, join, leaf, pop_first, pop_last, split, Node};

verus! {

/// How many items at the front of `s` do not compare greater than `item`: in an
/// ascending `s`, the place behind every item that is less than `item` or ties
/// with it.
pub open spec fn insert_position<T: Ord>(s: Seq<T>, item: T) -> int
    decreases s.len(),
{
    if s.len() > 0 && at_most(s[0], item) {
        1 + insert_position(s.drop_first(), item)
    } else {
        0
    }
}

/// How many items at the front of `s` compare less than `bound`: in an
/// ascending `s`, the place of the first item that is not less than `bound`.
pub open spec fn first_at_least<T: Ord>(s: Seq<T>, bound: T) -> int
    decreases s.len(),
{
    if s.len() > 0 && !at_most(bound, s[0]) {
        1 + first_at_least(s.drop_first(), bound)
    } else {
        0
    }
}

/// `s` with `item` placed behind every item that does not compare greater.
pub open spec fn inserted<T: Ord>(s: Seq<T>, item: T) -> Seq<T> {
    s.insert(insert_position(s, item), item)
}

/// In an ascending, non-empty `s`: the place of the earliest of the items that
/// compare greatest, which is the first item that is not less than the last.
pub open spec fn greatest_position<T: Ord>(s: Seq<T>) -> int {
    first_at_least(s.drop_last(), s.last())
}

/// `insert_position` is the one place with no greater item before it and a
/// greater item, or nothing, at it.
pub proof fn lemma_insert_position<T: Ord>(s: Seq<T>, item: T, p: int)
    requires
        0 <= p <= s.len(),
        forall|i: int| 0 <= i < p ==> at_most(#[trigger] s[i], item),
        p < s.len() ==> !at_most(s[p], item),
    ensures
        insert_position(s, item) == p,
    decreases s.len(),
{
    if p > 0 {
        let rest = s.drop_first();
        assert(at_most(s[0], item));
        assert forall|i: int| 0 <= i < p - 1 implies at_most(#[trigger] rest[i], item) by {
            assert(rest[i] == s[i + 1]);
        }
        if p - 1 < rest.len() {
            assert(rest[p - 1] == s[p]);
        }
        lemma_insert_position(rest, item, p - 1);
    }
}

/// `first_at_least` is the one place with only lesser items before it and an
/// item that is not less, or nothing, at it.
pub proof fn lemma_first_at_least<T: Ord>(s: Seq<T>, bound: T, p: int)
    requires
        0 <= p <= s.len(),
        forall|i: int| 0 <= i < p ==> !at_most(bound, #[trigger] s[i]),
        p < s.len() ==> at_most(bound, s[p]),
    ensures
        first_at_least(s, bound) == p,
    decreases s.len(),
{
    if p > 0 {
        let rest = s.drop_first();
        assert(!at_most(bound, s[0]));
        assert forall|i: int| 0 <= i < p - 1 implies !at_most(bound, #[trigger] rest[i]) by {
            assert(rest[i] == s[i + 1]);
        }
        if p - 1 < rest.len() {
            assert(rest[p - 1] == s[p]);
        }
        lemma_first_at_least(rest, bound, p - 1);
    }
}

/// In an ascending sequence `insert_position` parts the items that are not
/// greater than `item` from those that are: a new item stands behind every
/// pending item that ties with it.
pub proof fn lemma_insert_position_parts<T: Ord>(s: Seq<T>, item: T)
    requires
        total_order::<T>(),
        ascending(s),
    ensures
        0 <= insert_position(s, item) <= s.len(),
        forall|i: int| 0 <= i < insert_position(s, item) ==> at_most(#[trigger] s[i], item),
        forall|i: int| insert_position(s, item) <= i < s.len() ==> !at_most(#[trigger] s[i], item),
    decreases s.len(),
{
    if s.len() > 0 {
        let rest = s.drop_first();
        if at_most(s[0], item) {
            assert forall|i: int, j: int| 0 <= i <= j < rest.len() implies at_most(
                #[trigger] rest[i],
                #[trigger] rest[j],
            ) by {
                assert(rest[i] == s[i + 1] && rest[j] == s[j + 1]);
            }
            lemma_insert_position_parts(rest, item);
            let p = insert_position(s, item);
            assert forall|i: int| 0 <= i < p implies at_most(#[trigger] s[i], item) by {
                if i > 0 {
                    assert(s[i] == rest[i - 1]);
                }
            }
            assert forall|i: int| p <= i < s.len() implies !at_most(#[trigger] s[i], item) by {
                assert(s[i] == rest[i - 1]);
            }
        } else {
            assert forall|i: int| 0 <= i < s.len() implies !at_most(#[trigger] s[i], item) by {
                assert(at_most(s[0], s[i]));
            }
        }
    }
}

/// `first_at_least` has only lesser items before it and an item that is not
/// less, or nothing, at it.
pub proof fn lemma_first_at_least_parts<T: Ord>(s: Seq<T>, bound: T)
    ensures
        0 <= first_at_least(s, bound) <= s.len(),
        forall|i: int| 0 <= i < first_at_least(s, bound) ==> !at_most(bound, #[trigger] s[i]),
        first_at_least(s, bound) < s.len() ==> at_most(bound, s[first_at_least(s, bound)]),
    decreases s.len(),
{
    if s.len() > 0 && !at_most(bound, s[0]) {
        let rest = s.drop_first();
        lemma_first_at_least_parts(rest, bound);
        let p = first_at_least(s, bound);
        assert forall|i: int| 0 <= i < p implies !at_most(bound, #[trigger] s[i]) by {
            if i > 0 {
                assert(s[i] == rest[i - 1]);
            }
        }
        if p < s.len() {
            assert(s[p] == rest[p - 1]);
        }
    }
}

/// In an ascending, non-empty sequence the item at `greatest_position` is a
/// greatest one, and every item before it is less: of the items that tie for
/// the greatest it is the one that arrived first.
pub proof fn lemma_greatest_position<T: Ord>(s: Seq<T>)
    requires
        total_order::<T>(),
        ascending(s),
        s.len() > 0,
    ensures
        0 <= greatest_position(s) < s.len(),
        forall|i: int| 0 <= i < s.len() ==> at_most(#[trigger] s[i], s[greatest_position(s)]),
        forall|i: int| 0 <= i < greatest_position(s) ==> !at_most(s[greatest_position(s)], #[trigger] s[i]),
{
    let front = s.drop_last();
    let p = greatest_position(s);
    lemma_first_at_least_parts(front, s.last());
    lemma_total(s.last(), s.last());
    if p < front.len() {
        assert(front[p] == s[p]);
    }
    assert(at_most(s.last(), s[p]));
    assert forall|i: int| 0 <= i < s.len() implies at_most(#[trigger] s[i], s[p]) by {
        assert(at_most(s[i], s[s.len() - 1]));
    }
    assert forall|i: int| 0 <= i < p implies !at_most(s[p], #[trigger] s[i]) by {
        assert(front[i] == s[i]);
        assert(!at_most(s.last(), front[i]));
    }
}

/// Placing an item between the items that are not greater and those that are
/// keeps the sequence ascending.
pub proof fn lemma_insert_keeps_ascending<T: Ord>(s: Seq<T>, item: T, p: int)
    requires
        total_order::<T>(),
        ascending(s),
        0 <= p <= s.len(),
        forall|i: int| 0 <= i < p ==> at_most(#[trigger] s[i], item),
        forall|i: int| p <= i < s.len() ==> !at_most(#[trigger] s[i], item),
    ensures
        ascending(s.insert(p, item)),
{
    let t = s.insert(p, item);
    assert forall|i: int, j: int| 0 <= i <= j < t.len() implies at_most(
        #[trigger] t[i],
        #[trigger] t[j],
    ) by {
        lemma_total(t[i], t[j]);
        if i < p && j > p {
            assert(t[i] == s[i] && t[j] == s[j - 1]);
        } else if i > p {
            assert(t[i] == s[i - 1] && t[j] == s[j - 1]);
        } else if j < p {
            assert(t[i] == s[i] && t[j] == s[j]);
        } else if i == p && j > p {
            assert(t[j] == s[j - 1]);
            assert(!at_most(s[j - 1], item));
        } else if i < p && j == p {
            assert(t[i] == s[i]);
        }
    }
}

/// Taking an item out keeps the sequence ascending.
pub proof fn lemma_remove_keeps_ascending<T: Ord>(s: Seq<T>, p: int)
    requires
        ascending(s),
        0 <= p < s.len(),
    ensures
        ascending(s.remove(p)),
{
    let t = s.remove(p);
    assert forall|i: int, j: int| 0 <= i <= j < t.len() implies at_most(
        #[trigger] t[i],
        #[trigger] t[j],
    ) by {
        let si = if i < p { i } else { i + 1 };
        let sj = if j < p { j } else { j + 1 };
        assert(t[i] == s[si] && t[j] == s[sj]);
    }
}

/// A sequence with one item more holds that item once more, and the others as
/// often as before.
pub proof fn lemma_insert_multiset<T>(s: Seq<T>, item: T, p: int)
    requires
        0 <= p <= s.len(),
    ensures
        s.insert(p, item).to_multiset() == s.to_multiset().insert(item),
{
    let t = s.insert(p, item);
    assert(t.remove(p) =~= s);
    assert(t[p] == item);
    to_multiset_remove(t, p);
    t.to_multiset_ensures();
    assert(t.contains(item));
    assert(t.to_multiset() =~= s.to_multiset().insert(item));
}

/// The pending items of a channel.
///
/// Its view is the sequence of the pending items in ascending order, items that
/// tie standing in the order in which they arrived.
pub struct OrderedStore<T: Ord> {
    root: Option<Box<Node<T>>>,
    seed: u64,
}

/// The rank after `seed`, by a linear congruence that runs through all
/// 64-bit values.
fn next_rank(seed: u64) -> (rank: u64)
    ensures
        rank == rank_after(seed),
{
    let scaled: u64 = seed.wrapping_mul(6364136223846793005u64);
    assert(scaled == (seed * 6364136223846793005) % 0x1_0000_0000_0000_0000);
    scaled.wrapping_add(1442695040888963407u64)
}

/// The rank that follows `seed`: `seed` times 6364136223846793005, plus
/// 1442695040888963407, reduced modulo two to the power of 64.
pub open spec fn rank_after(seed: u64) -> u64 {
    ((seed * 6364136223846793005 + 1442695040888963407) % 0x1_0000_0000_0000_0000) as u64
}

impl<T: Ord> OrderedStore<T> {
    #[verifier::type_invariant]
    spec fn well_formed(self) -> bool {
        ascending(in_order(self.root)) && heap_ordered(self.root)
    }

    /// The pending items, ascending; among items that tie, the earlier arrival
    /// first.
    pub closed spec fn view(&self) -> Seq<T> {
        in_order(self.root)
    }

    /// An empty store.
    pub fn new() -> (s: Self)
        ensures
            s@ == Seq::<T>::empty(),
    {
        assert(in_order::<T>(None) =~= Seq::empty());
        OrderedStore { root: None, seed: 0u64 }
    }

    /// Whether nothing is pending.
    pub fn is_empty(&self) -> (r: bool)
        ensures
            r == (self@.len() == 0),
            ascending(self@),
    {
        proof {
            use_type_invariant(self);
            assert(in_order::<T>(None) =~= Seq::empty());
        }
        self.root.is_none()
    }

    /// Adds `item`, behind every pending item that is less or ties with it.
    pub fn insert(&mut self, item: T)
        requires
            total_order::<T>(),
        ensures
            final(self)@ == inserted(old(self)@, item),
            final(self)@.to_multiset() == old(self)@.to_multiset().insert(item),
            ascending(final(self)@),
    {
        proof {
            use_type_invariant(&*self);
            assert(in_order::<T>(None) =~= Seq::empty());
        }
        let ghost s = self@;
        let rank: u64 = next_rank(self.seed);
        self.seed = rank;
        let mut root: Option<Box<Node<T>>> = None;
        core::mem::swap(&mut self.root, &mut root);
        let (low, high) = split(root, &item, true);
        let ghost p = in_order(low).len() as int;
        proof {
            assert forall|i: int| 0 <= i < p implies at_most(#[trigger] s[i], item) by {
                assert(s[i] == in_order(low)[i]);
            }
            assert forall|i: int| p <= i < s.len() implies !at_most(#[trigger] s[i], item) by {
                assert(s[i] == in_order(high)[i - p]);
            }
            lemma_insert_position(s, item, p);
            lemma_insert_keeps_ascending(s, item, p);
            lemma_insert_multiset(s, item, p);
        }
        let tree = join(join(low, leaf(item, rank)), high);
        assert(in_order(tree) =~= s.insert(p, item));
        self.root = tree;
    }

    /// Removes and returns the least pending item, the earliest arrival among
    /// those that tie for it; `None`, and no change, where nothing is pending.
    pub fn extract_min(&mut self) -> (r: Option<T>)
        ensures
            old(self)@.len() == 0 ==> r.is_none() && final(self)@ == old(self)@,
            old(self)@.len() > 0 ==> r == Some(old(self)@[0]) && final(self)@ == old(self)@.remove(0),
            r matches Some(item) ==> {
                &&& forall|i: int| 0 <= i < old(self)@.len() ==> at_most(item, #[trigger] old(self)@[i])
                &&& final(self)@.to_multiset() == old(self)@.to_multiset().remove(item)
            },
            ascending(final(self)@),
    {
        proof {
            use_type_invariant(&*self);
            assert(in_order::<T>(None) =~= Seq::empty());
        }
        let ghost s = self@;
        let mut root: Option<Box<Node<T>>> = None;
        core::mem::swap(&mut self.root, &mut root);
        match root {
            None => None,
            Some(node) => {
                let (first, rest) = pop_first(node);
                proof {
                    assert(first == s[0]);
                    assert(in_order(rest) =~= s.remove(0));
                    lemma_remove_keeps_ascending(s, 0);
                    to_multiset_remove(s, 0);
                }
                self.root = rest;
                Some(first)
            },
        }
    }

    /// Removes and returns the greatest pending item, the earliest arrival
    /// among those that tie for it; `None`, and no change, where nothing is
    /// pending.
    pub fn extract_max(&mut self) -> (r: Option<T>)
        requires
            total_order::<T>(),
        ensures
            old(self)@.len() == 0 ==> r.is_none() && final(self)@ == old(self)@,
            old(self)@.len() > 0 ==> r == Some(old(self)@[greatest_position(old(self)@)])
                && final(self)@ == old(self)@.remove(greatest_position(old(self)@)),
            r matches Some(item) ==> {
                &&& forall|i: int| 0 <= i < old(self)@.len() ==> at_most(#[trigger] old(self)@[i], item)
                &&& final(self)@.to_multiset() == old(self)@.to_multiset().remove(item)
            },
            ascending(final(self)@),
    {
        proof {
            use_type_invariant(&*self);
            assert(in_order::<T>(None) =~= Seq::empty());
        }
        let ghost s = self@;
        let mut root: Option<Box<Node<T>>> = None;
        core::mem::swap(&mut self.root, &mut root);
        match root {
            None => None,
            Some(node) => {
                let (last, rest) = pop_last(node);
                proof {
                    assert(last == s.last());
                    assert(in_order(rest) =~= s.drop_last());
                    lemma_remove_keeps_ascending(s, s.len() - 1);
                    assert(s.remove(s.len() - 1) =~= s.drop_last());
                }
                let (low, ties) = split(rest, &last, false);
                let ghost p = in_order(low).len() as int;
                proof {
                    let front = s.drop_last();
                    assert(in_order(low) + in_order(ties) =~= front);
                    assert forall|i: int| 0 <= i < p implies !at_most(last, #[trigger] front[i]) by {
                        assert(front[i] == in_order(low)[i]);
                    }
                    if p < front.len() {
                        assert(front[p] == in_order(ties)[0]);
                    }
                    lemma_first_at_least(front, last, p);
                    lemma_greatest_position(s);
                    lemma_remove_keeps_ascending(s, p);
                    to_multiset_remove(s, p);
                }
                match ties {
                    None => {
                        assert(in_order(low) =~= s.remove(p));
                        self.root = low;
                        Some(last)
                    },
                    Some(tied) => {
                        let (first, later) = pop_first(tied);
                        let rank: u64 = next_rank(self.seed);
                        self.seed = rank;
                        let tree = join(low, join(later, leaf(last, rank)));
                        proof {
                            assert(first == in_order(ties)[0]);
                            assert(in_order(tree) =~= in_order(low) + in_order(later) + seq![last]);
                            assert(in_order(rest) =~= in_order(low) + (seq![first] + in_order(later)));
                            assert(in_order(tree) =~= s.remove(p));
                        }
                        self.root = tree;
                        Some(first)
                    },
                }
            },
        }
    }
}

} // verus!
