//! The search tree under the ordered store.
//!
//! A tree holds its items in order from left to right. Every node carries a
//! rank that does not depend on its item, and `join` puts the node of higher
//! rank on top, so that the shape of a tree is that of a search tree built in
//! a random order, whose depth is logarithmic in expectation. Every function
//! here walks one path from the root.

use vstd::prelude::*;
use crate::order::{ascending, at_most, precedes, total_order};

verus! {

/// One item of a tree, with what stands before it and behind it.
pub struct Node<T: Ord> {
    pub item: T,
    pub rank: u64,
    pub left: Option<Box<Node<T>>>,
    pub right: Option<Box<Node<T>>>,
}

/// The items of `tree` from left to right.
pub open spec fn in_order<T: Ord>(tree: Option<Box<Node<T>>>) -> Seq<T>
    decreases tree,
{
    match tree {
        None => Seq::empty(),
        Some(node) => in_order(node.left) + seq![node.item] + in_order(node.right),
    }
}

/// The rank at the root of `tree`; below every rank where the tree is empty.
pub open spec fn top_rank<T: Ord>(tree: Option<Box<Node<T>>>) -> int {
    match tree {
        None => -1,
        Some(node) => node.rank as int,
    }
}

/// No node of `tree` has a rank above that of the node it hangs from.
pub open spec fn heap_ordered<T: Ord>(tree: Option<Box<Node<T>>>) -> bool
    decreases tree,
{
    match tree {
        None => true,
        Some(node) => {
            &&& top_rank(node.left) <= node.rank
            &&& top_rank(node.right) <= node.rank
            &&& heap_ordered(node.left)
            &&& heap_ordered(node.right)
        },
    }
}

/// Whether `split` puts `x` on the low side of `pivot`: with `ties_low`, the
/// items that are not greater than the pivot; without, the items that are
/// less.
pub open spec fn goes_low<T: Ord>(x: T, pivot: T, ties_low: bool) -> bool {
    if ties_low {
        at_most(x, pivot)
    } else {
        !at_most(pivot, x)
    }
}

/// The parts of an ascending sequence are ascending, and the item between
/// two parts is not less than the items before it nor greater than those
/// behind it.
pub proof fn lemma_ascending_parts<T: Ord>(before: Seq<T>, x: T, behind: Seq<T>)
    requires
        ascending(before + seq![x] + behind),
    ensures
        ascending(before),
        ascending(behind),
        forall|i: int| 0 <= i < before.len() ==> at_most(#[trigger] before[i], x),
        forall|i: int| 0 <= i < behind.len() ==> at_most(x, #[trigger] behind[i]),
{
    let s = before + seq![x] + behind;
    let n = before.len();
    assert(s[n as int] == x);
    assert forall|i: int, j: int| 0 <= i <= j < before.len() implies at_most(
        #[trigger] before[i],
        #[trigger] before[j],
    ) by {
        assert(s[i] == before[i] && s[j] == before[j]);
    }
    assert forall|i: int, j: int| 0 <= i <= j < behind.len() implies at_most(
        #[trigger] behind[i],
        #[trigger] behind[j],
    ) by {
        assert(s[n + 1 + i] == behind[i] && s[n + 1 + j] == behind[j]);
    }
    assert forall|i: int| 0 <= i < before.len() implies at_most(#[trigger] before[i], x) by {
        assert(s[i] == before[i]);
    }
    assert forall|i: int| 0 <= i < behind.len() implies at_most(x, #[trigger] behind[i]) by {
        assert(s[n + 1 + i] == behind[i]);
    }
}

/// A tree of one item.
pub fn leaf<T: Ord>(item: T, rank: u64) -> (tree: Option<Box<Node<T>>>)
    ensures
        in_order(tree) == seq![item],
        heap_ordered(tree),
        top_rank(tree) == rank,
{
    let tree = Some(Box::new(Node { item, rank, left: None, right: None }));
    assert(in_order::<T>(None) =~= Seq::empty());
    assert(in_order(tree) =~= seq![item]);
    assert(heap_ordered::<T>(None));
    tree
}

/// The tree of the items of `low` followed by those of `high`.
pub fn join<T: Ord>(low: Option<Box<Node<T>>>, high: Option<Box<Node<T>>>) -> (tree: Option<
    Box<Node<T>>,
>)
    requires
        heap_ordered(low),
        heap_ordered(high),
    ensures
        in_order(tree) == in_order(low) + in_order(high),
        heap_ordered(tree),
        top_rank(tree) <= top_rank(low) || top_rank(tree) <= top_rank(high),
    decreases in_order(low).len() + in_order(high).len(),
{
    match low {
        None => {
            assert(in_order(low) + in_order(high) =~= in_order(high));
            high
        },
        Some(mut a) => match high {
            None => {
                assert(in_order(low) + in_order(high) =~= in_order(low));
                Some(a)
            },
            Some(mut b) => {
                if a.rank >= b.rank {
                    let ghost before = in_order(a.left) + seq![a.item];
                    let ghost inner = in_order(a.right);
                    let r = a.right.take();
                    a.right = join(r, Some(b));
                    assert(in_order(Some(a)) =~= before + (inner + in_order(high)));
                    assert(in_order(low) =~= before + inner);
                    Some(a)
                } else {
                    let ghost behind = seq![b.item] + in_order(b.right);
                    let ghost inner = in_order(b.left);
                    let l = b.left.take();
                    b.left = join(Some(a), l);
                    assert(in_order(Some(b)) =~= (in_order(low) + inner) + behind);
                    assert(in_order(high) =~= inner + behind);
                    Some(b)
                }
            },
        },
    }
}

/// Parts an ascending tree at `pivot`: the first tree gets the items that go
/// low, the second the others, each in its order.
pub fn split<T: Ord>(tree: Option<Box<Node<T>>>, pivot: &T, ties_low: bool) -> (parts: (
    Option<Box<Node<T>>>,
    Option<Box<Node<T>>>,
))
    requires
        total_order::<T>(),
        ascending(in_order(tree)),
        heap_ordered(tree),
    ensures
        in_order(parts.0) + in_order(parts.1) == in_order(tree),
        heap_ordered(parts.0),
        heap_ordered(parts.1),
        top_rank(parts.0) <= top_rank(tree),
        top_rank(parts.1) <= top_rank(tree),
        forall|i: int|
            0 <= i < in_order(parts.0).len() ==> goes_low(
                #[trigger] in_order(parts.0)[i],
                *pivot,
                ties_low,
            ),
        forall|i: int|
            0 <= i < in_order(parts.1).len() ==> !goes_low(
                #[trigger] in_order(parts.1)[i],
                *pivot,
                ties_low,
            ),
    decreases in_order(tree).len(),
{
    match tree {
        None => {
            assert(in_order(tree) + in_order(tree) =~= in_order(tree));
            (None, None)
        },
        Some(mut node) => {
            let ghost before = in_order(node.left);
            let ghost behind = in_order(node.right);
            let ghost x = node.item;
            proof {
                lemma_ascending_parts(before, x, behind);
            }
            let low = if ties_low {
                precedes(&node.item, pivot)
            } else {
                !precedes(pivot, &node.item)
            };
            if low {
                let r = node.right.take();
                let (a, b) = split(r, pivot, ties_low);
                node.right = a;
                let ghost kept = in_order(Some(node));
                assert(kept =~= before + seq![x] + in_order(a));
                assert(kept + in_order(b) =~= before + seq![x] + behind);
                assert forall|i: int| 0 <= i < kept.len() implies goes_low(
                    #[trigger] kept[i],
                    *pivot,
                    ties_low,
                ) by {
                    if i < before.len() {
                        assert(kept[i] == before[i]);
                        assert(at_most(before[i], x));
                    } else if i > before.len() {
                        assert(kept[i] == in_order(a)[i - before.len() - 1]);
                    }
                }
                (Some(node), b)
            } else {
                let l = node.left.take();
                let (a, b) = split(l, pivot, ties_low);
                node.left = b;
                let ghost kept = in_order(Some(node));
                assert(kept =~= in_order(b) + seq![x] + behind);
                assert(in_order(a) + kept =~= before + seq![x] + behind);
                assert forall|i: int| 0 <= i < kept.len() implies !goes_low(
                    #[trigger] kept[i],
                    *pivot,
                    ties_low,
                ) by {
                    let m = in_order(b).len();
                    if i < m {
                        assert(kept[i] == in_order(b)[i]);
                    } else if i > m {
                        assert(kept[i] == behind[i - m - 1]);
                        assert(at_most(x, behind[i - m - 1]));
                    }
                }
                (a, Some(node))
            }
        },
    }
}

/// Takes the first item out of a tree.
pub fn pop_first<T: Ord>(tree: Box<Node<T>>) -> (out: (T, Option<Box<Node<T>>>))
    requires
        heap_ordered(Some(tree)),
    ensures
        in_order(Some(tree)) == seq![out.0] + in_order(out.1),
        heap_ordered(out.1),
        top_rank(out.1) <= tree.rank,
    decreases in_order(Some(tree)).len(),
{
    let mut node = tree;
    let ghost x = node.item;
    let ghost behind = in_order(node.right);
    match node.left.take() {
        None => {
            let top = *node;
            assert(in_order::<T>(None) =~= Seq::empty());
            assert(in_order(Some(tree)) =~= seq![x] + behind);
            (top.item, top.right)
        },
        Some(l) => {
            let (first, rest) = pop_first(l);
            node.left = rest;
            assert(in_order(Some(tree)) =~= seq![first] + (in_order(rest) + seq![x] + behind));
            (first, Some(node))
        },
    }
}

/// Takes the last item out of a tree.
pub fn pop_last<T: Ord>(tree: Box<Node<T>>) -> (out: (T, Option<Box<Node<T>>>))
    requires
        heap_ordered(Some(tree)),
    ensures
        in_order(Some(tree)) == in_order(out.1).push(out.0),
        heap_ordered(out.1),
        top_rank(out.1) <= tree.rank,
    decreases in_order(Some(tree)).len(),
{
    let mut node = tree;
    let ghost x = node.item;
    let ghost before = in_order(node.left);
    match node.right.take() {
        None => {
            let top = *node;
            assert(in_order::<T>(None) =~= Seq::empty());
            assert(in_order(Some(tree)) =~= before.push(x));
            (top.item, top.left)
        },
        Some(r) => {
            let (last, rest) = pop_last(r);
            node.right = rest;
            assert(in_order(Some(tree)) =~= (before + seq![x] + in_order(rest)).push(last));
            (last, Some(node))
        },
    }
}

} // verus!
