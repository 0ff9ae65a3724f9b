//! What holds of a channel whatever calls are made on it, and of one that is
//! filled and then drained, stated over the store's contents.
//!
//! Every call of a handle is one critical section, so the calls that the
//! handles of a channel make, from whatever threads, take effect one after
//! another: a run of a channel is a sequence of calls.

use vstd::prelude::*;
use vstd::multiset::Multiset;
use vstd::seq_lib::{to_multiset_build, to_multiset_remove};
use crate::order::{ascending, at_most, descending, lemma_total, total_order};
use crate::store::{
    greatest_position, insert_position, inserted, lemma_first_at_least_parts,
    lemma_greatest_position, lemma_insert_keeps_ascending, lemma_insert_multiset,
    lemma_insert_position_parts, lemma_remove_keeps_ascending,
};

verus! {

/// One call on a channel, whichever handle makes it.
pub enum Call<T> {
    /// `send` of an item.
    Send(T),
    /// `recv_greatest`.
    RecvGreatest,
    /// `recv_least`.
    RecvLeast,
}

/// What a store that holds `s` holds after `call`.
pub open spec fn store_after<T: Ord>(s: Seq<T>, call: Call<T>) -> Seq<T> {
    match call {
        Call::Send(item) => inserted(s, item),
        Call::RecvGreatest => if s.len() > 0 {
            s.remove(greatest_position(s))
        } else {
            s
        },
        Call::RecvLeast => if s.len() > 0 {
            s.remove(0)
        } else {
            s
        },
    }
}

/// What `call` hands out of a store that holds `s`.
pub open spec fn answer_of<T: Ord>(s: Seq<T>, call: Call<T>) -> Option<T> {
    match call {
        Call::Send(item) => None,
        Call::RecvGreatest => if s.len() > 0 {
            Some(s[greatest_position(s)])
        } else {
            None
        },
        Call::RecvLeast => if s.len() > 0 {
            Some(s[0])
        } else {
            None
        },
    }
}

/// What the store of a channel holds after `calls` were made on it, in turn,
/// starting from nothing.
pub open spec fn pending<T: Ord>(calls: Seq<Call<T>>) -> Seq<T>
    decreases calls.len(),
{
    if calls.len() == 0 {
        Seq::empty()
    } else {
        store_after(pending(calls.drop_last()), calls.last())
    }
}

/// The items that `calls` sent, in turn.
pub open spec fn sent_by<T: Ord>(calls: Seq<Call<T>>) -> Seq<T>
    decreases calls.len(),
{
    if calls.len() == 0 {
        Seq::empty()
    } else {
        match calls.last() {
            Call::Send(item) => sent_by(calls.drop_last()).push(item),
            _ => sent_by(calls.drop_last()),
        }
    }
}

/// The items that `calls` received, in turn.
pub open spec fn received_by<T: Ord>(calls: Seq<Call<T>>) -> Seq<T>
    decreases calls.len(),
{
    if calls.len() == 0 {
        Seq::empty()
    } else {
        match answer_of(pending(calls.drop_last()), calls.last()) {
            Some(item) => received_by(calls.drop_last()).push(item),
            None => received_by(calls.drop_last()),
        }
    }
}

/// The empty sequence holds no item.
proof fn lemma_nothing_holds_nothing<T>()
    ensures
        Seq::<T>::empty().to_multiset() == Multiset::<T>::empty(),
{
    let none = Seq::<T>::empty();
    none.to_multiset_ensures();
    assert(none.to_multiset().len() == 0);
    assert(none.to_multiset() =~= Multiset::<T>::empty());
}

/// Nothing is lost, doubled or made up. Whatever calls were made on a
/// channel, by whatever handles and in whatever order, its store is ascending
/// and holds the items that were sent and not yet received: the pending
/// items and the received items are, together, the items that were sent, each
/// as often as it was sent.
pub proof fn lemma_pending_is_sent_less_received<T: Ord>(calls: Seq<Call<T>>)
    requires
        total_order::<T>(),
    ensures
        ascending(pending(calls)),
        pending(calls).to_multiset().add(received_by(calls).to_multiset()) == sent_by(
            calls,
        ).to_multiset(),
    decreases calls.len(),
{
    if calls.len() == 0 {
        lemma_nothing_holds_nothing::<T>();
        assert(pending(calls).to_multiset().add(received_by(calls).to_multiset()) =~= sent_by(
            calls,
        ).to_multiset());
    } else {
        let earlier = calls.drop_last();
        let s = pending(earlier);
        let got = received_by(earlier);
        let put = sent_by(earlier);
        lemma_pending_is_sent_less_received(earlier);
        match calls.last() {
            Call::Send(item) => {
                lemma_insert_position_parts(s, item);
                let p = insert_position(s, item);
                lemma_insert_keeps_ascending(s, item, p);
                lemma_insert_multiset(s, item, p);
                to_multiset_build(put, item);
                assert(pending(calls).to_multiset().add(received_by(calls).to_multiset())
                    =~= sent_by(calls).to_multiset());
            },
            Call::RecvGreatest => {
                if s.len() > 0 {
                    lemma_greatest_position(s);
                    let p = greatest_position(s);
                    lemma_remove_keeps_ascending(s, p);
                    to_multiset_remove(s, p);
                    to_multiset_build(got, s[p]);
                    s.to_multiset_ensures();
                    assert(s.contains(s[p]));
                    assert(pending(calls).to_multiset().add(received_by(calls).to_multiset())
                        =~= sent_by(calls).to_multiset());
                }
            },
            Call::RecvLeast => {
                if s.len() > 0 {
                    lemma_remove_keeps_ascending(s, 0);
                    to_multiset_remove(s, 0);
                    to_multiset_build(got, s[0]);
                    s.to_multiset_ensures();
                    assert(s.contains(s[0]));
                    assert(pending(calls).to_multiset().add(received_by(calls).to_multiset())
                        =~= sent_by(calls).to_multiset());
                }
            },
        }
    }
}

/// A receive call on a channel with nothing pending hands out nothing and
/// leaves nothing pending, however often it is made.
pub proof fn lemma_empty_stays_empty<T: Ord>(calls: Seq<Call<T>>, call: Call<T>)
    requires
        pending(calls).len() == 0,
        !(call is Send),
    ensures
        answer_of(pending(calls), call) is None,
        pending(calls.push(call)) == pending(calls),
{
    assert(calls.push(call).drop_last() =~= calls);
}

/// Of the items of `out`, in their order, those that went to the receiver
/// `who`, where `turns[k]` names the receiver whose call took `out[k]`.
pub open spec fn share_of<T>(out: Seq<T>, turns: Seq<bool>, who: bool) -> Seq<T>
    decreases out.len(),
{
    if out.len() == 0 {
        Seq::empty()
    } else if turns[out.len() - 1] == who {
        share_of(out.drop_last(), turns, who).push(out.last())
    } else {
        share_of(out.drop_last(), turns, who)
    }
}

proof fn lemma_shares_of_prefix<T>(out: Seq<T>, turns: Seq<bool>, n: int)
    requires
        0 <= n <= out.len() <= turns.len(),
    ensures
        share_of(out.subrange(0, n), turns, true).to_multiset().add(
            share_of(out.subrange(0, n), turns, false).to_multiset(),
        ) == out.subrange(0, n).to_multiset(),
        share_of(out.subrange(0, n), turns, true).len() + share_of(
            out.subrange(0, n),
            turns,
            false,
        ).len() == n,
    decreases n,
{
    let head = out.subrange(0, n);
    if n == 0 {
        lemma_nothing_holds_nothing::<T>();
        assert(head =~= Seq::<T>::empty());
        assert(head.to_multiset().add(head.to_multiset()) =~= head.to_multiset());
    } else {
        let before = out.subrange(0, n - 1);
        let item = out[n - 1];
        assert(head.drop_last() =~= before);
        assert(head.last() == item);
        assert(before.push(item) =~= head);
        lemma_shares_of_prefix(out, turns, n - 1);
        to_multiset_build(before, item);
        to_multiset_build(share_of(before, turns, true), item);
        to_multiset_build(share_of(before, turns, false), item);
        let a = share_of(head, turns, true).to_multiset();
        let b = share_of(head, turns, false).to_multiset();
        assert(a.add(b) =~= head.to_multiset());
    }
}

/// The two receivers' shares hold, together, every item that came out, as
/// often as it came out.
pub proof fn lemma_shares_part_the_items<T>(out: Seq<T>, turns: Seq<bool>)
    requires
        turns.len() == out.len(),
    ensures
        share_of(out, turns, true).to_multiset().add(share_of(out, turns, false).to_multiset())
            == out.to_multiset(),
        share_of(out, turns, true).len() + share_of(out, turns, false).len() == out.len(),
{
    lemma_shares_of_prefix(out, turns, out.len() as int);
    assert(out.subrange(0, out.len() as int) =~= out);
}

/// Each item goes to one receiver. Whatever calls were made on a channel, and
/// whichever of two receivers made each receive call that handed out an item
/// (`turns` names it, item after item): every item that was sent is either
/// pending or in the one receiver's share or in the other's, as often as it
/// was sent.
pub proof fn lemma_each_item_goes_to_one_receiver<T: Ord>(calls: Seq<Call<T>>, turns: Seq<bool>)
    requires
        total_order::<T>(),
        turns.len() == received_by(calls).len(),
    ensures
        pending(calls).to_multiset().add(
            share_of(received_by(calls), turns, true).to_multiset().add(
                share_of(received_by(calls), turns, false).to_multiset(),
            ),
        ) == sent_by(calls).to_multiset(),
{
    lemma_pending_is_sent_less_received(calls);
    lemma_shares_part_the_items(received_by(calls), turns);
}

/// What a store holds after the items of `sent` went in, in turn, starting
/// from nothing.
pub open spec fn stored<T: Ord>(sent: Seq<T>) -> Seq<T>
    decreases sent.len(),
{
    if sent.len() == 0 {
        Seq::empty()
    } else {
        inserted(stored(sent.drop_last()), sent.last())
    }
}

/// What comes out of a store that holds `s`, in turn, when the greatest item
/// is taken until none is left.
pub open spec fn drained_greatest<T: Ord>(s: Seq<T>) -> Seq<T>
    decreases s.len(),
{
    if s.len() == 0 {
        Seq::empty()
    } else {
        proof {
            lemma_first_at_least_parts(s.drop_last(), s.last());
        }
        seq![s[greatest_position(s)]] + drained_greatest(s.remove(greatest_position(s)))
    }
}

/// What comes out of a store that holds `s`, in turn, when the least item is
/// taken until none is left.
pub open spec fn drained_least<T: Ord>(s: Seq<T>) -> Seq<T>
    decreases s.len(),
{
    if s.len() == 0 {
        Seq::empty()
    } else {
        seq![s[0]] + drained_least(s.remove(0))
    }
}

/// A store that was filled from nothing is ascending and holds each item as
/// often as it was sent.
pub proof fn lemma_stored_holds_what_was_sent<T: Ord>(sent: Seq<T>)
    requires
        total_order::<T>(),
    ensures
        ascending(stored(sent)),
        stored(sent).to_multiset() == sent.to_multiset(),
    decreases sent.len(),
{
    if sent.len() == 0 {
        assert(sent =~= Seq::<T>::empty());
    } else {
        let before = sent.drop_last();
        let item = sent.last();
        let s = stored(before);
        lemma_stored_holds_what_was_sent(before);
        lemma_insert_position_parts(s, item);
        let p = insert_position(s, item);
        lemma_insert_keeps_ascending(s, item, p);
        lemma_insert_multiset(s, item, p);
        to_multiset_build(before, item);
        assert(before.push(item) =~= sent);
    }
}

/// Taking the greatest item until none is left yields every item that the
/// store held, as often as it held it, and none before a greater one.
pub proof fn lemma_drained_greatest<T: Ord>(s: Seq<T>)
    requires
        total_order::<T>(),
        ascending(s),
    ensures
        descending(drained_greatest(s)),
        drained_greatest(s).to_multiset() == s.to_multiset(),
    decreases s.len(),
{
    if s.len() > 0 {
        lemma_greatest_position(s);
        let p = greatest_position(s);
        let top = s[p];
        let rest = s.remove(p);
        let tail = drained_greatest(rest);
        let out = drained_greatest(s);
        lemma_remove_keeps_ascending(s, p);
        lemma_drained_greatest(rest);
        assert(out =~= tail.insert(0, top));
        lemma_insert_multiset(tail, top, 0);
        to_multiset_remove(s, p);
        s.to_multiset_ensures();
        assert(s.contains(top));
        assert(out.to_multiset() =~= s.to_multiset());
        tail.to_multiset_ensures();
        rest.to_multiset_ensures();
        assert forall|i: int, j: int| 0 <= i <= j < out.len() implies at_most(
            #[trigger] out[j],
            #[trigger] out[i],
        ) by {
            if j == 0 {
                lemma_total(top, top);
            } else if i == 0 {
                let e = tail[j - 1];
                assert(out[j] == e);
                assert(tail.contains(e));
                assert(rest.to_multiset().count(e) > 0);
                assert(rest.contains(e));
                let k = choose|k: int| 0 <= k < rest.len() && rest[k] == e;
                let sk = if k < p { k } else { k + 1 };
                assert(rest[k] == s[sk]);
            } else {
                assert(out[i] == tail[i - 1] && out[j] == tail[j - 1]);
            }
        }
    } else {
        assert(drained_greatest(s) =~= s);
    }
}

/// Taking the least item until none is left yields the store's contents in
/// their own order.
pub proof fn lemma_drained_least<T: Ord>(s: Seq<T>)
    ensures
        drained_least(s) == s,
    decreases s.len(),
{
    if s.len() > 0 {
        lemma_drained_least(s.remove(0));
        assert(seq![s[0]] + s.remove(0) =~= s);
    } else {
        assert(drained_least(s) =~= s);
    }
}

/// Whatever is sent to an empty channel, in whatever order, a caller that then
/// receives the greatest item until the channel is empty gets every item that
/// was sent, as often as it was sent, and none before a greater one.
pub proof fn lemma_drain_greatest_descends<T: Ord>(sent: Seq<T>)
    requires
        total_order::<T>(),
    ensures
        descending(drained_greatest(stored(sent))),
        drained_greatest(stored(sent)).to_multiset() == sent.to_multiset(),
        drained_greatest(stored(sent)).len() == sent.len(),
{
    lemma_stored_holds_what_was_sent(sent);
    lemma_drained_greatest(stored(sent));
    drained_greatest(stored(sent)).to_multiset_ensures();
    sent.to_multiset_ensures();
}

/// Whatever is sent to an empty channel, in whatever order, a caller that then
/// receives the least item until the channel is empty gets every item that was
/// sent, as often as it was sent, and none before a lesser one.
pub proof fn lemma_drain_least_ascends<T: Ord>(sent: Seq<T>)
    requires
        total_order::<T>(),
    ensures
        ascending(drained_least(stored(sent))),
        drained_least(stored(sent)).to_multiset() == sent.to_multiset(),
        drained_least(stored(sent)).len() == sent.len(),
{
    lemma_stored_holds_what_was_sent(sent);
    lemma_drained_least(stored(sent));
    stored(sent).to_multiset_ensures();
    sent.to_multiset_ensures();
}

} // verus!
