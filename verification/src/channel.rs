//! The channel: one ordered store behind one lock, and the handles that share
//! it.
//!
//! Every operation of a handle is one critical section: it takes the lock,
//! calls one operation of the store, and lets the lock go. What a handle finds
//! in the store depends on what the other handles did before, so the contracts
//! of `send`, `recv_greatest` and `recv_least` say nothing of the items; what
//! each critical section does to the store is the contract of the store's own
//! operation.

use vstd::prelude::*;
use std::sync::Arc;
use std::sync::Mutex;
use std::sync::MutexGuard;
use crate::order::total_order;
use crate::store::OrderedStore;

verus! {

/// `std::sync::Mutex`, opaque to the verifier.
#[verifier::external_type_specification]
#[verifier::external_body]
#[verifier::reject_recursive_types(T)]
pub struct ExMutex<T: ?Sized>(Mutex<T>);

/// `std::sync::MutexGuard`, opaque to the verifier.
#[verifier::external_type_specification]
#[verifier::external_body]
#[verifier::reject_recursive_types(T)]
pub struct ExMutexGuard<'a, T: ?Sized + 'a>(MutexGuard<'a, T>);

/// `Mutex::new` makes an unlocked mutex around `t`. Nothing is claimed of the
/// result.
pub assume_specification<T>[ Mutex::<T>::new ](t: T) -> (m: Mutex<T>);

/// `Mutex::lock` followed by `Result::expect`: waits for the lock and hands
/// out its guard. Nothing is claimed of the guard.
///
/// A lock is poisoned once a thread has unwound while it held the guard, and
/// `expect` then panics with "Poison error" in every later caller: a store
/// that was left in the middle of an operation is never read again. The
/// store's operations do not unwind where the comparison of `T` returns, so
/// this takes a comparison that panics. `lock` may also panic or wait for
/// ever in a thread that holds the lock already; every operation of a handle
/// drops its guard before it returns.
#[verifier::external_body]
fn lock_queue<'a, T: Ord>(queue: &'a Mutex<OrderedStore<T>>) -> (guard: MutexGuard<
    'a,
    OrderedStore<T>,
>) {
    queue.lock().expect("Poison error")
}

/// `DerefMut::deref_mut` of `MutexGuard`: the store that the guard protects,
/// for as long as the guard is borrowed. Nothing is claimed of what the store
/// holds.
#[verifier::external_body]
fn locked_store<'a, 'b, T: Ord>(guard: &'a mut MutexGuard<'b, OrderedStore<T>>) -> (store:
    &'a mut OrderedStore<T>) {
    std::ops::DerefMut::deref_mut(guard)
}

/// The shared state of one channel: the ordered store and the lock that guards
/// it. It lives as long as a handle refers to it.
#[verifier::reject_recursive_types(T)]
pub struct Inner<T: Ord> {
    queue: Mutex<OrderedStore<T>>,
}

/// The sending half of a channel. Its clones feed the same channel.
#[verifier::reject_recursive_types(T)]
pub struct Sender<T: Ord> {
    inner: Arc<Inner<T>>,
}

/// The receiving half of a channel. Its clones draw from the same channel, and
/// each item goes to one of them.
#[verifier::reject_recursive_types(T)]
pub struct Receiver<T: Ord> {
    inner: Arc<Inner<T>>,
}

impl<T: Ord> Sender<T> {
    /// The shared state that this handle refers to.
    pub closed spec fn channel(&self) -> Inner<T> {
        *self.inner
    }

    /// Adds `item` to the channel's pending items, in one critical section
    /// that is one `OrderedStore::insert`. Never waits for a receiver.
    pub fn send(&self, item: T)
        requires
            total_order::<T>(),
    {
        let mut guard = lock_queue(&self.inner.queue);
        let store = locked_store(&mut guard);
        store.insert(item);
    }
}

impl<T: Ord> Clone for Sender<T> {
    /// A new handle to the same channel; the store is not copied.
    fn clone(&self) -> (res: Self)
        ensures
            res.channel() == self.channel(),
    {
        Sender { inner: Arc::clone(&self.inner) }
    }
}

impl<T: Ord> Receiver<T> {
    /// The shared state that this handle refers to.
    pub closed spec fn channel(&self) -> Inner<T> {
        *self.inner
    }

    /// Takes the greatest pending item out of the channel, or returns `None`
    /// at once where nothing is pending, in one critical section that is one
    /// `OrderedStore::extract_max`.
    pub fn recv_greatest(&self) -> (r: Option<T>)
        requires
            total_order::<T>(),
    {
        let mut guard = lock_queue(&self.inner.queue);
        let store = locked_store(&mut guard);
        store.extract_max()
    }

    /// Takes the least pending item out of the channel, or returns `None` at
    /// once where nothing is pending, in one critical section that is one
    /// `OrderedStore::extract_min`.
    pub fn recv_least(&self) -> (r: Option<T>)
    {
        let mut guard = lock_queue(&self.inner.queue);
        let store = locked_store(&mut guard);
        store.extract_min()
    }
}

impl<T: Ord> Clone for Receiver<T> {
    /// A new handle to the same channel; the store is not copied.
    fn clone(&self) -> (res: Self)
        ensures
            res.channel() == self.channel(),
    {
        Receiver { inner: Arc::clone(&self.inner) }
    }
}

/// Makes a channel with nothing pending and returns one sender and one
/// receiver of it. Further handles come from cloning these.
pub fn pmpmc<T: Ord>() -> (pair: (Sender<T>, Receiver<T>))
    ensures
        pair.0.channel() == pair.1.channel(),
{
    let inner = Inner { queue: Mutex::new(OrderedStore::new()) };
    let shared_inner = Arc::new(inner);
    (Sender { inner: shared_inner.clone() }, Receiver { inner: shared_inner.clone() })
}

} // verus!
