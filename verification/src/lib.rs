//! A priority channel for one process: any number of senders push items of a
//! totally ordered type, any number of receivers pull the greatest or the least
//! pending item, and all of them share one store behind one lock.
//!
//! Nothing blocks waiting for an item: an empty channel answers `None`.

pub mod order;
pub mod store;
pub mod channel;
pub mod laws;
mod tree;

pub use channel::{pmpmc, Receiver, Sender};
pub use store::OrderedStore;
