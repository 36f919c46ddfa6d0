//! Registration record of a watcher of key-value change events.

use vstd::prelude::*;

verus! {

/// Identifier of a watcher.
pub type WatcherId = i64;

/// Which kinds of change events a watcher receives.
#[derive(PartialEq, Eq, Structural, Clone, Copy, Debug)]
pub enum FilterType {
    All,
    Update,
    Delete,
}

/// Attributes of a watcher that is interested in kv change events.
pub struct WatcherInfo {
    pub id: WatcherId,
    pub filter_type: FilterType,
    pub key: String,
    pub key_end: String,
}

/// A watcher together with the channel its events are sent through.
pub struct WatcherStream<S> {
    pub watcher: WatcherInfo,
    tx: S,
}

impl<S> WatcherStream<S> {
    /// A watcher of the keys `key .. key_end` that sends through `tx`.
    pub fn new(id: WatcherId, filter_type: FilterType, tx: S, key: String, key_end: String) -> (r: Self)
        ensures
            r.info().id == id,
            r.info().filter_type == filter_type,
            r.info().key@ == key@,
            r.info().key_end@ == key_end@,
            r.sender() == tx,
    {
        WatcherStream { watcher: WatcherInfo { id, filter_type, key, key_end }, tx }
    }

    /// The watcher's attributes.
    pub closed spec fn info(&self) -> WatcherInfo {
        self.watcher
    }

    /// The channel the watcher's events go to.
    pub closed spec fn sender(&self) -> S {
        self.tx
    }

    /// Borrows the channel the watcher's events go to.
    pub fn tx(&self) -> (r: &S)
        ensures
            *r == self.sender(),
    {
        &self.tx
    }
}

} // verus!
