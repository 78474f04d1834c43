//! How many subscriptions each connection may have.

use std::collections::HashMap;
use vstd::prelude::*;

verus! {

broadcast use vstd::std_specs::hash::group_hash_axioms;

/// Names a connection to the RPC server.
#[derive(Clone, Copy, Debug, PartialEq, Eq, Structural, Hash)]
pub struct ConnectionId(pub usize);

/// Counts, for each connection, the subscriptions it has reserved or
/// opened, and holds each connection to the same limit.
pub struct RpcConnections {
    /// The most subscriptions that one connection may have.
    capacity: usize,
    /// The subscriptions in use by each connection that has any.
    in_use: HashMap<usize, usize>,
}

impl RpcConnections {
    /// The most subscriptions that one connection may have.
    pub closed spec fn capacity(&self) -> nat {
        self.capacity as nat
    }

    /// The subscriptions that the connection has reserved or opened.
    pub closed spec fn in_use(&self, connection_id: ConnectionId) -> nat {
        if self.in_use@.contains_key(connection_id.0) {
            self.in_use@[connection_id.0] as nat
        } else {
            0
        }
    }

    /// No connection is over the limit, and none is listed without a
    /// subscription.
    pub closed spec fn wf(&self) -> bool {
        forall|id: usize| #[trigger]
            self.in_use@.contains_key(id) ==> 1 <= self.in_use@[id] <= self.capacity
    }

    /// In a counter that is in order no connection is over the limit.
    pub proof fn lemma_within_capacity(&self, connection_id: ConnectionId)
        requires
            self.wf(),
        ensures
            self.in_use(connection_id) <= self.capacity(),
    {
        if self.in_use@.contains_key(connection_id.0) {
            assert(self.in_use@[connection_id.0] <= self.capacity);
        }
    }

    /// A counter without connections, with the given limit for each.
    pub fn new(capacity: usize) -> (connections: Self)
        ensures
            connections.wf(),
            connections.capacity() == capacity,
            forall|connection_id: ConnectionId| connections.in_use(connection_id) == 0,
    {
        RpcConnections { capacity, in_use: HashMap::new() }
    }

    /// The subscriptions that the connection has reserved or opened.
    pub fn subscriptions_in_use(&self, connection_id: ConnectionId) -> (count: usize)
        requires
            self.wf(),
        ensures
            count == self.in_use(connection_id),
    {
        match self.in_use.get(&connection_id.0) {
            Some(count) => *count,
            None => 0,
        }
    }

    /// Reserves one subscription for the connection, unless it is at the
    /// limit. Returns whether it did.
    pub fn reserve_space(&mut self, connection_id: ConnectionId) -> (reserved: bool)
        requires
            old(self).wf(),
        ensures
            final(self).wf(),
            final(self).capacity() == old(self).capacity(),
            reserved == (old(self).in_use(connection_id) < old(self).capacity()),
            forall|other: ConnectionId|
                final(self).in_use(other) == old(self).in_use(other) + (if reserved && other
                    == connection_id {
                    1nat
                } else {
                    0nat
                }),
    {
        let count = self.subscriptions_in_use(connection_id);
        if count >= self.capacity {
            return false;
        }
        self.in_use.insert(connection_id.0, count + 1);
        true
    }

    /// Gives back one subscription of the connection, if it has any.
    pub fn release_space(&mut self, connection_id: ConnectionId)
        requires
            old(self).wf(),
        ensures
            final(self).wf(),
            final(self).capacity() == old(self).capacity(),
            forall|other: ConnectionId|
                final(self).in_use(other) == old(self).in_use(other) - (if other == connection_id
                    && old(self).in_use(connection_id) > 0 {
                    1nat
                } else {
                    0nat
                }),
    {
        let count = self.subscriptions_in_use(connection_id);
        if count > 1 {
            self.in_use.insert(connection_id.0, count - 1);
        } else if count == 1 {
            self.in_use.remove(&connection_id.0);
        }
    }
}

} // verus!
