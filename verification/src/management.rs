//! Subscriptions by reservation.
//!
//! A connection may have a bounded number of subscriptions. A handler
//! first reserves one, which is cheap and may fail, and then inserts the
//! subscription under an identifier of its choice, which can no longer
//! fail for want of a slot. Giving the reservation back ends what was made
//! of it.

use crate::backend::Backend;
use crate::connections::{ConnectionId, RpcConnections};
use crate::model::RegistryView;
use crate::registry::{InsertedSubscriptionData, SubscriptionsInner};
use crate::subscription::SubscriptionView;
use vstd::prelude::*;

verus! {

/// What has become of a reservation.
#[derive(Debug, Clone, PartialEq, Eq)]
pub enum ReservationState {
    /// The slot is reserved; no subscription was inserted yet.
    Reserved,
    /// The subscription with this identifier was inserted.
    Inserted(String),
    /// The reservation is spent.
    Empty,
}

/// One subscription slot of a connection.
///
/// The slot stays taken until the reservation is handed to
/// [`SubscriptionManagement::release`].
#[derive(Debug)]
pub struct ReservedSubscription {
    /// The connection that the slot belongs to.
    connection_id: ConnectionId,
    /// What has become of the reservation.
    state: ReservationState,
}

impl ReservedSubscription {
    /// The connection that the slot belongs to.
    pub closed spec fn connection(&self) -> ConnectionId {
        self.connection_id
    }

    /// What has become of the reservation.
    pub closed spec fn state(&self) -> ReservationState {
        self.state
    }

    /// Whether the reservation is still to be used.
    pub open spec fn is_unused(&self) -> bool {
        self.state() == ReservationState::Reserved
    }

    /// The connection that the slot belongs to.
    pub fn connection_id(&self) -> (connection_id: ConnectionId)
        ensures
            connection_id == self.connection(),
    {
        self.connection_id
    }

    /// The identifier of the subscription that was inserted, if one was.
    pub fn subscription_id(&self) -> (sub_id: Option<String>)
        ensures
            match self.state() {
                ReservationState::Inserted(id) => sub_id matches Some(found) && found@ == id@,
                _ => sub_id is None,
            },
    {
        match &self.state {
            ReservationState::Inserted(id) => Some(id.clone()),
            _ => None,
        }
    }
}

/// The registry together with the count of subscriptions per connection.
#[verifier::reject_recursive_types(E)]
pub struct SubscriptionManagement<E, BE: Backend> {
    /// The subscriptions and the blocks pinned for them.
    inner: SubscriptionsInner<E, BE>,
    /// The subscriptions in use by each connection.
    rpc_connections: RpcConnections,
}

impl<E, BE: Backend> SubscriptionManagement<E, BE> {
    /// The registry without its channels and its backend.
    pub closed spec fn registry(&self) -> RegistryView {
        self.inner@
    }

    /// The subscriptions that the connection has reserved or opened.
    pub closed spec fn in_use(&self, connection_id: ConnectionId) -> nat {
        self.rpc_connections.in_use(connection_id)
    }

    /// The most subscriptions that one connection may have.
    pub closed spec fn capacity(&self) -> nat {
        self.rpc_connections.capacity()
    }

    /// The registry and the counts are in order.
    pub closed spec fn wf(&self) -> bool {
        self.inner.wf() && self.rpc_connections.wf()
    }

    /// No connection has more subscriptions than the limit.
    pub proof fn lemma_within_capacity(&self, connection_id: ConnectionId)
        requires
            self.wf(),
        ensures
            self.in_use(connection_id) <= self.capacity(),
    {
        self.rpc_connections.lemma_within_capacity(connection_id);
    }

    /// Puts a registry under the given count of connections.
    pub fn from_inner(
        inner: SubscriptionsInner<E, BE>,
        rpc_connections: RpcConnections,
    ) -> (management: Self)
        requires
            inner.wf(),
            rpc_connections.wf(),
        ensures
            management.wf(),
            management.registry() == inner@,
            management.capacity() == rpc_connections.capacity(),
            forall|connection_id: ConnectionId|
                management.in_use(connection_id) == rpc_connections.in_use(connection_id),
    {
        SubscriptionManagement { inner, rpc_connections }
    }

    /// The registry, to read.
    pub fn inner(&self) -> (inner: &SubscriptionsInner<E, BE>)
        requires
            self.wf(),
        ensures
            inner.wf(),
            inner@ == self.registry(),
    {
        &self.inner
    }

    /// Reserves a subscription for the connection, unless the connection
    /// has as many as it may have.
    pub fn reserve_subscription(&mut self, connection_id: ConnectionId) -> (reserved: Option<
        ReservedSubscription,
    >)
        requires
            old(self).wf(),
        ensures
            final(self).wf(),
            final(self).registry() == old(self).registry(),
            final(self).capacity() == old(self).capacity(),
            reserved is Some == (old(self).in_use(connection_id) < old(self).capacity()),
            reserved matches Some(slot) ==> slot.connection() == connection_id && slot.state()
                == ReservationState::Reserved,
            forall|other: ConnectionId|
                final(self).in_use(other) == old(self).in_use(other) + (if reserved is Some
                    && other == connection_id {
                    1nat
                } else {
                    0nat
                }),
    {
        if self.rpc_connections.reserve_space(connection_id) {
            Some(ReservedSubscription { connection_id, state: ReservationState::Reserved })
        } else {
            None
        }
    }

    /// Inserts the subscription `sub_id` on the strength of a reservation.
    ///
    /// A reservation serves once. If the registry has a subscription of
    /// that name already, nothing is inserted, the reservation is spent all
    /// the same, and its slot is free again.
    pub fn insert_subscription(
        &mut self,
        reserved: &mut ReservedSubscription,
        sub_id: String,
        with_runtime: bool,
    ) -> (data: Option<InsertedSubscriptionData<E>>)
        requires
            old(self).wf(),
        ensures
            final(self).wf(),
            final(self).capacity() == old(self).capacity(),
            final(reserved).connection() == old(reserved).connection(),
            old(self).registry().accounted() ==> final(self).registry().accounted(),
            data is Some == (old(reserved).is_unused() && !old(self).registry().subs.contains_key(
                sub_id@,
            )),
            data is Some ==> {
                &&& final(reserved).state() matches ReservationState::Inserted(id) && id@ == sub_id@
                &&& final(self).registry() == (RegistryView {
                    subs: old(self).registry().subs.insert(
                        sub_id@,
                        SubscriptionView {
                            with_runtime,
                            stop_armed: true,
                            operations_started: 0,
                            operation_slots: old(self).registry().max_ongoing_operations as nat,
                            blocks: Map::empty(),
                        },
                    ),
                    ..old(self).registry()
                })
            },
            data is None ==> final(self).registry() == old(self).registry(),
            data is None && old(reserved).is_unused() ==> final(reserved).state()
                == ReservationState::Empty,
            data is None && !old(reserved).is_unused() ==> final(reserved).state() == old(
                reserved,
            ).state(),
            forall|other: ConnectionId|
                final(self).in_use(other) == old(self).in_use(other) - (if data is None && old(
                    reserved,
                ).is_unused() && other == old(reserved).connection() && old(self).in_use(other)
                    > 0 {
                    1nat
                } else {
                    0nat
                }),
    {
        match &reserved.state {
            ReservationState::Reserved => {},
            _ => {
                return None;
            },
        }
        let name = sub_id.clone();
        match self.inner.insert_subscription(sub_id, with_runtime) {
            Some(data) => {
                reserved.state = ReservationState::Inserted(name);
                Some(data)
            },
            None => {
                reserved.state = ReservationState::Empty;
                self.rpc_connections.release_space(reserved.connection_id);
                None
            },
        }
    }

    /// Takes a reservation back: the subscription that was inserted with it
    /// is ended, and the slot of the connection is free again. A spent
    /// reservation has nothing to give back.
    pub fn release(&mut self, reserved: ReservedSubscription)
        requires
            old(self).wf(),
        ensures
            final(self).wf(),
            final(self).capacity() == old(self).capacity(),
            old(self).registry().accounted() ==> final(self).registry().accounted(),
            final(self).registry() == (match reserved.state() {
                ReservationState::Inserted(id) => old(self).registry().without(set![id@]),
                _ => old(self).registry(),
            }),
            forall|other: ConnectionId|
                final(self).in_use(other) == old(self).in_use(other) - (if reserved.state()
                    != ReservationState::Empty && other == reserved.connection() && old(
                    self,
                ).in_use(other) > 0 {
                    1nat
                } else {
                    0nat
                }),
    {
        match &reserved.state {
            ReservationState::Inserted(sub_id) => {
                self.inner.remove_subscription(sub_id.as_str());
                self.rpc_connections.release_space(reserved.connection_id);
            },
            ReservationState::Reserved => {
                self.rpc_connections.release_space(reserved.connection_id);
            },
            ReservationState::Empty => {},
        }
    }

    /// Ends the subscription `sub_id`, see
    /// [`SubscriptionsInner::remove_subscription`].
    pub fn remove_subscription(&mut self, sub_id: &str)
        requires
            old(self).wf(),
        ensures
            final(self).wf(),
            final(self).capacity() == old(self).capacity(),
            final(self).registry() == old(self).registry().without(set![sub_id@]),
            old(self).registry().accounted() ==> final(self).registry().accounted(),
            forall|other: ConnectionId| final(self).in_use(other) == old(self).in_use(other),
    {
        self.inner.remove_subscription(sub_id);
    }

    /// The registry, to work on. Whatever is done through it keeps the
    /// counts of the connections as they are.
    pub fn inner_mut(&mut self) -> (inner: &mut SubscriptionsInner<E, BE>)
        requires
            old(self).wf(),
        ensures
            inner.wf(),
            inner@ == old(self).registry(),
            final(self).registry() == final(inner)@,
            final(self).capacity() == old(self).capacity(),
            forall|other: ConnectionId| final(self).in_use(other) == old(self).in_use(other),
            final(inner).wf() ==> final(self).wf(),
    {
        &mut self.inner
    }
}

} // verus!
