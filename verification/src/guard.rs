//! Block guards: a block kept pinned for the time of one method call.

use crate::backend::{pin_outcome, Backend, BackendPins};
use crate::error::SubscriptionManagementError;
use crate::hash::BlockHash;
use crate::operations::RegisteredOperation;
use crate::subscription::FollowEventSender;
use std::sync::Arc;
use vstd::prelude::*;

verus! {

/// Keeps one block pinned, and one operation registered, while it lives.
///
/// The guard has a pin of its own at the backend, apart from the pin that
/// the registry holds for the subscriptions. So the block stays available
/// to the method that holds the guard even when the subscription ends in
/// the meantime. Dropping the guard gives the pin back and ends the
/// operation.
#[verifier::reject_recursive_types(E)]
pub struct BlockGuard<E, BE: Backend> {
    /// The pinned block.
    hash: BlockHash,
    /// Whether the method runs against the runtime of the block.
    with_runtime: bool,
    /// Sends follow-up events to the subscription's client stream.
    response_sender: FollowEventSender<E>,
    /// The operation that the method runs as.
    operation: RegisteredOperation,
    /// The backend, with the account of the guard's own pin.
    backend: BackendPins<BE>,
}

impl<E, BE: Backend> BlockGuard<E, BE> {
    /// The pinned block.
    pub closed spec fn pinned_hash(&self) -> BlockHash {
        self.hash
    }

    /// Whether the method runs against the runtime of the block.
    pub closed spec fn with_runtime(&self) -> bool {
        self.with_runtime
    }

    /// The operation that the method runs as.
    pub closed spec fn registered(&self) -> RegisteredOperation {
        self.operation
    }

    /// The pins of `hash` that the guard took from the backend and has not
    /// given back.
    pub closed spec fn backend_pins(&self, hash: BlockHash) -> nat {
        self.backend.outstanding(hash)
    }

    /// The backend at which the guard holds its pin.
    pub closed spec fn backend_handle(&self) -> Arc<BE> {
        self.backend.handle()
    }

    /// Whether the guard holds one pin of its block and nothing else.
    pub open spec fn holds_one_pin(&self) -> bool {
        forall|hash: BlockHash| #[trigger]
            self.backend_pins(hash) == (if hash == self.pinned_hash() {
                1nat
            } else {
                0nat
            })
    }

    /// Pins `hash` in the backend and wraps the pin in a guard.
    ///
    /// The backend decides whether there is a guard: its refusal is handed
    /// on as `Custom`, and `operation` is dropped with it, which frees its
    /// slots.
    pub(crate) fn new(
        hash: BlockHash,
        with_runtime: bool,
        response_sender: FollowEventSender<E>,
        operation: RegisteredOperation,
        backend: Arc<BE>,
    ) -> (guard: Result<Self, SubscriptionManagementError>)
        ensures
            guard matches Ok(made) ==> {
                &&& made.pinned_hash() == hash
                &&& made.with_runtime() == with_runtime
                &&& made.registered() == operation
                &&& made.backend_handle() == backend
                &&& made.holds_one_pin()
            },
            guard matches Err(error) ==> error is Custom,
    {
        let mut backend = BackendPins::new(backend);
        match pin_outcome(backend.pin(hash)) {
            Err(error) => Err(error),
            Ok(()) => Ok(BlockGuard { hash, with_runtime, response_sender, operation, backend }),
        }
    }

    /// The pinned block.
    pub fn hash(&self) -> (hash: BlockHash)
        ensures
            hash == self.pinned_hash(),
    {
        self.hash
    }

    /// Whether the method runs against the runtime of the block.
    pub fn has_runtime(&self) -> (with_runtime: bool)
        ensures
            with_runtime == self.with_runtime(),
    {
        self.with_runtime
    }

    /// A sender of follow-up events to the subscription's client stream.
    pub fn response_sender(&self) -> FollowEventSender<E> {
        self.response_sender.clone()
    }

    /// The operation that the method runs as.
    pub fn operation(&mut self) -> (operation: &mut RegisteredOperation)
        ensures
            *operation == old(self).registered(),
            final(self).registered() == *final(operation),
            final(self).pinned_hash() == old(self).pinned_hash(),
            final(self).with_runtime() == old(self).with_runtime(),
            final(self).backend_handle() == old(self).backend_handle(),
            forall|hash: BlockHash| final(self).backend_pins(hash) == old(self).backend_pins(hash),
    {
        &mut self.operation
    }
}

impl<E, BE: Backend> Drop for BlockGuard<E, BE> {
    /// Calls `unpin_block` of the embedder's backend, which answers the
    /// `pin_block` that made the guard. The operation ends when its handle
    /// is dropped right after. A destructor cannot hold verified calls, so
    /// this one call is not verified.
    #[verifier::external_body]
    fn drop(&mut self)
        opens_invariants none
        no_unwind
    {
        self.backend.backend.unpin_block(self.hash);
    }
}

} // verus!
