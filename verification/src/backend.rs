//! The storage backend, as far as pinning needs it.

use crate::error::SubscriptionManagementError;
use crate::hash::BlockHash;
use crate::trusted::share;
use std::sync::Arc;
use vstd::prelude::*;

verus! {

/// What the registry asks of the storage that holds the blocks.
///
/// The backend counts pins for itself: a block stays available until every
/// `pin_block` that succeeded for it was answered by one `unpin_block`.
pub trait Backend {
    /// Keeps the state of `hash` from being pruned. On failure the message
    /// says why.
    fn pin_block(&self, hash: BlockHash) -> Result<(), String>;

    /// Takes back one earlier pin of `hash`.
    fn unpin_block(&self, hash: BlockHash);
}

/// What a request gets when the backend answered `pinned` to its pin: the
/// backend's refusal, word for word, or nothing to complain about.
pub fn pin_outcome(pinned: Result<(), String>) -> (outcome: Result<(), SubscriptionManagementError>)
    ensures
        outcome == (match pinned {
            Ok(()) => Ok::<(), SubscriptionManagementError>(()),
            Err(message) => Err(SubscriptionManagementError::Custom(message)),
        }),
{
    match pinned {
        Ok(()) => Ok(()),
        Err(message) => Err(SubscriptionManagementError::Custom(message)),
    }
}

/// A backend together with the account of the pins taken through it.
///
/// The account can only move with a call to the backend: [`Self::pin`] and
/// [`Self::unpin`] are the only ways to change it.
pub struct BackendPins<BE: Backend> {
    /// The backend.
    pub(crate) backend: Arc<BE>,
    /// For each block, the pins that succeeded and were not taken back.
    outstanding: Ghost<Map<BlockHash, nat>>,
}

impl<BE: Backend> BackendPins<BE> {
    /// The pins of `hash` that succeeded and were not taken back.
    pub closed spec fn outstanding(&self, hash: BlockHash) -> nat {
        if self.outstanding@.contains_key(hash) {
            self.outstanding@[hash]
        } else {
            0
        }
    }

    /// The backend that the account is kept for.
    pub closed spec fn handle(&self) -> Arc<BE> {
        self.backend
    }

    /// An account without pins.
    pub fn new(backend: Arc<BE>) -> (pins: Self)
        ensures
            pins.handle() == backend,
            forall|hash: BlockHash| pins.outstanding(hash) == 0,
    {
        BackendPins { backend, outstanding: Ghost(Map::empty()) }
    }

    /// Asks the backend to pin `hash`, and books the pin if it succeeded.
    pub fn pin(&mut self, hash: BlockHash) -> (pinned: Result<(), String>)
        ensures
            final(self).handle() == old(self).handle(),
            forall|other: BlockHash|
                final(self).outstanding(other) == old(self).outstanding(other) + (if other == hash
                    && pinned is Ok {
                    1nat
                } else {
                    0nat
                }),
    {
        let pinned = self.backend.pin_block(hash);
        if pinned.is_ok() {
            proof {
                let count = self.outstanding(hash);
                self.outstanding@ = self.outstanding@.insert(hash, count + 1);
            }
        }
        pinned
    }

    /// Takes back one pin of `hash` and books that.
    pub fn unpin(&mut self, hash: BlockHash)
        requires
            old(self).outstanding(hash) >= 1,
        ensures
            final(self).handle() == old(self).handle(),
            forall|other: BlockHash|
                final(self).outstanding(other) == old(self).outstanding(other) - (if other
                    == hash {
                    1nat
                } else {
                    0nat
                }),
    {
        self.backend.unpin_block(hash);
        proof {
            let count = self.outstanding(hash);
            self.outstanding@ = self.outstanding@.insert(hash, (count - 1) as nat);
        }
    }

    /// The backend itself, for pins that are booked elsewhere.
    pub fn backend(&self) -> (backend: Arc<BE>)
        ensures
            backend == self.handle(),
    {
        share(&self.backend)
    }
}

} // verus!
