//! Errors of subscription management.

use vstd::prelude::*;

verus! {

/// Why a request to the registry was turned down.
#[derive(Debug, Clone, PartialEq, Eq)]
pub enum SubscriptionManagementError {
    /// Capacity could not be obtained: the requesting subscription was ended
    /// to respect the cap on pinned blocks, or no operation slot was free.
    ExceededLimits,
    /// The subscription does not track the block, or has released it already.
    BlockHashAbsent,
    /// No subscription has the given identifier.
    SubscriptionAbsent,
    /// The same hash was given more than once.
    DuplicateHashes,
    /// The backend refused to pin the block; the message is the backend's.
    Custom(String),
}

} // verus!
