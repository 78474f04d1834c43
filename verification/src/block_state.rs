//! The life of one block inside one subscription.
//!
//! A block is announced twice, once as a new or best block and once as a
//! finalized block, and the client releases it once. The three events may
//! come in any order. Tracking must go on until all three have been seen:
//! forgetting the block at the release would let the second announcement
//! pin it afresh.
//!
//! ```text
//!                   (register)
//! [ Registered ]  ---------------> [ FullyRegistered ]
//!       |                              |
//!       | (unpin)                      | (unpin)
//!       V           (register)         V
//! [ Unpinned ]  -----------------> [ FullyUnpinned ]
//! ```

use vstd::prelude::*;

verus! {

/// Which of the two announcements and the release have been seen.
#[derive(Debug, Clone, Copy, PartialEq, Eq, Structural)]
pub enum BlockStateMachine {
    /// One announcement was seen; the block was not released.
    Registered,
    /// Both announcements were seen; the block was not released.
    FullyRegistered,
    /// One announcement was seen, and the block was released.
    Unpinned,
    /// Both announcements were seen, and the block was released.
    FullyUnpinned,
}

impl BlockStateMachine {
    /// The state that an announcement leads to.
    pub open spec fn registered(self) -> BlockStateMachine {
        match self {
            BlockStateMachine::Registered => BlockStateMachine::FullyRegistered,
            BlockStateMachine::Unpinned => BlockStateMachine::FullyUnpinned,
            BlockStateMachine::FullyRegistered => BlockStateMachine::FullyRegistered,
            BlockStateMachine::FullyUnpinned => BlockStateMachine::FullyUnpinned,
        }
    }

    /// The state that a release leads to.
    pub open spec fn unpinned(self) -> BlockStateMachine {
        match self {
            BlockStateMachine::Registered => BlockStateMachine::Unpinned,
            BlockStateMachine::FullyRegistered => BlockStateMachine::FullyUnpinned,
            BlockStateMachine::Unpinned => BlockStateMachine::Unpinned,
            BlockStateMachine::FullyUnpinned => BlockStateMachine::FullyUnpinned,
        }
    }

    /// Whether the block was released.
    pub open spec fn released(self) -> bool {
        self == BlockStateMachine::Unpinned || self == BlockStateMachine::FullyUnpinned
    }

    /// The state of a block at its first announcement.
    pub fn new() -> (state: Self)
        ensures
            state == BlockStateMachine::Registered,
    {
        BlockStateMachine::Registered
    }

    /// Records an announcement of the block.
    pub fn advance_register(&mut self)
        ensures
            *final(self) == old(self).registered(),
    {
        match self {
            BlockStateMachine::Registered => *self = BlockStateMachine::FullyRegistered,
            BlockStateMachine::Unpinned => *self = BlockStateMachine::FullyUnpinned,
            _ => (),
        }
    }

    /// Records the release of the block.
    pub fn advance_unpin(&mut self)
        ensures
            *final(self) == old(self).unpinned(),
    {
        match self {
            BlockStateMachine::Registered => *self = BlockStateMachine::Unpinned,
            BlockStateMachine::FullyRegistered => *self = BlockStateMachine::FullyUnpinned,
            _ => (),
        }
    }

    /// Whether the block was released.
    pub fn was_unpinned(&self) -> (unpinned: bool)
        ensures
            unpinned == self.released(),
    {
        match self {
            BlockStateMachine::Unpinned => true,
            BlockStateMachine::FullyUnpinned => true,
            _ => false,
        }
    }

    /// Whether nothing more can happen to the block.
    pub fn is_fully_unpinned(&self) -> (done: bool)
        ensures
            done == (*self == BlockStateMachine::FullyUnpinned),
    {
        match self {
            BlockStateMachine::FullyUnpinned => true,
            _ => false,
        }
    }
}

/// An announcement changes nothing once both announcements were seen, and
/// a release changes nothing once the block was released. Either step,
/// taken twice, leads where taking it once leads.
pub proof fn lemma_terminal_steps_are_idle(state: BlockStateMachine)
    ensures
        state == BlockStateMachine::FullyRegistered || state == BlockStateMachine::FullyUnpinned
            ==> state.registered() == state,
        state.released() ==> state.unpinned() == state,
        state.registered().registered() == state.registered(),
        state.unpinned().unpinned() == state.unpinned(),
{
}

/// An announcement and a release lead to the same state in either order.
pub proof fn lemma_register_unpin_commute(state: BlockStateMachine)
    ensures
        state.registered().unpinned() == state.unpinned().registered(),
{
}

} // verus!
