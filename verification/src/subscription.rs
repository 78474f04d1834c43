//! The state of one subscription.

use crate::assoc::{
    as_map, has_key, keys_distinct, lemma_empty_map, lemma_entry_in_map, lemma_key_has_position,
    lemma_map_size, lemma_prefix_set_all, lemma_prefix_set_next, lemma_push_inserts,
    lemma_remove_removes, lemma_update_replaces, position, prefix_set,
};
use crate::block_state::BlockStateMachine;
use crate::clock::PinClock;
use crate::hash::BlockHash;
use crate::operations::{decimal, OperationState, Operations, RegisteredOperation};
use vstd::prelude::*;
use vstd::seq_lib::lemma_seq_contains_after_push;

verus! {

/// Sends follow-up events of a subscription to its client stream.
pub type FollowEventSender<E> = futures::channel::mpsc::Sender<E>;

/// Receives the follow-up events of a subscription.
pub type FollowEventReceiver<E> = futures::channel::mpsc::Receiver<E>;

/// What a subscription knows of a block it tracks.
#[derive(Clone, Copy, Debug, PartialEq, Eq, Structural)]
pub struct BlockState {
    /// Which announcements and whether the release have been seen.
    pub state_machine: BlockStateMachine,
    /// When the block was first announced, on the registry's clock.
    pub timestamp: u128,
}

/// The blocks of a subscription after `hash` was announced at `now`.
///
/// A first announcement starts tracking the block. A second one is
/// recorded, and ends the tracking if the block was released in between.
pub open spec fn blocks_after_register(
    blocks: Map<BlockHash, BlockState>,
    hash: BlockHash,
    now: u128,
) -> Map<BlockHash, BlockState> {
    if !blocks.contains_key(hash) {
        blocks.insert(
            hash,
            BlockState { state_machine: BlockStateMachine::Registered, timestamp: now },
        )
    } else {
        let next = blocks[hash].state_machine.registered();
        if next == BlockStateMachine::FullyUnpinned {
            blocks.remove(hash)
        } else {
            blocks.insert(
                hash,
                BlockState { state_machine: next, timestamp: blocks[hash].timestamp },
            )
        }
    }
}

/// Whether the subscription holds `hash`: it tracks the block and has not
/// released it.
pub open spec fn holds_block(blocks: Map<BlockHash, BlockState>, hash: BlockHash) -> bool {
    blocks.contains_key(hash) && !blocks[hash].state_machine.released()
}

/// The blocks of a subscription after the release of `hash`. Nothing
/// changes unless the subscription holds the block. The tracking ends if
/// both announcements were seen.
pub open spec fn blocks_after_unregister(
    blocks: Map<BlockHash, BlockState>,
    hash: BlockHash,
) -> Map<BlockHash, BlockState> {
    if !holds_block(blocks, hash) {
        blocks
    } else {
        let next = blocks[hash].state_machine.unpinned();
        if next == BlockStateMachine::FullyUnpinned {
            blocks.remove(hash)
        } else {
            blocks.insert(
                hash,
                BlockState { state_machine: next, timestamp: blocks[hash].timestamp },
            )
        }
    }
}

/// An announcement makes a subscription hold the block if it is new to it,
/// and otherwise changes nothing in what the subscription holds.
pub proof fn lemma_register_holds(
    blocks: Map<BlockHash, BlockState>,
    hash: BlockHash,
    now: u128,
    other: BlockHash,
)
    ensures
        holds_block(blocks_after_register(blocks, hash, now), other) == (holds_block(blocks, other)
            || (other == hash && !blocks.contains_key(hash))),
{
}

/// The blocks of a subscription after the release of each of `hashes`, all
/// of which it holds: the release is recorded for each, and the tracking
/// ends for those of which both announcements were seen.
pub open spec fn blocks_after_unpin(
    blocks: Map<BlockHash, BlockState>,
    hashes: Set<BlockHash>,
) -> Map<BlockHash, BlockState> {
    Map::new(
        |hash: BlockHash|
            blocks.contains_key(hash) && !(hashes.contains(hash)
                && blocks[hash].state_machine.unpinned() == BlockStateMachine::FullyUnpinned),
        |hash: BlockHash|
            if hashes.contains(hash) {
                BlockState {
                    state_machine: blocks[hash].state_machine.unpinned(),
                    timestamp: blocks[hash].timestamp,
                }
            } else {
                blocks[hash]
            },
    )
}

/// Whether `oldest` is the time of the oldest tracked block, or `now` where
/// no block is tracked.
pub open spec fn is_oldest_timestamp(
    blocks: Map<BlockHash, BlockState>,
    now: u128,
    oldest: u128,
) -> bool {
    if blocks.dom() =~= Set::empty() {
        oldest == now
    } else {
        &&& exists|hash: BlockHash| #[trigger]
            blocks.contains_key(hash) && blocks[hash].timestamp == oldest
        &&& forall|hash: BlockHash| #[trigger]
            blocks.contains_key(hash) ==> oldest <= blocks[hash].timestamp
    }
}

/// The time of the oldest tracked block, or `now` where no block is
/// tracked.
pub open spec fn oldest_timestamp(blocks: Map<BlockHash, BlockState>, now: u128) -> u128 {
    choose|oldest: u128| is_oldest_timestamp(blocks, now, oldest)
}

/// There is one oldest timestamp at most.
pub proof fn lemma_oldest_timestamp_unique(
    blocks: Map<BlockHash, BlockState>,
    now: u128,
    oldest: u128,
)
    requires
        is_oldest_timestamp(blocks, now, oldest),
    ensures
        oldest_timestamp(blocks, now) == oldest,
{
    let chosen = oldest_timestamp(blocks, now);
    assert(is_oldest_timestamp(blocks, now, chosen));
    if !(blocks.dom() =~= Set::empty()) {
        let a = choose|hash: BlockHash| #[trigger]
            blocks.contains_key(hash) && blocks[hash].timestamp == oldest;
        let b = choose|hash: BlockHash| #[trigger]
            blocks.contains_key(hash) && blocks[hash].timestamp == chosen;
        assert(chosen <= blocks[a].timestamp);
        assert(oldest <= blocks[b].timestamp);
    }
}

/// What a subscription is, told without its channels.
pub struct SubscriptionView {
    /// Whether operations on the subscription's blocks run against the
    /// runtime of each block.
    pub with_runtime: bool,
    /// Whether the stop signal is still to be sent.
    pub stop_armed: bool,
    /// The number of operations started so far.
    pub operations_started: nat,
    /// The number of operation slots, free or taken.
    pub operation_slots: nat,
    /// The blocks that the subscription tracks.
    pub blocks: Map<BlockHash, BlockState>,
}

/// The state of one subscription.
#[verifier::reject_recursive_types(E)]
pub struct SubscriptionState<E> {
    /// Whether operations on the subscription's blocks run against the
    /// runtime of each block.
    with_runtime: bool,
    /// Sends the stop signal, once.
    tx_stop: Option<futures::channel::oneshot::Sender<()>>,
    /// Sends follow-up events to the subscription's client stream.
    response_sender: FollowEventSender<E>,
    /// The operations in flight.
    operations: Operations,
    /// The tracked blocks, each hash once. A subscription mostly tracks a
    /// few blocks near the head of the chain, and they are walked only when
    /// the registry is full.
    blocks: Vec<(BlockHash, BlockState)>,
    /// Tells the time at which a block is first announced.
    clock: PinClock,
}

impl<E> SubscriptionState<E> {
    /// The subscription without its channels.
    pub closed spec fn view(&self) -> SubscriptionView {
        SubscriptionView {
            with_runtime: self.with_runtime,
            stop_armed: self.tx_stop is Some,
            operations_started: self.operations.minted(),
            operation_slots: self.operations.capacity(),
            blocks: as_map(self.blocks@),
        }
    }

    /// No hash is tracked twice, and no block stays tracked once both
    /// announcements and the release were seen.
    pub closed spec fn wf(&self) -> bool {
        &&& keys_distinct(self.blocks@)
        &&& forall|i: int|
            0 <= i < self.blocks@.len() ==> (#[trigger] self.blocks@[i]).1.state_machine
                != BlockStateMachine::FullyUnpinned
    }

    /// A well-formed subscription tracks finitely many blocks, none of them
    /// in the last state.
    pub proof fn lemma_wf_blocks(&self)
        requires
            self.wf(),
        ensures
            self@.blocks.dom().finite(),
            forall|hash: BlockHash| #[trigger]
                self@.blocks.contains_key(hash) ==> self@.blocks[hash].state_machine
                    != BlockStateMachine::FullyUnpinned,
    {
        lemma_map_size(self.blocks@);
        assert forall|hash: BlockHash| #[trigger]
            self@.blocks.contains_key(hash) implies self@.blocks[hash].state_machine
            != BlockStateMachine::FullyUnpinned by {
            lemma_key_has_position(self.blocks@, hash);
        }
    }

    /// A subscription that tracks no block.
    pub fn new(
        with_runtime: bool,
        tx_stop: Option<futures::channel::oneshot::Sender<()>>,
        response_sender: FollowEventSender<E>,
        operations: Operations,
        clock: PinClock,
    ) -> (state: Self)
        ensures
            state.wf(),
            state@ == (SubscriptionView {
                with_runtime,
                stop_armed: tx_stop is Some,
                operations_started: operations.minted(),
                operation_slots: operations.capacity(),
                blocks: Map::empty(),
            }),
    {
        let state = SubscriptionState {
            with_runtime,
            tx_stop,
            response_sender,
            operations,
            blocks: Vec::new(),
            clock,
        };
        proof {
            lemma_empty_map(state.blocks@);
        }
        state
    }

    /// Where `hash` is tracked, if it is.
    fn find_block(&self, hash: BlockHash) -> (found: Option<usize>)
        requires
            self.wf(),
        ensures
            found is None ==> !self@.blocks.contains_key(hash),
            found matches Some(i) ==> {
                &&& i < self.blocks@.len()
                &&& self.blocks@[i as int].0 == hash
                &&& self@.blocks.contains_key(hash)
                &&& self@.blocks[hash] == self.blocks@[i as int].1
            },
    {
        let mut i: usize = 0;
        while i < self.blocks.len()
            invariant
                self.wf(),
                i <= self.blocks@.len(),
                forall|j: int| 0 <= j < i ==> (#[trigger] self.blocks@[j]).0 != hash,
            decreases self.blocks@.len() - i,
        {
            if self.blocks[i].0 == hash {
                proof {
                    lemma_entry_in_map(self.blocks@, i as int);
                }
                return Some(i);
            }
            i += 1;
        }
        proof {
            if has_key(self.blocks@, hash) {
                let p = position(self.blocks@, hash);
                assert(self.blocks@[p].0 == hash);
            }
        }
        None
    }

    /// Sends the stop signal, unless it was sent before. Whether anyone
    /// still listens does not matter.
    pub fn stop(&mut self)
        ensures
            final(self).wf() == old(self).wf(),
            final(self)@ == (SubscriptionView { stop_armed: false, ..old(self)@ }),
    {
        if let Some(tx_stop) = self.tx_stop.take() {
            let _ = tx_stop.send(());
        }
    }

    /// Records an announcement of `hash`, made now.
    ///
    /// Returns whether the block is new to the subscription, which is when
    /// the registry has to count it.
    pub fn register_block(&mut self, hash: BlockHash) -> (first: bool)
        requires
            old(self).wf(),
        ensures
            final(self).wf(),
            first == !old(self)@.blocks.contains_key(hash),
            exists|now: u128|
                final(self)@ == (SubscriptionView {
                    blocks: #[trigger] blocks_after_register(old(self)@.blocks, hash, now),
                    ..old(self)@
                }),
    {
        let now = self.clock.now();
        self.register_block_at(hash, now)
    }

    /// Records an announcement of `hash`, made at `now`.
    ///
    /// Returns whether the block is new to the subscription, which is when
    /// the registry has to count it.
    pub fn register_block_at(&mut self, hash: BlockHash, now: u128) -> (first: bool)
        requires
            old(self).wf(),
        ensures
            final(self).wf(),
            first == !old(self)@.blocks.contains_key(hash),
            final(self)@ == (SubscriptionView {
                blocks: blocks_after_register(old(self)@.blocks, hash, now),
                ..old(self)@
            }),
    {
        match self.find_block(hash) {
            Some(i) => {
                let mut block_state = self.blocks[i].1;
                block_state.state_machine.advance_register();
                if block_state.state_machine.is_fully_unpinned() {
                    proof {
                        lemma_remove_removes(self.blocks@, i as int);
                    }
                    self.blocks.remove(i);
                } else {
                    proof {
                        lemma_update_replaces(self.blocks@, i as int, block_state);
                    }
                    self.blocks[i] = (hash, block_state);
                }
                false
            },
            None => {
                let block_state = BlockState {
                    state_machine: BlockStateMachine::new(),
                    timestamp: now,
                };
                proof {
                    lemma_push_inserts(self.blocks@, hash, block_state);
                }
                self.blocks.push((hash, block_state));
                true
            },
        }
    }

    /// Records the release of `hash`.
    ///
    /// Returns whether there was a block to release: false where the
    /// subscription does not track the block or released it before.
    pub fn unregister_block(&mut self, hash: BlockHash) -> (released: bool)
        requires
            old(self).wf(),
        ensures
            final(self).wf(),
            released == holds_block(old(self)@.blocks, hash),
            final(self)@ == (SubscriptionView {
                blocks: blocks_after_unregister(old(self)@.blocks, hash),
                ..old(self)@
            }),
    {
        match self.find_block(hash) {
            Some(i) => {
                let mut block_state = self.blocks[i].1;
                if block_state.state_machine.was_unpinned() {
                    return false;
                }
                block_state.state_machine.advance_unpin();
                if block_state.state_machine.is_fully_unpinned() {
                    proof {
                        lemma_remove_removes(self.blocks@, i as int);
                    }
                    self.blocks.remove(i);
                } else {
                    proof {
                        lemma_update_replaces(self.blocks@, i as int, block_state);
                    }
                    self.blocks[i] = (hash, block_state);
                }
                true
            },
            None => false,
        }
    }

    /// Whether the subscription holds `hash`: the block was announced and
    /// not released since.
    pub fn contains_block(&self, hash: BlockHash) -> (held: bool)
        requires
            self.wf(),
        ensures
            held == holds_block(self@.blocks, hash),
    {
        match self.find_block(hash) {
            Some(i) => !self.blocks[i].1.state_machine.was_unpinned(),
            None => false,
        }
    }

    /// What the subscription knows of `hash`, if it tracks the block.
    pub fn block_state(&self, hash: BlockHash) -> (state: Option<BlockState>)
        requires
            self.wf(),
        ensures
            state == (if self@.blocks.contains_key(hash) {
                Some(self@.blocks[hash])
            } else {
                None
            }),
    {
        match self.find_block(hash) {
            Some(i) => Some(self.blocks[i].1),
            None => None,
        }
    }

    /// The time of the oldest tracked block, or the present time where no
    /// block is tracked.
    pub fn find_oldest_block_timestamp(&self) -> (oldest: u128)
        requires
            self.wf(),
        ensures
            exists|now: u128| oldest == #[trigger] oldest_timestamp(self@.blocks, now),
    {
        let now = self.clock.now();
        self.oldest_block_timestamp_at(now)
    }

    /// The time of the oldest tracked block, or `now` where no block is
    /// tracked. Walks all the blocks of the subscription.
    pub fn oldest_block_timestamp_at(&self, now: u128) -> (oldest: u128)
        requires
            self.wf(),
        ensures
            oldest == oldest_timestamp(self@.blocks, now),
    {
        if self.blocks.len() == 0 {
            proof {
                lemma_empty_map(self.blocks@);
                lemma_oldest_timestamp_unique(self@.blocks, now, now);
            }
            return now;
        }
        let mut oldest = self.blocks[0].1.timestamp;
        let mut i: usize = 1;
        while i < self.blocks.len()
            invariant
                1 <= i <= self.blocks@.len(),
                exists|j: int| 0 <= j < i && (#[trigger] self.blocks@[j]).1.timestamp == oldest,
                forall|j: int| 0 <= j < i ==> oldest <= (#[trigger] self.blocks@[j]).1.timestamp,
            decreases self.blocks@.len() - i,
        {
            if self.blocks[i].1.timestamp < oldest {
                oldest = self.blocks[i].1.timestamp;
            }
            i += 1;
        }
        proof {
            let j = choose|j: int|
                0 <= j < self.blocks@.len() && (#[trigger] self.blocks@[j]).1.timestamp == oldest;
            lemma_entry_in_map(self.blocks@, j);
            assert(self@.blocks.contains_key(self.blocks@[j].0));
            assert(self@.blocks.dom().contains(self.blocks@[j].0));
            assert forall|hash: BlockHash| #[trigger] self@.blocks.contains_key(hash) implies oldest
                <= self@.blocks[hash].timestamp by {
                lemma_key_has_position(self.blocks@, hash);
            }
            lemma_oldest_timestamp_unique(self@.blocks, now, oldest);
        }
        oldest
    }

    /// Whether `hash` is held at a position before `end`.
    spec fn held_before(&self, end: int, hash: BlockHash) -> bool {
        exists|j: int|
            0 <= j < end && j < self.blocks@.len() && (#[trigger] self.blocks@[j]).0 == hash
                && !self.blocks@[j].1.state_machine.released()
    }

    /// The hashes that the subscription holds, each once.
    pub fn held_blocks(&self) -> (held: Vec<BlockHash>)
        requires
            self.wf(),
        ensures
            held@.no_duplicates(),
            forall|hash: BlockHash| held@.contains(hash) <==> holds_block(self@.blocks, hash),
    {
        let mut held: Vec<BlockHash> = Vec::new();
        let mut i: usize = 0;
        while i < self.blocks.len()
            invariant
                self.wf(),
                i <= self.blocks@.len(),
                held@.no_duplicates(),
                forall|hash: BlockHash|
                    #[trigger] held@.contains(hash) == self.held_before(i as int, hash),
            decreases self.blocks@.len() - i,
        {
            let (hash, block_state) = self.blocks[i];
            let ghost before = held@;
            let keep = !block_state.state_machine.was_unpinned();
            if keep {
                held.push(hash);
            }
            proof {
                assert forall|other: BlockHash|
                    #[trigger] held@.contains(other) == self.held_before(i + 1, other) by {
                    assert(before.contains(other) == self.held_before(i as int, other));
                    if keep {
                        lemma_seq_contains_after_push(before, hash, other);
                    }
                    if self.held_before(i as int, other) {
                        let j = choose|j: int|
                            0 <= j < i && j < self.blocks@.len() && (#[trigger] self.blocks@[j]).0
                                == other && !self.blocks@[j].1.state_machine.released();
                        assert(0 <= j < i + 1);
                    }
                    if self.held_before(i + 1, other) {
                        let j = choose|j: int|
                            0 <= j < i + 1 && j < self.blocks@.len() && (
                            #[trigger] self.blocks@[j]).0 == other
                                && !self.blocks@[j].1.state_machine.released();
                        if j < i {
                            assert(self.held_before(i as int, other));
                        }
                    }
                    if keep && other == hash {
                        assert(self.blocks@[i as int].0 == other);
                    }
                }
                if keep {
                    assert(before.contains(hash) == self.held_before(i as int, hash));
                    if self.held_before(i as int, hash) {
                        let j = choose|j: int|
                            0 <= j < i && j < self.blocks@.len() && (#[trigger] self.blocks@[j]).0
                                == hash && !self.blocks@[j].1.state_machine.released();
                        assert(self.blocks@[j].0 != self.blocks@[i as int].0);
                    }
                    assert forall|a: int, b: int|
                        0 <= a < held@.len() && 0 <= b < held@.len() && a != b implies held@[a]
                        != held@[b] by {
                        if a < before.len() {
                            assert(before.contains(before[a]));
                        }
                        if b < before.len() {
                            assert(before.contains(before[b]));
                        }
                    }
                }
            }
            i += 1;
        }
        proof {
            assert forall|hash: BlockHash| held@.contains(hash) <==> holds_block(
                self@.blocks,
                hash,
            ) by {
                assert(held@.contains(hash) == self.held_before(i as int, hash));
                if self.held_before(i as int, hash) {
                    let j = choose|j: int|
                        0 <= j < i && j < self.blocks@.len() && (#[trigger] self.blocks@[j]).0
                            == hash && !self.blocks@[j].1.state_machine.released();
                    lemma_entry_in_map(self.blocks@, j);
                }
                if holds_block(self@.blocks, hash) {
                    lemma_key_has_position(self.blocks@, hash);
                    let p = position(self.blocks@, hash);
                    assert(self.blocks@[p].0 == hash);
                }
            }
        }
        held
    }

    /// Whether the subscription holds every one of `hashes`.
    pub fn contains_blocks(&self, hashes: &Vec<BlockHash>) -> (all: bool)
        requires
            self.wf(),
        ensures
            all == forall|j: int|
                0 <= j < hashes@.len() ==> holds_block(self@.blocks, #[trigger] hashes@[j]),
    {
        let mut k: usize = 0;
        while k < hashes.len()
            invariant
                self.wf(),
                k <= hashes@.len(),
                forall|j: int| 0 <= j < k ==> holds_block(self@.blocks, #[trigger] hashes@[j]),
            decreases hashes@.len() - k,
        {
            if !self.contains_block(hashes[k]) {
                return false;
            }
            k += 1;
        }
        true
    }

    /// Records the release of each of `hashes`, which are all different
    /// and all held.
    pub fn unregister_blocks(&mut self, hashes: &Vec<BlockHash>)
        requires
            old(self).wf(),
            hashes@.no_duplicates(),
            forall|j: int|
                0 <= j < hashes@.len() ==> holds_block(old(self)@.blocks, #[trigger] hashes@[j]),
        ensures
            final(self).wf(),
            final(self)@ == (SubscriptionView {
                blocks: blocks_after_unpin(old(self)@.blocks, hashes@.to_set()),
                ..old(self)@
            }),
    {
        let ghost start = self@;
        proof {
            assert forall|hash: BlockHash| !(#[trigger] prefix_set(hashes@, 0).contains(hash)) by {}
            assert(blocks_after_unpin(start.blocks, prefix_set(hashes@, 0)) =~= start.blocks);
        }
        let mut k: usize = 0;
        while k < hashes.len()
            invariant
                self.wf(),
                k <= hashes@.len(),
                hashes@.no_duplicates(),
                forall|j: int|
                    0 <= j < hashes@.len() ==> holds_block(start.blocks, #[trigger] hashes@[j]),
                self@ == (SubscriptionView {
                    blocks: blocks_after_unpin(start.blocks, prefix_set(hashes@, k as int)),
                    ..start
                }),
            decreases hashes@.len() - k,
        {
            let ghost before = self@.blocks;
            self.unregister_block(hashes[k]);
            proof {
                let hash = hashes@[k as int];
                lemma_prefix_set_next(hashes@, k as int);
                assert(holds_block(start.blocks, hash));
                assert(before.contains_key(hash) && before[hash] == start.blocks[hash]);
                assert(blocks_after_unregister(before, hash) =~= blocks_after_unpin(
                    start.blocks,
                    prefix_set(hashes@, k + 1),
                ));
            }
            k += 1;
        }
        proof {
            lemma_prefix_set_all(hashes@);
        }
    }

    /// Whether operations on the subscription's blocks run against the
    /// runtime of each block.
    pub fn has_runtime(&self) -> (with_runtime: bool)
        ensures
            with_runtime == self@.with_runtime,
    {
        self.with_runtime
    }

    /// A sender of follow-up events to the subscription's client stream.
    pub fn response_sender(&self) -> FollowEventSender<E> {
        self.response_sender.clone()
    }

    /// Whether another operation identifier can be given out.
    pub fn has_identifiers_left(&self) -> (left: bool)
        ensures
            left == (self@.operations_started < usize::MAX),
    {
        self.operations.has_identifiers_left()
    }

    /// Starts an operation with at least one slot and at most `to_reserve`.
    ///
    /// Returns nothing, and changes nothing, when no slot could be had.
    /// Otherwise the operation gets the numeral of the number of operations
    /// started before it as its identifier.
    pub fn register_operation(&mut self, to_reserve: usize) -> (operation: Option<
        RegisteredOperation,
    >)
        requires
            old(self)@.operations_started < usize::MAX,
        ensures
            final(self).wf() == old(self).wf(),
            to_reserve == 0 || old(self)@.operation_slots == 0 ==> operation is None,
            operation is None ==> final(self)@ == old(self)@,
            operation matches Some(op) ==> {
                &&& op.id() == decimal(old(self)@.operations_started)
                &&& 1 <= op.slots() <= to_reserve
                &&& op.slots() <= old(self)@.operation_slots
                &&& final(self)@ == (SubscriptionView {
                    operations_started: old(self)@.operations_started + 1,
                    ..old(self)@
                })
            },
    {
        self.operations.register_operation(to_reserve)
    }

    /// What is needed to stop the operation `id`, if it is still running.
    pub fn get_operation(&self, id: &str) -> (state: Option<OperationState>)
        ensures
            state matches Some(found) ==> found.id() == id@,
    {
        self.operations.get_operation(id)
    }
}

} // verus!
