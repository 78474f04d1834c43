//! The registry of subscriptions and of the blocks pinned for them.

use crate::assoc::{
    as_map, has_key, keys_distinct, lemma_empty_map, lemma_entry_in_map, lemma_key_has_position,
    lemma_map_size, lemma_prefix_set_all, lemma_prefix_set_next, lemma_push_inserts,
    lemma_remove_removes, lemma_update_replaces, position, prefix_set,
};
use crate::backend::{pin_outcome, Backend, BackendPins};
use crate::clock::PinClock;
use crate::error::SubscriptionManagementError;
use crate::guard::BlockGuard;
use crate::hash::BlockHash;
use crate::model::{
    after_release, expired, given_up_by, holders, lemma_holders_after_insert,
    lemma_holders_bounded, lemma_release_same, lemma_release_shrinks, lemma_release_twice,
    lemma_without_all_is_empty, lemma_without_counts, lemma_without_keeps_accounts,
    lemma_without_one, lemma_without_strangers, lemma_without_then_without, listed, listing,
    one_each, pin_block_outcome, reference_count, unpin_blocks_outcome, RegistryView,
};
use crate::operations::{decimal, OperationState, Operations};
use crate::subscription::{
    holds_block, lemma_register_holds, BlockState, FollowEventReceiver, SubscriptionState,
    SubscriptionView,
};
use crate::trusted::duration_nanos;
use std::sync::Arc;
use std::time::Duration;
use vstd::prelude::*;

verus! {

/// What the follow method gets back once its subscription is in the
/// registry.
#[verifier::reject_recursive_types(E)]
pub struct InsertedSubscriptionData<E> {
    /// Tells that the subscription must stop.
    pub rx_stop: futures::channel::oneshot::Receiver<()>,
    /// Receives the follow-up events of the subscription's methods.
    pub response_receiver: FollowEventReceiver<E>,
}

/// What locking `hash` for subscription `id` with `to_reserve` wanted slots
/// returns and leaves behind.
///
/// Without the subscription, or where it does not hold the block, nothing
/// happens. Else the available slots and the backend decide between a
/// guard, `ExceededLimits` and `Custom`; no slot is to be had where none
/// is wanted or the subscription has none at all.
pub open spec fn lock_block_outcome<E, BE: Backend>(
    before: RegistryView,
    id: Seq<char>,
    hash: BlockHash,
    to_reserve: usize,
    result: Result<BlockGuard<E, BE>, SubscriptionManagementError>,
    after: RegistryView,
) -> bool {
    if !before.subs.contains_key(id) {
        &&& result matches Err(SubscriptionManagementError::SubscriptionAbsent)
        &&& after == before
    } else if !holds_block(before.subs[id].blocks, hash) {
        &&& result matches Err(SubscriptionManagementError::BlockHashAbsent)
        &&& after == before
    } else {
        match result {
            Ok(guard) => {
                &&& guard.pinned_hash() == hash
                &&& guard.with_runtime() == before.subs[id].with_runtime
                &&& guard.registered().id() == decimal(before.subs[id].operations_started)
                &&& 1 <= guard.registered().slots() <= to_reserve
                &&& guard.registered().slots() <= before.max_ongoing_operations
                &&& guard.holds_one_pin()
                &&& after == before.with_operation_started(id)
            },
            Err(SubscriptionManagementError::ExceededLimits) => after == before,
            Err(SubscriptionManagementError::Custom(_)) => {
                &&& to_reserve > 0
                &&& before.max_ongoing_operations > 0
                &&& after == before.with_operation_started(id)
            },
            Err(_) => false,
        }
    }
}

/// The capacity of the event channel of each subscription.
pub const BUF_CAP_PER_SUBSCRIPTION: usize = 16;

/// The subscriptions and the blocks pinned for them.
#[verifier::reject_recursive_types(E)]
pub struct SubscriptionsInner<E, BE: Backend> {
    /// The reference count of each pinned block, each hash once.
    global_blocks: Vec<(BlockHash, usize)>,
    /// The largest number of blocks that may be pinned at once.
    global_max_pinned_blocks: usize,
    /// The longest time, in nanoseconds, for which a subscription may hold
    /// a block once the registry is full.
    local_max_pin_duration: u128,
    /// The number of operation slots of each subscription.
    max_ongoing_operations: usize,
    /// The subscriptions, each identifier once.
    subs: Vec<(String, SubscriptionState<E>)>,
    /// The backend, with the account of the registry's pins.
    backend: BackendPins<BE>,
    /// Tells the time at which blocks are announced.
    clock: PinClock,
}

impl<E, BE: Backend> SubscriptionsInner<E, BE> {
    /// The subscriptions as pairs of identifier and state.
    spec fn sub_entries(&self) -> Seq<(Seq<char>, SubscriptionView)> {
        Seq::new(self.subs@.len(), |i: int| (self.subs@[i].0@, self.subs@[i].1@))
    }

    /// The registry without its channels and its backend.
    pub closed spec fn view(&self) -> RegistryView {
        RegistryView {
            subs: as_map(self.sub_entries()),
            global_blocks: as_map(self.global_blocks@),
            global_max_pinned_blocks: self.global_max_pinned_blocks,
            local_max_pin_duration: self.local_max_pin_duration,
            max_ongoing_operations: self.max_ongoing_operations,
        }
    }

    /// The backend at which the registry pins blocks.
    pub closed spec fn backend_handle(&self) -> Arc<BE> {
        self.backend.handle()
    }

    /// The pins of `hash` that the registry took from the backend and has
    /// not given back. Those of block guards are not among them.
    pub closed spec fn backend_pins(&self, hash: BlockHash) -> nat {
        self.backend.outstanding(hash)
    }

    /// The tables are in order: no key twice, no block pinned without a
    /// reference, every subscription in order and with the registry's
    /// number of operation slots, and one pin at the backend for each
    /// pinned block.
    spec fn tables_wf(&self) -> bool {
        &&& keys_distinct(self.global_blocks@)
        &&& forall|i: int|
            0 <= i < self.global_blocks@.len() ==> (#[trigger] self.global_blocks@[i]).1 >= 1
        &&& keys_distinct(self.sub_entries())
        &&& forall|i: int| 0 <= i < self.subs@.len() ==> (#[trigger] self.subs@[i]).1.wf()
        &&& forall|i: int|
            0 <= i < self.subs@.len() ==> (#[trigger] self.subs@[i]).1@.operation_slots
                == self.max_ongoing_operations
        &&& self.max_ongoing_operations <= usize::MAX / 8
        &&& forall|hash: BlockHash|
            #[trigger] self.backend.outstanding(hash) == (if has_key(self.global_blocks@, hash) {
                1nat
            } else {
                0nat
            })
    }

    /// The registry is in order: its tables are, no block has more
    /// references than subscriptions that hold it, and no more blocks are
    /// pinned than the cap allows.
    pub closed spec fn wf(&self) -> bool {
        &&& self.tables_wf()
        &&& self@.never_overcounted()
        &&& self@.within_cap()
    }

    /// What being in order means for the view.
    pub proof fn lemma_wf(&self)
        requires
            self.wf(),
        ensures
            self@.subs.dom().finite(),
            self@.counts_positive(),
            self@.never_overcounted(),
            self@.within_cap(),
            forall|id: Seq<char>| #[trigger]
                self@.subs.contains_key(id) ==> self@.subs[id].operation_slots
                    == self@.max_ongoing_operations,
            forall|hash: BlockHash|
                #[trigger] self.backend_pins(hash) == (if self@.global_blocks.contains_key(hash) {
                    1nat
                } else {
                    0nat
                }),
    {
        self.lemma_tables_wf();
    }

    /// What the tables being in order means for the view.
    proof fn lemma_tables_wf(&self)
        requires
            self.tables_wf(),
        ensures
            self@.subs.dom().finite(),
            self@.subs.dom().len() == self.subs@.len(),
            self@.global_blocks.dom().finite(),
            self@.global_blocks.dom().len() == self.global_blocks@.len(),
            self@.counts_positive(),
            forall|id: Seq<char>| #[trigger]
                self@.subs.contains_key(id) ==> self@.subs[id].operation_slots
                    == self@.max_ongoing_operations,
            forall|hash: BlockHash|
                #[trigger] self.backend_pins(hash) == (if self@.global_blocks.contains_key(hash) {
                    1nat
                } else {
                    0nat
                }),
    {
        lemma_map_size(self.sub_entries());
        lemma_map_size(self.global_blocks@);
        assert forall|hash: BlockHash| #[trigger]
            self@.global_blocks.contains_key(hash) implies self@.global_blocks[hash] >= 1 by {
            lemma_key_has_position(self.global_blocks@, hash);
        }
        assert forall|id: Seq<char>| #[trigger]
            self@.subs.contains_key(id) implies self@.subs[id].operation_slots
            == self@.max_ongoing_operations by {
            lemma_key_has_position(self.sub_entries(), id);
            let p = position(self.sub_entries(), id);
            assert(self.sub_entries()[p].1 == self.subs@[p].1@);
        }
    }

    /// A registry without subscriptions.
    ///
    /// At most `global_max_pinned_blocks` blocks are pinned at once. Once
    /// that many are, a subscription that has held a block for longer than
    /// `local_max_pin_duration` is ended when one more is to be pinned.
    /// Each subscription may run `max_ongoing_operations` at once.
    pub fn new(
        global_max_pinned_blocks: usize,
        local_max_pin_duration: Duration,
        max_ongoing_operations: usize,
        backend: Arc<BE>,
    ) -> (registry: Self)
        requires
            max_ongoing_operations <= usize::MAX / 8,
        ensures
            registry.wf(),
            registry.backend_handle() == backend,
            registry@.accounted(),
            registry@ == (RegistryView {
                subs: Map::empty(),
                global_blocks: Map::empty(),
                global_max_pinned_blocks,
                local_max_pin_duration: duration_nanos(local_max_pin_duration) as u128,
                max_ongoing_operations,
            }),
            forall|hash: BlockHash| registry.backend_pins(hash) == 0,
    {
        let registry = SubscriptionsInner {
            global_blocks: Vec::new(),
            global_max_pinned_blocks,
            local_max_pin_duration: local_max_pin_duration.as_nanos(),
            max_ongoing_operations,
            subs: Vec::new(),
            backend: BackendPins::new(backend),
            clock: PinClock::start(),
        };
        proof {
            lemma_empty_map(registry.sub_entries());
            lemma_empty_map(registry.global_blocks@);
            assert forall|hash: BlockHash| #[trigger]
                reference_count(registry@.global_blocks, hash) == registry@.holder_count(hash) by {
                assert(holders(registry@.subs, registry@.subs.dom(), hash) =~= Set::<
                    Seq<char>,
                >::empty());
            }
        }
        registry
    }

    /// Where the subscription `sub_id` is kept, if there is one.
    fn find_subscription(&self, sub_id: &str) -> (found: Option<usize>)
        requires
            self.tables_wf(),
        ensures
            found is None ==> !self@.subs.contains_key(sub_id@),
            found matches Some(i) ==> {
                &&& i < self.subs@.len()
                &&& self.subs@[i as int].0@ == sub_id@
                &&& self@.subs.contains_key(sub_id@)
                &&& self@.subs[sub_id@] == self.subs@[i as int].1@
            },
    {
        let key = sub_id.to_owned();
        let mut i: usize = 0;
        while i < self.subs.len()
            invariant
                self.tables_wf(),
                key@ == sub_id@,
                i <= self.subs@.len(),
                forall|j: int| 0 <= j < i ==> (#[trigger] self.subs@[j]).0@ != sub_id@,
            decreases self.subs@.len() - i,
        {
            if self.subs[i].0 == key {
                proof {
                    assert(self.sub_entries()[i as int].0 == self.subs@[i as int].0@);
                    assert(self.sub_entries()[i as int].1 == self.subs@[i as int].1@);
                    lemma_entry_in_map(self.sub_entries(), i as int);
                }
                return Some(i);
            }
            i += 1;
        }
        proof {
            if has_key(self.sub_entries(), sub_id@) {
                let p = position(self.sub_entries(), sub_id@);
                assert(self.sub_entries()[p].0 == self.subs@[p].0@);
            }
        }
        None
    }

    /// Where the reference count of `hash` is kept, if the block is pinned.
    fn find_global(&self, hash: BlockHash) -> (found: Option<usize>)
        requires
            self.tables_wf(),
        ensures
            found is None ==> !self@.global_blocks.contains_key(hash),
            found matches Some(i) ==> {
                &&& i < self.global_blocks@.len()
                &&& self.global_blocks@[i as int].0 == hash
                &&& self@.global_blocks.contains_key(hash)
                &&& self@.global_blocks[hash] == self.global_blocks@[i as int].1
            },
    {
        let mut i: usize = 0;
        while i < self.global_blocks.len()
            invariant
                self.tables_wf(),
                i <= self.global_blocks@.len(),
                forall|j: int| 0 <= j < i ==> (#[trigger] self.global_blocks@[j]).0 != hash,
            decreases self.global_blocks@.len() - i,
        {
            if self.global_blocks[i].0 == hash {
                proof {
                    lemma_entry_in_map(self.global_blocks@, i as int);
                }
                return Some(i);
            }
            i += 1;
        }
        proof {
            if has_key(self.global_blocks@, hash) {
                let p = position(self.global_blocks@, hash);
                assert(self.global_blocks@[p].0 == hash);
            }
        }
        None
    }

    /// The reference count of `hash`, if the block is pinned.
    pub fn global_reference_count(&self, hash: BlockHash) -> (count: Option<usize>)
        requires
            self.wf(),
        ensures
            count == (if self@.global_blocks.contains_key(hash) {
                Some(self@.global_blocks[hash])
            } else {
                None
            }),
    {
        match self.find_global(hash) {
            Some(i) => Some(self.global_blocks[i].1),
            None => None,
        }
    }

    /// The number of pinned blocks.
    pub fn pinned_blocks(&self) -> (pinned: usize)
        requires
            self.wf(),
        ensures
            pinned == self@.global_blocks.dom().len(),
            pinned <= self@.global_max_pinned_blocks,
    {
        proof {
            self.lemma_tables_wf();
        }
        self.global_blocks.len()
    }

    /// The number of subscriptions.
    pub fn subscriptions(&self) -> (count: usize)
        requires
            self.wf(),
        ensures
            count == self@.subs.dom().len(),
    {
        proof {
            self.lemma_tables_wf();
        }
        self.subs.len()
    }

    /// Whether there is a subscription `sub_id`.
    pub fn contains_subscription(&self, sub_id: &str) -> (found: bool)
        requires
            self.wf(),
        ensures
            found == self@.subs.contains_key(sub_id@),
    {
        self.find_subscription(sub_id).is_some()
    }

    /// What subscription `sub_id` knows of `hash`, if there is such a
    /// subscription and it tracks the block.
    pub fn block_state(&self, sub_id: &str, hash: BlockHash) -> (state: Option<BlockState>)
        requires
            self.wf(),
        ensures
            state == (if self@.subs.contains_key(sub_id@)
                && self@.subs[sub_id@].blocks.contains_key(hash) {
                Some(self@.subs[sub_id@].blocks[hash])
            } else {
                None
            }),
    {
        match self.find_subscription(sub_id) {
            Some(i) => self.subs[i].1.block_state(hash),
            None => None,
        }
    }

    /// Adds the subscription `sub_id`, unless there is one already.
    ///
    /// The new subscription tracks no block and has started no operation.
    /// The caller gets the receiving ends of its stop signal and of its
    /// event channel.
    pub fn insert_subscription(&mut self, sub_id: String, with_runtime: bool) -> (data: Option<
        InsertedSubscriptionData<E>,
    >)
        requires
            old(self).wf(),
        ensures
            final(self).wf(),
            final(self).backend_handle() == old(self).backend_handle(),
            old(self)@.accounted() ==> final(self)@.accounted(),
            old(self)@.subs.contains_key(sub_id@) ==> data is None && final(self)@ == old(self)@,
            !old(self)@.subs.contains_key(sub_id@) ==> data is Some && final(self)@
                == (RegistryView {
                subs: old(self)@.subs.insert(
                    sub_id@,
                    SubscriptionView {
                        with_runtime,
                        stop_armed: true,
                        operations_started: 0,
                        operation_slots: old(self)@.max_ongoing_operations as nat,
                        blocks: Map::empty(),
                    },
                ),
                ..old(self)@
            }),
    {
        if self.find_subscription(sub_id.as_str()).is_some() {
            return None;
        }
        let (tx_stop, rx_stop) = futures::channel::oneshot::channel::<()>();
        let (response_sender, response_receiver) = futures::channel::mpsc::channel::<E>(
            BUF_CAP_PER_SUBSCRIPTION,
        );
        let state = SubscriptionState::new(
            with_runtime,
            Some(tx_stop),
            response_sender,
            Operations::new(self.max_ongoing_operations),
            self.clock,
        );
        proof {
            self.lemma_tables_wf();
            lemma_push_inserts(self.sub_entries(), sub_id@, state@);
        }
        let ghost before = self.sub_entries();
        let ghost fresh = state@;
        self.subs.push((sub_id, state));
        proof {
            assert(self.sub_entries() =~= before.push((sub_id@, fresh)));
            assert forall|hash: BlockHash|
                holders(self@.subs, self@.subs.dom(), hash).len() == holders(
                    old(self)@.subs,
                    old(self)@.subs.dom(),
                    hash,
                ).len() by {
                lemma_holders_after_insert(old(self)@.subs, sub_id@, fresh, hash);
            }
            assert(self@.never_overcounted()) by {
                assert forall|hash: BlockHash| #[trigger]
                    reference_count(self@.global_blocks, hash) <= self@.holder_count(hash) by {
                    assert(reference_count(old(self)@.global_blocks, hash) <= old(
                        self,
                    )@.holder_count(hash));
                }
            }
            if old(self)@.accounted() {
                assert forall|hash: BlockHash| #[trigger]
                    reference_count(self@.global_blocks, hash) == self@.holder_count(hash) by {
                    assert(reference_count(old(self)@.global_blocks, hash) == old(
                        self,
                    )@.holder_count(hash));
                }
            }
        }
        Some(InsertedSubscriptionData { rx_stop, response_receiver })
    }

    /// Counts one more reference to `hash`. The first reference pins the
    /// block in the backend; if the backend refuses, nothing is counted and
    /// the refusal is handed on.
    fn global_register_block(&mut self, hash: BlockHash) -> (registered: Result<
        (),
        SubscriptionManagementError,
    >)
        requires
            old(self).tables_wf(),
            reference_count(old(self)@.global_blocks, hash) < usize::MAX,
        ensures
            final(self).tables_wf(),
            final(self).backend_handle() == old(self).backend_handle(),
            old(self)@.global_blocks.contains_key(hash) ==> registered is Ok,
            registered is Ok ==> final(self)@ == old(self)@.counted(hash),
            registered matches Err(error) ==> error is Custom && final(self)@ == old(self)@,
            final(self).subs == old(self).subs,
    {
        match self.find_global(hash) {
            Some(i) => {
                let count = self.global_blocks[i].1;
                proof {
                    lemma_update_replaces(self.global_blocks@, i as int, (count + 1) as usize);
                    assert forall|other: BlockHash|
                        has_key(
                            self.global_blocks@.update(i as int, (hash, (count + 1) as usize)),
                            other,
                        ) == has_key(self.global_blocks@, other) by {
                        assert(as_map(
                            self.global_blocks@.update(i as int, (hash, (count + 1) as usize)),
                        ).contains_key(other) == as_map(self.global_blocks@).insert(
                            hash,
                            (count + 1) as usize,
                        ).contains_key(other));
                    }
                }
                self.global_blocks[i] = (hash, count + 1);
                Ok(())
            },
            None => {
                let pinned = self.backend.pin(hash);
                match pin_outcome(pinned) {
                    Err(error) => Err(error),
                    Ok(()) => {
                        proof {
                            lemma_push_inserts(self.global_blocks@, hash, 1usize);
                            assert forall|other: BlockHash|
                                has_key(self.global_blocks@.push((hash, 1usize)), other) == (other
                                    == hash || has_key(self.global_blocks@, other)) by {
                                assert(as_map(
                                    self.global_blocks@.push((hash, 1usize)),
                                ).contains_key(other) == as_map(self.global_blocks@).insert(
                                    hash,
                                    1usize,
                                ).contains_key(other));
                            }
                        }
                        self.global_blocks.push((hash, 1));
                        Ok(())
                    },
                }
            },
        }
    }

    /// Gives up one reference to `hash`, if there is any. With the last
    /// reference the block is unpinned in the backend.
    fn global_unregister_block(&mut self, hash: BlockHash)
        requires
            old(self).tables_wf(),
        ensures
            final(self).tables_wf(),
            final(self).backend_handle() == old(self).backend_handle(),
            final(self)@ == (RegistryView {
                global_blocks: after_release(old(self)@.global_blocks, one_each(set![hash])),
                ..old(self)@
            }),
            final(self).subs == old(self).subs,
    {
        proof {
            self.lemma_tables_wf();
        }
        match self.find_global(hash) {
            Some(i) => {
                let count = self.global_blocks[i].1;
                if count == 1 {
                    proof {
                        lemma_remove_removes(self.global_blocks@, i as int);
                        assert forall|other: BlockHash|
                            has_key(self.global_blocks@.remove(i as int), other) == (other != hash
                                && has_key(self.global_blocks@, other)) by {
                            assert(as_map(self.global_blocks@.remove(i as int)).contains_key(other)
                                == as_map(self.global_blocks@).remove(hash).contains_key(other));
                        }
                    }
                    self.backend.unpin(hash);
                    self.global_blocks.remove(i);
                } else {
                    proof {
                        lemma_update_replaces(self.global_blocks@, i as int, (count - 1) as usize);
                        assert forall|other: BlockHash|
                            has_key(
                                self.global_blocks@.update(i as int, (hash, (count - 1) as usize)),
                                other,
                            ) == has_key(self.global_blocks@, other) by {
                            assert(as_map(
                                self.global_blocks@.update(i as int, (hash, (count - 1) as usize)),
                            ).contains_key(other) == as_map(self.global_blocks@).insert(
                                hash,
                                (count - 1) as usize,
                            ).contains_key(other));
                        }
                    }
                    self.global_blocks[i] = (hash, count - 1);
                }
            },
            None => {},
        }
        proof {
            assert(self@.global_blocks =~= after_release(
                old(self)@.global_blocks,
                one_each(set![hash]),
            ));
        }
    }

    /// Ends the subscription `sub_id`, if there is one: its stop signal is
    /// sent, and every block it holds loses one reference.
    pub fn remove_subscription(&mut self, sub_id: &str)
        requires
            old(self).wf(),
        ensures
            final(self).wf(),
            final(self).backend_handle() == old(self).backend_handle(),
            final(self)@ == old(self)@.without(set![sub_id@]),
            old(self)@.accounted() ==> final(self)@.accounted(),
    {
        proof {
            self.lemma_tables_wf();
            lemma_without_keeps_accounts(self@, set![sub_id@]);
            lemma_release_shrinks(self@.global_blocks, given_up_by(self@.subs, set![sub_id@]));
        }
        let found = self.find_subscription(sub_id);
        let i = match found {
            None => {
                proof {
                    lemma_without_strangers(self@, set![sub_id@]);
                }
                return ;
            },
            Some(i) => i,
        };
        let ghost start = self@;
        let ghost entries = self.sub_entries();
        proof {
            lemma_remove_removes(entries, i as int);
        }
        let (_, mut sub) = self.subs.remove(i);
        proof {
            assert(self.sub_entries() =~= entries.remove(i as int));
            assert(self@.subs =~= start.subs.remove_keys(set![sub_id@]));
        }
        // The stop signal is sent at most once.
        sub.stop();
        let held = sub.held_blocks();
        let ghost middle = self@;
        let mut k: usize = 0;
        proof {
            assert forall|hash: BlockHash| !(#[trigger] prefix_set(held@, 0).contains(hash)) by {}
            assert(after_release(start.global_blocks, one_each(prefix_set(held@, 0)))
                =~= start.global_blocks);
        }
        while k < held.len()
            invariant
                k <= held@.len(),
                held@.no_duplicates(),
                self.tables_wf(),
                self.backend_handle() == old(self).backend_handle(),
                start.global_blocks.dom().finite(),
                self@ == (RegistryView {
                    global_blocks: after_release(
                        start.global_blocks,
                        one_each(prefix_set(held@, k as int)),
                    ),
                    ..middle
                }),
            decreases held@.len() - k,
        {
            let hash = held[k];
            self.global_unregister_block(hash);
            proof {
                let done = prefix_set(held@, k as int);
                let next = prefix_set(held@, k + 1);
                lemma_prefix_set_next(held@, k as int);
                assert forall|other: BlockHash| #[trigger]
                    one_each(next)(other) == one_each(done)(other) + one_each(set![hash])(
                        other,
                    ) by {}
                lemma_release_twice(
                    start.global_blocks,
                    one_each(done),
                    one_each(set![hash]),
                    one_each(next),
                );
            }
            k += 1;
        }
        proof {
            lemma_prefix_set_all(held@);
            assert forall|hash: BlockHash| #[trigger]
                one_each(held@.to_set())(hash) == given_up_by(start.subs, set![sub_id@])(hash) by {
                lemma_without_one(start, sub_id@, hash);
            }
            lemma_release_same(
                start.global_blocks,
                one_each(held@.to_set()),
                given_up_by(start.subs, set![sub_id@]),
            );
            self.lemma_tables_wf();
        }
    }

    /// Ends each of the subscriptions `ids`.
    fn remove_subscriptions(&mut self, ids: &Vec<String>)
        requires
            old(self).wf(),
        ensures
            final(self).wf(),
            final(self).backend_handle() == old(self).backend_handle(),
            final(self)@ == old(self)@.without(listing(ids@)),
            old(self)@.accounted() ==> final(self)@.accounted(),
    {
        let ghost start = self@;
        proof {
            self.lemma_tables_wf();
            lemma_without_strangers(start, Set::empty());
            assert(listing(ids@.take(0)) =~= Set::<Seq<char>>::empty());
        }
        let mut k: usize = 0;
        while k < ids.len()
            invariant
                k <= ids@.len(),
                self.wf(),
                self.backend_handle() == old(self).backend_handle(),
                start.subs.dom().finite(),
                self@ == start.without(listing(ids@.take(k as int))),
                start.accounted() ==> self@.accounted(),
            decreases ids@.len() - k,
        {
            self.remove_subscription(ids[k].as_str());
            proof {
                let done = listing(ids@.take(k as int));
                let next = listing(ids@.take(k + 1));
                let one = ids@[k as int]@;
                lemma_without_then_without(start, done, set![one]);
                assert forall|id: Seq<char>| next.contains(id) == (done + set![one]).contains(
                    id,
                ) by {
                    if listed(ids@.take(k + 1), id) {
                        let j = choose|j: int|
                            0 <= j < ids@.take(k + 1).len() && (#[trigger] ids@.take(k + 1)[j])@
                                == id;
                        if j < k {
                            assert(ids@.take(k as int)[j]@ == id);
                        }
                    }
                    if listed(ids@.take(k as int), id) {
                        let j = choose|j: int|
                            0 <= j < ids@.take(k as int).len() && (#[trigger] ids@.take(
                                k as int,
                            )[j])@ == id;
                        assert(ids@.take(k + 1)[j]@ == id);
                    }
                    if id == one {
                        assert(ids@.take(k + 1)[k as int]@ == id);
                    }
                }
                assert(next =~= done + set![one]);
            }
            k += 1;
        }
        proof {
            assert(ids@.take(k as int) =~= ids@);
        }
    }

    /// The identifiers of all subscriptions.
    fn all_ids(&self) -> (ids: Vec<String>)
        requires
            self.tables_wf(),
        ensures
            listing(ids@) =~= self@.subs.dom(),
    {
        let mut ids: Vec<String> = Vec::new();
        let mut i: usize = 0;
        while i < self.subs.len()
            invariant
                i <= self.subs@.len(),
                ids@.len() == i,
                forall|j: int| 0 <= j < i ==> (#[trigger] ids@[j])@ == self.subs@[j].0@,
            decreases self.subs@.len() - i,
        {
            ids.push(self.subs[i].0.clone());
            i += 1;
        }
        proof {
            assert forall|id: Seq<char>| listing(ids@).contains(id) == self@.subs.dom().contains(
                id,
            ) by {
                if listed(ids@, id) {
                    let j = choose|j: int| 0 <= j < ids@.len() && (#[trigger] ids@[j])@ == id;
                    assert(self.sub_entries()[j].0 == id);
                    lemma_entry_in_map(self.sub_entries(), j);
                }
                if self@.subs.dom().contains(id) {
                    lemma_key_has_position(self.sub_entries(), id);
                    let p = position(self.sub_entries(), id);
                    assert(ids@[p]@ == id);
                }
            }
        }
        ids
    }

    /// Whether one of the first `end` subscriptions is `id` and has held a
    /// block for too long at `now`.
    spec fn expired_before(&self, end: int, now: u128, id: Seq<char>) -> bool {
        exists|p: int|
            0 <= p < end && p < self.subs@.len() && (#[trigger] self.subs@[p]).0@ == id && expired(
                self.subs@[p].1@.blocks,
                now,
                self.local_max_pin_duration,
            )
    }

    /// The identifiers of the subscriptions that have held a block for too
    /// long at `now`.
    fn expired_ids(&self, now: u128) -> (ids: Vec<String>)
        requires
            self.tables_wf(),
        ensures
            listing(ids@) =~= self@.expired_subscriptions(now),
    {
        let mut ids: Vec<String> = Vec::new();
        let mut i: usize = 0;
        while i < self.subs.len()
            invariant
                self.tables_wf(),
                i <= self.subs@.len(),
                forall|id: Seq<char>|
                    #[trigger] listed(ids@, id) == self.expired_before(i as int, now, id),
            decreases self.subs@.len() - i,
        {
            let oldest = self.subs[i].1.oldest_block_timestamp_at(now);
            // A subscription whose oldest block lies in the future is ended
            // too: the clock cannot be trusted with it.
            let should_remove = oldest > now || now - oldest > self.local_max_pin_duration;
            let ghost before = ids@;
            if should_remove {
                ids.push(self.subs[i].0.clone());
            }
            proof {
                assert forall|id: Seq<char>| #[trigger]
                    listed(ids@, id) == self.expired_before(i + 1, now, id) by {
                    assert(listed(before, id) == self.expired_before(i as int, now, id));
                    if listed(ids@, id) {
                        let j = choose|j: int| 0 <= j < ids@.len() && (#[trigger] ids@[j])@ == id;
                        if j < before.len() {
                            assert(before[j]@ == id);
                            assert(listed(before, id));
                            let p = choose|p: int|
                                0 <= p < i && p < self.subs@.len() && (#[trigger] self.subs@[p]).0@
                                    == id && expired(
                                    self.subs@[p].1@.blocks,
                                    now,
                                    self.local_max_pin_duration,
                                );
                            assert(0 <= p < i + 1);
                        } else {
                            assert(self.subs@[i as int].0@ == id);
                        }
                    }
                    if self.expired_before(i + 1, now, id) {
                        let p = choose|p: int|
                            0 <= p < i + 1 && p < self.subs@.len() && (#[trigger] self.subs@[p]).0@
                                == id && expired(
                                self.subs@[p].1@.blocks,
                                now,
                                self.local_max_pin_duration,
                            );
                        if p < i {
                            assert(self.expired_before(i as int, now, id));
                            let j = choose|j: int|
                                0 <= j < before.len() && (#[trigger] before[j])@ == id;
                            assert(ids@[j]@ == id);
                        } else {
                            assert(ids@[before.len() as int]@ == id);
                        }
                    }
                }
            }
            i += 1;
        }
        proof {
            assert forall|id: Seq<char>|
                listing(ids@).contains(id) == self@.expired_subscriptions(now).contains(id) by {
                assert(listed(ids@, id) == self.expired_before(i as int, now, id));
                if self.expired_before(i as int, now, id) {
                    let p = choose|p: int|
                        0 <= p < i && p < self.subs@.len() && (#[trigger] self.subs@[p]).0@ == id
                            && expired(
                            self.subs@[p].1@.blocks,
                            now,
                            self.local_max_pin_duration,
                        );
                    assert(self.sub_entries()[p].0 == id);
                    lemma_entry_in_map(self.sub_entries(), p);
                }
                if self@.expired_subscriptions(now).contains(id) {
                    lemma_key_has_position(self.sub_entries(), id);
                    let p = position(self.sub_entries(), id);
                    assert(self.subs@[p].0@ == id);
                }
            }
        }
        ids
    }

    /// Ends every subscription.
    pub fn stop_all_subscriptions(&mut self)
        requires
            old(self).wf(),
        ensures
            final(self).wf(),
            final(self).backend_handle() == old(self).backend_handle(),
            final(self)@.accounted(),
            final(self)@ == old(self)@.without(old(self)@.subs.dom()),
            final(self)@.subs =~= Map::<Seq<char>, SubscriptionView>::empty(),
            final(self)@.global_blocks =~= Map::<BlockHash, usize>::empty(),
    {
        proof {
            self.lemma_tables_wf();
            lemma_without_all_is_empty(self@);
        }
        let to_remove = self.all_ids();
        self.remove_subscriptions(&to_remove);
        proof {
            assert forall|hash: BlockHash| #[trigger]
                reference_count(self@.global_blocks, hash) == self@.holder_count(hash) by {
                assert(holders(self@.subs, self@.subs.dom(), hash) =~= Set::<Seq<char>>::empty());
            }
        }
    }

    /// Makes sure that one more block can be pinned, at the cost of
    /// subscriptions where it must be.
    ///
    /// While fewer blocks are pinned than the cap allows, nothing happens.
    /// Else the subscriptions that have held a block for longer than the
    /// registry allows are ended. If that does not make space, all
    /// subscriptions are ended.
    ///
    /// Returns whether the subscription `request_sub_id` was ended.
    fn ensure_block_space(&mut self, request_sub_id: &str, now: u128) -> (terminated: bool)
        requires
            old(self).wf(),
        ensures
            final(self).wf(),
            final(self).backend_handle() == old(self).backend_handle(),
            final(self)@ == old(self)@.without(old(self)@.evicted_for_space(now)),
            terminated == old(self)@.evicted_for_space(now).contains(request_sub_id@),
            old(self)@.subs.contains_key(request_sub_id@) && !terminated
                ==> final(self)@.has_space(),
    {
        let ghost start = self@;
        proof {
            self.lemma_tables_wf();
        }
        if self.global_blocks.len() < self.global_max_pinned_blocks {
            proof {
                lemma_without_strangers(start, Set::empty());
            }
            return false;
        }
        // First those that have held a block for too long.
        let to_remove = self.expired_ids(now);
        let mut is_terminated = Self::lists(&to_remove, request_sub_id);
        self.remove_subscriptions(&to_remove);
        proof {
            self.lemma_tables_wf();
        }
        if self.global_blocks.len() < self.global_max_pinned_blocks {
            return is_terminated;
        }
        // That was not enough: the guarantees of the subscriptions can no
        // longer be kept, and all of them end.
        let to_remove = self.all_ids();
        let ghost expired = start.expired_subscriptions(now);
        let ghost rest = self@.subs.dom();
        if Self::lists(&to_remove, request_sub_id) {
            is_terminated = true;
        }
        self.remove_subscriptions(&to_remove);
        proof {
            lemma_without_then_without(start, expired, rest);
            assert(expired + rest =~= start.subs.dom());
            lemma_without_all_is_empty(start);
        }
        is_terminated
    }

    /// Whether `sub_id` is among `ids`.
    fn lists(ids: &Vec<String>, sub_id: &str) -> (found: bool)
        ensures
            found == listing(ids@).contains(sub_id@),
    {
        let key = sub_id.to_owned();
        let mut k: usize = 0;
        while k < ids.len()
            invariant
                k <= ids@.len(),
                key@ == sub_id@,
                forall|j: int| 0 <= j < k ==> (#[trigger] ids@[j])@ != sub_id@,
            decreases ids@.len() - k,
        {
            if ids[k] == key {
                return true;
            }
            k += 1;
        }
        false
    }

    /// What replacing the state of the subscription at position `i` does
    /// to the view: the subscription is replaced there, and all else stays.
    proof fn lemma_subscription_replaced(&self, before: &Self, i: int)
        requires
            before.tables_wf(),
            0 <= i < before.subs@.len(),
            self.subs@.len() == before.subs@.len(),
            forall|j: int|
                0 <= j < self.subs@.len() && j != i ==> #[trigger] self.subs@[j] == before.subs@[j],
            self.subs@[i].0 == before.subs@[i].0,
            self.subs@[i].1.wf(),
            self.subs@[i].1@.operation_slots == before.subs@[i].1@.operation_slots,
            self.global_blocks == before.global_blocks,
            self.global_max_pinned_blocks == before.global_max_pinned_blocks,
            self.local_max_pin_duration == before.local_max_pin_duration,
            self.max_ongoing_operations == before.max_ongoing_operations,
            self.backend == before.backend,
        ensures
            self.tables_wf(),
            self@ == (RegistryView {
                subs: before@.subs.insert(before.subs@[i].0@, self.subs@[i].1@),
                ..before@
            }),
            before@.subs.contains_key(before.subs@[i].0@),
            before@.subs[before.subs@[i].0@] == before.subs@[i].1@,
    {
        let entries = before.sub_entries();
        assert(entries[i] == (before.subs@[i].0@, before.subs@[i].1@));
        lemma_entry_in_map(entries, i);
        lemma_update_replaces(entries, i, self.subs@[i].1@);
        assert(self.sub_entries() =~= entries.update(i, (before.subs@[i].0@, self.subs@[i].1@)));
        assert forall|j: int| 0 <= j < self.subs@.len() implies (#[trigger] self.subs@[j]).1.wf()
            && self.subs@[j].1@.operation_slots == self.max_ongoing_operations by {
            if j != i {
                assert(self.subs@[j] == before.subs@[j]);
            }
        }
    }

    /// Pins `hash` for subscription `sub_id`, at the present time.
    ///
    /// See [`Self::pin_block_at`], which this function calls with the time
    /// it reads from the clock.
    pub fn pin_block(&mut self, sub_id: &str, hash: BlockHash) -> (pinned: Result<
        bool,
        SubscriptionManagementError,
    >)
        requires
            old(self).wf(),
        ensures
            final(self).wf(),
            final(self).backend_handle() == old(self).backend_handle(),
            exists|now: u128| #[trigger]
                pin_block_outcome(old(self)@, sub_id@, hash, now, pinned, final(self)@),
            old(self)@.accounted() && !(pinned matches Err(SubscriptionManagementError::Custom(_)))
                ==> final(self)@.accounted(),
    {
        let now = self.clock.now();
        self.pin_block_at(sub_id, hash, now)
    }

    /// Pins `hash` for subscription `sub_id`, which was told of the block
    /// at `now`.
    ///
    /// Returns whether the block was new to the subscription. A block is
    /// announced twice; only the first announcement counts a reference,
    /// and only the first reference of all subscriptions pins the block in
    /// the backend. Before that, space is made under the cap on pinned
    /// blocks, which may end subscriptions, the asking one among them:
    /// then the request fails with `ExceededLimits`. A refusal of the
    /// backend fails it with `Custom`, and leaves the block tracked by the
    /// subscription without a reference.
    pub fn pin_block_at(&mut self, sub_id: &str, hash: BlockHash, now: u128) -> (pinned: Result<
        bool,
        SubscriptionManagementError,
    >)
        requires
            old(self).wf(),
        ensures
            final(self).wf(),
            final(self).backend_handle() == old(self).backend_handle(),
            pin_block_outcome(old(self)@, sub_id@, hash, now, pinned, final(self)@),
            old(self)@.accounted() && !(pinned matches Err(SubscriptionManagementError::Custom(_)))
                ==> final(self)@.accounted(),
    {
        proof {
            self.lemma_tables_wf();
        }
        let i = match self.find_subscription(sub_id) {
            None => {
                return Err(SubscriptionManagementError::SubscriptionAbsent);
            },
            Some(i) => i,
        };
        let ghost start = self@;
        let ghost blocks = start.subs[sub_id@].blocks;
        let first = self.subs[i].1.register_block_at(hash, now);
        let ghost announced = self@;
        proof {
            self.lemma_subscription_replaced(old(self), i as int);
            assert(announced.subs =~= start.announced(sub_id@, hash, now).subs);
            assert(announced == start.announced(sub_id@, hash, now));
            self.lemma_tables_wf();
            assert forall|other: BlockHash|
                announced.holder_count(other) == start.holder_count(other) + (if other == hash
                    && first {
                    1nat
                } else {
                    0nat
                }) by {
                lemma_holders_after_insert(start.subs, sub_id@, announced.subs[sub_id@], other);
                lemma_register_holds(blocks, hash, now, other);
            }
            assert(announced.never_overcounted()) by {
                assert forall|other: BlockHash| #[trigger]
                    reference_count(announced.global_blocks, other) <= announced.holder_count(
                        other,
                    ) by {
                    assert(reference_count(start.global_blocks, other) <= start.holder_count(
                        other,
                    ));
                }
            }
            if start.accounted() {
                assert forall|other: BlockHash|
                    other != hash || !first implies #[trigger] reference_count(
                    announced.global_blocks,
                    other,
                ) == announced.holder_count(other) by {
                    assert(reference_count(start.global_blocks, other) == start.holder_count(
                        other,
                    ));
                }
            }
            assert(reference_count(start.global_blocks, hash) <= start.holder_count(hash));
            lemma_holders_bounded(announced.subs, announced.subs.dom(), hash);
        }
        // The block is tracked by the subscription already, so it is
        // counted already.
        if !first {
            return Ok(false);
        }
        // Space is needed only for a block that is not pinned yet.
        if self.find_global(hash).is_none() {
            let terminated = self.ensure_block_space(sub_id, now);
            proof {
                let evicted = announced.evicted_for_space(now);
                self.lemma_tables_wf();
                lemma_holders_bounded(announced.subs, evicted, hash);
                lemma_without_counts(announced, evicted, hash);
                lemma_register_holds(blocks, hash, now, hash);
                if terminated {
                    assert(holders(announced.subs, evicted, hash).contains(sub_id@));
                } else {
                    assert(holders(self@.subs, self@.subs.dom(), hash).contains(sub_id@));
                    lemma_holders_bounded(self@.subs, self@.subs.dom(), hash);
                }
                if start.accounted() {
                    assert(reference_count(start.global_blocks, hash) == start.holder_count(hash));
                    assert forall|other: BlockHash| other != hash implies #[trigger]
                        reference_count(self@.global_blocks, other) == self@.holder_count(
                        other,
                    ) by {
                        lemma_without_counts(announced, evicted, other);
                        assert(reference_count(announced.global_blocks, other)
                            == announced.holder_count(other));
                    }
                }
                if !terminated {
                    assert(reference_count(self@.global_blocks, hash) + 1 <= self@.holder_count(
                        hash,
                    ));
                    assert(start.accounted() ==> reference_count(self@.global_blocks, hash) + 1
                        == self@.holder_count(hash));
                }
            }
            // The subscription itself was ended to make space.
            if terminated {
                return Err(SubscriptionManagementError::ExceededLimits);
            }
        } else {
            proof {
                assert(reference_count(self@.global_blocks, hash) + 1 <= self@.holder_count(hash));
                if start.accounted() {
                    assert(reference_count(start.global_blocks, hash) == start.holder_count(hash));
                    assert(reference_count(self@.global_blocks, hash) + 1 == self@.holder_count(
                        hash,
                    ));
                }
            }
        }
        let ghost spaced = self@;
        proof {
            self.lemma_tables_wf();
            lemma_holders_bounded(spaced.subs, spaced.subs.dom(), hash);
            assert(self.subs.len() <= usize::MAX);
        }
        match self.global_register_block(hash) {
            Ok(()) => {
                proof {
                    self.lemma_tables_wf();
                    assert(self@.global_blocks.dom() =~= spaced.global_blocks.dom().insert(hash));
                    assert(self@.never_overcounted()) by {
                        assert forall|other: BlockHash| #[trigger]
                            reference_count(self@.global_blocks, other) <= self@.holder_count(
                                other,
                            ) by {
                            assert(reference_count(spaced.global_blocks, other)
                                <= spaced.holder_count(other));
                        }
                    }
                    if start.accounted() {
                        assert forall|other: BlockHash| #[trigger]
                            reference_count(self@.global_blocks, other) == self@.holder_count(
                                other,
                            ) by {
                            if other != hash {
                                assert(other != hash || !first);
                                assert(reference_count(spaced.global_blocks, other)
                                    == spaced.holder_count(other));
                            }
                        }
                    }
                }
                Ok(true)
            },
            Err(error) => Err(error),
        }
    }

    /// Makes sure that no hash occurs twice.
    fn ensure_hash_uniqueness(hashes: &Vec<BlockHash>) -> (unique: Result<
        (),
        SubscriptionManagementError,
    >)
        ensures
            unique == (if hashes@.no_duplicates() {
                Ok::<(), SubscriptionManagementError>(())
            } else {
                Err::<(), SubscriptionManagementError>(SubscriptionManagementError::DuplicateHashes)
            }),
    {
        let mut k: usize = 0;
        while k < hashes.len()
            invariant
                k <= hashes@.len(),
                forall|a: int, b: int| 0 <= a < b < k ==> hashes@[a] != hashes@[b],
            decreases hashes@.len() - k,
        {
            let mut j: usize = 0;
            while j < k
                invariant
                    j <= k < hashes@.len(),
                    forall|a: int| 0 <= a < j ==> hashes@[a] != hashes@[k as int],
                decreases k - j,
            {
                if hashes[j] == hashes[k] {
                    return Err(SubscriptionManagementError::DuplicateHashes);
                }
                j += 1;
            }
            k += 1;
        }
        Ok(())
    }

    /// Releases `hashes` for subscription `sub_id`.
    ///
    /// The request is checked as a whole before anything changes: the
    /// hashes must all be different, and the subscription must hold every
    /// one of them. Then each block loses the reference of the
    /// subscription, and is unpinned in the backend with its last one.
    pub fn unpin_blocks(&mut self, sub_id: &str, hashes: Vec<BlockHash>) -> (unpinned: Result<
        (),
        SubscriptionManagementError,
    >)
        requires
            old(self).wf(),
        ensures
            final(self).wf(),
            final(self).backend_handle() == old(self).backend_handle(),
            unpin_blocks_outcome(old(self)@, sub_id@, hashes@, unpinned, final(self)@),
            old(self)@.accounted() ==> final(self)@.accounted(),
    {
        proof {
            self.lemma_tables_wf();
        }
        match Self::ensure_hash_uniqueness(&hashes) {
            Err(error) => {
                return Err(error);
            },
            Ok(()) => {},
        }
        let i = match self.find_subscription(sub_id) {
            None => {
                return Err(SubscriptionManagementError::SubscriptionAbsent);
            },
            Some(i) => i,
        };
        // All blocks must be held before any of them is released.
        if !self.subs[i].1.contains_blocks(&hashes) {
            return Err(SubscriptionManagementError::BlockHashAbsent);
        }
        let ghost start = self@;
        let ghost blocks = start.subs[sub_id@].blocks;
        let ghost released = hashes@.to_set();
        self.subs[i].1.unregister_blocks(&hashes);
        let ghost middle = self@;
        proof {
            self.lemma_subscription_replaced(old(self), i as int);
            assert(middle.subs =~= start.unpinned(sub_id@, released).subs);
            assert forall|hash: BlockHash| !(#[trigger] prefix_set(hashes@, 0).contains(hash)) by {}
            assert(after_release(start.global_blocks, one_each(prefix_set(hashes@, 0)))
                =~= start.global_blocks);
        }
        // The subscription has let go of the blocks; now the registry does.
        let mut k: usize = 0;
        while k < hashes.len()
            invariant
                k <= hashes@.len(),
                hashes@.no_duplicates(),
                self.tables_wf(),
                self.backend_handle() == old(self).backend_handle(),
                self@ == (RegistryView {
                    global_blocks: after_release(
                        start.global_blocks,
                        one_each(prefix_set(hashes@, k as int)),
                    ),
                    ..middle
                }),
            decreases hashes@.len() - k,
        {
            let hash = hashes[k];
            self.global_unregister_block(hash);
            proof {
                let done = prefix_set(hashes@, k as int);
                let next = prefix_set(hashes@, k + 1);
                lemma_prefix_set_next(hashes@, k as int);
                assert forall|other: BlockHash| #[trigger]
                    one_each(next)(other) == one_each(done)(other) + one_each(set![hash])(
                        other,
                    ) by {}
                lemma_release_twice(
                    start.global_blocks,
                    one_each(done),
                    one_each(set![hash]),
                    one_each(next),
                );
            }
            k += 1;
        }
        proof {
            lemma_prefix_set_all(hashes@);
            assert(self@ == start.unpinned(sub_id@, released));
            self.lemma_tables_wf();
            lemma_release_shrinks(start.global_blocks, one_each(released));
            assert forall|hash: BlockHash|
                self@.holder_count(hash) == start.holder_count(hash) - one_each(released)(
                    hash,
                ) by {
                lemma_holders_after_insert(start.subs, sub_id@, self@.subs[sub_id@], hash);
                if released.contains(hash) {
                    let j = choose|j: int| 0 <= j < hashes@.len() && hashes@[j] == hash;
                    assert(holds_block(blocks, hashes@[j]));
                }
            }
            assert(self@.never_overcounted()) by {
                assert forall|hash: BlockHash| #[trigger]
                    reference_count(self@.global_blocks, hash) <= self@.holder_count(hash) by {
                    assert(reference_count(start.global_blocks, hash) <= start.holder_count(hash));
                }
            }
            if start.accounted() {
                assert forall|hash: BlockHash| #[trigger]
                    reference_count(self@.global_blocks, hash) == self@.holder_count(hash) by {
                    assert(reference_count(start.global_blocks, hash) == start.holder_count(hash));
                }
            }
        }
        Ok(())
    }

    /// Sends the stop signal of subscription `sub_id`, unless it was sent
    /// before. Returns whether there is such a subscription.
    pub fn stop_subscription(&mut self, sub_id: &str) -> (found: bool)
        requires
            old(self).wf(),
        ensures
            final(self).wf(),
            final(self).backend_handle() == old(self).backend_handle(),
            found == old(self)@.subs.contains_key(sub_id@),
            !found ==> final(self)@ == old(self)@,
            found ==> final(self)@ == old(self)@.with_stop_sent(sub_id@),
            old(self)@.accounted() ==> final(self)@.accounted(),
    {
        proof {
            self.lemma_tables_wf();
        }
        let i = match self.find_subscription(sub_id) {
            None => {
                return false;
            },
            Some(i) => i,
        };
        let ghost start = self@;
        self.subs[i].1.stop();
        proof {
            self.lemma_subscription_replaced(old(self), i as int);
            assert(self@.subs =~= start.with_stop_sent(sub_id@).subs);
            self.lemma_same_holders(old(self), sub_id@);
        }
        true
    }

    /// Replacing a subscription by one with the same blocks keeps the
    /// accounts.
    proof fn lemma_same_holders(&self, before: &Self, id: Seq<char>)
        requires
            before.wf(),
            self.tables_wf(),
            before@.subs.contains_key(id),
            self@.subs == before@.subs.insert(id, self@.subs[id]),
            self@.subs[id].blocks == before@.subs[id].blocks,
            self@.global_blocks == before@.global_blocks,
            self@.global_max_pinned_blocks == before@.global_max_pinned_blocks,
        ensures
            self.wf(),
            before@.accounted() ==> self@.accounted(),
    {
        before.lemma_tables_wf();
        assert forall|hash: BlockHash| self@.holder_count(hash) == before@.holder_count(hash) by {
            lemma_holders_after_insert(before@.subs, id, self@.subs[id], hash);
        }
        assert forall|hash: BlockHash| #[trigger]
            reference_count(self@.global_blocks, hash) <= self@.holder_count(hash) by {
            assert(reference_count(before@.global_blocks, hash) <= before@.holder_count(hash));
        }
        if before@.accounted() {
            assert forall|hash: BlockHash| #[trigger]
                reference_count(self@.global_blocks, hash) == self@.holder_count(hash) by {
                assert(reference_count(before@.global_blocks, hash) == before@.holder_count(hash));
            }
        }
    }

    /// What is needed to stop the operation `id` of subscription `sub_id`,
    /// if both exist still.
    pub fn get_operation(&mut self, sub_id: &str, id: &str) -> (state: Option<OperationState>)
        requires
            old(self).wf(),
        ensures
            *final(self) == *old(self),
            !old(self)@.subs.contains_key(sub_id@) ==> state is None,
            state matches Some(found) ==> found.id() == id@,
    {
        match self.find_subscription(sub_id) {
            None => None,
            Some(i) => self.subs[i].1.get_operation(id),
        }
    }

    /// Whether subscription `sub_id` can still name a new operation, which
    /// [`Self::lock_block`] asks for. A subscription runs out of names
    /// only after as many operations as `usize` can count.
    pub fn has_operation_identifiers(&self, sub_id: &str) -> (left: bool)
        requires
            self.wf(),
        ensures
            left == (self@.subs.contains_key(sub_id@) ==> self@.subs[sub_id@].operations_started
                < usize::MAX),
    {
        match self.find_subscription(sub_id) {
            None => true,
            Some(i) => self.subs[i].1.has_identifiers_left(),
        }
    }

    /// Keeps `hash` pinned for one method call of subscription `sub_id`,
    /// which wants `to_reserve` operation slots and gets at least one.
    ///
    /// The subscription must hold the block. The guard has a pin of its
    /// own at the backend, so the registry's accounts do not change; only
    /// the subscription has started one more operation. Without a free
    /// slot the request fails with `ExceededLimits` and changes nothing. A
    /// refusal of the backend fails it with `Custom`; the operation was
    /// started by then, and has ended again.
    pub fn lock_block(
        &mut self,
        sub_id: &str,
        hash: BlockHash,
        to_reserve: usize,
    ) -> (locked: Result<BlockGuard<E, BE>, SubscriptionManagementError>)
        requires
            old(self).wf(),
            old(self)@.subs.contains_key(sub_id@) ==> old(self)@.subs[sub_id@].operations_started
                < usize::MAX,
        ensures
            final(self).wf(),
            final(self).backend_handle() == old(self).backend_handle(),
            old(self)@.accounted() ==> final(self)@.accounted(),
            lock_block_outcome(old(self)@, sub_id@, hash, to_reserve, locked, final(self)@),
            locked matches Ok(guard) ==> guard.backend_handle() == old(self).backend_handle(),
    {
        proof {
            self.lemma_tables_wf();
        }
        let i = match self.find_subscription(sub_id) {
            None => {
                return Err(SubscriptionManagementError::SubscriptionAbsent);
            },
            Some(i) => i,
        };
        if !self.subs[i].1.contains_block(hash) {
            return Err(SubscriptionManagementError::BlockHashAbsent);
        }
        let ghost start = self@;
        let registered = self.subs[i].1.register_operation(to_reserve);
        proof {
            self.lemma_subscription_replaced(old(self), i as int);
            if registered is Some {
                assert(self@.subs =~= start.with_operation_started(sub_id@).subs);
            } else {
                assert(self@.subs =~= start.subs);
            }
            self.lemma_same_holders(old(self), sub_id@);
        }
        let operation = match registered {
            // Not even one operation can run.
            None => {
                return Err(SubscriptionManagementError::ExceededLimits);
            },
            Some(operation) => operation,
        };
        BlockGuard::new(
            hash,
            self.subs[i].1.has_runtime(),
            self.subs[i].1.response_sender(),
            operation,
            self.backend.backend(),
        )
    }
}

} // verus!
