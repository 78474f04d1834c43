use chain_head_subscription::backend::Backend;
use chain_head_subscription::block_state::BlockStateMachine;
use chain_head_subscription::error::SubscriptionManagementError;
use chain_head_subscription::hash::BlockHash;
use chain_head_subscription::registry::SubscriptionsInner;
use std::collections::{HashMap, HashSet};
use std::sync::{Arc, Mutex};
use std::time::Duration;

/// Maximum number of ongoing operations per subscription ID.
const MAX_OPERATIONS_PER_SUB: usize = 16;

/// A backend that counts its pins and can be told to refuse a block.
#[derive(Debug, Default)]
struct CountingBackend {
    pins: Mutex<HashMap<BlockHash, i64>>,
    refused: Mutex<HashSet<BlockHash>>,
}

impl CountingBackend {
    fn pins(&self, hash: BlockHash) -> i64 {
        self.pins.lock().unwrap().get(&hash).copied().unwrap_or(0)
    }

    fn refuse(&self, hash: BlockHash) {
        self.refused.lock().unwrap().insert(hash);
    }
}

impl Backend for CountingBackend {
    fn pin_block(&self, hash: BlockHash) -> Result<(), String> {
        if self.refused.lock().unwrap().contains(&hash) {
            return Err(format!("block {} is pruned", hash.low));
        }
        *self.pins.lock().unwrap().entry(hash).or_insert(0) += 1;
        Ok(())
    }

    fn unpin_block(&self, hash: BlockHash) {
        *self.pins.lock().unwrap().entry(hash).or_insert(0) -= 1;
    }
}

type Subs = SubscriptionsInner<u32, CountingBackend>;

fn init_backend() -> Arc<CountingBackend> {
    Arc::new(CountingBackend::default())
}

fn produce_blocks(num_blocks: usize) -> Vec<BlockHash> {
    (0..num_blocks).map(|i| BlockHash::new(0xabcdef, 1 + i as u128)).collect()
}

#[test]
fn unpin_duplicate_hashes() {
    let backend = init_backend();

    let hashes = produce_blocks(3);
    let (hash_1, hash_2, hash_3) = (hashes[0], hashes[1], hashes[2]);

    let mut subs: Subs =
        SubscriptionsInner::new(10, Duration::from_secs(10), MAX_OPERATIONS_PER_SUB, backend);
    let id_1 = "abc".to_string();
    let id_2 = "abcd".to_string();

    // Pin all blocks for the first subscription.
    let _stop = subs.insert_subscription(id_1.clone(), true).unwrap();
    assert_eq!(subs.pin_block(&id_1, hash_1).unwrap(), true);
    assert_eq!(subs.pin_block(&id_1, hash_2).unwrap(), true);
    assert_eq!(subs.pin_block(&id_1, hash_3).unwrap(), true);

    // Pin only block 2 for the second subscription.
    let _stop = subs.insert_subscription(id_2.clone(), true).unwrap();
    assert_eq!(subs.pin_block(&id_2, hash_2).unwrap(), true);

    // Check reference count.
    assert_eq!(subs.global_reference_count(hash_1).unwrap(), 1);
    assert_eq!(subs.global_reference_count(hash_2).unwrap(), 2);
    assert_eq!(subs.global_reference_count(hash_3).unwrap(), 1);

    // Unpin the same block twice.
    let err = subs.unpin_blocks(&id_1, vec![hash_1, hash_1, hash_2, hash_2]).unwrap_err();
    assert_eq!(err, SubscriptionManagementError::DuplicateHashes);

    // Check reference count must be unaltered.
    assert_eq!(subs.global_reference_count(hash_1).unwrap(), 1);
    assert_eq!(subs.global_reference_count(hash_2).unwrap(), 2);
    assert_eq!(subs.global_reference_count(hash_3).unwrap(), 1);

    // Unpin the blocks correctly.
    subs.unpin_blocks(&id_1, vec![hash_1, hash_2]).unwrap();
    assert_eq!(subs.global_reference_count(hash_1), None);
    assert_eq!(subs.global_reference_count(hash_2).unwrap(), 1);
    assert_eq!(subs.global_reference_count(hash_3).unwrap(), 1);
}

#[test]
fn subscription_lock_block() {
    let backend = init_backend();
    let mut subs: Subs =
        SubscriptionsInner::new(10, Duration::from_secs(10), MAX_OPERATIONS_PER_SUB, backend);

    let id = "abc".to_string();
    let hash = BlockHash::new(0x7777, 0x8888);

    // Subscription not inserted.
    let err = subs.lock_block(&id, hash, 1).err().unwrap();
    assert_eq!(err, SubscriptionManagementError::SubscriptionAbsent);

    let _stop = subs.insert_subscription(id.clone(), true).unwrap();
    // Cannot insert the same subscription ID twice.
    assert!(subs.insert_subscription(id.clone(), true).is_none());

    // No block hash.
    let err = subs.lock_block(&id, hash, 1).err().unwrap();
    assert_eq!(err, SubscriptionManagementError::BlockHashAbsent);

    subs.remove_subscription(&id);

    // No subscription.
    let err = subs.lock_block(&id, hash, 1).err().unwrap();
    assert_eq!(err, SubscriptionManagementError::SubscriptionAbsent);
}

#[test]
fn subscription_check_block() {
    let backend = init_backend();

    let hashes = produce_blocks(1);
    let hash = hashes[0];

    let mut subs: Subs =
        SubscriptionsInner::new(10, Duration::from_secs(10), MAX_OPERATIONS_PER_SUB, backend);
    let id = "abc".to_string();

    let _stop = subs.insert_subscription(id.clone(), true).unwrap();

    // First time we are pinning the block.
    assert_eq!(subs.pin_block(&id, hash).unwrap(), true);

    let block = subs.lock_block(&id, hash, 1).unwrap();
    // Subscription started with runtime updates
    assert_eq!(block.has_runtime(), true);

    let invalid_id = "abc-invalid".to_string();
    let err = subs.unpin_blocks(&invalid_id, vec![hash]).unwrap_err();
    assert_eq!(err, SubscriptionManagementError::SubscriptionAbsent);

    // Unpin the block.
    subs.unpin_blocks(&id, vec![hash]).unwrap();
    let err = subs.lock_block(&id, hash, 1).err().unwrap();
    assert_eq!(err, SubscriptionManagementError::BlockHashAbsent);
}

#[test]
fn subscription_ref_count() {
    let backend = init_backend();

    let hashes = produce_blocks(1);
    let hash = hashes[0];

    let mut subs: Subs =
        SubscriptionsInner::new(10, Duration::from_secs(10), MAX_OPERATIONS_PER_SUB, backend);
    let id = "abc".to_string();

    let _stop = subs.insert_subscription(id.clone(), true).unwrap();
    assert_eq!(subs.pin_block(&id, hash).unwrap(), true);
    // Check the global ref count.
    assert_eq!(subs.global_reference_count(hash).unwrap(), 1);
    // Ensure the block propagated to the subscription.
    subs.block_state(&id, hash).unwrap();

    // Insert the block for the same subscription again (simulate NewBlock + Finalized pinning)
    assert_eq!(subs.pin_block(&id, hash).unwrap(), false);
    // Check the global ref count should not get incremented.
    assert_eq!(subs.global_reference_count(hash).unwrap(), 1);

    // Ensure the hash propagates for the second subscription.
    let id_second = "abcd".to_string();
    let _stop = subs.insert_subscription(id_second.clone(), true).unwrap();
    assert_eq!(subs.pin_block(&id_second, hash).unwrap(), true);
    // Check the global ref count.
    assert_eq!(subs.global_reference_count(hash).unwrap(), 2);
    // Ensure the block propagated to the subscription.
    subs.block_state(&id_second, hash).unwrap();

    subs.unpin_blocks(&id, vec![hash]).unwrap();
    assert_eq!(subs.global_reference_count(hash).unwrap(), 1);
    // Cannot unpin a block twice for the same subscription.
    let err = subs.unpin_blocks(&id, vec![hash]).unwrap_err();
    assert_eq!(err, SubscriptionManagementError::BlockHashAbsent);

    subs.unpin_blocks(&id_second, vec![hash]).unwrap();
    // Block unregistered from the memory.
    assert!(subs.global_reference_count(hash).is_none());
}

#[test]
fn subscription_remove_subscription() {
    let backend = init_backend();

    let hashes = produce_blocks(3);
    let (hash_1, hash_2, hash_3) = (hashes[0], hashes[1], hashes[2]);

    let mut subs: Subs =
        SubscriptionsInner::new(10, Duration::from_secs(10), MAX_OPERATIONS_PER_SUB, backend);
    let id_1 = "abc".to_string();
    let id_2 = "abcd".to_string();

    // Pin all blocks for the first subscription.
    let _stop = subs.insert_subscription(id_1.clone(), true).unwrap();
    assert_eq!(subs.pin_block(&id_1, hash_1).unwrap(), true);
    assert_eq!(subs.pin_block(&id_1, hash_2).unwrap(), true);
    assert_eq!(subs.pin_block(&id_1, hash_3).unwrap(), true);

    // Pin only block 2 for the second subscription.
    let _stop = subs.insert_subscription(id_2.clone(), true).unwrap();
    assert_eq!(subs.pin_block(&id_2, hash_2).unwrap(), true);

    // Check reference count.
    assert_eq!(subs.global_reference_count(hash_1).unwrap(), 1);
    assert_eq!(subs.global_reference_count(hash_2).unwrap(), 2);
    assert_eq!(subs.global_reference_count(hash_3).unwrap(), 1);

    subs.remove_subscription(&id_1);

    assert!(subs.global_reference_count(hash_1).is_none());
    assert_eq!(subs.global_reference_count(hash_2).unwrap(), 1);
    assert!(subs.global_reference_count(hash_3).is_none());

    subs.remove_subscription(&id_2);

    assert!(subs.global_reference_count(hash_2).is_none());
    assert_eq!(subs.pinned_blocks(), 0);
}

#[test]
fn subscription_check_limits() {
    let backend = init_backend();

    let hashes = produce_blocks(3);
    let (hash_1, hash_2, hash_3) = (hashes[0], hashes[1], hashes[2]);

    // Maximum number of pinned blocks is 2.
    let mut subs: Subs =
        SubscriptionsInner::new(2, Duration::from_secs(10), MAX_OPERATIONS_PER_SUB, backend);
    let id_1 = "abc".to_string();
    let id_2 = "abcd".to_string();

    // Both subscriptions can pin the maximum limit.
    let _stop = subs.insert_subscription(id_1.clone(), true).unwrap();
    assert_eq!(subs.pin_block(&id_1, hash_1).unwrap(), true);
    assert_eq!(subs.pin_block(&id_1, hash_2).unwrap(), true);

    let _stop = subs.insert_subscription(id_2.clone(), true).unwrap();
    assert_eq!(subs.pin_block(&id_2, hash_1).unwrap(), true);
    assert_eq!(subs.pin_block(&id_2, hash_2).unwrap(), true);

    // Check reference count.
    assert_eq!(subs.global_reference_count(hash_1).unwrap(), 2);
    assert_eq!(subs.global_reference_count(hash_2).unwrap(), 2);

    // Block 3 pinning will exceed the limit and both subscriptions
    // are terminated because no subscription with older blocks than 10
    // seconds are present.
    let err = subs.pin_block(&id_1, hash_3).unwrap_err();
    assert_eq!(err, SubscriptionManagementError::ExceededLimits);

    // Ensure both subscriptions are removed.
    let err = subs.lock_block(&id_1, hash_1, 1).err().unwrap();
    assert_eq!(err, SubscriptionManagementError::SubscriptionAbsent);

    let err = subs.lock_block(&id_2, hash_1, 1).err().unwrap();
    assert_eq!(err, SubscriptionManagementError::SubscriptionAbsent);

    assert!(subs.global_reference_count(hash_1).is_none());
    assert!(subs.global_reference_count(hash_2).is_none());
    assert!(subs.global_reference_count(hash_3).is_none());
    assert_eq!(subs.pinned_blocks(), 0);
}

#[test]
fn subscription_check_limits_with_duration() {
    let backend = init_backend();

    let hashes = produce_blocks(3);
    let (hash_1, hash_2, hash_3) = (hashes[0], hashes[1], hashes[2]);

    // Maximum number of pinned blocks is 2 and maximum pin duration is 5 second.
    let mut subs: Subs =
        SubscriptionsInner::new(2, Duration::from_secs(5), MAX_OPERATIONS_PER_SUB, backend);
    let id_1 = "abc".to_string();
    let id_2 = "abcd".to_string();

    let start: u128 = 1_000;
    let _stop = subs.insert_subscription(id_1.clone(), true).unwrap();
    assert_eq!(subs.pin_block_at(&id_1, hash_1, start).unwrap(), true);
    assert_eq!(subs.pin_block_at(&id_1, hash_2, start).unwrap(), true);

    // Maximum pin duration is 5 second, let a little more than 5 seconds pass
    // to ensure we clean up the first subscription.
    let later = start + Duration::from_secs(5).as_nanos() + 1;

    let _stop = subs.insert_subscription(id_2.clone(), true).unwrap();
    assert_eq!(subs.pin_block_at(&id_2, hash_1, later).unwrap(), true);

    // Check reference count.
    assert_eq!(subs.global_reference_count(hash_1).unwrap(), 2);
    assert_eq!(subs.global_reference_count(hash_2).unwrap(), 1);

    // Second subscription has only 1 block pinned. Only the first subscription is terminated.
    let err = subs.pin_block_at(&id_1, hash_3, later).unwrap_err();
    assert_eq!(err, SubscriptionManagementError::ExceededLimits);

    // Ensure both subscriptions are removed.
    let err = subs.lock_block(&id_1, hash_1, 1).err().unwrap();
    assert_eq!(err, SubscriptionManagementError::SubscriptionAbsent);

    let _block_guard = subs.lock_block(&id_2, hash_1, 1).unwrap();

    assert_eq!(subs.global_reference_count(hash_1).unwrap(), 1);
    assert!(subs.global_reference_count(hash_2).is_none());
    assert!(subs.global_reference_count(hash_3).is_none());
    assert_eq!(subs.pinned_blocks(), 1);

    // Force second subscription to get terminated.
    assert_eq!(subs.pin_block_at(&id_2, hash_2, later).unwrap(), true);
    let err = subs.pin_block_at(&id_2, hash_3, later).unwrap_err();
    assert_eq!(err, SubscriptionManagementError::ExceededLimits);

    assert!(subs.global_reference_count(hash_1).is_none());
    assert!(subs.global_reference_count(hash_2).is_none());
    assert!(subs.global_reference_count(hash_3).is_none());
    assert_eq!(subs.pinned_blocks(), 0);
}

#[test]
fn subscription_check_stop_event() {
    let backend = init_backend();
    let mut subs: Subs =
        SubscriptionsInner::new(10, Duration::from_secs(10), MAX_OPERATIONS_PER_SUB, backend);

    let id = "abc".to_string();

    let mut sub_data = subs.insert_subscription(id.clone(), true).unwrap();

    // Check the stop signal was not received.
    let res = sub_data.rx_stop.try_recv().unwrap();
    assert!(res.is_none());

    assert!(subs.stop_subscription(&id));

    // Check the signal was received.
    let res = sub_data.rx_stop.try_recv().unwrap();
    assert!(res.is_some());
}

#[test]
fn stop_all_subscriptions() {
    let backend = init_backend();

    let hashes = produce_blocks(3);
    let (hash_1, hash_2, hash_3) = (hashes[0], hashes[1], hashes[2]);

    let mut subs: Subs =
        SubscriptionsInner::new(10, Duration::from_secs(10), MAX_OPERATIONS_PER_SUB, backend);
    let id_1 = "abc".to_string();
    let id_2 = "abcd".to_string();

    // Pin all blocks for the first subscription.
    let _stop = subs.insert_subscription(id_1.clone(), true).unwrap();
    assert_eq!(subs.pin_block(&id_1, hash_1).unwrap(), true);
    assert_eq!(subs.pin_block(&id_1, hash_2).unwrap(), true);
    assert_eq!(subs.pin_block(&id_1, hash_3).unwrap(), true);

    // Pin only block 2 for the second subscription.
    let _stop = subs.insert_subscription(id_2.clone(), true).unwrap();
    assert_eq!(subs.pin_block(&id_2, hash_2).unwrap(), true);

    // Check reference count.
    assert_eq!(subs.global_reference_count(hash_1).unwrap(), 1);
    assert_eq!(subs.global_reference_count(hash_2).unwrap(), 2);
    assert_eq!(subs.global_reference_count(hash_3).unwrap(), 1);
    assert_eq!(subs.pinned_blocks(), 3);

    // Stop all active subscriptions.
    subs.stop_all_subscriptions();
    assert_eq!(subs.pinned_blocks(), 0);
    assert_eq!(subs.subscriptions(), 0);
}

#[test]
fn backend_keeps_one_pin_per_pinned_block() {
    let backend = init_backend();
    let hashes = produce_blocks(2);
    let (hash_1, hash_2) = (hashes[0], hashes[1]);
    let mut subs: Subs = SubscriptionsInner::new(
        10,
        Duration::from_secs(10),
        MAX_OPERATIONS_PER_SUB,
        backend.clone(),
    );
    subs.insert_subscription("a".to_string(), false).unwrap();
    subs.insert_subscription("b".to_string(), false).unwrap();

    assert_eq!(subs.pin_block("a", hash_1), Ok(true));
    assert_eq!(subs.pin_block("b", hash_1), Ok(true));
    assert_eq!(subs.pin_block("b", hash_2), Ok(true));
    // Two references, one pin.
    assert_eq!(subs.global_reference_count(hash_1), Some(2));
    assert_eq!(backend.pins(hash_1), 1);
    assert_eq!(backend.pins(hash_2), 1);

    subs.unpin_blocks("a", vec![hash_1]).unwrap();
    assert_eq!(backend.pins(hash_1), 1);
    subs.unpin_blocks("b", vec![hash_1]).unwrap();
    assert_eq!(backend.pins(hash_1), 0);

    subs.remove_subscription("b");
    assert_eq!(backend.pins(hash_2), 0);
}

#[test]
fn second_announcement_after_unpin_leaks_nothing() {
    let backend = init_backend();
    let hash = produce_blocks(1)[0];
    let mut subs: Subs = SubscriptionsInner::new(
        10,
        Duration::from_secs(10),
        MAX_OPERATIONS_PER_SUB,
        backend.clone(),
    );
    subs.insert_subscription("A".to_string(), true).unwrap();

    assert_eq!(subs.pin_block("A", hash), Ok(true));
    assert_eq!(
        subs.block_state("A", hash).unwrap().state_machine,
        BlockStateMachine::Registered
    );
    assert_eq!(backend.pins(hash), 1);

    assert_eq!(subs.unpin_blocks("A", vec![hash]), Ok(()));
    assert_eq!(subs.block_state("A", hash).unwrap().state_machine, BlockStateMachine::Unpinned);
    assert_eq!(subs.global_reference_count(hash), None);
    assert_eq!(backend.pins(hash), 0);

    // The second announcement ends the tracking and pins nothing.
    assert_eq!(subs.pin_block("A", hash), Ok(false));
    assert!(subs.block_state("A", hash).is_none());
    assert_eq!(subs.global_reference_count(hash), None);
    assert_eq!(backend.pins(hash), 0);
}

#[test]
fn announcements_commute_with_the_release() {
    let hash = produce_blocks(1)[0];

    // Both announcements, then the release.
    let backend_one = init_backend();
    let mut one: Subs = SubscriptionsInner::new(
        10,
        Duration::from_secs(10),
        MAX_OPERATIONS_PER_SUB,
        backend_one.clone(),
    );
    one.insert_subscription("A".to_string(), true).unwrap();
    assert_eq!(one.pin_block("A", hash), Ok(true));
    assert_eq!(one.pin_block("A", hash), Ok(false));
    assert_eq!(one.unpin_blocks("A", vec![hash]), Ok(()));

    // One announcement, the release, the other announcement.
    let backend_two = init_backend();
    let mut two: Subs = SubscriptionsInner::new(
        10,
        Duration::from_secs(10),
        MAX_OPERATIONS_PER_SUB,
        backend_two.clone(),
    );
    two.insert_subscription("A".to_string(), true).unwrap();
    assert_eq!(two.pin_block("A", hash), Ok(true));
    assert_eq!(two.unpin_blocks("A", vec![hash]), Ok(()));
    assert_eq!(two.pin_block("A", hash), Ok(false));

    assert_eq!(one.block_state("A", hash), two.block_state("A", hash));
    assert_eq!(one.block_state("A", hash), None);
    assert_eq!(one.global_reference_count(hash), two.global_reference_count(hash));
    assert_eq!(one.global_reference_count(hash), None);
    assert_eq!(backend_one.pins(hash), backend_two.pins(hash));
    assert_eq!(backend_one.pins(hash), 0);
}

#[test]
fn double_unpin_is_rejected_without_change() {
    let backend = init_backend();
    let hashes = produce_blocks(2);
    let (hash_1, hash_2) = (hashes[0], hashes[1]);
    let mut subs: Subs = SubscriptionsInner::new(
        10,
        Duration::from_secs(10),
        MAX_OPERATIONS_PER_SUB,
        backend.clone(),
    );
    subs.insert_subscription("A".to_string(), true).unwrap();
    subs.insert_subscription("B".to_string(), true).unwrap();
    subs.pin_block("A", hash_1).unwrap();
    subs.pin_block("B", hash_1).unwrap();
    subs.pin_block("B", hash_2).unwrap();

    assert_eq!(subs.unpin_blocks("A", vec![hash_1]), Ok(()));
    assert_eq!(subs.global_reference_count(hash_1), Some(1));
    for _ in 0..2 {
        assert_eq!(
            subs.unpin_blocks("A", vec![hash_1]),
            Err(SubscriptionManagementError::BlockHashAbsent)
        );
        assert_eq!(subs.global_reference_count(hash_1), Some(1));
        assert_eq!(subs.global_reference_count(hash_2), Some(1));
        assert_eq!(backend.pins(hash_1), 1);
        assert_eq!(subs.pinned_blocks(), 2);
    }
}

#[test]
fn unpin_checks_every_hash_before_it_releases_one() {
    let backend = init_backend();
    let hashes = produce_blocks(2);
    let (held, missing) = (hashes[0], hashes[1]);
    let mut subs: Subs =
        SubscriptionsInner::new(10, Duration::from_secs(10), MAX_OPERATIONS_PER_SUB, backend);
    subs.insert_subscription("A".to_string(), true).unwrap();
    subs.pin_block("A", held).unwrap();

    assert_eq!(
        subs.unpin_blocks("A", vec![held, missing]),
        Err(SubscriptionManagementError::BlockHashAbsent)
    );
    assert_eq!(subs.global_reference_count(held), Some(1));
    assert_eq!(subs.block_state("A", held).unwrap().state_machine, BlockStateMachine::Registered);

    // Duplicates are found before the subscription is looked up.
    assert_eq!(
        subs.unpin_blocks("nobody", vec![held, held]),
        Err(SubscriptionManagementError::DuplicateHashes)
    );
    // Releasing nothing is fine.
    assert_eq!(subs.unpin_blocks("A", vec![]), Ok(()));
}

#[test]
fn pin_for_unknown_subscription_is_refused() {
    let backend = init_backend();
    let hash = produce_blocks(1)[0];
    let mut subs: Subs = SubscriptionsInner::new(
        10,
        Duration::from_secs(10),
        MAX_OPERATIONS_PER_SUB,
        backend.clone(),
    );
    assert_eq!(
        subs.pin_block("nobody", hash),
        Err(SubscriptionManagementError::SubscriptionAbsent)
    );
    assert_eq!(subs.pinned_blocks(), 0);
    assert_eq!(backend.pins(hash), 0);
}

#[test]
fn backend_refusal_is_handed_on_verbatim() {
    let backend = init_backend();
    let hashes = produce_blocks(2);
    let (good, bad) = (hashes[0], hashes[1]);
    backend.refuse(bad);
    let mut subs: Subs = SubscriptionsInner::new(
        10,
        Duration::from_secs(10),
        MAX_OPERATIONS_PER_SUB,
        backend.clone(),
    );
    subs.insert_subscription("A".to_string(), true).unwrap();
    subs.pin_block("A", good).unwrap();

    assert_eq!(
        subs.pin_block("A", bad),
        Err(SubscriptionManagementError::Custom("block 2 is pruned".to_string()))
    );
    // Nothing was counted or pinned for the refused block.
    assert_eq!(subs.global_reference_count(bad), None);
    assert_eq!(backend.pins(bad), 0);
    assert_eq!(subs.pinned_blocks(), 1);
    // The subscription tracks the block all the same.
    assert_eq!(subs.block_state("A", bad).unwrap().state_machine, BlockStateMachine::Registered);
}

#[test]
fn guard_holds_its_own_pin_until_dropped() {
    let backend = init_backend();
    let hash = produce_blocks(1)[0];
    let mut subs: Subs = SubscriptionsInner::new(
        10,
        Duration::from_secs(10),
        MAX_OPERATIONS_PER_SUB,
        backend.clone(),
    );
    subs.insert_subscription("A".to_string(), false).unwrap();
    subs.pin_block("A", hash).unwrap();
    assert_eq!(backend.pins(hash), 1);

    let mut guard = subs.lock_block("A", hash, 3).unwrap();
    assert_eq!(guard.hash(), hash);
    assert_eq!(guard.has_runtime(), false);
    assert_eq!(guard.operation().operation_id(), "0");
    assert_eq!(backend.pins(hash), 2);
    // The registry counts the subscription only.
    assert_eq!(subs.global_reference_count(hash), Some(1));

    // The guard outlives the subscription.
    subs.remove_subscription("A");
    assert_eq!(backend.pins(hash), 1);
    assert_eq!(subs.pinned_blocks(), 0);

    drop(guard);
    assert_eq!(backend.pins(hash), 0);
}

#[test]
fn guard_returns_its_slots_when_dropped() {
    let backend = init_backend();
    let hash = produce_blocks(1)[0];
    let mut subs: Subs = SubscriptionsInner::new(10, Duration::from_secs(10), 2, backend.clone());
    subs.insert_subscription("A".to_string(), true).unwrap();
    subs.pin_block("A", hash).unwrap();

    let first = subs.lock_block("A", hash, 1).unwrap();
    // Two are wanted, one is free.
    let mut second = subs.lock_block("A", hash, 2).unwrap();
    assert_eq!(second.operation().operation_id(), "1");
    assert_eq!(
        subs.lock_block("A", hash, 1).err().unwrap(),
        SubscriptionManagementError::ExceededLimits
    );
    assert_eq!(backend.pins(hash), 3);
    assert!(subs.get_operation("A", "1").is_some());

    drop(second);
    assert_eq!(backend.pins(hash), 2);
    assert!(subs.get_operation("A", "1").is_none());
    let mut third = subs.lock_block("A", hash, 1).unwrap();
    assert_eq!(third.operation().operation_id(), "2");
    drop(first);
    drop(third);
    assert_eq!(backend.pins(hash), 1);
}

#[test]
fn lock_with_refusing_backend_frees_the_slot() {
    let backend = init_backend();
    let hash = produce_blocks(1)[0];
    let mut subs: Subs = SubscriptionsInner::new(10, Duration::from_secs(10), 1, backend.clone());
    subs.insert_subscription("A".to_string(), true).unwrap();
    subs.pin_block("A", hash).unwrap();

    backend.refuse(hash);
    assert_eq!(
        subs.lock_block("A", hash, 1).err().unwrap(),
        SubscriptionManagementError::Custom("block 1 is pruned".to_string())
    );
    assert_eq!(backend.pins(hash), 1);
    assert!(subs.get_operation("A", "0").is_none());
    // Wanting no slot at all finds none.
    assert_eq!(
        subs.lock_block("A", hash, 0).err().unwrap(),
        SubscriptionManagementError::ExceededLimits
    );
}

#[test]
fn get_operation_needs_subscription_and_operation() {
    let backend = init_backend();
    let hash = produce_blocks(1)[0];
    let mut subs: Subs =
        SubscriptionsInner::new(10, Duration::from_secs(10), MAX_OPERATIONS_PER_SUB, backend);
    assert!(subs.get_operation("A", "0").is_none());
    subs.insert_subscription("A".to_string(), true).unwrap();
    assert!(subs.get_operation("A", "0").is_none());
    subs.pin_block("A", hash).unwrap();
    assert!(subs.has_operation_identifiers("A"));
    let mut guard = subs.lock_block("A", hash, 1).unwrap();
    let mut state = subs.get_operation("A", "0").unwrap();
    assert!(!guard.operation().stop_handle().is_stopped());
    state.stop();
    assert!(guard.operation().stop_handle().is_stopped());
}

#[test]
fn eviction_spares_subscriptions_at_the_age_limit() {
    let backend = init_backend();
    let hashes = produce_blocks(3);
    let mut subs: Subs =
        SubscriptionsInner::new(1, Duration::from_secs(5), MAX_OPERATIONS_PER_SUB, backend);
    let limit = Duration::from_secs(5).as_nanos();
    subs.insert_subscription("old".to_string(), true).unwrap();
    subs.insert_subscription("new".to_string(), true).unwrap();
    assert_eq!(subs.pin_block_at("old", hashes[0], 100), Ok(true));

    // Exactly at the limit nobody has expired, so everybody goes.
    assert_eq!(
        subs.pin_block_at("new", hashes[1], 100 + limit),
        Err(SubscriptionManagementError::ExceededLimits)
    );
    assert_eq!(subs.subscriptions(), 0);
    assert_eq!(subs.pinned_blocks(), 0);

    // One nanosecond later only the old one goes.
    subs.insert_subscription("old".to_string(), true).unwrap();
    subs.insert_subscription("new".to_string(), true).unwrap();
    assert_eq!(subs.pin_block_at("old", hashes[0], 100), Ok(true));
    assert_eq!(subs.pin_block_at("new", hashes[1], 101 + limit), Ok(true));
    assert!(!subs.contains_subscription("old"));
    assert!(subs.contains_subscription("new"));
    assert_eq!(subs.global_reference_count(hashes[0]), None);
    assert_eq!(subs.global_reference_count(hashes[1]), Some(1));
}

#[test]
fn eviction_ends_subscriptions_with_blocks_from_the_future() {
    let backend = init_backend();
    let hashes = produce_blocks(2);
    let mut subs: Subs =
        SubscriptionsInner::new(1, Duration::from_secs(5), MAX_OPERATIONS_PER_SUB, backend);
    subs.insert_subscription("ahead".to_string(), true).unwrap();
    subs.insert_subscription("now".to_string(), true).unwrap();
    assert_eq!(subs.pin_block_at("ahead", hashes[0], 1_000), Ok(true));
    // The clock ran backwards.
    assert_eq!(subs.pin_block_at("now", hashes[1], 10), Ok(true));
    assert!(!subs.contains_subscription("ahead"));
    assert!(subs.contains_subscription("now"));
}

#[test]
fn cap_of_zero_pins_nothing() {
    let backend = init_backend();
    let hash = produce_blocks(1)[0];
    let mut subs: Subs = SubscriptionsInner::new(
        0,
        Duration::from_secs(5),
        MAX_OPERATIONS_PER_SUB,
        backend.clone(),
    );
    subs.insert_subscription("A".to_string(), true).unwrap();
    assert_eq!(subs.pin_block("A", hash), Err(SubscriptionManagementError::ExceededLimits));
    assert!(!subs.contains_subscription("A"));
    assert_eq!(backend.pins(hash), 0);
}

#[test]
fn pinned_blocks_stay_under_the_cap() {
    let backend = init_backend();
    let hashes = produce_blocks(8);
    let mut subs: Subs =
        SubscriptionsInner::new(3, Duration::from_secs(5), MAX_OPERATIONS_PER_SUB, backend);
    for round in 0..4u128 {
        subs.insert_subscription("A".to_string(), true);
        subs.insert_subscription("B".to_string(), true);
        for (i, hash) in hashes.iter().enumerate() {
            let id = if i % 2 == 0 { "A" } else { "B" };
            let _ = subs.pin_block_at(id, *hash, round * 10 + i as u128);
            assert!(subs.pinned_blocks() <= 3);
        }
    }
}

#[test]
fn reference_counts_equal_the_number_of_holders() {
    let backend = init_backend();
    let hashes = produce_blocks(3);
    let ids = ["a", "b", "c"];
    let mut subs: Subs =
        SubscriptionsInner::new(10, Duration::from_secs(5), MAX_OPERATIONS_PER_SUB, backend);
    for id in ids {
        subs.insert_subscription(id.to_string(), true).unwrap();
    }
    subs.pin_block("a", hashes[0]).unwrap();
    subs.pin_block("b", hashes[0]).unwrap();
    subs.pin_block("c", hashes[0]).unwrap();
    subs.pin_block("a", hashes[1]).unwrap();
    subs.pin_block("a", hashes[1]).unwrap();
    subs.pin_block("b", hashes[2]).unwrap();
    subs.unpin_blocks("c", vec![hashes[0]]).unwrap();
    subs.remove_subscription("b");

    for hash in hashes {
        let holders = ids
            .iter()
            .filter(|id| {
                subs.block_state(id, hash)
                    .map(|state| !state.state_machine.was_unpinned())
                    .unwrap_or(false)
            })
            .count();
        assert_eq!(subs.global_reference_count(hash).unwrap_or(0), holders);
    }
    assert_eq!(subs.global_reference_count(produce_blocks(1)[0]), Some(1));
}

#[test]
fn guard_pins_at_the_backend_of_the_registry() {
    let backend = init_backend();
    let stranger = init_backend();
    let hash = produce_blocks(1)[0];
    let mut subs: Subs = SubscriptionsInner::new(
        10,
        Duration::from_secs(10),
        MAX_OPERATIONS_PER_SUB,
        backend.clone(),
    );
    subs.insert_subscription("A".to_string(), true).unwrap();
    subs.pin_block("A", hash).unwrap();
    let guard = subs.lock_block("A", hash, 1).unwrap();
    assert_eq!(backend.pins(hash), 2);
    assert_eq!(stranger.pins(hash), 0);
    drop(guard);
    assert_eq!(backend.pins(hash), 1);
}
