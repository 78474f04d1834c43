use chain_head_subscription::backend::Backend;
use chain_head_subscription::connections::{ConnectionId, RpcConnections};
use chain_head_subscription::hash::BlockHash;
use chain_head_subscription::management::SubscriptionManagement;
use chain_head_subscription::registry::SubscriptionsInner;
use std::collections::HashMap;
use std::sync::{Arc, Mutex};
use std::time::Duration;

/// Maximum number of ongoing operations per subscription ID.
const MAX_OPERATIONS_PER_SUB: usize = 16;

#[derive(Debug, Default)]
struct CountingBackend {
    pins: Mutex<HashMap<BlockHash, i64>>,
}

impl CountingBackend {
    fn pins(&self, hash: BlockHash) -> i64 {
        self.pins.lock().unwrap().get(&hash).copied().unwrap_or(0)
    }
}

impl Backend for CountingBackend {
    fn pin_block(&self, hash: BlockHash) -> Result<(), String> {
        *self.pins.lock().unwrap().entry(hash).or_insert(0) += 1;
        Ok(())
    }

    fn unpin_block(&self, hash: BlockHash) {
        *self.pins.lock().unwrap().entry(hash).or_insert(0) -= 1;
    }
}

#[test]
fn reserved_subscription_cleans_resources() {
    let backend = Arc::new(CountingBackend::default());
    let subs: SubscriptionsInner<u32, CountingBackend> =
        SubscriptionsInner::new(10, Duration::from_secs(10), MAX_OPERATIONS_PER_SUB, backend);

    // Maximum 2 subscriptions per connection.
    let rpc_connections = RpcConnections::new(2);

    let mut subscription_management = SubscriptionManagement::from_inner(subs, rpc_connections);

    let reserved_sub_first =
        subscription_management.reserve_subscription(ConnectionId(1)).unwrap();
    let mut reserved_sub_second =
        subscription_management.reserve_subscription(ConnectionId(1)).unwrap();
    // Subscriptions reserved but not yet populated.
    assert_eq!(subscription_management.inner().subscriptions(), 0);

    // Cannot reserve anymore.
    assert!(subscription_management.reserve_subscription(ConnectionId(1)).is_none());
    // Drop the first subscription.
    subscription_management.release(reserved_sub_first);
    // Space is freed-up for the rpc connections.
    let mut reserved_sub_first =
        subscription_management.reserve_subscription(ConnectionId(1)).unwrap();

    // Insert subscriptions.
    let _sub_data_first = subscription_management
        .insert_subscription(&mut reserved_sub_first, "sub1".to_string(), true)
        .unwrap();
    let _sub_data_second = subscription_management
        .insert_subscription(&mut reserved_sub_second, "sub2".to_string(), true)
        .unwrap();
    // Check we have 2 subscriptions under management.
    assert_eq!(subscription_management.inner().subscriptions(), 2);

    // Drop first reserved subscription.
    subscription_management.release(reserved_sub_first);
    // Check that the subscription is removed.
    assert_eq!(subscription_management.inner().subscriptions(), 1);
    // Space is freed-up for the rpc connections.
    let reserved_sub_first =
        subscription_management.reserve_subscription(ConnectionId(1)).unwrap();

    // Drop all subscriptions.
    subscription_management.release(reserved_sub_first);
    subscription_management.release(reserved_sub_second);
    assert_eq!(subscription_management.inner().subscriptions(), 0);
}

#[test]
fn releasing_a_reservation_unpins_its_blocks() {
    let backend = Arc::new(CountingBackend::default());
    let subs: SubscriptionsInner<u32, CountingBackend> = SubscriptionsInner::new(
        10,
        Duration::from_secs(10),
        MAX_OPERATIONS_PER_SUB,
        backend.clone(),
    );
    let mut management = SubscriptionManagement::from_inner(subs, RpcConnections::new(1));
    let hash = BlockHash::new(3, 4);

    let mut reserved = management.reserve_subscription(ConnectionId(7)).unwrap();
    assert_eq!(reserved.connection_id(), ConnectionId(7));
    assert_eq!(reserved.subscription_id(), None);
    management.insert_subscription(&mut reserved, "s".to_string(), false).unwrap();
    assert_eq!(reserved.subscription_id(), Some("s".to_string()));
    assert_eq!(management.inner_mut().pin_block("s", hash), Ok(true));
    assert_eq!(backend.pins(hash), 1);

    management.release(reserved);
    assert!(!management.inner().contains_subscription("s"));
    assert_eq!(management.inner().pinned_blocks(), 0);
    assert_eq!(backend.pins(hash), 0);
    assert!(management.reserve_subscription(ConnectionId(7)).is_some());
}

#[test]
fn a_reservation_serves_once() {
    let backend = Arc::new(CountingBackend::default());
    let subs: SubscriptionsInner<u32, CountingBackend> =
        SubscriptionsInner::new(10, Duration::from_secs(10), MAX_OPERATIONS_PER_SUB, backend);
    let mut management = SubscriptionManagement::from_inner(subs, RpcConnections::new(2));

    let mut first = management.reserve_subscription(ConnectionId(1)).unwrap();
    let mut second = management.reserve_subscription(ConnectionId(1)).unwrap();
    assert!(management.insert_subscription(&mut first, "a".to_string(), true).is_some());
    // The reservation was used.
    assert!(management.insert_subscription(&mut first, "b".to_string(), true).is_none());
    assert!(!management.inner().contains_subscription("b"));
    // The name is taken: the reservation is spent and its slot is free.
    assert!(management.insert_subscription(&mut second, "a".to_string(), true).is_none());
    assert!(management.reserve_subscription(ConnectionId(1)).is_some());
    assert!(management.reserve_subscription(ConnectionId(1)).is_none());
    // A spent reservation gives nothing back.
    management.release(second);
    assert!(management.reserve_subscription(ConnectionId(1)).is_none());
    assert!(management.inner().contains_subscription("a"));

    management.remove_subscription("a");
    assert!(!management.inner().contains_subscription("a"));
}

#[test]
fn connections_are_counted_apart() {
    let mut connections = RpcConnections::new(2);
    assert!(connections.reserve_space(ConnectionId(1)));
    assert!(connections.reserve_space(ConnectionId(1)));
    assert!(!connections.reserve_space(ConnectionId(1)));
    assert!(connections.reserve_space(ConnectionId(2)));
    assert_eq!(connections.subscriptions_in_use(ConnectionId(1)), 2);
    assert_eq!(connections.subscriptions_in_use(ConnectionId(2)), 1);
    assert_eq!(connections.subscriptions_in_use(ConnectionId(3)), 0);

    connections.release_space(ConnectionId(1));
    assert_eq!(connections.subscriptions_in_use(ConnectionId(1)), 1);
    connections.release_space(ConnectionId(1));
    connections.release_space(ConnectionId(1));
    assert_eq!(connections.subscriptions_in_use(ConnectionId(1)), 0);
    assert_eq!(connections.subscriptions_in_use(ConnectionId(2)), 1);

    let mut none = RpcConnections::new(0);
    assert!(!none.reserve_space(ConnectionId(1)));
}
