use chain_head_subscription::backend::{pin_outcome, Backend, BackendPins};
use chain_head_subscription::clock::PinClock;
use chain_head_subscription::error::SubscriptionManagementError;
use chain_head_subscription::hash::BlockHash;
use std::sync::atomic::{AtomicI64, Ordering};
use std::sync::Arc;

/// A backend that counts all pins together and refuses odd blocks.
#[derive(Default)]
struct PickyBackend {
    pins: AtomicI64,
}

impl Backend for PickyBackend {
    fn pin_block(&self, hash: BlockHash) -> Result<(), String> {
        if hash.low % 2 == 1 {
            return Err("odd".to_string());
        }
        self.pins.fetch_add(1, Ordering::SeqCst);
        Ok(())
    }

    fn unpin_block(&self, _hash: BlockHash) {
        self.pins.fetch_sub(1, Ordering::SeqCst);
    }
}

#[test]
fn pin_outcome_wraps_the_refusal() {
    assert_eq!(pin_outcome(Ok(())), Ok(()));
    assert_eq!(
        pin_outcome(Err("state was pruned".to_string())),
        Err(SubscriptionManagementError::Custom("state was pruned".to_string()))
    );
}

#[test]
fn backend_pins_pass_calls_on() {
    let backend = Arc::new(PickyBackend::default());
    let mut pins = BackendPins::new(backend.clone());
    assert_eq!(pins.pin(BlockHash::new(0, 2)), Ok(()));
    assert_eq!(pins.pin(BlockHash::new(0, 4)), Ok(()));
    assert_eq!(pins.pin(BlockHash::new(0, 3)), Err("odd".to_string()));
    assert_eq!(backend.pins.load(Ordering::SeqCst), 2);
    pins.unpin(BlockHash::new(0, 2));
    assert_eq!(backend.pins.load(Ordering::SeqCst), 1);
    // The handle is the backend that was given.
    assert!(Arc::ptr_eq(&pins.backend(), &backend));
}

#[test]
fn clock_does_not_run_backwards() {
    let clock = PinClock::start();
    let copy = clock;
    let first = clock.now();
    let second = copy.now();
    let third = clock.now();
    assert!(first <= second);
    assert!(second <= third);
}

#[test]
fn hashes_compare_by_both_halves() {
    let hash = BlockHash::new(7, 9);
    assert_eq!(hash.high, 7);
    assert_eq!(hash.low, 9);
    assert_eq!(hash, BlockHash { high: 7, low: 9 });
    assert_ne!(hash, BlockHash::new(9, 7));
    assert_ne!(hash, BlockHash::new(7, 8));
}
