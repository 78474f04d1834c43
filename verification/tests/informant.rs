use chain_head_subscription::hash::BlockHash;
use chain_head_subscription::informant::{
    is_reorganization, ChainHead, ImportNotification, ImportReport, ImportTracker,
    MAX_BLOCKS_TO_TRACK,
};

fn block(n: u64) -> BlockHash {
    BlockHash::new(0, n as u128)
}

fn child(parent: u64, number: u64, is_new_best: bool) -> ImportNotification {
    ImportNotification { parent_hash: block(parent), number, hash: block(number), is_new_best }
}

#[test]
fn import_on_the_best_chain_is_announced_once() {
    let mut tracker = ImportTracker::new(0, block(0));
    let report = tracker.on_import(&child(0, 1, true));
    assert_eq!(report, ImportReport { replaced_best: None, announce: true });
    // The same block again, as it happens after a restart of the stream.
    let report = tracker.on_import(&child(0, 1, false));
    assert_eq!(report, ImportReport { replaced_best: None, announce: false });
}

#[test]
fn new_best_off_the_last_head_asks_for_the_ancestor() {
    let mut tracker = ImportTracker::new(5, block(5));
    // A sibling of the head that does not become best changes nothing.
    let fork = ImportNotification {
        parent_hash: block(4),
        number: 5,
        hash: BlockHash::new(1, 5),
        is_new_best: false,
    };
    assert_eq!(tracker.on_import(&fork), ImportReport { replaced_best: None, announce: true });

    // Its child becomes best: the head that was best is handed out.
    let tip = ImportNotification {
        parent_hash: BlockHash::new(1, 5),
        number: 6,
        hash: BlockHash::new(1, 6),
        is_new_best: true,
    };
    assert_eq!(
        tracker.on_import(&tip),
        ImportReport {
            replaced_best: Some(ChainHead { number: 5, hash: block(5) }),
            announce: true
        }
    );

    // The next block builds on the new head.
    let next = ImportNotification {
        parent_hash: BlockHash::new(1, 6),
        number: 7,
        hash: BlockHash::new(1, 7),
        is_new_best: true,
    };
    assert_eq!(tracker.on_import(&next), ImportReport { replaced_best: None, announce: true });
}

#[test]
fn reorganization_shows_in_the_common_ancestor() {
    assert!(is_reorganization(block(3), block(5)));
    // The new best block descends from the old head after all.
    assert!(!is_reorganization(block(5), block(5)));
}

#[test]
fn memory_holds_the_last_hundred_blocks() {
    assert_eq!(MAX_BLOCKS_TO_TRACK, 100);
    let mut tracker = ImportTracker::new(0, block(0));
    for number in 1..=100 {
        assert!(tracker.on_import(&child(number - 1, number, true)).announce);
    }
    // All hundred are remembered.
    assert!(!tracker.on_import(&child(0, 1, false)).announce);
    assert!(!tracker.on_import(&child(99, 100, false)).announce);

    // One more pushes the oldest out.
    assert!(tracker.on_import(&child(100, 101, true)).announce);
    assert!(tracker.on_import(&child(0, 1, false)).announce);
    // Which pushed out the next oldest in turn.
    assert!(tracker.on_import(&child(1, 2, false)).announce);
    assert!(!tracker.on_import(&child(100, 101, false)).announce);
}
