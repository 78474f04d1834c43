//! What is worth telling about imported blocks.
//!
//! The informant prints a line for each block that is imported, and one
//! more when the best chain was replaced by another. It is told of some
//! blocks more than once, and keeps a short memory so as not to repeat
//! itself.

use crate::hash::BlockHash;
use std::collections::VecDeque;
use vstd::prelude::*;

verus! {

/// How many imported blocks the informant remembers.
pub const MAX_BLOCKS_TO_TRACK: usize = 100;

/// What the informant is told of an imported block.
#[derive(Clone, Copy, Debug, PartialEq, Eq, Structural)]
pub struct ImportNotification {
    /// The parent of the block.
    pub parent_hash: BlockHash,
    /// The height of the block.
    pub number: u64,
    /// The block.
    pub hash: BlockHash,
    /// Whether the block is the head of the best chain now.
    pub is_new_best: bool,
}

/// The head of a chain.
#[derive(Clone, Copy, Debug, PartialEq, Eq, Structural)]
pub struct ChainHead {
    /// The height of the block.
    pub number: u64,
    /// The block.
    pub hash: BlockHash,
}

/// What the informant makes of an import.
#[derive(Clone, Copy, Debug, PartialEq, Eq, Structural)]
pub struct ImportReport {
    /// The head that was best before, where the new best block does not
    /// build on it: the chain may have been reorganized, which the common
    /// ancestor of the two will tell.
    pub replaced_best: Option<ChainHead>,
    /// Whether the import was not reported lately and is to be printed.
    pub announce: bool,
}

/// Whether going from the head `last_best` to a block with which it has
/// `common_ancestor` in common left the chain of `last_best`.
pub fn is_reorganization(common_ancestor: BlockHash, last_best: BlockHash) -> (left: bool)
    ensures
        left == (common_ancestor != last_best),
{
    common_ancestor != last_best
}

/// The best block and the blocks reported lately.
pub struct ImportTracker {
    /// The head of the best chain as last seen.
    last_best: Option<ChainHead>,
    /// The blocks reported lately, oldest first.
    last_blocks: VecDeque<BlockHash>,
}

impl ImportTracker {
    /// The head of the best chain as last seen.
    pub closed spec fn last_best(&self) -> Option<ChainHead> {
        self.last_best
    }

    /// The blocks reported lately, oldest first.
    pub closed spec fn recent(&self) -> Seq<BlockHash> {
        self.last_blocks@
    }

    /// The memory holds no more than it is meant to, and no block twice.
    pub closed spec fn wf(&self) -> bool {
        self.last_blocks@.len() <= MAX_BLOCKS_TO_TRACK && self.last_blocks@.no_duplicates()
    }

    /// What a well-formed memory holds.
    pub proof fn lemma_wf(&self)
        requires
            self.wf(),
        ensures
            self.recent().len() <= MAX_BLOCKS_TO_TRACK,
            self.recent().no_duplicates(),
    {
    }

    /// The memory after `hash` was seen: as before if it is remembered;
    /// else with `hash` as the newest, and without the oldest where that
    /// would be one too many.
    pub open spec fn remembered(recent: Seq<BlockHash>, hash: BlockHash) -> Seq<BlockHash> {
        if recent.contains(hash) {
            recent
        } else if recent.len() + 1 > MAX_BLOCKS_TO_TRACK {
            recent.push(hash).skip(1)
        } else {
            recent.push(hash)
        }
    }

    /// The head to compare with, where a notification may tell of a
    /// reorganization: a new best block that does not build on the last.
    pub open spec fn head_left_behind(
        last_best: Option<ChainHead>,
        notification: ImportNotification,
    ) -> Option<ChainHead> {
        match last_best {
            Some(head) => if notification.parent_hash != head.hash && notification.is_new_best {
                Some(head)
            } else {
                None
            },
            None => None,
        }
    }

    /// A tracker that knows the best block and has reported nothing.
    pub fn new(best_number: u64, best_hash: BlockHash) -> (tracker: Self)
        ensures
            tracker.wf(),
            tracker.last_best() == Some(ChainHead { number: best_number, hash: best_hash }),
            tracker.recent() == Seq::<BlockHash>::empty(),
    {
        ImportTracker {
            last_best: Some(ChainHead { number: best_number, hash: best_hash }),
            last_blocks: VecDeque::new(),
        }
    }

    /// Whether `hash` was reported lately.
    fn remembers(&self, hash: BlockHash) -> (known: bool)
        ensures
            known == self.recent().contains(hash),
    {
        let mut i: usize = 0;
        while i < self.last_blocks.len()
            invariant
                i <= self.last_blocks@.len(),
                forall|j: int| 0 <= j < i ==> self.last_blocks@[j] != hash,
            decreases self.last_blocks@.len() - i,
        {
            if self.last_blocks[i] == hash {
                return true;
            }
            i += 1;
        }
        false
    }

    /// Takes note of an imported block and says what to tell of it.
    pub fn on_import(&mut self, notification: &ImportNotification) -> (report: ImportReport)
        requires
            old(self).wf(),
        ensures
            final(self).wf(),
            report.replaced_best == Self::head_left_behind(old(self).last_best(), *notification),
            report.announce == !old(self).recent().contains(notification.hash),
            final(self).last_best() == (if notification.is_new_best {
                Some(ChainHead { number: notification.number, hash: notification.hash })
            } else {
                old(self).last_best()
            }),
            final(self).recent() == Self::remembered(old(self).recent(), notification.hash),
    {
        let replaced_best = match self.last_best {
            Some(head) => if notification.parent_hash != head.hash && notification.is_new_best {
                Some(head)
            } else {
                None
            },
            None => None,
        };
        if notification.is_new_best {
            self.last_best = Some(
                ChainHead { number: notification.number, hash: notification.hash },
            );
        }
        // A block that was reported lately is not reported again.
        let announce = !self.remembers(notification.hash);
        if announce {
            let ghost before = self.last_blocks@;
            self.last_blocks.push_back(notification.hash);
            proof {
                assert forall|a: int, b: int|
                    0 <= a < before.push(notification.hash).len() && 0 <= b < before.push(
                        notification.hash,
                    ).len() && a != b implies before.push(notification.hash)[a] != before.push(
                    notification.hash,
                )[b] by {
                    if a < before.len() {
                        assert(before.contains(before[a]));
                    }
                    if b < before.len() {
                        assert(before.contains(before[b]));
                    }
                }
            }
            if self.last_blocks.len() > MAX_BLOCKS_TO_TRACK {
                self.last_blocks.pop_front();
                proof {
                    assert(self.last_blocks@ =~= before.push(notification.hash).skip(1));
                }
            }
        }
        ImportReport { replaced_best, announce }
    }
}

} // verus!
