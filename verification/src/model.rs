//! The registry as a mathematical value, and what its operations do to it.
//!
//! The contracts of the registry are stated over [`RegistryView`]: the
//! subscriptions with the blocks each of them tracks, and the reference
//! count of every pinned block. The lemmas here say how the number of
//! subscriptions that hold a block moves with each operation.

use crate::hash::BlockHash;
use crate::error::SubscriptionManagementError;
use crate::subscription::{
    blocks_after_register, blocks_after_unpin, holds_block, oldest_timestamp, BlockState,
    SubscriptionView,
};
use vstd::prelude::*;
use vstd::set_lib::{lemma_len_subset, lemma_set_difference_len, lemma_set_disjoint_lens};

verus! {

/// The registry without its channels and its backend.
pub struct RegistryView {
    /// The subscriptions by identifier.
    pub subs: Map<Seq<char>, SubscriptionView>,
    /// The reference count of every pinned block.
    pub global_blocks: Map<BlockHash, usize>,
    /// The largest number of blocks that may be pinned at once.
    pub global_max_pinned_blocks: usize,
    /// The longest time, in nanoseconds, for which a subscription may hold
    /// a block once the registry is full.
    pub local_max_pin_duration: u128,
    /// The number of operation slots of each subscription.
    pub max_ongoing_operations: usize,
}

/// The reference count of `hash`, zero where the block is not pinned.
pub open spec fn reference_count(global_blocks: Map<BlockHash, usize>, hash: BlockHash) -> nat {
    if global_blocks.contains_key(hash) {
        global_blocks[hash] as nat
    } else {
        0
    }
}

/// The subscriptions among `among` that hold `hash`.
pub open spec fn holders(
    subs: Map<Seq<char>, SubscriptionView>,
    among: Set<Seq<char>>,
    hash: BlockHash,
) -> Set<Seq<char>> {
    Set::new(
        |id: Seq<char>|
            among.contains(id) && subs.contains_key(id) && holds_block(subs[id].blocks, hash),
    )
}

/// The reference counts after `given_up(hash)` references to each block
/// were given up. A block whose count would reach zero is no longer
/// pinned; giving up more references than there are does no more than
/// that.
pub open spec fn after_release(
    global_blocks: Map<BlockHash, usize>,
    given_up: spec_fn(BlockHash) -> nat,
) -> Map<BlockHash, usize> {
    Map::new(
        |hash: BlockHash| global_blocks.contains_key(hash) && global_blocks[hash] > given_up(hash),
        |hash: BlockHash| (global_blocks[hash] - given_up(hash)) as usize,
    )
}

/// For each block, one reference for each subscription among `ids` that
/// holds it.
pub open spec fn given_up_by(
    subs: Map<Seq<char>, SubscriptionView>,
    ids: Set<Seq<char>>,
) -> spec_fn(BlockHash) -> nat {
    |hash: BlockHash| holders(subs, ids, hash).len()
}

/// Whether `id` is one of `ids`.
pub open spec fn listed(ids: Seq<String>, id: Seq<char>) -> bool {
    exists|j: int| 0 <= j < ids.len() && (#[trigger] ids[j])@ == id
}

/// The identifiers that `ids` lists.
pub open spec fn listing(ids: Seq<String>) -> Set<Seq<char>> {
    Set::new(|id: Seq<char>| listed(ids, id))
}

/// One reference for each of `hashes`, none for other blocks.
pub open spec fn one_each(hashes: Set<BlockHash>) -> spec_fn(BlockHash) -> nat {
    |hash: BlockHash|
        if hashes.contains(hash) {
            1nat
        } else {
            0nat
        }
}

/// Whether a subscription with these blocks has held one for too long at
/// `now`: its oldest block is older than `max_age`, or lies in the future,
/// which a clock that runs backwards can bring about.
pub open spec fn expired(blocks: Map<BlockHash, BlockState>, now: u128, max_age: u128) -> bool {
    let oldest = oldest_timestamp(blocks, now);
    oldest > now || now - oldest > max_age
}

impl RegistryView {
    /// The number of subscriptions that hold `hash`.
    pub open spec fn holder_count(self, hash: BlockHash) -> nat {
        holders(self.subs, self.subs.dom(), hash).len()
    }

    /// Every reference count is the number of subscriptions that hold the
    /// block.
    pub open spec fn accounted(self) -> bool {
        forall|hash: BlockHash| #[trigger]
            reference_count(self.global_blocks, hash) == self.holder_count(hash)
    }

    /// No reference count exceeds the number of subscriptions that hold
    /// the block.
    pub open spec fn never_overcounted(self) -> bool {
        forall|hash: BlockHash| #[trigger]
            reference_count(self.global_blocks, hash) <= self.holder_count(hash)
    }

    /// No block is pinned without a reference to it.
    pub open spec fn counts_positive(self) -> bool {
        forall|hash: BlockHash| #[trigger]
            self.global_blocks.contains_key(hash) ==> self.global_blocks[hash] >= 1
    }

    /// No more blocks are pinned than the cap allows.
    pub open spec fn within_cap(self) -> bool {
        &&& self.global_blocks.dom().finite()
        &&& self.global_blocks.dom().len() <= self.global_max_pinned_blocks
    }

    /// Whether a block that is not pinned yet can be pinned without
    /// exceeding the cap.
    pub open spec fn has_space(self) -> bool {
        self.global_blocks.dom().len() < self.global_max_pinned_blocks
    }

    /// The registry after the subscriptions `ids` were ended: they are
    /// gone, and each block has lost one reference for each of them that
    /// held it.
    pub open spec fn without(self, ids: Set<Seq<char>>) -> RegistryView {
        RegistryView {
            subs: self.subs.remove_keys(ids),
            global_blocks: after_release(self.global_blocks, given_up_by(self.subs, ids)),
            ..self
        }
    }

    /// The subscriptions that have held a block for too long at `now`.
    pub open spec fn expired_subscriptions(self, now: u128) -> Set<Seq<char>> {
        Set::new(
            |id: Seq<char>|
                self.subs.contains_key(id) && expired(
                    self.subs[id].blocks,
                    now,
                    self.local_max_pin_duration,
                ),
        )
    }

    /// The subscriptions that are ended at `now` to make space for one more
    /// pinned block: none while there is space; else those that have held
    /// a block for too long; and all of them if that does not make space.
    pub open spec fn evicted_for_space(self, now: u128) -> Set<Seq<char>> {
        if self.has_space() {
            Set::empty()
        } else if self.without(self.expired_subscriptions(now)).has_space() {
            self.expired_subscriptions(now)
        } else {
            self.subs.dom()
        }
    }

    /// The registry with the blocks of subscription `id` replaced.
    pub open spec fn with_blocks(
        self,
        id: Seq<char>,
        blocks: Map<BlockHash, BlockState>,
    ) -> RegistryView {
        RegistryView {
            subs: self.subs.insert(id, SubscriptionView { blocks, ..self.subs[id] }),
            ..self
        }
    }

    /// The registry with one more reference to `hash`.
    pub open spec fn counted(self, hash: BlockHash) -> RegistryView {
        RegistryView {
            global_blocks: self.global_blocks.insert(
                hash,
                (reference_count(self.global_blocks, hash) + 1) as usize,
            ),
            ..self
        }
    }

    /// The registry after subscription `id` was told of `hash` at `now`,
    /// before the block is counted.
    pub open spec fn announced(self, id: Seq<char>, hash: BlockHash, now: u128) -> RegistryView {
        self.with_blocks(id, blocks_after_register(self.subs[id].blocks, hash, now))
    }

    /// The registry after subscription `id` started one more operation.
    pub open spec fn with_operation_started(self, id: Seq<char>) -> RegistryView {
        RegistryView {
            subs: self.subs.insert(
                id,
                SubscriptionView {
                    operations_started: self.subs[id].operations_started + 1,
                    ..self.subs[id]
                },
            ),
            ..self
        }
    }

    /// The registry after the stop signal of subscription `id` was sent.
    pub open spec fn with_stop_sent(self, id: Seq<char>) -> RegistryView {
        RegistryView {
            subs: self.subs.insert(id, SubscriptionView { stop_armed: false, ..self.subs[id] }),
            ..self
        }
    }

    /// The registry after subscription `id` released each of `hashes`, all
    /// of which it held.
    pub open spec fn unpinned(self, id: Seq<char>, hashes: Set<BlockHash>) -> RegistryView {
        RegistryView {
            global_blocks: after_release(self.global_blocks, one_each(hashes)),
            ..self.with_blocks(id, blocks_after_unpin(self.subs[id].blocks, hashes))
        }
    }
}

/// What pinning `hash` for subscription `id` at `now` returns and leaves
/// behind.
///
/// Without the subscription nothing happens. A block that the subscription
/// tracks already has the announcement recorded and is not counted again.
/// A block that is new to it is counted: at once where it is pinned
/// already, else after space was made for it, which may end the
/// subscription itself; and only if the backend then pins it.
pub open spec fn pin_block_outcome(
    before: RegistryView,
    id: Seq<char>,
    hash: BlockHash,
    now: u128,
    result: Result<bool, SubscriptionManagementError>,
    after: RegistryView,
) -> bool {
    if !before.subs.contains_key(id) {
        result == Err::<bool, SubscriptionManagementError>(
            SubscriptionManagementError::SubscriptionAbsent,
        ) && after == before
    } else {
        let announced = before.announced(id, hash, now);
        if before.subs[id].blocks.contains_key(hash) {
            result == Ok::<bool, SubscriptionManagementError>(false) && after == announced
        } else if before.global_blocks.contains_key(hash) {
            result == Ok::<bool, SubscriptionManagementError>(true) && after == announced.counted(
                hash,
            )
        } else {
            let evicted = announced.evicted_for_space(now);
            let spaced = announced.without(evicted);
            if evicted.contains(id) {
                result == Err::<bool, SubscriptionManagementError>(
                    SubscriptionManagementError::ExceededLimits,
                ) && after == spaced
            } else {
                ||| result == Ok::<bool, SubscriptionManagementError>(true) && after
                    == spaced.counted(hash)
                ||| result matches Err(SubscriptionManagementError::Custom(_)) && after == spaced
            }
        }
    }
}

/// What releasing `hashes` for subscription `id` returns and leaves behind.
///
/// Nothing happens unless the hashes are all different, the subscription
/// exists and it holds every one of them.
pub open spec fn unpin_blocks_outcome(
    before: RegistryView,
    id: Seq<char>,
    hashes: Seq<BlockHash>,
    result: Result<(), SubscriptionManagementError>,
    after: RegistryView,
) -> bool {
    if !hashes.no_duplicates() {
        result == Err::<(), SubscriptionManagementError>(
            SubscriptionManagementError::DuplicateHashes,
        ) && after == before
    } else if !before.subs.contains_key(id) {
        result == Err::<(), SubscriptionManagementError>(
            SubscriptionManagementError::SubscriptionAbsent,
        ) && after == before
    } else if exists|j: int|
        0 <= j < hashes.len() && !holds_block(before.subs[id].blocks, #[trigger] hashes[j]) {
        result == Err::<(), SubscriptionManagementError>(
            SubscriptionManagementError::BlockHashAbsent,
        ) && after == before
    } else {
        result == Ok::<(), SubscriptionManagementError>(()) && after == before.unpinned(
            id,
            hashes.to_set(),
        )
    }
}

/// The holders of a block are among the subscriptions, which bounds their
/// number.
pub proof fn lemma_holders_bounded(
    subs: Map<Seq<char>, SubscriptionView>,
    among: Set<Seq<char>>,
    hash: BlockHash,
)
    requires
        subs.dom().finite(),
    ensures
        holders(subs, among, hash).finite(),
        holders(subs, among, hash).subset_of(holders(subs, subs.dom(), hash)),
        holders(subs, among, hash).len() <= holders(subs, subs.dom(), hash).len(),
        holders(subs, subs.dom(), hash).len() <= subs.dom().len(),
{
    let all = holders(subs, subs.dom(), hash);
    assert(all.subset_of(subs.dom()));
    lemma_len_subset(all, subs.dom());
    assert(holders(subs, among, hash).subset_of(all));
    lemma_len_subset(holders(subs, among, hash), all);
}

/// Replacing one subscription changes the number of holders of a block by
/// what that subscription held before and holds after.
pub proof fn lemma_holders_after_insert(
    subs: Map<Seq<char>, SubscriptionView>,
    id: Seq<char>,
    view: SubscriptionView,
    hash: BlockHash,
)
    requires
        subs.dom().finite(),
    ensures
        holders(subs.insert(id, view), subs.insert(id, view).dom(), hash).len() + (if holders(
            subs,
            subs.dom(),
            hash,
        ).contains(id) {
            1nat
        } else {
            0nat
        }) == holders(subs, subs.dom(), hash).len() + (if holds_block(view.blocks, hash) {
            1nat
        } else {
            0nat
        }),
{
    let before = holders(subs, subs.dom(), hash);
    let after = holders(subs.insert(id, view), subs.insert(id, view).dom(), hash);
    lemma_holders_bounded(subs, subs.dom(), hash);
    lemma_holders_bounded(subs.insert(id, view), subs.insert(id, view).dom(), hash);
    if holds_block(view.blocks, hash) {
        assert(after =~= before.insert(id));
    } else {
        assert(after =~= before.remove(id));
    }
}

/// Ending subscriptions takes them out of the holders of every block, and
/// takes as many references from the block as far as it has them.
pub proof fn lemma_without_counts(view: RegistryView, ids: Set<Seq<char>>, hash: BlockHash)
    requires
        view.subs.dom().finite(),
    ensures
        view.without(ids).subs.dom().finite(),
        view.without(ids).holder_count(hash) == view.holder_count(hash) - holders(
            view.subs,
            ids,
            hash,
        ).len(),
        reference_count(view.without(ids).global_blocks, hash) == (if reference_count(
            view.global_blocks,
            hash,
        ) > holders(view.subs, ids, hash).len() {
            reference_count(view.global_blocks, hash) - holders(view.subs, ids, hash).len()
        } else {
            0
        }),
{
    let all = holders(view.subs, view.subs.dom(), hash);
    let gone = holders(view.subs, ids, hash);
    let rest = holders(view.without(ids).subs, view.without(ids).subs.dom(), hash);
    lemma_holders_bounded(view.subs, ids, hash);
    lemma_holders_bounded(view.subs, view.subs.dom(), hash);
    assert(view.without(ids).subs.dom().subset_of(view.subs.dom()));
    lemma_len_subset(view.without(ids).subs.dom(), view.subs.dom());
    assert(rest =~= all.difference(gone));
    lemma_set_difference_len(all, gone);
    assert(all.intersect(gone) =~= gone);
}

/// Ending subscriptions that are not there changes nothing.
pub proof fn lemma_without_strangers(view: RegistryView, ids: Set<Seq<char>>)
    requires
        view.subs.dom().finite(),
        view.counts_positive(),
        ids.disjoint(view.subs.dom()),
    ensures
        view.without(ids) == view,
{
    let after = view.without(ids);
    assert(after.subs =~= view.subs);
    assert forall|hash: BlockHash| #[trigger]
        after.global_blocks.dom().contains(hash) == view.global_blocks.dom().contains(hash) by {
        assert(holders(view.subs, ids, hash) =~= Set::<Seq<char>>::empty());
    }
    assert forall|hash: BlockHash| #[trigger]
        after.global_blocks.dom().contains(hash) implies after.global_blocks[hash]
        == view.global_blocks[hash] by {
        assert(holders(view.subs, ids, hash) =~= Set::<Seq<char>>::empty());
    }
    assert(after.global_blocks =~= view.global_blocks);
}

/// Ending subscriptions one after another is ending them together.
pub proof fn lemma_without_then_without(
    view: RegistryView,
    first: Set<Seq<char>>,
    second: Set<Seq<char>>,
)
    requires
        view.subs.dom().finite(),
    ensures
        view.without(first).without(second) == view.without(first + second),
{
    let once = view.without(first);
    let both = once.without(second);
    let together = view.without(first + second);
    assert(both.subs =~= together.subs);
    assert forall|hash: BlockHash|
        #![trigger both.global_blocks.dom().contains(hash)]
        #![trigger together.global_blocks.dom().contains(hash)]
        both.global_blocks.dom().contains(hash) == together.global_blocks.dom().contains(hash) && (
        both.global_blocks.dom().contains(hash) ==> both.global_blocks[hash]
            == together.global_blocks[hash]) by {
        let early = holders(view.subs, first, hash);
        let late = holders(once.subs, second, hash);
        let all = holders(view.subs, first + second, hash);
        lemma_holders_bounded(view.subs, first, hash);
        lemma_holders_bounded(view.subs, first + second, hash);
        assert(once.subs.dom().subset_of(view.subs.dom()));
        lemma_len_subset(once.subs.dom(), view.subs.dom());
        lemma_holders_bounded(once.subs, second, hash);
        assert(all =~= early + late);
        assert(early.disjoint(late));
        lemma_set_disjoint_lens(early, late);
    }
    assert(both.global_blocks =~= together.global_blocks);
}

/// Giving up references in two steps is giving up their sum.
pub proof fn lemma_release_twice(
    global_blocks: Map<BlockHash, usize>,
    first: spec_fn(BlockHash) -> nat,
    second: spec_fn(BlockHash) -> nat,
    sum: spec_fn(BlockHash) -> nat,
)
    requires
        forall|hash: BlockHash| #[trigger] sum(hash) == first(hash) + second(hash),
    ensures
        after_release(after_release(global_blocks, first), second) =~= after_release(
            global_blocks,
            sum,
        ),
{
    let once = after_release(global_blocks, first);
    let twice = after_release(once, second);
    let together = after_release(global_blocks, sum);
    assert forall|hash: BlockHash|
        #![trigger twice.dom().contains(hash)]
        #![trigger together.dom().contains(hash)]
        twice.dom().contains(hash) == together.dom().contains(hash) && (twice.dom().contains(hash)
            ==> twice[hash] == together[hash]) by {
        assert(sum(hash) == first(hash) + second(hash));
    }
}

/// Giving up the same references leads to the same counts.
pub proof fn lemma_release_same(
    global_blocks: Map<BlockHash, usize>,
    one: spec_fn(BlockHash) -> nat,
    other: spec_fn(BlockHash) -> nat,
)
    requires
        forall|hash: BlockHash| #[trigger] one(hash) == other(hash),
    ensures
        after_release(global_blocks, one) =~= after_release(global_blocks, other),
{
    let a = after_release(global_blocks, one);
    let b = after_release(global_blocks, other);
    assert forall|hash: BlockHash|
        #![trigger a.dom().contains(hash)]
        #![trigger b.dom().contains(hash)]
        a.dom().contains(hash) == b.dom().contains(hash) && (a.dom().contains(hash) ==> a[hash]
            == b[hash]) by {
        assert(one(hash) == other(hash));
    }
}

/// Giving up references pins no further block.
pub proof fn lemma_release_shrinks(
    global_blocks: Map<BlockHash, usize>,
    given_up: spec_fn(BlockHash) -> nat,
)
    requires
        global_blocks.dom().finite(),
    ensures
        after_release(global_blocks, given_up).dom().finite(),
        after_release(global_blocks, given_up).dom().len() <= global_blocks.dom().len(),
{
    assert(after_release(global_blocks, given_up).dom().subset_of(global_blocks.dom()));
    lemma_len_subset(after_release(global_blocks, given_up).dom(), global_blocks.dom());
}

/// A subscription that is ended alone takes one reference from each block
/// it held.
pub proof fn lemma_without_one(view: RegistryView, id: Seq<char>, hash: BlockHash)
    requires
        view.subs.dom().finite(),
    ensures
        holders(view.subs, set![id], hash).len() == (if view.subs.contains_key(id) && holds_block(
            view.subs[id].blocks,
            hash,
        ) {
            1nat
        } else {
            0nat
        }),
{
    let one = holders(view.subs, set![id], hash);
    if view.subs.contains_key(id) && holds_block(view.subs[id].blocks, hash) {
        assert(one =~= set![id]);
    } else {
        assert(one =~= Set::<Seq<char>>::empty());
    }
}

/// Ending subscriptions keeps reference counts from exceeding the number
/// of holders, and keeps them equal to it where they were.
pub proof fn lemma_without_keeps_accounts(view: RegistryView, ids: Set<Seq<char>>)
    requires
        view.subs.dom().finite(),
        view.never_overcounted(),
    ensures
        view.without(ids).never_overcounted(),
        view.accounted() ==> view.without(ids).accounted(),
{
    assert forall|hash: BlockHash| #[trigger]
        reference_count(view.without(ids).global_blocks, hash) <= view.without(ids).holder_count(
            hash,
        ) by {
        lemma_without_counts(view, ids, hash);
        lemma_holders_bounded(view.subs, ids, hash);
        assert(reference_count(view.global_blocks, hash) <= view.holder_count(hash));
    }
    if view.accounted() {
        assert forall|hash: BlockHash| #[trigger]
            reference_count(view.without(ids).global_blocks, hash) == view.without(
                ids,
            ).holder_count(hash) by {
            lemma_without_counts(view, ids, hash);
            lemma_holders_bounded(view.subs, ids, hash);
            assert(reference_count(view.global_blocks, hash) == view.holder_count(hash));
        }
    }
}

/// Once every subscription is ended, no block is pinned.
pub proof fn lemma_without_all_is_empty(view: RegistryView)
    requires
        view.subs.dom().finite(),
        view.never_overcounted(),
    ensures
        view.without(view.subs.dom()).subs =~= Map::<Seq<char>, SubscriptionView>::empty(),
        view.without(view.subs.dom()).global_blocks =~= Map::<BlockHash, usize>::empty(),
{
    let after = view.without(view.subs.dom());
    assert forall|hash: BlockHash| !after.global_blocks.contains_key(hash) by {
        assert(reference_count(view.global_blocks, hash) <= view.holder_count(hash));
    }
}

} // verus!
