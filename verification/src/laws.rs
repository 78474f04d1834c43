//! What holds of the registry whatever is asked of it.
//!
//! The registry's functions keep [`SubscriptionsInner::wf`], and all but a
//! pin that the backend refuses keep [`RegistryView::accounted`]; their
//! contracts say so. The proofs here spell out what that means, and relate
//! the outcomes of successive requests.

use crate::backend::Backend;
use crate::block_state::BlockStateMachine;
use crate::error::SubscriptionManagementError;
use crate::hash::BlockHash;
use crate::model::{
    holders, pin_block_outcome, reference_count, unpin_blocks_outcome, RegistryView,
};
use crate::registry::SubscriptionsInner;
use crate::subscription::{holds_block, SubscriptionView};
use vstd::prelude::*;

verus! {

/// In a registry in which no pin was refused, the reference count of every
/// block is the number of subscriptions that track the block and have not
/// released it; a block that nobody holds is not pinned.
pub proof fn lemma_reference_counts_are_holders(view: RegistryView, hash: BlockHash)
    requires
        view.accounted(),
    ensures
        reference_count(view.global_blocks, hash) == Set::new(
            |id: Seq<char>|
                view.subs.contains_key(id) && view.subs[id].blocks.contains_key(hash)
                    && !view.subs[id].blocks[hash].state_machine.released(),
        ).len(),
        !view.global_blocks.contains_key(hash) ==> reference_count(view.global_blocks, hash) == 0,
{
    assert(reference_count(view.global_blocks, hash) == view.holder_count(hash));
    assert(holders(view.subs, view.subs.dom(), hash) =~= Set::new(
        |id: Seq<char>|
            view.subs.contains_key(id) && view.subs[id].blocks.contains_key(hash)
                && !view.subs[id].blocks[hash].state_machine.released(),
    ));
}

/// In a registry in which no pin was refused, a block is pinned if and only
/// if some subscription holds it.
pub proof fn lemma_pinned_iff_held<E, BE: Backend>(
    registry: &SubscriptionsInner<E, BE>,
    hash: BlockHash,
)
    requires
        registry.wf(),
        registry@.accounted(),
    ensures
        registry@.global_blocks.contains_key(hash) <==> exists|id: Seq<char>|
            #![trigger registry@.subs.contains_key(id)]
            registry@.subs.contains_key(id) && holds_block(registry@.subs[id].blocks, hash),
{
    registry.lemma_wf();
    let held_by = holders(registry@.subs, registry@.subs.dom(), hash);
    crate::model::lemma_holders_bounded(registry@.subs, registry@.subs.dom(), hash);
    assert(reference_count(registry@.global_blocks, hash) == registry@.holder_count(hash));
    if registry@.global_blocks.contains_key(hash) {
        assert(registry@.global_blocks[hash] >= 1);
        assert(held_by.len() >= 1);
        let id = held_by.choose();
        assert(held_by.contains(id));
        assert(registry@.subs.contains_key(id) && holds_block(registry@.subs[id].blocks, hash));
    }
    if exists|id: Seq<char>|
        #![trigger registry@.subs.contains_key(id)]
        registry@.subs.contains_key(id) && holds_block(registry@.subs[id].blocks, hash) {
        let id = choose|id: Seq<char>|
            #![trigger registry@.subs.contains_key(id)]
            registry@.subs.contains_key(id) && holds_block(registry@.subs[id].blocks, hash);
        assert(held_by.contains(id));
        assert(held_by.len() >= 1);
    }
}

/// The registry holds exactly one pin at the backend for each pinned block,
/// and none for any other block.
pub proof fn lemma_one_backend_pin_per_block<E, BE: Backend>(
    registry: &SubscriptionsInner<E, BE>,
    hash: BlockHash,
)
    requires
        registry.wf(),
    ensures
        registry@.global_blocks.contains_key(hash) ==> registry.backend_pins(hash) == 1,
        !registry@.global_blocks.contains_key(hash) ==> registry.backend_pins(hash) == 0,
        registry@.global_blocks.contains_key(hash) ==> registry@.global_blocks[hash] >= 1,
{
    registry.lemma_wf();
}

/// No more blocks are pinned than the cap allows, and no block has more
/// references than there are subscriptions.
pub proof fn lemma_pinned_blocks_within_cap<E, BE: Backend>(registry: &SubscriptionsInner<E, BE>)
    requires
        registry.wf(),
    ensures
        registry@.global_blocks.dom().finite(),
        registry@.global_blocks.dom().len() <= registry@.global_max_pinned_blocks,
        forall|hash: BlockHash|
            reference_count(registry@.global_blocks, hash) <= registry@.subs.dom().len(),
{
    registry.lemma_wf();
    assert forall|hash: BlockHash|
        reference_count(registry@.global_blocks, hash) <= registry@.subs.dom().len() by {
        assert(reference_count(registry@.global_blocks, hash) <= registry@.holder_count(hash));
        crate::model::lemma_holders_bounded(registry@.subs, registry@.subs.dom(), hash);
    }
}

/// Every subscription of the registry has the registry's number of
/// operation slots, so none of its operations holds more.
pub proof fn lemma_subscriptions_share_the_slot_limit<E, BE: Backend>(
    registry: &SubscriptionsInner<E, BE>,
    id: Seq<char>,
)
    requires
        registry.wf(),
        registry@.subs.contains_key(id),
    ensures
        registry@.subs[id].operation_slots == registry@.max_ongoing_operations,
{
    registry.lemma_wf();
}

/// The second announcement of a block and its release lead to the same
/// registry in either order: the subscription forgets the block, and the
/// block loses the subscription's reference. When the second announcement
/// was made does not matter.
pub proof fn lemma_announcement_commutes_with_release(
    view: RegistryView,
    id: Seq<char>,
    hash: BlockHash,
    early: u128,
    late: u128,
)
    requires
        view.subs.contains_key(id),
        view.subs[id].blocks.contains_key(hash),
        view.subs[id].blocks[hash].state_machine == BlockStateMachine::Registered,
    ensures
        view.announced(id, hash, early).unpinned(id, set![hash]) == view.unpinned(
            id,
            set![hash],
        ).announced(id, hash, late),
        view.announced(id, hash, early) == view.announced(id, hash, late),
        !view.announced(id, hash, early).unpinned(id, set![hash]).subs[id].blocks.contains_key(
            hash,
        ),
{
    let announced_first = view.announced(id, hash, early).unpinned(id, set![hash]);
    let released_first = view.unpinned(id, set![hash]).announced(id, hash, late);
    assert(announced_first.subs[id].blocks =~= released_first.subs[id].blocks);
    assert(announced_first.subs =~= released_first.subs);
    assert(announced_first.global_blocks =~= released_first.global_blocks);
}

/// The order of the second announcement of a block and of its release does
/// not show afterwards. Both requests succeed in either order, the second
/// announcement reports a block that is known already, and the registries
/// that the two orders leave behind are the same.
pub proof fn lemma_announce_and_unpin_in_either_order(
    before: RegistryView,
    id: Seq<char>,
    hash: BlockHash,
    early: u128,
    late: u128,
    announced: Result<bool, SubscriptionManagementError>,
    after_announcement: RegistryView,
    then_unpinned: Result<(), SubscriptionManagementError>,
    one_way: RegistryView,
    unpinned: Result<(), SubscriptionManagementError>,
    after_unpin: RegistryView,
    then_announced: Result<bool, SubscriptionManagementError>,
    other_way: RegistryView,
)
    requires
        before.subs.contains_key(id),
        before.subs[id].blocks.contains_key(hash),
        before.subs[id].blocks[hash].state_machine == BlockStateMachine::Registered,
        pin_block_outcome(before, id, hash, early, announced, after_announcement),
        unpin_blocks_outcome(after_announcement, id, seq![hash], then_unpinned, one_way),
        unpin_blocks_outcome(before, id, seq![hash], unpinned, after_unpin),
        pin_block_outcome(after_unpin, id, hash, late, then_announced, other_way),
    ensures
        announced == Ok::<bool, SubscriptionManagementError>(false),
        then_announced == Ok::<bool, SubscriptionManagementError>(false),
        then_unpinned is Ok,
        unpinned is Ok,
        one_way == other_way,
{
    let hashes = seq![hash];
    assert(hashes.no_duplicates());
    assert(hashes[0] == hash);
    assert(hashes.to_set() =~= set![hash]) by {
        assert(hashes.contains(hashes[0]));
    }
    assert(after_announcement == before.announced(id, hash, early));
    assert(holds_block(after_announcement.subs[id].blocks, hash));
    assert(holds_block(before.subs[id].blocks, hash));
    assert forall|j: int| 0 <= j < hashes.len() implies holds_block(
        after_announcement.subs[id].blocks,
        #[trigger] hashes[j],
    ) && holds_block(before.subs[id].blocks, hashes[j]) by {}
    assert(after_unpin == before.unpinned(id, set![hash]));
    assert(after_unpin.subs[id].blocks.contains_key(hash));
    lemma_announcement_commutes_with_release(before, id, hash, early, late);
}

/// A block that was released cannot be released again: after a release
/// that succeeded, the next one for the same subscription and block fails
/// with `BlockHashAbsent` and changes nothing, however often it is tried.
pub proof fn lemma_second_unpin_is_rejected(
    before: RegistryView,
    id: Seq<char>,
    hash: BlockHash,
    first: Result<(), SubscriptionManagementError>,
    between: RegistryView,
    second: Result<(), SubscriptionManagementError>,
    after: RegistryView,
)
    requires
        unpin_blocks_outcome(before, id, seq![hash], first, between),
        first is Ok,
        unpin_blocks_outcome(between, id, seq![hash], second, after),
    ensures
        second == Err::<(), SubscriptionManagementError>(
            SubscriptionManagementError::BlockHashAbsent,
        ),
        after == between,
        between.subs.contains_key(id),
        !holds_block(between.subs[id].blocks, hash),
{
    let hashes = seq![hash];
    assert(hashes.no_duplicates());
    assert(hashes[0] == hash);
    assert(hashes.to_set().contains(hash)) by {
        assert(hashes.contains(hashes[0]));
    }
    assert(before.subs.contains_key(id));
    assert(holds_block(before.subs[id].blocks, hashes[0]));
    assert(between == before.unpinned(id, hashes.to_set()));
    assert(!holds_block(between.subs[id].blocks, hashes[0]));
}

/// A subscription that is not there has no part in any reference count:
/// ending it, or ending nobody, changes nothing.
pub proof fn lemma_ending_strangers_changes_nothing<E, BE: Backend>(
    registry: &SubscriptionsInner<E, BE>,
    ids: Set<Seq<char>>,
)
    requires
        registry.wf(),
        ids.disjoint(registry@.subs.dom()),
    ensures
        registry@.without(ids) == registry@,
{
    registry.lemma_wf();
    crate::model::lemma_without_strangers(registry@, ids);
}

/// Once all subscriptions are ended, no block is pinned.
pub proof fn lemma_no_subscription_no_pin<E, BE: Backend>(registry: &SubscriptionsInner<E, BE>)
    requires
        registry.wf(),
        registry@.subs =~= Map::<Seq<char>, SubscriptionView>::empty(),
    ensures
        registry@.global_blocks =~= Map::<BlockHash, usize>::empty(),
{
    registry.lemma_wf();
    assert forall|hash: BlockHash| !registry@.global_blocks.contains_key(hash) by {
        assert(reference_count(registry@.global_blocks, hash) <= registry@.holder_count(hash));
        assert(holders(registry@.subs, registry@.subs.dom(), hash) =~= Set::<Seq<char>>::empty());
    }
}

} // verus!
