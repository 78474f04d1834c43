//! The operations that a subscription has in flight.
//!
//! A subscription may run a bounded number of operations at once. An
//! operation reserves its slots before it starts and gives them back when
//! its handle is dropped, whichever way it ends. Each operation has an
//! identifier under which it can be found and stopped from elsewhere.

use crate::trusted::{permit_count, semaphore_limit, share};
use std::collections::HashMap;
use std::sync::Arc;
use vstd::prelude::*;

verus! {

/// The receiving end of an operation's close channel. Dropping it tells
/// every [`StopHandle`] of the operation that the operation is to stop.
pub type NotifyOnDrop = tokio::sync::mpsc::Receiver<()>;

/// The operations of one subscription that can be found by identifier,
/// shared between the subscription and the handles it has given out.
pub type SharedOperations = Arc<parking_lot::Mutex<HashMap<String, (NotifyOnDrop, StopHandle)>>>;

/// The decimal digit `d` as a character.
pub open spec fn digit(d: nat) -> char
    recommends
        d < 10,
{
    if d == 0 {
        '0'
    } else if d == 1 {
        '1'
    } else if d == 2 {
        '2'
    } else if d == 3 {
        '3'
    } else if d == 4 {
        '4'
    } else if d == 5 {
        '5'
    } else if d == 6 {
        '6'
    } else if d == 7 {
        '7'
    } else if d == 8 {
        '8'
    } else {
        '9'
    }
}

/// The decimal numeral of `n`, without leading zeros.
pub open spec fn decimal(n: nat) -> Seq<char>
    decreases n,
{
    if n < 10 {
        seq![digit(n)]
    } else {
        decimal(n / 10).push(digit(n % 10))
    }
}

/// How many slots a request for `to_reserve` gets when `available` are
/// free: as many as it asks for, as far as they are free, and none where
/// that number is zero or does not fit the semaphore's counter.
pub open spec fn slots_granted(available: usize, to_reserve: usize) -> Option<u32> {
    let wanted = if available < to_reserve {
        available
    } else {
        to_reserve
    };
    if wanted == 0 || wanted > u32::MAX {
        None
    } else {
        Some(wanted as u32)
    }
}

/// Decides how many slots to take, see [`slots_granted`].
pub fn slots_to_take(available: usize, to_reserve: usize) -> (slots: Option<u32>)
    ensures
        slots == slots_granted(available, to_reserve),
{
    let wanted = if available < to_reserve {
        available
    } else {
        to_reserve
    };
    if wanted == 0 || wanted > u32::MAX as usize {
        None
    } else {
        Some(wanted as u32)
    }
}

/// Calls `usize::to_string`, which writes the number in decimal.
#[verifier::external_body]
fn decimal_string(n: usize) -> (text: String)
    ensures
        text@ == decimal(n as nat),
{
    n.to_string()
}

/// Calls `Mutex::lock` and `HashMap::insert`: the operation can be found
/// under `id` from now on.
#[verifier::external_body]
fn track_operation(
    operations: &SharedOperations,
    id: String,
    closed: NotifyOnDrop,
    stop: StopHandle,
) {
    operations.lock().insert(id, (closed, stop));
}

/// Calls `Mutex::lock` and `HashMap::get`: a copy of the stop handle that
/// is kept under `id`, if any. The table is shared, so nothing is known
/// of what it holds at the moment of the call.
#[verifier::external_body]
fn find_operation(operations: &SharedOperations, id: &str) -> (stop: Option<StopHandle>) {
    operations.lock().get(id).map(|(_, stop)| stop.clone())
}

/// Calls `Mutex::lock` and `HashMap::remove`: nothing is kept under `id`
/// afterwards, and the close channel that was kept there is dropped.
#[verifier::external_body]
fn forget_operation(operations: &SharedOperations, id: &String) {
    operations.lock().remove(id);
}

/// Calls `Arc::new`, `Mutex::new` and `HashMap::new`: an empty table.
#[verifier::external_body]
fn no_operations() -> (operations: SharedOperations) {
    Arc::new(parking_lot::Mutex::new(HashMap::new()))
}

/// The slots that one operation has reserved. Dropping it frees them.
#[derive(Debug)]
pub struct PermitOperations {
    /// The permits taken from the limiter's semaphore.
    permit: tokio::sync::OwnedSemaphorePermit,
}

impl PermitOperations {
    /// The number of slots that are reserved.
    pub closed spec fn slots(&self) -> nat {
        permit_count(self.permit)
    }

    /// The number of slots that are reserved.
    pub fn num_permits(&self) -> (slots: usize)
        ensures
            slots == self.slots(),
    {
        self.permit.num_permits()
    }
}

/// Bounds the number of operations that run at once.
#[derive(Debug)]
pub struct LimitOperations {
    /// One permit for each free slot.
    semaphore: Arc<tokio::sync::Semaphore>,
}

impl LimitOperations {
    /// The number of slots, free or taken.
    pub closed spec fn capacity(&self) -> nat {
        semaphore_limit(*self.semaphore)
    }

    /// The semaphore can count the slots.
    #[verifier::type_invariant]
    spec fn countable(&self) -> bool {
        semaphore_limit(*self.semaphore) <= usize::MAX / 8
    }

    /// A limiter with `max_operations` free slots.
    pub fn new(max_operations: usize) -> (limits: Self)
        requires
            max_operations <= usize::MAX / 8,
        ensures
            limits.capacity() == max_operations,
    {
        LimitOperations { semaphore: Arc::new(tokio::sync::Semaphore::new(max_operations)) }
    }

    /// What a request gets once the semaphore has answered: the slots that
    /// were taken for it, or nothing where none were.
    fn granted(
        acquired: Result<tokio::sync::OwnedSemaphorePermit, tokio::sync::TryAcquireError>,
    ) -> (permit: Option<PermitOperations>)
        ensures
            match acquired {
                Ok(taken) => permit matches Some(made) && made.slots() == permit_count(taken),
                Err(_) => permit is None,
            },
    {
        match acquired {
            Ok(permit) => Some(PermitOperations { permit }),
            Err(_) => None,
        }
    }

    /// Reserves at least one slot and at most `to_reserve`, without
    /// waiting. Returns nothing when no slot is free.
    ///
    /// The slots free at the moment of the call decide: the permit holds
    /// [`slots_granted`] of them and of `to_reserve`. Dropping the permit
    /// frees the slots again.
    pub fn reserve_at_most(&self, to_reserve: usize) -> (permit: Option<PermitOperations>)
        ensures
            to_reserve == 0 ==> permit is None,
            self.capacity() == 0 ==> permit is None,
            permit matches Some(p) ==> {
                &&& 1 <= p.slots() <= to_reserve
                &&& p.slots() <= self.capacity()
            },
    {
        proof {
            use_type_invariant(self);
        }
        let available = self.semaphore.available_permits();
        match slots_to_take(available, to_reserve) {
            None => None,
            Some(slots) => Self::granted(share(&self.semaphore).try_acquire_many_owned(slots)),
        }
    }
}

/// Tells whether an operation was asked to stop.
#[derive(Clone, Debug)]
pub struct StopHandle(tokio::sync::mpsc::Sender<()>);

impl StopHandle {
    /// The sending end of the operation's close channel.
    pub closed spec fn signal(&self) -> tokio::sync::mpsc::Sender<()> {
        self.0
    }

    /// Whether the operation was asked to stop. The request comes from
    /// elsewhere, so nothing is known of the answer.
    pub fn is_stopped(&self) -> bool {
        self.0.is_closed()
    }

    /// A handle to the close channel, on which one can wait for the stop.
    pub fn close_signal(&self) -> (signal: tokio::sync::mpsc::Sender<()>)
        ensures
            signal == self.signal(),
    {
        self.0.clone()
    }
}

/// What the outside holds of an operation: enough to stop it.
#[derive(Clone, Debug)]
pub struct OperationState {
    /// Tells whether the operation was stopped already.
    stop: StopHandle,
    /// Where the operation is kept.
    operations: SharedOperations,
    /// The operation's identifier.
    operation_id: String,
}

impl OperationState {
    /// The identifier of the operation.
    pub closed spec fn id(&self) -> Seq<char> {
        self.operation_id@
    }

    /// The stop handle of the operation.
    pub closed spec fn handle(&self) -> StopHandle {
        self.stop
    }

    /// Asks the operation to stop, unless it was stopped before: the
    /// operation is taken out of the subscription's table, which closes its
    /// channel. The state itself stays as it is.
    pub fn stop(&mut self)
        ensures
            *final(self) == *old(self),
    {
        if !self.stop.is_stopped() {
            forget_operation(&self.operations, &self.operation_id);
        }
    }
}

/// An operation that has its slots, as handed to the method that runs it.
///
/// Dropping it frees the slots and takes the operation out of the
/// subscription's table.
#[derive(Debug)]
pub struct RegisteredOperation {
    /// Tells whether the operation was asked to stop.
    stop_handle: StopHandle,
    /// Where the operation is kept.
    operations: SharedOperations,
    /// The operation's identifier.
    operation_id: String,
    /// The slots of the operation.
    permit: PermitOperations,
}

impl RegisteredOperation {
    /// The identifier of the operation.
    pub closed spec fn id(&self) -> Seq<char> {
        self.operation_id@
    }

    /// The number of slots that the operation holds.
    pub closed spec fn slots(&self) -> nat {
        self.permit.slots()
    }

    /// The stop handle of the operation.
    pub closed spec fn handle(&self) -> StopHandle {
        self.stop_handle
    }

    /// Tells whether the operation was asked to stop.
    pub fn stop_handle(&self) -> (handle: &StopHandle)
        ensures
            *handle == self.handle(),
    {
        &self.stop_handle
    }

    /// The identifier of the operation.
    pub fn operation_id(&self) -> (id: String)
        ensures
            id@ == self.id(),
    {
        self.operation_id.clone()
    }
}

impl Drop for RegisteredOperation {
    /// Calls `Mutex::lock` and `HashMap::remove`: the operation can no
    /// longer be found. The permit frees its slots when it is dropped
    /// right after. A destructor cannot hold verified calls, so this one
    /// call is not verified.
    #[verifier::external_body]
    fn drop(&mut self)
        opens_invariants none
        no_unwind
    {
        self.operations.lock().remove(&self.operation_id);
    }
}

/// The operations of one subscription.
#[derive(Debug)]
pub struct Operations {
    /// The number behind the next identifier.
    next_operation_id: usize,
    /// Bounds the operations that run at once.
    limits: LimitOperations,
    /// The operations that can be found by identifier.
    operations: SharedOperations,
}

impl Operations {
    /// The number of identifiers given out so far, which is the number
    /// behind the next one.
    pub closed spec fn minted(&self) -> nat {
        self.next_operation_id as nat
    }

    /// The number of slots, free or taken.
    pub closed spec fn capacity(&self) -> nat {
        self.limits.capacity()
    }

    /// No operation yet, and `max_operations` free slots.
    pub fn new(max_operations: usize) -> (operations: Self)
        requires
            max_operations <= usize::MAX / 8,
        ensures
            operations.minted() == 0,
            operations.capacity() == max_operations,
    {
        Operations {
            next_operation_id: 0,
            limits: LimitOperations::new(max_operations),
            operations: no_operations(),
        }
    }

    /// Whether another identifier can be given out.
    pub fn has_identifiers_left(&self) -> (left: bool)
        ensures
            left == (self.minted() < usize::MAX),
    {
        self.next_operation_id < usize::MAX
    }

    /// Starts an operation with at least one slot and at most `to_reserve`.
    ///
    /// Returns nothing, and changes nothing, when no slot could be had.
    /// Otherwise the operation gets the next identifier, the numeral of the
    /// number of operations started before it.
    pub fn register_operation(&mut self, to_reserve: usize) -> (operation: Option<
        RegisteredOperation,
    >)
        requires
            old(self).minted() < usize::MAX,
        ensures
            final(self).capacity() == old(self).capacity(),
            to_reserve == 0 || old(self).capacity() == 0 ==> operation is None,
            operation is None ==> final(self).minted() == old(self).minted(),
            operation matches Some(op) ==> {
                &&& op.id() == decimal(old(self).minted())
                &&& final(self).minted() == old(self).minted() + 1
                &&& 1 <= op.slots() <= to_reserve
                &&& op.slots() <= old(self).capacity()
            },
    {
        match self.limits.reserve_at_most(to_reserve) {
            None => None,
            Some(permit) => Some(self.start_operation(permit)),
        }
    }

    /// Starts an operation on the slots of `permit`. The operation gets the
    /// next identifier and a close channel of its own, and can be found
    /// under its identifier until it ends.
    fn start_operation(&mut self, permit: PermitOperations) -> (operation: RegisteredOperation)
        requires
            old(self).minted() < usize::MAX,
        ensures
            operation.id() == decimal(old(self).minted()),
            operation.slots() == permit.slots(),
            final(self).minted() == old(self).minted() + 1,
            final(self).capacity() == old(self).capacity(),
    {
        let operation_id = self.next_operation_id();
        let (tx, rx) = tokio::sync::mpsc::channel::<()>(1);
        let stop_handle = StopHandle(tx);
        let operations = share(&self.operations);
        track_operation(&operations, operation_id.clone(), rx, stop_handle.clone());
        RegisteredOperation { stop_handle, operation_id, operations, permit }
    }

    /// What is needed to stop the operation `id`, if it is still running.
    ///
    /// Operations end on their own, so whether one is found is not a
    /// matter of this call; if one is, the state carries the identifier
    /// that was asked for.
    pub fn get_operation(&self, id: &str) -> (state: Option<OperationState>)
        ensures
            state matches Some(found) ==> found.id() == id@,
    {
        self.operation_state(find_operation(&self.operations, id), id)
    }

    /// What is handed out for the operation `id` when `found` is the stop
    /// handle that is kept for it: the state that stops the operation, or
    /// nothing where no handle is kept.
    fn operation_state(&self, found: Option<StopHandle>, id: &str) -> (state: Option<
        OperationState,
    >)
        ensures
            match found {
                Some(stop) => state matches Some(made) && made.id() == id@ && made.handle()
                    == stop,
                None => state is None,
            },
    {
        match found {
            None => None,
            Some(stop) => Some(
                OperationState {
                    stop,
                    operations: share(&self.operations),
                    operation_id: id.to_owned(),
                },
            ),
        }
    }

    /// Gives out the next identifier.
    fn next_operation_id(&mut self) -> (id: String)
        requires
            old(self).minted() < usize::MAX,
        ensures
            id@ == decimal(old(self).minted()),
            final(self).minted() == old(self).minted() + 1,
            final(self).limits == old(self).limits,
            final(self).operations == old(self).operations,
    {
        let op_id = self.next_operation_id;
        self.next_operation_id += 1;
        decimal_string(op_id)
    }
}

} // verus!
