//! What this library takes on trust from `tokio`, `futures`, `parking_lot`
//! and the standard library.
//!
//! Nothing in this file is proved. It makes the outside types known to the
//! verifier and says of each outside function what is claimed of it. The
//! few calls that work on the library's own types are wrapped next to
//! those types, in functions and destructors marked `external_body`.

use std::sync::Arc;
use std::time::{Duration, Instant};
use vstd::prelude::*;

verus! {

/// `tokio::sync::Semaphore`, opaque to the verifier.
#[verifier::external_type_specification]
#[verifier::external_body]
pub struct ExSemaphore(tokio::sync::Semaphore);

/// `tokio::sync::OwnedSemaphorePermit`, opaque to the verifier.
#[verifier::external_type_specification]
#[verifier::external_body]
pub struct ExOwnedSemaphorePermit(tokio::sync::OwnedSemaphorePermit);

/// `tokio::sync::TryAcquireError`, opaque to the verifier.
#[verifier::external_type_specification]
#[verifier::external_body]
pub struct ExTryAcquireError(tokio::sync::TryAcquireError);

/// `tokio::sync::mpsc::Sender`, opaque to the verifier.
#[verifier::external_type_specification]
#[verifier::external_body]
#[verifier::reject_recursive_types(T)]
pub struct ExCloseSender<T>(tokio::sync::mpsc::Sender<T>);

/// `tokio::sync::mpsc::Receiver`, opaque to the verifier.
#[verifier::external_type_specification]
#[verifier::external_body]
#[verifier::reject_recursive_types(T)]
pub struct ExCloseReceiver<T>(tokio::sync::mpsc::Receiver<T>);

/// `futures::channel::oneshot::Sender`, opaque to the verifier.
#[verifier::external_type_specification]
#[verifier::external_body]
#[verifier::reject_recursive_types(T)]
pub struct ExOneshotSender<T>(futures::channel::oneshot::Sender<T>);

/// `futures::channel::oneshot::Receiver`, opaque to the verifier.
#[verifier::external_type_specification]
#[verifier::external_body]
#[verifier::reject_recursive_types(T)]
pub struct ExOneshotReceiver<T>(futures::channel::oneshot::Receiver<T>);

/// `futures::channel::oneshot::Canceled`, opaque to the verifier.
#[verifier::external_type_specification]
#[verifier::external_body]
pub struct ExCanceled(futures::channel::oneshot::Canceled);

/// `futures::channel::mpsc::Sender`, opaque to the verifier.
#[verifier::external_type_specification]
#[verifier::external_body]
#[verifier::reject_recursive_types(T)]
pub struct ExEventSender<T>(futures::channel::mpsc::Sender<T>);

/// `futures::channel::mpsc::Receiver`, opaque to the verifier.
#[verifier::external_type_specification]
#[verifier::external_body]
#[verifier::reject_recursive_types(T)]
pub struct ExEventReceiver<T>(futures::channel::mpsc::Receiver<T>);

/// `parking_lot::RawMutex`, opaque to the verifier.
#[verifier::external_type_specification]
#[verifier::external_body]
pub struct ExRawMutex(parking_lot::RawMutex);

/// The mutex behind `parking_lot::Mutex`, opaque to the verifier.
#[verifier::external_type_specification]
#[verifier::external_body]
#[verifier::reject_recursive_types(R)]
#[verifier::reject_recursive_types(T)]
pub struct ExMutex<R, T: ?Sized>(parking_lot::lock_api::Mutex<R, T>);

/// `std::time::Instant`, opaque to the verifier.
#[verifier::external_type_specification]
#[verifier::external_body]
pub struct ExInstant(Instant);

/// The number of permits that a semaphore has been given: those it was
/// made with and those added to it since. More cannot be free at once.
/// Nothing in this library adds permits to a semaphore.
pub uninterp spec fn semaphore_limit(semaphore: tokio::sync::Semaphore) -> nat;

/// The number of permits that a permit holds, which
/// `OwnedSemaphorePermit::num_permits` reports.
pub uninterp spec fn permit_count(permit: tokio::sync::OwnedSemaphorePermit) -> nat;

/// The whole nanoseconds in a duration, which `Duration::as_nanos` reports.
pub uninterp spec fn duration_nanos(duration: Duration) -> nat;

/// `Semaphore::new` makes a semaphore with the given number of permits.
/// It panics above `Semaphore::MAX_PERMITS`, an eighth of the `usize` range.
pub assume_specification[ tokio::sync::Semaphore::new ](permits: usize) -> (semaphore:
    tokio::sync::Semaphore)
    requires
        permits <= usize::MAX / 8,
    ensures
        semaphore_limit(semaphore) == permits,
;

/// `Semaphore::available_permits` reads how many permits are free now.
/// Others may take and return permits at any time, so the number is only
/// known not to exceed what the semaphore has been given.
pub assume_specification[ tokio::sync::Semaphore::available_permits ](
    semaphore: &tokio::sync::Semaphore,
) -> (free: usize)
    ensures
        free <= semaphore_limit(*semaphore),
;

/// `Semaphore::try_acquire_many_owned` takes `n` permits at once or none.
/// Whether it succeeds depends on the permits free at that moment; when it
/// does, the permit holds exactly `n`. It panics when `n` exceeds
/// `Semaphore::MAX_PERMITS`.
pub assume_specification[ tokio::sync::Semaphore::try_acquire_many_owned ](
    semaphore: Arc<tokio::sync::Semaphore>,
    n: u32,
) -> (acquired: Result<tokio::sync::OwnedSemaphorePermit, tokio::sync::TryAcquireError>)
    requires
        n <= usize::MAX / 8,
    ensures
        acquired matches Ok(permit) ==> permit_count(permit) == n,
;

/// `OwnedSemaphorePermit::num_permits` tells how many permits the permit
/// holds.
pub assume_specification[ tokio::sync::OwnedSemaphorePermit::num_permits ](
    permit: &tokio::sync::OwnedSemaphorePermit,
) -> (permits: usize)
    ensures
        permits == permit_count(*permit),
;

/// `tokio::sync::mpsc::channel` makes a bounded channel. It panics on a
/// buffer of zero and on one above `Semaphore::MAX_PERMITS`.
pub assume_specification<T>[ tokio::sync::mpsc::channel::<T> ](buffer: usize) -> (ends: (
    tokio::sync::mpsc::Sender<T>,
    tokio::sync::mpsc::Receiver<T>,
))
    requires
        0 < buffer <= usize::MAX / 8,
;

/// `Sender::is_closed` tells whether the receiving end was dropped or
/// closed. The receiving end is in other hands, so nothing is known of the
/// answer.
pub assume_specification<T>[ tokio::sync::mpsc::Sender::<T>::is_closed ](
    sender: &tokio::sync::mpsc::Sender<T>,
) -> (closed: bool)
;

/// Cloning a `tokio::sync::mpsc::Sender` gives another handle to the same
/// channel. A sender is one shared pointer to its channel and nothing
/// more, and the clone is that pointer again: the two are the same value.
pub assume_specification<T>[ <tokio::sync::mpsc::Sender<T> as Clone>::clone ](
    sender: &tokio::sync::mpsc::Sender<T>,
) -> (copy: tokio::sync::mpsc::Sender<T>)
    ensures
        copy == *sender,
;

/// `futures::channel::oneshot::channel` makes a channel for one value.
pub assume_specification<T>[ futures::channel::oneshot::channel::<T> ]() -> (ends: (
    futures::channel::oneshot::Sender<T>,
    futures::channel::oneshot::Receiver<T>,
))
;

/// `oneshot::Sender::send` hands the value to the receiving end, or gives
/// it back when that end is gone. Which of the two happens is not known
/// here.
pub assume_specification<T>[ futures::channel::oneshot::Sender::<T>::send ](
    sender: futures::channel::oneshot::Sender<T>,
    t: T,
) -> (sent: Result<(), T>)
;

/// `futures::channel::mpsc::channel` makes a bounded channel. It panics
/// from a quarter of the `usize` range on.
pub assume_specification<T>[ futures::channel::mpsc::channel::<T> ](buffer: usize) -> (ends: (
    futures::channel::mpsc::Sender<T>,
    futures::channel::mpsc::Receiver<T>,
))
    requires
        buffer < usize::MAX / 4,
;

/// Cloning a `futures::channel::mpsc::Sender` gives another handle to the
/// same channel. It panics only once the channel has as many senders as it
/// can count, more than a process can hold.
pub assume_specification<T>[ <futures::channel::mpsc::Sender<T> as Clone>::clone ](
    sender: &futures::channel::mpsc::Sender<T>,
) -> (copy: futures::channel::mpsc::Sender<T>)
;

/// Calls `Arc::clone`, which gives another pointer to the same value.
#[verifier::external_body]
pub(crate) fn share<T>(pointer: &Arc<T>) -> (copy: Arc<T>)
    ensures
        copy == *pointer,
{
    Arc::clone(pointer)
}

/// `Instant::now` reads the monotonic clock.
pub assume_specification[ Instant::now ]() -> (now: Instant)
;

/// `Instant::elapsed` measures the time since the instant was taken.
pub assume_specification[ Instant::elapsed ](origin: &Instant) -> (elapsed: Duration)
;

/// `Duration::as_nanos` gives the duration in whole nanoseconds.
pub assume_specification[ Duration::as_nanos ](duration: &Duration) -> (nanos: u128)
    ensures
        nanos == duration_nanos(*duration),
;

} // verus!
