//! Pinned-block subscription registry for a `chainHead`-style streaming RPC.
//!
//! Every block that a subscription has been told about stays pinned in the
//! backend until the client releases it. The registry keeps one reference
//! count per block across all subscriptions, bounds the number of pinned
//! blocks, and ends subscriptions that hold blocks for too long.
//!
//! - [`block_state`]: the life of one block inside one subscription.
//! - [`operations`]: the bounded operations of a subscription.
//! - [`subscription`]: the state of one subscription.
//! - [`registry`]: the subscriptions and the reference counts, with
//!   [`model`] as its mathematical reading and [`laws`] as what follows.
//! - [`guard`]: a block kept pinned for the time of one method call.
//! - [`management`] and [`connections`]: subscriptions by reservation.
//! - [`backend`]: what is asked of the storage backend.
//! - [`informant`]: what the console informant tells of imported blocks.
//! - [`trusted`]: what is taken on trust from other crates.

pub mod assoc;
pub mod backend;
pub mod block_state;
pub mod clock;
pub mod connections;
pub mod error;
pub mod guard;
pub mod hash;
pub mod informant;
pub mod laws;
pub mod management;
pub mod model;
pub mod operations;
pub mod registry;
pub mod subscription;
pub mod trusted;
