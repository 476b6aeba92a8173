//! Concurrent batch trial-decryption scheduling, modelled deterministically.
//!
//! The crate implements the accumulate/dispatch/collect engine of a shielded
//! wallet scanner: outputs of many transactions are gathered into size-bounded
//! batches, each batch is handed to a work queue for one round of batched
//! trial decryption, and the recovered notes are later collected per
//! transaction, keyed by the position of the output inside the registration
//! that produced it.
//!
//! The worker pool is represented by an explicit first-in-first-out task
//! queue owned by the runner, and the per-transaction result channel by a
//! completion-counted receiver, so that the whole engine is a deterministic
//! state machine whose behaviour is stated in contracts and proved.  The
//! batched trial-decryption primitive itself stays outside: a driver reads
//! the queued batch, runs the primitive, and hands the per-output results
//! back to the runner, which correlates them with the registered
//! transactions.
#![verifier::loop_isolation(false)]

pub mod ids;
pub mod usage;
pub mod batch;
pub mod pending;
pub mod tasks;
pub mod counting;
pub mod runner;
pub mod decrypt;
pub mod laws;
