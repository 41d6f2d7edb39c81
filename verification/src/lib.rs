//! Local-first synchronisation core for a multi-device note store.
//!
//! Every mutation gets a hybrid logical timestamp ([`hlc`]), is kept in an
//! append-only operation log, is staged for delivery, and is folded exactly
//! once into the current-state view of the notes.

pub mod apply_log;
pub mod convergence;
pub mod device;
pub mod engine;
pub mod hlc;
pub mod operation;
pub mod outbox;
pub mod projection;
pub mod store;
