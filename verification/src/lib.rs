//! A small durable record store.
//!
//! Callers submit text records; the store gives each one the next identifier
//! of a strictly increasing sequence and hands records back one by one or all
//! at once. The whole state can be written out as a snapshot and read back, so
//! that it survives the process being stopped and started again.

pub mod record;
pub mod store;
pub mod snapshot;
pub mod lifecycle;
pub mod greeting;
