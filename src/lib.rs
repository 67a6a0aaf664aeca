//! Keeps a local, ordered view of the boot environments that a bus service
//! manages, and decides what to do on each change notification.
//!
//! - [`record`]: decoding one object's property dictionary into a record.
//! - [`load`]: a full load of the object directory, ordered by creation time.
//! - [`order`]: the order of records: creation time, then path.
//! - [`listener`]: turning bus notifications into store events.
//! - [`store`]: the state store, its events, effects and derived queries.

pub mod listener;
pub mod load;
pub mod order;
pub mod record;
pub mod store;
