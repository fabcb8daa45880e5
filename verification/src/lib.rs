//! Read holds on versioned collections: the bookkeeping that keeps a
//! collection readable at the times its consumers still need, and lets it
//! compact as far as it can otherwise.
//!
//! A consumer takes a read hold on a collection at a time. While the hold
//! stands, the collection must not discard what is needed to read it at that
//! time. The coordinator counts the holds of each collection by time, in a
//! read capability, and derives from them and from the collection's standing
//! policy the floor below which the collection may compact.
//!
//! - [`frontier`]: frontiers of timestamps, and their order.
//! - [`id_bundle`]: bundles of collection ids.
//! - [`policy`]: read policies and the floors that they name.
//! - [`capability`]: read capabilities, which count holds by time.
//! - [`holds`], [`read_holds`]: read holds by time, for timelines and for
//!   single operations.
//! - [`collections`]: the lower frontiers that the controllers report.
//! - [`updates`], [`grouping`]: the policies handed to the controllers, in
//!   batches.
//! - [`coordinator`]: taking, moving and releasing holds.
//!
//! Beside the read holds stand two smaller libraries of the same system:
//!
//! - [`dyncfg`], [`named_list`]: configuration values that can be changed
//!   while a process runs.
//! - [`stash`]: transactions over a table of keys and values, and batches
//!   of changes for a durable collection.
pub mod capability;
pub mod collections;
pub mod coordinator;
pub mod dyncfg;
pub mod frontier;
pub mod grouping;
pub mod holds;
pub mod id_bundle;
pub mod named_list;
pub mod policy;
pub mod read_holds;
pub mod stash;
pub mod updates;
