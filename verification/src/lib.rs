//! A tiered cache with an admission gate, in front of a scarce, slow resource
//! that must not be entered twice for the same key.
//!
//! Lookups are answered from a hot tier in memory. What the tier misses is
//! looked up in a durable store and, failing that, fetched from the resource:
//! once per key however many callers ask for it at the same time, and never
//! by more fetches at once than the resource has sessions. A sweep keeps the
//! tier and the store within their bounds by evicting the records that were
//! used least.
//!
//! The crate holds the decisions, as plain sequential state machines: every
//! method is one atomic step. The locking discipline is coarse: a program
//! that serves many callers keeps a [`cache::Cache`] behind one lock and
//! takes the lock for one step at a time, so that no caller ever sees a step
//! half done. Between steps it does the outside work that a step asked for
//! (a fetch, a write to the durable store, waking a caller) and reports the
//! outcome with the next step. Time is a number that the caller hands in.
//!
//! * [`record`]: one cached record and its view.
//! * [`table`]: records in a row, one per key.
//! * [`rank`]: the order in which records are evicted.
//! * [`tier`]: the hot tier.
//! * [`store`]: the table of the durable store and its delete-by-rank.
//! * [`gate`]: the admission gate that bounds the fetches in flight.
//! * [`orchestrator`]: single-flight coalescing of misses.
//! * [`cache`]: the context object that ties the components together.
//! * [`scheduler`]: when a sweep is due and how much the store has to shed.
//! * [`config`]: what a cache is set up with.
//! * [`error`]: what can go wrong with a lookup.
//! * [`laws`]: what holds across several steps.

pub mod cache;
pub mod config;
pub mod error;
pub mod gate;
pub mod laws;
pub mod orchestrator;
pub mod rank;
pub mod record;
pub mod scheduler;
pub mod store;
pub mod table;
pub mod tier;
