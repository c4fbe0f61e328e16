//! A verified presence-and-event-log library.
//!
//! The crate tracks which clients are currently connected, records every
//! connect/disconnect transition as an immutable comma-delimited event record,
//! and answers read-side queries (filter, stable sort, pagination, summary
//! statistics) over the recorded events.
//!
//! - [`domain`] holds the data model: records, query parameters, results and
//!   metric snapshots, with byte-vector text fields modelled as `Seq<u8>`.
//! - [`codec`] encodes and decodes one record per comma-delimited line and
//!   proves the round trip.
//! - [`store`] is the append-only event log store, and [`query`] its read
//!   path: filters, statistics, stable sort and pagination, pinned to one
//!   mathematical `query_spec`.
//! - [`presence`] is the registry of currently-connected identities with
//!   join/leave semantics and duration computation.
//! - [`hub`] is the lossy, latest-value-wins broadcast primitive presence
//!   metrics are published on.
pub mod bytes;
pub mod clock;
pub mod codec;
pub mod domain;
pub mod fmt;
pub mod hub;
pub mod num;
pub mod presence;
pub mod query;
pub mod sort;
pub mod store;
