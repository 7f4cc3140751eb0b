//! Read-only inspection of SlateDB databases: the computing core of the
//! dashboard. Database discovery over an object store's prefixes, manifest
//! diffs and their summaries, LSM summaries, garbage classification and the
//! GC's cutoff, health warnings, listing bookkeeping and its refresh
//! schedule, paging and search over manifests, compactions and checkpoints,
//! the Prometheus exposition, the store configuration's validation and
//! variable expansion, and the demo traffic shape.

pub mod config;
pub mod convert;
pub mod demo;
pub mod diff;
pub mod discovery;
pub mod dto;
pub mod garbage;
pub mod gc;
pub mod listing;
pub mod metrics;
pub mod observer;
pub mod order;
pub mod pages;
pub mod refresh;
pub mod registry;
pub mod search;
pub mod summary;
pub mod text;
pub mod warnings;
