//! A polling notification pipeline: items arriving from a chronological feed
//! and from a paginated issue tracker are deduplicated against a durable
//! ledger of already-published identifiers, and every item not yet recorded
//! there is handed to a notification sink exactly as the orchestration rules
//! dictate.
//!
//! The crate holds the decision logic: the ledger and its snapshot encoding,
//! the per-source orchestration (sequential cutoff for the feed, bounded
//! pagination for the tracker), the publisher's delivery decision and the
//! cycle phase order. Network transport, source-format parsing and the sink
//! itself live outside, driven by the surrounding binary.

pub mod feed;
pub mod ledger;
pub mod num;
pub mod publisher;
pub mod scheduler;
pub mod snapshot;
pub mod tracker;

pub use ledger::Config;
