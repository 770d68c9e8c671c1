//! Incremental discovery of the holders of an on-chain token contract.
//!
//! The library drives a resumable pagination scan: each page of owner
//! addresses fetched from a remote index is merged into a duplicate-free,
//! lexicographically sorted holder list, and the scan state is rendered to a
//! durable, line-based text artifact after every page, so that an interrupted
//! run resumes from the last saved page cursor without losing progress.
//!
//! All address and cursor values are handled as byte strings; the surrounding
//! binary performs the HTTP requests and file writes and feeds the results
//! back in as plain values.

pub mod clock;
pub mod codec;
pub mod digits;
pub mod engine;
pub mod lines;
pub mod order;
pub mod page;
pub mod state;
