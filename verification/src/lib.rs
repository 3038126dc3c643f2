//! Verified core of a channel attachment downloader.
//!
//! The library models the decisions of a bulk attachment download run:
//! which messages spawn download work, how each message's attachments are
//! walked, how destination filenames are derived and disambiguated, and
//! when the whole run may report completion.  The surrounding process
//! (gateway connection, HTTP retrieval, filesystem writes) drives these
//! state machines and performs the I/O they decide on.

pub mod dedup;
pub mod digits;
pub mod model;
pub mod names;
pub mod orchestrate;
