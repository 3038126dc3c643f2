//! The data the download run works over.
//!
//! Messages and attachments are read-only records supplied by the chat
//! platform; the shell converts the platform's types into these before
//! handing them to the verified code.  Filenames and paths are carried
//! as byte strings.

use vstd::prelude::*;

verus! {

/// One binary payload referenced by a message.
///
/// `id` is unique across the whole platform; `filename` is the original
/// name the uploader gave the payload.
pub struct Attachment {
    pub id: u64,
    pub filename: Vec<u8>,
}

/// One channel message: an identifier and its attachments.
pub struct Message {
    pub id: u64,
    pub attachments: Vec<Attachment>,
}

/// One unit of concurrent work: all attachments of a single message.
pub struct DownloadTask {
    pub message_id: u64,
    pub attachments: Vec<Attachment>,
}

/// What became of one attachment inside a task.
#[derive(Clone, Copy, PartialEq, Eq, Structural, Debug)]
pub enum AttachmentOutcome {
    /// Fetched and written to disk.
    Saved,
    /// The fetch failed; the attachment was skipped.
    FetchFailed,
    /// The fetch succeeded but the write failed; the attachment was skipped.
    WriteFailed,
}

/// Per-task tally, handed back to the orchestrator when the task ends.
pub struct TaskReport {
    pub saved: u64,
    pub failed: u64,
}

/// What a finished run reports: every task was joined, and these are the
/// accumulated tallies.
pub struct DownloadSummary {
    pub tasks: u64,
    pub saved: u64,
    pub failed: u64,
    pub page_errors: u64,
}

/// A message qualifies for a download task exactly when it carries
/// at least one attachment.
pub open spec fn qualifies(m: Message) -> bool {
    m.attachments.len() > 0
}

} // verus!
