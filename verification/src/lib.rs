//! Note lifecycle and index reconciliation engine.
//!
//! Notes are stored as individual text files, each carrying an embedded
//! metadata header, next to a single JSON side-index that caches identity,
//! timing and lifecycle state. This crate holds the parts with real
//! invariants: the header codec, the index data model, the scan/merge
//! reconciliation, the expiration/archival state machine and the rebuild
//! path. All file and clock handling stays with the caller, which hands
//! plain values in and takes plain values back.
//!
//! Timestamps are milliseconds since the Unix epoch; text is UTF-8 bytes.

use vstd::prelude::*;

pub mod codec;
pub mod lifecycle;
pub mod model;
pub mod ops;
pub mod reconcile;

verus! {

/// Milliseconds in the seven-day time-to-live a note receives at creation,
/// at explicit activity and at restore.
pub const TTL_MILLIS: i64 = 604800000;

/// How an operation on the index can fail. Failures of the surrounding
/// storage are the caller's own; an unreadable index document is answered
/// by the rebuild path, not by an error.
#[derive(Clone, Copy, PartialEq, Eq, Structural, Debug)]
pub enum NoteError {
    /// The id names no entry of the index.
    NotFound,
    /// The entry is archived; its body and activity are read-only.
    ArchivedConflict,
    /// A note file's header could not be read back.
    ParseFailure,
}

/// The body of the note shown on the very first launch.
pub fn get_welcome_content() -> (r: String)
    ensures
        r@ == "写点什么吧。\n\n这张便签会自动保存。\n关掉窗口，也不会立刻消失。\n\n一段时间后，\n它会悄悄淡出。\n\n需要的时候，\n可以从托盘里再叫回来。"@,
{
    "写点什么吧。\n\n这张便签会自动保存。\n关掉窗口，也不会立刻消失。\n\n一段时间后，\n它会悄悄淡出。\n\n需要的时候，\n可以从托盘里再叫回来。".to_owned()
}

} // verus!
