//! Durable, append-only journal of investigation sessions: the rules that
//! decide file names, rotation, replay order and how a session is rebuilt.
//!
//! Each session is stored as `<session_id>.jsonl`, one JSON entry per
//! line; when a file reaches the size limit, writing moves on to
//! `<session_id>.jsonl.1`, `.2`, and so on. This crate decides which file
//! a line goes to, reads fragments back in order, reports the first
//! corrupt line, orders entries by time and rebuilds a session's state.

pub mod clock;
pub mod handles;
pub mod laws;
pub mod layout;
pub mod model;
pub mod replay;
pub mod session;
pub mod summary;
pub mod text;

pub use clock::{now_ms, timestamp_from_millis};
pub use handles::Handles;
pub use layout::{AppendPlan, SessionJournal};
pub use model::{
    DatasetSummary, JournalConfig, JournalEntry, JournalEvent, JournalSessionSummary,
    MqoHistoryEntry,
};
pub use replay::{sort_by_timestamp, CorruptLine, JournalLine};
pub use session::SessionState;
pub use text::{decimal_string, is_blank_line};
