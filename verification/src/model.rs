//! The journal's data: configuration, entries, events and summaries.

use vstd::prelude::*;

verus! {

/// Default rotation limit: 10 MiB.
pub const DEFAULT_MAX_FILE_SIZE_BYTES: u64 = 10485760;

/// An opaque JSON document carried through the journal untouched.
#[verifier::external_type_specification]
#[verifier::external_body]
pub struct ExJsonValue(serde_json::Value);

/// Configuration for the session journal.
pub struct JournalConfig {
    /// Base directory for journal files.
    pub dir: String,
    /// Rotate when a journal file reaches this size in bytes.
    pub max_file_size_bytes: u64,
}

impl JournalConfig {
    /// A config with the given directory and the default 10 MiB rotation limit.
    pub fn new(dir: String) -> (config: Self)
        ensures
            config.dir@ == dir@,
            config.max_file_size_bytes == 10 * 1024 * 1024,
    {
        JournalConfig { dir, max_file_size_bytes: DEFAULT_MAX_FILE_SIZE_BYTES }
    }
}

/// One recorded query of a session.
#[derive(Debug)]
pub struct MqoHistoryEntry {
    pub query_id: String,
    pub timestamp_ms: u64,
    pub touched_entities: Vec<String>,
    pub payload: serde_json::Value,
}

/// Summary of a dataset handle as it was when the handle was added.
#[derive(Debug)]
pub struct DatasetSummary {
    pub dataset_name: String,
    pub row_count: Option<u64>,
    pub columns: Vec<String>,
    pub metadata: serde_json::Value,
}

/// The events that can be recorded for a session.
#[derive(Debug)]
pub enum JournalEvent {
    SessionCreated { ttl_secs: u64 },
    QueryRecorded { entry: MqoHistoryEntry },
    HandleAdded { handle_id: String, summary_snapshot: DatasetSummary },
    SessionExpired,
}

/// A single persisted event in the session journal.
#[derive(Debug)]
pub struct JournalEntry {
    pub timestamp_ms: u64,
    pub session_id: String,
    pub event: JournalEvent,
}

/// Lightweight summary of a persisted session.
#[derive(Debug, Clone)]
pub struct JournalSessionSummary {
    pub session_id: String,
    pub created_ms: u64,
    pub last_event_ms: u64,
    pub query_count: usize,
    pub handle_count: usize,
}

/// The contents of a list of strings.
pub open spec fn strings_view(v: Seq<String>) -> Seq<Seq<char>> {
    v.map_values(|s: String| s@)
}

/// Whether `names` holds a string equal to `name`.
pub(crate) fn contains_string(names: &Vec<String>, name: &String) -> (b: bool)
    ensures
        b == strings_view(names@).contains(name@),
{
    let mut j: usize = 0;
    while j < names.len()
        invariant
            j <= names.len(),
            forall|k: int| 0 <= k < j ==> (#[trigger] names@[k])@ != name@,
        decreases names.len() - j,
    {
        if names[j] == *name {
            proof {
                assert(strings_view(names@)[j as int] == name@);
            }
            return true;
        }
        j = j + 1;
    }
    proof {
        if strings_view(names@).contains(name@) {
            let k = choose|k: int| 0 <= k < names@.len() && strings_view(names@)[k] == name@;
            assert(names@[k]@ == name@);
        }
    }
    false
}

} // verus!
