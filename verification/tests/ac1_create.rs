//! A first append goes to `<dir>/<session_id>.jsonl` as one complete line.

use mcp_session_journal::{JournalConfig, JournalEntry, JournalEvent, SessionJournal};

fn journal() -> SessionJournal {
    SessionJournal::new(JournalConfig::new("/journal".to_string()))
}

fn created_json(ts: u64, session_id: &str, ttl: u64) -> String {
    format!(
        "{{\"timestamp_ms\":{},\"session_id\":\"{}\",\"event\":{{\"type\":\"session_created\",\"ttl_secs\":{}}}}}",
        ts, session_id, ttl
    )
}

#[test]
fn ac1_session_created_first_line() {
    let journal = journal();
    let session_id = "sess-ac1-create";

    let entry = JournalEntry {
        timestamp_ms: 1_700_000_000_000,
        session_id: session_id.to_string(),
        event: JournalEvent::SessionCreated { ttl_secs: 3600 },
    };
    let json = created_json(entry.timestamp_ms, session_id, 3600);
    let plan = journal.append(&entry, &vec![], json);

    assert_eq!(plan.path, format!("{}.jsonl", session_id), "journal file should have been created");

    let first_line = plan.line.lines().next().unwrap();
    assert!(plan.line.ends_with('\n'));
    let parsed: serde_json::Value =
        serde_json::from_str(first_line).expect("first line must be valid JSON");

    assert_eq!(parsed["event"]["type"], "session_created");
    assert_eq!(parsed["event"]["ttl_secs"], 3600u64);
    assert_eq!(parsed["session_id"], session_id);
    assert_eq!(parsed["timestamp_ms"], 1_700_000_000_000u64);
}

#[test]
fn ac1_file_not_pre_existing() {
    let journal = journal();
    let session_id = "sess-ac1-new";
    let path = format!("{}.jsonl", session_id);

    let listing: Vec<String> = vec![];
    assert!(journal.rotation_paths(session_id, &listing).is_empty());

    let entry = JournalEntry {
        timestamp_ms: 1,
        session_id: session_id.to_string(),
        event: JournalEvent::SessionCreated { ttl_secs: 60 },
    };
    let plan = journal.append(&entry, &vec![], created_json(1, session_id, 60));
    assert_eq!(plan.path, path);

    let listing = vec![plan.path.clone()];
    assert_eq!(journal.rotation_paths(session_id, &listing), vec![path]);
}
