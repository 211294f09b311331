//! Replay returns all entries of a session in chronological order.

use mcp_session_journal::{
    DatasetSummary, JournalConfig, JournalEntry, JournalEvent, JournalLine, MqoHistoryEntry,
    SessionJournal,
};

fn event_at(i: usize) -> (u64, JournalEvent) {
    match i {
        0 => (1000, JournalEvent::SessionCreated { ttl_secs: 600 }),
        1 => (
            1001,
            JournalEvent::QueryRecorded {
                entry: MqoHistoryEntry {
                    query_id: "q1".to_string(),
                    timestamp_ms: 1001,
                    touched_entities: vec!["A".to_string()],
                    payload: serde_json::Value::Null,
                },
            },
        ),
        2 => (
            1002,
            JournalEvent::HandleAdded {
                handle_id: "h1".to_string(),
                summary_snapshot: DatasetSummary {
                    dataset_name: "ds1".to_string(),
                    row_count: None,
                    columns: vec![],
                    metadata: serde_json::Value::Null,
                },
            },
        ),
        3 => (
            1003,
            JournalEvent::QueryRecorded {
                entry: MqoHistoryEntry {
                    query_id: "q2".to_string(),
                    timestamp_ms: 1003,
                    touched_entities: vec!["B".to_string()],
                    payload: serde_json::Value::Null,
                },
            },
        ),
        4 => (
            1004,
            JournalEvent::HandleAdded {
                handle_id: "h2".to_string(),
                summary_snapshot: DatasetSummary {
                    dataset_name: "ds2".to_string(),
                    row_count: Some(500),
                    columns: vec!["col1".to_string()],
                    metadata: serde_json::Value::Null,
                },
            },
        ),
        _ => (1005, JournalEvent::SessionExpired),
    }
}

#[test]
fn ac5_replay_chronological_order() {
    let journal = SessionJournal::new(JournalConfig::new("/journal".to_string()));
    let session_id = "sess-ac5";

    let count = 6;
    let lines: Vec<JournalLine> = (0..count)
        .map(|i| {
            let (ts, event) = event_at(i);
            JournalLine {
                text: format!("{{\"timestamp_ms\":{}}}", ts),
                parsed: Some(JournalEntry { timestamp_ms: ts, session_id: session_id.to_string(), event }),
            }
        })
        .collect();

    let replayed = journal.replay_session(vec![lines]).unwrap();
    assert_eq!(replayed.len(), count);

    for window in replayed.windows(2) {
        assert!(
            window[0].timestamp_ms <= window[1].timestamp_ms,
            "replay must be in chronological order: {} > {}",
            window[0].timestamp_ms,
            window[1].timestamp_ms
        );
    }

    assert!(matches!(replayed[0].event, JournalEvent::SessionCreated { .. }));
    assert!(matches!(replayed[1].event, JournalEvent::QueryRecorded { .. }));
    assert!(matches!(replayed[2].event, JournalEvent::HandleAdded { .. }));
    assert!(matches!(replayed[3].event, JournalEvent::QueryRecorded { .. }));
    assert!(matches!(replayed[4].event, JournalEvent::HandleAdded { .. }));
    assert!(matches!(replayed[5].event, JournalEvent::SessionExpired));
}

#[test]
fn ac5_replay_empty_session() {
    let journal = SessionJournal::new(JournalConfig::new("/journal".to_string()));
    let listing: Vec<String> = vec![];
    let fragments = journal.rotation_paths("no-such", &listing);
    assert!(fragments.is_empty());
    let entries = journal.replay_session(vec![]).unwrap();
    assert!(entries.is_empty());
}
