//! Loading rebuilds the query history, the deduplicated touched entities
//! and the handles of a session.

use mcp_session_journal::{
    DatasetSummary, JournalConfig, JournalEntry, JournalEvent, JournalLine, MqoHistoryEntry,
    SessionJournal,
};

fn journal() -> SessionJournal {
    SessionJournal::new(JournalConfig::new("/journal".to_string()))
}

fn make_mqo(query_id: &str, entities: Vec<&str>, ts: u64) -> MqoHistoryEntry {
    MqoHistoryEntry {
        query_id: query_id.to_string(),
        timestamp_ms: ts,
        touched_entities: entities.iter().map(|s| s.to_string()).collect(),
        payload: serde_json::Value::Null,
    }
}

fn line(entry: JournalEntry) -> JournalLine {
    JournalLine { text: format!("{{\"timestamp_ms\":{}}}", entry.timestamp_ms), parsed: Some(entry) }
}

#[test]
fn ac2_load_n_queries() {
    let journal = journal();
    let session_id = "sess-ac2";

    let mut lines = vec![line(JournalEntry {
        timestamp_ms: 1000,
        session_id: session_id.to_string(),
        event: JournalEvent::SessionCreated { ttl_secs: 600 },
    })];

    let mqos = vec![
        make_mqo("q1", vec!["SalesOrder", "Customer"], 1001),
        make_mqo("q2", vec!["Customer", "Product"], 1002),
        make_mqo("q3", vec!["Invoice"], 1003),
        make_mqo("q4", vec!["SalesOrder"], 1004),
        make_mqo("q5", vec!["Region", "Country"], 1005),
    ];
    for mqo in mqos {
        lines.push(line(JournalEntry {
            timestamp_ms: mqo.timestamp_ms,
            session_id: session_id.to_string(),
            event: JournalEvent::QueryRecorded { entry: mqo },
        }));
    }

    let state = journal.load_session(session_id, vec![lines]).unwrap().unwrap();

    assert_eq!(state.mqo_history.len(), 5, "mqo_history.len() should be 5");
    assert_eq!(state.session_id, session_id);
    assert_eq!(state.ttl_secs, 600);

    let expected_entities = vec!["SalesOrder", "Customer", "Product", "Invoice", "Region", "Country"];
    for entity in &expected_entities {
        assert!(
            state.touched_entities.contains(&entity.to_string()),
            "touched_entities should contain '{}'",
            entity
        );
    }
    let sales_order_count =
        state.touched_entities.iter().filter(|e| e.as_str() == "SalesOrder").count();
    assert_eq!(sales_order_count, 1, "touched_entities should deduplicate");
}

#[test]
fn ac2_load_nonexistent_returns_none() {
    let journal = journal();
    let listing: Vec<String> = vec!["other.jsonl".to_string()];
    let fragments = journal.rotation_paths("no-such-session", &listing);
    assert!(fragments.is_empty());
    let result = journal.load_session("no-such-session", vec![]).unwrap();
    assert!(result.is_none());
}

#[test]
fn ac2_load_with_handles() {
    let journal = journal();
    let session_id = "sess-ac2-handles";

    let lines = vec![
        line(JournalEntry {
            timestamp_ms: 100,
            session_id: session_id.to_string(),
            event: JournalEvent::SessionCreated { ttl_secs: 300 },
        }),
        line(JournalEntry {
            timestamp_ms: 200,
            session_id: session_id.to_string(),
            event: JournalEvent::HandleAdded {
                handle_id: "h1".to_string(),
                summary_snapshot: DatasetSummary {
                    dataset_name: "sales".to_string(),
                    row_count: Some(1000),
                    columns: vec!["id".to_string(), "amount".to_string()],
                    metadata: serde_json::Value::Null,
                },
            },
        }),
    ];

    let state = journal.load_session(session_id, vec![lines]).unwrap().unwrap();
    assert!(state.handles.contains_key("h1"));
    assert_eq!(state.handles.get("h1").unwrap().dataset_name, "sales");
}
