//! Concrete cases of the journal's rules: naming, rotation, replay,
//! rebuilding and summarizing.

use mcp_session_journal::{
    decimal_string, is_blank_line, now_ms, sort_by_timestamp, timestamp_from_millis, CorruptLine,
    DatasetSummary, JournalConfig, JournalEntry, JournalEvent, JournalLine,
    JournalSessionSummary, MqoHistoryEntry, SessionJournal, SessionState,
};

fn journal_with_limit(max: u64) -> SessionJournal {
    SessionJournal::new(JournalConfig { dir: "/j".to_string(), max_file_size_bytes: max })
}

fn created(ts: u64, ttl: u64) -> JournalEntry {
    JournalEntry { timestamp_ms: ts, session_id: "s".to_string(), event: JournalEvent::SessionCreated { ttl_secs: ttl } }
}

fn query(ts: u64, id: &str, entities: &[&str]) -> JournalEntry {
    JournalEntry {
        timestamp_ms: ts,
        session_id: "s".to_string(),
        event: JournalEvent::QueryRecorded {
            entry: MqoHistoryEntry {
                query_id: id.to_string(),
                timestamp_ms: ts,
                touched_entities: entities.iter().map(|e| e.to_string()).collect(),
                payload: serde_json::Value::Null,
            },
        },
    }
}

fn handle(ts: u64, id: &str, name: &str) -> JournalEntry {
    JournalEntry {
        timestamp_ms: ts,
        session_id: "s".to_string(),
        event: JournalEvent::HandleAdded {
            handle_id: id.to_string(),
            summary_snapshot: DatasetSummary {
                dataset_name: name.to_string(),
                row_count: None,
                columns: vec![],
                metadata: serde_json::Value::Null,
            },
        },
    }
}

fn expired(ts: u64) -> JournalEntry {
    JournalEntry { timestamp_ms: ts, session_id: "s".to_string(), event: JournalEvent::SessionExpired }
}

fn parsed(e: JournalEntry) -> JournalLine {
    JournalLine { text: "{...}".to_string(), parsed: Some(e) }
}

fn query_ids(entries: &[JournalEntry]) -> Vec<String> {
    entries
        .iter()
        .map(|e| match &e.event {
            JournalEvent::QueryRecorded { entry } => entry.query_id.clone(),
            _ => "-".to_string(),
        })
        .collect()
}

#[test]
fn decimal_numerals() {
    assert_eq!(decimal_string(0), "0");
    assert_eq!(decimal_string(7), "7");
    assert_eq!(decimal_string(10), "10");
    assert_eq!(decimal_string(1234567890), "1234567890");
    assert_eq!(decimal_string(u64::MAX), u64::MAX.to_string());
}

#[test]
fn blank_lines_are_unicode_white_space() {
    assert!(is_blank_line(""));
    assert!(is_blank_line(" \t\r"));
    assert!(is_blank_line("\u{3000}\u{A0}\u{2028}\u{85}"));
    assert!(!is_blank_line(" x "));
    assert!(!is_blank_line("\u{200B}"));
    for c in ['\u{9}', '\u{D}', ' ', '\u{1680}', '\u{2000}', '\u{200A}', '\u{202F}', '\u{205F}'] {
        assert_eq!(is_blank_line(&c.to_string()), c.is_whitespace());
    }
}

#[test]
fn default_rotation_limit_is_ten_mebibytes() {
    let config = JournalConfig::new("/var/lib/mcp-sessions".to_string());
    assert_eq!(config.max_file_size_bytes, 10 * 1024 * 1024);
    assert_eq!(config.dir, "/var/lib/mcp-sessions");
    let journal = SessionJournal::new(config);
    assert_eq!(journal.get_config().max_file_size_bytes, 10485760);
}

#[test]
fn fragment_file_names() {
    let journal = journal_with_limit(10);
    assert_eq!(journal.journal_path("abc"), "abc.jsonl");
    assert_eq!(journal.fragment_path("abc", 0), "abc.jsonl");
    assert_eq!(journal.fragment_path("abc", 1), "abc.jsonl.1");
    assert_eq!(journal.fragment_path("abc", 12), "abc.jsonl.12");
}

#[test]
fn rotation_paths_stop_at_first_gap() {
    let journal = journal_with_limit(10);
    let listing: Vec<String> =
        vec!["a.jsonl.3", "a.jsonl", "b.jsonl", "a.jsonl.1"].into_iter().map(String::from).collect();
    assert_eq!(journal.rotation_paths("a", &listing), vec!["a.jsonl", "a.jsonl.1"]);
    assert_eq!(journal.rotation_paths("b", &listing), vec!["b.jsonl"]);
    let orphan: Vec<String> = vec!["c.jsonl.1".to_string()];
    assert!(journal.rotation_paths("c", &orphan).is_empty());
}

#[test]
fn write_goes_to_last_fragment_with_room() {
    let journal = journal_with_limit(300);
    assert_eq!(journal.active_write_path("s", &vec![]), "s.jsonl");
    assert_eq!(journal.active_write_path("s", &vec![299]), "s.jsonl");
    assert_eq!(journal.active_write_path("s", &vec![300]), "s.jsonl.1");
    assert_eq!(journal.active_write_path("s", &vec![300, 100]), "s.jsonl.1");
    assert_eq!(journal.active_write_path("s", &vec![400, 300]), "s.jsonl.2");
    assert_eq!(journal.active_write_path("s", &vec![100, 400]), "s.jsonl.2");

    let reopened = journal_with_limit(500);
    assert_eq!(reopened.active_write_path("s", &vec![400, 100]), "s.jsonl.1");
}

#[test]
fn append_plan_frames_one_line() {
    let journal = journal_with_limit(300);
    let plan = journal.append(&expired(5), &vec![300], "{\"a\":1}".to_string());
    assert_eq!(plan.path, "s.jsonl.1");
    assert_eq!(plan.line, "{\"a\":1}\n");
    let plan = journal.append(&expired(6), &vec![100, 200], "{}".to_string());
    assert_eq!(plan.path, "s.jsonl.1");
    assert_eq!(plan.line, "{}\n");
}

#[test]
fn session_names_from_directory_entries() {
    assert_eq!(SessionJournal::session_of_file("abc.jsonl"), Some("abc".to_string()));
    assert_eq!(SessionJournal::session_of_file("abc.jsonl.1"), None);
    assert_eq!(SessionJournal::session_of_file(".jsonl"), None);
    assert_eq!(SessionJournal::session_of_file("a.b.jsonl"), Some("a.b".to_string()));
    assert_eq!(SessionJournal::session_of_file("v1.2.jsonl"), Some("v1.2".to_string()));
    assert_eq!(SessionJournal::session_of_file("a.jsonl.jsonl"), Some("a.jsonl".to_string()));
    assert_eq!(SessionJournal::session_of_file("abc.json"), None);
    assert_eq!(SessionJournal::session_of_file("abc.JSONL"), None);
    assert_eq!(SessionJournal::session_of_file("sess-ä.jsonl"), Some("sess-ä".to_string()));

    let journal = journal_with_limit(10);
    let listing: Vec<String> = vec!["z.jsonl", "z.jsonl.1", "notes.txt", "a.jsonl", "x.y.jsonl"]
        .into_iter()
        .map(String::from)
        .collect();
    assert_eq!(journal.session_ids(&listing), vec!["z", "a", "x.y"]);
}

#[test]
fn sort_keeps_order_of_equal_timestamps() {
    let entries = vec![query(5, "a", &[]), query(3, "b", &[]), query(5, "c", &[]), query(1, "d", &[]), query(3, "e", &[])];
    let sorted = sort_by_timestamp(entries);
    assert_eq!(query_ids(&sorted), vec!["d", "b", "e", "a", "c"]);
}

#[test]
fn replay_is_stable_across_fragments() {
    let journal = journal_with_limit(10);
    let fragments = vec![
        vec![parsed(query(2, "a", &[])), parsed(query(1, "b", &[]))],
        vec![parsed(query(2, "c", &[])), parsed(query(1, "d", &[]))],
    ];
    let entries = journal.replay_session(fragments).unwrap();
    assert_eq!(query_ids(&entries), vec!["b", "d", "a", "c"]);
}

#[test]
fn rotation_is_invisible_to_replay() {
    let journal = journal_with_limit(10);
    let split = vec![
        vec![parsed(created(1, 60)), parsed(query(4, "q1", &[]))],
        vec![parsed(query(3, "q2", &[]))],
    ];
    let merged = vec![vec![parsed(created(1, 60)), parsed(query(4, "q1", &[])), parsed(query(3, "q2", &[]))]];
    let a = journal.replay_session(split).unwrap();
    let b = journal.replay_session(merged).unwrap();
    assert_eq!(query_ids(&a), query_ids(&b));
    assert_eq!(query_ids(&a), vec!["-", "q2", "q1"]);
}

#[test]
fn blank_lines_are_skipped_but_counted() {
    let journal = journal_with_limit(10);
    let fragments = vec![
        vec![parsed(created(1, 60))],
        vec![
            JournalLine { text: "   ".to_string(), parsed: None },
            parsed(query(2, "q", &[])),
            JournalLine { text: "".to_string(), parsed: None },
            JournalLine { text: "garbage".to_string(), parsed: None },
        ],
    ];
    let err = journal.replay_session(fragments).err().unwrap();
    assert_eq!(err, CorruptLine { fragment: 1, line_no: 4 });

    let clean = vec![vec![
        JournalLine { text: "\t".to_string(), parsed: None },
        parsed(query(2, "q", &[])),
    ]];
    assert_eq!(journal.replay_session(clean).unwrap().len(), 1);
}

#[test]
fn first_corrupt_line_wins() {
    let journal = journal_with_limit(10);
    let fragments = vec![
        vec![parsed(created(1, 60)), JournalLine { text: "x".to_string(), parsed: None }],
        vec![JournalLine { text: "y".to_string(), parsed: None }],
    ];
    let err = journal.replay_session(fragments).err().unwrap();
    assert_eq!(err, CorruptLine { fragment: 0, line_no: 2 });
}

#[test]
fn corrupt_line_message_text() {
    let c = CorruptLine { fragment: 0, line_no: 12 };
    assert_eq!(c.message("/x/a.jsonl"), "corrupt JSONL line 12 in /x/a.jsonl");
}

#[test]
fn rebuilt_session_state() {
    let entries = vec![
        created(10, 60),
        query(11, "q1", &["A", "B"]),
        handle(12, "h", "first"),
        query(13, "q2", &["B", "C", "A"]),
        handle(14, "h", "second"),
        handle(15, "k", "other"),
        created(16, 90),
        expired(17),
    ];
    let state = SessionState::from_entries("s", entries);
    assert_eq!(state.session_id, "s");
    assert_eq!(state.created_ms, 16);
    assert_eq!(state.ttl_secs, 90);
    assert_eq!(state.mqo_history.len(), 2);
    assert_eq!(state.touched_entities, vec!["A", "B", "C"]);
    assert_eq!(state.handles.len(), 2);
    assert_eq!(state.handles.get("h").unwrap().dataset_name, "second");
    assert!(state.handles.get("missing").is_none());
    assert!(state.expired);

    let pairs = state.handles.into_pairs();
    let names: Vec<&str> = pairs.iter().map(|(id, _)| id.as_str()).collect();
    assert_eq!(names, vec!["h", "k"]);
}

#[test]
fn fresh_session_state() {
    let state = SessionState::from_entries("s", vec![]);
    assert_eq!(state.created_ms, 0);
    assert_eq!(state.ttl_secs, 0);
    assert!(state.mqo_history.is_empty());
    assert!(state.touched_entities.is_empty());
    assert_eq!(state.handles.len(), 0);
    assert!(!state.expired);
}

#[test]
fn summary_agrees_with_loaded_state() {
    let make = || {
        vec![
            created(100, 60),
            query(101, "q1", &["A"]),
            handle(102, "h", "x"),
            handle(103, "h", "y"),
            query(104, "q2", &["B"]),
            handle(105, "k", "z"),
        ]
    };
    let summary = JournalSessionSummary::from_entries("s", &make());
    let state = SessionState::from_entries("s", make());
    assert_eq!(summary.query_count, state.mqo_history.len());
    assert_eq!(summary.handle_count, state.handles.len());
    assert_eq!(summary.handle_count, 2);
    assert_eq!(summary.created_ms, 100);
    assert_eq!(summary.last_event_ms, 105);
}

#[test]
fn summary_creation_time_without_created_event() {
    let summary = JournalSessionSummary::from_entries("s", &vec![query(7, "a", &[]), query(3, "b", &[]), expired(9)]);
    assert_eq!(summary.created_ms, 3);
    assert_eq!(summary.last_event_ms, 9);
    assert_eq!(summary.query_count, 2);
    assert_eq!(summary.handle_count, 0);

    let overridden = JournalSessionSummary::from_entries("s", &vec![query(2, "a", &[]), created(5, 1)]);
    assert_eq!(overridden.created_ms, 5);

    let empty = JournalSessionSummary::from_entries("s", &vec![]);
    assert_eq!((empty.created_ms, empty.last_event_ms), (0, 0));
}

#[test]
fn list_sessions_keeps_order() {
    let journal = journal_with_limit(10);
    let sessions = vec![
        ("b".to_string(), vec![created(1, 1), query(2, "q", &[])]),
        ("a".to_string(), vec![created(5, 1)]),
    ];
    let summaries = journal.list_sessions(&sessions);
    assert_eq!(summaries.len(), 2);
    assert_eq!(summaries[0].session_id, "b");
    assert_eq!(summaries[0].query_count, 1);
    assert_eq!(summaries[1].session_id, "a");
    assert_eq!(summaries[1].created_ms, 5);
}

#[test]
fn timestamp_from_clock_millis() {
    assert_eq!(timestamp_from_millis(None), 0);
    assert_eq!(timestamp_from_millis(Some(5)), 5);
    assert_eq!(timestamp_from_millis(Some((1u128 << 64) + 7)), 7);
}

#[test]
fn now_is_after_2020() {
    let a = now_ms();
    assert!(a > 1_600_000_000_000);
    assert!(now_ms() >= a);
}

#[test]
fn appended_entry_is_replayed_in_time_order() {
    let journal = journal_with_limit(10);
    let before = vec![vec![parsed(created(1, 60)), parsed(query(5, "a", &[]))], vec![parsed(query(9, "b", &[]))]];
    let after = vec![
        vec![parsed(created(1, 60)), parsed(query(5, "a", &[]))],
        vec![parsed(query(9, "b", &[])), parsed(query(5, "new", &[]))],
    ];
    assert_eq!(query_ids(&journal.replay_session(before).unwrap()), vec!["-", "a", "b"]);
    assert_eq!(query_ids(&journal.replay_session(after).unwrap()), vec!["-", "a", "new", "b"]);
}
