//! A corrupt line makes replay and loading fail, naming the line.

use mcp_session_journal::{
    CorruptLine, JournalConfig, JournalEntry, JournalEvent, JournalLine, SessionJournal,
};

fn journal() -> SessionJournal {
    SessionJournal::new(JournalConfig::new("/journal".to_string()))
}

fn good_line(session_id: &str, ts: u64, event: JournalEvent) -> JournalLine {
    JournalLine {
        text: format!("{{\"timestamp_ms\":{}}}", ts),
        parsed: Some(JournalEntry { timestamp_ms: ts, session_id: session_id.to_string(), event }),
    }
}

fn good_lines(session_id: &str, count: usize) -> Vec<JournalLine> {
    let mut lines = vec![good_line(session_id, 100, JournalEvent::SessionCreated { ttl_secs: 300 })];
    for i in 0..count {
        lines.push(good_line(session_id, 200 + i as u64, JournalEvent::SessionExpired));
    }
    lines
}

fn corrupt_line() -> JournalLine {
    JournalLine {
        text: "{\"timestamp_ms\": 999, \"session_id\": \"x\", TRUNCATED".to_string(),
        parsed: None,
    }
}

#[test]
fn ac6_corrupt_line_returns_err_not_silent() {
    let journal = journal();
    let session_id = "sess-ac6";

    let mut lines = good_lines(session_id, 3);
    lines.push(corrupt_line());

    let result = journal.load_session(session_id, vec![lines]);
    assert!(result.is_err(), "load_session must return Err on corrupt line, not Ok");
    let err = result.err().unwrap();
    assert_eq!(err, CorruptLine { fragment: 0, line_no: 5 });
    let msg = err.message(&format!("/journal/{}.jsonl", session_id));
    assert!(msg.contains("line"), "error should mention 'line', got: {}", msg);
    assert!(msg.contains('5'), "error should name line 5, got: {}", msg);
}

#[test]
fn ac6_corrupt_mid_file_stops_at_corrupt_line() {
    let journal = journal();
    let session_id = "sess-ac6-mid";

    let lines = vec![
        good_line(session_id, 100, JournalEvent::SessionCreated { ttl_secs: 300 }),
        JournalLine { text: "{CORRUPT JSON".to_string(), parsed: None },
        good_line(session_id, 200, JournalEvent::SessionExpired),
    ];

    let result = journal.load_session(session_id, vec![lines]);
    assert!(result.is_err(), "should Err on corrupt mid-file line");
    let msg = result.err().unwrap().message(&format!("/journal/{}.jsonl", session_id));
    assert!(msg.contains('2'), "should name line 2, got: {}", msg);
}

#[test]
fn ac6_replay_session_also_errors() {
    let journal = journal();
    let session_id = "sess-ac6-replay";

    let mut lines = good_lines(session_id, 1);
    lines.push(corrupt_line());

    let result = journal.replay_session(vec![lines]);
    assert!(result.is_err(), "replay_session must also Err on corrupt line");
}
