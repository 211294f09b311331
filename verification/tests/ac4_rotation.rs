//! When a journal file reaches the size limit, the next line goes to
//! `<session_id>.jsonl.1`; loading and replay read the fragments in order.

use mcp_session_journal::{
    JournalConfig, JournalEntry, JournalEvent, JournalLine, MqoHistoryEntry, SessionJournal,
};

fn tiny_journal() -> SessionJournal {
    let config = JournalConfig { dir: "/journal".to_string(), max_file_size_bytes: 300 };
    SessionJournal::new(config)
}

/// What one line of the simulated directory holds.
#[derive(Clone)]
enum Recorded {
    Created { ts: u64, ttl: u64 },
    Query { ts: u64, query_id: String },
}

fn entry_of(session_id: &str, r: &Recorded) -> JournalEntry {
    match r {
        Recorded::Created { ts, ttl } => JournalEntry {
            timestamp_ms: *ts,
            session_id: session_id.to_string(),
            event: JournalEvent::SessionCreated { ttl_secs: *ttl },
        },
        Recorded::Query { ts, query_id } => JournalEntry {
            timestamp_ms: *ts,
            session_id: session_id.to_string(),
            event: JournalEvent::QueryRecorded {
                entry: MqoHistoryEntry {
                    query_id: query_id.clone(),
                    timestamp_ms: *ts,
                    touched_entities: vec!["Entity1".to_string()],
                    payload: serde_json::Value::Null,
                },
            },
        },
    }
}

fn json_of(session_id: &str, r: &Recorded) -> String {
    match r {
        Recorded::Created { ts, ttl } => format!(
            "{{\"timestamp_ms\":{},\"session_id\":\"{}\",\"event\":{{\"type\":\"session_created\",\"ttl_secs\":{}}}}}",
            ts, session_id, ttl
        ),
        Recorded::Query { ts, query_id } => format!(
            "{{\"timestamp_ms\":{},\"session_id\":\"{}\",\"event\":{{\"type\":\"query_recorded\",\"entry\":{{\"query_id\":\"{}\",\"timestamp_ms\":{},\"touched_entities\":[\"Entity1\"],\"payload\":null}}}}}}",
            ts, session_id, query_id, ts
        ),
    }
}

/// A directory held in memory: file name and lines.
struct Dir {
    files: Vec<(String, Vec<(String, Recorded)>)>,
}

impl Dir {
    fn listing(&self) -> Vec<String> {
        self.files.iter().map(|(name, _)| name.clone()).collect()
    }

    fn size(&self, name: &str) -> u64 {
        self.files
            .iter()
            .find(|(n, _)| n == name)
            .map(|(_, lines)| lines.iter().map(|(text, _)| text.len() as u64).sum())
            .unwrap_or(0)
    }

    fn append(&mut self, journal: &SessionJournal, session_id: &str, r: Recorded) {
        let listing = self.listing();
        let fragments = journal.rotation_paths(session_id, &listing);
        let sizes: Vec<u64> = fragments.iter().map(|f| self.size(f)).collect();
        let entry = entry_of(session_id, &r);
        let plan = journal.append(&entry, &sizes, json_of(session_id, &r));
        match self.files.iter_mut().find(|(n, _)| *n == plan.path) {
            Some((_, lines)) => lines.push((plan.line, r)),
            None => self.files.push((plan.path, vec![(plan.line, r)])),
        }
    }

    fn fragments(&self, journal: &SessionJournal, session_id: &str) -> Vec<Vec<JournalLine>> {
        let listing = self.listing();
        journal
            .rotation_paths(session_id, &listing)
            .iter()
            .map(|name| {
                let (_, lines) = self.files.iter().find(|(n, _)| n == name).unwrap();
                lines
                    .iter()
                    .map(|(text, r)| JournalLine {
                        text: text.trim_end_matches('\n').to_string(),
                        parsed: Some(entry_of(session_id, r)),
                    })
                    .collect()
            })
            .collect()
    }
}

fn fill(journal: &SessionJournal, session_id: &str, first_ts: u64) -> Dir {
    let mut dir = Dir { files: vec![] };
    dir.append(journal, session_id, Recorded::Created { ts: 1, ttl: 3600 });
    for i in 0..20u64 {
        dir.append(
            journal,
            session_id,
            Recorded::Query { ts: first_ts + i, query_id: format!("q{}", i) },
        );
    }
    dir
}

#[test]
fn ac4_rotation_creates_fragment() {
    let journal = tiny_journal();
    let session_id = "sess-rot";
    let dir = fill(&journal, session_id, 100);

    let frag1 = format!("{}.jsonl.1", session_id);
    assert!(
        dir.listing().contains(&frag1),
        "rotation fragment .jsonl.1 should exist after overflow"
    );
}

#[test]
fn ac4_load_across_fragments() {
    let journal = tiny_journal();
    let session_id = "sess-rot2";
    let dir = fill(&journal, session_id, 1000);

    const N: usize = 20;
    let fragments = dir.fragments(&journal, session_id);
    let state = journal.load_session(session_id, fragments).unwrap().unwrap();
    assert_eq!(
        state.mqo_history.len(),
        N,
        "all {} queries should be loaded across rotation fragments",
        N
    );
}

#[test]
fn ac4_replay_across_fragments_ordered() {
    let journal = tiny_journal();
    let session_id = "sess-rot3";
    let dir = fill(&journal, session_id, 1000);

    const N: usize = 20;
    let entries = journal.replay_session(dir.fragments(&journal, session_id)).unwrap();
    for window in entries.windows(2) {
        assert!(
            window[0].timestamp_ms <= window[1].timestamp_ms,
            "entries should be in chronological order"
        );
    }
    assert_eq!(entries.len(), N + 1);
}
