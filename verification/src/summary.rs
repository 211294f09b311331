//! One-line summaries of persisted sessions.

use vstd::prelude::*;

use crate::layout::SessionJournal;
use crate::model::{
    contains_string, strings_view, JournalEntry, JournalEvent, JournalSessionSummary,
};

verus! {

broadcast use vstd::seq_lib::group_seq_properties;

/// What a summary accumulates while reading a session's entries.
#[verifier::ext_equal]
pub struct SummaryView {
    pub created_ms: u64,
    pub last_event_ms: u64,
    pub query_count: nat,
    pub handle_ids: Set<Seq<char>>,
}

/// The summary of no entries.
pub open spec fn empty_summary() -> SummaryView {
    SummaryView { created_ms: 0, last_event_ms: 0, query_count: 0, handle_ids: Set::empty() }
}

/// The effect of one entry on a summary: the creation time follows the
/// earliest entry (0 counting as unset) unless a `SessionCreated` entry
/// sets it, the last event time follows the latest entry, queries are
/// counted and handle ids collected.
pub open spec fn summary_step(s: SummaryView, e: JournalEntry) -> SummaryView {
    let created = if s.created_ms == 0 || e.timestamp_ms < s.created_ms {
        e.timestamp_ms
    } else {
        s.created_ms
    };
    let last = if e.timestamp_ms > s.last_event_ms {
        e.timestamp_ms
    } else {
        s.last_event_ms
    };
    match e.event {
        JournalEvent::SessionCreated { .. } => SummaryView {
            created_ms: e.timestamp_ms,
            last_event_ms: last,
            ..s
        },
        JournalEvent::QueryRecorded { .. } => SummaryView {
            created_ms: created,
            last_event_ms: last,
            query_count: s.query_count + 1,
            ..s
        },
        JournalEvent::HandleAdded { handle_id, .. } => SummaryView {
            created_ms: created,
            last_event_ms: last,
            handle_ids: s.handle_ids.insert(handle_id@),
            ..s
        },
        JournalEvent::SessionExpired => SummaryView {
            created_ms: created,
            last_event_ms: last,
            ..s
        },
    }
}

/// The summary of `entries`, read in order.
pub open spec fn summarize(entries: Seq<JournalEntry>) -> SummaryView
    decreases entries.len(),
{
    if entries.len() == 0 {
        empty_summary()
    } else {
        summary_step(summarize(entries.drop_last()), entries.last())
    }
}

/// Whether `summary` is the summary of session `session_id` with entries
/// `entries`.
pub open spec fn summarizes(
    summary: JournalSessionSummary,
    session_id: Seq<char>,
    entries: Seq<JournalEntry>,
) -> bool {
    let v = summarize(entries);
    &&& summary.session_id@ == session_id
    &&& summary.created_ms == v.created_ms
    &&& summary.last_event_ms == v.last_event_ms
    &&& summary.query_count == v.query_count
    &&& summary.handle_count == v.handle_ids.len()
}

proof fn lemma_query_count_bound(entries: Seq<JournalEntry>)
    ensures
        summarize(entries).query_count <= entries.len(),
    decreases entries.len(),
{
    if entries.len() > 0 {
        lemma_query_count_bound(entries.drop_last());
    }
}

impl JournalSessionSummary {
    /// Summarizes session `session_id` from its entries.
    pub fn from_entries(session_id: &str, entries: &Vec<JournalEntry>) -> (summary: Self)
        ensures
            summarizes(summary, session_id@, entries@),
    {
        let mut created_ms: u64 = 0;
        let mut last_event_ms: u64 = 0;
        let mut query_count: usize = 0;
        let mut handle_ids: Vec<String> = Vec::new();
        let mut j: usize = 0;
        while j < entries.len()
            invariant
                j <= entries.len(),
                created_ms == summarize(entries@.take(j as int)).created_ms,
                last_event_ms == summarize(entries@.take(j as int)).last_event_ms,
                query_count == summarize(entries@.take(j as int)).query_count,
                strings_view(handle_ids@).no_duplicates(),
                strings_view(handle_ids@).to_set() == summarize(entries@.take(j as int)).handle_ids,
            decreases entries.len() - j,
        {
            let ghost before = summarize(entries@.take(j as int));
            let e = &entries[j];
            proof {
                assert(entries@.take(j + 1).drop_last() =~= entries@.take(j as int));
                assert(entries@.take(j + 1).last() == *e);
                lemma_query_count_bound(entries@.take(j as int));
            }
            if created_ms == 0 || e.timestamp_ms < created_ms {
                created_ms = e.timestamp_ms;
            }
            if e.timestamp_ms > last_event_ms {
                last_event_ms = e.timestamp_ms;
            }
            match &e.event {
                JournalEvent::SessionCreated { .. } => {
                    created_ms = e.timestamp_ms;
                },
                JournalEvent::QueryRecorded { .. } => {
                    query_count = query_count + 1;
                },
                JournalEvent::HandleAdded { handle_id, .. } => {
                    let seen = contains_string(&handle_ids, handle_id);
                    let ghost ids_before = strings_view(handle_ids@);
                    if !seen {
                        handle_ids.push(handle_id.clone());
                        proof {
                            assert(strings_view(handle_ids@) =~= ids_before.push(handle_id@));
                            ids_before.lemma_push_to_set_commute(handle_id@);
                        }
                    } else {
                        proof {
                            assert(ids_before.to_set().contains(handle_id@));
                            assert(ids_before.to_set().insert(handle_id@) =~= ids_before.to_set());
                        }
                    }
                },
                JournalEvent::SessionExpired => {},
            }
            j = j + 1;
        }
        proof {
            assert(entries@.take(entries.len() as int) =~= entries@);
            strings_view(handle_ids@).unique_seq_to_set();
        }
        JournalSessionSummary {
            session_id: String::from_str(session_id),
            created_ms,
            last_event_ms,
            query_count,
            handle_count: handle_ids.len(),
        }
    }
}

impl SessionJournal {
    /// One summary per listed session, in the order given; each session
    /// comes with its replayed entries.
    pub fn list_sessions(&self, sessions: &Vec<(String, Vec<JournalEntry>)>) -> (summaries: Vec<
        JournalSessionSummary,
    >)
        ensures
            summaries.len() == sessions.len(),
            forall|i: int|
                0 <= i < sessions.len() ==> summarizes(
                    #[trigger] summaries@[i],
                    sessions@[i].0@,
                    sessions@[i].1@,
                ),
    {
        let mut summaries: Vec<JournalSessionSummary> = Vec::new();
        let mut i: usize = 0;
        while i < sessions.len()
            invariant
                i <= sessions.len(),
                summaries.len() == i,
                forall|k: int|
                    0 <= k < i ==> summarizes(
                        #[trigger] summaries@[k],
                        sessions@[k].0@,
                        sessions@[k].1@,
                    ),
            decreases sessions.len() - i,
        {
            let summary = JournalSessionSummary::from_entries(
                sessions[i].0.as_str(),
                &sessions[i].1,
            );
            summaries.push(summary);
            i = i + 1;
        }
        summaries
    }
}

} // verus!
