//! Rebuilding a session's state by folding its replayed entries.

use vstd::prelude::*;

use crate::handles::Handles;
use crate::layout::SessionJournal;
use crate::model::{contains_string, strings_view, DatasetSummary, JournalEntry, JournalEvent, MqoHistoryEntry};
use crate::replay::{fragments_view, replay_result, JournalLine, CorruptLine};

verus! {

/// Reconstructed in-memory session state.
pub struct SessionState {
    pub session_id: String,
    pub created_ms: u64,
    pub ttl_secs: u64,
    pub mqo_history: Vec<MqoHistoryEntry>,
    pub touched_entities: Vec<String>,
    pub handles: Handles,
    pub expired: bool,
}

/// The contents of a `SessionState`.
#[verifier::ext_equal]
pub struct SessionView {
    pub session_id: Seq<char>,
    pub created_ms: u64,
    pub ttl_secs: u64,
    pub mqo_history: Seq<MqoHistoryEntry>,
    pub touched_entities: Seq<Seq<char>>,
    pub handles: Map<Seq<char>, DatasetSummary>,
    pub expired: bool,
}

impl View for SessionState {
    type V = SessionView;

    open spec fn view(&self) -> SessionView {
        SessionView {
            session_id: self.session_id@,
            created_ms: self.created_ms,
            ttl_secs: self.ttl_secs,
            mqo_history: self.mqo_history@,
            touched_entities: strings_view(self.touched_entities@),
            handles: self.handles.view(),
            expired: self.expired,
        }
    }
}

/// `seen`, extended by each of `names` that it does not hold yet, in order.
pub open spec fn add_new_names(seen: Seq<Seq<char>>, names: Seq<Seq<char>>) -> Seq<Seq<char>>
    decreases names.len(),
{
    if names.len() == 0 {
        seen
    } else {
        let before = add_new_names(seen, names.drop_last());
        if before.contains(names.last()) {
            before
        } else {
            before.push(names.last())
        }
    }
}

/// The state of a session before any entry is applied.
pub open spec fn empty_session(session_id: Seq<char>) -> SessionView {
    SessionView {
        session_id,
        created_ms: 0,
        ttl_secs: 0,
        mqo_history: Seq::empty(),
        touched_entities: Seq::empty(),
        handles: Map::empty(),
        expired: false,
    }
}

/// The effect of one entry on a session's state.
pub open spec fn apply_entry(s: SessionView, e: JournalEntry) -> SessionView {
    match e.event {
        JournalEvent::SessionCreated { ttl_secs } => SessionView {
            created_ms: e.timestamp_ms,
            ttl_secs,
            ..s
        },
        JournalEvent::QueryRecorded { entry } => SessionView {
            mqo_history: s.mqo_history.push(entry),
            touched_entities: add_new_names(
                s.touched_entities,
                strings_view(entry.touched_entities@),
            ),
            ..s
        },
        JournalEvent::HandleAdded { handle_id, summary_snapshot } => SessionView {
            handles: s.handles.insert(handle_id@, summary_snapshot),
            ..s
        },
        JournalEvent::SessionExpired => SessionView { expired: true, ..s },
    }
}

/// The state of a session after applying `entries` in order.
pub open spec fn rebuild(session_id: Seq<char>, entries: Seq<JournalEntry>) -> SessionView
    decreases entries.len(),
{
    if entries.len() == 0 {
        empty_session(session_id)
    } else {
        apply_entry(rebuild(session_id, entries.drop_last()), entries.last())
    }
}

/// What loading a session gives: nothing when it has no journal file,
/// the first corrupt line, or the state its replayed entries build.
pub open spec fn load_result(session_id: Seq<char>, fragments: Seq<Seq<JournalLine>>) -> Result<
    Option<SessionView>,
    CorruptLine,
> {
    if fragments.len() == 0 {
        Ok(None)
    } else {
        match replay_result(fragments) {
            Ok(entries) => Ok(Some(rebuild(session_id, entries))),
            Err(c) => Err(c),
        }
    }
}

/// Appends to `seen` each of `names` that it does not hold yet.
fn add_new_names_exec(seen: &mut Vec<String>, names: &Vec<String>)
    ensures
        strings_view(final(seen)@) == add_new_names(strings_view(old(seen)@), strings_view(names@)),
{
    let ghost start = strings_view(seen@);
    let mut j: usize = 0;
    while j < names.len()
        invariant
            j <= names.len(),
            strings_view(seen@) == add_new_names(start, strings_view(names@.take(j as int))),
        decreases names.len() - j,
    {
        proof {
            assert(strings_view(names@.take(j + 1)).drop_last() =~= strings_view(
                names@.take(j as int),
            ));
            assert(strings_view(names@.take(j + 1)).last() == names@[j as int]@);
        }
        if !contains_string(seen, &names[j]) {
            let name = names[j].clone();
            seen.push(name);
            proof {
                assert(strings_view(seen@) =~= add_new_names(
                    start,
                    strings_view(names@.take(j as int)),
                ).push(names@[j as int]@));
            }
        }
        j = j + 1;
    }
    proof {
        assert(names@.take(names.len() as int) =~= names@);
    }
}

impl SessionState {
    /// Rebuilds a session's state from its entries, applied in order.
    pub fn from_entries(session_id: &str, entries: Vec<JournalEntry>) -> (state: SessionState)
        ensures
            state@ == rebuild(session_id@, entries@),
    {
        let ghost orig = entries@;
        let mut state = SessionState {
            session_id: String::from_str(session_id),
            created_ms: 0,
            ttl_secs: 0,
            mqo_history: Vec::new(),
            touched_entities: Vec::new(),
            handles: Handles::new(),
            expired: false,
        };
        proof {
            assert(strings_view(state.touched_entities@) =~= Seq::<Seq<char>>::empty());
            assert(state@ =~= rebuild(session_id@, orig.take(0)));
        }
        for entry in it: entries.into_iter()
            invariant
                it.seq() == orig,
                state@ == rebuild(session_id@, orig.take(it.index() as int)),
        {
            let ghost i = it.index();
            let ghost before = state@;
            proof {
                assert(orig.take(i + 1).drop_last() =~= orig.take(i as int));
                assert(orig.take(i + 1).last() == entry);
            }
            let timestamp_ms = entry.timestamp_ms;
            match entry.event {
                JournalEvent::SessionCreated { ttl_secs } => {
                    state.created_ms = timestamp_ms;
                    state.ttl_secs = ttl_secs;
                },
                JournalEvent::QueryRecorded { entry: query } => {
                    add_new_names_exec(&mut state.touched_entities, &query.touched_entities);
                    state.mqo_history.push(query);
                },
                JournalEvent::HandleAdded { handle_id, summary_snapshot } => {
                    state.handles.insert(handle_id, summary_snapshot);
                },
                JournalEvent::SessionExpired => {
                    state.expired = true;
                },
            }
            proof {
                assert(state@ =~= apply_entry(before, entry));
            }
        }
        proof {
            assert(orig.take(orig.len() as int) =~= orig);
        }
        state
    }
}

impl SessionJournal {
    /// Loads a session from the lines of its fragments, given in rotation
    /// order: `None` when it has no journal file, the first corrupt line,
    /// or the state that its entries, replayed in chronological order,
    /// build.
    pub fn load_session(&self, session_id: &str, fragments: Vec<Vec<JournalLine>>) -> (result: Result<
        Option<SessionState>,
        CorruptLine,
    >)
        ensures
            match load_result(session_id@, fragments_view(fragments@)) {
                Ok(None) => result matches Ok(None),
                Ok(Some(v)) => result matches Ok(Some(s)) && s@ == v,
                Err(c) => result matches Err(e) && e == c,
            },
    {
        if fragments.len() == 0 {
            return Ok(None);
        }
        match self.replay_session(fragments) {
            Ok(entries) => Ok(Some(SessionState::from_entries(session_id, entries))),
            Err(c) => Err(c),
        }
    }
}

} // verus!
