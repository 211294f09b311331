//! Properties of the journal as a whole: what replay keeps and reports,
//! what a rebuilt session and a summary hold, and how file names and
//! sessions correspond.

use vstd::prelude::*;

use crate::layout::{
    fragment_name, is_fragment_count, journal_name, jsonl_suffix, lemma_write_target, listed,
    session_of_file_name, sessions_in_listing, write_target,
};
use crate::model::{strings_view, DatasetSummary, JournalEntry, JournalEvent, MqoHistoryEntry};
use crate::replay::{
    insert_by_timestamp, lemma_insert_position, lemma_sort_is_chronological, lemma_sort_is_stable,
    stamped,
    lemma_sort_is_permutation, replay_result, scan_fragments, sort_by_timestamp_spec,
    scan_lines, is_chronological, JournalLine,
};
use crate::session::{add_new_names, rebuild};
use crate::summary::summarize;
use crate::text::{decimal, is_blank, is_white_space};

verus! {

broadcast use vstd::seq_lib::group_seq_properties;

/// A line that is neither blank nor a valid entry.
pub open spec fn is_corrupt(line: JournalLine) -> bool {
    !is_blank(line.text@) && line.parsed is None
}

/// Whether a line carries an entry, i.e. is not blank.
pub open spec fn carries_entry(line: JournalLine) -> bool {
    !is_blank(line.text@)
}

/// The entry a line carries.
pub open spec fn line_entry(line: JournalLine) -> JournalEntry {
    line.parsed->Some_0
}

/// All lines of all fragments, one fragment after the other.
pub open spec fn all_lines(fragments: Seq<Seq<JournalLine>>) -> Seq<JournalLine>
    decreases fragments.len(),
{
    if fragments.len() == 0 {
        Seq::empty()
    } else {
        all_lines(fragments.drop_last()) + fragments.last()
    }
}

/// Reading two runs of lines one after the other is reading each in turn;
/// a corrupt line in the second is numbered after the first.
pub proof fn lemma_scan_lines_concat(a: Seq<JournalLine>, b: Seq<JournalLine>)
    ensures
        scan_lines(a + b) == match scan_lines(a) {
            Err(k) => Err(k),
            Ok(x) => match scan_lines(b) {
                Err(k) => Err(a.len() + k),
                Ok(y) => Ok(x + y),
            },
        },
    decreases b.len(),
{
    if b.len() == 0 {
        assert(a + b =~= a);
        match scan_lines(a) {
            Ok(x) => {
                assert(x + Seq::<JournalEntry>::empty() =~= x);
            },
            Err(_) => {},
        }
    } else {
        lemma_scan_lines_concat(a, b.drop_last());
        assert((a + b).drop_last() =~= a + b.drop_last());
        assert((a + b).last() == b.last());
        match scan_lines(a) {
            Ok(x) => {
                match scan_lines(b.drop_last()) {
                    Ok(y) => {
                        if let Some(e) = b.last().parsed {
                            assert(x + y.push(e) =~= (x + y).push(e));
                        }
                    },
                    Err(_) => {},
                }
            },
            Err(_) => {},
        }
    }
}

/// Rotation is invisible to replay: reading the fragments one after the
/// other reads the same entries as reading all their lines as one file,
/// and a corrupt line is the same line counted either way.
pub proof fn lemma_rotation_is_invisible(fragments: Seq<Seq<JournalLine>>)
    ensures
        match scan_fragments(fragments) {
            Ok(entries) => scan_lines(all_lines(fragments)) == Ok::<Seq<JournalEntry>, nat>(entries),
            Err((f, k)) => scan_lines(all_lines(fragments)) == Err::<Seq<JournalEntry>, nat>(
                all_lines(fragments.take(f as int)).len() + k,
            ),
        },
    decreases fragments.len(),
{
    if fragments.len() > 0 {
        let rest = fragments.drop_last();
        lemma_rotation_is_invisible(rest);
        lemma_scan_lines_concat(all_lines(rest), fragments.last());
        assert(fragments.take(fragments.len() - 1) =~= rest);
        match scan_fragments(rest) {
            Err((f, k)) => {
                lemma_scan_fragments_describes(rest);
                assert(rest.take(f as int) =~= fragments.take(f as int));
            },
            Ok(_) => {},
        }
    }
}

proof fn lemma_scan_lines_describes(lines: Seq<JournalLine>)
    ensures
        scan_lines(lines) matches Err(k) ==> {
            &&& k < lines.len()
            &&& is_corrupt(lines[k as int])
            &&& forall|j: int| 0 <= j < k ==> !is_corrupt(#[trigger] lines[j])
        },
        scan_lines(lines) matches Ok(entries) ==> {
            &&& forall|j: int| 0 <= j < lines.len() ==> !is_corrupt(#[trigger] lines[j])
            &&& entries == lines.filter(|l: JournalLine| carries_entry(l)).map_values(
                |l: JournalLine| line_entry(l),
            )
        },
    decreases lines.len(),
{
    reveal(Seq::filter);
    if lines.len() > 0 {
        let rest = lines.drop_last();
        lemma_scan_lines_describes(rest);
        match scan_lines(rest) {
            Err(k) => {
                assert forall|j: int| 0 <= j < k implies !is_corrupt(#[trigger] lines[j]) by {
                    assert(lines[j] == rest[j]);
                }
                assert(lines[k as int] == rest[k as int]);
            },
            Ok(x) => {
                assert forall|j: int| 0 <= j < rest.len() implies !is_corrupt(#[trigger] lines[j]) by {
                    assert(lines[j] == rest[j]);
                }
                let kept = rest.filter(|l: JournalLine| carries_entry(l));
                if carries_entry(lines.last()) {
                    assert(lines.filter(|l: JournalLine| carries_entry(l)) == kept.push(lines.last()));
                    if lines.last().parsed is Some {
                        assert(kept.push(lines.last()).map_values(|l: JournalLine| line_entry(l))
                            =~= kept.map_values(|l: JournalLine| line_entry(l)).push(
                            line_entry(lines.last()),
                        ));
                        assert forall|j: int| 0 <= j < lines.len() implies !is_corrupt(
                            #[trigger] lines[j],
                        ) by {
                            if j < rest.len() {
                                assert(lines[j] == rest[j]);
                            }
                        }
                    }
                } else {
                    assert(lines.filter(|l: JournalLine| carries_entry(l)) == kept);
                    assert forall|j: int| 0 <= j < lines.len() implies !is_corrupt(
                        #[trigger] lines[j],
                    ) by {
                        if j < rest.len() {
                            assert(lines[j] == rest[j]);
                        }
                    }
                }
            },
        }
    }
}

/// A corrupt line is never skipped: replay fails exactly when some line
/// is neither blank nor a valid entry, and then it names the first such
/// line, 1-based within its fragment. When replay succeeds, it returns
/// one entry for each non-blank line, none left out, in chronological
/// order.
pub proof fn lemma_replay_reports_corruption(fragments: Seq<Seq<JournalLine>>)
    requires
        fragments.len() <= usize::MAX,
        forall|f: int| 0 <= f < fragments.len() ==> #[trigger] fragments[f].len() <= usize::MAX,
    ensures
        replay_result(fragments) matches Err(c) ==> {
            &&& c.fragment < fragments.len()
            &&& 1 <= c.line_no <= fragments[c.fragment as int].len()
            &&& is_corrupt(fragments[c.fragment as int][c.line_no - 1])
            &&& forall|j: int| 0 <= j < c.line_no - 1 ==> !is_corrupt(
                #[trigger] fragments[c.fragment as int][j],
            )
            &&& forall|g: int, j: int|
                0 <= g < c.fragment && 0 <= j < fragments[g].len() ==> !is_corrupt(
                    #[trigger] fragments[g][j],
                )
        },
        replay_result(fragments) matches Ok(entries) ==> {
            &&& forall|g: int, j: int|
                0 <= g < fragments.len() && 0 <= j < fragments[g].len() ==> !is_corrupt(
                    #[trigger] fragments[g][j],
                )
            &&& entries.len() == all_lines(fragments).filter(|l: JournalLine| carries_entry(l)).len()
            &&& entries.to_multiset() == all_lines(fragments).filter(
                |l: JournalLine| carries_entry(l),
            ).map_values(|l: JournalLine| line_entry(l)).to_multiset()
            &&& is_chronological(entries)
        },
{
    lemma_scan_fragments_describes(fragments);
    lemma_rotation_is_invisible(fragments);
    lemma_scan_lines_describes(all_lines(fragments));
    match scan_fragments(fragments) {
        Ok(x) => {
            lemma_sort_is_chronological(x);
            lemma_sort_is_permutation(x);
            x.to_multiset_ensures();
            crate::replay::sort_by_timestamp_spec(x).to_multiset_ensures();
        },
        Err(_) => {},
    }
}

proof fn lemma_line_origin(fragments: Seq<Seq<JournalLine>>, k: int) -> (at: (int, int))
    requires
        0 <= k < all_lines(fragments).len(),
    ensures
        0 <= at.0 < fragments.len(),
        0 <= at.1 < fragments[at.0].len(),
        all_lines(fragments)[k] == fragments[at.0][at.1],
    decreases fragments.len(),
{
    let rest = fragments.drop_last();
    let before = all_lines(rest);
    assert(all_lines(fragments) == before + fragments.last());
    if k < before.len() {
        let at = lemma_line_origin(rest, k);
        assert(fragments[at.0] == rest[at.0]);
        at
    } else {
        let g = fragments.len() - 1;
        (g, k - before.len())
    }
}

proof fn lemma_filter_keeps_all(lines: Seq<JournalLine>)
    requires
        forall|k: int| 0 <= k < lines.len() ==> carries_entry(#[trigger] lines[k]),
    ensures
        lines.filter(|l: JournalLine| carries_entry(l)) == lines,
    decreases lines.len(),
{
    reveal(Seq::filter);
    if lines.len() > 0 {
        let rest = lines.drop_last();
        assert forall|k: int| 0 <= k < rest.len() implies carries_entry(#[trigger] rest[k]) by {
            assert(rest[k] == lines[k]);
        }
        lemma_filter_keeps_all(rest);
        assert(carries_entry(lines[lines.len() - 1]));
        assert(rest.push(lines.last()) =~= lines);
    }
}

/// Whether a line holds a character that is not Unicode white space.
pub open spec fn has_content(line: JournalLine) -> bool {
    exists|i: int| 0 <= i < line.text@.len() && !is_white_space(#[trigger] line.text@[i])
}

/// Exactly the lines with content are read: when every line that holds a
/// character other than Unicode white space decodes to an entry, replay
/// succeeds, skips the lines of white space only, and returns the entries
/// of the other lines in time order, lines of equal time in the order
/// they stand in the fragments.
pub proof fn lemma_replay_reads_lines_with_content(fragments: Seq<Seq<JournalLine>>)
    requires
        fragments.len() <= usize::MAX,
        forall|f: int| 0 <= f < fragments.len() ==> #[trigger] fragments[f].len() <= usize::MAX,
        forall|g: int, j: int|
            0 <= g < fragments.len() && 0 <= j < fragments[g].len() && has_content(
                #[trigger] fragments[g][j],
            ) ==> fragments[g][j].parsed is Some,
    ensures
        replay_result(fragments) is Ok,
        replay_result(fragments)->Ok_0 == sort_by_timestamp_spec(
            all_lines(fragments).filter(|l: JournalLine| has_content(l)).map_values(
                |l: JournalLine| l.parsed->Some_0,
            ),
        ),
        replay_result(fragments)->Ok_0.len() == all_lines(fragments).filter(
            |l: JournalLine| has_content(l),
        ).len(),
        forall|t: u64|
            #[trigger] replay_result(fragments)->Ok_0.filter(stamped(t)) == all_lines(
                fragments,
            ).filter(|l: JournalLine| has_content(l)).map_values(
                |l: JournalLine| l.parsed->Some_0,
            ).filter(stamped(t)),
{
    lemma_replay_reports_corruption(fragments);
    lemma_scan_fragments_describes(fragments);
    lemma_rotation_is_invisible(fragments);
    lemma_scan_lines_describes(all_lines(fragments));
    let lines = all_lines(fragments);
    assert forall|g: int, j: int|
        0 <= g < fragments.len() && 0 <= j < fragments[g].len() implies !is_corrupt(
        #[trigger] fragments[g][j],
    ) by {
        let l = fragments[g][j];
        if !is_blank(l.text@) {
            let i = choose|i: int| 0 <= i < l.text@.len() && !is_white_space(#[trigger] l.text@[i]);
            assert(has_content(l));
        }
    }
    match replay_result(fragments) {
        Err(c) => {
            assert(!is_corrupt(fragments[c.fragment as int][c.line_no - 1]));
        },
        Ok(_) => {},
    }
    assert((|l: JournalLine| carries_entry(l)) =~= (|l: JournalLine| has_content(l))) by {
        assert forall|l: JournalLine| carries_entry(l) == has_content(l) by {
            if !is_blank(l.text@) {
                let i = choose|i: int| 0 <= i < l.text@.len() && !is_white_space(#[trigger] l.text@[i]);
            }
        }
    }
    let kept = lines.filter(|l: JournalLine| has_content(l));
    assert(kept.map_values(|l: JournalLine| line_entry(l)) =~= kept.map_values(
        |l: JournalLine| l.parsed->Some_0,
    ));
    let entries = kept.map_values(|l: JournalLine| l.parsed->Some_0);
    assert(scan_fragments(fragments) == Ok::<Seq<JournalEntry>, (nat, nat)>(entries));
    lemma_sort_is_permutation(entries);
    assert forall|t: u64| #[trigger] replay_result(fragments)->Ok_0.filter(stamped(t)) == entries.filter(
        stamped(t),
    ) by {
        lemma_sort_is_stable(entries, t);
    }
    entries.to_multiset_ensures();
    sort_by_timestamp_spec(entries).to_multiset_ensures();
}

/// No line that holds anything but white space is skipped: when every
/// line of every fragment decodes to an entry and has a character that is
/// not Unicode white space, replay succeeds and returns exactly one entry
/// per line, those lines' entries and no others.
pub proof fn lemma_replay_keeps_every_line(fragments: Seq<Seq<JournalLine>>)
    requires
        fragments.len() <= usize::MAX,
        forall|f: int| 0 <= f < fragments.len() ==> #[trigger] fragments[f].len() <= usize::MAX,
        forall|g: int, j: int|
            0 <= g < fragments.len() && 0 <= j < fragments[g].len() ==> (
            #[trigger] fragments[g][j]).parsed is Some && exists|i: int|
                0 <= i < fragments[g][j].text@.len() && !is_white_space(
                    #[trigger] fragments[g][j].text@[i],
                ),
    ensures
        replay_result(fragments) is Ok,
        replay_result(fragments)->Ok_0.len() == all_lines(fragments).len(),
        replay_result(fragments)->Ok_0.to_multiset() == all_lines(fragments).map_values(
            |l: JournalLine| l.parsed->Some_0,
        ).to_multiset(),
{
    lemma_replay_reports_corruption(fragments);
    let lines = all_lines(fragments);
    assert forall|g: int, j: int|
        0 <= g < fragments.len() && 0 <= j < fragments[g].len() implies carries_entry(
        #[trigger] fragments[g][j],
    ) by {
        let i = choose|i: int|
            0 <= i < fragments[g][j].text@.len() && !is_white_space(
                #[trigger] fragments[g][j].text@[i],
            );
        assert(!is_blank(fragments[g][j].text@));
    }
    match replay_result(fragments) {
        Err(c) => {
            assert(!is_corrupt(fragments[c.fragment as int][c.line_no - 1]));
        },
        Ok(_) => {},
    }
    assert forall|k: int| 0 <= k < lines.len() implies carries_entry(#[trigger] lines[k]) by {
        let at = lemma_line_origin(fragments, k);
        assert(carries_entry(fragments[at.0][at.1]));
    }
    lemma_filter_keeps_all(lines);
    assert(lines.map_values(|l: JournalLine| line_entry(l)) =~= lines.map_values(
        |l: JournalLine| l.parsed->Some_0,
    ));
}

proof fn lemma_scan_fragments_describes(fragments: Seq<Seq<JournalLine>>)
    ensures
        scan_fragments(fragments) matches Err((f, k)) ==> {
            &&& f < fragments.len()
            &&& k < fragments[f as int].len()
            &&& is_corrupt(fragments[f as int][k as int])
            &&& forall|j: int| 0 <= j < k ==> !is_corrupt(#[trigger] fragments[f as int][j])
            &&& forall|g: int, j: int|
                0 <= g < f && 0 <= j < fragments[g].len() ==> !is_corrupt(
                    #[trigger] fragments[g][j],
                )
        },
        scan_fragments(fragments) is Ok ==> forall|g: int, j: int|
            0 <= g < fragments.len() && 0 <= j < fragments[g].len() ==> !is_corrupt(
                #[trigger] fragments[g][j],
            ),
    decreases fragments.len(),
{
    if fragments.len() > 0 {
        let rest = fragments.drop_last();
        lemma_scan_fragments_describes(rest);
        lemma_scan_lines_describes(fragments.last());
        match scan_fragments(rest) {
            Err((f, k)) => {
                assert(fragments[f as int] == rest[f as int]);
                assert forall|g: int, j: int|
                    0 <= g < f && 0 <= j < fragments[g].len() implies !is_corrupt(
                    #[trigger] fragments[g][j],
                ) by {
                    assert(fragments[g] == rest[g]);
                }
            },
            Ok(_) => {
                assert forall|g: int, j: int|
                    0 <= g < fragments.len() - 1 && 0 <= j < fragments[g].len() implies !is_corrupt(
                    #[trigger] fragments[g][j],
                ) by {
                    assert(fragments[g] == rest[g]);
                }
            },
        }
    }
}

/// Whether entry `e` records a query that touched entity `name`.
pub open spec fn touches(e: JournalEntry, name: Seq<char>) -> bool {
    match e.event {
        JournalEvent::QueryRecorded { entry } => strings_view(entry.touched_entities@).contains(name),
        _ => false,
    }
}

/// Whether entry `e` adds a handle with id `id`.
pub open spec fn adds_handle(e: JournalEntry, id: Seq<char>) -> bool {
    match e.event {
        JournalEvent::HandleAdded { handle_id, .. } => handle_id@ == id,
        _ => false,
    }
}

/// Whether entry `e` marks the session expired.
pub open spec fn expires(e: JournalEntry) -> bool {
    e.event is SessionExpired
}

/// The recorded queries, in order.
pub open spec fn query_entries(entries: Seq<JournalEntry>) -> Seq<MqoHistoryEntry>
    decreases entries.len(),
{
    if entries.len() == 0 {
        Seq::empty()
    } else {
        match entries.last().event {
            JournalEvent::QueryRecorded { entry } => query_entries(entries.drop_last()).push(entry),
            _ => query_entries(entries.drop_last()),
        }
    }
}

/// The snapshot of the last entry that adds handle `id`, if any.
pub open spec fn last_handle_snapshot(entries: Seq<JournalEntry>, id: Seq<char>) -> Option<
    DatasetSummary,
>
    decreases entries.len(),
{
    if entries.len() == 0 {
        None
    } else {
        match entries.last().event {
            JournalEvent::HandleAdded { handle_id, summary_snapshot } => if handle_id@ == id {
                Some(summary_snapshot)
            } else {
                last_handle_snapshot(entries.drop_last(), id)
            },
            _ => last_handle_snapshot(entries.drop_last(), id),
        }
    }
}

/// Whether entry `e` is a `SessionCreated` entry.
pub open spec fn creates(e: JournalEntry) -> bool {
    e.event is SessionCreated
}

/// Timestamp and ttl of the last `SessionCreated` entry; zeros if none.
pub open spec fn last_creation(entries: Seq<JournalEntry>) -> (u64, u64)
    decreases entries.len(),
{
    if entries.len() == 0 {
        (0, 0)
    } else {
        match entries.last().event {
            JournalEvent::SessionCreated { ttl_secs } => (entries.last().timestamp_ms, ttl_secs),
            _ => last_creation(entries.drop_last()),
        }
    }
}

proof fn lemma_add_new_names(seen: Seq<Seq<char>>, names: Seq<Seq<char>>)
    requires
        seen.no_duplicates(),
    ensures
        add_new_names(seen, names).no_duplicates(),
        forall|x: Seq<char>|
            #[trigger] add_new_names(seen, names).contains(x) <==> seen.contains(x)
                || names.contains(x),
    decreases names.len(),
{
    if names.len() > 0 {
        let rest = names.drop_last();
        lemma_add_new_names(seen, rest);
        let before = add_new_names(seen, rest);
        assert forall|x: Seq<char>| #[trigger] add_new_names(seen, names).contains(x) <==> seen.contains(
            x,
        ) || names.contains(x) by {
            if names.contains(x) && !rest.contains(x) {
                let i = choose|i: int| 0 <= i < names.len() && names[i] == x;
                if i < rest.len() {
                    assert(rest[i] == x);
                }
                assert(x == names.last());
            }
            if rest.contains(x) {
                let i = choose|i: int| 0 <= i < rest.len() && rest[i] == x;
                assert(names[i] == x);
            }
            if before.contains(names.last()) {
            } else {
                assert(before.push(names.last()).contains(x) <==> before.contains(x) || x
                    == names.last());
            }
        }
    }
}

/// Loading rebuilds the session faithfully: the query history is the
/// recorded queries in replay order; the touched entities are those of
/// all queries, each once; the handles are the ids ever added; the session
/// and each maps to the snapshot of the last entry that added it; the
/// session is expired exactly when an expiry was recorded; creation time
/// and ttl come from the last `SessionCreated` entry.
pub proof fn lemma_rebuilt_session(session_id: Seq<char>, entries: Seq<JournalEntry>)
    ensures
        rebuild(session_id, entries).session_id == session_id,
        rebuild(session_id, entries).mqo_history == query_entries(entries),
        rebuild(session_id, entries).touched_entities.no_duplicates(),
        forall|x: Seq<char>|
            #[trigger] rebuild(session_id, entries).touched_entities.contains(x) <==> exists|i: int|
                0 <= i < entries.len() && #[trigger] touches(entries[i], x),
        forall|k: Seq<char>|
            #[trigger] rebuild(session_id, entries).handles.dom().contains(k) <==> exists|i: int|
                0 <= i < entries.len() && #[trigger] adds_handle(entries[i], k),
        forall|k: Seq<char>|
            #[trigger] rebuild(session_id, entries).handles.dom().contains(k) ==> last_handle_snapshot(
                entries,
                k,
            ) == Some(rebuild(session_id, entries).handles[k]),
        rebuild(session_id, entries).expired <==> exists|i: int|
            0 <= i < entries.len() && #[trigger] expires(entries[i]),
        (rebuild(session_id, entries).created_ms, rebuild(session_id, entries).ttl_secs)
            == last_creation(entries),
    decreases entries.len(),
{
    if entries.len() > 0 {
        let rest = entries.drop_last();
        let e = entries.last();
        lemma_rebuilt_session(session_id, rest);
        let before = rebuild(session_id, rest);
        match e.event {
            JournalEvent::QueryRecorded { entry } => {
                lemma_add_new_names(before.touched_entities, strings_view(entry.touched_entities@));
            },
            _ => {},
        }
        assert forall|x: Seq<char>|
            #[trigger] rebuild(session_id, entries).touched_entities.contains(x) <==> exists|i: int|
                0 <= i < entries.len() && #[trigger] touches(entries[i], x) by {
            if exists|i: int| 0 <= i < entries.len() && #[trigger] touches(entries[i], x) {
                let i = choose|i: int| 0 <= i < entries.len() && #[trigger] touches(entries[i], x);
                if i < rest.len() {
                    assert(touches(rest[i], x));
                }
            }
            if exists|i: int| 0 <= i < rest.len() && #[trigger] touches(rest[i], x) {
                let i = choose|i: int| 0 <= i < rest.len() && #[trigger] touches(rest[i], x);
                assert(touches(entries[i], x));
            }
            assert(touches(entries[entries.len() - 1], x) == touches(e, x));
        }
        assert forall|k: Seq<char>|
            #[trigger] rebuild(session_id, entries).handles.dom().contains(k) <==> exists|i: int|
                0 <= i < entries.len() && #[trigger] adds_handle(entries[i], k) by {
            if exists|i: int| 0 <= i < entries.len() && #[trigger] adds_handle(entries[i], k) {
                let i = choose|i: int| 0 <= i < entries.len() && #[trigger] adds_handle(entries[i], k);
                if i < rest.len() {
                    assert(adds_handle(rest[i], k));
                }
            }
            if exists|i: int| 0 <= i < rest.len() && #[trigger] adds_handle(rest[i], k) {
                let i = choose|i: int| 0 <= i < rest.len() && #[trigger] adds_handle(rest[i], k);
                assert(adds_handle(entries[i], k));
            }
            assert(adds_handle(entries[entries.len() - 1], k) == adds_handle(e, k));
        }
        if exists|i: int| 0 <= i < entries.len() && #[trigger] expires(entries[i]) {
            let i = choose|i: int| 0 <= i < entries.len() && #[trigger] expires(entries[i]);
            if i < rest.len() {
                assert(expires(rest[i]));
            }
        }
        if exists|i: int| 0 <= i < rest.len() && #[trigger] expires(rest[i]) {
            let i = choose|i: int| 0 <= i < rest.len() && #[trigger] expires(rest[i]);
            assert(expires(entries[i]));
        }
        assert(expires(entries[entries.len() - 1]) == expires(e));
    }
}

/// A session's summary agrees with its loaded state: the query count is
/// the length of the query history, the handle count is the number of
/// handles, and no entry is later than the last event time, which is not
/// before the creation time.
pub proof fn lemma_summary_agrees_with_state(session_id: Seq<char>, entries: Seq<JournalEntry>)
    ensures
        summarize(entries).query_count == rebuild(session_id, entries).mqo_history.len(),
        summarize(entries).handle_ids == rebuild(session_id, entries).handles.dom(),
        summarize(entries).created_ms <= summarize(entries).last_event_ms,
        forall|i: int|
            0 <= i < entries.len() ==> #[trigger] entries[i].timestamp_ms <= summarize(
                entries,
            ).last_event_ms,
    decreases entries.len(),
{
    if entries.len() > 0 {
        let rest = entries.drop_last();
        lemma_summary_agrees_with_state(session_id, rest);
        lemma_rebuilt_session(session_id, rest);
        lemma_rebuilt_session(session_id, entries);
        assert(summarize(entries).handle_ids =~= rebuild(session_id, entries).handles.dom());
        assert forall|i: int| 0 <= i < entries.len() implies #[trigger] entries[i].timestamp_ms
            <= summarize(entries).last_event_ms by {
            if i < rest.len() {
                assert(entries[i] == rest[i]);
            }
        }
    }
}

/// The entities touched by the recorded queries, each query's list in
/// order, queries in replay order, repeats included.
pub open spec fn touched_names(entries: Seq<JournalEntry>) -> Seq<Seq<char>>
    decreases entries.len(),
{
    if entries.len() == 0 {
        Seq::empty()
    } else {
        match entries.last().event {
            JournalEvent::QueryRecorded { entry } => touched_names(entries.drop_last())
                + strings_view(entry.touched_entities@),
            _ => touched_names(entries.drop_last()),
        }
    }
}

proof fn lemma_add_new_names_removes_duplicates(prefix: Seq<Seq<char>>, names: Seq<Seq<char>>)
    ensures
        add_new_names(prefix.remove_duplicates(Seq::empty()), names) == (prefix
            + names).remove_duplicates(Seq::empty()),
    decreases names.len(),
{
    if names.len() == 0 {
        assert(prefix + names =~= prefix);
    } else {
        let rest = names.drop_last();
        let x = names.last();
        lemma_add_new_names_removes_duplicates(prefix, rest);
        let s0 = prefix + rest;
        assert(prefix + names =~= s0 + seq![x]);
        s0.lemma_remove_duplicates_append(x, Seq::empty());
        s0.lemma_remove_duplicates_properties(Seq::empty());
        assert(s0 + Seq::<Seq<char>>::empty() =~= s0);
    }
}

/// Loading lists each touched entity once, in the order first touched:
/// the touched entities are the queries' entity lists, concatenated in
/// replay order, with every repeat of an earlier name removed.
pub proof fn lemma_touched_entities_first_seen(session_id: Seq<char>, entries: Seq<JournalEntry>)
    ensures
        rebuild(session_id, entries).touched_entities == touched_names(
            entries,
        ).remove_duplicates(Seq::empty()),
    decreases entries.len(),
{
    if entries.len() == 0 {
        assert(touched_names(entries).remove_duplicates(Seq::empty()) =~= Seq::<Seq<char>>::empty());
    } else {
        let rest = entries.drop_last();
        lemma_touched_entities_first_seen(session_id, rest);
        match entries.last().event {
            JournalEvent::QueryRecorded { entry } => {
                lemma_add_new_names_removes_duplicates(
                    touched_names(rest),
                    strings_view(entry.touched_entities@),
                );
            },
            _ => {},
        }
    }
}

/// For entries in replay order with positive timestamps, the summary's
/// last event time is the latest timestamp, and its creation time is that
/// of the last `SessionCreated` entry, or of the first entry when there is
/// none (0 for no entries).
pub proof fn lemma_summary_in_replay_order(entries: Seq<JournalEntry>)
    requires
        is_chronological(entries),
        forall|i: int| 0 <= i < entries.len() ==> #[trigger] entries[i].timestamp_ms > 0,
    ensures
        entries.len() == 0 ==> summarize(entries).created_ms == 0 && summarize(
            entries,
        ).last_event_ms == 0,
        entries.len() > 0 ==> summarize(entries).last_event_ms == entries.last().timestamp_ms,
        entries.len() > 0 ==> summarize(entries).created_ms == if exists|i: int|
            0 <= i < entries.len() && #[trigger] creates(entries[i]) {
            last_creation(entries).0
        } else {
            entries[0].timestamp_ms
        },
        entries.len() > 0 ==> exists|j: int|
            0 <= j < entries.len() && summarize(entries).created_ms
                == #[trigger] entries[j].timestamp_ms,
    decreases entries.len(),
{
    if entries.len() > 0 {
        let rest = entries.drop_last();
        let e = entries.last();
        assert(is_chronological(rest)) by {
            assert forall|i: int, j: int| 0 <= i < j < rest.len() implies #[trigger] rest[i].timestamp_ms
                <= #[trigger] rest[j].timestamp_ms by {
                assert(rest[i] == entries[i] && rest[j] == entries[j]);
            }
        }
        assert forall|i: int| 0 <= i < rest.len() implies #[trigger] rest[i].timestamp_ms > 0 by {
            assert(rest[i] == entries[i]);
        }
        lemma_summary_in_replay_order(rest);
        assert(e == entries[entries.len() - 1]);
        assert(e.timestamp_ms > 0);
        if rest.len() > 0 {
            let j = choose|j: int|
                0 <= j < rest.len() && summarize(rest).created_ms == #[trigger] rest[j].timestamp_ms;
            assert(rest[j] == entries[j]);
            assert(rest.last() == entries[rest.len() - 1]);
            assert(entries[rest.len() - 1].timestamp_ms <= e.timestamp_ms);
            assert(entries[j].timestamp_ms <= e.timestamp_ms);
            assert(rest[0] == entries[0]);
            if exists|i: int| 0 <= i < entries.len() && #[trigger] creates(entries[i]) {
                let i = choose|i: int| 0 <= i < entries.len() && #[trigger] creates(entries[i]);
                if i < rest.len() {
                    assert(creates(rest[i]));
                }
            }
            if exists|i: int| 0 <= i < rest.len() && #[trigger] creates(rest[i]) {
                let i = choose|i: int| 0 <= i < rest.len() && #[trigger] creates(rest[i]);
                assert(creates(entries[i]));
            }
            assert(creates(entries[entries.len() - 1]) == creates(e));
            assert(summarize(entries).created_ms == entries[j].timestamp_ms
                || summarize(entries).created_ms == entries[entries.len() - 1].timestamp_ms);
        } else {
            assert(entries[0] == e);
            assert(creates(entries[0]) == creates(e));
            assert(summarize(entries).created_ms == entries[0].timestamp_ms);
        }
    }
}

/// The session a primary journal file names is the one it was named for,
/// whatever the id, as long as it is non-empty.
pub proof fn lemma_journal_name_round_trip(session_id: Seq<char>)
    ensures
        session_of_file_name(journal_name(session_id)) == if session_id.len() > 0 {
            Some(session_id)
        } else {
            None::<Seq<char>>
        },
{
    let name = journal_name(session_id);
    assert(name.subrange(name.len() - 6, name.len() as int) =~= jsonl_suffix());
    assert(name.subrange(0, name.len() - 6) =~= session_id);
}

/// A file name belongs to session `id` only if it is `<id>.jsonl`.
pub proof fn lemma_session_file_name_is_journal_name(name: Seq<char>)
    ensures
        session_of_file_name(name) matches Some(id) ==> name == journal_name(id),
{
    if session_of_file_name(name) is Some {
        let id = session_of_file_name(name)->Some_0;
        assert(name =~= name.subrange(0, name.len() - 6) + name.subrange(
            name.len() - 6,
            name.len() as int,
        ));
    }
}

proof fn lemma_decimal_ends_in_digit(n: nat)
    ensures
        decimal(n).len() > 0,
        decimal(n).last() != 'l',
    decreases n,
{
    if n >= 10 {
        lemma_decimal_ends_in_digit(n / 10);
    }
}

/// Rotation fragments never count as sessions of their own: only the
/// primary file of a session names it.
pub proof fn lemma_fragments_name_no_session(session_id: Seq<char>, index: nat)
    requires
        index > 0,
    ensures
        session_of_file_name(fragment_name(session_id, index)) is None,
{
    let name = fragment_name(session_id, index);
    lemma_decimal_ends_in_digit(index);
    assert(name.last() == decimal(index).last());
    if name.len() >= 6 && name.subrange(name.len() - 6, name.len() as int) == jsonl_suffix() {
        assert(name.subrange(name.len() - 6, name.len() as int)[5] == name.last());
    }
}

/// Listing sessions finds each session with a primary journal file in
/// the directory, and only those; when the directory's names are
/// distinct, each session appears once.
pub proof fn lemma_sessions_in_listing(listing: Seq<String>)
    ensures
        forall|id: Seq<char>|
            #[trigger] sessions_in_listing(listing).contains(id) <==> exists|j: int|
                0 <= j < listing.len() && session_of_file_name(#[trigger] listing[j]@) == Some(id),
        strings_view(listing).no_duplicates() ==> sessions_in_listing(listing).no_duplicates(),
    decreases listing.len(),
{
    if listing.len() > 0 {
        let rest = listing.drop_last();
        lemma_sessions_in_listing(rest);
        let before = sessions_in_listing(rest);
        assert forall|id: Seq<char>|
            #[trigger] sessions_in_listing(listing).contains(id) <==> exists|j: int|
                0 <= j < listing.len() && session_of_file_name(#[trigger] listing[j]@) == Some(
                    id,
                ) by {
            if exists|j: int|
                0 <= j < listing.len() && session_of_file_name(#[trigger] listing[j]@) == Some(id) {
                let j = choose|j: int|
                    0 <= j < listing.len() && session_of_file_name(#[trigger] listing[j]@) == Some(
                        id,
                    );
                if j < rest.len() {
                    assert(rest[j] == listing[j]);
                }
            }
            if exists|j: int|
                0 <= j < rest.len() && session_of_file_name(#[trigger] rest[j]@) == Some(id) {
                let j = choose|j: int|
                    0 <= j < rest.len() && session_of_file_name(#[trigger] rest[j]@) == Some(id);
                assert(listing[j] == rest[j]);
            }
            assert(listing[listing.len() - 1] == listing.last());
        }
        if strings_view(listing).no_duplicates() {
            assert(strings_view(rest).no_duplicates()) by {
                assert forall|a: int, b: int|
                    0 <= a < strings_view(rest).len() && 0 <= b < strings_view(rest).len() && a
                        != b implies strings_view(rest)[a] != strings_view(rest)[b] by {
                    assert(strings_view(rest)[a] == strings_view(listing)[a]);
                    assert(strings_view(rest)[b] == strings_view(listing)[b]);
                }
            }
            if let Some(id) = session_of_file_name(listing.last()@) {
                if before.contains(id) {
                    let j = choose|j: int|
                        0 <= j < rest.len() && session_of_file_name(#[trigger] rest[j]@) == Some(
                            id,
                        );
                    lemma_session_file_name_is_journal_name(rest[j]@);
                    lemma_session_file_name_is_journal_name(listing.last()@);
                    assert(strings_view(listing)[j] == strings_view(listing)[listing.len() - 1]);
                }
            }
        }
    }
}

/// Appending keeps a session's fragments unbroken: given the sizes of
/// its `count` fragments, the write goes to the last listed fragment when
/// it is below the limit, and otherwise to the first fragment that does
/// not exist yet, right after the last one (the primary file when there is
/// none).
pub proof fn lemma_write_target_extends_run(
    session_id: Seq<char>,
    listing: Seq<String>,
    count: nat,
    sizes: Seq<u64>,
    max_size: u64,
)
    requires
        is_fragment_count(session_id, listing, count),
        sizes.len() == count,
    ensures
        count > 0 && sizes[count - 1] < max_size ==> write_target(sizes, max_size) == count - 1
            && listed(listing, fragment_name(session_id, write_target(sizes, max_size))),
        !(count > 0 && sizes[count - 1] < max_size) ==> write_target(sizes, max_size) == count
            && !listed(listing, fragment_name(session_id, write_target(sizes, max_size))),
        forall|i: nat|
            i < write_target(sizes, max_size) ==> listed(
                listing,
                #[trigger] fragment_name(session_id, i),
            ),
{
    lemma_write_target(sizes, max_size);
    if count > 0 {
        assert(sizes.last() == sizes[count - 1]);
        assert(listed(listing, fragment_name(session_id, (count - 1) as nat)));
    }
}

proof fn lemma_all_lines_concat(a: Seq<Seq<JournalLine>>, b: Seq<Seq<JournalLine>>)
    ensures
        all_lines(a + b) == all_lines(a) + all_lines(b),
    decreases b.len(),
{
    if b.len() == 0 {
        assert(a + b =~= a);
        assert(all_lines(a) + all_lines(b) =~= all_lines(a));
    } else {
        lemma_all_lines_concat(a, b.drop_last());
        assert((a + b).drop_last() =~= a + b.drop_last());
        assert((a + b).last() == b.last());
        assert(all_lines(a) + all_lines(b.drop_last()) + b.last() =~= all_lines(a) + (all_lines(
            b.drop_last(),
        ) + b.last()));
    }
}

/// The fragments after appending `line` at the end of fragment `index`,
/// or as a new fragment when `index` is one past the last.
pub open spec fn with_line_appended(
    fragments: Seq<Seq<JournalLine>>,
    index: nat,
    line: JournalLine,
) -> Seq<Seq<JournalLine>> {
    if index < fragments.len() {
        fragments.update(index as int, fragments[index as int].push(line))
    } else {
        fragments.push(seq![line])
    }
}

/// A read gives back what was written: after a line holding entry `e` is
/// appended to a journal that replays cleanly, wherever the line goes,
/// replay returns the earlier entries and `e`, no more and no less, still
/// in chronological order. When the line goes to the last fragment or to a
/// new one after it, as `append` plans, the new replay is the old one with
/// `e` inserted right after every entry whose timestamp is not greater
/// than its own.
#[verifier::spinoff_prover]
pub proof fn lemma_replay_after_append(
    fragments: Seq<Seq<JournalLine>>,
    index: nat,
    line: JournalLine,
    e: JournalEntry,
)
    requires
        index <= fragments.len(),
        scan_fragments(fragments) is Ok,
        carries_entry(line),
        line.parsed == Some(e),
    ensures
        replay_result(with_line_appended(fragments, index, line)) is Ok,
        replay_result(with_line_appended(fragments, index, line))->Ok_0.to_multiset() == replay_result(
            fragments,
        )->Ok_0.to_multiset().insert(e),
        is_chronological(replay_result(with_line_appended(fragments, index, line))->Ok_0),
        index + 1 >= fragments.len() ==> replay_result(
            with_line_appended(fragments, index, line),
        )->Ok_0 == insert_by_timestamp(replay_result(fragments)->Ok_0, e),
        index + 1 >= fragments.len() ==> exists|p: int|
            0 <= p <= replay_result(fragments)->Ok_0.len() && (forall|i: int|
                0 <= i < p ==> (#[trigger] replay_result(fragments)->Ok_0[i]).timestamp_ms
                    <= e.timestamp_ms) && (forall|i: int|
                p <= i < replay_result(fragments)->Ok_0.len() ==> (#[trigger] replay_result(
                    fragments,
                )->Ok_0[i]).timestamp_ms > e.timestamp_ms) && replay_result(
                with_line_appended(fragments, index, line),
            )->Ok_0 == replay_result(fragments)->Ok_0.insert(p, e),
{
    let updated = with_line_appended(fragments, index, line);
    let single = seq![line];
    assert(scan_lines(single) == Ok::<Seq<JournalEntry>, nat>(seq![e])) by {
        assert(single.drop_last() =~= Seq::<JournalLine>::empty());
        assert(scan_lines(single.drop_last()) == Ok::<Seq<JournalEntry>, nat>(Seq::empty()));
        assert(single.last() == line);
        assert(Seq::<JournalEntry>::empty().push(e) =~= seq![e]);
    }
    lemma_rotation_is_invisible(fragments);
    let old_lines = all_lines(fragments);
    let old_entries = scan_fragments(fragments)->Ok_0;
    let k = index as int;
    let before = fragments.take(k);
    let after = if index < fragments.len() {
        fragments.skip(k + 1)
    } else {
        Seq::empty()
    };
    let middle = if index < fragments.len() {
        fragments[k]
    } else {
        Seq::<JournalLine>::empty()
    };
    if index < fragments.len() {
        assert(fragments =~= before + seq![middle] + after);
        assert(updated =~= before + seq![middle.push(line)] + after);
    } else {
        assert(fragments =~= before + Seq::<Seq<JournalLine>>::empty());
        assert(updated =~= before + seq![single]);
    }
    lemma_all_lines_concat(before + seq![middle], after);
    lemma_all_lines_concat(before, seq![middle]);
    lemma_all_lines_concat(before + seq![middle.push(line)], after);
    lemma_all_lines_concat(before, seq![middle.push(line)]);
    lemma_all_lines_concat(before, seq![single]);
    assert(all_lines(seq![middle]) =~= middle) by {
        assert(seq![middle].drop_last() =~= Seq::<Seq<JournalLine>>::empty());
    }
    assert(all_lines(seq![middle.push(line)]) =~= middle.push(line)) by {
        assert(seq![middle.push(line)].drop_last() =~= Seq::<Seq<JournalLine>>::empty());
    }
    assert(all_lines(seq![single]) =~= single) by {
        assert(seq![single].drop_last() =~= Seq::<Seq<JournalLine>>::empty());
    }
    let head = all_lines(before) + middle;
    let tail = all_lines(after);
    if index < fragments.len() {
        assert(old_lines =~= head + tail);
        assert(all_lines(updated) =~= (head + single) + tail);
    } else {
        assert(after == Seq::<Seq<JournalLine>>::empty());
        assert(tail =~= Seq::<JournalLine>::empty());
        assert(middle =~= Seq::<JournalLine>::empty());
        assert(old_lines =~= head + tail);
        assert(all_lines(updated) =~= (head + single) + tail);
    }
    lemma_scan_lines_concat(head, tail);
    lemma_scan_lines_concat(head, single);
    lemma_scan_lines_concat(head + single, tail);
    let h = scan_lines(head)->Ok_0;
    let t = scan_lines(tail)->Ok_0;
    assert(old_entries == h + t);
    let new_entries = h + seq![e] + t;
    assert(scan_lines(all_lines(updated)) == Ok::<Seq<JournalEntry>, nat>(new_entries));
    lemma_rotation_is_invisible(updated);
    lemma_scan_fragments_describes(updated);
    assert(scan_fragments(updated) == Ok::<Seq<JournalEntry>, (nat, nat)>(new_entries)) by {
        match scan_fragments(updated) {
            Ok(x) => {},
            Err((f, j)) => {
                assert(scan_lines(all_lines(updated)) is Err);
            },
        }
    }
    lemma_sort_is_permutation(new_entries);
    lemma_sort_is_permutation(old_entries);
    lemma_sort_is_chronological(new_entries);
    vstd::seq_lib::lemma_multiset_commutative(h + seq![e], t);
    vstd::seq_lib::lemma_multiset_commutative(h, seq![e]);
    vstd::seq_lib::lemma_multiset_commutative(h, t);
    assert(seq![e].to_multiset() =~= vstd::multiset::Multiset::<JournalEntry>::empty().insert(e)) by {
        broadcast use vstd::seq_lib::group_to_multiset_ensures;

        assert(seq![e] =~= Seq::<JournalEntry>::empty().push(e));
    }
    assert(new_entries.to_multiset() =~= old_entries.to_multiset().insert(e));
    if index + 1 >= fragments.len() {
        assert(after =~= Seq::<Seq<JournalLine>>::empty());
        assert(tail =~= Seq::<JournalLine>::empty());
        assert(scan_lines(tail) == Ok::<Seq<JournalEntry>, nat>(Seq::empty()));
        assert(t =~= Seq::<JournalEntry>::empty());
        assert(new_entries =~= old_entries.push(e));
        assert(new_entries.drop_last() =~= old_entries);
        lemma_sort_is_chronological(old_entries);
        let p = lemma_insert_position(sort_by_timestamp_spec(old_entries), e);
    }
}

} // verus!
