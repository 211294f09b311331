//! Replaying a session: the lines of its fragments become one list of
//! entries in chronological order, and a corrupt line is reported, never
//! skipped.

use vstd::prelude::*;

use crate::layout::SessionJournal;
use crate::model::JournalEntry;
use crate::text::{decimal, decimal_string, is_blank, is_blank_line};

verus! {

/// One line of a journal fragment, with the entry it decodes to, if any.
pub struct JournalLine {
    /// The text of the line, without its line break.
    pub text: String,
    /// The entry the text decodes to; `None` when it is not a valid entry.
    pub parsed: Option<JournalEntry>,
}

/// The first corrupt line met while replaying a session.
#[derive(Debug, Clone, Copy, PartialEq, Eq, Structural)]
pub struct CorruptLine {
    /// Index of the fragment in rotation order (0 is the primary file).
    pub fragment: usize,
    /// 1-based number of the line within that fragment.
    pub line_no: usize,
}

/// The lines of each fragment.
pub open spec fn fragments_view(fragments: Seq<Vec<JournalLine>>) -> Seq<Seq<JournalLine>> {
    fragments.map_values(|f: Vec<JournalLine>| f@)
}

/// Reads one fragment: blank lines are skipped, every other line must
/// decode to an entry. `Err(k)` names the first line (0-based) that does
/// not.
pub open spec fn scan_lines(lines: Seq<JournalLine>) -> Result<Seq<JournalEntry>, nat>
    decreases lines.len(),
{
    if lines.len() == 0 {
        Ok(Seq::empty())
    } else {
        match scan_lines(lines.drop_last()) {
            Err(k) => Err(k),
            Ok(entries) => {
                let line = lines.last();
                if is_blank(line.text@) {
                    Ok(entries)
                } else {
                    match line.parsed {
                        Some(e) => Ok(entries.push(e)),
                        None => Err((lines.len() - 1) as nat),
                    }
                }
            },
        }
    }
}

/// Reads the fragments in rotation order. `Err((f, k))` names the first
/// corrupt line: fragment `f`, line `k` (0-based).
pub open spec fn scan_fragments(fragments: Seq<Seq<JournalLine>>) -> Result<
    Seq<JournalEntry>,
    (nat, nat),
>
    decreases fragments.len(),
{
    if fragments.len() == 0 {
        Ok(Seq::empty())
    } else {
        match scan_fragments(fragments.drop_last()) {
            Err(e) => Err(e),
            Ok(entries) => match scan_lines(fragments.last()) {
                Err(k) => Err(((fragments.len() - 1) as nat, k)),
                Ok(more) => Ok(entries + more),
            },
        }
    }
}

/// `e` inserted into `sorted` after every entry that is not later than it.
pub open spec fn insert_by_timestamp(sorted: Seq<JournalEntry>, e: JournalEntry) -> Seq<JournalEntry>
    decreases sorted.len(),
{
    if sorted.len() == 0 {
        seq![e]
    } else if sorted.last().timestamp_ms <= e.timestamp_ms {
        sorted.push(e)
    } else {
        insert_by_timestamp(sorted.drop_last(), e).push(sorted.last())
    }
}

/// The entries ordered by timestamp; entries with equal timestamps keep
/// their order.
pub open spec fn sort_by_timestamp_spec(entries: Seq<JournalEntry>) -> Seq<JournalEntry>
    decreases entries.len(),
{
    if entries.len() == 0 {
        Seq::empty()
    } else {
        insert_by_timestamp(sort_by_timestamp_spec(entries.drop_last()), entries.last())
    }
}

/// Timestamps never decrease along the sequence.
pub open spec fn is_chronological(entries: Seq<JournalEntry>) -> bool {
    forall|i: int, j: int|
        0 <= i < j < entries.len() ==> #[trigger] entries[i].timestamp_ms
            <= #[trigger] entries[j].timestamp_ms
}

/// Whether an entry carries timestamp `t`.
pub open spec fn stamped(t: u64) -> spec_fn(JournalEntry) -> bool {
    |e: JournalEntry| e.timestamp_ms == t
}

/// What replaying a session gives: the entries of its fragments in
/// chronological order, or the first corrupt line.
pub open spec fn replay_result(fragments: Seq<Seq<JournalLine>>) -> Result<
    Seq<JournalEntry>,
    CorruptLine,
> {
    match scan_fragments(fragments) {
        Ok(entries) => Ok(sort_by_timestamp_spec(entries)),
        Err((f, k)) => Err(CorruptLine { fragment: f as usize, line_no: (k + 1) as usize }),
    }
}

proof fn lemma_insert_at(sorted: Seq<JournalEntry>, e: JournalEntry, p: int)
    requires
        0 <= p <= sorted.len(),
        forall|i: int| p <= i < sorted.len() ==> #[trigger] sorted[i].timestamp_ms > e.timestamp_ms,
        p > 0 ==> sorted[p - 1].timestamp_ms <= e.timestamp_ms,
    ensures
        insert_by_timestamp(sorted, e) == sorted.insert(p, e),
    decreases sorted.len(),
{
    if sorted.len() == 0 {
        assert(sorted.insert(p, e) =~= seq![e]);
    } else if p == sorted.len() {
        assert(sorted.insert(p, e) =~= sorted.push(e));
    } else {
        let rest = sorted.drop_last();
        assert(sorted.last().timestamp_ms > e.timestamp_ms);
        lemma_insert_at(rest, e, p);
        assert(rest.insert(p, e).push(sorted.last()) =~= sorted.insert(p, e));
    }
}

proof fn lemma_insert_by_timestamp(sorted: Seq<JournalEntry>, e: JournalEntry)
    requires
        is_chronological(sorted),
    ensures
        is_chronological(insert_by_timestamp(sorted, e)),
        insert_by_timestamp(sorted, e).to_multiset() == sorted.to_multiset().insert(e),
        forall|i: int|
            0 <= i < insert_by_timestamp(sorted, e).len() ==> #[trigger] insert_by_timestamp(
                sorted,
                e,
            )[i] == e || sorted.contains(insert_by_timestamp(sorted, e)[i]),
        forall|t: u64|
            #[trigger] insert_by_timestamp(sorted, e).filter(stamped(t)) == if e.timestamp_ms == t {
                sorted.filter(stamped(t)).push(e)
            } else {
                sorted.filter(stamped(t))
            },
    decreases sorted.len(),
{
    reveal(Seq::filter);
    broadcast use vstd::seq_lib::group_to_multiset_ensures;

    let r = insert_by_timestamp(sorted, e);
    if sorted.len() == 0 {
        assert(r.drop_last() =~= sorted);
        assert forall|t: u64| #[trigger] r.filter(stamped(t)) == if e.timestamp_ms == t {
            sorted.filter(stamped(t)).push(e)
        } else {
            sorted.filter(stamped(t))
        } by {
            assert(r.drop_last().filter(stamped(t)) == sorted.filter(stamped(t)));
        }
    } else if sorted.last().timestamp_ms <= e.timestamp_ms {
        assert(r.drop_last() =~= sorted);
        assert forall|i: int, j: int| 0 <= i < j < r.len() implies #[trigger] r[i].timestamp_ms
            <= #[trigger] r[j].timestamp_ms by {
            if j == r.len() - 1 && i < sorted.len() - 1 {
                assert(sorted[i].timestamp_ms <= sorted[sorted.len() - 1].timestamp_ms);
            }
        }
        assert forall|i: int| 0 <= i < r.len() implies #[trigger] r[i] == e || sorted.contains(
            r[i],
        ) by {
            if i < sorted.len() {
                assert(r[i] == sorted[i]);
            }
        }
    } else {
        let rest = sorted.drop_last();
        let last = sorted.last();
        let inner = insert_by_timestamp(rest, e);
        assert(is_chronological(rest));
        lemma_insert_by_timestamp(rest, e);
        assert(r == inner.push(last));
        assert(r.drop_last() =~= inner);
        assert forall|i: int| 0 <= i < inner.len() implies #[trigger] inner[i].timestamp_ms
            <= last.timestamp_ms by {
            if inner[i] != e {
                assert(rest.contains(inner[i]));
                let j = choose|j: int| 0 <= j < rest.len() && rest[j] == inner[i];
                assert(sorted[j] == rest[j]);
            }
        }
        assert forall|i: int, j: int| 0 <= i < j < r.len() implies #[trigger] r[i].timestamp_ms
            <= #[trigger] r[j].timestamp_ms by {
            if j == r.len() - 1 {
                assert(r[i] == inner[i]);
            } else {
                assert(r[i] == inner[i]);
                assert(r[j] == inner[j]);
            }
        }
        assert forall|i: int| 0 <= i < r.len() implies #[trigger] r[i] == e || sorted.contains(
            r[i],
        ) by {
            if i < inner.len() {
                assert(r[i] == inner[i]);
                if inner[i] != e {
                    let j = choose|j: int| 0 <= j < rest.len() && rest[j] == inner[i];
                    assert(sorted[j] == rest[j]);
                }
            } else {
                assert(sorted[sorted.len() - 1] == last);
            }
        }
        assert(sorted =~= rest.push(last));
        assert(sorted.to_multiset() == rest.to_multiset().insert(last));
        assert(r.to_multiset() =~= sorted.to_multiset().insert(e));
        assert forall|t: u64| #[trigger] r.filter(stamped(t)) == if e.timestamp_ms == t {
            sorted.filter(stamped(t)).push(e)
        } else {
            sorted.filter(stamped(t))
        } by {
            assert(sorted.drop_last() == rest);
            assert(inner.filter(stamped(t)) == if e.timestamp_ms == t {
                rest.filter(stamped(t)).push(e)
            } else {
                rest.filter(stamped(t))
            });
        }
    }
}

/// Inserting into a chronological sequence puts the entry right after
/// every entry that is not later than it; returns that position.
pub proof fn lemma_insert_position(sorted: Seq<JournalEntry>, e: JournalEntry) -> (p: int)
    requires
        is_chronological(sorted),
    ensures
        0 <= p <= sorted.len(),
        forall|i: int| 0 <= i < p ==> (#[trigger] sorted[i]).timestamp_ms <= e.timestamp_ms,
        forall|i: int| p <= i < sorted.len() ==> (#[trigger] sorted[i]).timestamp_ms > e.timestamp_ms,
        insert_by_timestamp(sorted, e) == sorted.insert(p, e),
    decreases sorted.len(),
{
    if sorted.len() == 0 {
        assert(sorted.insert(0, e) =~= seq![e]);
        0
    } else if sorted.last().timestamp_ms <= e.timestamp_ms {
        assert(sorted.insert(sorted.len() as int, e) =~= sorted.push(e));
        assert forall|i: int| 0 <= i < sorted.len() implies (#[trigger] sorted[i]).timestamp_ms
            <= e.timestamp_ms by {
            if i < sorted.len() - 1 {
                assert(sorted[i].timestamp_ms <= sorted[sorted.len() - 1].timestamp_ms);
            }
        }
        sorted.len() as int
    } else {
        let rest = sorted.drop_last();
        assert(is_chronological(rest)) by {
            assert forall|i: int, j: int| 0 <= i < j < rest.len() implies #[trigger] rest[i].timestamp_ms
                <= #[trigger] rest[j].timestamp_ms by {
                assert(rest[i] == sorted[i] && rest[j] == sorted[j]);
            }
        }
        let p = lemma_insert_position(rest, e);
        assert forall|i: int| 0 <= i < p implies (#[trigger] sorted[i]).timestamp_ms
            <= e.timestamp_ms by {
            assert(sorted[i] == rest[i]);
        }
        assert forall|i: int| p <= i < sorted.len() implies (#[trigger] sorted[i]).timestamp_ms
            > e.timestamp_ms by {
            if i < rest.len() {
                assert(sorted[i] == rest[i]);
            }
        }
        assert(rest.insert(p, e).push(sorted.last()) =~= sorted.insert(p, e));
        p
    }
}

/// Replay order is chronological: the sorted entries' timestamps never
/// decrease.
pub proof fn lemma_sort_is_chronological(entries: Seq<JournalEntry>)
    ensures
        is_chronological(sort_by_timestamp_spec(entries)),
    decreases entries.len(),
{
    if entries.len() > 0 {
        lemma_sort_is_chronological(entries.drop_last());
        lemma_insert_by_timestamp(sort_by_timestamp_spec(entries.drop_last()), entries.last());
    }
}

/// Replay neither loses nor invents entries: the sorted entries are a
/// rearrangement of the entries read.
pub proof fn lemma_sort_is_permutation(entries: Seq<JournalEntry>)
    ensures
        sort_by_timestamp_spec(entries).to_multiset() == entries.to_multiset(),
    decreases entries.len(),
{
    broadcast use vstd::seq_lib::group_to_multiset_ensures;

    if entries.len() > 0 {
        let rest = entries.drop_last();
        lemma_sort_is_permutation(rest);
        lemma_sort_is_chronological(rest);
        lemma_insert_by_timestamp(sort_by_timestamp_spec(rest), entries.last());
        assert(entries =~= rest.push(entries.last()));
    }
}

/// Replay is stable: the entries that share a timestamp come out in the
/// order in which they were read.
pub proof fn lemma_sort_is_stable(entries: Seq<JournalEntry>, t: u64)
    ensures
        sort_by_timestamp_spec(entries).filter(stamped(t)) == entries.filter(stamped(t)),
    decreases entries.len(),
{
    reveal(Seq::filter);
    if entries.len() > 0 {
        let rest = entries.drop_last();
        lemma_sort_is_stable(rest, t);
        lemma_sort_is_chronological(rest);
        lemma_insert_by_timestamp(sort_by_timestamp_spec(rest), entries.last());
    }
}

/// Orders entries by timestamp, keeping the order of entries with equal
/// timestamps.
pub fn sort_by_timestamp(entries: Vec<JournalEntry>) -> (sorted: Vec<JournalEntry>)
    ensures
        sorted@ == sort_by_timestamp_spec(entries@),
{
    let ghost orig = entries@;
    let mut out: Vec<JournalEntry> = Vec::new();
    for e in it: entries.into_iter()
        invariant
            it.seq() == orig,
            out@ == sort_by_timestamp_spec(orig.take(it.index() as int)),
    {
        let ghost i = it.index();
        let mut p = out.len();
        while p > 0 && out[p - 1].timestamp_ms > e.timestamp_ms
            invariant
                p <= out.len(),
                forall|k: int| p <= k < out.len() ==> #[trigger] out@[k].timestamp_ms > e.timestamp_ms,
            decreases p,
        {
            p = p - 1;
        }
        proof {
            lemma_insert_at(out@, e, p as int);
            assert(orig.take(i + 1).drop_last() =~= orig.take(i as int));
            assert(orig.take(i + 1).last() == e);
        }
        out.insert(p, e);
    }
    proof {
        assert(orig.take(orig.len() as int) =~= orig);
    }
    out
}

/// Reads one fragment, appending its entries to `out`; returns the
/// 0-based index of its first corrupt line, if any.
fn collect_fragment(lines: Vec<JournalLine>, out: &mut Vec<JournalEntry>) -> (corrupt: Option<
    usize,
>)
    ensures
        match scan_lines(lines@) {
            Ok(entries) => corrupt is None && final(out)@ == old(out)@ + entries,
            Err(k) => corrupt == Some(k as usize),
        },
{
    let ghost orig = lines@;
    let ghost start = out@;
    let count = lines.len();
    let mut index: usize = 0;
    for line in it: lines.into_iter()
        invariant
            count == orig.len(),
            it.seq() == orig,
            index == it.index(),
            index <= orig.len(),
            scan_lines(orig.take(index as int)) is Ok,
            out@ == start + scan_lines(orig.take(index as int))->Ok_0,
    {
        proof {
            assert(index < orig.len());
            assert(orig.take(index + 1).drop_last() =~= orig.take(index as int));
            assert(orig.take(index + 1).last() == line);
        }
        if !is_blank_line(line.text.as_str()) {
            match line.parsed {
                Some(entry) => {
                    out.push(entry);
                    proof {
                        assert(out@ =~= start + scan_lines(orig.take(index + 1))->Ok_0);
                    }
                },
                None => {
                    proof {
                        lemma_scan_lines_err_extends(orig, index as nat);
                    }
                    return Some(index);
                },
            }
        }
        index = index + 1;
    }
    proof {
        assert(orig.take(orig.len() as int) =~= orig);
    }
    None
}

proof fn lemma_scan_lines_err_bound(lines: Seq<JournalLine>)
    ensures
        scan_lines(lines) matches Err(k) ==> k < lines.len(),
    decreases lines.len(),
{
    if lines.len() > 0 {
        lemma_scan_lines_err_bound(lines.drop_last());
    }
}

proof fn lemma_scan_lines_err_extends(lines: Seq<JournalLine>, k: nat)
    requires
        k < lines.len(),
        scan_lines(lines.take(k + 1 as int)) == Err::<Seq<JournalEntry>, nat>(k),
    ensures
        scan_lines(lines) == Err::<Seq<JournalEntry>, nat>(k),
    decreases lines.len(),
{
    if lines.len() > k + 1 {
        assert(lines.drop_last().take(k + 1 as int) =~= lines.take(k + 1 as int));
        lemma_scan_lines_err_extends(lines.drop_last(), k);
    } else {
        assert(lines.take(k + 1 as int) =~= lines);
    }
}

proof fn lemma_scan_fragments_err_extends(fragments: Seq<Seq<JournalLine>>, f: nat, k: nat)
    requires
        f < fragments.len(),
        scan_fragments(fragments.take(f + 1 as int)) == Err::<Seq<JournalEntry>, (nat, nat)>((f, k)),
    ensures
        scan_fragments(fragments) == Err::<Seq<JournalEntry>, (nat, nat)>((f, k)),
    decreases fragments.len(),
{
    if fragments.len() > f + 1 {
        assert(fragments.drop_last().take(f + 1 as int) =~= fragments.take(f + 1 as int));
        lemma_scan_fragments_err_extends(fragments.drop_last(), f, k);
    } else {
        assert(fragments.take(f + 1 as int) =~= fragments);
    }
}

/// Reads all fragments in rotation order, stopping at the first corrupt
/// line.
fn collect_fragments(fragments: Vec<Vec<JournalLine>>) -> (result: Result<
    Vec<JournalEntry>,
    CorruptLine,
>)
    ensures
        match scan_fragments(fragments_view(fragments@)) {
            Ok(entries) => result matches Ok(v) && v@ == entries,
            Err((f, k)) => result == Err::<Vec<JournalEntry>, CorruptLine>(
                CorruptLine { fragment: f as usize, line_no: (k + 1) as usize },
            ),
        },
{
    let ghost orig = fragments@;
    let ghost view = fragments_view(orig);
    let mut out: Vec<JournalEntry> = Vec::new();
    let count = fragments.len();
    let mut index: usize = 0;
    for lines in it: fragments.into_iter()
        invariant
            count == orig.len(),
            it.seq() == orig,
            view == fragments_view(orig),
            index == it.index(),
            index <= orig.len(),
            scan_fragments(view.take(index as int)) is Ok,
            out@ == scan_fragments(view.take(index as int))->Ok_0,
    {
        let ghost this = lines@;
        let line_count = lines.len();
        proof {
            assert(index < orig.len());
        }
        proof {
            assert(view.take(index + 1).drop_last() =~= view.take(index as int));
            assert(view.take(index + 1).last() == this);
        }
        match collect_fragment(lines, &mut out) {
            Some(k) => {
                proof {
                    lemma_scan_lines_err_bound(this);
                    assert(k < line_count);
                    let prev = view.take(index as int);
                    let upto = view.take(index + 1);
                    assert(upto.drop_last() == prev);
                    assert(upto.last() == this);
                    assert(upto.len() == index + 1);
                    assert(scan_fragments(upto) == Err::<Seq<JournalEntry>, (nat, nat)>(
                        (index as nat, k as nat),
                    ));
                    lemma_scan_fragments_err_extends(view, index as nat, k as nat);
                }
                return Err(CorruptLine { fragment: index, line_no: k + 1 });
            },
            None => {},
        }
        index = index + 1;
    }
    proof {
        assert(view.take(view.len() as int) =~= view);
    }
    Ok(out)
}

impl CorruptLine {
    /// The error text for this line, given the path of its fragment.
    pub fn message(&self, fragment_path: &str) -> (text: String)
        ensures
            text@ == "corrupt JSONL line "@ + decimal(self.line_no as nat) + " in "@ + fragment_path@,
    {
        let mut text = String::from_str("corrupt JSONL line ");
        let digits = decimal_string(self.line_no as u64);
        text.append(digits.as_str());
        text.append(" in ");
        text.append(fragment_path);
        text
    }
}

impl SessionJournal {
    /// Replays a session from the lines of its fragments, given in rotation
    /// order: all entries in chronological order, or the first corrupt
    /// line.
    pub fn replay_session(&self, fragments: Vec<Vec<JournalLine>>) -> (result: Result<
        Vec<JournalEntry>,
        CorruptLine,
    >)
        ensures
            match replay_result(fragments_view(fragments@)) {
                Ok(entries) => result matches Ok(v) && v@ == entries,
                Err(c) => result == Err::<Vec<JournalEntry>, CorruptLine>(c),
            },
    {
        match collect_fragments(fragments) {
            Ok(entries) => Ok(sort_by_timestamp(entries)),
            Err(c) => Err(c),
        }
    }
}

} // verus!
