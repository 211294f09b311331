//! Where a session's journal lives: the primary file, its rotation
//! fragments, which of them the next line goes to, and which directory
//! entries name a session.

use vstd::prelude::*;

use crate::model::{contains_string, strings_view, JournalConfig, JournalEntry};
use crate::text::{decimal, decimal_string, lemma_decimal_injective};

verus! {

broadcast use vstd::seq_lib::group_seq_properties;

/// The extension of a journal file.
pub open spec fn jsonl_suffix() -> Seq<char> {
    seq!['.', 'j', 's', 'o', 'n', 'l']
}

/// `<session_id>.jsonl`
pub open spec fn journal_name(session_id: Seq<char>) -> Seq<char> {
    session_id + jsonl_suffix()
}

/// Fragment 0 is `<session_id>.jsonl`; fragment `k > 0` is
/// `<session_id>.jsonl.<k>`.
pub open spec fn fragment_name(session_id: Seq<char>, index: nat) -> Seq<char> {
    if index == 0 {
        journal_name(session_id)
    } else {
        journal_name(session_id) + seq!['.'] + decimal(index)
    }
}

/// Whether a directory listing holds a file of the given name.
pub open spec fn listed(listing: Seq<String>, name: Seq<char>) -> bool {
    exists|j: int| 0 <= j < listing.len() && (#[trigger] listing[j])@ == name
}

/// The number of fragments that form the session's journal: fragments
/// `0 .. count` are all listed, and fragment `count` is not.
pub open spec fn is_fragment_count(session_id: Seq<char>, listing: Seq<String>, count: nat) -> bool {
    &&& forall|i: nat| i < count ==> listed(listing, #[trigger] fragment_name(session_id, i))
    &&& !listed(listing, fragment_name(session_id, count))
}

/// Index of the fragment the next line goes to, given the sizes of the
/// session's fragments in order: the primary file when there is none, the
/// last fragment while it is below the size limit, else a new fragment
/// numbered one past the last.
pub open spec fn write_target(sizes: Seq<u64>, max_size: u64) -> nat {
    if sizes.len() > 0 && sizes.last() < max_size {
        (sizes.len() - 1) as nat
    } else {
        sizes.len()
    }
}

/// The session a directory entry belongs to: the name minus `.jsonl`,
/// when it ends so and what is left is non-empty.
pub open spec fn session_of_file_name(name: Seq<char>) -> Option<Seq<char>> {
    if name.len() >= 6 && name.subrange(name.len() - 6, name.len() as int) == jsonl_suffix() {
        let stem = name.subrange(0, name.len() - 6);
        if stem.len() > 0 {
            Some(stem)
        } else {
            None
        }
    } else {
        None
    }
}

/// The sessions named by the primary journal files of a directory
/// listing, in listing order.
pub open spec fn sessions_in_listing(listing: Seq<String>) -> Seq<Seq<char>>
    decreases listing.len(),
{
    if listing.len() == 0 {
        Seq::empty()
    } else {
        let before = sessions_in_listing(listing.drop_last());
        match session_of_file_name(listing.last()@) {
            Some(id) => before.push(id),
            None => before,
        }
    }
}

/// Where the next line goes, and what it is.
pub struct AppendPlan {
    /// File name of the fragment to append to, relative to the journal directory.
    pub path: String,
    /// The line to append: the entry's JSON text and a line break.
    pub line: String,
}

/// The journal: names its files and decides what is read and written.
pub struct SessionJournal {
    config: JournalConfig,
}

/// Distinct fragment indices give distinct file names.
pub proof fn lemma_fragment_names_distinct(session_id: Seq<char>, i: nat, j: nat)
    requires
        i != j,
    ensures
        fragment_name(session_id, i) != fragment_name(session_id, j),
{
    let base = journal_name(session_id);
    if i != 0 && j != 0 {
        if fragment_name(session_id, i) == fragment_name(session_id, j) {
            let n = base.len() + 1;
            assert(decimal(i) =~= fragment_name(session_id, i).subrange(
                n as int,
                fragment_name(session_id, i).len() as int,
            ));
            assert(decimal(j) =~= fragment_name(session_id, j).subrange(
                n as int,
                fragment_name(session_id, j).len() as int,
            ));
            lemma_decimal_injective(i, j);
        }
    } else if i == 0 {
        assert(fragment_name(session_id, j).len() > base.len());
    } else {
        assert(fragment_name(session_id, i).len() > base.len());
    }
}

/// A listing that holds fragments `0 .. n` has at least `n` entries.
proof fn lemma_listed_fragments_fit(session_id: Seq<char>, listing: Seq<String>, n: nat)
    requires
        forall|i: nat| i < n ==> listed(listing, #[trigger] fragment_name(session_id, i)),
    ensures
        n <= listing.len(),
{
    let names = Seq::new(n, |i: int| fragment_name(session_id, i as nat));
    let views = listing.map_values(|s: String| s@);
    assert forall|a: int, b: int| 0 <= a < names.len() && 0 <= b < names.len() && a != b implies names[a]
        != names[b] by {
        lemma_fragment_names_distinct(session_id, a as nat, b as nat);
    }
    assert(names.no_duplicates());
    names.unique_seq_to_set();
    views.lemma_cardinality_of_set();
    assert forall|x: Seq<char>| names.to_set().contains(x) implies views.to_set().contains(x) by {
        let k = choose|k: int| 0 <= k < names.len() && names[k] == x;
        assert(listed(listing, fragment_name(session_id, k as nat)));
        let j = choose|j: int| 0 <= j < listing.len() && (#[trigger] listing[j])@ == fragment_name(
            session_id,
            k as nat,
        );
        assert(views[j] == x);
    }
    vstd::set_lib::lemma_len_subset(names.to_set(), views.to_set());
}

/// The write target is the last fragment when it has room, and otherwise
/// the fragment right after the last; it is never a full fragment.
pub proof fn lemma_write_target(sizes: Seq<u64>, max_size: u64)
    ensures
        write_target(sizes, max_size) <= sizes.len(),
        sizes.len() > 0 ==> write_target(sizes, max_size) >= sizes.len() - 1,
        write_target(sizes, max_size) < sizes.len() ==> sizes[write_target(
            sizes,
            max_size,
        ) as int] < max_size,
        write_target(sizes, max_size) == sizes.len() ==> (sizes.len() == 0 || sizes.last()
            >= max_size),
{
}

fn is_listed(listing: &Vec<String>, name: &String) -> (b: bool)
    ensures
        b == listed(listing@, name@),
{
    let found = contains_string(listing, name);
    proof {
        if found {
            let k = choose|k: int|
                0 <= k < listing@.len() && strings_view(listing@)[k] == name@;
            assert(listing@[k]@ == name@);
        }
        if listed(listing@, name@) {
            let k = choose|k: int| 0 <= k < listing@.len() && (#[trigger] listing@[k])@ == name@;
            assert(strings_view(listing@)[k] == name@);
        }
    }
    found
}

impl SessionJournal {
    /// The journal described by `config`.
    pub fn new(config: JournalConfig) -> (journal: Self)
        ensures
            journal.config() == config,
    {
        SessionJournal { config }
    }

    pub closed spec fn config(&self) -> JournalConfig {
        self.config
    }

    /// The configuration the journal was made with.
    pub fn get_config(&self) -> (config: &JournalConfig)
        ensures
            *config == self.config(),
    {
        &self.config
    }

    /// File name of the session's primary journal file, relative to the
    /// journal directory.
    pub fn journal_path(&self, session_id: &str) -> (path: String)
        ensures
            path@ == journal_name(session_id@),
    {
        let mut path = String::from_str(session_id);
        proof {
            reveal_strlit(".jsonl");
        }
        path.append(".jsonl");
        path
    }

    /// File name of rotation fragment `index` of the session, relative to
    /// the journal directory.
    pub fn fragment_path(&self, session_id: &str, index: u64) -> (path: String)
        ensures
            path@ == fragment_name(session_id@, index as nat),
    {
        let mut path = self.journal_path(session_id);
        if index > 0 {
            proof {
                reveal_strlit(".");
            }
            path.append(".");
            let digits = decimal_string(index);
            path.append(digits.as_str());
        }
        path
    }

    /// All fragments of the session in order (`<id>.jsonl`, `<id>.jsonl.1`,
    /// ...), as far as they run unbroken in `listing`, the file names in
    /// the journal directory. Empty when the primary file is missing.
    pub fn rotation_paths(&self, session_id: &str, listing: &Vec<String>) -> (paths: Vec<String>)
        ensures
            is_fragment_count(session_id@, listing@, paths.len() as nat),
            forall|i: int|
                0 <= i < paths.len() ==> (#[trigger] paths[i])@ == fragment_name(
                    session_id@,
                    i as nat,
                ),
    {
        let mut paths: Vec<String> = Vec::new();
        let mut idx: u64 = 0;
        loop
            invariant
                paths.len() == idx,
                idx <= listing.len(),
                forall|i: nat| i < idx ==> listed(listing@, #[trigger] fragment_name(session_id@, i)),
                forall|i: int|
                    0 <= i < paths.len() ==> (#[trigger] paths[i])@ == fragment_name(
                        session_id@,
                        i as nat,
                    ),
            ensures
                is_fragment_count(session_id@, listing@, paths.len() as nat),
                forall|i: int|
                    0 <= i < paths.len() ==> (#[trigger] paths[i])@ == fragment_name(
                        session_id@,
                        i as nat,
                    ),
            decreases listing.len() - idx,
        {
            let name = self.fragment_path(session_id, idx);
            if !is_listed(listing, &name) {
                break;
            }
            proof {
                lemma_listed_fragments_fit(session_id@, listing@, (idx + 1) as nat);
            }
            paths.push(name);
            idx = idx + 1;
        }
        paths
    }

    /// The fragment the next line is written to: the primary file when
    /// the session has no fragment yet, the last fragment while it is below
    /// the size limit, else a new fragment after the last. `sizes` holds the
    /// byte sizes of the session's fragments in order.
    pub fn active_write_path(&self, session_id: &str, sizes: &Vec<u64>) -> (path: String)
        ensures
            path@ == fragment_name(
                session_id@,
                write_target(sizes@, self.config().max_file_size_bytes),
            ),
    {
        let max_size = self.config.max_file_size_bytes;
        let n = sizes.len();
        let target = if n > 0 && sizes[n - 1] < max_size {
            n - 1
        } else {
            n
        };
        self.fragment_path(session_id, target as u64)
    }

    /// Plans the append of `entry`, whose JSON text is `entry_json`: the
    /// fragment that takes it and the line written there.
    pub fn append(&self, entry: &JournalEntry, sizes: &Vec<u64>, entry_json: String) -> (plan:
        AppendPlan)
        ensures
            plan.path@ == fragment_name(
                entry.session_id@,
                write_target(sizes@, self.config().max_file_size_bytes),
            ),
            plan.line@ == entry_json@.push('\n'),
    {
        let path = self.active_write_path(entry.session_id.as_str(), sizes);
        let mut line = entry_json;
        proof {
            reveal_strlit("\n");
        }
        line.append("\n");
        AppendPlan { path, line }
    }

    /// The session named by a directory entry, if it is a primary journal
    /// file (`<id>.jsonl` with a non-empty `<id>`).
    pub fn session_of_file(name: &str) -> (session: Option<String>)
        ensures
            session matches Some(s) ==> session_of_file_name(name@) == Some(s@),
            session is None ==> session_of_file_name(name@) is None,
    {
        let n = name.unicode_len();
        proof {
            reveal_strlit(".jsonl");
        }
        if n < 6 {
            return None;
        }
        let has_suffix = name.get_char(n - 6) == '.' && name.get_char(n - 5) == 'j' && name.get_char(
            n - 4,
        ) == 's' && name.get_char(n - 3) == 'o' && name.get_char(n - 2) == 'n' && name.get_char(n - 1)
            == 'l';
        if !has_suffix {
            proof {
                if name@.subrange(n - 6, n as int) == jsonl_suffix() {
                    assert(name@.subrange(n - 6, n as int)[0] == name@[n - 6]);
                    assert(name@.subrange(n - 6, n as int)[1] == name@[n - 5]);
                    assert(name@.subrange(n - 6, n as int)[2] == name@[n - 4]);
                    assert(name@.subrange(n - 6, n as int)[3] == name@[n - 3]);
                    assert(name@.subrange(n - 6, n as int)[4] == name@[n - 2]);
                    assert(name@.subrange(n - 6, n as int)[5] == name@[n - 1]);
                }
            }
            return None;
        }
        assert(name@.subrange(n - 6, n as int) =~= jsonl_suffix());
        let stem = name.substring_char(0, n - 6);
        let stem_len = n - 6;
        if stem_len == 0 {
            return None;
        }
        Some(String::from_str(stem))
    }

    /// The sessions that have a primary journal file in `listing`, in
    /// listing order.
    pub fn session_ids(&self, listing: &Vec<String>) -> (ids: Vec<String>)
        ensures
            ids@.len() == sessions_in_listing(listing@).len(),
            forall|i: int| 0 <= i < ids.len() ==> (#[trigger] ids@[i])@ == sessions_in_listing(listing@)[i],
    {
        let mut ids: Vec<String> = Vec::new();
        let mut j: usize = 0;
        while j < listing.len()
            invariant
                j <= listing.len(),
                ids@.len() == sessions_in_listing(listing@.take(j as int)).len(),
                forall|i: int| 0 <= i < ids.len() ==> (#[trigger] ids@[i])@ == sessions_in_listing(listing@.take(j as int))[i],
            decreases listing.len() - j,
        {
            let found = Self::session_of_file(listing[j].as_str());
            proof {
                assert(listing@.take(j + 1).drop_last() =~= listing@.take(j as int));
            }
            match found {
                Some(id) => {
                    ids.push(id);
                },
                None => {},
            }
            j = j + 1;
        }
        proof {
            assert(listing@.take(listing.len() as int) =~= listing@);
        }
        ids
    }
}

} // verus!
