//! The dataset handles of a session: at most one summary per handle id,
//! the latest one added.

use vstd::prelude::*;

use crate::model::DatasetSummary;

verus! {

/// The map that a list of (id, summary) pairs stands for; a later pair
/// overrides an earlier one with the same id.
pub open spec fn pairs_map(pairs: Seq<(String, DatasetSummary)>) -> Map<Seq<char>, DatasetSummary>
    decreases pairs.len(),
{
    if pairs.len() == 0 {
        Map::empty()
    } else {
        pairs_map(pairs.drop_last()).insert(pairs.last().0@, pairs.last().1)
    }
}

/// No id occurs twice.
pub open spec fn distinct_ids(pairs: Seq<(String, DatasetSummary)>) -> bool {
    forall|i: int, j: int|
        0 <= i < pairs.len() && 0 <= j < pairs.len() && i != j ==> (#[trigger] pairs[i]).0@
            != (#[trigger] pairs[j]).0@
}

/// The handles of a session, keyed by handle id.
pub struct Handles {
    entries: Vec<(String, DatasetSummary)>,
}

proof fn lemma_pairs_map_lookup(pairs: Seq<(String, DatasetSummary)>)
    requires
        distinct_ids(pairs),
    ensures
        forall|k: Seq<char>|
            #[trigger] pairs_map(pairs).dom().contains(k) <==> exists|i: int|
                0 <= i < pairs.len() && (#[trigger] pairs[i]).0@ == k,
        forall|i: int|
            0 <= i < pairs.len() ==> pairs_map(pairs)[(#[trigger] pairs[i]).0@] == pairs[i].1,
    decreases pairs.len(),
{
    if pairs.len() > 0 {
        let rest = pairs.drop_last();
        assert(distinct_ids(rest)) by {
            assert forall|i: int, j: int|
                0 <= i < rest.len() && 0 <= j < rest.len() && i != j implies (#[trigger] rest[i]).0@
                != (#[trigger] rest[j]).0@ by {
                assert(rest[i] == pairs[i]);
                assert(rest[j] == pairs[j]);
            }
        }
        lemma_pairs_map_lookup(rest);
        assert forall|k: Seq<char>| #[trigger] pairs_map(pairs).dom().contains(k) implies exists|i: int|
            0 <= i < pairs.len() && (#[trigger] pairs[i]).0@ == k by {
            if k != pairs.last().0@ {
                assert(pairs_map(rest).dom().contains(k));
                let i = choose|i: int| 0 <= i < rest.len() && (#[trigger] rest[i]).0@ == k;
                assert(pairs[i] == rest[i]);
            } else {
                assert(pairs[pairs.len() - 1].0@ == k);
            }
        }
        assert forall|k: Seq<char>|
            (exists|i: int| 0 <= i < pairs.len() && (#[trigger] pairs[i]).0@ == k) implies #[trigger] pairs_map(
            pairs,
        ).dom().contains(k) by {
            let i = choose|i: int| 0 <= i < pairs.len() && (#[trigger] pairs[i]).0@ == k;
            if i < rest.len() {
                assert(rest[i] == pairs[i]);
            }
        }
        assert forall|i: int| 0 <= i < pairs.len() implies pairs_map(pairs)[(
        #[trigger] pairs[i]).0@] == pairs[i].1 by {
            if i < rest.len() {
                assert(rest[i] == pairs[i]);
                assert(pairs[i].0@ != pairs[pairs.len() - 1].0@);
            }
        }
    }
}

proof fn lemma_pairs_map_update(
    pairs: Seq<(String, DatasetSummary)>,
    i: int,
    id: String,
    summary: DatasetSummary,
)
    requires
        distinct_ids(pairs),
        0 <= i < pairs.len(),
        pairs[i].0@ == id@,
    ensures
        pairs_map(pairs.update(i, (id, summary))) == pairs_map(pairs).insert(id@, summary),
        distinct_ids(pairs.update(i, (id, summary))),
    decreases pairs.len(),
{
    let updated = pairs.update(i, (id, summary));
    let rest = pairs.drop_last();
    assert(distinct_ids(updated)) by {
        assert forall|a: int, b: int|
            0 <= a < updated.len() && 0 <= b < updated.len() && a != b implies (
            #[trigger] updated[a]).0@ != (#[trigger] updated[b]).0@ by {
            assert(pairs[a].0@ != pairs[b].0@);
        }
    }
    if i == pairs.len() - 1 {
        assert(updated.drop_last() =~= rest);
        assert(pairs_map(updated) =~= pairs_map(pairs).insert(id@, summary));
    } else {
        assert(distinct_ids(rest)) by {
            assert forall|a: int, b: int|
                0 <= a < rest.len() && 0 <= b < rest.len() && a != b implies (
                #[trigger] rest[a]).0@ != (#[trigger] rest[b]).0@ by {
                assert(rest[a] == pairs[a]);
                assert(rest[b] == pairs[b]);
            }
        }
        assert(rest[i] == pairs[i]);
        lemma_pairs_map_update(rest, i, id, summary);
        assert(updated.drop_last() =~= rest.update(i, (id, summary)));
        assert(updated.last() == pairs.last());
        assert(pairs.last().0@ != id@) by {
            assert(pairs[pairs.len() - 1].0@ != pairs[i].0@);
        }
        assert(pairs_map(updated) =~= pairs_map(pairs).insert(id@, summary));
    }
}

impl Handles {
    #[verifier::type_invariant]
    spec fn ids_are_distinct(self) -> bool {
        distinct_ids(self.entries@)
    }

    /// The handles as a map from handle id to summary.
    pub closed spec fn view(&self) -> Map<Seq<char>, DatasetSummary> {
        pairs_map(self.entries@)
    }

    /// No handles.
    pub fn new() -> (handles: Self)
        ensures
            handles.view() == Map::<Seq<char>, DatasetSummary>::empty(),
    {
        Handles { entries: Vec::new() }
    }

    /// Number of handles.
    pub fn len(&self) -> (n: usize)
        ensures
            n == self.view().dom().len(),
    {
        proof {
            use_type_invariant(self);
            self.lemma_dom_len();
        }
        self.entries.len()
    }

    proof fn lemma_dom_len(&self)
        requires
            distinct_ids(self.entries@),
        ensures
            self.view().dom().len() == self.entries@.len(),
            self.view().dom().finite(),
    {
        let ids = self.entries@.map_values(|p: (String, DatasetSummary)| p.0@);
        lemma_pairs_map_lookup(self.entries@);
        assert(ids.no_duplicates()) by {
            assert forall|a: int, b: int| 0 <= a < ids.len() && 0 <= b < ids.len() && a != b implies ids[a]
                != ids[b] by {
                assert(self.entries@[a].0@ != self.entries@[b].0@);
            }
        }
        ids.unique_seq_to_set();
        assert(self.view().dom() =~= ids.to_set()) by {
            assert forall|k: Seq<char>| self.view().dom().contains(k) implies ids.to_set().contains(k) by {
                let i = choose|i: int| 0 <= i < self.entries@.len() && (#[trigger] self.entries@[i]).0@ == k;
                assert(ids[i] == k);
            }
            assert forall|k: Seq<char>| ids.to_set().contains(k) implies self.view().dom().contains(k) by {
                let i = choose|i: int| 0 <= i < ids.len() && ids[i] == k;
                assert(self.entries@[i].0@ == k);
            }
        }
        vstd::seq_lib::seq_to_set_is_finite(ids);
    }

    fn find(&self, id: &String) -> (index: Option<usize>)
        ensures
            index matches Some(i) ==> i < self.entries@.len() && self.entries@[i as int].0@ == id@,
            index is None ==> forall|i: int|
                0 <= i < self.entries@.len() ==> (#[trigger] self.entries@[i]).0@ != id@,
    {
        let mut j: usize = 0;
        while j < self.entries.len()
            invariant
                j <= self.entries@.len(),
                forall|i: int| 0 <= i < j ==> (#[trigger] self.entries@[i]).0@ != id@,
            decreases self.entries.len() - j,
        {
            if self.entries[j].0 == *id {
                return Some(j);
            }
            j = j + 1;
        }
        None
    }

    /// Whether a handle with this id exists.
    pub fn contains_key(&self, id: &str) -> (b: bool)
        ensures
            b == self.view().dom().contains(id@),
    {
        proof {
            use_type_invariant(self);
            lemma_pairs_map_lookup(self.entries@);
        }
        let key = String::from_str(id);
        self.find(&key).is_some()
    }

    /// The summary of the handle with this id.
    pub fn get(&self, id: &str) -> (summary: Option<&DatasetSummary>)
        ensures
            summary is Some == self.view().dom().contains(id@),
            summary matches Some(s) ==> *s == self.view()[id@],
    {
        proof {
            use_type_invariant(self);
            lemma_pairs_map_lookup(self.entries@);
        }
        let key = String::from_str(id);
        match self.find(&key) {
            Some(i) => Some(&self.entries[i].1),
            None => None,
        }
    }

    /// The handles as (id, summary) pairs, each id once, in the order the
    /// ids were first added.
    pub fn into_pairs(self) -> (pairs: Vec<(String, DatasetSummary)>)
        ensures
            pairs_map(pairs@) == self.view(),
            distinct_ids(pairs@),
    {
        proof {
            use_type_invariant(&self);
        }
        self.entries
    }

    /// Adds a handle, replacing the summary of an existing handle with
    /// the same id.
    pub fn insert(&mut self, id: String, summary: DatasetSummary)
        ensures
            final(self).view() == old(self).view().insert(id@, summary),
    {
        proof {
            use_type_invariant(&*self);
        }
        let mut entries: Vec<(String, DatasetSummary)> = Vec::new();
        std::mem::swap(&mut entries, &mut self.entries);
        let ghost before = entries@;
        let mut probe = Handles { entries };
        let found = probe.find(&id);
        let mut entries = probe.entries;
        match found {
            Some(i) => {
                proof {
                    lemma_pairs_map_update(before, i as int, id, summary);
                }
                entries.set(i, (id, summary));
            },
            None => {
                proof {
                    assert(distinct_ids(before.push((id, summary)))) by {
                        let after = before.push((id, summary));
                        assert forall|a: int, b: int|
                            0 <= a < after.len() && 0 <= b < after.len() && a != b implies (
                            #[trigger] after[a]).0@ != (#[trigger] after[b]).0@ by {
                            if a < before.len() && b < before.len() {
                                assert(before[a].0@ != before[b].0@);
                            } else if a < before.len() {
                                assert(before[a].0@ != id@);
                            } else {
                                assert(before[b].0@ != id@);
                            }
                        }
                    }
                    assert(before.push((id, summary)).drop_last() =~= before);
                }
                entries.push((id, summary));
            },
        }
        self.entries = entries;
    }
}

} // verus!
