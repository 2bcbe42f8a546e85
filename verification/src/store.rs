//! The credibility store: validators with their scores, in the order in
//! which the store keeps them.
//!
//! A new validator goes to the end. A validator that leaves has its place
//! taken by the last one, so the order of the others stays.

use crate::credibility::{NodeCredibility, NodeCredibilityView};
use crate::identity::PublicKey;
use vstd::prelude::*;

verus! {

/// Whether no validator has two entries.
pub open spec fn keys_distinct(entries: Seq<NodeCredibilityView>) -> bool {
    forall|i: int, j: int|
        0 <= i < j < entries.len() ==> (#[trigger] entries[i]).validator
            != (#[trigger] entries[j]).validator
}

/// Whether `key` has an entry.
pub open spec fn holds(entries: Seq<NodeCredibilityView>, key: Seq<u8>) -> bool {
    exists|i: int| 0 <= i < entries.len() && (#[trigger] entries[i]).validator == key
}

/// The place of the entry of `key`.
pub open spec fn slot_of(entries: Seq<NodeCredibilityView>, key: Seq<u8>) -> int {
    choose|i: int| 0 <= i < entries.len() && (#[trigger] entries[i]).validator == key
}

/// The score that is stored for `key`, and zero where there is none.
pub open spec fn score_of(entries: Seq<NodeCredibilityView>, key: Seq<u8>) -> u32 {
    if holds(entries, key) {
        entries[slot_of(entries, key)].credibility_value
    } else {
        0
    }
}

/// The entries after `value` was stored for `key`: in place where `key` had
/// an entry, at the end where it had none.
pub open spec fn with_score(entries: Seq<NodeCredibilityView>, key: Seq<u8>, value: u32) -> Seq<
    NodeCredibilityView,
> {
    let entry = NodeCredibilityView { validator: key, credibility_value: value };
    if holds(entries, key) {
        entries.update(slot_of(entries, key), entry)
    } else {
        entries.push(entry)
    }
}

/// The entries after `key` left: the last entry stands in its place.
pub open spec fn without(entries: Seq<NodeCredibilityView>, key: Seq<u8>) -> Seq<
    NodeCredibilityView,
> {
    if holds(entries, key) {
        entries.update(slot_of(entries, key), entries.last()).drop_last()
    } else {
        entries
    }
}

/// Where no validator has two entries, the entry of a validator is found at
/// one place only.
pub proof fn lemma_slot_unique(entries: Seq<NodeCredibilityView>, key: Seq<u8>, i: int)
    requires
        keys_distinct(entries),
        0 <= i < entries.len(),
        entries[i].validator == key,
    ensures
        holds(entries, key),
        slot_of(entries, key) == i,
        score_of(entries, key) == entries[i].credibility_value,
{
    let j = slot_of(entries, key);
    assert(0 <= j < entries.len() && entries[j].validator == key);
    if i < j {
        assert(entries[i].validator != entries[j].validator);
    }
    if j < i {
        assert(entries[j].validator != entries[i].validator);
    }
}

/// Storing a score for one validator leaves all others as they were.
pub proof fn lemma_with_score(entries: Seq<NodeCredibilityView>, key: Seq<u8>, value: u32)
    requires
        keys_distinct(entries),
    ensures
        keys_distinct(with_score(entries, key, value)),
        holds(with_score(entries, key, value), key),
        score_of(with_score(entries, key, value), key) == value,
        forall|other: Seq<u8>|
            other != key ==> #[trigger] holds(with_score(entries, key, value), other) == holds(
                entries,
                other,
            ),
        forall|other: Seq<u8>|
            other != key ==> #[trigger] score_of(with_score(entries, key, value), other)
                == score_of(entries, other),
{
    let after = with_score(entries, key, value);
    let at = if holds(entries, key) {
        slot_of(entries, key)
    } else {
        entries.len() as int
    };
    assert(after[at].validator == key && after[at].credibility_value == value);
    assert(after.len() == if holds(entries, key) {
        entries.len()
    } else {
        entries.len() + 1
    });
    assert forall|i: int| 0 <= i < after.len() && i != at implies #[trigger] after[i]
        == entries[i] && entries[i].validator != key by {
        if holds(entries, key) {
            lemma_slot_unique(entries, key, at);
            if entries[i].validator == key {
                lemma_slot_unique(entries, key, i);
            }
        } else {
            if entries[i].validator == key {
            }
        }
    }
    assert(keys_distinct(after)) by {
        assert forall|i: int, j: int| 0 <= i < j < after.len() implies (#[trigger] after[i]).validator
            != (#[trigger] after[j]).validator by {
            if i != at && j != at {
                assert(entries[i].validator != entries[j].validator);
            }
        }
    }
    lemma_slot_unique(after, key, at);
    assert forall|other: Seq<u8>| other != key implies #[trigger] holds(after, other) == holds(
        entries,
        other,
    ) && score_of(after, other) == score_of(entries, other) by {
        if holds(entries, other) {
            let i = slot_of(entries, other);
            assert(i != at);
            assert(after[i] == entries[i]);
            lemma_slot_unique(after, other, i);
        }
        if holds(after, other) {
            let i = slot_of(after, other);
            assert(i != at);
            assert(after[i] == entries[i]);
            lemma_slot_unique(entries, other, i);
        }
    }
}

/// A validator that left has no entry, and all others are as they were.
pub proof fn lemma_without(entries: Seq<NodeCredibilityView>, key: Seq<u8>)
    requires
        keys_distinct(entries),
    ensures
        keys_distinct(without(entries, key)),
        !holds(without(entries, key), key),
        score_of(without(entries, key), key) == 0,
        forall|other: Seq<u8>|
            other != key ==> #[trigger] holds(without(entries, key), other) == holds(
                entries,
                other,
            ),
        forall|other: Seq<u8>|
            other != key ==> #[trigger] score_of(without(entries, key), other) == score_of(
                entries,
                other,
            ),
{
    let after = without(entries, key);
    if holds(entries, key) {
        let at = slot_of(entries, key);
        let end = entries.len() - 1;
        lemma_slot_unique(entries, key, at);
        assert forall|i: int| 0 <= i < after.len() implies (#[trigger] after[i]).validator
            != key && after[i] == (if i == at {
            entries[end]
        } else {
            entries[i]
        }) by {
            if i == at {
                if entries[end].validator == key {
                    lemma_slot_unique(entries, key, end);
                }
            } else {
                if entries[i].validator == key {
                    lemma_slot_unique(entries, key, i);
                }
            }
        }
        assert(keys_distinct(after)) by {
            assert forall|i: int, j: int| 0 <= i < j < after.len() implies (
            #[trigger] after[i]).validator != (#[trigger] after[j]).validator by {
                let from_i = if i == at {
                    end
                } else {
                    i
                };
                let from_j = if j == at {
                    end
                } else {
                    j
                };
                assert(after[i] == entries[from_i] && after[j] == entries[from_j]);
                if from_i < from_j {
                    assert(entries[from_i].validator != entries[from_j].validator);
                } else {
                    assert(entries[from_j].validator != entries[from_i].validator);
                }
            }
        }
        assert forall|other: Seq<u8>| other != key implies #[trigger] holds(after, other)
            == holds(entries, other) && score_of(after, other) == score_of(entries, other) by {
            if holds(entries, other) {
                let i = slot_of(entries, other);
                assert(i != at);
                let to = if i == end {
                    at
                } else {
                    i
                };
                assert(after[to] == entries[i]);
                lemma_slot_unique(after, other, to);
            }
            if holds(after, other) {
                let i = slot_of(after, other);
                let from = if i == at {
                    end
                } else {
                    i
                };
                assert(after[i] == entries[from]);
                lemma_slot_unique(entries, other, from);
            }
        }
    } else {
        assert forall|other: Seq<u8>| other != key implies #[trigger] holds(after, other)
            == holds(entries, other) && score_of(after, other) == score_of(entries, other) by {
        }
    }
}

/// Validators with their scores.
#[derive(Debug)]
pub struct CredibilityStore {
    entries: Vec<NodeCredibility>,
}

impl View for CredibilityStore {
    type V = Seq<NodeCredibilityView>;

    closed spec fn view(&self) -> Seq<NodeCredibilityView> {
        self.entries.deep_view()
    }
}

impl CredibilityStore {
    /// Whether the store is in order: no validator has two entries.
    pub open spec fn wf(&self) -> bool {
        keys_distinct(self@)
    }

    /// A store without entries.
    pub fn new() -> (store: CredibilityStore)
        ensures
            store@ == Seq::<NodeCredibilityView>::empty(),
            store.wf(),
    {
        let store = CredibilityStore { entries: Vec::new() };
        assert(store@ =~= Seq::<NodeCredibilityView>::empty());
        store
    }

    /// A store with the given entries, where no validator has two of them.
    pub fn from_entries(entries: Vec<NodeCredibility>) -> (store: Option<CredibilityStore>)
        ensures
            keys_distinct(entries.deep_view()) <==> store is Some,
            store matches Some(made) ==> made@ == entries.deep_view() && made.wf(),
    {
        let ghost model = entries.deep_view();
        let mut j: usize = 0;
        while j < entries.len()
            invariant
                j <= entries.len(),
                model == entries.deep_view(),
                keys_distinct(model.take(j as int)),
            decreases entries.len() - j,
        {
            let mut i: usize = 0;
            while i < j
                invariant
                    i <= j < entries.len(),
                    model == entries.deep_view(),
                    forall|k: int| 0 <= k < i ==> (#[trigger] model[k]).validator
                        != model[j as int].validator,
                decreases j - i,
            {
                if entries[i].validator == entries[j].validator {
                    assert(model[i as int].validator == model[j as int].validator);
                    return None;
                }
                i = i + 1;
            }
            proof {
                let upto = model.take(j + 1);
                assert forall|a: int, b: int| 0 <= a < b < upto.len() implies (
                #[trigger] upto[a]).validator != (#[trigger] upto[b]).validator by {
                    if b < j {
                        assert(model.take(j as int)[a].validator != model.take(
                            j as int,
                        )[b].validator);
                    } else {
                        assert(model[a].validator != model[j as int].validator);
                    }
                }
            }
            j = j + 1;
        }
        assert(model.take(entries.len() as int) =~= model);
        Some(CredibilityStore { entries })
    }

    /// The number of entries.
    pub fn len(&self) -> (count: usize)
        ensures
            count == self@.len(),
    {
        self.entries.len()
    }

    /// The entry at `index` in the order of the store.
    pub fn entry(&self, index: usize) -> (entry: &NodeCredibility)
        requires
            index < self@.len(),
        ensures
            entry@ == self@[index as int],
    {
        &self.entries[index]
    }

    /// A copy of all entries in the order of the store.
    pub fn entries(&self) -> (copy: Vec<NodeCredibility>)
        ensures
            copy.deep_view() == self@,
    {
        let mut copy: Vec<NodeCredibility> = Vec::new();
        let mut i: usize = 0;
        while i < self.entries.len()
            invariant
                i <= self.entries.len(),
                copy.len() == i,
                forall|k: int| 0 <= k < i ==> (#[trigger] copy[k])@ == self@[k],
            decreases self.entries.len() - i,
        {
            copy.push(self.entries[i].clone());
            i = i + 1;
        }
        assert(copy.deep_view() =~= self@);
        copy
    }

    /// The place of the entry of `key`, if it has one.
    fn find(&self, key: &PublicKey) -> (found: Option<usize>)
        requires
            self.wf(),
        ensures
            found is Some <==> holds(self@, key@),
            found matches Some(at) ==> at == slot_of(self@, key@) && at < self@.len(),
    {
        let mut i: usize = 0;
        while i < self.entries.len()
            invariant
                self.wf(),
                i <= self.entries.len(),
                forall|k: int| 0 <= k < i ==> (#[trigger] self@[k]).validator != key@,
            decreases self.entries.len() - i,
        {
            if self.entries[i].validator == *key {
                proof {
                    lemma_slot_unique(self@, key@, i as int);
                }
                return Some(i);
            }
            i = i + 1;
        }
        None
    }

    /// The score that is stored for `key`.
    pub fn get(&self, key: &PublicKey) -> (score: Option<u32>)
        requires
            self.wf(),
        ensures
            score is Some <==> holds(self@, key@),
            score matches Some(value) ==> value == score_of(self@, key@),
    {
        match self.find(key) {
            Some(at) => Some(self.entries[at].credibility_value),
            None => None,
        }
    }

    /// Stores `value` for `key` and hands back the score it replaces.
    pub fn insert(&mut self, key: PublicKey, value: u32) -> (replaced: Option<u32>)
        requires
            old(self).wf(),
        ensures
            final(self).wf(),
            final(self)@ == with_score(old(self)@, key@, value),
            replaced is Some <==> holds(old(self)@, key@),
            replaced matches Some(score) ==> score == score_of(old(self)@, key@),
    {
        proof {
            lemma_with_score(self@, key@, value);
        }
        match self.find(&key) {
            Some(at) => {
                let replaced = self.entries[at].credibility_value;
                self.entries[at].credibility_value = value;
                assert(self@ =~= with_score(old(self)@, key@, value));
                Some(replaced)
            },
            None => {
                self.entries.push(NodeCredibility { validator: key, credibility_value: value });
                assert(self@ =~= with_score(old(self)@, key@, value));
                None
            },
        }
    }

    /// Takes the entry of `key` out and hands back its score.
    pub fn remove(&mut self, key: &PublicKey) -> (removed: Option<u32>)
        requires
            old(self).wf(),
        ensures
            final(self).wf(),
            final(self)@ == without(old(self)@, key@),
            removed is Some <==> holds(old(self)@, key@),
            removed matches Some(score) ==> score == score_of(old(self)@, key@),
    {
        proof {
            lemma_without(self@, key@);
        }
        match self.find(key) {
            Some(at) => {
                let entry = self.entries.swap_remove(at);
                assert(self@ =~= without(old(self)@, key@));
                Some(entry.credibility_value)
            },
            None => None,
        }
    }
}

} // verus!
