//! A mapping from terms to 64-bit values, kept as a list of entries in the
//! order in which the terms were first set.

use crate::intern::PoolId;
use std::collections::HashMap;
use vstd::prelude::*;

verus! {

/// No term occurs in two entries.
pub open spec fn distinct_terms(entries: Seq<(nat, u64)>) -> bool {
    forall|i: int, j: int| 0 <= i < j < entries.len() ==> entries[i].0 != entries[j].0
}

/// Some entry is for `term`.
pub open spec fn has_term(entries: Seq<(nat, u64)>, term: nat) -> bool {
    exists|i: int| 0 <= i < entries.len() && (#[trigger] entries[i]).0 == term
}

/// Position of an entry for `term`, where there is one.
pub open spec fn slot_of(entries: Seq<(nat, u64)>, term: nat) -> int {
    choose|i: int| 0 <= i < entries.len() && (#[trigger] entries[i]).0 == term
}

/// The value that `term` is mapped to, if any.
pub open spec fn value_of(entries: Seq<(nat, u64)>, term: nat) -> Option<u64> {
    if has_term(entries, term) {
        Some(entries[slot_of(entries, term)].1)
    } else {
        None
    }
}

/// The count held for `term`, zero where it has none.
pub open spec fn count_of(counts: Seq<(nat, u64)>, term: nat) -> nat {
    match value_of(counts, term) {
        Some(n) => n as nat,
        None => 0,
    }
}

/// The sum of all values.
pub open spec fn total(entries: Seq<(nat, u64)>) -> nat
    decreases entries.len(),
{
    if entries.len() == 0 {
        0
    } else {
        total(entries.drop_last()) + entries.last().1 as nat
    }
}

/// The entries after `term` has been mapped to `value`: its entry is
/// overwritten in place, or a new one is added at the end.
pub open spec fn with_value(entries: Seq<(nat, u64)>, term: nat, value: u64) -> Seq<(nat, u64)> {
    if has_term(entries, term) {
        entries.update(slot_of(entries, term), (term, value))
    } else {
        entries.push((term, value))
    }
}

/// In a list without repeated terms, the entry at `i` is the one found for
/// its term.
pub proof fn lemma_slot_of(entries: Seq<(nat, u64)>, i: int)
    requires
        distinct_terms(entries),
        0 <= i < entries.len(),
    ensures
        has_term(entries, entries[i].0),
        slot_of(entries, entries[i].0) == i,
        value_of(entries, entries[i].0) == Some(entries[i].1),
{
    let j = slot_of(entries, entries[i].0);
    assert(entries[j].0 == entries[i].0);
}

/// Setting a value keeps the terms distinct, and afterwards the term is
/// mapped to that value while every other term is mapped as before.
pub proof fn lemma_with_value(entries: Seq<(nat, u64)>, term: nat, value: u64)
    requires
        distinct_terms(entries),
    ensures
        distinct_terms(with_value(entries, term, value)),
        value_of(with_value(entries, term, value), term) == Some(value),
        forall|other: nat|
            other != term ==> #[trigger] value_of(with_value(entries, term, value), other)
                == value_of(entries, other),
{
    let after = with_value(entries, term, value);
    if has_term(entries, term) {
        let k = slot_of(entries, term);
        assert(after[k] == (term, value));
        lemma_slot_of(after, k);
        assert forall|other: nat| other != term implies #[trigger] value_of(after, other)
            == value_of(entries, other) by {
            if has_term(entries, other) {
                let i = slot_of(entries, other);
                assert(after[i] == entries[i]);
                lemma_slot_of(after, i);
            } else if has_term(after, other) {
                let i = slot_of(after, other);
                assert(entries[i].0 == other);
            }
        }
    } else {
        let k = entries.len() as int;
        assert(after[k] == (term, value));
        assert forall|i: int, j: int| 0 <= i < j < after.len() implies after[i].0 != after[j].0 by {
            if j == k {
                assert(entries[i].0 != term);
            }
        }
        lemma_slot_of(after, k);
        assert forall|other: nat| other != term implies #[trigger] value_of(after, other)
            == value_of(entries, other) by {
            if has_term(entries, other) {
                let i = slot_of(entries, other);
                assert(after[i] == entries[i]);
                lemma_slot_of(after, i);
            } else if has_term(after, other) {
                let i = slot_of(after, other);
                assert(entries[i].0 == other);
            }
        }
    }
}

/// No value is larger than the sum of all values.
pub proof fn lemma_total_bounds(entries: Seq<(nat, u64)>, i: int)
    requires
        0 <= i < entries.len(),
    ensures
        entries[i].1 <= total(entries),
    decreases entries.len(),
{
    if i < entries.len() - 1 {
        lemma_total_bounds(entries.drop_last(), i);
    }
}

/// Replacing a value changes the sum by the difference.
pub proof fn lemma_total_update(entries: Seq<(nat, u64)>, i: int, entry: (nat, u64))
    requires
        0 <= i < entries.len(),
    ensures
        total(entries.update(i, entry)) == total(entries) - entries[i].1 + entry.1,
    decreases entries.len(),
{
    let after = entries.update(i, entry);
    if i < entries.len() - 1 {
        lemma_total_update(entries.drop_last(), i, entry);
        assert(after.drop_last() =~= entries.drop_last().update(i, entry));
    } else {
        assert(after.drop_last() =~= entries.drop_last());
    }
}

/// Counting a term once more raises the sum of the counts by one.
pub proof fn lemma_total_counted(entries: Seq<(nat, u64)>, term: nat)
    requires
        distinct_terms(entries),
    ensures
        count_of(entries, term) <= total(entries),
        count_of(entries, term) < u64::MAX ==> total(
            with_value(entries, term, (count_of(entries, term) + 1) as u64),
        ) == total(entries) + 1,
{
    let after = with_value(entries, term, (count_of(entries, term) + 1) as u64);
    if has_term(entries, term) {
        let i = slot_of(entries, term);
        lemma_total_bounds(entries, i);
        lemma_total_update(entries, i, (term, (count_of(entries, term) + 1) as u64));
    } else {
        assert(after.drop_last() =~= entries);
    }
}

/// A mapping from terms to 64-bit values.
///
/// The entries are kept in the order in which their terms were first set;
/// a hash index from a term to the position of its entry makes lookups
/// independent of the number of entries.
#[derive(Debug)]
pub struct TermTable {
    entries: Vec<(PoolId, u64)>,
    index: HashMap<usize, usize>,
}

impl View for TermTable {
    type V = Seq<(nat, u64)>;

    /// The entries, each a term's handle position and its value, in the
    /// order in which the terms were first set.
    closed spec fn view(&self) -> Seq<(nat, u64)> {
        Seq::new(self.entries@.len(), |i: int| (self.entries@[i].0.slot(), self.entries@[i].1))
    }
}

impl TermTable {
    /// The index holds exactly the positions of the entries, by term.
    #[verifier::type_invariant]
    spec fn indexed(&self) -> bool {
        &&& forall|i: int|
            0 <= i < self.entries@.len() ==> self.index@.contains_key(
                (#[trigger] self.entries@[i]).0.slot() as usize,
            ) && self.index@[self.entries@[i].0.slot() as usize] == i
        &&& forall|k: usize| #[trigger]
            self.index@.contains_key(k) ==> self.index@[k] < self.entries@.len()
                && self.entries@[self.index@[k] as int].0.slot() == k
    }

    /// Every term has at most one entry.
    pub open spec fn wf(&self) -> bool {
        distinct_terms(self@)
    }

    /// An empty table.
    pub fn new() -> (table: TermTable)
        ensures
            table.wf(),
            table@ == Seq::<(nat, u64)>::empty(),
    {
        broadcast use vstd::std_specs::hash::group_hash_axioms;

        let table = TermTable { entries: Vec::new(), index: HashMap::new() };
        assert(table@ =~= Seq::<(nat, u64)>::empty());
        table
    }

    /// Number of terms that have a value.
    pub fn len(&self) -> (n: usize)
        ensures
            n == self@.len(),
    {
        self.entries.len()
    }

    /// The entry at position `i`.
    pub fn entry(&self, i: usize) -> (e: (PoolId, u64))
        requires
            i < self@.len(),
        ensures
            (e.0.slot(), e.1) == self@[i as int],
    {
        self.entries[i]
    }

    /// Position of the entry for `term`, if it has one.
    pub fn find(&self, term: PoolId) -> (found: Option<usize>)
        ensures
            found is Some <==> has_term(self@, term.slot()),
            found matches Some(i) ==> i < self@.len() && self@[i as int].0 == term.slot(),
    {
        broadcast use vstd::std_specs::hash::group_hash_axioms;

        proof {
            use_type_invariant(self);
        }
        let key = term.index();
        match self.index.get(&key) {
            Some(at) => {
                assert(self@[*at as int].0 == term.slot());
                Some(*at)
            },
            None => {
                proof {
                    if has_term(self@, term.slot()) {
                        let i = slot_of(self@, term.slot());
                        assert(self.entries@[i].0.slot() == term.slot());
                    }
                }
                None
            },
        }
    }

    /// The value that `term` is mapped to, if any.
    pub fn get(&self, term: PoolId) -> (value: Option<u64>)
        requires
            self.wf(),
        ensures
            value == value_of(self@, term.slot()),
    {
        match self.find(term) {
            Some(i) => {
                proof {
                    lemma_slot_of(self@, i as int);
                }
                Some(self.entries[i].1)
            },
            None => None,
        }
    }

    /// Maps `term` to `value`, whether or not it had a value before.
    pub fn set(&mut self, term: PoolId, value: u64)
        requires
            old(self).wf(),
        ensures
            final(self).wf(),
            final(self)@ == with_value(old(self)@, term.slot(), value),
    {
        broadcast use vstd::std_specs::hash::group_hash_axioms;

        proof {
            use_type_invariant(&*self);
            lemma_with_value(self@, term.slot(), value);
        }
        let found = self.find(term);
        let mut taken = TermTable::new();
        core::mem::swap(self, &mut taken);
        let TermTable { mut entries, mut index } = taken;
        match found {
            Some(i) => {
                proof {
                    lemma_slot_of(old(self)@, i as int);
                }
                entries.set(i, (term, value));
            },
            None => {
                proof {
                    assert forall|i: int| 0 <= i < entries@.len() implies (
                    #[trigger] entries@[i]).0.slot() != term.slot() by {
                        assert(old(self)@[i].0 == entries@[i].0.slot());
                    }
                    term.lemma_slot_bound();
                }
                index.insert(term.index(), entries.len());
                entries.push((term, value));
            },
        }
        proof {
            assert forall|i: int| 0 <= i < entries@.len() implies index@.contains_key(
                (#[trigger] entries@[i]).0.slot() as usize,
            ) && index@[entries@[i].0.slot() as usize] == i by {
                entries@[i].0.lemma_slot_bound();
                term.lemma_slot_bound();
                if i < old(self).entries@.len() {
                    old(self).entries@[i].0.lemma_slot_bound();
                }
            }
        }
        *self = TermTable { entries, index };
        proof {
            match found {
                Some(i) => {
                    assert(self@ =~= old(self)@.update(i as int, (term.slot(), value)));
                },
                None => {
                    assert(self@ =~= old(self)@.push((term.slot(), value)));
                },
            }
        }
    }
}

} // verus!
