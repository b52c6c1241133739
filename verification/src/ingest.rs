//! Ingestion: adding a document to the store under a duplicate-title policy
//! and counting its terms into the corpus-wide counts.

use crate::intern::PoolId;
use crate::store::{
    has_title, lemma_title_slot, title_slot, with_document, Document, DocumentView, StoreView,
    TfIdf,
};
use crate::table::{
    count_of, distinct_terms, has_term, lemma_slot_of, lemma_with_value, slot_of, with_value,
    TermTable,
};
use crate::text::same_text;
use vstd::prelude::*;
use vstd::string::StringExecFns;

verus! {

/// What to do with a document whose title the store already holds.
#[derive(Clone, Copy, Debug, PartialEq, Eq, Structural)]
pub enum DupePolicy {
    /// Refuse the new document.
    Fail,
    /// Put the new document in the place of the old one.
    Replace,
    /// Store the new document under the title followed by `-1`.
    Rename,
    /// Drop the new document and report success.
    Ignore,
}

impl Default for DupePolicy {
    /// `Fail`: a title that is taken is refused unless asked otherwise.
    fn default() -> (policy: DupePolicy)
        ensures
            policy == DupePolicy::Fail,
    {
        DupePolicy::Fail
    }
}

/// The policy that a name selects: `replace`, `rename` or `ignore` select
/// the policy of that name; any other name, or none, selects `Fail`.
pub open spec fn named_policy(name: Option<Seq<char>>) -> DupePolicy {
    match name {
        None => DupePolicy::Fail,
        Some(text) => if text == "replace"@ {
            DupePolicy::Replace
        } else if text == "rename"@ {
            DupePolicy::Rename
        } else if text == "ignore"@ {
            DupePolicy::Ignore
        } else {
            DupePolicy::Fail
        },
    }
}

/// The name as a value.
pub open spec fn name_view(name: Option<&str>) -> Option<Seq<char>> {
    match name {
        None => None,
        Some(text) => Some(text@),
    }
}

impl DupePolicy {
    /// The policy that a name selects.
    pub fn from_name(name: Option<&str>) -> (policy: DupePolicy)
        ensures
            policy == named_policy(name_view(name)),
    {
        match name {
            None => DupePolicy::Fail,
            Some(text) => if same_text(text, "replace") {
                DupePolicy::Replace
            } else if same_text(text, "rename") {
                DupePolicy::Rename
            } else if same_text(text, "ignore") {
                DupePolicy::Ignore
            } else {
                DupePolicy::Fail
            },
        }
    }
}

/// The title under which a document is submitted: its own title, or its
/// path where it has none or an empty one.
pub open spec fn title_or_path(title: Option<String>, path: Seq<char>) -> Seq<char> {
    match title {
        Some(text) => if text@.len() > 0 {
            text@
        } else {
            path
        },
        None => path,
    }
}

/// The title under which a document is submitted.
pub fn document_title(title: Option<String>, path: &str) -> (chosen: String)
    ensures
        chosen@ == title_or_path(title, path@),
{
    match title {
        Some(text) => if text.as_str().is_empty() {
            path.to_owned()
        } else {
            text
        },
        None => path.to_owned(),
    }
}

/// What becomes of a document that is submitted under a title.
#[derive(Debug)]
pub enum Admission {
    /// The title is taken and the policy is `Fail`: the document is
    /// refused. `existing_path` is the path of the document that holds
    /// the title.
    Refused { title: String, existing_path: String },
    /// The title is taken and the policy is `Ignore`: the document is
    /// dropped.
    Dropped,
    /// The document is stored under `title`.
    Stored { title: String },
}

/// Why a document was not ingested.
#[derive(Debug)]
pub enum IngestError {
    /// The title is taken and the policy is `Fail`.
    DuplicateTitle { title: String, existing_path: String, submitted_path: String },
    /// Counting the document would take the corpus-wide count of `term`
    /// past the largest 64-bit number.
    CountOverflow { term: PoolId },
}

/// Adding the occurrences at position `i` to the count of their term would
/// not fit in 64 bits.
pub open spec fn overflows_at(
    counts: Seq<(nat, u64)>,
    occurrences: Seq<(nat, u64)>,
    i: int,
) -> bool {
    count_of(counts, occurrences[i].0) + occurrences[i].1 > u64::MAX
}

/// `term` is the first term of `occurrences` whose count would not fit.
pub open spec fn first_overflow_at(
    counts: Seq<(nat, u64)>,
    occurrences: Seq<(nat, u64)>,
    term: nat,
) -> bool {
    exists|i: int|
        0 <= i < occurrences.len() && term == occurrences[i].0 && #[trigger] overflows_at(
            counts,
            occurrences,
            i,
        ) && forall|j: int| 0 <= j < i ==> !overflows_at(counts, occurrences, j)
}

/// Every count stays within 64 bits when `occurrences` are added.
pub open spec fn fits(counts: Seq<(nat, u64)>, occurrences: Seq<(nat, u64)>) -> bool {
    forall|i: int| 0 <= i < occurrences.len() ==> !overflows_at(counts, occurrences, i)
}

/// The counts after each term's occurrences have been added to its count,
/// one entry of `occurrences` after the other.
pub open spec fn counted(counts: Seq<(nat, u64)>, occurrences: Seq<(nat, u64)>) -> Seq<(nat, u64)>
    decreases occurrences.len(),
{
    if occurrences.len() == 0 {
        counts
    } else {
        let before = counted(counts, occurrences.drop_last());
        let (term, n) = occurrences.last();
        with_value(before, term, (count_of(before, term) + n) as u64)
    }
}

/// After counting, a term of the document has its old count plus its
/// occurrences, and every other term has its old count.
pub proof fn lemma_counted(
    counts: Seq<(nat, u64)>,
    occurrences: Seq<(nat, u64)>,
    term: nat,
)
    requires
        distinct_terms(counts),
        distinct_terms(occurrences),
        fits(counts, occurrences),
    ensures
        distinct_terms(counted(counts, occurrences)),
        count_of(counted(counts, occurrences), term) == count_of(counts, term) + count_of(
            occurrences,
            term,
        ),
        has_term(counted(counts, occurrences), term) <==> has_term(counts, term) || has_term(
            occurrences,
            term,
        ),
    decreases occurrences.len(),
{
    if occurrences.len() > 0 {
        let init = occurrences.drop_last();
        let last = occurrences.len() - 1;
        let (t, n) = occurrences.last();
        assert forall|i: int| 0 <= i < init.len() implies !overflows_at(counts, init, i) by {
            assert(!overflows_at(counts, occurrences, i));
        }
        lemma_counted(counts, init, term);
        lemma_counted(counts, init, t);
        let before = counted(counts, init);
        let sum = (count_of(before, t) + n) as u64;
        lemma_with_value(before, t, sum);
        lemma_slot_of(occurrences, last);
        assert(!has_term(init, t)) by {
            if has_term(init, t) {
                let k = slot_of(init, t);
                assert(occurrences[k].0 == t);
            }
        }
        assert(!overflows_at(counts, occurrences, last));
        if term == t {
            assert(has_term(counted(counts, occurrences), term));
        } else {
            if has_term(occurrences, term) {
                let k = slot_of(occurrences, term);
                assert(init[k] == occurrences[k]);
                lemma_slot_of(init, k);
                lemma_slot_of(occurrences, k);
            } else if has_term(init, term) {
                let k = slot_of(init, term);
                assert(occurrences[k].0 == term);
            }
        }
    }
}

/// The title followed by `-1`.
pub open spec fn renamed(title: Seq<char>) -> Seq<char> {
    title + seq!['-', '1']
}

/// The document is refused: its title is taken and the policy is `Fail`.
pub open spec fn rejected(store: StoreView, title: Seq<char>, policy: DupePolicy) -> bool {
    has_title(store.documents, title) && policy == DupePolicy::Fail
}

/// The document is dropped: its title is taken and the policy is `Ignore`.
pub open spec fn ignored(store: StoreView, title: Seq<char>, policy: DupePolicy) -> bool {
    has_title(store.documents, title) && policy == DupePolicy::Ignore
}

/// The title under which the document is stored.
pub open spec fn stored_title(store: StoreView, title: Seq<char>, policy: DupePolicy) -> Seq<
    char,
> {
    if has_title(store.documents, title) && policy == DupePolicy::Rename {
        renamed(title)
    } else {
        title
    }
}

/// `admission` is what becomes of a document that is submitted to `store`
/// under `title` with `policy`.
pub open spec fn admits(
    store: StoreView,
    title: Seq<char>,
    policy: DupePolicy,
    admission: Admission,
) -> bool {
    match admission {
        Admission::Refused { title: refused, existing_path } => {
            &&& rejected(store, title, policy)
            &&& refused@ == title
            &&& existing_path@ == store.documents[title_slot(store.documents, title)].path
        },
        Admission::Dropped => ignored(store, title, policy),
        Admission::Stored { title: stored } => {
            &&& !rejected(store, title, policy)
            &&& !ignored(store, title, policy)
            &&& stored@ == stored_title(store, title, policy)
        },
    }
}

/// The store after a document with these parts has been submitted. A
/// refused or dropped document, or one whose counts do not fit, leaves the
/// store as it was. Otherwise the document is stored under its title or
/// the renamed title, taking the place of a document that has that title,
/// and its occurrences are added to the corpus-wide counts. What a
/// replaced document had added to the counts stays in them.
pub open spec fn ingested(
    store: StoreView,
    document: DocumentView,
    occurrences: Seq<(nat, u64)>,
    policy: DupePolicy,
) -> StoreView {
    if rejected(store, document.title, policy) || ignored(store, document.title, policy) || !fits(
        store.global_term_count,
        occurrences,
    ) {
        store
    } else {
        StoreView {
            global_term_count: counted(store.global_term_count, occurrences),
            documents: with_document(
                store.documents,
                DocumentView {
                    title: stored_title(store, document.title, policy),
                    path: document.path,
                    term_frequency: document.term_frequency,
                },
            ),
        }
    }
}

/// What a submission reports: `DuplicateTitle` with both paths exactly when
/// the document is refused; otherwise `CountOverflow` with the first term
/// whose count would not fit, exactly when there is one and the document
/// is not dropped; success in every other case.
pub open spec fn reported(
    store: StoreView,
    document: DocumentView,
    occurrences: Seq<(nat, u64)>,
    policy: DupePolicy,
    result: Result<(), IngestError>,
) -> bool {
    if rejected(store, document.title, policy) {
        &&& result matches Err(IngestError::DuplicateTitle { title, existing_path, submitted_path })
        &&& title@ == document.title
        &&& existing_path@ == store.documents[title_slot(store.documents, document.title)].path
        &&& submitted_path@ == document.path
    } else if ignored(store, document.title, policy) || fits(store.global_term_count, occurrences) {
        result is Ok
    } else {
        &&& result matches Err(IngestError::CountOverflow { term })
        &&& first_overflow_at(store.global_term_count, occurrences, term.slot())
    }
}

/// Under `Fail`, a document whose title is taken is reported as a
/// duplicate and changes neither the documents nor the counts.
pub proof fn law_duplicate_fail(
    store: StoreView,
    document: DocumentView,
    occurrences: Seq<(nat, u64)>,
    result: Result<(), IngestError>,
)
    requires
        has_title(store.documents, document.title),
        reported(store, document, occurrences, DupePolicy::Fail, result),
    ensures
        ingested(store, document, occurrences, DupePolicy::Fail) == store,
        result matches Err(IngestError::DuplicateTitle { .. }),
{
}

/// `frequency` gives each term of `occurrences`, in the same order, what
/// `ratio` returns for its occurrence count and the number of distinct
/// terms.
pub open spec fn frequencies_by<F: Fn(u64, u64) -> u64>(
    occurrences: Seq<(nat, u64)>,
    frequency: Seq<(nat, u64)>,
    ratio: F,
) -> bool {
    &&& frequency.len() == occurrences.len()
    &&& forall|i: int|
        0 <= i < occurrences.len() ==> (#[trigger] frequency[i]).0 == occurrences[i].0
            && ratio.ensures((occurrences[i].1, occurrences.len() as u64), frequency[i].1)
}

impl TfIdf {
    /// The first term whose corpus-wide count would overflow if
    /// `occurrences` were added, if there is one.
    fn first_overflow(&self, occurrences: &TermTable) -> (found: Option<PoolId>)
        requires
            self.wf(),
            occurrences.wf(),
        ensures
            found is None <==> fits(self@.global_term_count, occurrences@),
            found matches Some(term) ==> first_overflow_at(
                self@.global_term_count,
                occurrences@,
                term.slot(),
            ),
    {
        let mut i: usize = 0;
        while i < occurrences.len()
            invariant
                i <= occurrences@.len(),
                self.wf(),
                forall|j: int|
                    0 <= j < i ==> !overflows_at(self@.global_term_count, occurrences@, j),
            decreases occurrences@.len() - i,
        {
            let (term, n) = occurrences.entry(i);
            let held = match self.global_term_count().get(term) {
                Some(c) => c,
                None => 0,
            };
            if n > u64::MAX - held {
                assert(overflows_at(self@.global_term_count, occurrences@, i as int));
                return Some(term);
            }
            i += 1;
        }
        None
    }

    /// Decides what becomes of a document that is submitted under `title`
    /// with `policy`, without changing the store. A caller can ask before
    /// it reads the document; [`TfIdf::submit`] decides the same way.
    pub fn admission(&self, title: String, policy: DupePolicy) -> (admission: Admission)
        requires
            self.wf(),
        ensures
            admits(self@, title@, policy, admission),
    {
        match self.find_title(title.as_str()) {
            None => Admission::Stored { title },
            Some(i) => {
                proof {
                    lemma_title_slot(self@.documents, i as int);
                }
                match policy {
                    DupePolicy::Fail => {
                        let existing_path = self.document(i).path().to_owned();
                        Admission::Refused { title, existing_path }
                    },
                    DupePolicy::Ignore => Admission::Dropped,
                    DupePolicy::Rename => {
                        proof {
                            reveal_strlit("-1");
                            assert("-1"@ =~= seq!['-', '1']);
                        }
                        Admission::Stored { title: title.concat("-1") }
                    },
                    DupePolicy::Replace => Admission::Stored { title },
                }
            },
        }
    }

    /// Adds each term's occurrences to its corpus-wide count.
    fn count(&mut self, occurrences: &TermTable)
        requires
            old(self).wf(),
            occurrences.wf(),
            fits(old(self)@.global_term_count, occurrences@),
        ensures
            final(self).wf(),
            final(self)@ == (StoreView {
                global_term_count: counted(old(self)@.global_term_count, occurrences@),
                documents: old(self)@.documents,
            }),
    {
        let mut i: usize = 0;
        while i < occurrences.len()
            invariant
                i <= occurrences@.len(),
                self.wf(),
                occurrences.wf(),
                old(self).wf(),
                fits(old(self)@.global_term_count, occurrences@),
                self@.documents == old(self)@.documents,
                self@.global_term_count == counted(
                    old(self)@.global_term_count,
                    occurrences@.take(i as int),
                ),
            decreases occurrences@.len() - i,
        {
            let (term, n) = occurrences.entry(i);
            proof {
                let done = occurrences@.take(i as int);
                let next = occurrences@.take(i + 1);
                assert(next.drop_last() =~= done);
                assert(next.last() == occurrences@[i as int]);
                assert forall|j: int| 0 <= j < done.len() implies !overflows_at(
                    old(self)@.global_term_count,
                    done,
                    j,
                ) by {
                    assert(!overflows_at(old(self)@.global_term_count, occurrences@, j));
                }
                lemma_counted(old(self)@.global_term_count, done, term.slot());
                assert(!has_term(done, term.slot())) by {
                    if has_term(done, term.slot()) {
                        let k = slot_of(done, term.slot());
                        assert(occurrences@[k].0 == term.slot());
                    }
                }
                assert(!overflows_at(old(self)@.global_term_count, occurrences@, i as int));
            }
            let held = match self.global_term_count().get(term) {
                Some(c) => c,
                None => 0,
            };
            self.set_global_count(term, held + n);
            i += 1;
        }
        assert(occurrences@.take(i as int) =~= occurrences@);
    }

    /// Submits a document whose term frequencies are known.
    ///
    /// `occurrences` holds, for each distinct term of the document, how
    /// often it occurs. The store afterwards and the result are those of
    /// [`ingested`] and [`reported`]; in particular the store is unchanged
    /// whenever an error is returned.
    pub fn submit(
        &mut self,
        title: String,
        path: String,
        term_frequency: TermTable,
        occurrences: &TermTable,
        policy: DupePolicy,
    ) -> (result: Result<(), IngestError>)
        requires
            old(self).wf(),
            term_frequency.wf(),
            occurrences.wf(),
        ensures
            final(self).wf(),
            final(self)@ == ingested(
                old(self)@,
                DocumentView { title: title@, path: path@, term_frequency: term_frequency@ },
                occurrences@,
                policy,
            ),
            reported(
                old(self)@,
                DocumentView { title: title@, path: path@, term_frequency: term_frequency@ },
                occurrences@,
                policy,
                result,
            ),
            result is Err ==> final(self)@ == old(self)@,
    {
        let title = match self.admission(title, policy) {
            Admission::Refused { title, existing_path } => {
                return Err(
                    IngestError::DuplicateTitle { title, existing_path, submitted_path: path },
                );
            },
            Admission::Dropped => {
                return Ok(());
            },
            Admission::Stored { title } => title,
        };
        if let Some(term) = self.first_overflow(occurrences) {
            return Err(IngestError::CountOverflow { term });
        }
        self.count(occurrences);
        self.put_document(Document::new(title, path, term_frequency));
        Ok(())
    }

    /// Ingests a document given by its title, its path and the occurrence
    /// count of each of its distinct terms.
    ///
    /// The frequency of a term is what `ratio` returns for the term's
    /// occurrence count and the number of distinct terms of the document:
    /// the bit pattern of their quotient as a binary64 number. With these
    /// frequencies the document is handled as by [`TfIdf::submit`].
    pub fn ingest<F: Fn(u64, u64) -> u64>(
        &mut self,
        title: String,
        path: String,
        occurrences: &TermTable,
        policy: DupePolicy,
        ratio: F,
    ) -> (result: Result<(), IngestError>)
        requires
            old(self).wf(),
            occurrences.wf(),
            forall|n: u64, distinct: u64| distinct > 0 ==> ratio.requires((n, distinct)),
        ensures
            final(self).wf(),
            exists|frequency: Seq<(nat, u64)>|
                {
                    &&& #[trigger] frequencies_by(occurrences@, frequency, ratio)
                    &&& final(self)@ == ingested(
                        old(self)@,
                        DocumentView { title: title@, path: path@, term_frequency: frequency },
                        occurrences@,
                        policy,
                    )
                    &&& reported(
                        old(self)@,
                        DocumentView { title: title@, path: path@, term_frequency: frequency },
                        occurrences@,
                        policy,
                        result,
                    )
                },
            result is Err ==> final(self)@ == old(self)@,
    {
        let distinct = occurrences.len() as u64;
        let mut term_frequency = TermTable::new();
        let mut i: usize = 0;
        while i < occurrences.len()
            invariant
                i <= occurrences@.len(),
                occurrences.wf(),
                term_frequency.wf(),
                distinct == occurrences@.len(),
                forall|n: u64, distinct: u64| distinct > 0 ==> ratio.requires((n, distinct)),
                term_frequency@.len() == i,
                forall|k: int|
                    0 <= k < i ==> (#[trigger] term_frequency@[k]).0 == occurrences@[k].0
                        && ratio.ensures((occurrences@[k].1, distinct), term_frequency@[k].1),
            decreases occurrences@.len() - i,
        {
            let (term, n) = occurrences.entry(i);
            let bits = ratio(n, distinct);
            proof {
                assert(!has_term(term_frequency@, term.slot())) by {
                    if has_term(term_frequency@, term.slot()) {
                        let k = slot_of(term_frequency@, term.slot());
                        assert(occurrences@[k].0 == term.slot());
                    }
                }
            }
            term_frequency.set(term, bits);
            i += 1;
        }
        assert(frequencies_by(occurrences@, term_frequency@, ratio));
        self.submit(title, path, term_frequency, occurrences, policy)
    }
}

} // verus!
