//! The document store: the documents by title, each with the frequency of
//! its terms, and the corpus-wide term counts.

use crate::intern::PoolId;
use crate::table::{distinct_terms, lemma_with_value, with_value, TermTable};
use crate::text::same_text;
use vstd::prelude::*;

verus! {

/// What a document holds.
pub struct DocumentView {
    pub title: Seq<char>,
    pub path: Seq<char>,
    /// For each term of the document, the bit pattern of its frequency, a
    /// binary64 number.
    pub term_frequency: Seq<(nat, u64)>,
}

/// What a store holds.
pub struct StoreView {
    /// Occurrences of each term, summed over everything ingested.
    pub global_term_count: Seq<(nat, u64)>,
    pub documents: Seq<DocumentView>,
}

/// Some document has this title.
pub open spec fn has_title(documents: Seq<DocumentView>, title: Seq<char>) -> bool {
    exists|i: int| 0 <= i < documents.len() && (#[trigger] documents[i]).title == title
}

/// Position of a document with this title, where there is one.
pub open spec fn title_slot(documents: Seq<DocumentView>, title: Seq<char>) -> int {
    choose|i: int| 0 <= i < documents.len() && (#[trigger] documents[i]).title == title
}

/// No title is held by two documents.
pub open spec fn distinct_titles(documents: Seq<DocumentView>) -> bool {
    forall|i: int, j: int|
        0 <= i < j < documents.len() ==> documents[i].title != documents[j].title
}

/// The documents after `document` has been stored under its title: it takes
/// the place of the one that had the title, or is added at the end.
pub open spec fn with_document(documents: Seq<DocumentView>, document: DocumentView) -> Seq<
    DocumentView,
> {
    if has_title(documents, document.title) {
        documents.update(title_slot(documents, document.title), document)
    } else {
        documents.push(document)
    }
}

/// Terms are unique within each table and titles within the store.
pub open spec fn well_formed(store: StoreView) -> bool {
    &&& distinct_terms(store.global_term_count)
    &&& distinct_titles(store.documents)
    &&& forall|i: int|
        0 <= i < store.documents.len() ==> distinct_terms(
            (#[trigger] store.documents[i]).term_frequency,
        )
}

/// In a list without repeated titles, the document at `i` is the one found
/// for its title.
pub proof fn lemma_title_slot(documents: Seq<DocumentView>, i: int)
    requires
        distinct_titles(documents),
        0 <= i < documents.len(),
    ensures
        has_title(documents, documents[i].title),
        title_slot(documents, documents[i].title) == i,
{
    let j = title_slot(documents, documents[i].title);
    assert(documents[j].title == documents[i].title);
}

/// Storing a document keeps the titles distinct.
pub proof fn lemma_with_document(documents: Seq<DocumentView>, document: DocumentView)
    requires
        distinct_titles(documents),
    ensures
        distinct_titles(with_document(documents, document)),
        has_title(with_document(documents, document), document.title),
{
    let after = with_document(documents, document);
    if has_title(documents, document.title) {
        let k = title_slot(documents, document.title);
        assert(after[k] == document);
        assert forall|i: int, j: int| 0 <= i < j < after.len() implies after[i].title
            != after[j].title by {
            assert(documents[i].title != documents[j].title);
        }
    } else {
        let k = documents.len() as int;
        assert(after[k] == document);
        assert forall|i: int, j: int| 0 <= i < j < after.len() implies after[i].title
            != after[j].title by {
            if j == k {
                assert(documents[i].title != document.title);
            }
        }
    }
}

/// A document: its title, the path it was read from, and the frequency of
/// each of its terms.
#[derive(Debug)]
pub struct Document {
    title: String,
    path: String,
    term_frequency: TermTable,
}

impl View for Document {
    type V = DocumentView;

    closed spec fn view(&self) -> DocumentView {
        DocumentView {
            title: self.title@,
            path: self.path@,
            term_frequency: self.term_frequency@,
        }
    }
}

impl Document {
    /// Every term has one frequency.
    pub open spec fn wf(&self) -> bool {
        distinct_terms(self@.term_frequency)
    }

    /// A document made of its three parts.
    pub fn new(title: String, path: String, term_frequency: TermTable) -> (document: Document)
        requires
            term_frequency.wf(),
        ensures
            document.wf(),
            document@ == (DocumentView {
                title: title@,
                path: path@,
                term_frequency: term_frequency@,
            }),
    {
        Document { title, path, term_frequency }
    }

    /// Replaces the path.
    pub fn set_path(&mut self, path: String)
        ensures
            final(self)@ == (DocumentView {
                title: old(self)@.title,
                path: path@,
                term_frequency: old(self)@.term_frequency,
            }),
    {
        self.path = path;
    }

    /// Gives `term` the frequency with bit pattern `bits`, whether or not
    /// it had one before.
    pub fn set_frequency(&mut self, term: PoolId, bits: u64)
        requires
            old(self).wf(),
        ensures
            final(self).wf(),
            final(self)@ == (DocumentView {
                title: old(self)@.title,
                path: old(self)@.path,
                term_frequency: with_value(old(self)@.term_frequency, term.slot(), bits),
            }),
    {
        self.term_frequency.set(term, bits);
    }

    /// The title, which is the document's key in a store.
    pub fn title(&self) -> (title: &str)
        ensures
            title@ == self@.title,
    {
        self.title.as_str()
    }

    /// The path that the document was read from.
    pub fn path(&self) -> (path: &str)
        ensures
            path@ == self@.path,
    {
        self.path.as_str()
    }

    /// The frequency of each term, as the bit pattern of a binary64
    /// number.
    pub fn term_frequency(&self) -> (table: &TermTable)
        ensures
            table@ == self@.term_frequency,
    {
        &self.term_frequency
    }
}

/// The store: corpus-wide term counts and the documents by title.
#[derive(Debug)]
pub struct TfIdf {
    global_term_count: TermTable,
    documents: Vec<Document>,
}

impl View for TfIdf {
    type V = StoreView;

    closed spec fn view(&self) -> StoreView {
        StoreView {
            global_term_count: self.global_term_count@,
            documents: Seq::new(self.documents@.len(), |i: int| self.documents@[i]@),
        }
    }
}

impl Default for TfIdf {
    /// A store without documents or counts.
    fn default() -> (store: TfIdf)
        ensures
            store.wf(),
            store@.documents == Seq::<DocumentView>::empty(),
            store@.global_term_count == Seq::<(nat, u64)>::empty(),
    {
        TfIdf::new()
    }
}

impl TfIdf {
    /// Terms are unique within each table and titles within the store.
    pub open spec fn wf(&self) -> bool {
        well_formed(self@)
    }

    /// A store without documents or counts.
    pub fn new() -> (store: TfIdf)
        ensures
            store.wf(),
            store@.documents == Seq::<DocumentView>::empty(),
            store@.global_term_count == Seq::<(nat, u64)>::empty(),
    {
        let store = TfIdf { global_term_count: TermTable::new(), documents: Vec::new() };
        assert(store@.documents =~= Seq::<DocumentView>::empty());
        store
    }

    /// Number of documents.
    pub fn len(&self) -> (n: usize)
        ensures
            n == self@.documents.len(),
    {
        self.documents.len()
    }

    /// The document at position `i`.
    pub fn document(&self, i: usize) -> (document: &Document)
        requires
            i < self@.documents.len(),
        ensures
            document@ == self@.documents[i as int],
    {
        &self.documents[i]
    }

    /// The corpus-wide term counts.
    pub fn global_term_count(&self) -> (table: &TermTable)
        ensures
            table@ == self@.global_term_count,
    {
        &self.global_term_count
    }

    /// Position of the document with this title, if there is one.
    pub fn find_title(&self, title: &str) -> (found: Option<usize>)
        ensures
            found is Some <==> has_title(self@.documents, title@),
            found matches Some(i) ==> i < self@.documents.len() && self@.documents[i as int].title
                == title@,
    {
        let mut i: usize = 0;
        while i < self.documents.len()
            invariant
                i <= self.documents@.len(),
                forall|k: int| 0 <= k < i ==> (#[trigger] self@.documents[k]).title != title@,
            decreases self.documents@.len() - i,
        {
            if same_text(self.documents[i].title(), title) {
                assert(self@.documents[i as int].title == title@);
                return Some(i);
            }
            i += 1;
        }
        None
    }

    /// Maps `term` to `count` in the corpus-wide counts.
    pub fn set_global_count(&mut self, term: PoolId, count: u64)
        requires
            old(self).wf(),
        ensures
            final(self).wf(),
            final(self)@ == (StoreView {
                global_term_count: with_value(old(self)@.global_term_count, term.slot(), count),
                documents: old(self)@.documents,
            }),
    {
        proof {
            lemma_with_value(self@.global_term_count, term.slot(), count);
        }
        self.global_term_count.set(term, count);
        assert(self@.documents =~= old(self)@.documents);
    }

    /// Stores `document` under its title, in place of the one that had the
    /// title if there was one.
    pub fn put_document(&mut self, document: Document)
        requires
            old(self).wf(),
            document.wf(),
        ensures
            final(self).wf(),
            final(self)@ == (StoreView {
                global_term_count: old(self)@.global_term_count,
                documents: with_document(old(self)@.documents, document@),
            }),
    {
        proof {
            lemma_with_document(self@.documents, document@);
        }
        match self.find_title(document.title()) {
            Some(i) => {
                proof {
                    lemma_title_slot(self@.documents, i as int);
                }
                self.documents.set(i, document);
                assert(self@.documents =~= old(self)@.documents.update(i as int, document@));
            },
            None => {
                self.documents.push(document);
                assert(self@.documents =~= old(self)@.documents.push(document@));
            },
        }
        proof {
            let after = self@.documents;
            assert forall|i: int| 0 <= i < after.len() implies distinct_terms(
                (#[trigger] after[i]).term_frequency,
            ) by {
                if after[i] != document@ {
                    assert(after[i] == old(self)@.documents[i]);
                }
            }
        }
    }
}

} // verus!
