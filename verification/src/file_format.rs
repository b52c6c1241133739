//! The snapshot format: a flat sequence of tagged records.
//!
//! | tag | fields after the tag                          |
//! |-----|-----------------------------------------------|
//! | 1   | length (2 bytes), count (8 bytes), text       |
//! | 2   | length (2 bytes), text: a document's title    |
//! | 3   | length (2 bytes), text: a document's path     |
//! | 4   | length (2 bytes), frequency (8 bytes), text   |
//!
//! Numbers are little-endian, texts are UTF-8 and `length` counts their
//! bytes. Records with tag 3 or 4 belong to the document that the last
//! record with tag 2 before them opened.

use crate::intern::{extends, get_str, handle_of, intern, interned, StringPool};
use crate::store::{with_document, Document, DocumentView, StoreView, TfIdf};
use crate::table::{with_value, TermTable};
use crate::wire::{get_u16, get_u64, le_bytes, le_value, put_u16, put_u64};
use vstd::prelude::*;
use vstd::slice::{slice_subrange, slice_to_vec};
use vstd::utf8::{decode_utf8, encode_utf8, valid_utf8};

verus! {

/// What a record of a snapshot holds.
pub enum RecordView {
    /// The corpus-wide count of a term.
    GlobalTerm { text: Seq<char>, count: u64 },
    /// Opens a document with this title.
    DocTitle { text: Seq<char> },
    /// The path of the open document.
    DocPath { text: Seq<char> },
    /// The frequency of a term in the open document.
    DocTerm { text: Seq<char>, frequency: u64 },
}

/// Why a snapshot could not be loaded.
#[derive(Clone, Copy, Debug, PartialEq, Eq, Structural)]
pub enum DecodeError {
    /// The record that starts at `index` is cut short, holds a text that
    /// is not UTF-8, or belongs to a document while none is open.
    CorruptedStream { index: usize },
    /// The record that starts at `index` has a tag that is none of 1 to 4.
    UnknownRecordTag { tag: u8, index: usize },
}

/// Why a store could not be written as a snapshot.
#[derive(Clone, Copy, Debug, PartialEq, Eq, Structural)]
pub enum EncodeError {
    /// A title, a path or a term is longer than 65535 bytes.
    FieldTooLong,
}

/// One record of a snapshot, as it is read or written.
#[derive(Debug)]
pub enum Record {
    /// The corpus-wide count of a term.
    GlobalTerm { text: String, count: u64 },
    /// Opens a document with this title.
    DocTitle { text: String },
    /// The path of the open document.
    DocPath { text: String },
    /// The frequency of a term in the open document.
    DocTerm { text: String, frequency: u64 },
}

impl View for Record {
    type V = RecordView;

    open spec fn view(&self) -> RecordView {
        match self {
            Record::GlobalTerm { text, count } => RecordView::GlobalTerm {
                text: text@,
                count: *count,
            },
            Record::DocTitle { text } => RecordView::DocTitle { text: text@ },
            Record::DocPath { text } => RecordView::DocPath { text: text@ },
            Record::DocTerm { text, frequency } => RecordView::DocTerm {
                text: text@,
                frequency: *frequency,
            },
        }
    }
}

/// The text that a record carries.
pub open spec fn text_of(record: RecordView) -> Seq<char> {
    match record {
        RecordView::GlobalTerm { text, .. } => text,
        RecordView::DocTitle { text } => text,
        RecordView::DocPath { text } => text,
        RecordView::DocTerm { text, .. } => text,
    }
}

/// The record's text fits the 16-bit length field.
pub open spec fn encodable(record: RecordView) -> bool {
    encode_utf8(text_of(record)).len() <= 0xFFFF
}

/// Every record's text fits the 16-bit length field.
pub open spec fn all_encodable(records: Seq<RecordView>) -> bool {
    forall|i: int| 0 <= i < records.len() ==> encodable(#[trigger] records[i])
}

/// The bytes of one record.
pub open spec fn encode_record(record: RecordView) -> Seq<u8> {
    let text = encode_utf8(text_of(record));
    let length = le_bytes(text.len(), 2);
    match record {
        RecordView::GlobalTerm { count, .. } => seq![1u8] + length + le_bytes(count as nat, 8)
            + text,
        RecordView::DocTitle { .. } => seq![2u8] + length + text,
        RecordView::DocPath { .. } => seq![3u8] + length + text,
        RecordView::DocTerm { frequency, .. } => seq![4u8] + length + le_bytes(frequency as nat, 8)
            + text,
    }
}

/// The bytes of a sequence of records, one after the other.
pub open spec fn encode_records(records: Seq<RecordView>) -> Seq<u8>
    decreases records.len(),
{
    if records.len() == 0 {
        Seq::empty()
    } else {
        encode_records(records.drop_last()) + encode_record(records.last())
    }
}

/// A table with each term given by its text.
pub open spec fn texts(entries: Seq<(nat, u64)>, pool: Seq<Seq<char>>) -> Seq<(Seq<char>, u64)> {
    Seq::new(entries.len(), |i: int| (pool[entries[i].0 as int], entries[i].1))
}

/// A document with each term given by its text.
pub struct DocumentText {
    pub title: Seq<char>,
    pub path: Seq<char>,
    pub term_frequency: Seq<(Seq<char>, u64)>,
}

/// A store with each term given by its text, which is what a snapshot
/// holds: handles are never written.
pub struct StoreText {
    pub global_term_count: Seq<(Seq<char>, u64)>,
    pub documents: Seq<DocumentText>,
}

/// The document with each term resolved in `pool`.
pub open spec fn document_text(document: DocumentView, pool: Seq<Seq<char>>) -> DocumentText {
    DocumentText {
        title: document.title,
        path: document.path,
        term_frequency: texts(document.term_frequency, pool),
    }
}

/// The store with each term resolved in `pool`.
pub open spec fn store_text(store: StoreView, pool: Seq<Seq<char>>) -> StoreText {
    StoreText {
        global_term_count: texts(store.global_term_count, pool),
        documents: Seq::new(
            store.documents.len(),
            |i: int| document_text(store.documents[i], pool),
        ),
    }
}

/// Every term of the table is a handle of the pool.
pub open spec fn table_resolves(entries: Seq<(nat, u64)>, pool: Seq<Seq<char>>) -> bool {
    forall|i: int| 0 <= i < entries.len() ==> (#[trigger] entries[i]).0 < pool.len()
}

/// Every term of the store is a handle of the pool.
pub open spec fn resolves(store: StoreView, pool: Seq<Seq<char>>) -> bool {
    &&& table_resolves(store.global_term_count, pool)
    &&& forall|i: int|
        0 <= i < store.documents.len() ==> table_resolves(
            (#[trigger] store.documents[i]).term_frequency,
            pool,
        )
}

/// One record with tag 1 for each corpus-wide count.
pub open spec fn global_records(counts: Seq<(Seq<char>, u64)>) -> Seq<RecordView> {
    Seq::new(
        counts.len(),
        |i: int| RecordView::GlobalTerm { text: counts[i].0, count: counts[i].1 },
    )
}

/// One record with tag 4 for each term of a document.
pub open spec fn term_records(frequencies: Seq<(Seq<char>, u64)>) -> Seq<RecordView> {
    Seq::new(
        frequencies.len(),
        |i: int| RecordView::DocTerm { text: frequencies[i].0, frequency: frequencies[i].1 },
    )
}

/// The records of one document: its title, its path, then its terms.
pub open spec fn document_records(document: DocumentText) -> Seq<RecordView> {
    seq![RecordView::DocTitle { text: document.title }, RecordView::DocPath { text: document.path }]
        + term_records(document.term_frequency)
}

/// The records of the documents, one document after the other.
pub open spec fn documents_records(documents: Seq<DocumentText>) -> Seq<RecordView>
    decreases documents.len(),
{
    if documents.len() == 0 {
        Seq::empty()
    } else {
        documents_records(documents.drop_last()) + document_records(documents.last())
    }
}

/// The records of a snapshot: the corpus-wide counts, then the documents.
pub open spec fn snapshot(store: StoreText) -> Seq<RecordView> {
    global_records(store.global_term_count) + documents_records(store.documents)
}

/// The bytes of two runs of records are those of the first followed by
/// those of the second.
pub proof fn lemma_encode_records_concat(first: Seq<RecordView>, second: Seq<RecordView>)
    ensures
        encode_records(first + second) == encode_records(first) + encode_records(second),
    decreases second.len(),
{
    if second.len() == 0 {
        assert(first + second =~= first);
        assert(encode_records(first) + encode_records(second) =~= encode_records(first));
    } else {
        assert((first + second).drop_last() =~= first + second.drop_last());
        lemma_encode_records_concat(first, second.drop_last());
        assert(encode_records(first + second) =~= encode_records(first) + encode_records(second));
    }
}

/// The record with this tag, value and text.
spec fn record_with(tag: u8, value: u64, text: Seq<char>) -> RecordView {
    if tag == 1 {
        RecordView::GlobalTerm { text, count: value }
    } else if tag == 2 {
        RecordView::DocTitle { text }
    } else if tag == 3 {
        RecordView::DocPath { text }
    } else {
        RecordView::DocTerm { text, frequency: value }
    }
}

/// The records of a table under tag 1 or tag 4.
spec fn table_records(tag: u8, entries: Seq<(Seq<char>, u64)>) -> Seq<RecordView> {
    Seq::new(entries.len(), |i: int| record_with(tag, entries[i].1, entries[i].0))
}

/// The tag is one of the four that the format defines.
pub open spec fn known_tag(tag: u8) -> bool {
    1 <= tag <= 4
}

/// Number of bytes before the text in a record with this tag.
pub open spec fn header_len(tag: u8) -> int {
    if tag == 1 || tag == 4 {
        11
    } else {
        3
    }
}

/// Number of bytes of the record that starts `bytes`, by its length field.
pub open spec fn record_len(bytes: Seq<u8>) -> int {
    header_len(bytes[0]) + le_value(bytes.subrange(1, 3))
}

/// The text bytes of the record that starts `bytes`.
pub open spec fn text_bytes(bytes: Seq<u8>) -> Seq<u8> {
    bytes.subrange(header_len(bytes[0]), record_len(bytes))
}

/// `bytes` starts with a whole record of a known tag whose text is UTF-8.
pub open spec fn framed(bytes: Seq<u8>) -> bool {
    &&& bytes.len() >= 1
    &&& known_tag(bytes[0])
    &&& bytes.len() >= header_len(bytes[0])
    &&& bytes.len() >= record_len(bytes)
    &&& valid_utf8(text_bytes(bytes))
}

/// The record that starts `bytes`.
pub open spec fn first_record(bytes: Seq<u8>) -> RecordView {
    let text = decode_utf8(text_bytes(bytes));
    let value = le_value(bytes.subrange(3, 11)) as u64;
    if bytes[0] == 1 {
        RecordView::GlobalTerm { text, count: value }
    } else if bytes[0] == 2 {
        RecordView::DocTitle { text }
    } else if bytes[0] == 3 {
        RecordView::DocPath { text }
    } else {
        RecordView::DocTerm { text, frequency: value }
    }
}

/// State of a load between two records.
pub struct Loading {
    /// The pool, with every term read so far interned.
    pub pool: Seq<Seq<char>>,
    /// The counts read so far and the documents that are complete.
    pub store: StoreView,
    /// The document that the last title record opened.
    pub open: Option<DocumentView>,
}

/// The state in which a load starts.
pub open spec fn start(pool: Seq<Seq<char>>) -> Loading {
    Loading {
        pool,
        store: StoreView { global_term_count: Seq::empty(), documents: Seq::empty() },
        open: None,
    }
}

/// The store once the open document, if any, has been stored too.
pub open spec fn finished(state: Loading) -> StoreView {
    match state.open {
        None => state.store,
        Some(document) => StoreView {
            global_term_count: state.store.global_term_count,
            documents: with_document(state.store.documents, document),
        },
    }
}

/// The state after one more record, or `None` where the record belongs to
/// a document and none is open.
pub open spec fn after_record(state: Loading, record: RecordView) -> Option<Loading> {
    match record {
        RecordView::GlobalTerm { text, count } => Some(
            Loading {
                pool: interned(state.pool, text),
                store: StoreView {
                    global_term_count: with_value(
                        state.store.global_term_count,
                        handle_of(state.pool, text),
                        count,
                    ),
                    documents: state.store.documents,
                },
                open: state.open,
            },
        ),
        RecordView::DocTitle { text } => Some(
            Loading {
                pool: state.pool,
                store: finished(state),
                open: Some(
                    DocumentView { title: text, path: Seq::empty(), term_frequency: Seq::empty() },
                ),
            },
        ),
        RecordView::DocPath { text } => match state.open {
            None => None,
            Some(document) => Some(
                Loading {
                    pool: state.pool,
                    store: state.store,
                    open: Some(
                        DocumentView {
                            title: document.title,
                            path: text,
                            term_frequency: document.term_frequency,
                        },
                    ),
                },
            ),
        },
        RecordView::DocTerm { text, frequency } => match state.open {
            None => None,
            Some(document) => Some(
                Loading {
                    pool: interned(state.pool, text),
                    store: state.store,
                    open: Some(
                        DocumentView {
                            title: document.title,
                            path: document.path,
                            term_frequency: with_value(
                                document.term_frequency,
                                handle_of(state.pool, text),
                                frequency,
                            ),
                        },
                    ),
                },
            ),
        },
    }
}

/// What reading the record at the start of `bytes`, which stand at offset
/// `at` of the snapshot, yields: the record and the offset of the next one,
/// or the error.
pub open spec fn read_result(bytes: Seq<u8>, at: int) -> Result<(RecordView, int), DecodeError> {
    if !known_tag(bytes[0]) {
        Err(DecodeError::UnknownRecordTag { tag: bytes[0], index: at as usize })
    } else if !framed(bytes) {
        Err(DecodeError::CorruptedStream { index: at as usize })
    } else {
        Ok((first_record(bytes), at + record_len(bytes)))
    }
}

/// Loads the records in `bytes`, which stand at offset `base` of the
/// snapshot, into `state`. The first record that cannot be read or taken
/// ends the load with its error.
pub open spec fn load(bytes: Seq<u8>, base: int, state: Loading) -> Result<Loading, DecodeError>
    decreases bytes.len(),
{
    if bytes.len() == 0 {
        Ok(state)
    } else {
        match read_result(bytes, base) {
            Err(error) => Err(error),
            Ok((record, next)) => match after_record(state, record) {
                None => Err(DecodeError::CorruptedStream { index: base as usize }),
                Some(taken) => load(bytes.skip(next - base), next, taken),
            },
        }
    }
}

/// What loading a whole snapshot with the given pool yields: the store and
/// the pool afterwards, or the error of the first record that cannot be
/// taken. A document that is open when the bytes end is stored.
pub open spec fn decoded(bytes: Seq<u8>, pool: Seq<Seq<char>>) -> Result<
    (StoreView, Seq<Seq<char>>),
    DecodeError,
> {
    match load(bytes, 0, start(pool)) {
        Ok(state) => Ok((finished(state), state.pool)),
        Err(error) => Err(error),
    }
}

/// The text that `bytes` encode, if they are UTF-8.
///
/// Wraps `String::from_utf8`, which succeeds exactly on valid UTF-8 and
/// then holds the decoded characters.
#[verifier::external_body]
fn text_from_utf8(bytes: Vec<u8>) -> (text: Option<String>)
    ensures
        text is Some <==> valid_utf8(bytes@),
        text matches Some(s) ==> s@ == decode_utf8(bytes@),
{
    match String::from_utf8(bytes) {
        Ok(s) => Some(s),
        Err(_) => None,
    }
}

/// The view of the open document, if any.
spec fn open_view(open: Option<Document>) -> Option<DocumentView> {
    match open {
        None => None,
        Some(document) => Some(document@),
    }
}

impl Record {
    /// Reads the record that starts at offset `at` of `b`.
    pub fn read(b: &[u8], at: usize) -> (result: Result<(Record, usize), DecodeError>)
        requires
            at < b@.len(),
        ensures
            match read_result(b@.skip(at as int), at as int) {
                Ok((record, next)) => result matches Ok((read, after)) && read@ == record && after
                    == next,
                Err(error) => result matches Err(e) && e == error,
            },
    {
        let ghost rest = b@.skip(at as int);
        let tag = b[at];
        assert(rest[0] == tag);
        if tag < 1 || tag > 4 {
            return Err(DecodeError::UnknownRecordTag { tag, index: at });
        }
        let header: usize = if tag == 1 || tag == 4 {
            11
        } else {
            3
        };
        if b.len() - at < header {
            return Err(DecodeError::CorruptedStream { index: at });
        }
        let length = get_u16(b, at + 1) as usize;
        assert(b@.subrange(at + 1, at + 3) =~= rest.subrange(1, 3));
        if b.len() - at - header < length {
            return Err(DecodeError::CorruptedStream { index: at });
        }
        let value: u64 = if header == 11 {
            assert(b@.subrange(at + 3, at + 11) =~= rest.subrange(3, 11));
            get_u64(b, at + 3)
        } else {
            0
        };
        let raw = slice_to_vec(slice_subrange(b, at + header, at + header + length));
        assert(raw@ =~= text_bytes(rest));
        let text = match text_from_utf8(raw) {
            Some(text) => text,
            None => {
                return Err(DecodeError::CorruptedStream { index: at });
            },
        };
        assert(framed(rest));
        let record = if tag == 1 {
            Record::GlobalTerm { text, count: value }
        } else if tag == 2 {
            Record::DocTitle { text }
        } else if tag == 3 {
            Record::DocPath { text }
        } else {
            Record::DocTerm { text, frequency: value }
        };
        Ok((record, at + header + length))
    }

    /// Appends the bytes of the record to `out`, unless its text is longer
    /// than 65535 bytes.
    pub fn write(&self, out: &mut Vec<u8>) -> (result: Result<(), EncodeError>)
        ensures
            result is Ok <==> encodable(self@),
            result is Ok ==> final(out)@ == old(out)@ + encode_record(self@),
            result is Err ==> final(out)@ == old(out)@,
    {
        match self {
            Record::GlobalTerm { text, count } => put_record(out, 1, *count, text.as_str()),
            Record::DocTitle { text } => put_record(out, 2, 0, text.as_str()),
            Record::DocPath { text } => put_record(out, 3, 0, text.as_str()),
            Record::DocTerm { text, frequency } => put_record(out, 4, *frequency, text.as_str()),
        }
    }
}

impl TfIdf {
    /// Loads a store from a snapshot, interning its terms in `pool`.
    ///
    /// The result is that of [`decoded`]: on success the store and the
    /// pool are the ones it gives; on failure no store is returned.
    pub fn deserialize(b: &[u8], pool: &mut StringPool) -> (result: Result<TfIdf, DecodeError>)
        requires
            old(pool).wf(),
        ensures
            final(pool).wf(),
            extends(final(pool)@, old(pool)@),
            match decoded(b@, old(pool)@) {
                Ok((store, grown)) => result matches Ok(loaded) && loaded@ == store && loaded.wf()
                    && final(pool)@ == grown,
                Err(error) => result matches Err(e) && e == error,
            },
    {
        let mut store = TfIdf::new();
        let mut open: Option<Document> = None;
        let mut i: usize = 0;
        proof {
            assert(b@.skip(0) =~= b@);
            assert(store@ == start(pool@).store);
        }
        while i < b.len()
            invariant
                i <= b@.len(),
                pool.wf(),
                extends(pool@, old(pool)@),
                store.wf(),
                open matches Some(document) ==> document.wf(),
                load(b@, 0, start(old(pool)@)) == load(
                    b@.skip(i as int),
                    i as int,
                    Loading { pool: pool@, store: store@, open: open_view(open) },
                ),
            decreases b@.len() - i,
        {
            let ghost rest = b@.skip(i as int);
            let ghost state = Loading { pool: pool@, store: store@, open: open_view(open) };
            let (record, next) = match Record::read(b, i) {
                Ok(read) => read,
                Err(error) => {
                    return Err(error);
                },
            };
            match record {
                Record::GlobalTerm { text, count } => {
                    let id = intern(pool, text.as_str());
                    store.set_global_count(id, count);
                },
                Record::DocTitle { text } => {
                    if let Some(document) = open {
                        store.put_document(document);
                    }
                    open = Some(Document::new(text, String::new(), TermTable::new()));
                },
                Record::DocPath { text } => match open {
                    None => {
                        return Err(DecodeError::CorruptedStream { index: i });
                    },
                    Some(mut document) => {
                        document.set_path(text);
                        open = Some(document);
                    },
                },
                Record::DocTerm { text, frequency } => match open {
                    None => {
                        return Err(DecodeError::CorruptedStream { index: i });
                    },
                    Some(mut document) => {
                        let id = intern(pool, text.as_str());
                        document.set_frequency(id, frequency);
                        open = Some(document);
                    },
                },
            }
            assert(after_record(state, first_record(rest)) == Some(
                Loading { pool: pool@, store: store@, open: open_view(open) },
            ));
            assert(rest.skip(record_len(rest)) =~= b@.skip(next as int));
            i = next;
        }
        if let Some(document) = open {
            store.put_document(document);
        }
        Ok(store)
    }
}

/// Appends `bytes` to `out`.
fn put_bytes(out: &mut Vec<u8>, bytes: &[u8])
    ensures
        final(out)@ == old(out)@ + bytes@,
{
    let mut k: usize = 0;
    while k < bytes.len()
        invariant
            k <= bytes@.len(),
            out@ == old(out)@ + bytes@.take(k as int),
        decreases bytes@.len() - k,
    {
        out.push(bytes[k]);
        assert(out@ =~= old(out)@ + bytes@.take(k + 1));
        k += 1;
    }
    assert(bytes@.take(k as int) =~= bytes@);
}

/// Appends the record with this tag, value and text, unless the text is
/// too long for the length field.
fn put_record(out: &mut Vec<u8>, tag: u8, value: u64, text: &str) -> (result: Result<
    (),
    EncodeError,
>)
    requires
        known_tag(tag),
    ensures
        result is Ok <==> encodable(record_with(tag, value, text@)),
        result is Ok ==> final(out)@ == old(out)@ + encode_record(record_with(tag, value, text@)),
        result is Err ==> final(out)@ == old(out)@,
{
    let bytes = text.as_bytes();
    if bytes.len() > 0xFFFF {
        return Err(EncodeError::FieldTooLong);
    }
    out.push(tag);
    put_u16(out, bytes.len() as u16);
    if tag == 1 || tag == 4 {
        put_u64(out, value);
    }
    put_bytes(out, bytes);
    assert(out@ =~= old(out)@ + encode_record(record_with(tag, value, text@)));
    Ok(())
}

/// Appends one record for each entry of `table`, under tag 1 or tag 4.
fn put_table(out: &mut Vec<u8>, tag: u8, table: &TermTable, pool: &StringPool) -> (result: Result<
    (),
    EncodeError,
>)
    requires
        tag == 1 || tag == 4,
        table_resolves(table@, pool@),
    ensures
        result is Ok <==> all_encodable(table_records(tag, texts(table@, pool@))),
        result is Ok ==> final(out)@ == old(out)@ + encode_records(
            table_records(tag, texts(table@, pool@)),
        ),
{
    let ghost records = table_records(tag, texts(table@, pool@));
    let mut k: usize = 0;
    while k < table.len()
        invariant
            k <= table@.len(),
            tag == 1 || tag == 4,
            table_resolves(table@, pool@),
            records == table_records(tag, texts(table@, pool@)),
            all_encodable(records.take(k as int)),
            out@ == old(out)@ + encode_records(records.take(k as int)),
        decreases table@.len() - k,
    {
        let (term, value) = table.entry(k);
        assert(table@[k as int].0 < pool@.len());
        let text = get_str(pool, term);
        assert(records[k as int] == record_with(tag, value, text@));
        assert(records.take(k + 1).drop_last() =~= records.take(k as int));
        match put_record(out, tag, value, text) {
            Ok(()) => {},
            Err(error) => {
                return Err(error);
            },
        }
        assert(out@ =~= old(out)@ + encode_records(records.take(k + 1)));
        k += 1;
    }
    assert(records.take(k as int) =~= records);
    Ok(())
}

/// Whether every term of `table` is a handle of `pool`.
fn table_resolved_by(table: &TermTable, pool: &StringPool) -> (yes: bool)
    ensures
        yes == table_resolves(table@, pool@),
{
    let mut k: usize = 0;
    while k < table.len()
        invariant
            k <= table@.len(),
            forall|i: int| 0 <= i < k ==> (#[trigger] table@[i]).0 < pool@.len(),
        decreases table@.len() - k,
    {
        if table.entry(k).0.index() >= pool.len() {
            assert(!(table@[k as int].0 < pool@.len()));
            return false;
        }
        k += 1;
    }
    true
}

impl TfIdf {
    /// Whether every term of the store is a handle of `pool`, which is
    /// what writing the store with that pool asks for.
    pub fn resolved_by(&self, pool: &StringPool) -> (yes: bool)
        ensures
            yes == resolves(self@, pool@),
    {
        if !table_resolved_by(self.global_term_count(), pool) {
            return false;
        }
        let mut k: usize = 0;
        while k < self.len()
            invariant
                k <= self@.documents.len(),
                table_resolves(self@.global_term_count, pool@),
                forall|i: int|
                    0 <= i < k ==> table_resolves(
                        (#[trigger] self@.documents[i]).term_frequency,
                        pool@,
                    ),
            decreases self@.documents.len() - k,
        {
            if !table_resolved_by(self.document(k).term_frequency(), pool) {
                assert(!table_resolves(self@.documents[k as int].term_frequency, pool@));
                return false;
            }
            k += 1;
        }
        true
    }

    /// Writes the store as a snapshot, with each term resolved in `pool`.
    ///
    /// The bytes are those of the records of [`snapshot`], in that order.
    /// Writing fails exactly when a title, a path or a term is longer than
    /// 65535 bytes.
    pub fn serialize(&self, pool: &StringPool) -> (result: Result<Vec<u8>, EncodeError>)
        requires
            resolves(self@, pool@),
        ensures
            result is Ok <==> all_encodable(snapshot(store_text(self@, pool@))),
            result matches Ok(bytes) ==> bytes@ == encode_records(
                snapshot(store_text(self@, pool@)),
            ),
    {
        let ghost whole = store_text(self@, pool@);
        let ghost counts = global_records(whole.global_term_count);
        let mut out: Vec<u8> = Vec::new();
        assert(counts =~= table_records(1, whole.global_term_count));
        match put_table(&mut out, 1, self.global_term_count(), pool) {
            Ok(()) => {},
            Err(error) => {
                assert(!encodable(snapshot(whole)[first_unencodable(counts)])) by {
                    lemma_first_unencodable(counts);
                }
                return Err(error);
            },
        }
        assert(out@ =~= encode_records(counts));
        let mut k: usize = 0;
        proof {
            assert(whole.documents.take(0) =~= Seq::<DocumentText>::empty());
            assert(counts + documents_records(whole.documents.take(0)) =~= counts);
        }
        while k < self.len()
            invariant
                k <= self@.documents.len(),
                resolves(self@, pool@),
                whole == store_text(self@, pool@),
                counts == global_records(whole.global_term_count),
                all_encodable(counts + documents_records(whole.documents.take(k as int))),
                out@ == encode_records(counts + documents_records(whole.documents.take(k as int))),
            decreases self@.documents.len() - k,
        {
            let document = self.document(k);
            let ghost done = counts + documents_records(whole.documents.take(k as int));
            let ghost text = whole.documents[k as int];
            let ghost head = seq![
                RecordView::DocTitle { text: text.title },
                RecordView::DocPath { text: text.path },
            ];
            let ghost terms = term_records(text.term_frequency);
            proof {
                assert(whole.documents.take(k + 1).drop_last() =~= whole.documents.take(k as int));
                assert(whole.documents.take(k + 1).last() == text);
                assert(counts + documents_records(whole.documents.take(k + 1)) =~= done + (head
                    + terms));
                assert(terms =~= table_records(4, text.term_frequency));
                assert(head =~= Seq::<RecordView>::empty().push(head[0]).push(head[1]));
                assert(head.drop_last() =~= Seq::<RecordView>::empty().push(head[0]));
                assert(head.drop_last().drop_last() =~= Seq::<RecordView>::empty());
                assert(encode_records(head) =~= encode_record(head[0]) + encode_record(head[1]))
                    by {
                    reveal_with_fuel(encode_records, 3);
                }
                lemma_encode_records_concat(done, head + terms);
                lemma_encode_records_concat(head, terms);
                assert(table_resolves(self@.documents[k as int].term_frequency, pool@));
            }
            let ghost before = out@;
            match put_record(&mut out, 2, 0, document.title()) {
                Ok(()) => {},
                Err(error) => {
                    assert(!encodable((done + (head + terms))[done.len() as int]));
                    assert(!all_encodable(snapshot(whole))) by {
                        lemma_documents_records_prefix(whole.documents, k + 1);
                        lemma_not_encodable_prefix(
                            counts + documents_records(whole.documents.take(k + 1)),
                            snapshot(whole),
                            done.len() as int,
                        );
                    }
                    return Err(error);
                },
            }
            match put_record(&mut out, 3, 0, document.path()) {
                Ok(()) => {},
                Err(error) => {
                    assert(!encodable((done + (head + terms))[done.len() as int + 1]));
                    assert(!all_encodable(snapshot(whole))) by {
                        lemma_documents_records_prefix(whole.documents, k + 1);
                        lemma_not_encodable_prefix(
                            counts + documents_records(whole.documents.take(k + 1)),
                            snapshot(whole),
                            done.len() as int + 1,
                        );
                    }
                    return Err(error);
                },
            }
            match put_table(&mut out, 4, document.term_frequency(), pool) {
                Ok(()) => {},
                Err(error) => {
                    let ghost j = first_unencodable(terms);
                    assert(!encodable((done + (head + terms))[done.len() + 2 + j])) by {
                        lemma_first_unencodable(terms);
                    }
                    assert(!all_encodable(snapshot(whole))) by {
                        lemma_first_unencodable(terms);
                        lemma_documents_records_prefix(whole.documents, k + 1);
                        lemma_not_encodable_prefix(
                            counts + documents_records(whole.documents.take(k + 1)),
                            snapshot(whole),
                            done.len() + 2 + j,
                        );
                    }
                    return Err(error);
                },
            }
            assert(out@ =~= before + (encode_record(head[0]) + encode_record(head[1]))
                + encode_records(terms));
            assert(out@ =~= encode_records(done + (head + terms)));
            assert(all_encodable(done + (head + terms))) by {
                assert forall|i: int| 0 <= i < (done + (head + terms)).len() implies encodable(
                    #[trigger] (done + (head + terms))[i],
                ) by {
                    if i < done.len() {
                        assert((done + (head + terms))[i] == done[i]);
                    } else if i < done.len() + 2 {
                        assert((done + (head + terms))[i] == head[i - done.len()]);
                    } else {
                        assert((done + (head + terms))[i] == terms[i - done.len() - 2]);
                    }
                }
            }
            k += 1;
        }
        assert(whole.documents.take(k as int) =~= whole.documents);
        Ok(out)
    }
}

/// Position of a record whose text does not fit, where there is one.
spec fn first_unencodable(records: Seq<RecordView>) -> int {
    choose|i: int| 0 <= i < records.len() && !encodable(#[trigger] records[i])
}

proof fn lemma_first_unencodable(records: Seq<RecordView>)
    requires
        !all_encodable(records),
    ensures
        0 <= first_unencodable(records) < records.len(),
        !encodable(records[first_unencodable(records)]),
{
}

/// The records of the first `k` documents start the records of them all.
proof fn lemma_documents_records_prefix(documents: Seq<DocumentText>, k: int)
    requires
        0 <= k <= documents.len(),
    ensures
        documents_records(documents.take(k)).len() <= documents_records(documents).len(),
        forall|i: int|
            0 <= i < documents_records(documents.take(k)).len() ==> documents_records(
                documents.take(k),
            )[i] == documents_records(documents)[i],
    decreases documents.len() - k,
{
    if k == documents.len() {
        assert(documents.take(k) =~= documents);
    } else {
        lemma_documents_records_prefix(documents, k + 1);
        assert(documents.take(k + 1).drop_last() =~= documents.take(k));
    }
}

/// A record that does not fit in a run of records that starts a snapshot
/// does not fit in the snapshot.
proof fn lemma_not_encodable_prefix(prefix: Seq<RecordView>, whole: Seq<RecordView>, i: int)
    requires
        0 <= i < prefix.len(),
        !encodable(prefix[i]),
        prefix.len() <= whole.len(),
        forall|j: int| 0 <= j < prefix.len() ==> prefix[j] == whole[j],
    ensures
        !all_encodable(whole),
{
    assert(!encodable(whole[i]));
}

} // verus!
