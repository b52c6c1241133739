//! Laws of the snapshot format: what is written is read back, and an
//! unknown tag ends a load.

use crate::file_format::{
    after_record, all_encodable, decoded, document_text, documents_records, encodable,
    encode_record, encode_records, finished, first_record, framed, global_records, known_tag, load,
    record_len, resolves, snapshot, start, store_text, table_resolves, term_records, text_bytes,
    text_of, texts, DecodeError, DocumentText, Loading, RecordView, StoreText,
};
use crate::intern::{distinct_texts, extends, handle_of, interned, law_intern_idempotent};
use crate::store::{
    distinct_titles, has_title, lemma_with_document, well_formed, DocumentView, StoreView,
};
use crate::table::{distinct_terms, has_term, lemma_with_value, slot_of, with_value};
use crate::wire::{le_bytes, lemma_le_bytes_len, lemma_le_round_trip, lemma_spans};
use vstd::prelude::*;
use vstd::utf8::{encode_utf8, encode_utf8_decode_utf8, encode_utf8_valid_utf8};

verus! {

/// The bytes of a record that fits, whatever follows them, are framed as
/// that record.
pub proof fn lemma_first_record(record: RecordView, rest: Seq<u8>)
    requires
        encodable(record),
    ensures
        known_tag((encode_record(record) + rest)[0]),
        framed(encode_record(record) + rest),
        first_record(encode_record(record) + rest) == record,
        record_len(encode_record(record) + rest) == encode_record(record).len(),
        (encode_record(record) + rest).skip(encode_record(record).len() as int) == rest,
{
    let text = encode_utf8(text_of(record));
    let length = le_bytes(text.len(), 2);
    let own = encode_record(record);
    let bytes = own + rest;
    lemma_le_bytes_len(text.len(), 2);
    lemma_spans();
    lemma_le_round_trip(text.len(), 2);
    encode_utf8_valid_utf8(text_of(record));
    encode_utf8_decode_utf8(text_of(record));
    assert(bytes.subrange(1, 3) =~= length);
    match record {
        RecordView::GlobalTerm { count, .. } => {
            lemma_le_bytes_len(count as nat, 8);
            lemma_le_round_trip(count as nat, 8);
            assert(bytes.subrange(3, 11) =~= le_bytes(count as nat, 8));
            assert(text_bytes(bytes) =~= text);
        },
        RecordView::DocTitle { .. } => {
            assert(text_bytes(bytes) =~= text);
        },
        RecordView::DocPath { .. } => {
            assert(text_bytes(bytes) =~= text);
        },
        RecordView::DocTerm { frequency, .. } => {
            lemma_le_bytes_len(frequency as nat, 8);
            lemma_le_round_trip(frequency as nat, 8);
            assert(bytes.subrange(3, 11) =~= le_bytes(frequency as nat, 8));
            assert(text_bytes(bytes) =~= text);
        },
    }
    assert(bytes.skip(own.len() as int) =~= rest);
}

/// Bytes that load without error load the same way when more bytes follow
/// them, and the load then goes on with what follows.
pub proof fn lemma_load_append(head: Seq<u8>, tail: Seq<u8>, base: int, state: Loading)
    requires
        load(head, base, state) is Ok,
    ensures
        load(head + tail, base, state) == load(
            tail,
            base + head.len(),
            load(head, base, state)->Ok_0,
        ),
    decreases head.len(),
{
    if head.len() == 0 {
        assert(head + tail =~= tail);
    } else {
        let bytes = head + tail;
        let n = record_len(head);
        assert(bytes[0] == head[0]);
        assert(bytes.subrange(1, 3) =~= head.subrange(1, 3));
        assert(text_bytes(bytes) =~= text_bytes(head));
        if head[0] == 1 || head[0] == 4 {
            assert(bytes.subrange(3, 11) =~= head.subrange(3, 11));
        }
        assert(first_record(bytes) == first_record(head));
        let next = after_record(state, first_record(head))->Some_0;
        assert(bytes.skip(n) =~= head.skip(n) + tail);
        lemma_load_append(head.skip(n), tail, base + n, next);
    }
}

/// The state after a run of records, or `None` where one of them belongs
/// to a document and none is open.
pub open spec fn run(state: Loading, records: Seq<RecordView>) -> Option<Loading>
    decreases records.len(),
{
    if records.len() == 0 {
        Some(state)
    } else {
        match run(state, records.drop_last()) {
            None => None,
            Some(before) => after_record(before, records.last()),
        }
    }
}

/// Two runs of records one after the other are a run.
pub proof fn lemma_run_concat(state: Loading, first: Seq<RecordView>, second: Seq<RecordView>)
    ensures
        run(state, first + second) == match run(state, first) {
            None => None,
            Some(middle) => run(middle, second),
        },
    decreases second.len(),
{
    if second.len() == 0 {
        assert(first + second =~= first);
    } else {
        assert((first + second).drop_last() =~= first + second.drop_last());
        lemma_run_concat(state, first, second.drop_last());
    }
}

/// The bytes of records that fit and make a run load to the state after
/// the run.
pub proof fn lemma_load_records(records: Seq<RecordView>, base: int, state: Loading)
    requires
        all_encodable(records),
        run(state, records) is Some,
    ensures
        load(encode_records(records), base, state) == Ok::<Loading, DecodeError>(
            run(state, records)->Some_0,
        ),
    decreases records.len(),
{
    if records.len() > 0 {
        let init = records.drop_last();
        let last = records.last();
        assert forall|i: int| 0 <= i < init.len() implies encodable(#[trigger] init[i]) by {
            assert(init[i] == records[i]);
        }
        lemma_load_records(init, base, state);
        let middle = run(state, init)->Some_0;
        let own = encode_record(last);
        lemma_load_append(encode_records(init), own, base, state);
        lemma_first_record(last, Seq::empty());
        assert(own + Seq::<u8>::empty() =~= own);
        let after = after_record(middle, last);
        assert(after == run(state, records));
        let at = base + encode_records(init).len();
        assert(own.len() > 0);
        assert(load(own, at, middle) == load(
            own.skip(own.len() as int),
            at + own.len(),
            after->Some_0,
        ));
        assert(load(own.skip(own.len() as int), at + own.len(), after->Some_0) == Ok::<
            Loading,
            DecodeError,
        >(after->Some_0));
    }
}

/// No text occurs in two entries.
pub open spec fn distinct_entries(entries: Seq<(Seq<char>, u64)>) -> bool {
    forall|i: int, j: int| 0 <= i < j < entries.len() ==> entries[i].0 != entries[j].0
}

/// Terms are unique within each table and titles within the store.
pub open spec fn text_well_formed(store: StoreText) -> bool {
    &&& distinct_entries(store.global_term_count)
    &&& forall|i: int, j: int|
        0 <= i < j < store.documents.len() ==> store.documents[i].title
            != store.documents[j].title
    &&& forall|i: int|
        0 <= i < store.documents.len() ==> distinct_entries(
            (#[trigger] store.documents[i]).term_frequency,
        )
}

/// The table and the pool after each text of `entries` has been interned
/// and given its value, starting from an empty table.
pub open spec fn built(entries: Seq<(Seq<char>, u64)>, pool: Seq<Seq<char>>) -> (
    Seq<(nat, u64)>,
    Seq<Seq<char>>,
)
    decreases entries.len(),
{
    if entries.len() == 0 {
        (Seq::empty(), pool)
    } else {
        let (table, grown) = built(entries.drop_last(), pool);
        let (text, value) = entries.last();
        (with_value(table, handle_of(grown, text), value), interned(grown, text))
    }
}

/// Resolving a table gives the same texts in a pool that extends the one
/// in which its terms are handles.
pub proof fn lemma_texts_extends(
    table: Seq<(nat, u64)>,
    earlier: Seq<Seq<char>>,
    later: Seq<Seq<char>>,
)
    requires
        table_resolves(table, earlier),
        extends(later, earlier),
    ensures
        texts(table, later) == texts(table, earlier),
        table_resolves(table, later),
{
    assert(texts(table, later) =~= texts(table, earlier));
}

/// A table built from entries with distinct texts holds exactly those
/// entries, in their order.
pub proof fn lemma_built(entries: Seq<(Seq<char>, u64)>, pool: Seq<Seq<char>>)
    requires
        distinct_entries(entries),
        distinct_texts(pool),
    ensures
        texts(built(entries, pool).0, built(entries, pool).1) == entries,
        distinct_terms(built(entries, pool).0),
        table_resolves(built(entries, pool).0, built(entries, pool).1),
        distinct_texts(built(entries, pool).1),
        extends(built(entries, pool).1, pool),
    decreases entries.len(),
{
    if entries.len() == 0 {
        assert(texts(built(entries, pool).0, built(entries, pool).1) =~= entries);
    } else {
        let init = entries.drop_last();
        let (table, grown) = built(init, pool);
        let (text, value) = entries.last();
        lemma_built(init, pool);
        law_intern_idempotent(grown, text);
        let h = handle_of(grown, text);
        let grown2 = interned(grown, text);
        assert(!has_term(table, h)) by {
            if has_term(table, h) {
                let k = slot_of(table, h);
                assert(table[k].0 < grown.len());
                assert(texts(table, grown)[k] == init[k]);
                assert(grown2[h as int] == grown[h as int]);
                assert(entries[k].0 == text);
            }
        }
        lemma_with_value(table, h, value);
        let table2 = with_value(table, h, value);
        assert(table2 == table.push((h, value)));
        assert forall|i: int| 0 <= i < table2.len() implies (#[trigger] table2[i]).0
            < grown2.len() by {
            if i < table.len() {
                assert(table[i].0 < grown.len());
            }
        }
        assert(texts(table2, grown2) =~= entries) by {
            assert forall|i: int| 0 <= i < entries.len() implies texts(table2, grown2)[i]
                == entries[i] by {
                if i < table.len() {
                    assert(table[i].0 < grown.len());
                    assert(texts(table, grown)[i] == init[i]);
                }
            }
        }
    }
}

/// Loading the records of the corpus-wide counts into a state without
/// counts builds their table.
pub proof fn lemma_run_globals(counts: Seq<(Seq<char>, u64)>, state: Loading)
    requires
        state.store.global_term_count == Seq::<(nat, u64)>::empty(),
    ensures
        run(state, global_records(counts)) == Some(
            Loading {
                pool: built(counts, state.pool).1,
                store: StoreView {
                    global_term_count: built(counts, state.pool).0,
                    documents: state.store.documents,
                },
                open: state.open,
            },
        ),
    decreases counts.len(),
{
    let records = global_records(counts);
    if counts.len() > 0 {
        lemma_run_globals(counts.drop_last(), state);
        assert(records.drop_last() =~= global_records(counts.drop_last()));
        assert(records.last() == RecordView::GlobalTerm {
            text: counts.last().0,
            count: counts.last().1,
        });
    }
}

/// Loading the term records of a document into a state whose open
/// document has no terms builds their table.
pub proof fn lemma_run_terms(frequencies: Seq<(Seq<char>, u64)>, state: Loading)
    requires
        state.open matches Some(document) && document.term_frequency == Seq::<
            (nat, u64),
        >::empty(),
    ensures
        run(state, term_records(frequencies)) == Some(
            Loading {
                pool: built(frequencies, state.pool).1,
                store: state.store,
                open: Some(
                    DocumentView {
                        title: state.open->Some_0.title,
                        path: state.open->Some_0.path,
                        term_frequency: built(frequencies, state.pool).0,
                    },
                ),
            },
        ),
    decreases frequencies.len(),
{
    let records = term_records(frequencies);
    if frequencies.len() > 0 {
        lemma_run_terms(frequencies.drop_last(), state);
        assert(records.drop_last() =~= term_records(frequencies.drop_last()));
        assert(records.last() == RecordView::DocTerm {
            text: frequencies.last().0,
            frequency: frequencies.last().1,
        });
    }
}

/// The documents of `state`, the open one included, are `documents` when
/// their terms are resolved in the state's pool.
pub open spec fn holds_documents(state: Loading, documents: Seq<DocumentText>) -> bool {
    let held = finished(state).documents;
    &&& held.len() == documents.len()
    &&& distinct_titles(held)
    &&& distinct_texts(state.pool)
    &&& forall|i: int|
        0 <= i < held.len() ==> {
            &&& document_text(#[trigger] held[i], state.pool) == documents[i]
            &&& table_resolves(held[i].term_frequency, state.pool)
            &&& distinct_terms(held[i].term_frequency)
        }
}

/// Loading the records of documents with distinct titles, each with
/// distinct terms, into a state without documents yields those documents.
pub proof fn lemma_run_documents(documents: Seq<DocumentText>, state: Loading)
    requires
        state.open is None,
        state.store.documents == Seq::<DocumentView>::empty(),
        distinct_texts(state.pool),
        forall|i: int, j: int|
            0 <= i < j < documents.len() ==> documents[i].title != documents[j].title,
        forall|i: int|
            0 <= i < documents.len() ==> distinct_entries((#[trigger] documents[i]).term_frequency),
    ensures
        run(state, documents_records(documents)) matches Some(after) && holds_documents(
            after,
            documents,
        ) && extends(after.pool, state.pool) && after.store.global_term_count
            == state.store.global_term_count,
    decreases documents.len(),
{
    if documents.len() > 0 {
        let init = documents.drop_last();
        let last = documents.last();
        lemma_run_documents(init, state);
        let s1 = run(state, documents_records(init))->Some_0;
        let held = finished(s1).documents;
        let head = seq![
            RecordView::DocTitle { text: last.title },
            RecordView::DocPath { text: last.path },
        ];
        let terms = term_records(last.term_frequency);
        lemma_run_concat(state, documents_records(init), head + terms);
        lemma_run_concat(s1, head, terms);
        let s2 = Loading {
            pool: s1.pool,
            store: finished(s1),
            open: Some(
                DocumentView {
                    title: last.title,
                    path: Seq::empty(),
                    term_frequency: Seq::empty(),
                },
            ),
        };
        let s3 = Loading {
            pool: s1.pool,
            store: finished(s1),
            open: Some(
                DocumentView { title: last.title, path: last.path, term_frequency: Seq::empty() },
            ),
        };
        assert(run(s1, head) == Some(s3)) by {
            assert(head.drop_last() =~= seq![head[0]]);
            assert(head.drop_last().drop_last() =~= Seq::<RecordView>::empty());
            assert(run(s1, head.drop_last().drop_last()) == Some(s1));
            assert(run(s1, head.drop_last()) == after_record(s1, head[0]));
            assert(after_record(s1, head[0]) == Some(s2));
            assert(after_record(s2, head[1]) == Some(s3));
        }
        lemma_run_terms(last.term_frequency, s3);
        lemma_built(last.term_frequency, s1.pool);
        let (table, grown) = built(last.term_frequency, s1.pool);
        let document = DocumentView { title: last.title, path: last.path, term_frequency: table };
        let s4 = Loading { pool: grown, store: finished(s1), open: Some(document) };
        assert(run(state, documents_records(documents)) == Some(s4));
        assert(!has_title(held, last.title)) by {
            if has_title(held, last.title) {
                let k = choose|k: int|
                    0 <= k < held.len() && (#[trigger] held[k]).title == last.title;
                assert(document_text(held[k], s1.pool) == init[k]);
                assert(documents[k].title == last.title);
            }
        }
        lemma_with_document(held, document);
        let all = finished(s4).documents;
        assert(all == held.push(document));
        assert forall|i: int| 0 <= i < all.len() implies {
            &&& document_text(#[trigger] all[i], grown) == documents[i]
            &&& table_resolves(all[i].term_frequency, grown)
            &&& distinct_terms(all[i].term_frequency)
        } by {
            if i < held.len() {
                assert(document_text(held[i], s1.pool) == init[i]);
                lemma_texts_extends(held[i].term_frequency, s1.pool, grown);
            }
        }
    }
}

/// What is written is read back: the snapshot of a store loads, whatever
/// the pool holds before, to a store with the same counts, documents,
/// paths and frequencies, term for term by text and in the same order.
pub proof fn law_round_trip(store: StoreText, pool: Seq<Seq<char>>)
    requires
        text_well_formed(store),
        all_encodable(snapshot(store)),
        distinct_texts(pool),
    ensures
        decoded(encode_records(snapshot(store)), pool) matches Ok((restored, grown)) && store_text(
            restored,
            grown,
        ) == store && well_formed(restored) && resolves(restored, grown) && distinct_texts(grown)
            && extends(grown, pool),
{
    let counts = global_records(store.global_term_count);
    let documents = documents_records(store.documents);
    lemma_run_globals(store.global_term_count, start(pool));
    lemma_built(store.global_term_count, pool);
    let (table, grown1) = built(store.global_term_count, pool);
    let s1 = Loading {
        pool: grown1,
        store: StoreView { global_term_count: table, documents: Seq::empty() },
        open: None,
    };
    lemma_run_documents(store.documents, s1);
    lemma_run_concat(start(pool), counts, documents);
    let s2 = run(s1, documents)->Some_0;
    assert(run(start(pool), snapshot(store)) == Some(s2));
    lemma_load_records(snapshot(store), 0, start(pool));
    let restored = finished(s2);
    lemma_texts_extends(table, grown1, s2.pool);
    assert(store_text(restored, s2.pool).documents =~= store.documents);
    assert(restored.global_term_count == table);
}

/// A store in which terms and titles are unique, resolved in a pool
/// without repeated texts, is unique in its texts too.
pub proof fn lemma_store_text_well_formed(store: StoreView, pool: Seq<Seq<char>>)
    requires
        well_formed(store),
        resolves(store, pool),
        distinct_texts(pool),
    ensures
        text_well_formed(store_text(store, pool)),
{
    let text = store_text(store, pool);
    assert forall|i: int| 0 <= i < text.documents.len() implies distinct_entries(
        (#[trigger] text.documents[i]).term_frequency,
    ) by {
        let table = store.documents[i].term_frequency;
        assert(table_resolves(table, pool));
        assert(distinct_terms(table));
        assert forall|a: int, b: int| 0 <= a < b < table.len() implies texts(table, pool)[a].0
            != texts(table, pool)[b].0 by {
            assert(table[a].0 != table[b].0);
            assert(table[a].0 < pool.len() && table[b].0 < pool.len());
        }
    }
    let table = store.global_term_count;
    assert forall|a: int, b: int| 0 <= a < b < table.len() implies texts(table, pool)[a].0
        != texts(table, pool)[b].0 by {
        assert(table[a].0 != table[b].0);
        assert(table[a].0 < pool.len() && table[b].0 < pool.len());
    }
}

/// The snapshot of a well-formed store whose terms the pool resolves loads
/// back, with any pool, to a store that is the same when terms are
/// compared by their text.
pub proof fn law_snapshot_restores(store: StoreView, pool: Seq<Seq<char>>, other: Seq<Seq<char>>)
    requires
        well_formed(store),
        resolves(store, pool),
        distinct_texts(pool),
        distinct_texts(other),
        all_encodable(snapshot(store_text(store, pool))),
    ensures
        decoded(encode_records(snapshot(store_text(store, pool))), other) matches Ok(
            (restored, grown),
        ) && store_text(restored, grown) == store_text(store, pool) && well_formed(restored),
{
    lemma_store_text_well_formed(store, pool);
    law_round_trip(store_text(store, pool), other);
}

/// An unknown tag ends the load: where a snapshot that loads is followed
/// by a byte that is no tag, loading fails with `UnknownRecordTag`, which
/// names that byte and its position.
pub proof fn law_unknown_tag(head: Seq<u8>, tail: Seq<u8>, pool: Seq<Seq<char>>)
    requires
        decoded(head, pool) is Ok,
        tail.len() > 0,
        !known_tag(tail[0]),
    ensures
        decoded(head + tail, pool) == Err::<(StoreView, Seq<Seq<char>>), DecodeError>(
            DecodeError::UnknownRecordTag { tag: tail[0], index: head.len() as usize },
        ),
{
    lemma_load_append(head, tail, 0, start(pool));
}

} // verus!
