use paper_engine::{
    intern, Admission, DupePolicy, IngestError, PoolId, StringPool, TermTable, TfIdf,
};

fn ratio(n: u64, distinct: u64) -> u64 {
    (n as f64 / distinct as f64).to_bits()
}

fn counts(pool: &mut StringPool, words: &[(&str, u64)]) -> TermTable {
    let mut table = TermTable::new();
    for (word, n) in words {
        let id = intern(pool, word);
        table.set(id, *n);
    }
    table
}

fn frequency(store: &TfIdf, document: usize, term: PoolId) -> Option<f64> {
    store.document(document).term_frequency().get(term).map(f64::from_bits)
}

#[test]
fn the_default_policy_is_fail() {
    assert_eq!(DupePolicy::default(), DupePolicy::Fail);
}

#[test]
fn ingest_divides_by_the_number_of_distinct_terms() {
    let mut pool = StringPool::new();
    let mut store = TfIdf::new();
    let occurrences = counts(&mut pool, &[("cat", 2), ("dog", 1)]);
    let result = store.ingest(
        "Pets".to_string(),
        "/docs/pets.pdf".to_string(),
        &occurrences,
        DupePolicy::Fail,
        ratio,
    );
    assert!(result.is_ok());
    assert_eq!(store.len(), 1);
    assert_eq!(store.document(0).title(), "Pets");
    assert_eq!(store.document(0).path(), "/docs/pets.pdf");
    let cat = intern(&mut pool, "cat");
    let dog = intern(&mut pool, "dog");
    assert_eq!(frequency(&store, 0, cat), Some(1.0));
    assert_eq!(frequency(&store, 0, dog), Some(0.5));
    assert_eq!(store.global_term_count().get(cat), Some(2));
    assert_eq!(store.global_term_count().get(dog), Some(1));
}

#[test]
fn a_single_term_has_its_count_as_frequency() {
    let mut pool = StringPool::new();
    let mut store = TfIdf::new();
    let occurrences = counts(&mut pool, &[("dog", 3)]);
    store
        .ingest("D2".to_string(), "b".to_string(), &occurrences, DupePolicy::Fail, ratio)
        .unwrap();
    let dog = intern(&mut pool, "dog");
    assert_eq!(frequency(&store, 0, dog), Some(3.0));
}

#[test]
fn a_document_without_terms_is_stored_empty() {
    let mut store = TfIdf::new();
    let occurrences = TermTable::new();
    store
        .ingest("Blank".to_string(), "blank.pdf".to_string(), &occurrences, DupePolicy::Fail, ratio)
        .unwrap();
    assert_eq!(store.len(), 1);
    assert_eq!(store.document(0).term_frequency().len(), 0);
    assert_eq!(store.global_term_count().len(), 0);
}

#[test]
fn counts_add_up_over_documents() {
    let mut pool = StringPool::new();
    let mut store = TfIdf::new();
    let first = counts(&mut pool, &[("cat", 2), ("dog", 1)]);
    let second = counts(&mut pool, &[("dog", 3), ("emu", 4)]);
    store.ingest("A".to_string(), "a".to_string(), &first, DupePolicy::Fail, ratio).unwrap();
    store.ingest("B".to_string(), "b".to_string(), &second, DupePolicy::Fail, ratio).unwrap();
    let cat = intern(&mut pool, "cat");
    let dog = intern(&mut pool, "dog");
    let emu = intern(&mut pool, "emu");
    assert_eq!(store.global_term_count().get(cat), Some(2));
    assert_eq!(store.global_term_count().get(dog), Some(4));
    assert_eq!(store.global_term_count().get(emu), Some(4));
    assert_eq!(store.len(), 2);
}

#[test]
fn duplicate_title_under_fail_is_refused_and_changes_nothing() {
    let mut pool = StringPool::new();
    let mut store = TfIdf::new();
    let first = counts(&mut pool, &[("cat", 2), ("dog", 1)]);
    let second = counts(&mut pool, &[("dog", 5), ("emu", 1)]);
    store
        .ingest("Same".to_string(), "/old".to_string(), &first, DupePolicy::Fail, ratio)
        .unwrap();
    let result =
        store.ingest("Same".to_string(), "/new".to_string(), &second, DupePolicy::Fail, ratio);
    match result {
        Err(IngestError::DuplicateTitle { title, existing_path, submitted_path }) => {
            assert_eq!(title, "Same");
            assert_eq!(existing_path, "/old");
            assert_eq!(submitted_path, "/new");
        }
        other => panic!("unexpected result: {other:?}"),
    }
    let cat = intern(&mut pool, "cat");
    let dog = intern(&mut pool, "dog");
    let emu = intern(&mut pool, "emu");
    assert_eq!(store.len(), 1);
    assert_eq!(store.document(0).path(), "/old");
    assert_eq!(store.document(0).term_frequency().len(), 2);
    assert_eq!(frequency(&store, 0, cat), Some(1.0));
    assert_eq!(frequency(&store, 0, dog), Some(0.5));
    assert_eq!(store.global_term_count().len(), 2);
    assert_eq!(store.global_term_count().get(cat), Some(2));
    assert_eq!(store.global_term_count().get(dog), Some(1));
    assert_eq!(store.global_term_count().get(emu), None);
}

#[test]
fn duplicate_title_under_replace_swaps_the_document_and_keeps_counting() {
    let mut pool = StringPool::new();
    let mut store = TfIdf::new();
    let first = counts(&mut pool, &[("cat", 2), ("dog", 1)]);
    let other = counts(&mut pool, &[("emu", 1)]);
    let second = counts(&mut pool, &[("dog", 5)]);
    store.ingest("Same".to_string(), "/old".to_string(), &first, DupePolicy::Fail, ratio).unwrap();
    store.ingest("Other".to_string(), "/o".to_string(), &other, DupePolicy::Fail, ratio).unwrap();
    store
        .ingest("Same".to_string(), "/new".to_string(), &second, DupePolicy::Replace, ratio)
        .unwrap();
    let cat = intern(&mut pool, "cat");
    let dog = intern(&mut pool, "dog");
    assert_eq!(store.len(), 2);
    let at = store.find_title("Same").unwrap();
    assert_eq!(store.document(at).path(), "/new");
    assert_eq!(frequency(&store, at, dog), Some(5.0));
    assert_eq!(frequency(&store, at, cat), None);
    assert_eq!(store.global_term_count().get(cat), Some(2));
    assert_eq!(store.global_term_count().get(dog), Some(6));
}

#[test]
fn duplicate_title_under_rename_stores_under_the_title_with_a_suffix() {
    let mut pool = StringPool::new();
    let mut store = TfIdf::new();
    let first = counts(&mut pool, &[("cat", 2)]);
    let second = counts(&mut pool, &[("dog", 5)]);
    store.ingest("Same".to_string(), "/old".to_string(), &first, DupePolicy::Fail, ratio).unwrap();
    store
        .ingest("Same".to_string(), "/new".to_string(), &second, DupePolicy::Rename, ratio)
        .unwrap();
    assert_eq!(store.len(), 2);
    assert_eq!(store.document(0).title(), "Same");
    assert_eq!(store.document(0).path(), "/old");
    assert_eq!(store.document(1).title(), "Same-1");
    assert_eq!(store.document(1).path(), "/new");
    let dog = intern(&mut pool, "dog");
    assert_eq!(store.global_term_count().get(dog), Some(5));
}

#[test]
fn a_second_rename_takes_the_place_of_the_first() {
    let mut pool = StringPool::new();
    let mut store = TfIdf::new();
    let terms = counts(&mut pool, &[("cat", 1)]);
    store.ingest("T".to_string(), "/1".to_string(), &terms, DupePolicy::Fail, ratio).unwrap();
    store.ingest("T".to_string(), "/2".to_string(), &terms, DupePolicy::Rename, ratio).unwrap();
    store.ingest("T".to_string(), "/3".to_string(), &terms, DupePolicy::Rename, ratio).unwrap();
    assert_eq!(store.len(), 2);
    assert_eq!(store.document(1).title(), "T-1");
    assert_eq!(store.document(1).path(), "/3");
    let cat = intern(&mut pool, "cat");
    assert_eq!(store.global_term_count().get(cat), Some(3));
}

#[test]
fn rename_without_a_duplicate_keeps_the_title() {
    let mut pool = StringPool::new();
    let mut store = TfIdf::new();
    let terms = counts(&mut pool, &[("cat", 1)]);
    store.ingest("T".to_string(), "/1".to_string(), &terms, DupePolicy::Rename, ratio).unwrap();
    assert_eq!(store.document(0).title(), "T");
}

#[test]
fn duplicate_title_under_ignore_succeeds_and_changes_nothing() {
    let mut pool = StringPool::new();
    let mut store = TfIdf::new();
    let first = counts(&mut pool, &[("cat", 2)]);
    let second = counts(&mut pool, &[("dog", 5)]);
    store.ingest("Same".to_string(), "/old".to_string(), &first, DupePolicy::Fail, ratio).unwrap();
    let result =
        store.ingest("Same".to_string(), "/new".to_string(), &second, DupePolicy::Ignore, ratio);
    assert!(result.is_ok());
    assert_eq!(store.len(), 1);
    assert_eq!(store.document(0).path(), "/old");
    let cat = intern(&mut pool, "cat");
    let dog = intern(&mut pool, "dog");
    assert_eq!(store.global_term_count().get(cat), Some(2));
    assert_eq!(store.global_term_count().get(dog), None);
}

#[test]
fn a_count_that_would_overflow_is_refused_and_changes_nothing() {
    let mut pool = StringPool::new();
    let mut store = TfIdf::new();
    let first = counts(&mut pool, &[("cat", u64::MAX - 1), ("dog", 1)]);
    let second = counts(&mut pool, &[("dog", 1), ("cat", 2)]);
    store.ingest("A".to_string(), "/a".to_string(), &first, DupePolicy::Fail, ratio).unwrap();
    let result = store.ingest("B".to_string(), "/b".to_string(), &second, DupePolicy::Fail, ratio);
    let cat = intern(&mut pool, "cat");
    let dog = intern(&mut pool, "dog");
    match result {
        Err(IngestError::CountOverflow { term }) => assert_eq!(term, cat),
        other => panic!("unexpected result: {other:?}"),
    }
    assert_eq!(store.len(), 1);
    assert_eq!(store.global_term_count().get(cat), Some(u64::MAX - 1));
    assert_eq!(store.global_term_count().get(dog), Some(1));
}

#[test]
fn a_count_may_reach_the_largest_number() {
    let mut pool = StringPool::new();
    let mut store = TfIdf::new();
    let first = counts(&mut pool, &[("cat", u64::MAX - 1)]);
    let second = counts(&mut pool, &[("cat", 1)]);
    store.ingest("A".to_string(), "/a".to_string(), &first, DupePolicy::Fail, ratio).unwrap();
    store.ingest("B".to_string(), "/b".to_string(), &second, DupePolicy::Fail, ratio).unwrap();
    let cat = intern(&mut pool, "cat");
    assert_eq!(store.global_term_count().get(cat), Some(u64::MAX));
}

#[test]
fn submit_stores_the_frequencies_it_is_given() {
    let mut pool = StringPool::new();
    let mut store = TfIdf::new();
    let occurrences = counts(&mut pool, &[("cat", 2), ("dog", 1)]);
    let cat = intern(&mut pool, "cat");
    let dog = intern(&mut pool, "dog");
    let mut frequencies = TermTable::new();
    frequencies.set(cat, 11);
    frequencies.set(dog, 22);
    store
        .submit("T".to_string(), "/p".to_string(), frequencies, &occurrences, DupePolicy::Fail)
        .unwrap();
    assert_eq!(store.document(0).term_frequency().get(cat), Some(11));
    assert_eq!(store.document(0).term_frequency().get(dog), Some(22));
    assert_eq!(store.global_term_count().get(cat), Some(2));
}

#[test]
fn admission_tells_what_submitting_would_do() {
    let mut pool = StringPool::new();
    let mut store = TfIdf::new();
    let terms = counts(&mut pool, &[("cat", 1)]);
    store.ingest("T".to_string(), "/old".to_string(), &terms, DupePolicy::Fail, ratio).unwrap();
    match store.admission("T".to_string(), DupePolicy::Fail) {
        Admission::Refused { title, existing_path } => {
            assert_eq!(title, "T");
            assert_eq!(existing_path, "/old");
        }
        other => panic!("unexpected admission: {other:?}"),
    }
    assert!(matches!(store.admission("T".to_string(), DupePolicy::Ignore), Admission::Dropped));
    match store.admission("T".to_string(), DupePolicy::Rename) {
        Admission::Stored { title } => assert_eq!(title, "T-1"),
        other => panic!("unexpected admission: {other:?}"),
    }
    match store.admission("T".to_string(), DupePolicy::Replace) {
        Admission::Stored { title } => assert_eq!(title, "T"),
        other => panic!("unexpected admission: {other:?}"),
    }
    for policy in [DupePolicy::Fail, DupePolicy::Ignore, DupePolicy::Rename, DupePolicy::Replace] {
        match store.admission("new".to_string(), policy) {
            Admission::Stored { title } => assert_eq!(title, "new"),
            other => panic!("unexpected admission: {other:?}"),
        }
    }
    assert_eq!(store.len(), 1);
}
