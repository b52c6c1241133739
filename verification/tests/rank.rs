use paper_engine::{intern, DupePolicy, StringPool, TermTable, TfIdf};

fn ratio(n: u64, distinct: u64) -> u64 {
    (n as f64 / distinct as f64).to_bits()
}

fn weigh(documents: usize, holders: usize, frequency: u64) -> u64 {
    let idf = ((documents as f64 + 1.0) / (holders as f64 + 1.0)).log10();
    (100000.0 * idf * f64::from_bits(frequency)) as u64
}

fn counts(pool: &mut StringPool, words: &[(&str, u64)]) -> TermTable {
    let mut table = TermTable::new();
    for (word, n) in words {
        let id = intern(pool, word);
        table.set(id, *n);
    }
    table
}

fn add(store: &mut TfIdf, pool: &mut StringPool, title: &str, path: &str, words: &[(&str, u64)]) {
    let occurrences = counts(pool, words);
    store
        .ingest(title.to_string(), path.to_string(), &occurrences, DupePolicy::Fail, ratio)
        .unwrap();
}

fn worked_example(pool: &mut StringPool) -> TfIdf {
    let mut store = TfIdf::new();
    add(&mut store, pool, "D1", "/one.pdf", &[("cat", 2), ("dog", 1)]);
    add(&mut store, pool, "D2", "/two.pdf", &[("dog", 3)]);
    store
}

fn line(score: u64, path: &str, title: &str) -> (u64, String, String) {
    (score, path.to_string(), title.to_string())
}

#[test]
fn a_term_in_every_document_scores_zero_and_ties_break_by_path() {
    let mut pool = StringPool::new();
    let store = worked_example(&mut pool);
    let dog = intern(&mut pool, "dog");
    let ranked = store.sort_documents(&[dog], weigh);
    assert_eq!(ranked, vec![line(0, "/two.pdf", "D2"), line(0, "/one.pdf", "D1")]);
}

#[test]
fn a_term_in_one_document_ranks_only_that_document() {
    let mut pool = StringPool::new();
    let store = worked_example(&mut pool);
    let cat = intern(&mut pool, "cat");
    let ranked = store.sort_documents(&[cat], weigh);
    assert_eq!(ranked, vec![line(17609, "/one.pdf", "D1")]);
}

#[test]
fn document_frequency_counts_the_documents_that_hold_the_term() {
    let mut pool = StringPool::new();
    let store = worked_example(&mut pool);
    let cat = intern(&mut pool, "cat");
    let dog = intern(&mut pool, "dog");
    let emu = intern(&mut pool, "emu");
    assert_eq!(store.document_frequency(cat), 1);
    assert_eq!(store.document_frequency(dog), 2);
    assert_eq!(store.document_frequency(emu), 0);
}

#[test]
fn the_score_is_divided_by_the_number_of_query_terms() {
    let mut pool = StringPool::new();
    let store = worked_example(&mut pool);
    let cat = intern(&mut pool, "cat");
    let emu = intern(&mut pool, "emu");
    let ranked = store.sort_documents(&[cat, emu], weigh);
    assert_eq!(ranked, vec![line(8804, "/one.pdf", "D1")]);
    let ranked = store.sort_documents(&[emu, cat, emu], weigh);
    assert_eq!(ranked, vec![line(5869, "/one.pdf", "D1")]);
}

#[test]
fn a_term_repeated_in_the_query_counts_each_time() {
    let mut pool = StringPool::new();
    let store = worked_example(&mut pool);
    let cat = intern(&mut pool, "cat");
    let emu = intern(&mut pool, "emu");
    let ranked = store.sort_documents(&[cat, cat, emu], weigh);
    assert_eq!(ranked, vec![line(11739, "/one.pdf", "D1")]);
    let ranked = store.sort_documents(&[cat, cat], weigh);
    assert_eq!(ranked, vec![line(17609, "/one.pdf", "D1")]);
}

#[test]
fn a_term_that_no_document_holds_gives_nothing() {
    let mut pool = StringPool::new();
    let store = worked_example(&mut pool);
    let emu = intern(&mut pool, "emu");
    assert_eq!(store.sort_documents(&[emu], weigh), vec![]);
}

#[test]
fn an_empty_query_gives_nothing() {
    let mut pool = StringPool::new();
    let store = worked_example(&mut pool);
    assert_eq!(store.sort_documents(&[], weigh), vec![]);
}

#[test]
fn an_empty_store_gives_nothing() {
    let mut pool = StringPool::new();
    let store = TfIdf::new();
    let cat = intern(&mut pool, "cat");
    assert_eq!(store.sort_documents(&[cat], weigh), vec![]);
}

#[test]
fn higher_scores_come_first() {
    let mut pool = StringPool::new();
    let mut store = TfIdf::new();
    add(&mut store, &mut pool, "low", "/z", &[("cat", 1), ("a", 1), ("b", 1), ("c", 1)]);
    add(&mut store, &mut pool, "high", "/a", &[("cat", 4)]);
    add(&mut store, &mut pool, "mid", "/m", &[("cat", 1), ("a", 1)]);
    add(&mut store, &mut pool, "none", "/n", &[("dog", 1)]);
    let cat = intern(&mut pool, "cat");
    let ranked = store.sort_documents(&[cat], weigh);
    let idf = (5.0f64 / 4.0).log10();
    assert_eq!(
        ranked,
        vec![
            line((100000.0 * idf * 4.0) as u64, "/a", "high"),
            line((100000.0 * idf * 0.5) as u64, "/m", "mid"),
            line((100000.0 * idf * 0.25) as u64, "/z", "low"),
        ]
    );
    assert_eq!(ranked[0].0, 38764);
    assert_eq!(ranked[1].0, 4845);
    assert_eq!(ranked[2].0, 2422);
}

#[test]
fn equal_scores_and_paths_break_ties_by_title_descending() {
    let mut pool = StringPool::new();
    let mut store = TfIdf::new();
    add(&mut store, &mut pool, "alpha", "/same", &[("cat", 1)]);
    add(&mut store, &mut pool, "gamma", "/same", &[("cat", 1)]);
    add(&mut store, &mut pool, "beta", "/same", &[("cat", 1)]);
    add(&mut store, &mut pool, "other", "/other", &[("dog", 1)]);
    let cat = intern(&mut pool, "cat");
    let ranked = store.sort_documents(&[cat], weigh);
    let titles: Vec<&str> = ranked.iter().map(|l| l.2.as_str()).collect();
    assert_eq!(titles, vec!["gamma", "beta", "alpha"]);
    assert!(ranked.iter().all(|l| l.0 == ranked[0].0));
}

#[test]
fn paths_are_ordered_by_their_bytes() {
    let mut pool = StringPool::new();
    let mut store = TfIdf::new();
    add(&mut store, &mut pool, "1", "/b", &[("cat", 1)]);
    add(&mut store, &mut pool, "2", "/B", &[("cat", 1)]);
    add(&mut store, &mut pool, "3", "/bb", &[("cat", 1)]);
    add(&mut store, &mut pool, "4", "/é", &[("cat", 1)]);
    add(&mut store, &mut pool, "5", "", &[("cat", 1)]);
    let cat = intern(&mut pool, "cat");
    let ranked = store.sort_documents(&[cat], weigh);
    let paths: Vec<&str> = ranked.iter().map(|l| l.1.as_str()).collect();
    assert_eq!(paths, vec!["/é", "/bb", "/b", "/B", ""]);
    let mut expected = ranked.clone();
    expected.sort_by(|a, b| b.cmp(a));
    assert_eq!(ranked, expected);
}

#[test]
fn sort_weighted_adds_the_weights_of_the_terms_held() {
    let mut pool = StringPool::new();
    let store = worked_example(&mut pool);
    let cat = intern(&mut pool, "cat");
    let dog = intern(&mut pool, "dog");
    let weights = vec![vec![10, 999], vec![5, 8]];
    let ranked = store.sort_weighted(&[cat, dog], &weights);
    assert_eq!(ranked, vec![line(7, "/one.pdf", "D1"), line(4, "/two.pdf", "D2")]);
}

#[test]
fn the_largest_weights_do_not_overflow() {
    let mut pool = StringPool::new();
    let store = worked_example(&mut pool);
    let dog = intern(&mut pool, "dog");
    let weights = vec![vec![u64::MAX, u64::MAX], vec![u64::MAX, u64::MAX - 1], vec![u64::MAX, 0]];
    let ranked = store.sort_weighted(&[dog, dog, dog], &weights);
    assert_eq!(
        ranked,
        vec![line(u64::MAX, "/one.pdf", "D1"), line(12297829382473034409, "/two.pdf", "D2")]
    );
}

#[test]
fn sort_descending_orders_by_score_then_path_then_title() {
    let list = vec![
        line(1, "b", "x"),
        line(2, "a", "x"),
        line(1, "b", "y"),
        line(1, "c", "a"),
        line(2, "a", "x"),
    ];
    let sorted = paper_engine::rank::sort_descending(list);
    assert_eq!(
        sorted,
        vec![
            line(2, "a", "x"),
            line(2, "a", "x"),
            line(1, "c", "a"),
            line(1, "b", "y"),
            line(1, "b", "x"),
        ]
    );
}
