use paper_engine::terms::is_white_space;
use paper_engine::{
    count_terms, document_title, get_str, intern, intern_terms, normalize, split_words,
    text_terms, DupePolicy, StringPool,
};

fn strings(words: &[&str]) -> Vec<String> {
    words.iter().map(|w| w.to_string()).collect()
}

#[test]
fn white_space_is_what_the_standard_library_calls_white_space() {
    for code in 0..=0x10FFFFu32 {
        if let Some(c) = char::from_u32(code) {
            assert_eq!(is_white_space(c), c.is_whitespace(), "U+{code:04X}");
        }
    }
}

#[test]
fn words_are_split_at_runs_of_white_space() {
    assert_eq!(
        split_words("the cat  sat\ton\nthe mat"),
        strings(&["the", "cat", "sat", "on", "the", "mat"])
    );
    assert_eq!(split_words("  lead and trail \r\n"), strings(&["lead", "and", "trail"]));
    assert_eq!(split_words("one"), strings(&["one"]));
    assert_eq!(split_words(""), strings(&[]));
    assert_eq!(split_words(" \t\n"), strings(&[]));
    assert_eq!(split_words("a\u{00A0}b\u{3000}c\u{2003}d"), strings(&["a", "b", "c", "d"]));
    assert_eq!(split_words("naïve 日本語 x"), strings(&["naïve", "日本語", "x"]));
}

#[test]
fn words_are_split_as_the_standard_library_splits_them() {
    for text in [
        "a b",
        " a",
        "a ",
        "\u{0085}x\u{1680}y\u{2028}z\u{2029}",
        "tab\tnew\nline\u{000B}vt\u{000C}ff\rcr",
        "zero\u{200B}width stays",
        "Hello, World! 123",
    ] {
        let expected: Vec<String> = text.split_whitespace().map(|w| w.to_string()).collect();
        assert_eq!(split_words(text), expected, "{text:?}");
    }
}

#[test]
fn a_word_is_folded_and_stemmed() {
    assert_eq!(normalize("fruitlessly"), "fruitless");
    assert_eq!(normalize("Fruitlessly"), "fruitless");
    assert_eq!(normalize("RUNNING"), "run");
    assert_eq!(normalize("cats"), "cat");
    assert_eq!(normalize("cat"), "cat");
    assert_eq!(normalize(""), "");
}

#[test]
fn the_terms_of_a_text_are_the_terms_of_its_words() {
    assert_eq!(
        text_terms("The Cats are RUNNING  fruitlessly"),
        strings(&["the", "cat", "are", "run", "fruitless"])
    );
    assert_eq!(text_terms("   "), strings(&[]));
}

#[test]
fn terms_are_counted_by_occurrence() {
    let mut pool = StringPool::new();
    let terms = strings(&["cat", "dog", "cat", "emu", "cat", "dog"]);
    let counts = count_terms(&mut pool, &terms);
    assert_eq!(counts.len(), 3);
    let by_text: Vec<(String, u64)> = (0..counts.len())
        .map(|i| {
            let (id, n) = counts.entry(i);
            (get_str(&pool, id).to_string(), n)
        })
        .collect();
    assert_eq!(
        by_text,
        vec![("cat".to_string(), 3), ("dog".to_string(), 2), ("emu".to_string(), 1)]
    );
    assert_eq!(pool.len(), 3);
}

#[test]
fn counting_no_terms_gives_an_empty_table() {
    let mut pool = StringPool::new();
    let counts = count_terms(&mut pool, &[]);
    assert_eq!(counts.len(), 0);
    assert_eq!(pool.len(), 0);
}

#[test]
fn counting_uses_the_handles_that_the_pool_holds() {
    let mut pool = StringPool::new();
    let dog = intern(&mut pool, "dog");
    let counts = count_terms(&mut pool, &strings(&["cat", "dog"]));
    assert_eq!(counts.get(dog), Some(1));
    assert_eq!(counts.entry(1), (dog, 1));
    assert_eq!(pool.len(), 2);
}

#[test]
fn query_terms_are_interned_in_order_with_repeats() {
    let mut pool = StringPool::new();
    let cat = intern(&mut pool, "cat");
    let ids = intern_terms(&mut pool, &strings(&["dog", "cat", "dog"]));
    let dog = intern(&mut pool, "dog");
    assert_eq!(ids, vec![dog, cat, dog]);
    assert_eq!(pool.len(), 2);
}

#[test]
fn a_policy_is_selected_by_its_name() {
    assert_eq!(DupePolicy::from_name(Some("replace")), DupePolicy::Replace);
    assert_eq!(DupePolicy::from_name(Some("rename")), DupePolicy::Rename);
    assert_eq!(DupePolicy::from_name(Some("ignore")), DupePolicy::Ignore);
    assert_eq!(DupePolicy::from_name(Some("fail")), DupePolicy::Fail);
    assert_eq!(DupePolicy::from_name(Some("Replace")), DupePolicy::Fail);
    assert_eq!(DupePolicy::from_name(Some("")), DupePolicy::Fail);
    assert_eq!(DupePolicy::from_name(None), DupePolicy::Fail);
}

#[test]
fn a_document_without_a_title_is_titled_by_its_path() {
    assert_eq!(document_title(Some("Title".to_string()), "/p.pdf"), "Title");
    assert_eq!(document_title(Some(String::new()), "/p.pdf"), "/p.pdf");
    assert_eq!(document_title(None, "/p.pdf"), "/p.pdf");
}
