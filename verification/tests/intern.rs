use paper_engine::{get_str, intern, StringPool};

#[test]
fn intern_twice_returns_the_same_handle() {
    let mut pool = StringPool::new();
    let first = intern(&mut pool, "cat");
    let second = intern(&mut pool, "cat");
    assert_eq!(first, second);
    assert_eq!(pool.len(), 1);
}

#[test]
fn distinct_strings_get_distinct_handles() {
    let mut pool = StringPool::new();
    let cat = intern(&mut pool, "cat");
    let dog = intern(&mut pool, "dog");
    let empty = intern(&mut pool, "");
    assert_ne!(cat, dog);
    assert_ne!(cat, empty);
    assert_ne!(dog, empty);
    assert_eq!(pool.len(), 3);
}

#[test]
fn handles_are_issued_in_order_from_zero() {
    let mut pool = StringPool::new();
    assert_eq!(intern(&mut pool, "a").index(), 0);
    assert_eq!(intern(&mut pool, "b").index(), 1);
    assert_eq!(intern(&mut pool, "a").index(), 0);
    assert_eq!(intern(&mut pool, "c").index(), 2);
}

#[test]
fn handles_keep_their_text_as_the_pool_grows() {
    let mut pool = StringPool::new();
    let cat = intern(&mut pool, "cat");
    for i in 0..200 {
        intern(&mut pool, &format!("word{i}"));
    }
    assert_eq!(get_str(&pool, cat), "cat");
    assert_eq!(intern(&mut pool, "cat"), cat);
    assert_eq!(pool.len(), 201);
}

#[test]
fn get_str_gives_back_what_was_interned() {
    let mut pool = StringPool::new();
    let a = intern(&mut pool, "naïve");
    let b = intern(&mut pool, "日本語");
    assert_eq!(get_str(&pool, a), "naïve");
    assert_eq!(get_str(&pool, b), "日本語");
}

#[test]
fn lookup_finds_only_what_was_interned() {
    let mut pool = StringPool::new();
    assert_eq!(pool.lookup("cat"), None);
    let cat = intern(&mut pool, "cat");
    assert_eq!(pool.lookup("cat"), Some(cat));
    assert_eq!(pool.lookup("ca"), None);
    assert_eq!(pool.lookup("cats"), None);
    assert_eq!(pool.len(), 1);
}

#[test]
fn texts_that_differ_only_in_case_are_different() {
    let mut pool = StringPool::new();
    let lower = intern(&mut pool, "cat");
    let upper = intern(&mut pool, "Cat");
    assert_ne!(lower, upper);
}
