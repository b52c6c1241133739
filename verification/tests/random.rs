use paper_engine::rank::sort_descending;
use paper_engine::text::{comes_before, same_text};
use paper_engine::{get_str, intern, split_words, DupePolicy, StringPool, TermTable, TfIdf};

struct Lcg(u64);

impl Lcg {
    fn next(&mut self) -> u64 {
        self.0 = self.0.wrapping_mul(6364136223846793005).wrapping_add(1442695040888963407);
        self.0 >> 33
    }

    fn below(&mut self, n: u64) -> u64 {
        self.next() % n
    }

    fn pick<'a>(&mut self, items: &[&'a str]) -> &'a str {
        items[self.below(items.len() as u64) as usize]
    }
}

const PIECES: [&str; 12] =
    ["", "a", "b", "ab", "é", "日本", " ", "\t", "\u{00A0}", "\u{3000}", "Z", "\n"];

fn text(rng: &mut Lcg, pieces: u64) -> String {
    let mut out = String::new();
    for _ in 0..rng.below(pieces + 1) {
        out.push_str(rng.pick(&PIECES));
    }
    out
}

fn table_by_text(table: &TermTable, pool: &StringPool) -> Vec<(String, u64)> {
    (0..table.len())
        .map(|i| {
            let (term, value) = table.entry(i);
            (get_str(pool, term).to_string(), value)
        })
        .collect()
}

fn store_by_text(
    store: &TfIdf,
    pool: &StringPool,
) -> (Vec<(String, u64)>, Vec<(String, String, Vec<(String, u64)>)>) {
    let documents = (0..store.len())
        .map(|i| {
            let document = store.document(i);
            (
                document.title().to_string(),
                document.path().to_string(),
                table_by_text(document.term_frequency(), pool),
            )
        })
        .collect();
    (table_by_text(store.global_term_count(), pool), documents)
}

#[test]
fn texts_are_ordered_as_strings_are() {
    let mut rng = Lcg(1);
    for _ in 0..20000 {
        let a = text(&mut rng, 4);
        let b = text(&mut rng, 4);
        assert_eq!(comes_before(&a, &b), a < b, "{a:?} {b:?}");
        assert_eq!(same_text(&a, &b), a == b, "{a:?} {b:?}");
    }
}

#[test]
fn random_texts_are_split_as_the_standard_library_splits_them() {
    let mut rng = Lcg(2);
    for _ in 0..20000 {
        let t = text(&mut rng, 10);
        let expected: Vec<String> = t.split_whitespace().map(|w| w.to_string()).collect();
        assert_eq!(split_words(&t), expected, "{t:?}");
    }
}

#[test]
fn random_lists_are_sorted_as_the_standard_library_sorts_them() {
    let mut rng = Lcg(3);
    for _ in 0..2000 {
        let list: Vec<(u64, String, String)> = (0..rng.below(12))
            .map(|_| (rng.below(3), text(&mut rng, 2), text(&mut rng, 2)))
            .collect();
        let mut expected = list.clone();
        expected.sort_by(|a, b| b.cmp(a));
        assert_eq!(sort_descending(list), expected);
    }
}

#[test]
fn random_stores_are_read_back() {
    let mut rng = Lcg(4);
    for _ in 0..300 {
        let mut pool = StringPool::new();
        let mut store = TfIdf::new();
        for _ in 0..rng.below(4) {
            let id = intern(&mut pool, &text(&mut rng, 3));
            store.set_global_count(id, rng.next());
        }
        for _ in 0..rng.below(5) {
            let mut frequencies = TermTable::new();
            for _ in 0..rng.below(5) {
                let id = intern(&mut pool, &text(&mut rng, 3));
                frequencies.set(id, rng.next() << 31 | rng.next());
            }
            let policy = [DupePolicy::Replace, DupePolicy::Rename, DupePolicy::Ignore]
                [rng.below(3) as usize];
            store
                .submit(
                    text(&mut rng, 2),
                    text(&mut rng, 3),
                    frequencies,
                    &TermTable::new(),
                    policy,
                )
                .unwrap();
        }
        let bytes = store.serialize(&pool).unwrap();
        let mut fresh = StringPool::new();
        for _ in 0..rng.below(3) {
            intern(&mut fresh, &text(&mut rng, 3));
        }
        let restored = TfIdf::deserialize(&bytes, &mut fresh).unwrap();
        assert_eq!(store_by_text(&restored, &fresh), store_by_text(&store, &pool));
        assert_eq!(restored.serialize(&fresh).unwrap(), bytes);
    }
}

#[test]
fn random_bytes_are_loaded_or_refused() {
    let mut rng = Lcg(5);
    let mut loaded = 0;
    for _ in 0..20000 {
        let mut bytes: Vec<u8> = Vec::new();
        for _ in 0..rng.below(6) {
            let tag = [1u8, 2, 2, 2, 3, 4, 4, 9][rng.below(8) as usize];
            let body = text(&mut rng, 2);
            let stated = if rng.below(8) == 0 { rng.below(5) } else { body.len() as u64 };
            bytes.push(tag);
            bytes.extend((stated as u16).to_le_bytes());
            if tag == 1 || tag == 4 {
                bytes.extend(rng.next().to_le_bytes());
            }
            bytes.extend(body.as_bytes());
        }
        let mut pool = StringPool::new();
        if let Ok(store) = TfIdf::deserialize(&bytes, &mut pool) {
            loaded += 1;
            assert!(store.resolved_by(&pool));
            let again = store.serialize(&pool).unwrap();
            let mut fresh = StringPool::new();
            let restored = TfIdf::deserialize(&again, &mut fresh).unwrap();
            assert_eq!(store_by_text(&restored, &fresh), store_by_text(&store, &pool));
        }
    }
    assert!(loaded > 1000);
}

#[test]
fn any_word_has_a_term() {
    let mut rng = Lcg(6);
    for _ in 0..50000 {
        let mut word = String::new();
        for _ in 0..rng.below(8) {
            let code = match rng.below(4) {
                0 => 0x20 + rng.below(0x5F) as u32,
                1 => rng.below(0x800) as u32,
                2 => rng.below(0x10000) as u32,
                _ => rng.below(0x110000) as u32,
            };
            if let Some(c) = char::from_u32(code) {
                word.push(c);
            }
        }
        let term = paper_engine::normalize(&word);
        assert_eq!(paper_engine::normalize(&word), term);
    }
}
