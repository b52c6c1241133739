//! From text to terms: a text is split into words at white space, and a
//! word becomes a term by folding it to lower case and stemming it.

use crate::intern::{
    distinct_texts, extends, handle_of, intern, interned, law_intern_idempotent, slots, PoolId,
    StringPool,
};
use crate::table::{
    count_of, distinct_terms, has_term, lemma_total_counted, lemma_with_value, slot_of, total,
    with_value, TermTable,
};
use rust_stemmers::{Algorithm, Stemmer};
use vstd::prelude::*;
use vstd::std_specs::iter::IteratorSpec;

verus! {

/// The character is white space.
pub open spec fn is_space(c: char) -> bool {
    let n = c as u32;
    ||| 0x09 <= n <= 0x0D
    ||| n == 0x20
    ||| n == 0x85
    ||| n == 0xA0
    ||| n == 0x1680
    ||| 0x2000 <= n <= 0x200A
    ||| n == 0x2028
    ||| n == 0x2029
    ||| n == 0x202F
    ||| n == 0x205F
    ||| n == 0x3000
}

/// The word that is still open at the end of `text`: the characters after
/// the last white space.
pub open spec fn open_word(text: Seq<char>) -> Seq<char>
    decreases text.len(),
{
    if text.len() == 0 || is_space(text.last()) {
        Seq::empty()
    } else {
        open_word(text.drop_last()).push(text.last())
    }
}

/// The words of `text` that white space has ended.
pub open spec fn ended_words(text: Seq<char>) -> Seq<Seq<char>>
    decreases text.len(),
{
    if text.len() == 0 {
        Seq::empty()
    } else if is_space(text.last()) && open_word(text.drop_last()).len() > 0 {
        ended_words(text.drop_last()).push(open_word(text.drop_last()))
    } else {
        ended_words(text.drop_last())
    }
}

/// The words of `text`: its longest runs of characters that are not white
/// space, in their order.
pub open spec fn words(text: Seq<char>) -> Seq<Seq<char>> {
    if open_word(text).len() > 0 {
        ended_words(text).push(open_word(text))
    } else {
        ended_words(text)
    }
}

/// The texts of a list of strings.
pub open spec fn texts_of(list: Seq<String>) -> Seq<Seq<char>> {
    Seq::new(list.len(), |i: int| list[i]@)
}

/// Whether the character is white space.
pub fn is_white_space(c: char) -> (space: bool)
    ensures
        space == is_space(c),
{
    let n = c as u32;
    (0x09 <= n && n <= 0x0D) || n == 0x20 || n == 0x85 || n == 0xA0 || n == 0x1680 || (0x2000 <= n
        && n <= 0x200A) || n == 0x2028 || n == 0x2029 || n == 0x202F || n == 0x205F || n == 0x3000
}

/// Appends a character to a string.
///
/// Wraps `String::push`, which adds the character at the end.
#[verifier::external_body]
fn push_char(text: &mut String, c: char)
    ensures
        final(text)@ == old(text)@.push(c),
{
    text.push(c)
}

/// Splits a text into its words.
pub fn split_words(text: &str) -> (list: Vec<String>)
    ensures
        texts_of(list@) == words(text@),
{
    broadcast use vstd::string::group_string_axioms;

    let mut list: Vec<String> = Vec::new();
    let mut word = String::new();
    let mut chars = text.chars();
    let ghost mut seen: Seq<char> = Seq::empty();
    assert(texts_of(list@) =~= ended_words(seen));
    loop
        invariant
            chars.obeys_prophetic_iter_laws(),
            chars.decrease() is Some,
            seen + chars.remaining() == text@,
            texts_of(list@) == ended_words(seen),
            word@ == open_word(seen),
        ensures
            seen == text@,
        decreases chars.decrease()->0,
    {
        let ghost before = chars;
        match chars.next() {
            None => {
                proof {
                    assert(seen =~= text@);
                }
                break ;
            },
            Some(c) => {
                proof {
                    let next = seen.push(c);
                    assert(next.drop_last() =~= seen);
                    assert(next + chars.remaining() =~= seen + before.remaining());
                }
                if is_white_space(c) {
                    if !word.as_str().is_empty() {
                        list.push(word);
                        word = String::new();
                        assert(texts_of(list@) =~= ended_words(seen.push(c)));
                    }
                } else {
                    push_char(&mut word, c);
                }
                proof {
                    seen = seen.push(c);
                }
            },
        }
    }
    if !word.as_str().is_empty() {
        list.push(word);
        assert(texts_of(list@) =~= words(text@));
    }
    list
}

/// The word folded to lower case, as `str::to_lowercase` folds it.
pub uninterp spec fn lowercase_of(word: Seq<char>) -> Seq<char>;

/// The stem of a word, as the Snowball stemmer for English gives it.
pub uninterp spec fn english_stem(word: Seq<char>) -> Seq<char>;

/// Folds a word to lower case.
///
/// Wraps `str::to_lowercase`, whose result depends on the word alone; the
/// contract only gives that result its name.
#[verifier::external_body]
fn lowercase(word: &str) -> (lowered: String)
    ensures
        lowered@ == lowercase_of(word@),
{
    word.to_lowercase()
}

/// Stems a word.
///
/// Wraps `rust_stemmers::Stemmer::stem` of the stemmer that
/// `Stemmer::create` makes for `Algorithm::English`. The stemmer holds no
/// state, so the result depends on the word alone; the contract only gives
/// that result its name.
#[verifier::external_body]
fn stem(word: &str) -> (stemmed: String)
    ensures
        stemmed@ == english_stem(word@),
{
    Stemmer::create(Algorithm::English).stem(word).into_owned()
}

/// The term that a word stands for: its lower-case form, stemmed.
pub open spec fn normalized(word: Seq<char>) -> Seq<char> {
    english_stem(lowercase_of(word))
}

/// The terms of a text: the terms of its words, in their order.
pub open spec fn terms_of(text: Seq<char>) -> Seq<Seq<char>> {
    Seq::new(words(text).len(), |i: int| normalized(words(text)[i]))
}

/// The term that a word stands for.
pub fn normalize(word: &str) -> (term: String)
    ensures
        term@ == normalized(word@),
{
    let lowered = lowercase(word);
    stem(lowered.as_str())
}

/// The terms of a text, one for each of its words.
pub fn text_terms(text: &str) -> (terms: Vec<String>)
    ensures
        texts_of(terms@) == terms_of(text@),
{
    let list = split_words(text);
    let mut terms: Vec<String> = Vec::new();
    let mut i: usize = 0;
    while i < list.len()
        invariant
            i <= list@.len(),
            texts_of(list@) == words(text@),
            terms@.len() == i,
            forall|k: int| 0 <= k < i ==> (#[trigger] terms@[k])@ == normalized(list@[k]@),
        decreases list@.len() - i,
    {
        terms.push(normalize(list[i].as_str()));
        i += 1;
    }
    assert(texts_of(terms@) =~= terms_of(text@)) by {
        assert forall|k: int| 0 <= k < terms@.len() implies texts_of(terms@)[k] == terms_of(
            text@,
        )[k] by {
            assert(texts_of(list@)[k] == list@[k]@);
        }
    }
    terms
}

/// The handles of `terms` and the pool after they have been interned one
/// after the other.
pub open spec fn handles(terms: Seq<Seq<char>>, pool: Seq<Seq<char>>) -> (Seq<nat>, Seq<Seq<char>>)
    decreases terms.len(),
{
    if terms.len() == 0 {
        (Seq::empty(), pool)
    } else {
        let (before, grown) = handles(terms.drop_last(), pool);
        (before.push(handle_of(grown, terms.last())), interned(grown, terms.last()))
    }
}

/// The occurrence counts of `terms` and the pool after they have been
/// interned one after the other: each term counts one more each time it
/// occurs.
pub open spec fn tallied(terms: Seq<Seq<char>>, pool: Seq<Seq<char>>) -> (
    Seq<(nat, u64)>,
    Seq<Seq<char>>,
)
    decreases terms.len(),
{
    if terms.len() == 0 {
        (Seq::empty(), pool)
    } else {
        let (counts, grown) = tallied(terms.drop_last(), pool);
        let term = handle_of(grown, terms.last());
        (
            with_value(counts, term, (count_of(counts, term) + 1) as u64),
            interned(grown, terms.last()),
        )
    }
}

/// Number of times `term` occurs among `terms`.
pub open spec fn occurrences(terms: Seq<Seq<char>>, term: Seq<char>) -> nat
    decreases terms.len(),
{
    if terms.len() == 0 {
        0
    } else {
        occurrences(terms.drop_last(), term) + if terms.last() == term {
            1nat
        } else {
            0nat
        }
    }
}

/// A term that occurs is one of the terms.
pub proof fn lemma_occurs(terms: Seq<Seq<char>>, term: Seq<char>)
    ensures
        occurrences(terms, term) > 0 <==> terms.contains(term),
    decreases terms.len(),
{
    if terms.len() > 0 {
        lemma_occurs(terms.drop_last(), term);
        if terms.drop_last().contains(term) {
            let i = choose|i: int| 0 <= i < terms.drop_last().len() && terms.drop_last()[i] == term;
            assert(terms[i] == term);
        }
        if terms.contains(term) && terms.last() != term {
            let i = choose|i: int| 0 <= i < terms.len() && terms[i] == term;
            assert(terms.drop_last()[i] == term);
        }
        if terms.last() == term {
            assert(terms[terms.len() - 1] == term);
        }
    }
}

/// A tally counts occurrences: after the terms have been counted, each
/// term is held by the pool, the count under its handle is the number of
/// times it occurs, and the table has an entry for it exactly when it
/// occurs at all. The counts add up to the number of terms.
pub proof fn law_tally(terms: Seq<Seq<char>>, pool: Seq<Seq<char>>, term: Seq<char>)
    requires
        distinct_texts(pool),
        terms.len() <= u64::MAX,
    ensures
        distinct_terms(tallied(terms, pool).0),
        distinct_texts(tallied(terms, pool).1),
        extends(tallied(terms, pool).1, pool),
        forall|i: int|
            0 <= i < tallied(terms, pool).0.len() ==> (#[trigger] tallied(terms, pool).0[i]).0
                < tallied(terms, pool).1.len(),
        forall|i: int|
            0 <= i < terms.len() ==> tallied(terms, pool).1.contains(#[trigger] terms[i]),
        total(tallied(terms, pool).0) == terms.len(),
        count_of(tallied(terms, pool).0, handle_of(tallied(terms, pool).1, term)) == occurrences(
            terms,
            term,
        ),
        has_term(tallied(terms, pool).0, handle_of(tallied(terms, pool).1, term))
            <==> terms.contains(term),
    decreases terms.len(),
{
    lemma_occurs(terms, term);
    if terms.len() > 0 {
        let init = terms.drop_last();
        let last = terms.last();
        let (before, held) = tallied(init, pool);
        let (counts, grown) = tallied(terms, pool);
        law_tally(init, pool, term);
        law_tally(init, pool, last);
        lemma_occurs(init, term);
        law_intern_idempotent(held, last);
        law_intern_idempotent(held, term);
        let h = handle_of(held, last);
        lemma_total_counted(before, h);
        let sum = (count_of(before, h) + 1) as u64;
        lemma_with_value(before, h, sum);
        assert forall|i: int| 0 <= i < counts.len() implies (#[trigger] counts[i]).0
            < grown.len() by {
            if has_term(before, h) {
                if i != slot_of(before, h) {
                    assert(counts[i] == before[i]);
                }
            } else if i < before.len() {
                assert(counts[i] == before[i]);
            }
        }
        assert forall|i: int| 0 <= i < terms.len() implies grown.contains(#[trigger] terms[i]) by {
            if i < init.len() {
                assert(held.contains(init[i]));
                let k = choose|k: int| 0 <= k < held.len() && held[k] == init[i];
                assert(grown[k] == terms[i]);
            } else {
                assert(grown[h as int] == last);
            }
        }
        let q = handle_of(grown, term);
        if term == last {
            assert(q == h);
            assert(grown[h as int] == last);
        } else {
            if held.contains(term) {
                let k = held.index_of(term);
                assert(held[k] == term);
                assert(grown[k] == term);
                assert(grown.contains(term));
                let g = grown.index_of(term);
                assert(grown[g] == term);
                assert(g == k);
                assert(grown[h as int] == last);
                assert(q != h);
            } else {
                if grown.contains(term) {
                    let g = grown.index_of(term);
                    assert(grown[g] == term);
                    if g < held.len() {
                        assert(held[g] == term);
                    }
                }
                assert(!grown.contains(term));
                assert(q == grown.len());
                assert(!has_term(counts, q)) by {
                    if has_term(counts, q) {
                        let i = slot_of(counts, q);
                        assert(counts[i].0 < grown.len());
                    }
                }
                assert(!has_term(before, handle_of(held, term))) by {
                    if has_term(before, handle_of(held, term)) {
                        let i = slot_of(before, handle_of(held, term));
                        assert(before[i].0 < held.len());
                    }
                }
            }
        }
    }
}

/// Interns the terms of a query, in their order.
pub fn intern_terms(pool: &mut StringPool, terms: &[String]) -> (ids: Vec<PoolId>)
    requires
        old(pool).wf(),
    ensures
        final(pool).wf(),
        extends(final(pool)@, old(pool)@),
        (slots(ids@), final(pool)@) == handles(texts_of(terms@), old(pool)@),
{
    let ghost all = texts_of(terms@);
    let mut ids: Vec<PoolId> = Vec::new();
    let mut i: usize = 0;
    assert(slots(ids@) =~= Seq::<nat>::empty());
    assert(all.take(0) =~= Seq::<Seq<char>>::empty());
    while i < terms.len()
        invariant
            i <= terms@.len(),
            all == texts_of(terms@),
            pool.wf(),
            extends(pool@, old(pool)@),
            (slots(ids@), pool@) == handles(all.take(i as int), old(pool)@),
        decreases terms@.len() - i,
    {
        let ghost before = slots(ids@);
        assert(all.take(i + 1).drop_last() =~= all.take(i as int));
        assert(all.take(i + 1).last() == terms@[i as int]@);
        let id = intern(pool, terms[i].as_str());
        ids.push(id);
        assert(slots(ids@) =~= before.push(id.slot()));
        i += 1;
    }
    assert(all.take(i as int) =~= all);
    ids
}

/// Counts how often each term occurs, interning the terms on the way.
pub fn count_terms(pool: &mut StringPool, terms: &[String]) -> (counts: TermTable)
    requires
        old(pool).wf(),
    ensures
        final(pool).wf(),
        extends(final(pool)@, old(pool)@),
        counts.wf(),
        (counts@, final(pool)@) == tallied(texts_of(terms@), old(pool)@),
        total(counts@) == terms@.len(),
{
    let ghost all = texts_of(terms@);
    let mut counts = TermTable::new();
    let mut i: usize = 0;
    assert(all.take(0) =~= Seq::<Seq<char>>::empty());
    while i < terms.len()
        invariant
            i <= terms@.len(),
            all == texts_of(terms@),
            pool.wf(),
            extends(pool@, old(pool)@),
            counts.wf(),
            (counts@, pool@) == tallied(all.take(i as int), old(pool)@),
            total(counts@) == i,
        decreases terms@.len() - i,
    {
        assert(all.take(i + 1).drop_last() =~= all.take(i as int));
        assert(all.take(i + 1).last() == terms@[i as int]@);
        let id = intern(pool, terms[i].as_str());
        let held = match counts.get(id) {
            Some(n) => n,
            None => 0,
        };
        proof {
            lemma_total_counted(counts@, id.slot());
        }
        counts.set(id, held + 1);
        i += 1;
    }
    assert(all.take(i as int) =~= all);
    counts
}

} // verus!
