//! Ranking: TF-IDF scores of the documents that hold a query term, best
//! first.
//!
//! The weight of a term in a document is the whole part of
//! 100000 * log10((N + 1) / (df + 1)) * frequency, where N is the number of
//! documents and df the number of documents that hold the term. It is
//! computed on binary64 numbers by the caller; everything else is decided
//! here.

use crate::intern::{slots, PoolId};
use crate::store::{DocumentView, StoreView, TfIdf};
use crate::table::{distinct_terms, has_term, value_of};
use crate::text::{
    comes_before, lemma_bytes_before_irreflexive, lemma_bytes_before_total,
    lemma_bytes_before_transitive, lemma_same_bytes, same_text, text_before,
};
use vstd::prelude::*;
use vstd::relations::{sorted_by, total_ordering};
use vstd::seq_lib::{
    lemma_multiset_commutative, lemma_sorted_unique, to_multiset_build, to_multiset_remove,
};
use vstd::utf8::encode_utf8;

verus! {

/// The rows of a table of weights.
pub open spec fn rows(weights: Seq<Vec<u64>>) -> Seq<Seq<u64>> {
    Seq::new(weights.len(), |i: int| weights[i]@)
}

/// Number of documents that hold `term`.
pub open spec fn containing(documents: Seq<DocumentView>, term: nat) -> nat
    decreases documents.len(),
{
    if documents.len() == 0 {
        0
    } else {
        containing(documents.drop_last(), term) + if has_term(
            documents.last().term_frequency,
            term,
        ) {
            1nat
        } else {
            0nat
        }
    }
}

/// The table has one row for each query term and, in each row, one weight
/// for each document.
pub open spec fn shaped(weights: Seq<Seq<u64>>, terms: nat, documents: nat) -> bool {
    &&& weights.len() == terms
    &&& forall|i: int| 0 <= i < terms ==> (#[trigger] weights[i]).len() == documents
}

/// What the query term at position `i` adds to document `j`: its weight
/// there if the document holds the term, nothing otherwise.
pub open spec fn gain(
    store: StoreView,
    terms: Seq<nat>,
    weights: Seq<Seq<u64>>,
    i: int,
    j: int,
) -> nat {
    if has_term(store.documents[j].term_frequency, terms[i]) {
        weights[i][j] as nat
    } else {
        0
    }
}

/// What the first `upto` query terms add to document `j`. A term that
/// stands twice in the query adds twice.
pub open spec fn accumulated(
    store: StoreView,
    terms: Seq<nat>,
    weights: Seq<Seq<u64>>,
    upto: int,
    j: int,
) -> nat
    decreases upto,
{
    if upto <= 0 {
        0
    } else {
        accumulated(store, terms, weights, upto - 1, j) + gain(store, terms, weights, upto - 1, j)
    }
}

/// The score of document `j`: what the query terms add to it, divided by
/// the number of query terms, fraction dropped.
pub open spec fn score(store: StoreView, terms: Seq<nat>, weights: Seq<Seq<u64>>, j: int) -> nat {
    if terms.len() == 0 {
        0
    } else {
        accumulated(store, terms, weights, terms.len() as int, j) / terms.len()
    }
}

/// Document `j` holds one of the first `upto` query terms.
pub open spec fn hit_within(store: StoreView, terms: Seq<nat>, upto: int, j: int) -> bool {
    exists|i: int| 0 <= i < upto && has_term(store.documents[j].term_frequency, #[trigger] terms[i])
}

/// Document `j` holds a query term.
pub open spec fn is_hit(store: StoreView, terms: Seq<nat>, j: int) -> bool {
    hit_within(store, terms, terms.len() as int, j)
}

/// One line of a result.
pub struct Line {
    pub score: u64,
    pub path: Seq<char>,
    pub title: Seq<char>,
}

/// The line of the result for document `j`.
pub open spec fn line(store: StoreView, terms: Seq<nat>, weights: Seq<Seq<u64>>, j: int) -> Line {
    Line {
        score: score(store, terms, weights, j) as u64,
        path: store.documents[j].path,
        title: store.documents[j].title,
    }
}

/// The lines of those among the first `upto` documents that hold a query
/// term, in the order of the documents. A document that holds none has no
/// line.
pub open spec fn hits(
    store: StoreView,
    terms: Seq<nat>,
    weights: Seq<Seq<u64>>,
    upto: int,
) -> Seq<Line>
    decreases upto,
{
    if upto <= 0 {
        Seq::empty()
    } else if is_hit(store, terms, upto - 1) {
        hits(store, terms, weights, upto - 1).push(line(store, terms, weights, upto - 1))
    } else {
        hits(store, terms, weights, upto - 1)
    }
}

/// Line `a` stands below line `b`: it has the smaller score, or the same
/// score and the earlier path, or the same score and path and the earlier
/// title.
pub open spec fn ranks_below(
    a: Line,
    b: Line,
) -> bool {
    a.score < b.score || (a.score == b.score && (text_before(a.path, b.path) || (a.path == b.path
        && text_before(a.title, b.title))))
}

/// No line stands below a later one: the list is sorted, highest first.
pub open spec fn descending(lines: Seq<Line>) -> bool {
    forall|i: int, j: int| 0 <= i < j < lines.len() ==> !ranks_below(lines[i], lines[j])
}

/// The line as a value.
pub open spec fn line_of(entry: (u64, String, String)) -> Line {
    Line { score: entry.0, path: entry.1@, title: entry.2@ }
}

/// The lines as values.
pub open spec fn lines_of(list: Seq<(u64, String, String)>) -> Seq<Line> {
    Seq::new(list.len(), |i: int| line_of(list[i]))
}

/// No line stands below itself.
pub proof fn lemma_ranks_below_irreflexive(a: Line)
    ensures
        !ranks_below(a, a),
{
    lemma_bytes_before_irreflexive(encode_utf8(a.path));
    lemma_bytes_before_irreflexive(encode_utf8(a.title));
}

/// Standing below is transitive.
pub proof fn lemma_ranks_below_transitive(
    a: Line,
    b: Line,
    c: Line,
)
    requires
        ranks_below(a, b),
        ranks_below(b, c),
    ensures
        ranks_below(a, c),
{
    if text_before(a.path, b.path) && text_before(b.path, c.path) {
        lemma_bytes_before_transitive(
            encode_utf8(a.path),
            encode_utf8(b.path),
            encode_utf8(c.path),
        );
    }
    if text_before(a.title, b.title) && text_before(b.title, c.title) {
        lemma_bytes_before_transitive(
            encode_utf8(a.title),
            encode_utf8(b.title),
            encode_utf8(c.title),
        );
    }
}

/// Of two lines that differ, one stands below the other.
pub proof fn lemma_ranks_below_total(
    a: Line,
    b: Line,
)
    ensures
        a == b || ranks_below(a, b) || ranks_below(b, a),
{
    lemma_bytes_before_total(encode_utf8(a.path), encode_utf8(b.path));
    lemma_bytes_before_total(encode_utf8(a.title), encode_utf8(b.title));
    if encode_utf8(a.path) == encode_utf8(b.path) {
        lemma_same_bytes(a.path, b.path);
    }
    if encode_utf8(a.title) == encode_utf8(b.title) {
        lemma_same_bytes(a.title, b.title);
    }
}

/// The order of a result is fixed by its lines: two lists that hold the
/// same lines, each sorted from the highest down, are the same list.
pub proof fn law_ranking_unique(
    x: Seq<Line>,
    y: Seq<Line>,
)
    requires
        descending(x),
        descending(y),
        x.to_multiset() == y.to_multiset(),
    ensures
        x == y,
{
    let at_least = |a: Line, b: Line|
        !ranks_below(a, b);
    assert(total_ordering(at_least)) by {
        assert forall|a: Line| #[trigger] at_least(a, a) by {
            lemma_ranks_below_irreflexive(a);
        }
        assert forall|a: Line, b: Line|
            #[trigger] at_least(a, b) && #[trigger] at_least(b, a) implies a == b by {
            lemma_ranks_below_total(a, b);
        }
        assert forall|a: Line, b: Line|
            #[trigger] at_least(a, b) || #[trigger] at_least(b, a) by {
            if ranks_below(a, b) && ranks_below(b, a) {
                lemma_ranks_below_transitive(a, b, a);
                lemma_ranks_below_irreflexive(a);
            }
        }
        assert forall|
            a: Line,
            b: Line,
            c: Line,
        | #[trigger] at_least(a, b) && #[trigger] at_least(b, c) implies at_least(a, c) by {
            lemma_not_below_transitive(a, b, c);
        }
    }
    assert(sorted_by(x, at_least));
    assert(sorted_by(y, at_least));
    lemma_sorted_unique(x, y, at_least);
}

/// `entry` is the line of one of the first `upto` documents, and that
/// document holds a query term.
pub open spec fn is_line_of_hit(
    store: StoreView,
    terms: Seq<nat>,
    weights: Seq<Seq<u64>>,
    upto: int,
    entry: Line,
) -> bool {
    exists|j: int|
        0 <= j < upto && is_hit(store, terms, j) && #[trigger] line(store, terms, weights, j)
            == entry
}

/// A document has a line among the hits exactly when it holds a query
/// term, and every line is that of such a document.
pub proof fn law_hits(store: StoreView, terms: Seq<nat>, weights: Seq<Seq<u64>>, upto: int)
    requires
        0 <= upto,
    ensures
        forall|j: int|
            0 <= j < upto && is_hit(store, terms, j) ==> hits(store, terms, weights, upto).contains(
                #[trigger] line(store, terms, weights, j),
            ),
        forall|k: int|
            0 <= k < hits(store, terms, weights, upto).len() ==> is_line_of_hit(
                store,
                terms,
                weights,
                upto,
                #[trigger] hits(store, terms, weights, upto)[k],
            ),
    decreases upto,
{
    if upto > 0 {
        law_hits(store, terms, weights, upto - 1);
        let before = hits(store, terms, weights, upto - 1);
        let now = hits(store, terms, weights, upto);
        assert forall|j: int| 0 <= j < upto && is_hit(store, terms, j) implies now.contains(
            #[trigger] line(store, terms, weights, j),
        ) by {
            if j < upto - 1 {
                let k = choose|k: int|
                    0 <= k < before.len() && before[k] == line(store, terms, weights, j);
                assert(now[k] == line(store, terms, weights, j));
            } else {
                assert(now[now.len() - 1] == line(store, terms, weights, j));
            }
        }
        assert forall|k: int| 0 <= k < now.len() implies is_line_of_hit(
            store,
            terms,
            weights,
            upto,
            #[trigger] now[k],
        ) by {
            if k < before.len() {
                assert(is_line_of_hit(store, terms, weights, upto - 1, before[k]));
                let j = choose|j: int|
                    0 <= j < upto - 1 && is_hit(store, terms, j) && #[trigger] line(
                        store,
                        terms,
                        weights,
                        j,
                    ) == before[k];
                assert(line(store, terms, weights, j) == now[k]);
            } else {
                assert(line(store, terms, weights, upto - 1) == now[k]);
            }
        }
    }
}

/// Whether line `a` stands below line `b`.
fn stands_below(a: &(u64, String, String), b: &(u64, String, String)) -> (below: bool)
    ensures
        below == ranks_below(line_of(*a), line_of(*b)),
{
    if a.0 != b.0 {
        a.0 < b.0
    } else if comes_before(a.1.as_str(), b.1.as_str()) {
        true
    } else if same_text(a.1.as_str(), b.1.as_str()) {
        comes_before(a.2.as_str(), b.2.as_str())
    } else {
        false
    }
}

/// No line stands below an earlier one: the list is sorted, lowest first.
pub open spec fn ascending(lines: Seq<Line>) -> bool {
    forall|i: int, j: int| 0 <= i < j < lines.len() ==> !ranks_below(lines[j], lines[i])
}

/// Every line of `upper` stands at least as high as every line of `lower`.
pub open spec fn all_at_least(
    upper: Seq<Line>,
    lower: Seq<Line>,
) -> bool {
    forall|i: int, k: int|
        0 <= i < upper.len() && 0 <= k < lower.len() ==> !ranks_below(
            #[trigger] upper[i],
            #[trigger] lower[k],
        )
}

/// Not standing below is transitive.
pub proof fn lemma_not_below_transitive(
    a: Line,
    b: Line,
    c: Line,
)
    requires
        !ranks_below(a, b),
        !ranks_below(b, c),
    ensures
        !ranks_below(a, c),
{
    if ranks_below(a, c) {
        lemma_ranks_below_total(a, b);
        if ranks_below(b, a) {
            lemma_ranks_below_transitive(b, a, c);
        }
    }
}

/// Merges two lists that are sorted from the highest line down into one
/// that is sorted from the lowest line up.
fn merge_rising(a: Vec<(u64, String, String)>, b: Vec<(u64, String, String)>) -> (merged: Vec<
    (u64, String, String),
>)
    requires
        descending(lines_of(a@)),
        descending(lines_of(b@)),
    ensures
        ascending(lines_of(merged@)),
        lines_of(merged@).to_multiset() == lines_of(a@).to_multiset().add(
            lines_of(b@).to_multiset(),
        ),
{
    broadcast use vstd::multiset::group_multiset_axioms;

    let ghost all = lines_of(a@).to_multiset().add(lines_of(b@).to_multiset());
    let mut a = a;
    let mut b = b;
    let mut merged: Vec<(u64, String, String)> = Vec::new();
    proof {
        assert(lines_of(merged@) =~= Seq::empty());
        lines_of(merged@).to_multiset_ensures();
        assert(lines_of(merged@).to_multiset().len() == 0);
        assert(lines_of(merged@).to_multiset() =~= vstd::multiset::Multiset::empty());
    }
    while a.len() > 0 || b.len() > 0
        invariant
            descending(lines_of(a@)),
            descending(lines_of(b@)),
            ascending(lines_of(merged@)),
            all_at_least(lines_of(a@), lines_of(merged@)),
            all_at_least(lines_of(b@), lines_of(merged@)),
            lines_of(merged@).to_multiset().add(lines_of(a@).to_multiset()).add(
                lines_of(b@).to_multiset(),
            ) == all,
        decreases a@.len() + b@.len(),
    {
        let ghost upper = lines_of(a@);
        let ghost other = lines_of(b@);
        let ghost done = lines_of(merged@);
        let from_a = if a.len() == 0 {
            false
        } else if b.len() == 0 {
            true
        } else {
            stands_below(&a[a.len() - 1], &b[b.len() - 1])
        };
        if from_a {
            let next = a.pop().unwrap();
            let ghost value = line_of(next);
            merged.push(next);
            proof {
                let last = upper.len() - 1;
                assert(upper[last] == value);
                assert(lines_of(a@) =~= upper.remove(last));
                assert(lines_of(merged@) =~= done.push(value));
                to_multiset_remove(upper, last);
                to_multiset_build(done, value);
                upper.to_multiset_ensures();
                assert(upper.contains(value));
                assert forall|i: int, k: int|
                    0 <= i < lines_of(a@).len() && 0 <= k < lines_of(
                        merged@,
                    ).len() implies !ranks_below(
                    #[trigger] lines_of(a@)[i],
                    #[trigger] lines_of(merged@)[k],
                ) by {
                    assert(lines_of(a@)[i] == upper[i]);
                    if k < done.len() {
                        assert(lines_of(merged@)[k] == done[k]);
                    }
                }
                assert forall|i: int, k: int|
                    0 <= i < other.len() && 0 <= k < lines_of(merged@).len() implies !ranks_below(
                    #[trigger] other[i],
                    #[trigger] lines_of(merged@)[k],
                ) by {
                    if k < done.len() {
                        assert(lines_of(merged@)[k] == done[k]);
                    } else {
                        let low = other[other.len() - 1];
                        assert(ranks_below(value, low));
                        if ranks_below(low, value) {
                            lemma_ranks_below_transitive(value, low, value);
                            lemma_ranks_below_irreflexive(value);
                        }
                        if i < other.len() - 1 {
                            lemma_not_below_transitive(other[i], low, value);
                        }
                    }
                }
                assert forall|i: int, j: int|
                    0 <= i < j < lines_of(merged@).len() implies !ranks_below(
                    lines_of(merged@)[j],
                    lines_of(merged@)[i],
                ) by {
                    assert(lines_of(merged@)[i] == done[i]);
                    if j < done.len() {
                        assert(lines_of(merged@)[j] == done[j]);
                    } else {
                        assert(!ranks_below(upper[last], done[i]));
                    }
                }
            }
        } else {
            let next = b.pop().unwrap();
            let ghost value = line_of(next);
            merged.push(next);
            proof {
                let last = other.len() - 1;
                assert(other[last] == value);
                assert(lines_of(b@) =~= other.remove(last));
                assert(lines_of(merged@) =~= done.push(value));
                to_multiset_remove(other, last);
                to_multiset_build(done, value);
                other.to_multiset_ensures();
                assert(other.contains(value));
                assert forall|i: int, k: int|
                    0 <= i < lines_of(b@).len() && 0 <= k < lines_of(
                        merged@,
                    ).len() implies !ranks_below(
                    #[trigger] lines_of(b@)[i],
                    #[trigger] lines_of(merged@)[k],
                ) by {
                    assert(lines_of(b@)[i] == other[i]);
                    if k < done.len() {
                        assert(lines_of(merged@)[k] == done[k]);
                    }
                }
                assert forall|i: int, k: int|
                    0 <= i < upper.len() && 0 <= k < lines_of(merged@).len() implies !ranks_below(
                    #[trigger] upper[i],
                    #[trigger] lines_of(merged@)[k],
                ) by {
                    if k < done.len() {
                        assert(lines_of(merged@)[k] == done[k]);
                    } else {
                        let low = upper[upper.len() - 1];
                        assert(!ranks_below(low, value));
                        if i < upper.len() - 1 {
                            lemma_not_below_transitive(upper[i], low, value);
                        }
                    }
                }
                assert forall|i: int, j: int|
                    0 <= i < j < lines_of(merged@).len() implies !ranks_below(
                    lines_of(merged@)[j],
                    lines_of(merged@)[i],
                ) by {
                    assert(lines_of(merged@)[i] == done[i]);
                    if j < done.len() {
                        assert(lines_of(merged@)[j] == done[j]);
                    } else {
                        assert(!ranks_below(other[last], done[i]));
                    }
                }
            }
        }
    }
    proof {
        assert(lines_of(a@) =~= Seq::empty());
        assert(lines_of(b@) =~= Seq::empty());
        lines_of(a@).to_multiset_ensures();
        lines_of(b@).to_multiset_ensures();
        assert(lines_of(a@).to_multiset().len() == 0);
        assert(lines_of(b@).to_multiset().len() == 0);
        assert(lines_of(merged@).to_multiset() =~= all);
    }
    merged
}

/// The list in the opposite order.
fn reversed(list: Vec<(u64, String, String)>) -> (turned: Vec<(u64, String, String)>)
    ensures
        lines_of(turned@) == lines_of(list@).reverse(),
{
    let ghost all = lines_of(list@);
    let mut list = list;
    let mut turned: Vec<(u64, String, String)> = Vec::new();
    assert(lines_of(turned@) =~= Seq::empty());
    while list.len() > 0
        invariant
            list@.len() <= all.len(),
            lines_of(list@) == all.take(list@.len() as int),
            lines_of(turned@).len() == all.len() - list@.len(),
            forall|k: int|
                0 <= k < lines_of(turned@).len() ==> lines_of(turned@)[k] == all[all.len() - 1 - k],
        decreases list@.len(),
    {
        let ghost left = lines_of(list@);
        let ghost done = lines_of(turned@);
        let next = list.pop().unwrap();
        turned.push(next);
        proof {
            assert(lines_of(list@) =~= all.take(list@.len() as int));
            assert(lines_of(turned@) =~= done.push(left[left.len() - 1]));
        }
    }
    assert(lines_of(turned@) =~= all.reverse());
    turned
}

/// Sorts the lines, highest first.
pub fn sort_descending(list: Vec<(u64, String, String)>) -> (sorted: Vec<(u64, String, String)>)
    ensures
        descending(lines_of(sorted@)),
        lines_of(sorted@).to_multiset() == lines_of(list@).to_multiset(),
    decreases list@.len(),
{
    if list.len() <= 1 {
        return list;
    }
    let ghost all = lines_of(list@);
    let mut upper = list;
    let lower = upper.split_off(upper.len() / 2);
    proof {
        assert(all =~= lines_of(upper@) + lines_of(lower@));
        lemma_multiset_commutative(lines_of(upper@), lines_of(lower@));
    }
    let upper = sort_descending(upper);
    let lower = sort_descending(lower);
    let rising = merge_rising(upper, lower);
    let sorted = reversed(rising);
    proof {
        lines_of(rising@).lemma_reverse_to_multiset();
    }
    sorted
}

/// The table holds, for each query term and each document that holds it,
/// what `weigh` returns for the number of documents, the number of
/// documents that hold the term, and the term's frequency in the document.
pub open spec fn weighed_by<F: Fn(usize, usize, u64) -> u64>(
    store: StoreView,
    terms: Seq<nat>,
    weights: Seq<Seq<u64>>,
    weigh: F,
) -> bool {
    &&& shaped(weights, terms.len(), store.documents.len())
    &&& forall|i: int, j: int|
        0 <= i < terms.len() && 0 <= j < store.documents.len() && has_term(
            store.documents[j].term_frequency,
            terms[i],
        ) ==> weigh.ensures(
            (
                store.documents.len() as usize,
                containing(store.documents, terms[i]) as usize,
                value_of(store.documents[j].term_frequency, terms[i])->Some_0,
            ),
            #[trigger] weights[i][j],
        )
}

/// No more documents hold a term than there are documents.
pub proof fn law_holders_bound(documents: Seq<DocumentView>, term: nat)
    ensures
        containing(documents, term) <= documents.len(),
    decreases documents.len(),
{
    if documents.len() > 0 {
        law_holders_bound(documents.drop_last(), term);
    }
}

/// A document that holds a term is counted among its holders.
pub proof fn lemma_holder_counts(documents: Seq<DocumentView>, term: nat, j: int)
    requires
        0 <= j < documents.len(),
        has_term(documents[j].term_frequency, term),
    ensures
        0 < containing(documents, term) <= documents.len(),
    decreases documents.len(),
{
    law_holders_bound(documents, term);
    if j < documents.len() - 1 {
        lemma_holder_counts(documents.drop_last(), term, j);
    }
}

/// A score is a 64-bit number: it is no larger than the largest weight.
pub proof fn law_score_fits(store: StoreView, terms: Seq<nat>, weights: Seq<Seq<u64>>, j: int)
    ensures
        score(store, terms, weights, j) <= u64::MAX,
{
    let count = terms.len();
    lemma_accumulated_bound(store, terms, weights, count as int, j);
    let sum = accumulated(store, terms, weights, count as int, j);
    if count > 0 {
        assert(sum / count <= u64::MAX) by (nonlinear_arith)
            requires
                sum <= count * u64::MAX,
                count > 0,
        ;
    }
}

/// The sum of weights stays within the number of terms times the largest
/// weight.
pub proof fn lemma_accumulated_bound(
    store: StoreView,
    terms: Seq<nat>,
    weights: Seq<Seq<u64>>,
    upto: int,
    j: int,
)
    requires
        0 <= upto,
    ensures
        accumulated(store, terms, weights, upto, j) <= upto * u64::MAX,
    decreases upto,
{
    if upto > 0 {
        lemma_accumulated_bound(store, terms, weights, upto - 1, j);
        assert((upto - 1) * u64::MAX + u64::MAX == upto * u64::MAX) by (nonlinear_arith);
    }
}

impl TfIdf {
    /// Number of documents that hold `term`.
    pub fn document_frequency(&self, term: PoolId) -> (n: usize)
        ensures
            n == containing(self@.documents, term.slot()),
    {
        let mut n: usize = 0;
        let mut j: usize = 0;
        assert(self@.documents.take(0) =~= Seq::<DocumentView>::empty());
        while j < self.len()
            invariant
                j <= self@.documents.len(),
                n == containing(self@.documents.take(j as int), term.slot()),
                n <= j,
            decreases self@.documents.len() - j,
        {
            assert(self@.documents.take(j + 1).drop_last() =~= self@.documents.take(j as int));
            if self.document(j).term_frequency().find(term).is_some() {
                n += 1;
            }
            j += 1;
        }
        assert(self@.documents.take(j as int) =~= self@.documents);
        n
    }

    /// Ranks the documents for a query whose weights are known.
    ///
    /// `weights` holds one row for each query term, in the order of the
    /// query, and in each row one weight for each document, in the order
    /// of the store; the weight of a document that does not hold the term
    /// is not read. The result holds one line for each document that holds
    /// a query term, with its score, sorted from the highest line down.
    pub fn sort_weighted(&self, terms: &[PoolId], weights: &Vec<Vec<u64>>) -> (ranked: Vec<
        (u64, String, String),
    >)
        requires
            shaped(rows(weights@), terms@.len(), self@.documents.len()),
        ensures
            descending(lines_of(ranked@)),
            lines_of(ranked@).to_multiset() == hits(
                self@,
                slots(terms@),
                rows(weights@),
                self@.documents.len() as int,
            ).to_multiset(),
    {
        let ghost query = slots(terms@);
        let ghost table = rows(weights@);
        let mut list: Vec<(u64, String, String)> = Vec::new();
        let mut j: usize = 0;
        assert(lines_of(list@) =~= hits(self@, query, table, 0));
        while j < self.len()
            invariant
                j <= self@.documents.len(),
                query == slots(terms@),
                table == rows(weights@),
                shaped(table, terms@.len(), self@.documents.len()),
                lines_of(list@) == hits(self@, query, table, j as int),
            decreases self@.documents.len() - j,
        {
            let document = self.document(j);
            let mut sum: u128 = 0;
            let mut hit = false;
            let mut i: usize = 0;
            while i < terms.len()
                invariant
                    i <= terms@.len(),
                    j < self@.documents.len(),
                    document@ == self@.documents[j as int],
                    query == slots(terms@),
                    table == rows(weights@),
                    shaped(table, terms@.len(), self@.documents.len()),
                    sum == accumulated(self@, query, table, i as int, j as int),
                    sum <= i * u64::MAX,
                    hit == hit_within(self@, query, i as int, j as int),
                decreases terms@.len() - i,
            {
                assert(query[i as int] == terms@[i as int].slot());
                assert(table[i as int] == weights@[i as int]@);
                let held = document.term_frequency().find(terms[i]).is_some();
                proof {
                    lemma_accumulated_bound(self@, query, table, i + 1, j as int);
                    if held {
                        assert(hit_within(self@, query, i + 1, j as int));
                    } else if hit_within(self@, query, i + 1, j as int) {
                        let k = choose|k: int|
                            0 <= k < i + 1 && has_term(
                                self@.documents[j as int].term_frequency,
                                #[trigger] query[k],
                            );
                        assert(k < i);
                    }
                }
                if held {
                    sum = sum + weights[i][j] as u128;
                    hit = true;
                }
                i += 1;
            }
            if hit {
                let count = terms.len() as u128;
                assert(sum / count <= u64::MAX) by (nonlinear_arith)
                    requires
                        sum <= count * u64::MAX,
                        count > 0,
                ;
                let points = (sum / count) as u64;
                list.push((points, document.path().to_owned(), document.title().to_owned()));
                assert(lines_of(list@) =~= hits(self@, query, table, j + 1));
            }
            j += 1;
        }
        sort_descending(list)
    }

    /// Ranks the documents for a query.
    ///
    /// A query term weighs in each document that holds it what `weigh`
    /// returns for the number of documents, the number of documents that
    /// hold the term, and the bit pattern of the term's frequency in the
    /// document. With these weights the result is that of
    /// [`TfIdf::sort_weighted`].
    pub fn sort_documents<F: Fn(usize, usize, u64) -> u64>(
        &self,
        terms: &[PoolId],
        weigh: F,
    ) -> (ranked: Vec<(u64, String, String)>)
        requires
            self.wf(),
            forall|documents: usize, holders: usize, frequency: u64|
                0 < holders <= documents ==> weigh.requires((documents, holders, frequency)),
        ensures
            descending(lines_of(ranked@)),
            exists|weights: Seq<Seq<u64>>|
                {
                    &&& #[trigger] weighed_by(self@, slots(terms@), weights, weigh)
                    &&& lines_of(ranked@).to_multiset() == hits(
                        self@,
                        slots(terms@),
                        weights,
                        self@.documents.len() as int,
                    ).to_multiset()
                },
    {
        let ghost query = slots(terms@);
        let documents = self.len();
        let mut weights: Vec<Vec<u64>> = Vec::new();
        let mut i: usize = 0;
        while i < terms.len()
            invariant
                i <= terms@.len(),
                self.wf(),
                documents == self@.documents.len(),
                query == slots(terms@),
                forall|documents: usize, holders: usize, frequency: u64|
                    0 < holders <= documents ==> weigh.requires((documents, holders, frequency)),
                weights@.len() == i,
                forall|a: int| 0 <= a < i ==> (#[trigger] weights@[a])@.len() == documents,
                forall|a: int, b: int|
                    0 <= a < i && 0 <= b < documents && has_term(
                        self@.documents[b].term_frequency,
                        query[a],
                    ) ==> weigh.ensures(
                        (
                            documents,
                            containing(self@.documents, query[a]) as usize,
                            value_of(self@.documents[b].term_frequency, query[a])->Some_0,
                        ),
                        #[trigger] weights@[a]@[b],
                    ),
            decreases terms@.len() - i,
        {
            let term = terms[i];
            assert(query[i as int] == term.slot());
            let holders = self.document_frequency(term);
            let mut row: Vec<u64> = Vec::new();
            let mut j: usize = 0;
            while j < documents
                invariant
                    j <= documents,
                    self.wf(),
                    documents == self@.documents.len(),
                    holders == containing(self@.documents, term.slot()),
                    forall|documents: usize, holders: usize, frequency: u64|
                        0 < holders <= documents ==> weigh.requires(
                            (documents, holders, frequency),
                        ),
                    row@.len() == j,
                    forall|b: int|
                        0 <= b < j && has_term(self@.documents[b].term_frequency, term.slot())
                            ==> weigh.ensures(
                            (
                                documents,
                                holders,
                                value_of(self@.documents[b].term_frequency, term.slot())->Some_0,
                            ),
                            #[trigger] row@[b],
                        ),
                decreases documents - j,
            {
                assert(distinct_terms(self@.documents[j as int].term_frequency));
                proof {
                    if has_term(self@.documents[j as int].term_frequency, term.slot()) {
                        lemma_holder_counts(self@.documents, term.slot(), j as int);
                    }
                }
                let weight = match self.document(j).term_frequency().get(term) {
                    Some(frequency) => weigh(documents, holders, frequency),
                    None => 0,
                };
                row.push(weight);
                j += 1;
            }
            weights.push(row);
            i += 1;
        }
        proof {
            let table = rows(weights@);
            assert(weighed_by(self@, query, table, weigh)) by {
                assert forall|a: int, b: int|
                    0 <= a < query.len() && 0 <= b < self@.documents.len() && has_term(
                        self@.documents[b].term_frequency,
                        query[a],
                    ) implies weigh.ensures(
                    (
                        self@.documents.len() as usize,
                        containing(self@.documents, query[a]) as usize,
                        value_of(self@.documents[b].term_frequency, query[a])->Some_0,
                    ),
                    #[trigger] table[a][b],
                ) by {
                    assert(table[a][b] == weights@[a]@[b]);
                }
            }
        }
        self.sort_weighted(terms, &weights)
    }
}

} // verus!
