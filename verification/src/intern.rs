//! String interning: an append-only table that gives every distinct text a
//! small, stable handle.

use vstd::hash_map::StringHashMap;
use vstd::prelude::*;

verus! {

/// Handle of an interned text. Two handles issued by one pool are equal
/// exactly when their texts are equal.
#[derive(Clone, Copy, Debug, PartialEq, Eq, Hash, Structural)]
pub struct PoolId(usize);

impl PoolId {
    /// Position of the handle's text in the pool that issued it.
    pub closed spec fn slot(self) -> nat {
        self.0 as nat
    }

    /// Position of the handle's text in the pool that issued it.
    pub fn index(self) -> (i: usize)
        ensures
            i == self.slot(),
    {
        self.0
    }

    /// A position is a machine-sized number.
    pub proof fn lemma_slot_bound(self)
        ensures
            self.slot() <= usize::MAX,
    {
    }

    /// A handle is its position: handles with the same position are the
    /// same handle.
    pub proof fn law_handle_is_its_slot(a: PoolId, b: PoolId)
        requires
            a.slot() == b.slot(),
        ensures
            a == b,
    {
    }
}

/// The positions of a list of handles.
pub open spec fn slots(handles: Seq<PoolId>) -> Seq<nat> {
    Seq::new(handles.len(), |i: int| handles[i].slot())
}

/// No text occurs twice in `pool`.
pub open spec fn distinct_texts(pool: Seq<Seq<char>>) -> bool {
    forall|i: int, j: int| 0 <= i < j < pool.len() ==> pool[i] != pool[j]
}

/// The pool after `text` has been interned: unchanged when the text is
/// already held, extended by it at the end otherwise.
pub open spec fn interned(pool: Seq<Seq<char>>, text: Seq<char>) -> Seq<Seq<char>> {
    if pool.contains(text) {
        pool
    } else {
        pool.push(text)
    }
}

/// Position under which `text` is found once it has been interned in `pool`.
pub open spec fn handle_of(pool: Seq<Seq<char>>, text: Seq<char>) -> nat {
    if pool.contains(text) {
        pool.index_of(text) as nat
    } else {
        pool.len()
    }
}

/// `later` holds every text of `earlier` under the same handle.
pub open spec fn extends(later: Seq<Seq<char>>, earlier: Seq<Seq<char>>) -> bool {
    &&& earlier.len() <= later.len()
    &&& forall|i: int| 0 <= i < earlier.len() ==> later[i] == earlier[i]
}

/// Interning the same text a second time changes nothing and yields the
/// handle of the first time.
pub proof fn law_intern_idempotent(pool: Seq<Seq<char>>, text: Seq<char>)
    requires
        distinct_texts(pool),
    ensures
        interned(interned(pool, text), text) == interned(pool, text),
        handle_of(interned(pool, text), text) == handle_of(pool, text),
        handle_of(pool, text) < interned(pool, text).len(),
        interned(pool, text)[handle_of(pool, text) as int] == text,
        distinct_texts(interned(pool, text)),
        extends(interned(pool, text), pool),
{
    let after = interned(pool, text);
    if pool.contains(text) {
        let i = pool.index_of(text);
        assert(pool[i] == text);
    } else {
        assert(after[pool.len() as int] == text);
        assert(after.contains(text));
        let i = after.index_of(text);
        assert(after[i] == text);
        if i < pool.len() {
            assert(pool[i] == text);
            assert(pool.contains(text));
        }
    }
}

/// Different texts get different handles, and a handle keeps its text
/// whatever is interned after it.
pub proof fn law_intern_injective(pool: Seq<Seq<char>>, a: Seq<char>, b: Seq<char>)
    requires
        distinct_texts(pool),
        a != b,
    ensures
        handle_of(pool, a) != handle_of(interned(pool, a), b),
        interned(interned(pool, a), b)[handle_of(pool, a) as int] == a,
        interned(interned(pool, a), b)[handle_of(interned(pool, a), b) as int] == b,
{
    law_intern_idempotent(pool, a);
    let first = interned(pool, a);
    law_intern_idempotent(first, b);
    let second = interned(first, b);
    let ha = handle_of(pool, a) as int;
    let hb = handle_of(first, b) as int;
    assert(first[ha] == a);
    assert(second[hb] == b);
    assert(second[ha] == first[ha]);
}

/// An append-only table of texts. A text's position is its handle.
pub struct StringPool {
    flat_pool: Vec<String>,
    map_pool: StringHashMap<usize>,
}

impl View for StringPool {
    type V = Seq<Seq<char>>;

    /// The texts held, by handle.
    closed spec fn view(&self) -> Seq<Seq<char>> {
        Seq::new(self.flat_pool@.len(), |i: int| self.flat_pool@[i]@)
    }
}

impl StringPool {
    /// The lookup table agrees with the list of texts in both directions.
    pub closed spec fn wf(&self) -> bool {
        &&& forall|i: int|
            0 <= i < self.flat_pool@.len() ==> self.map_pool@.contains_key(
                #[trigger] self.flat_pool@[i]@,
            ) && self.map_pool@[self.flat_pool@[i]@] == i
        &&& forall|k: Seq<char>| #[trigger]
            self.map_pool@.contains_key(k) ==> self.map_pool@[k] < self.flat_pool@.len()
                && self.flat_pool@[self.map_pool@[k] as int]@ == k
    }

    /// A well-formed pool holds no text twice.
    pub proof fn lemma_distinct(&self)
        requires
            self.wf(),
        ensures
            distinct_texts(self@),
    {
        assert forall|i: int, j: int| 0 <= i < j < self@.len() implies self@[i] != self@[j] by {
            assert(self.map_pool@[self.flat_pool@[i]@] == i);
            assert(self.map_pool@[self.flat_pool@[j]@] == j);
        }
    }

    /// An empty pool.
    pub fn new() -> (pool: StringPool)
        ensures
            pool.wf(),
            pool@ == Seq::<Seq<char>>::empty(),
    {
        let pool = StringPool { flat_pool: Vec::new(), map_pool: StringHashMap::new() };
        assert(pool@ =~= Seq::<Seq<char>>::empty());
        pool
    }

    /// Number of texts held, which is also the next handle to be issued.
    pub fn len(&self) -> (n: usize)
        ensures
            n == self@.len(),
    {
        self.flat_pool.len()
    }

    /// The handle of `s` if it has been interned, without changing the pool.
    pub fn lookup(&self, s: &str) -> (found: Option<PoolId>)
        requires
            self.wf(),
        ensures
            found is Some <==> self@.contains(s@),
            found matches Some(id) ==> id.slot() == handle_of(self@, s@) && id.slot() < self@.len()
                && self@[id.slot() as int] == s@,
    {
        proof {
            self.lemma_distinct();
        }
        match self.map_pool.get(s) {
            Some(id) => {
                let id = *id;
                proof {
                    assert(self@[id as int] == s@);
                    assert(self@.contains(s@));
                    let i = self@.index_of(s@);
                    assert(self@[i] == s@);
                }
                Some(PoolId(id))
            },
            None => {
                proof {
                    if self@.contains(s@) {
                        let i = self@.index_of(s@);
                        assert(self@[i] == s@);
                        assert(self.flat_pool@[i]@ == s@);
                    }
                }
                None
            },
        }
    }
}

/// Returns the handle of `s`, issuing the next free one if the pool has not
/// seen the text before.
pub fn intern(pool: &mut StringPool, s: &str) -> (id: PoolId)
    requires
        old(pool).wf(),
    ensures
        final(pool).wf(),
        final(pool)@ == interned(old(pool)@, s@),
        id.slot() == handle_of(old(pool)@, s@),
        id.slot() < final(pool)@.len(),
        final(pool)@[id.slot() as int] == s@,
        extends(final(pool)@, old(pool)@),
{
    match pool.lookup(s) {
        Some(id) => id,
        None => {
            let id = pool.flat_pool.len();
            pool.flat_pool.push(s.to_owned());
            pool.map_pool.insert(s.to_owned(), id);
            proof {
                assert(pool@ =~= old(pool)@.push(s@));
                assert forall|i: int|
                    0 <= i < pool.flat_pool@.len() implies pool.map_pool@.contains_key(
                    #[trigger] pool.flat_pool@[i]@,
                ) && pool.map_pool@[pool.flat_pool@[i]@] == i by {
                    if i < id {
                        assert(old(pool).flat_pool@[i]@ == old(pool)@[i]);
                        assert(old(pool)@.contains(old(pool)@[i]));
                    }
                }
            }
            PoolId(id)
        },
    }
}

/// The text behind a handle that `pool` has issued.
pub fn get_str(pool: &StringPool, id: PoolId) -> (s: &str)
    requires
        id.slot() < pool@.len(),
    ensures
        s@ == pool@[id.slot() as int],
{
    pool.flat_pool[id.0].as_str()
}

} // verus!
