//! Tables sorted by key: the model of such a table, and an executable table
//! that keeps its keys in ascending order.
use super::order::{
    lemma_lex_asymmetric, lemma_lex_irreflexive, lemma_lex_total, lemma_lex_transitive, lex_lt,
    Ranked,
};
use vstd::prelude::*;

verus! {

/// Each key comes before all keys after it.
pub open spec fn ascending<T: Ranked>(keys: Seq<Seq<T>>) -> bool {
    forall|i: int, j: int|
        0 <= i < j < keys.len() ==> lex_lt(#[trigger] keys[i], #[trigger] keys[j])
}

/// `key` occurs among `keys`.
pub open spec fn has_key<T>(keys: Seq<Seq<T>>, key: Seq<T>) -> bool {
    exists|i: int| 0 <= i < keys.len() && #[trigger] keys[i] == key
}

/// An index at which `key` occurs among `keys`, if it occurs at all.
pub open spec fn index_of<T>(keys: Seq<Seq<T>>, key: Seq<T>) -> int {
    choose|i: int| 0 <= i < keys.len() && #[trigger] keys[i] == key
}

/// `r` splits `keys` into those before `key` and those not before it.
pub open spec fn is_rank<T: Ranked>(keys: Seq<Seq<T>>, key: Seq<T>, r: int) -> bool {
    &&& 0 <= r <= keys.len()
    &&& forall|j: int| 0 <= j < r ==> lex_lt(#[trigger] keys[j], key)
    &&& forall|j: int| r <= j < keys.len() ==> !lex_lt(#[trigger] keys[j], key)
}

/// The number of keys that come before `key`, for ascending keys.
pub open spec fn rank<T: Ranked>(keys: Seq<Seq<T>>, key: Seq<T>) -> int {
    choose|r: int| is_rank(keys, key, r)
}

/// Model of a table: keys in ascending order, each with the value at the
/// same index.
pub ghost struct Assoc<T, W> {
    pub keys: Seq<Seq<T>>,
    pub vals: Seq<W>,
}

impl<T: Ranked, W> Assoc<T, W> {
    /// The table without entries.
    pub open spec fn empty() -> Self {
        Assoc { keys: Seq::empty(), vals: Seq::empty() }
    }

    /// Keys and values pair up, and the keys ascend.
    pub open spec fn wf(self) -> bool {
        self.keys.len() == self.vals.len() && ascending(self.keys)
    }

    /// The number of entries.
    pub open spec fn len(self) -> nat {
        self.keys.len()
    }

    /// `key` has an entry.
    pub open spec fn has(self, key: Seq<T>) -> bool {
        has_key(self.keys, key)
    }

    /// The value stored under `key`, if any.
    pub open spec fn get(self, key: Seq<T>) -> Option<W> {
        if self.has(key) {
            Some(self.vals[index_of(self.keys, key)])
        } else {
            None
        }
    }

    /// The table with `val` stored under `key`: in place of the old value
    /// where the key has one, else as a new entry at the key's rank.
    pub open spec fn put(self, key: Seq<T>, val: W) -> Self {
        if self.has(key) {
            Assoc { keys: self.keys, vals: self.vals.update(index_of(self.keys, key), val) }
        } else {
            Assoc {
                keys: self.keys.insert(rank(self.keys, key), key),
                vals: self.vals.insert(rank(self.keys, key), val),
            }
        }
    }

    /// The table without the entry of `key`.
    pub open spec fn delete(self, key: Seq<T>) -> Self {
        if self.has(key) {
            Assoc {
                keys: self.keys.remove(index_of(self.keys, key)),
                vals: self.vals.remove(index_of(self.keys, key)),
            }
        } else {
            self
        }
    }
}

/// In ascending keys a key occurs at one index only.
pub proof fn lemma_index_unique<T: Ranked>(keys: Seq<Seq<T>>, i: int)
    requires
        ascending(keys),
        0 <= i < keys.len(),
    ensures
        has_key(keys, keys[i]),
        index_of(keys, keys[i]) == i,
{
    let j = index_of(keys, keys[i]);
    if j < i {
        lemma_lex_irreflexive(keys[i]);
        assert(lex_lt(keys[j], keys[i]));
    } else if i < j {
        lemma_lex_irreflexive(keys[i]);
        assert(lex_lt(keys[i], keys[j]));
    }
}

/// Ascending keys have one rank for each key.
pub proof fn lemma_rank_unique<T: Ranked>(keys: Seq<Seq<T>>, key: Seq<T>, r: int)
    requires
        is_rank(keys, key, r),
    ensures
        rank(keys, key) == r,
{
    let q = rank(keys, key);
    if q < r {
        assert(lex_lt(keys[q], key));
    } else if r < q {
        assert(lex_lt(keys[r], key));
    }
}

/// A key that is absent from ascending keys has a rank, and every key from
/// that rank on comes after it.
pub proof fn lemma_rank_exists<T: Ranked>(keys: Seq<Seq<T>>, key: Seq<T>)
    requires
        ascending(keys),
    ensures
        is_rank(keys, key, rank(keys, key)),
    decreases keys.len(),
{
    if keys.len() == 0 {
        assert(is_rank(keys, key, 0));
    } else {
        let front = keys.drop_last();
        assert forall|i: int, j: int| 0 <= i < j < front.len() implies lex_lt(
            #[trigger] front[i],
            #[trigger] front[j],
        ) by {
            assert(front[i] == keys[i] && front[j] == keys[j]);
        }
        lemma_rank_exists(front, key);
        let r = rank(front, key);
        if lex_lt(keys.last(), key) {
            assert forall|j: int| 0 <= j < keys.len() implies lex_lt(#[trigger] keys[j], key) by {
                if j < keys.len() - 1 {
                    assert(lex_lt(keys[j], keys[keys.len() - 1]));
                    lemma_lex_transitive(keys[j], keys.last(), key);
                }
            }
            assert(is_rank(keys, key, keys.len() as int));
        } else {
            if r < front.len() {
                assert forall|j: int| 0 <= j < r implies lex_lt(#[trigger] keys[j], key) by {
                    assert(front[j] == keys[j]);
                }
                assert forall|j: int| r <= j < keys.len() implies !lex_lt(
                    #[trigger] keys[j],
                    key,
                ) by {
                    if j < front.len() {
                        assert(front[j] == keys[j]);
                    }
                }
                assert(is_rank(keys, key, r));
            } else {
                assert forall|j: int| 0 <= j < r implies lex_lt(#[trigger] keys[j], key) by {
                    assert(front[j] == keys[j]);
                }
                assert(is_rank(keys, key, r));
            }
        }
    }
}

/// Inserting an absent key at its rank keeps the keys ascending.
pub proof fn lemma_insert_ascending<T: Ranked>(keys: Seq<Seq<T>>, key: Seq<T>, r: int)
    requires
        ascending(keys),
        is_rank(keys, key, r),
        !has_key(keys, key),
    ensures
        ascending(keys.insert(r, key)),
{
    let out = keys.insert(r, key);
    assert forall|i: int, j: int| 0 <= i < j < out.len() implies lex_lt(
        #[trigger] out[i],
        #[trigger] out[j],
    ) by {
        if j == r {
            assert(out[i] == keys[i]);
        } else if i == r {
            assert(out[j] == keys[j - 1]);
            lemma_lex_total(keys[j - 1], key);
        } else {
            let a = if i < r { i } else { i - 1 };
            let b = if j < r { j } else { j - 1 };
            assert(out[i] == keys[a] && out[j] == keys[b]);
        }
    }
}

/// Removing an entry keeps the keys ascending.
pub proof fn lemma_remove_ascending<T: Ranked>(keys: Seq<Seq<T>>, i: int)
    requires
        ascending(keys),
        0 <= i < keys.len(),
    ensures
        ascending(keys.remove(i)),
        !has_key(keys.remove(i), keys[i]),
        forall|k: Seq<T>| k != keys[i] ==> (has_key(keys.remove(i), k) <==> has_key(keys, k)),
{
    let out = keys.remove(i);
    assert forall|a: int, b: int| 0 <= a < b < out.len() implies lex_lt(
        #[trigger] out[a],
        #[trigger] out[b],
    ) by {
        let x = if a < i { a } else { a + 1 };
        let y = if b < i { b } else { b + 1 };
        assert(out[a] == keys[x] && out[b] == keys[y]);
    }
    if has_key(out, keys[i]) {
        let j = index_of(out, keys[i]);
        let y = if j < i { j } else { j + 1 };
        assert(out[j] == keys[y]);
        lemma_lex_irreflexive(keys[i]);
        if y < i {
            assert(lex_lt(keys[y], keys[i]));
        } else {
            assert(lex_lt(keys[i], keys[y]));
        }
    }
    assert forall|k: Seq<T>| k != keys[i] implies (has_key(out, k) <==> has_key(keys, k)) by {
        if has_key(out, k) {
            let j = index_of(out, k);
            let y = if j < i { j } else { j + 1 };
            assert(out[j] == keys[y]);
        }
        if has_key(keys, k) {
            let j = index_of(keys, k);
            let y = if j < i { j } else { j - 1 };
            assert(out[y] == keys[j]);
        }
    }
}

impl<T: Ranked, W> Assoc<T, W> {
    /// Storing a value keeps the table well formed, makes it the key's
    /// value, and leaves every other key as it was.
    pub proof fn lemma_put(self, key: Seq<T>, val: W)
        requires
            self.wf(),
        ensures
            self.put(key, val).wf(),
            self.put(key, val).get(key) == Some(val),
            forall|k: Seq<T>| k != key ==> self.put(key, val).get(k) == self.get(k),
            forall|k: Seq<T>| self.put(key, val).has(k) <==> (k == key || self.has(k)),
    {
        let out = self.put(key, val);
        if self.has(key) {
            let i = index_of(self.keys, key);
            lemma_index_unique(self.keys, i);
            assert forall|k: Seq<T>| k != key implies out.get(k) == self.get(k) by {
                if self.has(k) {
                    let j = index_of(self.keys, k);
                    assert(j != i);
                }
            }
        } else {
            lemma_rank_exists(self.keys, key);
            let r = rank(self.keys, key);
            lemma_insert_ascending(self.keys, key, r);
            assert(out.keys[r] == key);
            lemma_index_unique(out.keys, r);
            assert forall|k: Seq<T>| k != key implies out.get(k) == self.get(k) by {
                if self.has(k) {
                    let j = index_of(self.keys, k);
                    let y = if j < r { j } else { j + 1 };
                    assert(out.keys[y] == k);
                    lemma_index_unique(out.keys, y);
                    assert(out.vals[y] == self.vals[j]);
                } else if out.has(k) {
                    let y = index_of(out.keys, k);
                    let j = if y < r { y } else { y - 1 };
                    assert(self.keys[j] == k);
                }
            }
            assert forall|k: Seq<T>| out.has(k) <==> (k == key || self.has(k)) by {
                if self.has(k) {
                    let j = index_of(self.keys, k);
                    let y = if j < r { j } else { j + 1 };
                    assert(out.keys[y] == k);
                }
                if out.has(k) && k != key {
                    let y = index_of(out.keys, k);
                    let j = if y < r { y } else { y - 1 };
                    assert(self.keys[j] == k);
                }
            }
        }
    }

    /// Deleting a key keeps the table well formed, removes the key's entry,
    /// and leaves every other key as it was.
    pub proof fn lemma_delete(self, key: Seq<T>)
        requires
            self.wf(),
        ensures
            self.delete(key).wf(),
            self.delete(key).get(key) == None::<W>,
            forall|k: Seq<T>| k != key ==> self.delete(key).get(k) == self.get(k),
            forall|k: Seq<T>| self.delete(key).has(k) <==> (k != key && self.has(k)),
    {
        let out = self.delete(key);
        if self.has(key) {
            let i = index_of(self.keys, key);
            lemma_remove_ascending(self.keys, i);
            assert forall|k: Seq<T>| k != key implies out.get(k) == self.get(k) by {
                if self.has(k) {
                    let j = index_of(self.keys, k);
                    lemma_index_unique(self.keys, j);
                    let y = if j < i { j } else { j - 1 };
                    assert(out.keys[y] == k);
                    lemma_index_unique(out.keys, y);
                }
            }
        }
    }
}

/// A key of a sorted table: a value that stands for a sequence of ranked
/// units and can be compared by it.
pub trait Key: Sized {
    /// What the key is a sequence of.
    type Unit: Ranked;

    /// The sequence that the key stands for.
    spec fn units(&self) -> Seq<Self::Unit>;

    /// `self` comes before `other` in lexicographic order.
    fn before_key(&self, other: &Self) -> (r: bool)
        ensures
            r == lex_lt(self.units(), other.units()),
    ;
}

/// The sequences that `keys` stand for.
pub open spec fn units_of<K: Key>(keys: Seq<K>) -> Seq<Seq<K::Unit>> {
    Seq::new(keys.len(), |i: int| keys[i].units())
}

/// A table that keeps its entries sorted by key, each key once.
#[derive(Debug)]
pub struct Table<K, V> {
    keys: Vec<K>,
    vals: Vec<V>,
}

impl<K: Key, V> Table<K, V> {
    /// The keys, in order.
    pub closed spec fn keys(&self) -> Seq<K> {
        self.keys@
    }

    /// The values, each at the index of its key.
    pub closed spec fn vals(&self) -> Seq<V> {
        self.vals@
    }

    /// The table as a model: what the keys stand for, with the values.
    pub open spec fn model(&self) -> Assoc<K::Unit, V> {
        Assoc { keys: units_of(self.keys()), vals: self.vals() }
    }

    /// The keys ascend and pair up with the values.
    pub open spec fn wf(&self) -> bool {
        self.model().wf()
    }

    /// A table without entries.
    pub fn new() -> (t: Self)
        ensures
            t.wf(),
            t.keys() == Seq::<K>::empty(),
            t.vals() == Seq::<V>::empty(),
            t.model() == Assoc::<K::Unit, V>::empty(),
    {
        let t = Table { keys: Vec::new(), vals: Vec::new() };
        assert(units_of(t.keys()) =~= Seq::<Seq<K::Unit>>::empty());
        t
    }

    /// The number of entries.
    pub fn len(&self) -> (n: usize)
        ensures
            n == self.keys().len(),
    {
        self.keys.len()
    }

    /// The key at index `i`.
    pub fn key(&self, i: usize) -> (k: &K)
        requires
            i < self.keys().len(),
        ensures
            *k == self.keys()[i as int],
    {
        &self.keys[i]
    }

    /// The value at index `i`.
    pub fn value(&self, i: usize) -> (v: &V)
        requires
            i < self.vals().len(),
        ensures
            *v == self.vals()[i as int],
    {
        &self.vals[i]
    }

    /// Where `key` is or belongs: `Ok` with its index where the table holds
    /// it, else `Err` with its rank, the index at which it would be
    /// inserted.
    pub fn find(&self, key: &K) -> (r: Result<usize, usize>)
        requires
            self.wf(),
        ensures
            match r {
                Ok(i) => {
                    &&& i < self.keys().len()
                    &&& self.keys()[i as int].units() == key.units()
                    &&& self.model().has(key.units())
                    &&& index_of(self.model().keys, key.units()) == i
                },
                Err(i) => {
                    &&& !self.model().has(key.units())
                    &&& is_rank(self.model().keys, key.units(), i as int)
                    &&& rank(self.model().keys, key.units()) == i
                },
            },
    {
        let ghost keys = self.model().keys;
        let mut lo: usize = 0;
        let mut hi: usize = self.keys.len();
        while lo < hi
            invariant
                self.wf(),
                keys == self.model().keys,
                0 <= lo <= hi <= self.keys@.len(),
                forall|j: int| 0 <= j < lo ==> lex_lt(#[trigger] keys[j], key.units()),
                forall|j: int| hi <= j < keys.len() ==> lex_lt(key.units(), #[trigger] keys[j]),
            decreases hi - lo,
        {
            let mid = lo + (hi - lo) / 2;
            let probe = &self.keys[mid];
            assert(keys[mid as int] == probe.units());
            if probe.before_key(key) {
                proof {
                    assert forall|j: int| 0 <= j < mid + 1 implies lex_lt(
                        #[trigger] keys[j],
                        key.units(),
                    ) by {
                        if j < mid {
                            assert(lex_lt(keys[j], keys[mid as int]));
                            lemma_lex_transitive(keys[j], keys[mid as int], key.units());
                        }
                    }
                }
                lo = mid + 1;
            } else if key.before_key(probe) {
                proof {
                    assert forall|j: int| mid <= j < keys.len() implies lex_lt(
                        key.units(),
                        #[trigger] keys[j],
                    ) by {
                        if mid < j {
                            assert(lex_lt(keys[mid as int], keys[j]));
                            lemma_lex_transitive(key.units(), keys[mid as int], keys[j]);
                        }
                    }
                }
                hi = mid;
            } else {
                proof {
                    lemma_lex_total(probe.units(), key.units());
                    lemma_index_unique(keys, mid as int);
                }
                return Ok(mid);
            }
        }
        proof {
            assert forall|j: int| lo <= j < keys.len() implies !lex_lt(
                #[trigger] keys[j],
                key.units(),
            ) by {
                lemma_lex_asymmetric(key.units(), keys[j]);
            }
            assert(is_rank(keys, key.units(), lo as int));
            lemma_rank_unique(keys, key.units(), lo as int);
            if has_key(keys, key.units()) {
                let j = index_of(keys, key.units());
                assert(keys[j] == key.units());
                lemma_lex_irreflexive(key.units());
            }
        }
        Err(lo)
    }

    /// Inserts a new entry at the rank of its key.
    pub fn insert(&mut self, at: usize, key: K, val: V)
        requires
            old(self).wf(),
            !old(self).model().has(key.units()),
            is_rank(old(self).model().keys, key.units(), at as int),
        ensures
            final(self).wf(),
            final(self).keys() == old(self).keys().insert(at as int, key),
            final(self).vals() == old(self).vals().insert(at as int, val),
            final(self).model() == old(self).model().put(key.units(), val),
    {
        proof {
            lemma_rank_unique(self.model().keys, key.units(), at as int);
            lemma_insert_ascending(self.model().keys, key.units(), at as int);
        }
        self.keys.insert(at, key);
        self.vals.insert(at, val);
        assert(units_of(self.keys()) =~= units_of(old(self).keys()).insert(at as int, key.units()));
    }

    /// Removes the entry at index `i` and hands it out.
    pub fn remove(&mut self, i: usize) -> (entry: (K, V))
        requires
            old(self).wf(),
            i < old(self).keys().len(),
        ensures
            final(self).wf(),
            entry.0 == old(self).keys()[i as int],
            entry.1 == old(self).vals()[i as int],
            final(self).keys() == old(self).keys().remove(i as int),
            final(self).vals() == old(self).vals().remove(i as int),
            final(self).model() == old(self).model().delete(entry.0.units()),
    {
        proof {
            lemma_index_unique(self.model().keys, i as int);
            lemma_remove_ascending(self.model().keys, i as int);
        }
        let key = self.keys.remove(i);
        let val = self.vals.remove(i);
        assert(units_of(self.keys()) =~= units_of(old(self).keys()).remove(i as int));
        (key, val)
    }

    /// The keys, in order, without the values.
    pub fn into_keys(self) -> (keys: Vec<K>)
        ensures
            keys@ == self.keys(),
    {
        self.keys
    }

    /// The value at index `i`, to be changed in place.
    pub fn value_mut(&mut self, i: usize) -> (v: &mut V)
        requires
            old(self).wf(),
            i < old(self).vals().len(),
        ensures
            *v == old(self).vals()[i as int],
            final(self).keys() == old(self).keys(),
            final(self).vals() == old(self).vals().update(i as int, *final(v)),
    {
        &mut self.vals[i]
    }

    /// Puts `val` in place of the value at index `i` and hands the old
    /// value out.
    pub fn replace(&mut self, i: usize, val: V) -> (was: V)
        requires
            old(self).wf(),
            i < old(self).keys().len(),
        ensures
            final(self).wf(),
            was == old(self).vals()[i as int],
            final(self).keys() == old(self).keys(),
            final(self).vals() == old(self).vals().update(i as int, val),
            final(self).model() == old(self).model().put(old(self).keys()[i as int].units(), val),
    {
        proof {
            lemma_index_unique(self.model().keys, i as int);
        }
        let mut val = val;
        core::mem::swap(&mut self.vals[i], &mut val);
        val
    }
}

} // verus!
