//! The key-value term: a map from terms to terms.
//!
//! A map never changes. `put` gives a new map that shares what it can with
//! the one it was called on, which stays as it was. The entries are kept in
//! a hash map under the words of their keys, so they have no order of their
//! own; wherever an order shows, it is the ascending term order of the keys.

use vstd::prelude::*;
use crate::atom::{names_extend, AtomTable};
use crate::heap::{cell_ok, linked, strictly_ascending, Alloc, Heap, Object};
use crate::order::{
    all_well_formed, lemma_equal, lemma_reflexive, lemma_reverse, lemma_transitive, well_formed,
};
use crate::term::{decoded, encoded, lemma_decode_encode, Term};
use crate::value::{
    depth, depth_all, greater, int_order, lemma_depth_all_bounded, lemma_depth_all_covers,
    value_order, values_order, Order, Value,
};
use crate::words::{
    holds_entries, word_map, words_entries, words_get, words_len, words_new, words_update,
    words_without, WordMap,
};

verus! {

/// A map from terms to terms.
pub struct TermMap {
    /// The word of each key, with the word of the value under it.
    pub inner: WordMap,
    /// The keys in ascending term order; no key occurs twice.
    pub keys: Ghost<Seq<Term>>,
    /// The value under each key, in the order of the keys.
    pub values: Ghost<Seq<Term>>,
}

/// The value under the first key at or after `from` that is `k`.
pub open spec fn lookup(keys: Seq<Value>, values: Seq<Value>, k: Value, from: int) -> Option<Value>
    decreases keys.len() - from,
{
    if from < 0 || from >= keys.len() || from >= values.len() {
        None
    } else if keys[from] == k {
        Some(values[from])
    } else {
        lookup(keys, values, k, from + 1)
    }
}

/// The mapping that a sequence of keys and the sequence of their values
/// stand for.
pub open spec fn as_map(keys: Seq<Value>, values: Seq<Value>) -> Map<Value, Value> {
    Map::new(
        |k: Value| lookup(keys, values, k, 0) is Some,
        |k: Value| lookup(keys, values, k, 0)->Some_0,
    )
}

/// The order of two maps: by size; for maps of one size, by their keys in
/// ascending order, the first pair of keys that differ deciding; for maps
/// with the same keys, by the values in the order of their keys, the first
/// pair of values that differ deciding.
pub open spec fn map_order(
    a_keys: Seq<Value>,
    a_values: Seq<Value>,
    b_keys: Seq<Value>,
    b_values: Seq<Value>,
) -> Order {
    if a_keys.len() != b_keys.len() {
        int_order(a_keys.len() as int, b_keys.len() as int)
    } else if values_order(a_keys, b_keys, 0) != Order::Equal {
        values_order(a_keys, b_keys, 0)
    } else {
        values_order(a_values, b_values, 0)
    }
}

/// Maps are ordered as terms by `map_order`: by size, then by their keys in
/// ascending order, then by the values under those keys.
pub proof fn lemma_map_order(
    a_keys: Seq<Value>,
    a_values: Seq<Value>,
    b_keys: Seq<Value>,
    b_values: Seq<Value>,
)
    ensures
        value_order(Value::Mapping(a_keys, a_values), Value::Mapping(b_keys, b_values))
            == map_order(a_keys, a_values, b_keys, b_values),
{
}

/// A map with fewer keys is less than a map with more, whatever the keys
/// and values are.
pub proof fn lemma_shorter_map_is_less(
    a_keys: Seq<Value>,
    a_values: Seq<Value>,
    b_keys: Seq<Value>,
    b_values: Seq<Value>,
)
    requires
        a_keys.len() < b_keys.len(),
    ensures
        map_order(a_keys, a_values, b_keys, b_values) == Order::Less,
        map_order(b_keys, b_values, a_keys, a_values) == Order::Greater,
{
}

/// Where a key stands in ascending keys: every key before `index` is less
/// than `k`; with `found` the key at `index` is `k`, without it every key
/// from `index` on is greater than `k`.
pub open spec fn search_result(keys: Seq<Value>, k: Value, found: bool, index: int) -> bool {
    &&& 0 <= index <= keys.len()
    &&& forall|j: int| 0 <= j < index ==> value_order(#[trigger] keys[j], k) == Order::Less
    &&& found ==> index < keys.len() && keys[index] == k
    &&& !found ==> forall|j: int|
        index <= j < keys.len() ==> value_order(k, #[trigger] keys[j]) == Order::Less
}

/// The sequence after `x` was put at `index`, in place of what is there if
/// `found`.
pub open spec fn after_put<A>(s: Seq<A>, x: A, found: bool, index: int) -> Seq<A> {
    Seq::new(
        (if found {
            s.len()
        } else {
            s.len() + 1
        }) as nat,
        |i: int|
            if i < index {
                s[i]
            } else if i == index {
                x
            } else if found {
                s[i]
            } else {
                s[i - 1]
            },
    )
}

/// The sequence without what is at `index`.
pub open spec fn after_remove<A>(s: Seq<A>, index: int) -> Seq<A> {
    Seq::new(
        (s.len() - 1) as nat,
        |i: int|
            if i < index {
                s[i]
            } else {
                s[i + 1]
            },
    )
}

/// No key occurs twice.
pub open spec fn distinct(keys: Seq<Value>) -> bool {
    forall|i: int, j: int| 0 <= i < j < keys.len() ==> keys[i] != keys[j]
}

/// True if `k` is one of the keys and `v` the value under it.
pub open spec fn has_pair(keys: Seq<Term>, values: Seq<Term>, k: Term, v: Term) -> bool {
    exists|i: int| 0 <= i < keys.len() && 0 <= i < values.len() && #[trigger] keys[i] == k && values[i] == v
}

/// True if `t` is one of the first `upto` terms.
pub open spec fn among(ts: Seq<Term>, upto: int, t: Term) -> bool {
    exists|x: int| 0 <= x < upto && x < ts.len() && #[trigger] ts[x] == t
}

/// True if the entries, in whatever order they are, are these keys with
/// these values, each key once.
pub open spec fn arranged(
    entry_keys: Seq<Term>,
    entry_values: Seq<Term>,
    keys: Seq<Term>,
    values: Seq<Term>,
) -> bool {
    &&& entry_keys.len() == entry_values.len()
    &&& keys.len() == values.len()
    &&& entry_keys.len() == keys.len()
    &&& forall|j: int|
        0 <= j < entry_keys.len() ==> has_pair(keys, values, #[trigger] entry_keys[j], entry_values[j])
    &&& forall|i: int|
        0 <= i < keys.len() ==> has_pair(entry_keys, entry_values, #[trigger] keys[i], values[i])
    &&& forall|i: int, j: int| 0 <= i < j < entry_keys.len() ==> entry_keys[i] != entry_keys[j]
    &&& forall|i: int, j: int| 0 <= i < j < keys.len() ==> keys[i] != keys[j]
}

/// Ascending keys are distinct.
pub proof fn lemma_ascending_distinct(keys: Seq<Value>)
    requires
        strictly_ascending(keys),
    ensures
        distinct(keys),
{
    assert forall|i: int, j: int| 0 <= i < j < keys.len() implies keys[i] != keys[j] by {
        lemma_reflexive(keys[i]);
        assert(value_order(keys[i], keys[j]) == Order::Less);
    }
}

/// Looking up a key that none of the keys from `from` on is finds nothing.
pub proof fn lemma_lookup_absent(keys: Seq<Value>, values: Seq<Value>, k: Value, from: int)
    requires
        0 <= from,
        forall|j: int| from <= j < keys.len() ==> keys[j] != k,
    ensures
        lookup(keys, values, k, from) is None,
    decreases keys.len() - from,
{
    if from < keys.len() {
        lemma_lookup_absent(keys, values, k, from + 1);
    }
}

/// Looking up the key at `i`, which no key between `from` and `i` is, finds
/// the value at `i`.
pub proof fn lemma_lookup_found(keys: Seq<Value>, values: Seq<Value>, k: Value, from: int, i: int)
    requires
        0 <= from <= i < keys.len(),
        keys.len() == values.len(),
        keys[i] == k,
        forall|j: int| from <= j < i ==> keys[j] != k,
    ensures
        lookup(keys, values, k, from) == Some(values[i]),
    decreases i - from,
{
    if from < i {
        lemma_lookup_found(keys, values, k, from + 1, i);
    }
}

/// What is found is the value under some key that is the one looked up.
pub proof fn lemma_lookup_some(keys: Seq<Value>, values: Seq<Value>, k: Value, from: int) -> (i:
    int)
    requires
        0 <= from,
        lookup(keys, values, k, from) is Some,
    ensures
        from <= i < keys.len(),
        i < values.len(),
        keys[i] == k,
        lookup(keys, values, k, from) == Some(values[i]),
    decreases keys.len() - from,
{
    if keys[from] == k {
        from
    } else {
        lemma_lookup_some(keys, values, k, from + 1)
    }
}

/// Putting a key where the search found it, or where it belongs, keeps the
/// keys ascending.
pub proof fn lemma_put_ascending(keys: Seq<Value>, k: Value, found: bool, index: int)
    requires
        strictly_ascending(keys),
        search_result(keys, k, found, index),
    ensures
        strictly_ascending(after_put(keys, k, found, index)),
{
    let new_keys = after_put(keys, k, found, index);
    assert forall|i: int, j: int| 0 <= i < j < new_keys.len() implies #[trigger] value_order(
        new_keys[i],
        new_keys[j],
    ) == Order::Less by {
        let a: int = if i <= index || found {
            i
        } else {
            i - 1
        };
        let b: int = if j <= index || found {
            j
        } else {
            j - 1
        };
        if i < index && j == index {
            assert(value_order(keys[i], k) == Order::Less);
        } else if i == index {
            if found {
                assert(value_order(keys[index], keys[b]) == Order::Less);
            } else {
                assert(value_order(k, keys[b]) == Order::Less);
            }
        } else {
            assert(value_order(keys[a], keys[b]) == Order::Less);
        }
    }
}

/// Putting a key where the search found it, or where it belongs, changes the
/// mapping at that key alone.
pub proof fn lemma_put_mapping(
    keys: Seq<Value>,
    values: Seq<Value>,
    k: Value,
    v: Value,
    found: bool,
    index: int,
)
    requires
        keys.len() == values.len(),
        distinct(keys),
        distinct(after_put(keys, k, found, index)),
        0 <= index <= keys.len(),
        found ==> index < keys.len() && keys[index] == k,
        !found ==> forall|j: int| 0 <= j < keys.len() ==> keys[j] != k,
    ensures
        as_map(after_put(keys, k, found, index), after_put(values, v, found, index)) == as_map(
            keys,
            values,
        ).insert(k, v),
{
    let new_keys = after_put(keys, k, found, index);
    let new_values = after_put(values, v, found, index);
    let before = as_map(keys, values);
    let after = as_map(new_keys, new_values);
    assert forall|x: Value| #[trigger]
        lookup(new_keys, new_values, x, 0) == (if x == k {
            Some(v)
        } else {
            lookup(keys, values, x, 0)
        }) by {
        if x == k {
            assert(new_keys[index] == k);
            lemma_lookup_found(new_keys, new_values, x, 0, index);
        } else if lookup(keys, values, x, 0) is Some {
            let j = lemma_lookup_some(keys, values, x, 0);
            let i = if j < index || found {
                j
            } else {
                j + 1
            };
            assert(new_keys[i] == x);
            lemma_lookup_found(new_keys, new_values, x, 0, i);
        } else {
            if lookup(new_keys, new_values, x, 0) is Some {
                let i = lemma_lookup_some(new_keys, new_values, x, 0);
                let j = if i < index || found {
                    i
                } else {
                    i - 1
                };
                assert(keys[j] == x);
                lemma_lookup_found(keys, values, x, 0, j);
            }
        }
    }
    assert(after =~= before.insert(k, v));
}

/// Taking out the key at `index` keeps the keys ascending and changes the
/// mapping at that key alone.
pub proof fn lemma_remove(keys: Seq<Value>, values: Seq<Value>, index: int)
    requires
        keys.len() == values.len(),
        strictly_ascending(keys),
        0 <= index < keys.len(),
    ensures
        strictly_ascending(after_remove(keys, index)),
        as_map(after_remove(keys, index), after_remove(values, index)) == as_map(
            keys,
            values,
        ).remove(keys[index]),
{
    let new_keys = after_remove(keys, index);
    let new_values = after_remove(values, index);
    assert forall|i: int, j: int| 0 <= i < j < new_keys.len() implies #[trigger] value_order(
        new_keys[i],
        new_keys[j],
    ) == Order::Less by {
        let a: int = if i < index {
            i
        } else {
            i + 1
        };
        let b: int = if j < index {
            j
        } else {
            j + 1
        };
        assert(value_order(keys[a], keys[b]) == Order::Less);
    }
    lemma_ascending_distinct(keys);
    lemma_ascending_distinct(new_keys);
    let k = keys[index];
    assert forall|x: Value| #[trigger]
        lookup(new_keys, new_values, x, 0) == (if x == k {
            None
        } else {
            lookup(keys, values, x, 0)
        }) by {
        if x == k {
            lemma_lookup_absent(new_keys, new_values, x, 0);
        } else if lookup(keys, values, x, 0) is Some {
            let j = lemma_lookup_some(keys, values, x, 0);
            let i = if j < index {
                j
            } else {
                j - 1
            };
            assert(new_keys[i] == x);
            lemma_lookup_found(new_keys, new_values, x, 0, i);
        } else {
            if lookup(new_keys, new_values, x, 0) is Some {
                let i = lemma_lookup_some(new_keys, new_values, x, 0);
                let j = if i < index {
                    i
                } else {
                    i + 1
                };
                assert(keys[j] == x);
                lemma_lookup_found(keys, values, x, 0, j);
            }
        }
    }
    assert(as_map(new_keys, new_values) =~= as_map(keys, values).remove(k));
}

/// Where a key stands among ascending keys.
pub proof fn lemma_search(keys: Seq<Value>, k: Value) -> (r: (bool, int))
    requires
        strictly_ascending(keys),
        all_well_formed(keys),
        well_formed(k),
    ensures
        search_result(keys, k, r.0, r.1),
    decreases keys.len(),
{
    if keys.len() == 0 {
        (false, 0)
    } else {
        let n = keys.len() as int;
        let last = keys[n - 1];
        let front = keys.drop_last();
        assert forall|i: int, j: int| 0 <= i < j < front.len() implies #[trigger] value_order(
            front[i],
            front[j],
        ) == Order::Less by {
            assert(value_order(keys[i], keys[j]) == Order::Less);
        }
        assert forall|i: int| 0 <= i < front.len() implies well_formed(#[trigger] front[i]) by {
            assert(well_formed(keys[i]));
        }
        match value_order(last, k) {
            Order::Less => {
                assert forall|j: int| 0 <= j < n implies value_order(#[trigger] keys[j], k)
                    == Order::Less by {
                    if j < n - 1 {
                        assert(value_order(keys[j], keys[n - 1]) == Order::Less);
                        lemma_transitive(keys[j], last, k);
                    }
                }
                (false, n)
            },
            Order::Equal => {
                lemma_equal(last, k);
                assert forall|j: int| 0 <= j < n - 1 implies value_order(#[trigger] keys[j], k)
                    == Order::Less by {
                    assert(value_order(keys[j], keys[n - 1]) == Order::Less);
                }
                (true, n - 1)
            },
            Order::Greater => {
                let r = lemma_search(front, k);
                lemma_reverse(last, k);
                assert forall|j: int| 0 <= j < r.1 implies value_order(#[trigger] keys[j], k)
                    == Order::Less by {
                    assert(keys[j] == front[j]);
                }
                if r.0 {
                    assert(keys[r.1] == front[r.1]);
                } else {
                    assert forall|j: int| r.1 <= j < n implies value_order(k, #[trigger] keys[j])
                        == Order::Less by {
                        if j < n - 1 {
                            assert(keys[j] == front[j]);
                        }
                    }
                }
                r
            },
        }
    }
}

/// Two ascending sequences of the same values are the same sequence.
pub proof fn lemma_ascending_unique(a: Seq<Value>, b: Seq<Value>)
    requires
        strictly_ascending(a),
        strictly_ascending(b),
        all_well_formed(a),
        all_well_formed(b),
        a.len() == b.len(),
        forall|i: int| 0 <= i < a.len() ==> b.contains(#[trigger] a[i]),
        forall|i: int| 0 <= i < b.len() ==> a.contains(#[trigger] b[i]),
    ensures
        a == b,
    decreases a.len(),
{
    if a.len() > 0 {
        let n = a.len() as int;
        let x = a[n - 1];
        let y = b[n - 1];
        assert(b.contains(x));
        assert(a.contains(y));
        let j = choose|j: int| 0 <= j < n && b[j] == x;
        let i = choose|i: int| 0 <= i < n && a[i] == y;
        lemma_reflexive(x);
        lemma_reflexive(y);
        if j < n - 1 {
            assert(value_order(b[j], b[n - 1]) == Order::Less);
            if i < n - 1 {
                assert(value_order(a[i], a[n - 1]) == Order::Less);
                lemma_transitive(x, y, x);
            }
        }
        assert(x == y);
        let a0 = a.drop_last();
        let b0 = b.drop_last();
        assert forall|p: int, q: int| 0 <= p < q < a0.len() implies #[trigger] value_order(
            a0[p],
            a0[q],
        ) == Order::Less by {
            assert(value_order(a[p], a[q]) == Order::Less);
        }
        assert forall|p: int, q: int| 0 <= p < q < b0.len() implies #[trigger] value_order(
            b0[p],
            b0[q],
        ) == Order::Less by {
            assert(value_order(b[p], b[q]) == Order::Less);
        }
        assert forall|p: int| 0 <= p < a0.len() implies well_formed(#[trigger] a0[p]) by {
            assert(well_formed(a[p]));
        }
        assert forall|p: int| 0 <= p < b0.len() implies well_formed(#[trigger] b0[p]) by {
            assert(well_formed(b[p]));
        }
        assert forall|p: int| 0 <= p < a0.len() implies b0.contains(#[trigger] a0[p]) by {
            assert(b.contains(a[p]));
            let q = choose|q: int| 0 <= q < n && b[q] == a[p];
            assert(value_order(a[p], a[n - 1]) == Order::Less);
            assert(q < n - 1);
            assert(b0[q] == a0[p]);
        }
        assert forall|p: int| 0 <= p < b0.len() implies a0.contains(#[trigger] b0[p]) by {
            assert(a.contains(b[p]));
            let q = choose|q: int| 0 <= q < n && a[q] == b[p];
            assert(value_order(b[p], b[n - 1]) == Order::Less);
            assert(q < n - 1);
            assert(a0[q] == b0[p]);
        }
        lemma_ascending_unique(a0, b0);
        assert(a =~= a0.push(x));
        assert(b =~= b0.push(y));
    } else {
        assert(a =~= b);
    }
}

/// A key put where it belongs among ascending keys leaves them ascending,
/// and they are the keys that they were and the new one.
pub proof fn lemma_inserted(
    heap: &Heap,
    before: Seq<Term>,
    after: Seq<Term>,
    key: Term,
    index: int,
    entry_keys: Seq<Term>,
    j: int,
)
    requires
        0 <= index <= before.len(),
        after == before.insert(index, key),
        heap.contains_all(before),
        heap.contains(key),
        strictly_ascending(heap.values_of(before)),
        search_result(heap.values_of(before), heap.value(key), false, index),
        0 <= j < entry_keys.len(),
        entry_keys[j] == key,
        forall|x: int| 0 <= x < j ==> among(before, before.len() as int, #[trigger] entry_keys[x]),
        forall|y: int| 0 <= y < before.len() ==> among(entry_keys, j, #[trigger] before[y]),
    ensures
        heap.contains_all(after),
        strictly_ascending(heap.values_of(after)),
        forall|x: int| 0 <= x < j + 1 ==> among(after, after.len() as int, #[trigger] entry_keys[x]),
        forall|y: int| 0 <= y < after.len() ==> among(entry_keys, j + 1, #[trigger] after[y]),
{
    let vs = heap.values_of(before);
    assert(heap.values_of(after) =~= after_put(vs, heap.value(key), false, index));
    lemma_put_ascending(vs, heap.value(key), false, index);
    assert forall|y: int| 0 <= y < after.len() implies heap.contains(#[trigger] after[y]) && among(
        entry_keys,
        j + 1,
        after[y],
    ) by {
        if y < index {
            assert(after[y] == before[y]);
            assert(heap.contains(before[y]));
            assert(among(entry_keys, j, before[y]));
            let x = choose|x: int|
                0 <= x < j && x < entry_keys.len() && #[trigger] entry_keys[x] == before[y];
            assert(entry_keys[x] == after[y]);
        } else if y == index {
            assert(entry_keys[j] == after[y]);
        } else {
            assert(after[y] == before[y - 1]);
            assert(heap.contains(before[y - 1]));
            assert(among(entry_keys, j, before[y - 1]));
            let x = choose|x: int|
                0 <= x < j && x < entry_keys.len() && #[trigger] entry_keys[x] == before[y - 1];
            assert(entry_keys[x] == after[y]);
        }
    }
    assert forall|x: int| 0 <= x < j + 1 implies among(
        after,
        after.len() as int,
        #[trigger] entry_keys[x],
    ) by {
        if x < j {
            assert(among(before, before.len() as int, entry_keys[x]));
            let y = choose|y: int|
                0 <= y < before.len() && y < before.len() && #[trigger] before[y] == entry_keys[x];
            if y < index {
                assert(after[y] == entry_keys[x]);
            } else {
                assert(after[y + 1] == entry_keys[x]);
            }
        } else {
            assert(after[index] == entry_keys[x]);
        }
    }
}

impl Heap {
    /// A term that carries its whole value is the only term with that
    /// value.
    pub proof fn lemma_immediate(&self, a: Term, b: Term)
        requires
            self.wf(),
            self.contains(a),
            self.contains(b),
            a.is_immediate(),
            self.value(a) == self.value(b),
        ensures
            a == b,
    {
        self.lemma_shape(b);
        match b {
            Term::Boxed(p) => {
                assert(cell_ok(self.objects@, self.values@, self.names@, p as int));
            },
            _ => {},
        }
    }

    /// Terms of one value among keys of distinct values are one term.
    pub proof fn lemma_same_key(&self, keys: Seq<Term>, i: int, j: int)
        requires
            strictly_ascending(self.values_of(keys)),
            0 <= i < keys.len(),
            0 <= j < keys.len(),
            self.value(keys[i]) == self.value(keys[j]),
        ensures
            i == j,
    {
        let ks = self.values_of(keys);
        lemma_reflexive(ks[i]);
        if i < j {
            assert(value_order(ks[i], ks[j]) == Order::Less);
        } else if j < i {
            assert(value_order(ks[j], ks[i]) == Order::Less);
        }
    }
}

/// Where `key` stands among terms in ascending order.
pub fn search_terms(heap: &Heap, atoms: &AtomTable, keys: &Vec<Term>, key: Term) -> (r: (
    bool,
    usize,
))
    requires
        heap.wf(),
        heap.contains_all(keys@),
        strictly_ascending(heap.values_of(keys@)),
        heap.contains(key),
        names_extend(atoms@, heap.names@),
    ensures
        search_result(heap.values_of(keys@), heap.value(key), r.0, r.1 as int),
    decreases
            greater(depth_all(heap.values_of(keys@), keys@.len() as int), depth(heap.value(key))),
            2nat,
{
    let ghost ks = heap.values_of(keys@);
    let ghost k = heap.value(key);
    let mut low: usize = 0;
    let mut high: usize = keys.len();
    proof {
        heap.lemma_all_well_formed(keys@);
        heap.lemma_well_formed(key);
    }
    while low < high
        invariant
            0 <= low <= high <= keys@.len(),
            heap.wf(),
            heap.contains_all(keys@),
            strictly_ascending(ks),
            heap.contains(key),
            names_extend(atoms@, heap.names@),
            ks == heap.values_of(keys@),
            k == heap.value(key),
            all_well_formed(ks),
            well_formed(k),
            forall|j: int| 0 <= j < low ==> value_order(#[trigger] ks[j], k) == Order::Less,
            forall|j: int| high <= j < ks.len() ==> value_order(k, #[trigger] ks[j]) == Order::Less,
        decreases high - low,
    {
        let middle: usize = low + (high - low) / 2;
        proof {
            assert(heap.contains(keys@[middle as int]));
            assert(ks[middle as int] == heap.value(keys@[middle as int]));
            lemma_depth_all_covers(ks, keys@.len() as int, middle as int);
        }
        let o = heap.compare(atoms, keys[middle], key);
        match o {
            Order::Equal => {
                proof {
                    lemma_equal(ks[middle as int], k);
                    assert forall|j: int| 0 <= j < middle implies value_order(#[trigger] ks[j], k)
                        == Order::Less by {
                        assert(value_order(ks[j], ks[middle as int]) == Order::Less);
                    }
                }
                return (true, middle);
            },
            Order::Less => {
                proof {
                    assert forall|j: int| 0 <= j < middle + 1 implies value_order(
                        #[trigger] ks[j],
                        k,
                    ) == Order::Less by {
                        if j < middle {
                            assert(value_order(ks[j], ks[middle as int]) == Order::Less);
                            lemma_transitive(ks[j], ks[middle as int], k);
                        }
                    }
                }
                low = middle + 1;
            },
            Order::Greater => {
                proof {
                    lemma_reverse(ks[middle as int], k);
                    assert forall|j: int| middle <= j < ks.len() implies value_order(
                        k,
                        #[trigger] ks[j],
                    ) == Order::Less by {
                        if j > middle {
                            assert(value_order(ks[middle as int], ks[j]) == Order::Less);
                            lemma_transitive(k, ks[middle as int], ks[j]);
                        }
                    }
                }
                high = middle;
            },
        }
    }
    (false, low)
}

impl TermMap {
    /// True if the map may be used with this heap: its keys and values are
    /// terms of the heap, its keys ascend, and its words are theirs.
    pub open spec fn within(&self, heap: &Heap) -> bool {
        &&& linked(word_map(self.inner), self.keys@, self.values@)
        &&& heap.contains_all(self.keys@)
        &&& heap.contains_all(self.values@)
        &&& strictly_ascending(heap.values_of(self.keys@))
    }

    /// The keys of the map, by value, in ascending order.
    pub open spec fn key_values(&self, heap: &Heap) -> Seq<Value> {
        heap.values_of(self.keys@)
    }

    /// The values of the map, by value, in the order of their keys.
    pub open spec fn value_values(&self, heap: &Heap) -> Seq<Value> {
        heap.values_of(self.values@)
    }

    /// The mapping that the map stands for.
    pub open spec fn mapping(&self, heap: &Heap) -> Map<Value, Value> {
        as_map(self.key_values(heap), self.value_values(heap))
    }

    /// The value of the map as a term.
    pub open spec fn value(&self, heap: &Heap) -> Value {
        Value::Mapping(self.key_values(heap), self.value_values(heap))
    }

    /// The empty map.
    pub fn new() -> (r: TermMap)
        ensures
            r.keys@.len() == 0,
            r.values@.len() == 0,
            forall|heap: &Heap| r.within(heap),
    {
        let r = TermMap { inner: words_new(), keys: Ghost(Seq::empty()), values: Ghost(Seq::empty()) };
        proof {
            assert(word_map(r.inner).dom() =~= Set::<u128>::empty());
        }
        r
    }

    /// Number of keys.
    pub fn len(&self) -> (r: usize)
        requires
            linked(word_map(self.inner), self.keys@, self.values@),
        ensures
            r == self.keys@.len(),
    {
        words_len(&self.inner)
    }

    /// The keys and the values of the entries, in the order in which the
    /// hash map yields them.
    pub fn entry_terms(&self) -> (r: (Vec<Term>, Vec<Term>))
        requires
            linked(word_map(self.inner), self.keys@, self.values@),
            forall|i: int, j: int| 0 <= i < j < self.keys@.len() ==> self.keys@[i] != self.keys@[j],
        ensures
            arranged(r.0@, r.1@, self.keys@, self.values@),
    {
        let entries = words_entries(&self.inner);
        let ghost words = word_map(self.inner);
        let mut entry_keys: Vec<Term> = Vec::new();
        let mut entry_values: Vec<Term> = Vec::new();
        let mut j: usize = 0;
        while j < entries.len()
            invariant
                0 <= j <= entries@.len(),
                words == word_map(self.inner),
                holds_entries(entries@, words),
                linked(words, self.keys@, self.values@),
                entry_keys@.len() == j,
                entry_values@.len() == j,
                forall|x: int|
                    0 <= x < j ==> encoded(#[trigger] entry_keys@[x]) == entries@[x].0 && encoded(
                        entry_values@[x],
                    ) == entries@[x].1,
                forall|x: int|
                    0 <= x < j ==> has_pair(
                        self.keys@,
                        self.values@,
                        #[trigger] entry_keys@[x],
                        entry_values@[x],
                    ),
            decreases entries@.len() - j,
        {
            let entry = entries[j];
            proof {
                assert(words.contains_key(entries@[j as int].0));
                let i = choose|i: int|
                    0 <= i < self.keys@.len() && encoded(#[trigger] self.keys@[i]) == entry.0;
                lemma_decode_encode(self.keys@[i]);
                lemma_decode_encode(self.values@[i]);
                assert(words[encoded(self.keys@[i])] == encoded(self.values@[i]));
            }
            let key = match Term::decode(entry.0) {
                Some(term) => term,
                None => Term::Nil,
            };
            let value = match Term::decode(entry.1) {
                Some(term) => term,
                None => Term::Nil,
            };
            entry_keys.push(key);
            entry_values.push(value);
            j += 1;
        }
        proof {
            let ek = entry_keys@;
            let ev = entry_values@;
            assert forall|i: int| 0 <= i < self.keys@.len() implies has_pair(
                ek,
                ev,
                #[trigger] self.keys@[i],
                self.values@[i],
            ) by {
                let w = encoded(self.keys@[i]);
                assert(words.contains_key(w));
                let x = choose|x: int| 0 <= x < entries@.len() && (#[trigger] entries@[x]).0 == w;
                lemma_decode_encode(ek[x]);
                lemma_decode_encode(self.keys@[i]);
                lemma_decode_encode(ev[x]);
                lemma_decode_encode(self.values@[i]);
                assert(ek[x] == self.keys@[i]);
                assert(ev[x] == self.values@[i]);
            }
            assert forall|a: int, b: int| 0 <= a < b < ek.len() implies ek[a] != ek[b] by {
                assert(entries@[a].0 != entries@[b].0);
            }
        }
        (entry_keys, entry_values)
    }

    /// The map of these entries, whose keys are known to be distinct.
    pub fn arrange(
        entry_keys: &Vec<Term>,
        entry_values: &Vec<Term>,
        Ghost(keys): Ghost<Seq<Term>>,
        Ghost(values): Ghost<Seq<Term>>,
    ) -> (r: TermMap)
        requires
            arranged(entry_keys@, entry_values@, keys, values),
        ensures
            r.keys@ == keys,
            r.values@ == values,
            linked(word_map(r.inner), keys, values),
    {
        let mut inner = words_new();
        let mut j: usize = 0;
        proof {
            assert(word_map(inner).dom() =~= Set::<u128>::empty());
        }
        while j < entry_keys.len()
            invariant
                0 <= j <= entry_keys@.len(),
                arranged(entry_keys@, entry_values@, keys, values),
                word_map(inner).dom().finite(),
                word_map(inner).dom().len() == j,
                forall|x: int|
                    0 <= x < j ==> word_map(inner).contains_key(encoded(#[trigger] entry_keys@[x]))
                        && word_map(inner)[encoded(entry_keys@[x])] == encoded(entry_values@[x]),
                forall|w: u128|
                    word_map(inner).contains_key(w) ==> exists|x: int|
                        0 <= x < j && encoded(#[trigger] entry_keys@[x]) == w,
            decreases entry_keys@.len() - j,
        {
            let ghost before = word_map(inner);
            let key_word: u128 = entry_keys[j].encode();
            let value_word: u128 = entry_values[j].encode();
            proof {
                if before.contains_key(key_word) {
                    let x = choose|x: int| 0 <= x < j && encoded(#[trigger] entry_keys@[x]) == key_word;
                    lemma_decode_encode(entry_keys@[x]);
                    lemma_decode_encode(entry_keys@[j as int]);
                    assert(false);
                }
            }
            inner = words_update(&inner, key_word, value_word);
            proof {
                assert(word_map(inner).dom() =~= before.dom().insert(key_word));
                assert forall|x: int| 0 <= x < j + 1 implies word_map(inner).contains_key(
                    encoded(#[trigger] entry_keys@[x]),
                ) && word_map(inner)[encoded(entry_keys@[x])] == encoded(entry_values@[x]) by {
                    if x < j {
                        lemma_decode_encode(entry_keys@[x]);
                        lemma_decode_encode(entry_keys@[j as int]);
                        assert(encoded(entry_keys@[x]) != key_word);
                    }
                }
                assert forall|w: u128| word_map(inner).contains_key(w) implies exists|x: int|
                    0 <= x < j + 1 && encoded(#[trigger] entry_keys@[x]) == w by {
                    if w == key_word {
                        assert(encoded(entry_keys@[j as int]) == w);
                    } else {
                        assert(before.contains_key(w));
                        let x = choose|x: int| 0 <= x < j && encoded(#[trigger] entry_keys@[x]) == w;
                        assert(encoded(entry_keys@[x]) == w);
                    }
                }
            }
            j += 1;
        }
        proof {
            let words = word_map(inner);
            assert forall|i: int| 0 <= i < keys.len() implies words.contains_key(
                encoded(#[trigger] keys[i]),
            ) && words[encoded(keys[i])] == encoded(values[i]) by {
                assert(has_pair(entry_keys@, entry_values@, keys[i], values[i]));
                let x = choose|x: int|
                    0 <= x < entry_keys@.len() && 0 <= x < entry_values@.len()
                        && #[trigger] entry_keys@[x] == keys[i] && entry_values@[x] == values[i];
                assert(words.contains_key(encoded(entry_keys@[x])));
            }
            assert forall|w: u128| words.contains_key(w) implies exists|i: int|
                0 <= i < keys.len() && encoded(#[trigger] keys[i]) == w by {
                let x = choose|x: int| 0 <= x < j && encoded(#[trigger] entry_keys@[x]) == w;
                assert(has_pair(keys, values, entry_keys@[x], entry_values@[x]));
                let i = choose|i: int|
                    0 <= i < keys.len() && 0 <= i < values.len() && #[trigger] keys[i]
                        == entry_keys@[x] && values[i] == entry_values@[x];
                assert(encoded(keys[i]) == w);
            }
        }
        TermMap { inner, keys: Ghost(keys), values: Ghost(values) }
    }

    /// The map with the same entries in another heap, given for each entry
    /// of this map, in any order, the terms that stand for it there.
    pub fn transplant(
        &self,
        Ghost(from): Ghost<&Heap>,
        Ghost(to): Ghost<&Heap>,
        Ghost(entry_keys): Ghost<Seq<Term>>,
        Ghost(entry_values): Ghost<Seq<Term>>,
        new_keys: &Vec<Term>,
        new_values: &Vec<Term>,
    ) -> (r: TermMap)
        requires
            self.within(from),
            arranged(entry_keys, entry_values, self.keys@, self.values@),
            new_keys@.len() == entry_keys.len(),
            new_values@.len() == entry_values.len(),
            to.contains_all(new_keys@),
            to.contains_all(new_values@),
            to.values_of(new_keys@) == from.values_of(entry_keys),
            to.values_of(new_values@) == from.values_of(entry_values),
        ensures
            r.within(to),
            r.key_values(to) == self.key_values(from),
            r.value_values(to) == self.value_values(from),
            r.keys@.len() == self.keys@.len(),
            arranged(new_keys@, new_values@, r.keys@, r.values@),
    {
        let ghost n = self.keys@.len();
        let ghost places = Seq::new(
            n,
            |i: int|
                choose|x: int|
                    0 <= x < entry_keys.len() && 0 <= x < entry_values.len()
                        && #[trigger] entry_keys[x] == self.keys@[i] && entry_values[x]
                        == self.values@[i],
        );
        let ghost moved_keys = Seq::new(n, |i: int| new_keys@[places[i]]);
        let ghost moved_values = Seq::new(n, |i: int| new_values@[places[i]]);
        proof {
            let ek = entry_keys;
            let ev = entry_values;
            let ks = self.key_values(from);
            let vs = self.value_values(from);
            let eks = from.values_of(ek);
            let evs = from.values_of(ev);
            assert forall|i: int| 0 <= i < n implies 0 <= #[trigger] places[i] < ek.len()
                && ek[places[i]] == self.keys@[i] && ev[places[i]] == self.values@[i] by {
                assert(has_pair(ek, ev, self.keys@[i], self.values@[i]));
            }
            assert forall|i: int| 0 <= i < n implies to.contains(#[trigger] moved_keys[i])
                && to.value(moved_keys[i]) == ks[i] by {
                let x = places[i];
                assert(to.contains(new_keys@[x]));
                assert(to.values_of(new_keys@)[x] == eks[x]);
            }
            assert forall|i: int| 0 <= i < n implies to.contains(#[trigger] moved_values[i])
                && to.value(moved_values[i]) == vs[i] by {
                let x = places[i];
                assert(to.contains(new_values@[x]));
                assert(to.values_of(new_values@)[x] == evs[x]);
            }
            assert(to.values_of(moved_keys) =~= ks);
            assert(to.values_of(moved_values) =~= vs);
            assert forall|j: int| 0 <= j < new_keys@.len() implies has_pair(
                moved_keys,
                moved_values,
                #[trigger] new_keys@[j],
                new_values@[j],
            ) by {
                assert(has_pair(self.keys@, self.values@, ek[j], ev[j]));
                let i = choose|i: int|
                    0 <= i < self.keys@.len() && 0 <= i < self.values@.len()
                        && #[trigger] self.keys@[i] == ek[j] && self.values@[i] == ev[j];
                let x = places[i];
                if x != j {
                    if x < j {
                        assert(ek[x] != ek[j]);
                    } else {
                        assert(ek[j] != ek[x]);
                    }
                }
                assert(moved_keys[i] == new_keys@[j]);
                assert(moved_values[i] == new_values@[j]);
            }
            assert forall|i: int| 0 <= i < moved_keys.len() implies has_pair(
                new_keys@,
                new_values@,
                #[trigger] moved_keys[i],
                moved_values[i],
            ) by {
                let x = places[i];
                assert(new_keys@[x] == moved_keys[i]);
            }
            assert forall|a: int, b: int| 0 <= a < b < new_keys@.len() implies new_keys@[a]
                != new_keys@[b] by {
                if new_keys@[a] == new_keys@[b] {
                    assert(to.values_of(new_keys@)[a] == eks[a]);
                    assert(to.values_of(new_keys@)[b] == eks[b]);
                    self.lemma_entry_values_differ(from, ek, ev, a, b);
                }
            }
            assert forall|a: int, b: int| 0 <= a < b < moved_keys.len() implies moved_keys[a]
                != moved_keys[b] by {
                if moved_keys[a] == moved_keys[b] {
                    from.lemma_same_key(self.keys@, a, b);
                }
            }
        }
        TermMap::arrange(new_keys, new_values, Ghost(moved_keys), Ghost(moved_values))
    }

    /// Number of keys, as a term.
    pub fn size(&self, heap: &mut Heap) -> (r: Result<Term, Alloc>)
        requires
            old(heap).wf(),
            linked(word_map(self.inner), self.keys@, self.values@),
        ensures
            final(heap).wf(),
            final(heap).extends(old(heap)),
            r is Ok ==> final(heap).contains(r->Ok_0) && final(heap).value(r->Ok_0)
                == Value::Integer(self.keys@.len() as int),
            r is Ok <==> crate::copy::integer_words(self.keys@.len() as int) <= old(heap).spare(),
            r is Err ==> *final(heap) == *old(heap),
    {
        let n: usize = self.len();
        heap.integer(n as i128)
    }

    /// The key of the map that has the value of `key`, and the value under
    /// it, if there is such a key.
    pub fn find(&self, heap: &Heap, atoms: &AtomTable, key: Term) -> (r: Option<(Term, Term)>)
        requires
            heap.wf(),
            self.within(heap),
            heap.contains(key),
            names_extend(atoms@, heap.names@),
        ensures
            r is Some ==> has_pair(self.keys@, self.values@, r->Some_0.0, r->Some_0.1)
                && heap.value(r->Some_0.0) == heap.value(key),
            r is None ==> forall|i: int|
                0 <= i < self.keys@.len() ==> heap.value(#[trigger] self.keys@[i]) != heap.value(
                    key,
                ),
    {
        let ghost words = word_map(self.inner);
        if key.immediate() {
            match words_get(&self.inner, key.encode()) {
                Some(value_word) => {
                    proof {
                        let i = choose|i: int|
                            0 <= i < self.keys@.len() && encoded(#[trigger] self.keys@[i])
                                == encoded(key);
                        lemma_decode_encode(self.keys@[i]);
                        lemma_decode_encode(key);
                        lemma_decode_encode(self.values@[i]);
                        assert(self.keys@[i] == key);
                        assert(words[encoded(self.keys@[i])] == encoded(self.values@[i]));
                    }
                    match Term::decode(value_word) {
                        Some(value) => Some((key, value)),
                        None => None,
                    }
                },
                None => {
                    proof {
                        assert forall|i: int| 0 <= i < self.keys@.len() implies heap.value(
                            #[trigger] self.keys@[i],
                        ) != heap.value(key) by {
                            if heap.value(self.keys@[i]) == heap.value(key) {
                                assert(heap.contains(self.keys@[i]));
                                heap.lemma_immediate(key, self.keys@[i]);
                                assert(words.contains_key(encoded(self.keys@[i])));
                            }
                        }
                    }
                    None
                },
            }
        } else {
            proof {
                self.lemma_distinct_keys(heap);
            }
            let (entry_keys, entry_values) = self.entry_terms();
            let mut j: usize = 0;
            proof {
                heap.lemma_well_formed(key);
            }
            while j < entry_keys.len()
                invariant
                    0 <= j <= entry_keys@.len(),
                    heap.wf(),
                    self.within(heap),
                    heap.contains(key),
                    well_formed(heap.value(key)),
                    names_extend(atoms@, heap.names@),
                    arranged(entry_keys@, entry_values@, self.keys@, self.values@),
                    forall|x: int|
                        0 <= x < j ==> heap.value(#[trigger] entry_keys@[x]) != heap.value(key),
                decreases entry_keys@.len() - j,
            {
                proof {
                    assert(has_pair(
                        self.keys@,
                        self.values@,
                        entry_keys@[j as int],
                        entry_values@[j as int],
                    ));
                    let i = choose|i: int|
                        0 <= i < self.keys@.len() && 0 <= i < self.values@.len()
                            && #[trigger] self.keys@[i] == entry_keys@[j as int] && self.values@[i]
                            == entry_values@[j as int];
                    assert(heap.contains(self.keys@[i]));
                    heap.lemma_well_formed(entry_keys@[j as int]);
                    lemma_reflexive(heap.value(key));
                }
                let o = heap.compare(atoms, entry_keys[j], key);
                if o == Order::Equal {
                    proof {
                        lemma_equal(heap.value(entry_keys@[j as int]), heap.value(key));
                    }
                    return Some((entry_keys[j], entry_values[j]));
                }
                j += 1;
            }
            proof {
                assert forall|i: int| 0 <= i < self.keys@.len() implies heap.value(
                    #[trigger] self.keys@[i],
                ) != heap.value(key) by {
                    assert(has_pair(entry_keys@, entry_values@, self.keys@[i], self.values@[i]));
                    let x = choose|x: int|
                        0 <= x < entry_keys@.len() && 0 <= x < entry_values@.len()
                            && #[trigger] entry_keys@[x] == self.keys@[i] && entry_values@[x]
                            == self.values@[i];
                    assert(heap.value(entry_keys@[x]) != heap.value(key));
                }
            }
            None
        }
    }

    /// No key occurs twice.
    pub proof fn lemma_distinct_keys(&self, heap: &Heap)
        requires
            self.within(heap),
        ensures
            forall|i: int, j: int| 0 <= i < j < self.keys@.len() ==> self.keys@[i] != self.keys@[j],
            distinct(self.key_values(heap)),
    {
        lemma_ascending_distinct(self.key_values(heap));
        assert forall|i: int, j: int| 0 <= i < j < self.keys@.len() implies self.keys@[i]
            != self.keys@[j] by {
            assert(self.key_values(heap)[i] != self.key_values(heap)[j]);
        }
    }

    /// What `find` finds is what the mapping has.
    pub proof fn lemma_found(&self, heap: &Heap, key: Term, found: Option<(Term, Term)>)
        requires
            self.within(heap),
            found is Some ==> has_pair(self.keys@, self.values@, found->Some_0.0, found->Some_0.1)
                && heap.value(found->Some_0.0) == heap.value(key),
            found is None ==> forall|i: int|
                0 <= i < self.keys@.len() ==> heap.value(#[trigger] self.keys@[i]) != heap.value(
                    key,
                ),
        ensures
            found is Some <==> self.mapping(heap).contains_key(heap.value(key)),
            found is Some ==> heap.contains(found->Some_0.1) && heap.value(found->Some_0.1)
                == self.mapping(heap)[heap.value(key)],
    {
        let ks = self.key_values(heap);
        let vs = self.value_values(heap);
        let k = heap.value(key);
        lemma_ascending_distinct(ks);
        match found {
            Some((stored, value)) => {
                let i = choose|i: int|
                    0 <= i < self.keys@.len() && 0 <= i < self.values@.len()
                        && #[trigger] self.keys@[i] == stored && self.values@[i] == value;
                assert(ks[i] == k);
                lemma_lookup_found(ks, vs, k, 0, i);
                assert(heap.contains(self.values@[i]));
            },
            None => {
                assert forall|i: int| 0 <= i < ks.len() implies ks[i] != k by {
                    assert(heap.value(self.keys@[i]) != k);
                }
                lemma_lookup_absent(ks, vs, k, 0);
            },
        }
    }

    /// The value under `key`, if the map has the key.
    pub fn get(&self, heap: &Heap, atoms: &AtomTable, key: Term) -> (r: Option<Term>)
        requires
            heap.wf(),
            self.within(heap),
            heap.contains(key),
            names_extend(atoms@, heap.names@),
        ensures
            r is Some <==> self.mapping(heap).contains_key(heap.value(key)),
            r is Some ==> heap.contains(r->Some_0) && heap.value(r->Some_0) == self.mapping(
                heap,
            )[heap.value(key)],
    {
        let found = self.find(heap, atoms, key);
        proof {
            self.lemma_found(heap, key, found);
        }
        match found {
            Some((_, value)) => Some(value),
            None => None,
        }
    }

    /// True if the map has the key.
    pub fn is_key(&self, heap: &Heap, atoms: &AtomTable, key: Term) -> (r: bool)
        requires
            heap.wf(),
            self.within(heap),
            heap.contains(key),
            names_extend(atoms@, heap.names@),
        ensures
            r == self.mapping(heap).contains_key(heap.value(key)),
    {
        self.get(heap, atoms, key).is_some()
    }

    /// The map with `value` under `key` and every other key as it is in
    /// `self`.
    pub fn put(&self, heap: &Heap, atoms: &AtomTable, key: Term, value: Term) -> (r: TermMap)
        requires
            heap.wf(),
            self.within(heap),
            heap.contains(key),
            heap.contains(value),
            names_extend(atoms@, heap.names@),
        ensures
            r.within(heap),
            r.mapping(heap) == self.mapping(heap).insert(heap.value(key), heap.value(value)),
            r.keys@.len() == (if self.mapping(heap).contains_key(heap.value(key)) {
                self.keys@.len()
            } else {
                self.keys@.len() + 1
            }),
    {
        let found = self.find(heap, atoms, key);
        let stored: Term = match found {
            Some((existing, _)) => existing,
            None => key,
        };
        let inner = words_update(&self.inner, stored.encode(), value.encode());
        let ghost ks = self.key_values(heap);
        let ghost vs = self.value_values(heap);
        let ghost k = heap.value(key);
        let ghost v = heap.value(value);
        let ghost mut place: (bool, int) = (false, 0);
        proof {
            heap.lemma_all_well_formed(self.keys@);
            heap.lemma_well_formed(key);
            place = lemma_search(ks, k);
            self.lemma_found(heap, key, found);
            self.lemma_distinct_keys(heap);
        }
        let ghost present = place.0;
        let ghost index = place.1;
        let ghost new_keys = after_put(self.keys@, stored, present, index);
        let ghost new_values = after_put(self.values@, value, present, index);
        let r = TermMap { inner, keys: Ghost(new_keys), values: Ghost(new_values) };
        proof {
            let words = word_map(self.inner);
            let new_words = word_map(inner);
            if present {
                assert(ks[index] == k);
                lemma_lookup_found(ks, vs, k, 0, index);
                assert(found is Some);
                let i = choose|i: int|
                    0 <= i < self.keys@.len() && 0 <= i < self.values@.len()
                        && #[trigger] self.keys@[i] == stored && self.values@[i]
                        == found->Some_0.1;
                heap.lemma_same_key(self.keys@, i, index);
                assert(self.keys@[index] == stored);
                assert(new_keys =~= self.keys@);
                assert(words.contains_key(encoded(self.keys@[index])));
                assert(new_words.dom() =~= words.dom());
            } else {
                assert forall|y: int| 0 <= y < ks.len() implies ks[y] != k by {
                    lemma_reflexive(k);
                    if y < index {
                        assert(value_order(ks[y], k) == Order::Less);
                    } else {
                        assert(value_order(k, ks[y]) == Order::Less);
                    }
                }
                lemma_lookup_absent(ks, vs, k, 0);
                assert(found is None);
                assert(stored == key);
                if words.contains_key(encoded(key)) {
                    let i = choose|i: int|
                        0 <= i < self.keys@.len() && encoded(#[trigger] self.keys@[i]) == encoded(
                            key,
                        );
                    lemma_decode_encode(self.keys@[i]);
                    lemma_decode_encode(key);
                    assert(ks[i] == k);
                    assert(false);
                }
                assert(new_words.dom() =~= words.dom().insert(encoded(key)));
            }
            assert(r.key_values(heap) =~= after_put(ks, k, present, index));
            assert(r.value_values(heap) =~= after_put(vs, v, present, index));
            lemma_put_ascending(ks, k, present, index);
            lemma_ascending_distinct(ks);
            lemma_ascending_distinct(after_put(ks, k, present, index));
            lemma_put_mapping(ks, vs, k, v, present, index);
            assert forall|x: int| 0 <= x < new_keys.len() implies heap.contains(
                #[trigger] new_keys[x],
            ) by {
                if x < index || (present && x > index) {
                    assert(heap.contains(self.keys@[x]));
                } else if x > index {
                    assert(heap.contains(self.keys@[x - 1]));
                } else if present {
                    assert(heap.contains(self.keys@[x]));
                }
            }
            assert forall|x: int| 0 <= x < new_values.len() implies heap.contains(
                #[trigger] new_values[x],
            ) by {
                if x < index || (present && x > index) {
                    assert(heap.contains(self.values@[x]));
                } else if x > index {
                    assert(heap.contains(self.values@[x - 1]));
                }
            }
            assert forall|x: int| 0 <= x < new_keys.len() implies new_words.contains_key(
                encoded(#[trigger] new_keys[x]),
            ) && new_words[encoded(new_keys[x])] == encoded(new_values[x]) by {
                if x != index {
                    let y = if x < index || present {
                        x
                    } else {
                        x - 1
                    };
                    assert(new_keys[x] == self.keys@[y]);
                    assert(words.contains_key(encoded(self.keys@[y])));
                    lemma_decode_encode(self.keys@[y]);
                    lemma_decode_encode(stored);
                    if present {
                        assert(self.keys@[y] != self.keys@[index]);
                    } else {
                        assert(ks[y] != k);
                    }
                    assert(encoded(self.keys@[y]) != encoded(stored));
                }
            }
            assert forall|w: u128| new_words.contains_key(w) implies exists|x: int|
                0 <= x < new_keys.len() && encoded(#[trigger] new_keys[x]) == w by {
                if w == encoded(stored) {
                    assert(encoded(new_keys[index]) == w);
                } else {
                    assert(words.contains_key(w));
                    let y = choose|y: int|
                        0 <= y < self.keys@.len() && encoded(#[trigger] self.keys@[y]) == w;
                    let x = if y < index || present {
                        y
                    } else {
                        y + 1
                    };
                    assert(new_keys[x] == self.keys@[y]);
                    assert(encoded(new_keys[x]) == w);
                }
            }
        }
        r
    }

    /// The map without `key`. A map that does not have the key is returned
    /// as it is.
    pub fn remove(&self, heap: &Heap, atoms: &AtomTable, key: Term) -> (r: TermMap)
        requires
            heap.wf(),
            self.within(heap),
            heap.contains(key),
            names_extend(atoms@, heap.names@),
        ensures
            r.within(heap),
            r.mapping(heap) == self.mapping(heap).remove(heap.value(key)),
            r.keys@.len() == (if self.mapping(heap).contains_key(heap.value(key)) {
                self.keys@.len() - 1
            } else {
                self.keys@.len() as int
            }),
    {
        let found = self.find(heap, atoms, key);
        let ghost ks = self.key_values(heap);
        let ghost vs = self.value_values(heap);
        let ghost k = heap.value(key);
        proof {
            self.lemma_found(heap, key, found);
            self.lemma_distinct_keys(heap);
        }
        match found {
            None => {
                let inner = words_without(&self.inner, key.encode());
                proof {
                    let words = word_map(self.inner);
                    if words.contains_key(encoded(key)) {
                        let i = choose|i: int|
                            0 <= i < self.keys@.len() && encoded(#[trigger] self.keys@[i])
                                == encoded(key);
                        lemma_decode_encode(self.keys@[i]);
                        lemma_decode_encode(key);
                        assert(false);
                    }
                    assert(word_map(inner) =~= words);
                    assert(self.mapping(heap).remove(k) =~= self.mapping(heap));
                }
                TermMap { inner, keys: Ghost(self.keys@), values: Ghost(self.values@) }
            },
            Some((stored, _)) => {
                let inner = words_without(&self.inner, stored.encode());
                let ghost index = choose|i: int|
                    0 <= i < self.keys@.len() && 0 <= i < self.values@.len()
                        && #[trigger] self.keys@[i] == stored && self.values@[i]
                        == found->Some_0.1;
                let ghost new_keys = after_remove(self.keys@, index);
                let ghost new_values = after_remove(self.values@, index);
                let r = TermMap { inner, keys: Ghost(new_keys), values: Ghost(new_values) };
                proof {
                    let words = word_map(self.inner);
                    let new_words = word_map(inner);
                    assert(r.key_values(heap) =~= after_remove(ks, index));
                    assert(r.value_values(heap) =~= after_remove(vs, index));
                    lemma_remove(ks, vs, index);
                    assert(ks[index] == k);
                    assert(words.contains_key(encoded(self.keys@[index])));
                    assert(new_words.dom() =~= words.dom().remove(encoded(stored)));
                    assert forall|x: int| 0 <= x < new_keys.len() implies heap.contains(
                        #[trigger] new_keys[x],
                    ) && heap.contains(new_values[x]) && new_words.contains_key(
                        encoded(new_keys[x]),
                    ) && new_words[encoded(new_keys[x])] == encoded(new_values[x]) by {
                        let y = if x < index {
                            x
                        } else {
                            x + 1
                        };
                        assert(new_keys[x] == self.keys@[y]);
                        assert(new_values[x] == self.values@[y]);
                        assert(heap.contains(self.keys@[y]));
                        assert(heap.contains(self.values@[y]));
                        assert(words.contains_key(encoded(self.keys@[y])));
                        lemma_decode_encode(self.keys@[y]);
                        lemma_decode_encode(stored);
                        assert(self.keys@[y] != self.keys@[index]);
                    }
                    assert forall|w: u128| new_words.contains_key(w) implies exists|x: int|
                        0 <= x < new_keys.len() && encoded(#[trigger] new_keys[x]) == w by {
                        assert(words.contains_key(w));
                        let y = choose|y: int|
                            0 <= y < self.keys@.len() && encoded(#[trigger] self.keys@[y]) == w;
                        let x = if y < index {
                            y
                        } else {
                            y - 1
                        };
                        assert(y != index);
                        assert(new_keys[x] == self.keys@[y]);
                        assert(encoded(new_keys[x]) == w);
                    }
                }
                r
            },
        }
    }

    /// The deepest key or value of the map.
    pub open spec fn deepest(&self, heap: &Heap) -> nat {
        greater(
            depth_all(self.key_values(heap), self.keys@.len() as int),
            depth_all(self.value_values(heap), self.values@.len() as int),
        )
    }

    /// The keys in ascending order, and the value under each.
    pub fn sorted_entries(&self, heap: &Heap, atoms: &AtomTable) -> (r: (Vec<Term>, Vec<Term>))
        requires
            heap.wf(),
            self.within(heap),
            names_extend(atoms@, heap.names@),
        ensures
            r.0@ == self.keys@,
            r.1@ == self.values@,
        decreases self.deepest(heap), 3nat,
    {
        proof {
            self.lemma_distinct_keys(heap);
        }
        let (entry_keys, entry_values) = self.entry_terms();
        let ghost ks = self.key_values(heap);
        let ghost bound = depth_all(ks, self.keys@.len() as int);
        let mut sorted: Vec<Term> = Vec::new();
        let mut j: usize = 0;
        while j < entry_keys.len()
            invariant
                0 <= j <= entry_keys@.len(),
                heap.wf(),
                self.within(heap),
                names_extend(atoms@, heap.names@),
                arranged(entry_keys@, entry_values@, self.keys@, self.values@),
                ks == self.key_values(heap),
                bound == depth_all(ks, self.keys@.len() as int),
                sorted@.len() == j,
                heap.contains_all(sorted@),
                strictly_ascending(heap.values_of(sorted@)),
                forall|x: int|
                    0 <= x < j ==> among(sorted@, sorted@.len() as int, #[trigger] entry_keys@[x]),
                forall|y: int|
                    0 <= y < sorted@.len() ==> among(entry_keys@, j as int, #[trigger] sorted@[y]),
            decreases entry_keys@.len() - j,
        {
            let key: Term = entry_keys[j];
            let ghost before = sorted@;
            proof {
                assert(has_pair(self.keys@, self.values@, entry_keys@[j as int], entry_values@[j as int]));
                let i = choose|i: int|
                    0 <= i < self.keys@.len() && 0 <= i < self.values@.len()
                        && #[trigger] self.keys@[i] == key && self.values@[i]
                        == entry_values@[j as int];
                assert(heap.contains(self.keys@[i]));
                assert(ks[i] == heap.value(key));
                lemma_depth_all_covers(ks, self.keys@.len() as int, i);
                self.lemma_sorted_depth(heap, before, entry_keys@, entry_values@, j as int);
            }
            let (found, index) = search_terms(heap, atoms, &sorted, key);
            proof {
                if found {
                    assert(among(entry_keys@, j as int, before[index as int]));
                    let x = choose|x: int|
                        0 <= x < j && x < entry_keys@.len() && #[trigger] entry_keys@[x]
                            == before[index as int];
                    self.lemma_entry_values_differ(heap, entry_keys@, entry_values@, x, j as int);
                    assert(false);
                }
            }
            sorted.insert(index, key);
            proof {
                lemma_inserted(heap, before, sorted@, key, index as int, entry_keys@, j as int);
            }
            j += 1;
        }
        proof {
            self.lemma_sorted_is_keys(heap, sorted@, entry_keys@, entry_values@);
        }
        let mut values: Vec<Term> = Vec::new();
        let mut i: usize = 0;
        while i < sorted.len()
            invariant
                0 <= i <= sorted@.len(),
                sorted@ == self.keys@,
                linked(word_map(self.inner), self.keys@, self.values@),
                values@.len() == i,
                forall|x: int| 0 <= x < i ==> #[trigger] values@[x] == self.values@[x],
            decreases sorted@.len() - i,
        {
            proof {
                assert(word_map(self.inner).contains_key(encoded(self.keys@[i as int])));
                lemma_decode_encode(self.values@[i as int]);
            }
            let word = match words_get(&self.inner, sorted[i].encode()) {
                Some(word) => word,
                None => 0,
            };
            let value = match Term::decode(word) {
                Some(term) => term,
                None => Term::Nil,
            };
            values.push(value);
            i += 1;
        }
        proof {
            assert(values@ =~= self.values@);
        }
        (sorted, values)
    }

    /// Terms that are among the keys are no deeper than the deepest key.
    pub proof fn lemma_sorted_depth(
        &self,
        heap: &Heap,
        sorted: Seq<Term>,
        entry_keys: Seq<Term>,
        entry_values: Seq<Term>,
        j: int,
    )
        requires
            self.within(heap),
            0 <= j <= entry_keys.len(),
            arranged(entry_keys, entry_values, self.keys@, self.values@),
            forall|y: int| 0 <= y < sorted.len() ==> among(entry_keys, j, #[trigger] sorted[y]),
        ensures
            depth_all(heap.values_of(sorted), sorted.len() as int) <= depth_all(
                self.key_values(heap),
                self.keys@.len() as int,
            ),
    {
        let ks = self.key_values(heap);
        let bound = depth_all(ks, self.keys@.len() as int);
        let vs = heap.values_of(sorted);
        assert forall|y: int| 0 <= y < sorted.len() implies depth(#[trigger] vs[y]) <= bound by {
            assert(among(entry_keys, j, sorted[y]));
            let x = choose|x: int|
                0 <= x < j && x < entry_keys.len() && #[trigger] entry_keys[x] == sorted[y];
            assert(has_pair(self.keys@, self.values@, entry_keys[x], entry_values[x]));
            let i = choose|i: int|
                0 <= i < self.keys@.len() && 0 <= i < self.values@.len()
                    && #[trigger] self.keys@[i] == entry_keys[x] && self.values@[i]
                    == entry_values[x];
            assert(ks[i] == vs[y]);
            lemma_depth_all_covers(ks, self.keys@.len() as int, i);
        }
        lemma_depth_all_bounded(vs, sorted.len() as int, bound);
    }

    /// Two entries have keys of different values.
    pub proof fn lemma_entry_values_differ(
        &self,
        heap: &Heap,
        entry_keys: Seq<Term>,
        entry_values: Seq<Term>,
        x: int,
        y: int,
    )
        requires
            self.within(heap),
            arranged(entry_keys, entry_values, self.keys@, self.values@),
            0 <= x < y < entry_keys.len(),
        ensures
            heap.value(entry_keys[x]) != heap.value(entry_keys[y]),
    {
        assert(has_pair(self.keys@, self.values@, entry_keys[x], entry_values[x]));
        assert(has_pair(self.keys@, self.values@, entry_keys[y], entry_values[y]));
        let i = choose|i: int|
            0 <= i < self.keys@.len() && 0 <= i < self.values@.len() && #[trigger] self.keys@[i]
                == entry_keys[x] && self.values@[i] == entry_values[x];
        let j = choose|j: int|
            0 <= j < self.keys@.len() && 0 <= j < self.values@.len() && #[trigger] self.keys@[j]
                == entry_keys[y] && self.values@[j] == entry_values[y];
        if heap.value(entry_keys[x]) == heap.value(entry_keys[y]) {
            heap.lemma_same_key(self.keys@, i, j);
        }
    }

    /// The entries' keys, sorted, are the keys of the map.
    pub proof fn lemma_sorted_is_keys(
        &self,
        heap: &Heap,
        sorted: Seq<Term>,
        entry_keys: Seq<Term>,
        entry_values: Seq<Term>,
    )
        requires
            heap.wf(),
            self.within(heap),
            arranged(entry_keys, entry_values, self.keys@, self.values@),
            sorted.len() == entry_keys.len(),
            heap.contains_all(sorted),
            strictly_ascending(heap.values_of(sorted)),
            forall|x: int|
                0 <= x < entry_keys.len() ==> among(
                    sorted,
                    sorted.len() as int,
                    #[trigger] entry_keys[x],
                ),
            forall|y: int|
                0 <= y < sorted.len() ==> among(
                    entry_keys,
                    entry_keys.len() as int,
                    #[trigger] sorted[y],
                ),
        ensures
            sorted == self.keys@,
    {
        let a = heap.values_of(sorted);
        let b = self.key_values(heap);
        heap.lemma_all_well_formed(sorted);
        heap.lemma_all_well_formed(self.keys@);
        assert forall|y: int| 0 <= y < a.len() implies b.contains(#[trigger] a[y]) by {
            assert(among(entry_keys, entry_keys.len() as int, sorted[y]));
            let x = choose|x: int|
                0 <= x < entry_keys.len() && x < entry_keys.len() && #[trigger] entry_keys[x]
                    == sorted[y];
            assert(has_pair(self.keys@, self.values@, entry_keys[x], entry_values[x]));
            let i = choose|i: int|
                0 <= i < self.keys@.len() && 0 <= i < self.values@.len()
                    && #[trigger] self.keys@[i] == entry_keys[x] && self.values@[i]
                    == entry_values[x];
            assert(b[i] == a[y]);
        }
        assert forall|i: int| 0 <= i < b.len() implies a.contains(#[trigger] b[i]) by {
            assert(has_pair(entry_keys, entry_values, self.keys@[i], self.values@[i]));
            let x = choose|x: int|
                0 <= x < entry_keys.len() && 0 <= x < entry_values.len()
                    && #[trigger] entry_keys[x] == self.keys@[i] && entry_values[x]
                    == self.values@[i];
            assert(among(sorted, sorted.len() as int, entry_keys[x]));
            let y = choose|y: int|
                0 <= y < sorted.len() && y < sorted.len() && #[trigger] sorted[y] == entry_keys[x];
            assert(a[y] == b[i]);
        }
        lemma_ascending_unique(a, b);
        assert forall|y: int| 0 <= y < sorted.len() implies sorted[y] == self.keys@[y] by {
            assert(among(entry_keys, entry_keys.len() as int, sorted[y]));
            let x = choose|x: int|
                0 <= x < entry_keys.len() && x < entry_keys.len() && #[trigger] entry_keys[x]
                    == sorted[y];
            assert(has_pair(self.keys@, self.values@, entry_keys[x], entry_values[x]));
            let i = choose|i: int|
                0 <= i < self.keys@.len() && 0 <= i < self.values@.len()
                    && #[trigger] self.keys@[i] == entry_keys[x] && self.values@[i]
                    == entry_values[x];
            assert(a[y] == b[y]);
            assert(heap.value(self.keys@[i]) == heap.value(self.keys@[y]));
            heap.lemma_same_key(self.keys@, i, y);
        }
        assert(sorted =~= self.keys@);
    }

    /// The keys in ascending order.
    pub fn sorted_keys(&self, heap: &Heap, atoms: &AtomTable) -> (r: Vec<Term>)
        requires
            heap.wf(),
            self.within(heap),
            names_extend(atoms@, heap.names@),
        ensures
            r@ == self.keys@,
            strictly_ascending(heap.values_of(r@)),
    {
        let (keys, _) = self.sorted_entries(heap, atoms);
        keys
    }

    /// The entries, each a key and its value, in ascending order of the
    /// keys, whatever the order in which they were put.
    pub fn iter(&self, heap: &Heap, atoms: &AtomTable) -> (r: Vec<(Term, Term)>)
        requires
            heap.wf(),
            self.within(heap),
            names_extend(atoms@, heap.names@),
        ensures
            r@.len() == self.keys@.len(),
            forall|i: int|
                0 <= i < r@.len() ==> #[trigger] r@[i] == (self.keys@[i], self.values@[i]),
    {
        let (keys, values) = self.sorted_entries(heap, atoms);
        let mut out: Vec<(Term, Term)> = Vec::new();
        let mut i: usize = 0;
        while i < keys.len()
            invariant
                0 <= i <= keys@.len(),
                keys@.len() == values@.len(),
                keys@ == self.keys@,
                values@ == self.values@,
                out@.len() == i,
                forall|k: int| 0 <= k < i ==> #[trigger] out@[k] == (self.keys@[k], self.values@[k]),
            decreases keys@.len() - i,
        {
            out.push((keys[i], values[i]));
            i += 1;
        }
        out
    }

    /// The order of this map and another as terms.
    pub fn order(&self, heap: &Heap, atoms: &AtomTable, other: &TermMap) -> (r: Order)
        requires
            heap.wf(),
            self.within(heap),
            other.within(heap),
            names_extend(atoms@, heap.names@),
        ensures
            r == map_order(
                self.key_values(heap),
                self.value_values(heap),
                other.key_values(heap),
                other.value_values(heap),
            ),
            r == value_order(self.value(heap), other.value(heap)),
        decreases greater(self.deepest(heap), other.deepest(heap)), 4nat,
    {
        let sizes = crate::compare::order_usize(self.len(), other.len());
        if sizes != Order::Equal {
            return sizes;
        }
        let (keys, values) = self.sorted_entries(heap, atoms);
        let (other_keys, other_values) = other.sorted_entries(heap, atoms);
        let key_order = heap.compare_all(atoms, &keys, &other_keys);
        if key_order != Order::Equal {
            return key_order;
        }
        heap.compare_all(atoms, &values, &other_values)
    }

    /// The order of this map and another as terms. It is always there: any
    /// two maps can be compared.
    pub fn partial_cmp(&self, heap: &Heap, atoms: &AtomTable, other: &TermMap) -> (r: Option<
        Order,
    >)
        requires
            heap.wf(),
            self.within(heap),
            other.within(heap),
            names_extend(atoms@, heap.names@),
        ensures
            r == Some(
                map_order(
                    self.key_values(heap),
                    self.value_values(heap),
                    other.key_values(heap),
                    other.value_values(heap),
                ),
            ),
            r == Some(value_order(self.value(heap), other.value(heap))),
    {
        Some(self.order(heap, atoms, other))
    }

    /// The order of this map and another as terms.
    pub fn cmp(&self, heap: &Heap, atoms: &AtomTable, other: &TermMap) -> (r: Order)
        requires
            heap.wf(),
            self.within(heap),
            other.within(heap),
            names_extend(atoms@, heap.names@),
        ensures
            r == map_order(
                self.key_values(heap),
                self.value_values(heap),
                other.key_values(heap),
                other.value_values(heap),
            ),
            r == value_order(self.value(heap), other.value(heap)),
    {
        match self.partial_cmp(heap, atoms, other) {
            Some(order) => order,
            None => Order::Equal,
        }
    }

    /// True if the two maps have the same keys and the same value under each
    /// key.
    pub fn eq(&self, heap: &Heap, atoms: &AtomTable, other: &TermMap) -> (r: bool)
        requires
            heap.wf(),
            self.within(heap),
            other.within(heap),
            names_extend(atoms@, heap.names@),
        ensures
            r == (self.value(heap) == other.value(heap)),
            r == (self.mapping(heap) == other.mapping(heap) && self.key_values(heap)
                == other.key_values(heap)),
    {
        proof {
            heap.lemma_all_well_formed(self.keys@);
            heap.lemma_all_well_formed(self.values@);
            heap.lemma_all_well_formed(other.keys@);
            heap.lemma_all_well_formed(other.values@);
            let a = self.value(heap);
            let b = other.value(heap);
            if value_order(a, b) == Order::Equal {
                lemma_equal(a, b);
            }
            if a == b {
                lemma_reflexive(a);
            }
            if self.key_values(heap) == other.key_values(heap) && self.mapping(heap)
                == other.mapping(heap) {
                let ks = self.key_values(heap);
                let xs = self.value_values(heap);
                let ys = other.value_values(heap);
                lemma_ascending_distinct(ks);
                assert forall|i: int| 0 <= i < xs.len() implies xs[i] == ys[i] by {
                    lemma_lookup_found(ks, xs, ks[i], 0, i);
                    lemma_lookup_found(ks, ys, ks[i], 0, i);
                    assert(self.mapping(heap)[ks[i]] == xs[i]);
                    assert(other.mapping(heap)[ks[i]] == ys[i]);
                }
                assert(xs =~= ys);
            }
        }
        match self.partial_cmp(heap, atoms, other) {
            Some(Order::Equal) => true,
            _ => false,
        }
    }
}

/// The mapping that the first `n` of these entries build, each put in turn.
pub open spec fn entries_mapping(heap: &Heap, entries: Seq<(Term, Term)>, n: int) -> Map<
    Value,
    Value,
>
    decreases n,
{
    if n <= 0 {
        Map::empty()
    } else {
        entries_mapping(heap, entries, n - 1).insert(
            heap.value(entries[n - 1].0),
            heap.value(entries[n - 1].1),
        )
    }
}

/// Number of keys of the map that the first `n` of these entries build:
/// an entry whose key an earlier entry has, by value, adds none.
pub open spec fn entries_keys(heap: &Heap, entries: Seq<(Term, Term)>, n: int) -> nat
    decreases n,
{
    if n <= 0 {
        0
    } else if entries_mapping(heap, entries, n - 1).contains_key(heap.value(entries[n - 1].0)) {
        entries_keys(heap, entries, n - 1)
    } else {
        entries_keys(heap, entries, n - 1) + 1
    }
}

impl Heap {
    /// The map that a term is, if it is one.
    pub fn map_of(&self, t: Term) -> (r: Option<&TermMap>)
        requires
            self.wf(),
            self.contains(t),
        ensures
            r is Some <==> self.value(t) is Mapping,
            r is Some ==> r->Some_0.within(self) && r->Some_0.value(self) == self.value(t),
    {
        match t {
            Term::Boxed(p) => {
                proof {
                    assert(cell_ok(self.objects@, self.values@, self.names@, p as int));
                }
                match &self.objects[p] {
                    Object::Mapping(m) => Some(m),
                    _ => None,
                }
            },
            Term::List(p) => {
                proof {
                    assert(cell_ok(self.objects@, self.values@, self.names@, p as int));
                }
                None
            },
            _ => None,
        }
    }

    /// Puts a map in a cell of the heap.
    pub fn map_to_term(&mut self, map: TermMap) -> (r: Result<Term, Alloc>)
        requires
            old(self).wf(),
            map.within(old(self)),
        ensures
            final(self).wf(),
            final(self).extends(old(self)),
            r is Ok <==> 1 + 2 * map.keys@.len() <= old(self).spare(),
            r is Ok ==> {
                &&& r->Ok_0 is Boxed
                &&& r->Ok_0->Boxed_0 == old(self).objects@.len()
                &&& final(self).contains(r->Ok_0)
                &&& final(self).value(r->Ok_0) == map.value(old(self))
                &&& final(self).used == old(self).used + 1 + 2 * map.keys@.len()
            },
            r is Err ==> *final(self) == *old(self),
    {
        match self.allocate(Object::Mapping(map)) {
            Ok(index) => Ok(Term::Boxed(index)),
            Err(e) => Err(e),
        }
    }

    /// The map of these entries, each a key and its value. Of two entries
    /// with the same key the later one stays.
    pub fn map_from_entries(&mut self, atoms: &AtomTable, entries: &[(Term, Term)]) -> (r: Result<
        Term,
        Alloc,
    >)
        requires
            old(self).wf(),
            names_extend(atoms@, old(self).names@),
            forall|i: int|
                0 <= i < entries@.len() ==> old(self).contains((#[trigger] entries@[i]).0) && old(
                    self,
                ).contains(entries@[i].1),
        ensures
            final(self).wf(),
            final(self).extends(old(self)),
            r is Ok <==> 1 + 2 * entries_keys(old(self), entries@, entries@.len() as int) <= old(
                self,
            ).spare(),
            r is Ok ==> {
                &&& final(self).contains(r->Ok_0)
                &&& final(self).value(r->Ok_0) is Mapping
                &&& as_map(final(self).value(r->Ok_0)->Mapping_0, final(self).value(r->Ok_0)->Mapping_1)
                    == entries_mapping(old(self), entries@, entries@.len() as int)
                &&& final(self).value(r->Ok_0)->Mapping_0.len() == entries_keys(
                    old(self),
                    entries@,
                    entries@.len() as int,
                )
                &&& final(self).used == old(self).used + 1 + 2 * entries_keys(
                    old(self),
                    entries@,
                    entries@.len() as int,
                )
            },
            r is Err ==> *final(self) == *old(self),
    {
        let mut map = TermMap::new();
        let mut i: usize = 0;
        while i < entries.len()
            invariant
                0 <= i <= entries@.len(),
                self.wf(),
                *self == *old(self),
                names_extend(atoms@, self.names@),
                forall|k: int|
                    0 <= k < entries@.len() ==> self.contains((#[trigger] entries@[k]).0)
                        && self.contains(entries@[k].1),
                map.within(self),
                map.mapping(self) == entries_mapping(self, entries@, i as int),
                map.keys@.len() == entries_keys(self, entries@, i as int),
            decreases entries@.len() - i,
        {
            let entry = entries[i];
            proof {
                assert(self.contains(entries@[i as int].0));
            }
            map = map.put(self, atoms, entry.0, entry.1);
            i += 1;
        }
        self.map_to_term(map)
    }
}

} // verus!