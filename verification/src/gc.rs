//! The collector: copies what a process can still reach into a new heap and
//! drops the rest.
//!
//! Collection stops the one process that owns the heap and no other. The
//! roots are handed in as a list of terms; each is copied to the new heap or,
//! if a copy was made before, replaced by the copy that the forwarding mark
//! in the old cell names. The new heap is then scanned from its start: each
//! pointer in a copied cell is treated as the roots were, until the scan
//! catches up with the end of the new heap.

use vstd::prelude::*;
use crate::heap::{
    cell_ok, cells_extend, lemma_object_stable, lemma_term_stable, lemma_total_words_push,
    object_ok, object_value, object_words, term_ok, term_value, terms_ok, terms_values,
    total_words, value_ok, words_of, Heap, Object, SubBinary,
};
use crate::heap::{linked, strictly_ascending};
use crate::map::{arranged, has_pair, TermMap};
use crate::words::word_map;
use crate::term::Term;
use crate::value::Value;

verus! {

/// Replacing a cell changes the total by the difference of the two cells.
pub proof fn lemma_total_words_update(s: Seq<Object>, i: int, o: Object)
    requires
        0 <= i < s.len(),
    ensures
        total_words(s.update(i, o)) + object_words(s[i]) == total_words(s) + object_words(o),
    decreases s.len(),
{
    if i == s.len() - 1 {
        assert(s.update(i, o).drop_last() =~= s.drop_last());
    } else {
        lemma_total_words_update(s.drop_last(), i, o);
        assert(s.update(i, o).drop_last() =~= s.drop_last().update(i, o));
    }
}

/// Cells that are not forwarding marks take at least a word each.
pub proof fn lemma_total_words_at_least(s: Seq<Object>)
    requires
        forall|i: int| 0 <= i < s.len() ==> !(#[trigger] s[i] is Moved),
    ensures
        total_words(s) >= s.len(),
    decreases s.len(),
{
    if s.len() > 0 {
        assert(!(s[s.len() - 1] is Moved));
        lemma_total_words_at_least(s.drop_last());
    }
}

/// True if the term is a pointer to the cell at `p`.
pub open spec fn term_points_to(t: Term, p: int) -> bool {
    (t is List && t->List_0 == p) || (t is Boxed && t->Boxed_0 == p)
}

/// True if one of the terms is a pointer to the cell at `p`.
pub open spec fn terms_point_to(ts: Seq<Term>, p: int) -> bool {
    exists|i: int| 0 <= i < ts.len() && term_points_to(#[trigger] ts[i], p)
}

/// True if the cell holds a pointer to the cell at `p`.
pub open spec fn object_points_to(o: Object, p: int) -> bool {
    match o {
        Object::Cons(head, tail) => term_points_to(head, p) || term_points_to(tail, p),
        Object::Tuple(elements) => terms_point_to(elements@, p),
        Object::Closure(closure) => terms_point_to(closure.environment@, p),
        Object::Mapping(m) => terms_point_to(m.keys@, p) || terms_point_to(m.values@, p),
        Object::SubBinary(sub) => term_points_to(sub.original, p),
        _ => false,
    }
}

/// True if `path` leads from one of the roots, cell by cell, each holding a
/// pointer to the next.
pub open spec fn is_path(objects: Seq<Object>, roots: Seq<Term>, path: Seq<int>) -> bool {
    &&& path.len() > 0
    &&& terms_point_to(roots, path[0])
    &&& forall|i: int|
        0 <= i < path.len() - 1 ==> 0 <= #[trigger] path[i] < objects.len() && object_points_to(
            objects[path[i]],
            path[i + 1],
        )
}

/// True if the cell at `p` can be reached from the roots.
pub open spec fn reachable(objects: Seq<Object>, roots: Seq<Term>, p: int) -> bool {
    exists|path: Seq<int>| #[trigger] is_path(objects, roots, path) && path.last() == p
}

/// A cell is reachable if it is pointed to by a root, or by a cell before it
/// that is reachable.
pub proof fn lemma_reachable(
    objects: Seq<Object>,
    roots: Seq<Term>,
    parents: Seq<int>,
    first: int,
    n: int,
)
    requires
        parents.len() == objects.len(),
        0 <= first <= objects.len(),
        forall|k: int| 0 <= k < first ==> #[trigger] terms_point_to(roots, k),
        forall|k: int|
            first <= k < objects.len() ==> 0 <= #[trigger] parents[k] < k && object_points_to(
                objects[parents[k]],
                k,
            ),
        0 <= n < objects.len(),
    ensures
        reachable(objects, roots, n),
    decreases n,
{
    if n < first {
        let path = seq![n];
        assert(terms_point_to(roots, n));
        assert(is_path(objects, roots, path));
        assert(path.last() == n);
    } else {
        let m = parents[n];
        lemma_reachable(objects, roots, parents, first, m);
        let before = choose|path: Seq<int>| #[trigger]
            is_path(objects, roots, path) && path.last() == m;
        let path = before.push(n);
        assert forall|i: int| 0 <= i < path.len() - 1 implies 0 <= #[trigger] path[i]
            < objects.len() && object_points_to(objects[path[i]], path[i + 1]) by {
            if i < before.len() - 1 {
                assert(path[i] == before[i]);
                assert(path[i + 1] == before[i + 1]);
            }
        }
        assert(path[0] == before[0]);
        assert(is_path(objects, roots, path));
        assert(path.last() == n);
    }
}

/// True if a copy is of the same sort as what it was copied from, as far as
/// a pointer to it can tell.
pub open spec fn same_sort(copy: Object, original: Object) -> bool {
    &&& copy is Cons <==> original is Cons
    &&& copy is Moved <==> original is Moved
    &&& crate::heap::cell_bytes(copy) == crate::heap::cell_bytes(original)
}

/// A collection under way.
pub struct Collection {
    /// The old heap. A cell that was copied holds a forwarding mark.
    pub from: Vec<Object>,
    /// The new heap.
    pub to: Vec<Object>,
    /// Cells of the new heap whose pointers lead into the new heap already.
    pub scanned: usize,
    /// Words taken by the cells of the new heap.
    pub used: usize,
    /// The value of each cell of the new heap.
    pub values: Ghost<Seq<Value>>,
}

impl Collection {
    /// What holds between two steps of a collection of the heap `old`.
    pub open spec fn inv(&self, old: &Heap) -> bool {
        &&& old.wf()
        &&& self.from@.len() == old.objects@.len()
        &&& self.values@.len() == self.to@.len()
        &&& self.scanned <= self.to@.len()
        &&& self.used == total_words(self.to@)
        &&& total_words(self.to@) + total_words(self.from@) == old.used
        &&& forall|a: int|
            0 <= a < self.from@.len() ==> #[trigger] self.moved_ok(old, a)
        &&& forall|n: int| 0 <= n < self.scanned ==> #[trigger] cell_ok(self.to@, self.values@, old.names@, n)
        &&& forall|n: int|
            self.scanned <= n < self.to@.len() ==> #[trigger] self.copied_ok(old, n)
    }

    /// A cell of the old heap is as it was, or holds a mark that names its
    /// copy.
    pub open spec fn moved_ok(&self, old: &Heap, a: int) -> bool {
        match self.from@[a] {
            Object::Moved(n) => {
                &&& n < self.to@.len()
                &&& self.values@[n as int] == old.values@[a]
                &&& same_sort(self.to@[n as int], old.objects@[a])
            },
            _ => self.from@[a] == old.objects@[a],
        }
    }

    /// A cell of the new heap that was not scanned yet is a cell of the old
    /// heap, and points into the old heap.
    pub open spec fn copied_ok(&self, old: &Heap, n: int) -> bool {
        &&& object_ok(self.to@[n], old.objects@, old.names@)
        &&& self.values@[n] == object_value(self.to@[n], old.values@, old.names@)
        &&& value_ok(self.values@[n])
    }

    /// True if `self` is `earlier` after more cells were copied.
    pub open spec fn grown_from(&self, earlier: &Collection) -> bool {
        &&& self.scanned == earlier.scanned
        &&& cells_extend(self.to@, self.values@, earlier.to@, earlier.values@)
    }

    /// The term in the new heap for a term of the old heap. A cell that has
    /// no copy yet is copied to the end of the new heap, and a mark is left
    /// where it was.
    pub fn forward(&mut self, Ghost(old_heap): Ghost<&Heap>, t: Term) -> (r: Term)
        requires
            old(self).inv(old_heap),
            old_heap.contains(t),
        ensures
            final(self).inv(old_heap),
            final(self).grown_from(old(self)),
            term_ok(r, final(self).to@, old_heap.names@),
            term_value(r, final(self).values@, old_heap.names@) == old_heap.value(t),
            forall|n: int|
                old(self).to@.len() <= n < final(self).to@.len() ==> term_points_to(r, n),
            r is Boxed <==> t is Boxed,
            r is Boxed ==> same_sort(
                final(self).to@[r->Boxed_0 as int],
                old_heap.objects@[t->Boxed_0 as int],
            ),
    {
        let p: usize = match t {
            Term::List(p) => p,
            Term::Boxed(p) => p,
            _ => {
                return t;
            },
        };
        proof {
            assert(self.moved_ok(old_heap, p as int));
            assert(cell_ok(old_heap.objects@, old_heap.values@, old_heap.names@, p as int));
        }
        match &self.from[p] {
            Object::Moved(n) => {
                let n: usize = *n;
                match t {
                    Term::List(_) => Term::List(n),
                    _ => Term::Boxed(n),
                }
            },
            _ => {
                let n: usize = self.to.len();
                let ghost before = *self;
                self.from.push(Object::Moved(n));
                let object = self.from.swap_remove(p);
                let words = words_of(&object);
                proof {
                    assert(object == old_heap.objects@[p as int]);
                    assert(self.from@ =~= before.from@.update(p as int, Object::Moved(n)));
                    lemma_total_words_update(before.from@, p as int, Object::Moved(n));
                    lemma_total_words_push(before.to@, object);
                }
                let w: usize = match words {
                    Some(w) => w,
                    None => 0,
                };
                self.to.push(object);
                self.values = Ghost(self.values@.push(old_heap.values@[p as int]));
                self.used = self.used + w;
                proof {
                    let names = old_heap.names@;
                    assert(cells_extend(self.to@, self.values@, before.to@, before.values@));
                    assert forall|a: int| 0 <= a < self.from@.len() implies #[trigger] self.moved_ok(
                        old_heap,
                        a,
                    ) by {
                        assert(before.moved_ok(old_heap, a));
                    }
                    assert forall|k: int| 0 <= k < self.scanned implies #[trigger] cell_ok(
                        self.to@,
                        self.values@,
                        names,
                        k,
                    ) by {
                        assert(cell_ok(before.to@, before.values@, names, k));
                        lemma_object_stable(
                            before.to@[k],
                            before.to@,
                            before.values@,
                            names,
                            self.to@,
                            self.values@,
                            names,
                        );
                    }
                    assert forall|k: int| self.scanned <= k < self.to@.len() implies #[trigger] self.copied_ok(
                        old_heap,
                        k,
                    ) by {
                        if k < n {
                            assert(before.copied_ok(old_heap, k));
                        }
                    }
                }
                match t {
                    Term::List(_) => Term::List(n),
                    _ => Term::Boxed(n),
                }
            },
        }
    }

    /// The terms in the new heap for a sequence of terms of the old heap.
    pub fn forward_all(&mut self, Ghost(old_heap): Ghost<&Heap>, terms: &Vec<Term>) -> (r: Vec<
        Term,
    >)
        requires
            old(self).inv(old_heap),
            old_heap.contains_all(terms@),
        ensures
            final(self).inv(old_heap),
            final(self).grown_from(old(self)),
            r@.len() == terms@.len(),
            terms_ok(r@, final(self).to@, old_heap.names@),
            terms_values(r@, final(self).values@, old_heap.names@) == old_heap.values_of(terms@),
            forall|n: int|
                old(self).to@.len() <= n < final(self).to@.len() ==> #[trigger] terms_point_to(
                    r@,
                    n,
                ),
    {
        let ghost names = old_heap.names@;
        let mut out: Vec<Term> = Vec::new();
        let mut i: usize = 0;
        while i < terms.len()
            invariant
                0 <= i <= terms@.len(),
                out@.len() == i,
                self.inv(old_heap),
                self.grown_from(old(self)),
                old_heap.contains_all(terms@),
                names == old_heap.names@,
                terms_ok(out@, self.to@, names),
                forall|k: int|
                    0 <= k < i ==> term_value(#[trigger] out@[k], self.values@, names)
                        == old_heap.value(terms@[k]),
                forall|n: int|
                    old(self).to@.len() <= n < self.to@.len() ==> #[trigger] terms_point_to(
                        out@,
                        n,
                    ),
            decreases terms@.len() - i,
        {
            let ghost before = *self;
            let ghost done = out@;
            proof {
                assert(old_heap.contains(terms@[i as int]));
            }
            let moved = self.forward(Ghost(old_heap), terms[i]);
            out.push(moved);
            proof {
                assert forall|k: int| 0 <= k < out@.len() implies term_ok(
                    #[trigger] out@[k],
                    self.to@,
                    names,
                ) && term_value(out@[k], self.values@, names) == old_heap.value(terms@[k]) by {
                    if k < i {
                        assert(term_ok(done[k], before.to@, names));
                        lemma_term_stable(
                            done[k],
                            before.to@,
                            before.values@,
                            names,
                            self.to@,
                            self.values@,
                            names,
                        );
                    }
                }
                assert forall|n: int|
                    old(self).to@.len() <= n < self.to@.len() implies #[trigger] terms_point_to(
                    out@,
                    n,
                ) by {
                    if n < before.to@.len() {
                        assert(terms_point_to(done, n));
                        let k = choose|k: int|
                            0 <= k < done.len() && term_points_to(#[trigger] done[k], n);
                        assert(out@[k] == done[k]);
                    } else {
                        assert(term_points_to(out@[i as int], n));
                    }
                }
            }
            i += 1;
        }
        proof {
            assert(terms_values(out@, self.values@, names) =~= old_heap.values_of(terms@));
        }
        out
    }

    /// The map in the new heap for a map of the old heap, given the entries
    /// of the old map in any order.
    pub fn forward_map(
        &mut self,
        Ghost(old_heap): Ghost<&Heap>,
        entry_keys: &Vec<Term>,
        entry_values: &Vec<Term>,
        Ghost(keys): Ghost<Seq<Term>>,
        Ghost(values): Ghost<Seq<Term>>,
    ) -> (r: TermMap)
        requires
            old(self).inv(old_heap),
            arranged(entry_keys@, entry_values@, keys, values),
            old_heap.contains_all(keys),
            old_heap.contains_all(values),
            strictly_ascending(old_heap.values_of(keys)),
        ensures
            final(self).inv(old_heap),
            final(self).grown_from(old(self)),
            linked(word_map(r.inner), r.keys@, r.values@),
            r.keys@.len() == keys.len(),
            terms_ok(r.keys@, final(self).to@, old_heap.names@),
            terms_ok(r.values@, final(self).to@, old_heap.names@),
            terms_values(r.keys@, final(self).values@, old_heap.names@) == old_heap.values_of(
                keys,
            ),
            terms_values(r.values@, final(self).values@, old_heap.names@) == old_heap.values_of(
                values,
            ),
            forall|n: int|
                old(self).to@.len() <= n < final(self).to@.len() ==> #[trigger] terms_point_to(
                    r.keys@,
                    n,
                ) || terms_point_to(r.values@, n),
    {
        let ghost names = old_heap.names@;
        proof {
            assert forall|j: int| 0 <= j < entry_keys@.len() implies old_heap.contains(
                #[trigger] entry_keys@[j],
            ) && old_heap.contains(entry_values@[j]) by {
                assert(has_pair(keys, values, entry_keys@[j], entry_values@[j]));
                let i = choose|i: int|
                    0 <= i < keys.len() && 0 <= i < values.len() && #[trigger] keys[i]
                        == entry_keys@[j] && values[i] == entry_values@[j];
                assert(old_heap.contains(keys[i]));
                assert(old_heap.contains(values[i]));
            }
            assert(old_heap.contains_all(entry_values@)) by {
                assert forall|j: int| 0 <= j < entry_values@.len() implies old_heap.contains(
                    #[trigger] entry_values@[j],
                ) by {
                    assert(old_heap.contains(entry_keys@[j]));
                }
            }
        }
        let new_keys = self.forward_all(Ghost(old_heap), entry_keys);
        let ghost middle = *self;
        let new_values = self.forward_all(Ghost(old_heap), entry_values);
        let ghost places = Seq::new(
            keys.len(),
            |i: int|
                choose|x: int|
                    0 <= x < entry_keys@.len() && 0 <= x < entry_values@.len()
                        && #[trigger] entry_keys@[x] == keys[i] && entry_values@[x] == values[i],
        );
        let ghost moved_keys = Seq::new(keys.len(), |i: int| new_keys@[places[i]]);
        let ghost moved_values = Seq::new(keys.len(), |i: int| new_values@[places[i]]);
        proof {
            crate::heap::lemma_terms_stable(
                new_keys@,
                middle.to@,
                middle.values@,
                names,
                self.to@,
                self.values@,
                names,
            );
            let ek = entry_keys@;
            let ev = entry_values@;
            let vk = terms_values(new_keys@, self.values@, names);
            let vv = terms_values(new_values@, self.values@, names);
            assert forall|i: int| 0 <= i < keys.len() implies 0 <= #[trigger] places[i] < ek.len()
                && ek[places[i]] == keys[i] && ev[places[i]] == values[i] by {
                assert(has_pair(ek, ev, keys[i], values[i]));
            }
            assert forall|i: int| 0 <= i < keys.len() implies term_ok(
                #[trigger] moved_keys[i],
                self.to@,
                names,
            ) && term_ok(moved_values[i], self.to@, names) && term_value(
                moved_keys[i],
                self.values@,
                names,
            ) == old_heap.value(keys[i]) && term_value(moved_values[i], self.values@, names)
                == old_heap.value(values[i]) by {
                let x = places[i];
                assert(term_ok(new_keys@[x], self.to@, names));
                assert(term_ok(new_values@[x], self.to@, names));
                assert(vk[x] == old_heap.values_of(ek)[x]);
                assert(vv[x] == old_heap.values_of(ev)[x]);
            }
            assert forall|i: int| 0 <= i < values.len() implies term_value(
                #[trigger] moved_values[i],
                self.values@,
                names,
            ) == old_heap.value(values[i]) by {
                assert(term_ok(moved_keys[i], self.to@, names));
            }
            assert forall|i: int| 0 <= i < values.len() implies term_ok(
                #[trigger] moved_values[i],
                self.to@,
                names,
            ) by {
                assert(term_ok(moved_keys[i], self.to@, names));
            }
            assert(terms_values(moved_keys, self.values@, names) =~= old_heap.values_of(keys));
            assert(terms_values(moved_values, self.values@, names) =~= old_heap.values_of(values));
            assert forall|j: int| 0 <= j < new_keys@.len() implies has_pair(
                moved_keys,
                moved_values,
                #[trigger] new_keys@[j],
                new_values@[j],
            ) by {
                assert(has_pair(keys, values, ek[j], ev[j]));
                let i = choose|i: int|
                    0 <= i < keys.len() && 0 <= i < values.len() && #[trigger] keys[i] == ek[j]
                        && values[i] == ev[j];
                let x = places[i];
                if x != j {
                    if x < j {
                        assert(ek[x] != ek[j]);
                    } else {
                        assert(ek[j] != ek[x]);
                    }
                }
                assert(moved_keys[i] == new_keys@[j]);
                assert(moved_values[i] == new_values@[j]);
            }
            assert forall|i: int| 0 <= i < moved_keys.len() implies has_pair(
                new_keys@,
                new_values@,
                #[trigger] moved_keys[i],
                moved_values[i],
            ) by {
                let x = places[i];
                assert(new_keys@[x] == moved_keys[i]);
            }
            assert forall|a: int, b: int| 0 <= a < b < new_keys@.len() implies new_keys@[a]
                != new_keys@[b] by {
                if new_keys@[a] == new_keys@[b] {
                    assert(vk[a] == old_heap.values_of(ek)[a]);
                    assert(vk[b] == old_heap.values_of(ek)[b]);
                    assert(has_pair(keys, values, ek[a], ev[a]));
                    assert(has_pair(keys, values, ek[b], ev[b]));
                    let i = choose|i: int|
                        0 <= i < keys.len() && 0 <= i < values.len() && #[trigger] keys[i] == ek[a]
                            && values[i] == ev[a];
                    let j = choose|j: int|
                        0 <= j < keys.len() && 0 <= j < values.len() && #[trigger] keys[j] == ek[b]
                            && values[j] == ev[b];
                    old_heap.lemma_same_key(keys, i, j);
                    assert(ek[a] != ek[b]);
                }
            }
            assert forall|a: int, b: int| 0 <= a < b < moved_keys.len() implies moved_keys[a]
                != moved_keys[b] by {
                if moved_keys[a] == moved_keys[b] {
                    old_heap.lemma_same_key(keys, a, b);
                }
            }
            assert forall|n: int|
                old(self).to@.len() <= n < self.to@.len() implies #[trigger] terms_point_to(
                moved_keys,
                n,
            ) || terms_point_to(moved_values, n) by {
                if n < middle.to@.len() {
                    assert(terms_point_to(new_keys@, n));
                    let j = choose|j: int|
                        0 <= j < new_keys@.len() && term_points_to(#[trigger] new_keys@[j], n);
                    assert(has_pair(moved_keys, moved_values, new_keys@[j], new_values@[j]));
                    let i = choose|i: int|
                        0 <= i < moved_keys.len() && 0 <= i < moved_values.len()
                            && #[trigger] moved_keys[i] == new_keys@[j] && moved_values[i]
                            == new_values@[j];
                    assert(term_points_to(moved_keys[i], n));
                } else {
                    assert(terms_point_to(new_values@, n));
                    let j = choose|j: int|
                        0 <= j < new_values@.len() && term_points_to(#[trigger] new_values@[j], n);
                    assert(has_pair(moved_keys, moved_values, new_keys@[j], new_values@[j]));
                    let i = choose|i: int|
                        0 <= i < moved_keys.len() && 0 <= i < moved_values.len()
                            && #[trigger] moved_keys[i] == new_keys@[j] && moved_values[i]
                            == new_values@[j];
                    assert(term_points_to(moved_values[i], n));
                }
            }
        }
        TermMap::arrange(&new_keys, &new_values, Ghost(moved_keys), Ghost(moved_values))
    }

    /// Scans the first cell that was not scanned yet: each pointer in it is
    /// made to lead into the new heap.
    pub fn scan(&mut self, Ghost(old_heap): Ghost<&Heap>)
        requires
            old(self).inv(old_heap),
            old(self).scanned < old(self).to@.len(),
        ensures
            final(self).inv(old_heap),
            final(self).scanned == old(self).scanned + 1,
            final(self).to@.len() >= old(self).to@.len(),
            forall|n: int|
                0 <= n < old(self).to@.len() ==> #[trigger] final(self).values@[n] == old(
                    self,
                ).values@[n],
            forall|n: int|
                0 <= n < old(self).to@.len() ==> same_sort(
                    #[trigger] final(self).to@[n],
                    old(self).to@[n],
                ),
            forall|n: int|
                0 <= n < old(self).scanned ==> #[trigger] final(self).to@[n] == old(self).to@[n],
            forall|n: int|
                old(self).to@.len() <= n < final(self).to@.len() ==> #[trigger] object_points_to(
                    final(self).to@[old(self).scanned as int],
                    n,
                ),
    {
        let n: usize = self.scanned;
        let ghost names = old_heap.names@;
        let ghost start = *self;
        let ghost cell = self.to@[n as int];
        proof {
            assert(self.copied_ok(old_heap, n as int));
        }
        let replacement: Option<Object> = match &self.to[n] {
            Object::Cons(head, tail) => {
                let head: Term = *head;
                let tail: Term = *tail;
                let new_head = self.forward(Ghost(old_heap), head);
                let ghost middle = *self;
                let new_tail = self.forward(Ghost(old_heap), tail);
                proof {
                    lemma_term_stable(
                        new_head,
                        middle.to@,
                        middle.values@,
                        names,
                        self.to@,
                        self.values@,
                        names,
                    );
                }
                Some(Object::Cons(new_head, new_tail))
            },
            Object::Tuple(elements) => {
                let elements: Vec<Term> = crate::construct::terms_to_vec(elements.as_slice());
                let moved = self.forward_all(Ghost(old_heap), &elements);
                Some(Object::Tuple(moved))
            },
            Object::Closure(closure) => {
                let module: usize = closure.module;
                let index: u32 = closure.index;
                let arity: u8 = closure.arity;
                let environment: Vec<Term> = crate::construct::terms_to_vec(
                    closure.environment.as_slice(),
                );
                let moved = self.forward_all(Ghost(old_heap), &environment);
                Some(
                    Object::Closure(
                        crate::heap::Closure { module, index, arity, environment: moved },
                    ),
                )
            },
            Object::Mapping(m) => {
                let ghost keys = m.keys@;
                let ghost values = m.values@;
                proof {
                    assert(strictly_ascending(old_heap.values_of(keys)));
                    assert forall|i: int, j: int| 0 <= i < j < keys.len() implies keys[i]
                        != keys[j] by {
                        if keys[i] == keys[j] {
                            old_heap.lemma_same_key(keys, i, j);
                        }
                    }
                }
                let (entry_keys, entry_values) = m.entry_terms();
                let moved = self.forward_map(
                    Ghost(old_heap),
                    &entry_keys,
                    &entry_values,
                    Ghost(keys),
                    Ghost(values),
                );
                Some(Object::Mapping(moved))
            },
            Object::SubBinary(sub) => {
                let sub: SubBinary = *sub;
                let original = self.forward(Ghost(old_heap), sub.original);
                Some(
                    Object::SubBinary(
                        SubBinary {
                            original,
                            byte_offset: sub.byte_offset,
                            bit_offset: sub.bit_offset,
                            full_byte_len: sub.full_byte_len,
                            partial_byte_bit_len: sub.partial_byte_bit_len,
                        },
                    ),
                )
            },
            _ => None,
        };
        let ghost grown = *self;
        proof {
            assert(grown.to@[n as int] == cell);
            assert(grown.values@[n as int] == start.values@[n as int]);
            assert(grown.copied_ok(old_heap, n as int));
        }
        match replacement {
            Some(object) => {
                proof {
                    assert(object_words(object) == object_words(cell));
                    lemma_total_words_update(grown.to@, n as int, object);
                    assert(object_ok(object, grown.to@, names));
                    assert(grown.values@[n as int] == object_value(object, grown.values@, names)) by {
                        match object {
                            Object::Closure(closure) => {
                                assert(terms_values(closure.environment@, grown.values@, names)
                                    =~= terms_values(
                                    cell->Closure_0.environment@,
                                    old_heap.values@,
                                    names,
                                ));
                            },
                            Object::Tuple(moved) => {
                                assert(terms_values(moved@, grown.values@, names) =~= terms_values(
                                    cell->Tuple_0@,
                                    old_heap.values@,
                                    names,
                                ));
                            },
                            Object::Mapping(m) => {
                                assert(terms_values(m.keys@, grown.values@, names) =~= terms_values(
                                    cell->Mapping_0.keys@,
                                    old_heap.values@,
                                    names,
                                ));
                                assert(terms_values(m.values@, grown.values@, names)
                                    =~= terms_values(
                                    cell->Mapping_0.values@,
                                    old_heap.values@,
                                    names,
                                ));
                            },
                            Object::SubBinary(sub) => {
                                let p = cell->SubBinary_0.original->Boxed_0 as int;
                                assert(cell_ok(
                                    old_heap.objects@,
                                    old_heap.values@,
                                    names,
                                    p,
                                ));
                                let q = sub.original->Boxed_0 as int;
                                assert(q < grown.to@.len());
                            },
                            _ => {},
                        }
                    }
                }
                self.to.push(object);
                let _scanned = self.to.swap_remove(n);
                proof {
                    assert(self.to@ =~= grown.to@.update(n as int, object));
                }
            },
            None => {
                proof {
                    assert(object_ok(cell, grown.to@, names));
                    assert(object_value(cell, grown.values@, names) == object_value(
                        cell,
                        old_heap.values@,
                        names,
                    ));
                }
            },
        }
        let copied: usize = self.to.len();
        assert(n < copied);
        self.scanned = n + 1;
        proof {
            let after_to = self.to@;
            assert(after_to.len() == grown.to@.len());
            assert forall|k: int| 0 <= k < after_to.len() implies same_sort(
                #[trigger] after_to[k],
                grown.to@[k],
            ) by {}
            assert forall|a: int| 0 <= a < self.from@.len() implies #[trigger] self.moved_ok(
                old_heap,
                a,
            ) by {
                assert(grown.moved_ok(old_heap, a));
            }
            assert forall|k: int| 0 <= k < self.scanned implies #[trigger] cell_ok(
                self.to@,
                self.values@,
                names,
                k,
            ) by {
                if k < n {
                    assert(cell_ok(grown.to@, grown.values@, names, k));
                    lemma_object_sorts(grown.to@[k], grown.to@, after_to, names);
                } else {
                    lemma_object_sorts(after_to[n as int], grown.to@, after_to, names);
                }
            }
            assert forall|k: int| self.scanned <= k < self.to@.len() implies #[trigger] self.copied_ok(
                old_heap,
                k,
            ) by {
                assert(grown.copied_ok(old_heap, k));
            }
            assert forall|k: int| 0 <= k < start.to@.len() implies same_sort(
                #[trigger] self.to@[k],
                start.to@[k],
            ) by {
                assert(grown.to@[k] == start.to@[k]);
                assert(same_sort(after_to[k], grown.to@[k]));
            }
        }
    }
}

/// A cell that may stand among some cells may stand among others of the same
/// sorts.
pub proof fn lemma_object_sorts(
    o: Object,
    objects: Seq<Object>,
    others: Seq<Object>,
    names: Seq<Seq<u8>>,
)
    requires
        objects.len() == others.len(),
        forall|k: int| 0 <= k < objects.len() ==> same_sort(#[trigger] others[k], objects[k]),
        object_ok(o, objects, names),
    ensures
        object_ok(o, others, names),
{
    assert forall|t: Term| term_ok(t, objects, names) implies term_ok(t, others, names) by {
        match t {
            Term::List(p) => {
                assert(same_sort(others[p as int], objects[p as int]));
            },
            Term::Boxed(p) => {
                assert(same_sort(others[p as int], objects[p as int]));
            },
            _ => {},
        }
    }
    match o {
        Object::SubBinary(sub) => {
            let p = sub.original->Boxed_0 as int;
            assert(same_sort(others[p], objects[p]));
        },
        _ => {},
    }
}

impl Heap {
    /// Collects the heap: what the roots reach is kept, by value, and
    /// everything else is dropped. Returns the roots as terms of the heap
    /// after the collection, in the order in which they were given.
    pub fn collect(&mut self, roots: &Vec<Term>) -> (r: Vec<Term>)
        requires
            old(self).wf(),
            old(self).contains_all(roots@),
        ensures
            final(self).wf(),
            r@.len() == roots@.len(),
            final(self).contains_all(r@),
            final(self).values_of(r@) == old(self).values_of(roots@),
            final(self).used <= old(self).used,
            final(self).capacity == old(self).capacity,
            final(self).reserved == old(self).reserved,
            final(self).names@ == old(self).names@,
            forall|p: int|
                0 <= p < final(self).objects@.len() ==> #[trigger] reachable(
                    final(self).objects@,
                    r@,
                    p,
                ),
    {
        let ghost old_heap = *self;
        let ghost names = self.names@;
        let mut from: Vec<Object> = Vec::new();
        std::mem::swap(&mut self.objects, &mut from);
        let mut collection = Collection {
            from,
            to: Vec::new(),
            scanned: 0,
            used: 0,
            values: Ghost(Seq::empty()),
        };
        proof {
            assert forall|a: int| 0 <= a < collection.from@.len() implies #[trigger] collection.moved_ok(
                &old_heap,
                a,
            ) by {
                assert(cell_ok(old_heap.objects@, old_heap.values@, names, a));
            }
        }
        let moved = collection.forward_all(Ghost(&old_heap), roots);
        let ghost first = collection.to@.len() as int;
        let ghost mut parents: Seq<int> = Seq::new(collection.to@.len(), |k: int| 0int);
        while collection.scanned < collection.to.len()
            invariant
                collection.inv(&old_heap),
                parents.len() == collection.to@.len(),
                0 <= first <= collection.to@.len(),
                forall|k: int| 0 <= k < first ==> #[trigger] terms_point_to(moved@, k),
                forall|k: int|
                    first <= k < collection.to@.len() ==> 0 <= #[trigger] parents[k] < k
                        && parents[k] < collection.scanned && object_points_to(
                        collection.to@[parents[k]],
                        k,
                    ),
                names == old_heap.names@,
                moved@.len() == roots@.len(),
                terms_ok(moved@, collection.to@, names),
                terms_values(moved@, collection.values@, names) == old_heap.values_of(roots@),
            decreases old_heap.used - collection.scanned,
        {
            let ghost before = collection;
            proof {
                assert forall|i: int| 0 <= i < collection.to@.len() implies !(
                #[trigger] collection.to@[i] is Moved) by {
                    if i < collection.scanned {
                        assert(cell_ok(collection.to@, collection.values@, names, i));
                    } else {
                        assert(collection.copied_ok(&old_heap, i));
                    }
                }
                lemma_total_words_at_least(collection.to@);
            }
            collection.scan(Ghost(&old_heap));
            proof {
                let older = parents;
                parents =
                Seq::new(
                    collection.to@.len(),
                    |k: int|
                        if k < before.to@.len() {
                            older[k]
                        } else {
                            before.scanned as int
                        },
                );
                assert forall|k: int| first <= k < collection.to@.len() implies 0
                    <= #[trigger] parents[k] < k && parents[k] < collection.scanned
                    && object_points_to(collection.to@[parents[k]], k) by {
                    if k < before.to@.len() {
                        assert(older[k] < before.scanned);
                        assert(collection.to@[older[k]] == before.to@[older[k]]);
                    }
                }
                assert forall|i: int| 0 <= i < moved@.len() implies term_ok(
                    #[trigger] moved@[i],
                    collection.to@,
                    names,
                ) && term_value(moved@[i], collection.values@, names) == term_value(
                    moved@[i],
                    before.values@,
                    names,
                ) by {
                    let t = moved@[i];
                    assert(term_ok(t, before.to@, names));
                    match t {
                        Term::List(p) => {
                            assert(same_sort(collection.to@[p as int], before.to@[p as int]));
                            assert(collection.values@[p as int] == before.values@[p as int]);
                        },
                        Term::Boxed(p) => {
                            assert(same_sort(collection.to@[p as int], before.to@[p as int]));
                            assert(collection.values@[p as int] == before.values@[p as int]);
                        },
                        _ => {},
                    }
                }
                assert(terms_values(moved@, collection.values@, names) =~= terms_values(
                    moved@,
                    before.values@,
                    names,
                ));
            }
        }
        proof {
            assert forall|p: int| 0 <= p < collection.to@.len() implies #[trigger] reachable(
                collection.to@,
                moved@,
                p,
            ) by {
                lemma_reachable(collection.to@, moved@, parents, first, p);
            }
        }
        self.objects = collection.to;
        self.used = collection.used;
        self.values = collection.values;
        moved
    }
}

} // verus!
