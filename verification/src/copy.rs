//! Copying a term from one heap to another, cell by cell.
//!
//! A message crosses from its sender to its receiver as a copy: the two
//! heaps share nothing afterwards, so either can be collected without the
//! other.

use vstd::prelude::*;
use crate::atom::names_extend;
use crate::binary::{full_bytes, partial_bits, partial_count, window_byte, window_partial};
use crate::heap::{
    cell_ok, high_mask, magnitude, object_words, signed_value, strictly_ascending, trimmed,
    window_value, Alloc, Heap, Object, SubBinary,
};
use crate::map::{arranged, has_pair, TermMap};
use crate::term::{Term, MAX_SMALL_INTEGER, MIN_SMALL_INTEGER};
use crate::value::{
    depth, depth_all, greater, lemma_depth_all_bounded, lemma_depth_all_covers, Value,
};

verus! {

/// Number of 32-bit digits of a magnitude.
pub open spec fn digit_count(m: nat) -> nat
    decreases m,
{
    if m == 0 {
        0
    } else {
        1 + digit_count(m / 4294967296)
    }
}

/// Words that an integer takes on a heap: none for one in the immediate
/// range.
pub open spec fn integer_words(n: int) -> nat {
    if MIN_SMALL_INTEGER <= n <= MAX_SMALL_INTEGER {
        0
    } else if n < 0 {
        1 + (digit_count((-n) as nat) + 1) / 2
    } else {
        1 + (digit_count(n as nat) + 1) / 2
    }
}

/// Words that a copy of a value takes on a heap.
pub open spec fn value_words(v: Value) -> nat
    decreases v, 0nat,
{
    match v {
        Value::Integer(n) => integer_words(n),
        Value::Tuple(xs) => 1 + xs.len() + values_words(xs, xs.len() as int),
        Value::Function(_, _, _, xs) => 2 + xs.len() + values_words(xs, xs.len() as int),
        Value::Mapping(ks, vs) => 1 + ks.len() + vs.len() + values_words(ks, ks.len() as int)
            + values_words(vs, vs.len() as int),
        Value::Cons(head, tail) => 2 + value_words(*head) + value_words(*tail),
        Value::Bitstring(bytes, count, _) => if count == 0 {
            crate::heap::binary_words(bytes.len())
        } else {
            5 + crate::heap::binary_words(bytes.len() + 1)
        },
        _ => 0,
    }
}

/// Words that copies of the first `upto` of these values take.
pub open spec fn values_words(vs: Seq<Value>, upto: int) -> nat
    decreases vs, upto,
{
    if upto <= 0 || upto > vs.len() {
        0
    } else {
        values_words(vs, upto - 1) + value_words(vs[upto - 1])
    }
}

/// More values take no fewer words.
pub proof fn lemma_values_words_monotone(vs: Seq<Value>, i: int, j: int)
    requires
        0 <= i <= j <= vs.len(),
    ensures
        values_words(vs, i) <= values_words(vs, j),
    decreases j - i,
{
    if i < j {
        lemma_values_words_monotone(vs, i, j - 1);
    }
}

/// The words of the first values depend on those values alone.
pub proof fn lemma_values_words_prefix(a: Seq<Value>, b: Seq<Value>, upto: int)
    requires
        0 <= upto <= a.len(),
        upto <= b.len(),
        forall|i: int| 0 <= i < upto ==> a[i] == b[i],
    ensures
        values_words(a, upto) == values_words(b, upto),
    decreases upto,
{
    if upto > 0 {
        lemma_values_words_prefix(a, b, upto - 1);
    }
}

/// Taking one value out takes its words out.
pub proof fn lemma_values_words_remove(s: Seq<Value>, upto: int, p: int)
    requires
        0 <= p < upto <= s.len(),
    ensures
        values_words(s, upto) == values_words(s.remove(p), upto - 1) + value_words(s[p]),
    decreases upto,
{
    let t = s.remove(p);
    if upto - 1 == p {
        lemma_values_words_prefix(s, t, p);
    } else {
        lemma_values_words_remove(s, upto - 1, p);
        assert(t[upto - 2] == s[upto - 1]);
    }
}

/// The same values in another order take the same words: `places[i]` says
/// where in `a` the value `b[i]` stands.
pub proof fn lemma_values_words_permuted(a: Seq<Value>, b: Seq<Value>, places: Seq<int>)
    requires
        a.len() == b.len(),
        places.len() == b.len(),
        forall|i: int|
            0 <= i < b.len() ==> 0 <= #[trigger] places[i] < a.len() && a[places[i]] == b[i],
        forall|i: int, j: int| 0 <= i < j < places.len() ==> places[i] != places[j],
    ensures
        values_words(a, a.len() as int) == values_words(b, b.len() as int),
    decreases b.len(),
{
    if b.len() > 0 {
        let n = b.len() as int;
        let p = places[n - 1];
        let a0 = a.remove(p);
        let b0 = b.drop_last();
        let places0 = Seq::new(
            (n - 1) as nat,
            |i: int|
                if places[i] < p {
                    places[i]
                } else {
                    places[i] - 1
                },
        );
        assert forall|i: int| 0 <= i < b0.len() implies 0 <= #[trigger] places0[i] < a0.len()
            && a0[places0[i]] == b0[i] by {
            assert(places[i] != places[n - 1]);
            assert(a[places[i]] == b[i]);
        }
        assert forall|i: int, j: int| 0 <= i < j < places0.len() implies places0[i]
            != places0[j] by {
            assert(places[i] != places[j]);
            assert(places[i] != places[n - 1]);
            assert(places[j] != places[n - 1]);
        }
        lemma_values_words_permuted(a0, b0, places0);
        lemma_values_words_remove(a, n, p);
        lemma_values_words_prefix(b, b0, n - 1);
    }
}

/// Digits that are not all zero stand for a positive number.
pub proof fn lemma_magnitude_positive(digits: Seq<u32>)
    requires
        digits.len() > 0,
        digits.last() != 0,
    ensures
        magnitude(digits) > 0,
    decreases digits.len(),
{
    if digits.len() > 1 {
        let rest = digits.drop_first();
        assert(rest.last() == digits.last());
        lemma_magnitude_positive(rest);
        assert(4294967296 * magnitude(rest) > 0) by (nonlinear_arith)
            requires
                magnitude(rest) > 0,
        ;
    }
}

/// Digits without zeros at the high end are as many as the magnitude needs.
pub proof fn lemma_digit_count(digits: Seq<u32>)
    requires
        trimmed(digits),
    ensures
        digit_count(magnitude(digits)) == digits.len(),
    decreases digits.len(),
{
    if digits.len() > 0 {
        let rest = digits.drop_first();
        lemma_magnitude_positive(digits);
        if rest.len() > 0 {
            assert(rest.last() == digits.last());
        }
        lemma_digit_count(rest);
        let m = magnitude(digits);
        let r = magnitude(rest);
        assert(m == digits[0] as nat + 4294967296 * r);
        assert(m / 4294967296 == r) by (nonlinear_arith)
            requires
                m == digits[0] as nat + 4294967296 * r,
                0 <= digits[0] < 4294967296,
        ;
    }
}

impl Heap {
    /// A copy in this heap of a term of another heap. The copy has the value
    /// of the term and shares no cell with it. If the heap has no room
    /// for all of the copy, the cells that were copied stay behind as
    /// garbage.
    pub fn copy_from(&mut self, source: &Heap, t: Term) -> (r: Result<Term, Alloc>)
        requires
            old(self).wf(),
            source.wf(),
            source.contains(t),
            names_extend(old(self).names@, source.names@),
        ensures
            final(self).wf(),
            final(self).extends(old(self)),
            r is Ok <==> value_words(source.value(t)) <= old(self).spare(),
            r is Ok ==> {
                &&& final(self).contains(r->Ok_0)
                &&& final(self).value(r->Ok_0) == source.value(t)
                &&& final(self).used == old(self).used + value_words(source.value(t))
            },
        decreases depth(source.value(t)), 0nat,
    {
        proof {
            source.lemma_shape(t);
        }
        match t {
            Term::List(p) => {
                proof {
                    assert(cell_ok(source.objects@, source.values@, source.names@, p as int));
                }
                match &source.objects[p] {
                    Object::Cons(head, tail) => {
                        proof {
                            assert(source.value(t) == Value::Cons(
                                Box::new(source.value(*head)),
                                Box::new(source.value(*tail)),
                            ));
                        }
                        let new_head = match self.copy_from(source, *head) {
                            Ok(term) => term,
                            Err(e) => {
                                return Err(e);
                            },
                        };
                        let ghost middle = *self;
                        let new_tail = match self.copy_from(source, *tail) {
                            Ok(term) => term,
                            Err(e) => {
                                proof {
                                    self.lemma_extends_transitive(&middle, old(self));
                                }
                                return Err(e);
                            },
                        };
                        let ghost later = *self;
                        proof {
                            self.lemma_extends_transitive(&middle, old(self));
                            self.lemma_extends(&middle, new_head);
                        }
                        let result = self.cons(new_head, new_tail);
                        proof {
                            self.lemma_extends_transitive(&later, old(self));
                        }
                        result
                    },
                    _ => Err(Alloc),
                }
            },
            Term::Boxed(p) => {
                proof {
                    assert(cell_ok(source.objects@, source.values@, source.names@, p as int));
                }
                match &source.objects[p] {
                    Object::Closure(closure) => {
                        let copies = match self.copy_all_from(source, &closure.environment) {
                            Ok(terms) => terms,
                            Err(e) => {
                                return Err(e);
                            },
                        };
                        let ghost later = *self;
                        let copy = crate::heap::Closure {
                            module: closure.module,
                            index: closure.index,
                            arity: closure.arity,
                            environment: copies,
                        };
                        let result = match self.allocate(Object::Closure(copy)) {
                            Ok(index) => Ok(Term::Boxed(index)),
                            Err(e) => Err(e),
                        };
                        proof {
                            self.lemma_extends_transitive(&later, old(self));
                        }
                        result
                    },
                    Object::Tuple(elements) => {
                        let copies = match self.copy_all_from(source, elements) {
                            Ok(terms) => terms,
                            Err(e) => {
                                return Err(e);
                            },
                        };
                        let ghost later = *self;
                        let result = self.tuple_from_slice(copies.as_slice());
                        proof {
                            self.lemma_extends_transitive(&later, old(self));
                        }
                        result
                    },
                    Object::Mapping(m) => {
                        proof {
                            m.lemma_distinct_keys(source);
                        }
                        let ghost ks = source.values_of(m.keys@);
                        let ghost vs = source.values_of(m.values@);
                        let ghost n = m.keys@.len() as int;
                        let (entry_keys, entry_values) = m.entry_terms();
                        let ghost places = Seq::new(
                            m.keys@.len(),
                            |i: int|
                                choose|x: int|
                                    0 <= x < entry_keys@.len() && 0 <= x < entry_values@.len()
                                        && #[trigger] entry_keys@[x] == m.keys@[i]
                                        && entry_values@[x] == m.values@[i],
                        );
                        proof {
                            let ek = entry_keys@;
                            let ev = entry_values@;
                            assert forall|i: int| 0 <= i < n implies 0 <= #[trigger] places[i]
                                < ek.len() && ek[places[i]] == m.keys@[i] && ev[places[i]]
                                == m.values@[i] by {
                                assert(has_pair(ek, ev, m.keys@[i], m.values@[i]));
                            }
                            assert forall|j: int| 0 <= j < ek.len() implies source.contains(
                                #[trigger] ek[j],
                            ) && depth(source.value(ek[j])) <= depth_all(ks, n) by {
                                assert(has_pair(m.keys@, m.values@, ek[j], ev[j]));
                                let i = choose|i: int|
                                    0 <= i < m.keys@.len() && 0 <= i < m.values@.len()
                                        && #[trigger] m.keys@[i] == ek[j] && m.values@[i] == ev[j];
                                assert(source.contains(m.keys@[i]));
                                assert(ks[i] == source.value(ek[j]));
                                lemma_depth_all_covers(ks, n, i);
                            }
                            assert forall|j: int| 0 <= j < ev.len() implies source.contains(
                                #[trigger] ev[j],
                            ) && depth(source.value(ev[j])) <= depth_all(vs, n) by {
                                assert(has_pair(m.keys@, m.values@, ek[j], ev[j]));
                                let i = choose|i: int|
                                    0 <= i < m.keys@.len() && 0 <= i < m.values@.len()
                                        && #[trigger] m.keys@[i] == ek[j] && m.values@[i] == ev[j];
                                assert(source.contains(m.values@[i]));
                                assert(vs[i] == source.value(ev[j]));
                                lemma_depth_all_covers(vs, n, i);
                            }
                            let eks = source.values_of(ek);
                            let evs = source.values_of(ev);
                            assert forall|j: int| 0 <= j < n implies depth(#[trigger] eks[j])
                                <= depth_all(ks, n) by {
                                assert(source.contains(ek[j]));
                            }
                            assert forall|j: int| 0 <= j < n implies depth(#[trigger] evs[j])
                                <= depth_all(vs, n) by {
                                assert(source.contains(ev[j]));
                            }
                            lemma_depth_all_bounded(eks, n, depth_all(ks, n));
                            lemma_depth_all_bounded(evs, n, depth_all(vs, n));
                            assert forall|i: int, j: int|
                                0 <= i < j < places.len() implies places[i] != places[j] by {
                                if places[i] == places[j] {
                                    assert(m.keys@[i] == m.keys@[j]);
                                }
                            }
                            assert forall|i: int| 0 <= i < n implies eks[#[trigger] places[i]]
                                == ks[i] && evs[places[i]] == vs[i] by {}
                            lemma_values_words_permuted(eks, ks, places);
                            lemma_values_words_permuted(evs, vs, places);
                        }
                        let keys = match self.copy_all_from(source, &entry_keys) {
                            Ok(terms) => terms,
                            Err(e) => {
                                return Err(e);
                            },
                        };
                        let ghost middle = *self;
                        let values = match self.copy_all_from(source, &entry_values) {
                            Ok(terms) => terms,
                            Err(e) => {
                                proof {
                                    self.lemma_extends_transitive(&middle, old(self));
                                }
                                return Err(e);
                            },
                        };
                        let ghost later = *self;
                        proof {
                            self.lemma_extends_transitive(&middle, old(self));
                            self.lemma_extends_all(&middle, keys@);
                        }
                        let map = m.transplant(
                            Ghost(source),
                            Ghost(&*self),
                            Ghost(entry_keys@),
                            Ghost(entry_values@),
                            &keys,
                            &values,
                        );
                        let result = self.map_to_term(map);
                        proof {
                            self.lemma_extends_transitive(&later, old(self));
                        }
                        result
                    },
                    Object::BigInteger(negative, digits) => {
                        proof {
                            lemma_digit_count(digits@);
                        }
                        let copy = copy_digits(digits);
                        match self.allocate(Object::BigInteger(*negative, copy)) {
                            Ok(index) => Ok(Term::Boxed(index)),
                            Err(e) => Err(e),
                        }
                    },
                    Object::ProcBin(shared) => {
                        let counted = std::sync::Arc::clone(shared);
                        match self.allocate(Object::ProcBin(counted)) {
                            Ok(index) => Ok(Term::Boxed(index)),
                            Err(e) => Err(e),
                        }
                    },
                    _ => self.copy_bitstring_from(source, t),
                }
            },
            _ => Ok(t),
        }
    }

    /// Copies of a sequence of terms of another heap, in their order.
    pub fn copy_all_from(&mut self, source: &Heap, terms: &Vec<Term>) -> (r: Result<
        Vec<Term>,
        Alloc,
    >)
        requires
            old(self).wf(),
            source.wf(),
            source.contains_all(terms@),
            names_extend(old(self).names@, source.names@),
        ensures
            final(self).wf(),
            final(self).extends(old(self)),
            r is Ok <==> values_words(source.values_of(terms@), terms@.len() as int) <= old(
                self,
            ).spare(),
            r is Ok ==> {
                &&& r->Ok_0@.len() == terms@.len()
                &&& final(self).contains_all(r->Ok_0@)
                &&& final(self).values_of(r->Ok_0@) == source.values_of(terms@)
                &&& final(self).used == old(self).used + values_words(
                    source.values_of(terms@),
                    terms@.len() as int,
                )
            },
        decreases depth_all(source.values_of(terms@), terms@.len() as int), 1nat,
    {
        let ghost vs = source.values_of(terms@);
        let mut out: Vec<Term> = Vec::new();
        let mut i: usize = 0;
        while i < terms.len()
            invariant
                0 <= i <= terms@.len(),
                out@.len() == i,
                old(self).wf(),
                source.wf(),
                source.contains_all(terms@),
                names_extend(self.names@, source.names@),
                vs == source.values_of(terms@),
                self.wf(),
                self.extends(old(self)),
                self.contains_all(out@),
                forall|k: int| 0 <= k < i ==> self.value(#[trigger] out@[k]) == vs[k],
                self.used == old(self).used + values_words(vs, i as int),
            decreases terms@.len() - i,
        {
            let ghost before = *self;
            let ghost done = out@;
            proof {
                assert(source.contains(terms@[i as int]));
                assert(vs[i as int] == source.value(terms@[i as int]));
                lemma_values_words_monotone(vs, i + 1, terms@.len() as int);
                lemma_depth_all_covers(vs, terms@.len() as int, i as int);
            }
            match self.copy_from(source, terms[i]) {
                Ok(term) => {
                    out.push(term);
                },
                Err(e) => {
                    proof {
                        self.lemma_extends_transitive(&before, old(self));
                    }
                    return Err(e);
                },
            }
            proof {
                self.lemma_extends_transitive(&before, old(self));
                assert forall|k: int| 0 <= k < out@.len() implies self.contains(
                    #[trigger] out@[k],
                ) && self.value(out@[k]) == vs[k] by {
                    if k < i {
                        assert(before.contains(done[k]));
                        self.lemma_extends(&before, done[k]);
                    }
                }
            }
            i += 1;
        }
        proof {
            assert(self.values_of(out@) =~= vs);
        }
        Ok(out)
    }

    /// A copy in this heap of a bitstring of another heap. A bitstring that
    /// ends on a whole byte is copied as a binary; any other as a binary and
    /// a window into it.
    pub fn copy_bitstring_from(&mut self, source: &Heap, t: Term) -> (r: Result<Term, Alloc>)
        requires
            old(self).wf(),
            source.wf(),
            source.contains(t),
            source.value(t) is Bitstring,
        ensures
            final(self).wf(),
            final(self).extends(old(self)),
            r is Ok <==> value_words(source.value(t)) <= old(self).spare(),
            r is Ok ==> {
                &&& final(self).contains(r->Ok_0)
                &&& final(self).value(r->Ok_0) == source.value(t)
                &&& final(self).used == old(self).used + value_words(source.value(t))
            },
    {
        let (bytes, window) = match source.bitstring_window(t) {
            Some(found) => found,
            None => {
                return Err(Alloc);
            },
        };
        let ghost v = source.value(t);
        let n: usize = window.full_byte_len;
        let mut copy: Vec<u8> = Vec::new();
        let mut i: usize = 0;
        while i < n
            invariant
                0 <= i <= n,
                n == window.full_byte_len,
                window.byte_offset + window.full_byte_len <= bytes@.len(),
                v == window_value(window, bytes@),
                copy@.len() == i,
                forall|k: int| 0 <= k < i ==> copy@[k] == full_bytes(v)[k],
            decreases n - i,
        {
            copy.push(window_byte(bytes.as_slice(), &window, i));
            i += 1;
        }
        proof {
            assert(copy@ =~= full_bytes(v));
        }
        if window.partial_byte_bit_len == 0 {
            proof {
                assert forall|x: u8| x & 0u8 == 0u8 by {
                    assert(x & 0u8 == 0u8) by (bit_vector);
                }
            }
            return self.binary_from_bytes(copy.as_slice());
        }
        let last: u8 = window_partial(bytes.as_slice(), &window);
        let count: u8 = window.partial_byte_bit_len;
        copy.push(last);
        let whole = match self.binary_from_bytes(copy.as_slice()) {
            Ok(term) => term,
            Err(e) => {
                return Err(e);
            },
        };
        let ghost middle = *self;
        let result = self.subbinary_from_original(whole, 0, 0, n, count);
        proof {
            self.lemma_extends_transitive(&middle, old(self));
            if result is Ok {
                let sub = SubBinary {
                    original: whole,
                    byte_offset: 0,
                    bit_offset: 0,
                    full_byte_len: n,
                    partial_byte_bit_len: count,
                };
                let made = window_value(sub, copy@);
                assert(full_bytes(made) =~= full_bytes(v));
                assert(partial_count(made) == partial_count(v));
                let mask = high_mask(count);
                assert forall|x: u8, m: u8| (x & m) & m == x & m by {
                    assert((x & m) & m == x & m) by (bit_vector);
                }
                assert(partial_bits(made) == partial_bits(v));
            }
        }
        result
    }
}

impl TermMap {
    /// Words that the keys and the values of the map take in a copy.
    pub open spec fn entry_words(&self, heap: &Heap) -> nat {
        values_words(self.key_values(heap), self.keys@.len() as int) + values_words(
            self.value_values(heap),
            self.values@.len() as int,
        )
    }

    /// True if `self`, in the heap `after`, is the copy that was made of
    /// the map `original` of the heap `source` when the heap was `before`:
    /// it has the same keys and values, in the same places, and the heap
    /// has grown by the words that they take.
    pub open spec fn copy_of(
        &self,
        after: &Heap,
        original: &TermMap,
        source: &Heap,
        before: &Heap,
    ) -> bool {
        &&& self.within(after)
        &&& self.key_values(after) == original.key_values(source)
        &&& self.value_values(after) == original.value_values(source)
        &&& self.keys@.len() == original.keys@.len()
        &&& after.used == before.used + original.entry_words(source)
    }

    /// A copy holds the map and nothing else: what is in the heap that
    /// the map was copied from and is no part of the map costs the copy
    /// nothing, so that a copy of the copy takes as many words as the copy,
    /// and a copy into an empty heap is copied again into as many words as
    /// that heap holds.
    pub proof fn lemma_copy_is_tight(
        &self,
        source: &Heap,
        before: &Heap,
        after: &Heap,
        copy: &TermMap,
        again_before: &Heap,
        again_after: &Heap,
        again: &TermMap,
    )
        requires
            copy.copy_of(after, self, source, before),
            again.copy_of(again_after, copy, after, again_before),
        ensures
            again.key_values(again_after) == self.key_values(source),
            again.value_values(again_after) == self.value_values(source),
            again_after.used - again_before.used == after.used - before.used,
            before.used == 0 ==> again_after.used - again_before.used == after.used,
    {
        assert(copy.values@.len() == copy.value_values(after).len());
        assert(self.values@.len() == self.value_values(source).len());
    }

    /// The map with the same entries in another heap: each key and each
    /// value is copied there.
    pub fn clone_into_heap(&self, source: &Heap, heap: &mut Heap) -> (r: Result<TermMap, Alloc>)
        requires
            old(heap).wf(),
            source.wf(),
            self.within(source),
            names_extend(old(heap).names@, source.names@),
        ensures
            final(heap).wf(),
            final(heap).extends(old(heap)),
            r is Ok <==> self.entry_words(source) <= old(heap).spare(),
            r is Ok ==> r->Ok_0.copy_of(final(heap), self, source, old(heap)),
        decreases self.deepest(source), 2nat,
    {
        proof {
            self.lemma_distinct_keys(source);
        }
        let ghost ks = source.values_of(self.keys@);
        let ghost vs = source.values_of(self.values@);
        let ghost n = self.keys@.len() as int;
        let (entry_keys, entry_values) = self.entry_terms();
        let ghost places = Seq::new(
            self.keys@.len(),
            |i: int|
                choose|x: int|
                    0 <= x < entry_keys@.len() && 0 <= x < entry_values@.len()
                        && #[trigger] entry_keys@[x] == self.keys@[i]
                        && entry_values@[x] == self.values@[i],
        );
        proof {
            let ek = entry_keys@;
            let ev = entry_values@;
            assert forall|i: int| 0 <= i < n implies 0 <= #[trigger] places[i]
                < ek.len() && ek[places[i]] == self.keys@[i] && ev[places[i]]
                == self.values@[i] by {
                assert(has_pair(ek, ev, self.keys@[i], self.values@[i]));
            }
            assert forall|j: int| 0 <= j < ek.len() implies source.contains(
                #[trigger] ek[j],
            ) && depth(source.value(ek[j])) <= depth_all(ks, n) by {
                assert(has_pair(self.keys@, self.values@, ek[j], ev[j]));
                let i = choose|i: int|
                    0 <= i < self.keys@.len() && 0 <= i < self.values@.len()
                        && #[trigger] self.keys@[i] == ek[j] && self.values@[i] == ev[j];
                assert(source.contains(self.keys@[i]));
                assert(ks[i] == source.value(ek[j]));
                lemma_depth_all_covers(ks, n, i);
            }
            assert forall|j: int| 0 <= j < ev.len() implies source.contains(
                #[trigger] ev[j],
            ) && depth(source.value(ev[j])) <= depth_all(vs, n) by {
                assert(has_pair(self.keys@, self.values@, ek[j], ev[j]));
                let i = choose|i: int|
                    0 <= i < self.keys@.len() && 0 <= i < self.values@.len()
                        && #[trigger] self.keys@[i] == ek[j] && self.values@[i] == ev[j];
                assert(source.contains(self.values@[i]));
                assert(vs[i] == source.value(ev[j]));
                lemma_depth_all_covers(vs, n, i);
            }
            let eks = source.values_of(ek);
            let evs = source.values_of(ev);
            assert forall|j: int| 0 <= j < n implies depth(#[trigger] eks[j])
                <= depth_all(ks, n) by {
                assert(source.contains(ek[j]));
            }
            assert forall|j: int| 0 <= j < n implies depth(#[trigger] evs[j])
                <= depth_all(vs, n) by {
                assert(source.contains(ev[j]));
            }
            lemma_depth_all_bounded(eks, n, depth_all(ks, n));
            lemma_depth_all_bounded(evs, n, depth_all(vs, n));
            assert forall|i: int, j: int|
                0 <= i < j < places.len() implies places[i] != places[j] by {
                if places[i] == places[j] {
                    assert(self.keys@[i] == self.keys@[j]);
                }
            }
            assert forall|i: int| 0 <= i < n implies eks[#[trigger] places[i]]
                == ks[i] && evs[places[i]] == vs[i] by {}
            lemma_values_words_permuted(eks, ks, places);
            lemma_values_words_permuted(evs, vs, places);
        }
        let keys = match heap.copy_all_from(source, &entry_keys) {
            Ok(terms) => terms,
            Err(e) => {
                return Err(e);
            },
        };
        let ghost middle = *heap;
        let values = match heap.copy_all_from(source, &entry_values) {
            Ok(terms) => terms,
            Err(e) => {
                proof {
                    heap.lemma_extends_transitive(&middle, old(heap));
                }
                return Err(e);
            },
        };
        let ghost later = *heap;
        proof {
            heap.lemma_extends_transitive(&middle, old(heap));
            heap.lemma_extends_all(&middle, keys@);
        }
        let map = self.transplant(
            Ghost(source),
            Ghost(&*heap),
            Ghost(entry_keys@),
            Ghost(entry_values@),
            &keys,
            &values,
        );
        Ok(map)
    }
}

/// A copy of a sequence of digits.
pub fn copy_digits(digits: &Vec<u32>) -> (r: Vec<u32>)
    ensures
        r@ == digits@,
{
    let mut copy: Vec<u32> = Vec::new();
    let mut i: usize = 0;
    while i < digits.len()
        invariant
            0 <= i <= digits@.len(),
            copy@ == digits@.subrange(0, i as int),
        decreases digits@.len() - i,
    {
        copy.push(digits[i]);
        assert(copy@ =~= digits@.subrange(0, i + 1));
        i += 1;
    }
    assert(digits@.subrange(0, digits@.len() as int) =~= digits@);
    copy
}

} // verus!
