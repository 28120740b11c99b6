//! The constructors of composite terms. Each takes the heap that is to own
//! the new term, and either returns a term of that heap or fails because the
//! heap is full and leaves it as it was.

use vstd::prelude::*;
use crate::heap::{
    binary_words, lemma_object_stable, object_value, window_fits, window_value, Alloc, Heap,
    Object, SubBinary, SHARED_BINARY_THRESHOLD,
};
use crate::term::Term;
use crate::value::Value;

verus! {

/// The list of `items` that ends in `last`.
pub open spec fn list_value(items: Seq<Value>, last: Value) -> Value
    decreases items.len(),
{
    if items.len() == 0 {
        last
    } else {
        Value::Cons(Box::new(items[0]), Box::new(list_value(items.drop_first(), last)))
    }
}

/// A list that ends in `last` after its items is the list of all but its
/// first item, with the first item put in front.
pub proof fn lemma_list_value_from(items: Seq<Value>, last: Value, from: int)
    requires
        0 <= from < items.len(),
    ensures
        list_value(items.subrange(from, items.len() as int), last) == Value::Cons(
            Box::new(items[from]),
            Box::new(list_value(items.subrange(from + 1, items.len() as int), last)),
        ),
{
    let suffix = items.subrange(from, items.len() as int);
    assert(suffix.drop_first() =~= items.subrange(from + 1, items.len() as int));
}

/// A copy of a slice of terms.
pub fn terms_to_vec(terms: &[Term]) -> (r: Vec<Term>)
    ensures
        r@ == terms@,
{
    let mut out: Vec<Term> = Vec::new();
    let mut i: usize = 0;
    while i < terms.len()
        invariant
            0 <= i <= terms.len(),
            out@ == terms@.subrange(0, i as int),
        decreases terms.len() - i,
    {
        out.push(terms[i]);
        assert(out@ =~= terms@.subrange(0, i + 1));
        i += 1;
    }
    assert(terms@.subrange(0, terms.len() as int) =~= terms@);
    out
}

impl Heap {
    /// A list cell with this head and this tail.
    pub fn cons(&mut self, head: Term, tail: Term) -> (r: Result<Term, Alloc>)
        requires
            old(self).wf(),
            old(self).contains(head),
            old(self).contains(tail),
        ensures
            final(self).wf(),
            final(self).extends(old(self)),
            r is Ok <==> 2 <= old(self).spare(),
            r is Ok ==> {
                &&& r->Ok_0 is List
                &&& r->Ok_0->List_0 == old(self).objects@.len()
                &&& final(self).contains(r->Ok_0)
                &&& final(self).value(r->Ok_0) == Value::Cons(
                    Box::new(old(self).value(head)),
                    Box::new(old(self).value(tail)),
                )
                &&& final(self).used == old(self).used + 2
            },
            r is Err ==> *final(self) == *old(self),
    {
        match self.allocate(Object::Cons(head, tail)) {
            Ok(index) => Ok(Term::List(index)),
            Err(e) => Err(e),
        }
    }

    /// A tuple of these elements.
    pub fn tuple_from_slice(&mut self, elements: &[Term]) -> (r: Result<Term, Alloc>)
        requires
            old(self).wf(),
            old(self).contains_all(elements@),
        ensures
            final(self).wf(),
            final(self).extends(old(self)),
            r is Ok <==> 1 + elements@.len() <= old(self).spare(),
            r is Ok ==> {
                &&& r->Ok_0 is Boxed
                &&& r->Ok_0->Boxed_0 == old(self).objects@.len()
                &&& final(self).contains(r->Ok_0)
                &&& final(self).value(r->Ok_0) == Value::Tuple(old(self).values_of(elements@))
                &&& final(self).used == old(self).used + 1 + elements@.len()
            },
            r is Err ==> *final(self) == *old(self),
    {
        let copy = terms_to_vec(elements);
        match self.allocate(Object::Tuple(copy)) {
            Ok(index) => Ok(Term::Boxed(index)),
            Err(e) => Err(e),
        }
    }

    /// A function of `module` with these terms closed over.
    pub fn closure(&mut self, module: usize, index: u32, arity: u8, environment: &[Term]) -> (r:
        Result<Term, Alloc>)
        requires
            old(self).wf(),
            old(self).contains(Term::Atom(module)),
            old(self).contains_all(environment@),
        ensures
            final(self).wf(),
            final(self).extends(old(self)),
            r is Ok <==> 2 + environment@.len() <= old(self).spare(),
            r is Ok ==> {
                &&& r->Ok_0 is Boxed
                &&& r->Ok_0->Boxed_0 == old(self).objects@.len()
                &&& final(self).contains(r->Ok_0)
                &&& final(self).value(r->Ok_0) == Value::Function(
                    old(self).names@[module as int],
                    index as nat,
                    arity as nat,
                    old(self).values_of(environment@),
                )
                &&& final(self).used == old(self).used + 2 + environment@.len()
            },
            r is Err ==> *final(self) == *old(self),
    {
        let copy = terms_to_vec(environment);
        match self.allocate(
            Object::Closure(crate::heap::Closure { module, index, arity, environment: copy }),
        ) {
            Ok(index) => Ok(Term::Boxed(index)),
            Err(e) => Err(e),
        }
    }

    /// The list of these elements that ends in `last`. With `last` the empty
    /// list the result is a proper list.
    pub fn improper_list_from_slice(&mut self, elements: &[Term], last: Term) -> (r: Result<
        Term,
        Alloc,
    >)
        requires
            old(self).wf(),
            old(self).contains_all(elements@),
            old(self).contains(last),
        ensures
            final(self).wf(),
            final(self).extends(old(self)),
            r is Ok <==> 2 * elements@.len() <= old(self).spare(),
            r is Ok ==> {
                &&& final(self).contains(r->Ok_0)
                &&& final(self).value(r->Ok_0) == list_value(
                    old(self).values_of(elements@),
                    old(self).value(last),
                )
                &&& final(self).used == old(self).used + 2 * elements@.len()
            },
            r is Err ==> *final(self) == *old(self),
    {
        let n: usize = elements.len();
        if n > (self.capacity - self.used - self.reserved) / 2 {
            return Err(Alloc);
        }
        let ghost items = self.values_of(elements@);
        let ghost last_value = self.value(last);
        let mut tail: Term = last;
        let mut i: usize = n;
        proof {
            assert(items.subrange(n as int, n as int) =~= Seq::<Value>::empty());
        }
        while i > 0
            invariant
                0 <= i <= n,
                n == elements@.len(),
                items == old(self).values_of(elements@),
                last_value == old(self).value(last),
                old(self).wf(),
                old(self).contains_all(elements@),
                self.wf(),
                self.extends(old(self)),
                self.contains(tail),
                self.value(tail) == list_value(items.subrange(i as int, n as int), last_value),
                self.used == old(self).used + 2 * (n - i),
                2 * n <= old(self).spare(),
            decreases i,
        {
            i -= 1;
            let ghost before = *self;
            let element: Term = elements[i];
            proof {
                assert(old(self).contains(elements@[i as int]));
                self.lemma_extends(old(self), element);
            }
            match self.allocate(Object::Cons(element, tail)) {
                Ok(index) => {
                    proof {
                        self.lemma_extends_transitive(&before, old(self));
                        lemma_list_value_from(items, last_value, i as int);
                        assert(items[i as int] == old(self).value(element));
                    }
                    tail = Term::List(index);
                },
                Err(_) => {
                    proof {
                        assert(false);
                    }
                    return Err(Alloc);
                },
            }
        }
        proof {
            assert(items.subrange(0, n as int) =~= items);
        }
        Ok(tail)
    }

    /// The proper list of these elements.
    pub fn list_from_slice(&mut self, elements: &[Term]) -> (r: Result<Term, Alloc>)
        requires
            old(self).wf(),
            old(self).contains_all(elements@),
        ensures
            final(self).wf(),
            final(self).extends(old(self)),
            r is Ok <==> 2 * elements@.len() <= old(self).spare(),
            r is Ok ==> {
                &&& final(self).contains(r->Ok_0)
                &&& final(self).value(r->Ok_0) == list_value(
                    old(self).values_of(elements@),
                    Value::Nil,
                )
                &&& final(self).used == old(self).used + 2 * elements@.len()
            },
            r is Err ==> *final(self) == *old(self),
    {
        self.improper_list_from_slice(elements, Term::Nil)
    }

    /// A binary of these bytes.
    pub fn binary_from_bytes(&mut self, bytes: &[u8]) -> (r: Result<Term, Alloc>)
        requires
            old(self).wf(),
        ensures
            final(self).wf(),
            final(self).extends(old(self)),
            r is Ok <==> binary_words(bytes@.len()) <= old(self).spare(),
            r is Ok ==> {
                &&& r->Ok_0 is Boxed
                &&& r->Ok_0->Boxed_0 == old(self).objects@.len()
                &&& final(self).contains(r->Ok_0)
                &&& crate::heap::cell_bytes(final(self).objects@[old(self).objects@.len() as int])
                    == Some(bytes@)
                &&& final(self).value(r->Ok_0) == Value::Bitstring(bytes@, 0, 0)
                &&& final(self).used == old(self).used + binary_words(bytes@.len())
            },
            r is Err ==> *final(self) == *old(self),
    {
        let copy = crate::atom::bytes_to_vec(bytes);
        let object = if copy.len() > SHARED_BINARY_THRESHOLD {
            Object::ProcBin(std::sync::Arc::new(copy))
        } else {
            Object::HeapBinary(copy)
        };
        match self.allocate(object) {
            Ok(index) => Ok(Term::Boxed(index)),
            Err(e) => Err(e),
        }
    }

    /// True if `original` is a binary of whole bytes in its own cell, and the
    /// window that the other arguments describe lies within it.
    pub open spec fn window_within(
        &self,
        original: Term,
        byte_offset: usize,
        bit_offset: u8,
        full_byte_len: usize,
        partial_byte_bit_len: u8,
    ) -> bool {
        &&& original is Boxed
        &&& original->Boxed_0 < self.objects@.len()
        &&& crate::heap::cell_bytes(self.objects@[original->Boxed_0 as int]) is Some
        &&& window_fits(
            SubBinary { original, byte_offset, bit_offset, full_byte_len, partial_byte_bit_len },
            crate::heap::cell_bytes(self.objects@[original->Boxed_0 as int])->Some_0,
        )
    }

    /// Tests whether a window lies within a binary.
    pub fn is_window_within(
        &self,
        original: Term,
        byte_offset: usize,
        bit_offset: u8,
        full_byte_len: usize,
        partial_byte_bit_len: u8,
    ) -> (r: bool)
        ensures
            r == self.window_within(
                original,
                byte_offset,
                bit_offset,
                full_byte_len,
                partial_byte_bit_len,
            ),
    {
        match original {
            Term::Boxed(p) => {
                if p >= self.objects.len() {
                    return false;
                }
                let len: usize = match &self.objects[p] {
                    Object::HeapBinary(bytes) => bytes.len(),
                    Object::ProcBin(shared) => crate::binary::shared_bytes(shared).len(),
                    _ => {
                        return false;
                    },
                };
                if bit_offset >= 8 || partial_byte_bit_len >= 8 {
                    return false;
                }
                if byte_offset > len || full_byte_len > len - byte_offset {
                    return false;
                }
                let rest: usize = len - byte_offset - full_byte_len;
                let bits: u8 = bit_offset + partial_byte_bit_len;
                if bits == 0 {
                    true
                } else if bits <= 8 {
                    rest >= 1
                } else {
                    rest >= 2
                }
            },
            _ => false,
        }
    }

    /// The bitstring of the bits of `original` that lie in the window.
    pub fn subbinary_from_original(
        &mut self,
        original: Term,
        byte_offset: usize,
        bit_offset: u8,
        full_byte_len: usize,
        partial_byte_bit_len: u8,
    ) -> (r: Result<Term, Alloc>)
        requires
            old(self).wf(),
            old(self).window_within(
                original,
                byte_offset,
                bit_offset,
                full_byte_len,
                partial_byte_bit_len,
            ),
        ensures
            final(self).wf(),
            final(self).extends(old(self)),
            r is Ok <==> 5 <= old(self).spare(),
            r is Ok ==> {
                &&& r->Ok_0 is Boxed
                &&& r->Ok_0->Boxed_0 == old(self).objects@.len()
                &&& final(self).contains(r->Ok_0)
                &&& final(self).value(r->Ok_0) == window_value(
                    SubBinary {
                        original,
                        byte_offset,
                        bit_offset,
                        full_byte_len,
                        partial_byte_bit_len,
                    },
                    crate::heap::cell_bytes(old(self).objects@[original->Boxed_0 as int])->Some_0,
                )
                &&& final(self).used == old(self).used + 5
            },
            r is Err ==> *final(self) == *old(self),
    {
        let sub = SubBinary {
            original,
            byte_offset,
            bit_offset,
            full_byte_len,
            partial_byte_bit_len,
        };
        proof {
            let p = original->Boxed_0 as int;
            assert(crate::heap::cell_ok(self.objects@, self.values@, self.names@, p));
        }
        match self.allocate(Object::SubBinary(sub)) {
            Ok(index) => Ok(Term::Boxed(index)),
            Err(e) => Err(e),
        }
    }

    /// The elements of a tuple; nothing for any other term.
    pub fn tuple_elements(&self, t: Term) -> (r: Option<&Vec<Term>>)
        requires
            self.wf(),
            self.contains(t),
        ensures
            r is Some <==> self.value(t) is Tuple,
            r is Some ==> self.contains_all(r->Some_0@) && self.value(t) == Value::Tuple(
                self.values_of(r->Some_0@),
            ),
    {
        match t {
            Term::Boxed(p) => {
                proof {
                    assert(crate::heap::cell_ok(self.objects@, self.values@, self.names@, p as int));
                }
                match &self.objects[p] {
                    Object::Tuple(elements) => Some(elements),
                    _ => None,
                }
            },
            Term::List(p) => {
                proof {
                    assert(crate::heap::cell_ok(self.objects@, self.values@, self.names@, p as int));
                }
                None
            },
            _ => None,
        }
    }

    /// The elements of a list that ends in the empty list; nothing for any
    /// other term.
    pub fn list_to_vec(&self, t: Term) -> (r: Option<Vec<Term>>)
        requires
            self.wf(),
            self.contains(t),
        ensures
            r is Some <==> proper_list(self.value(t)) is Some,
            r is Some ==> self.contains_all(r->Some_0@) && self.values_of(r->Some_0@)
                == proper_list(self.value(t))->Some_0,
    {
        let mut out: Vec<Term> = Vec::new();
        let mut current: Term = t;
        proof {
            assert(self.values_of(out@) =~= Seq::<Value>::empty());
            assert(Seq::<Value>::empty() + proper_list(self.value(t))->Some_0 =~= proper_list(
                self.value(t),
            )->Some_0);
        }
        loop
            invariant
                self.wf(),
                self.contains(current),
                self.contains_all(out@),
                proper_list(self.value(t)) is Some <==> proper_list(self.value(current)) is Some,
                proper_list(self.value(t)) is Some ==> proper_list(self.value(t))->Some_0
                    == self.values_of(out@) + proper_list(self.value(current))->Some_0,
            decreases crate::value::depth(self.value(current)),
        {
            match current {
                Term::Nil => {
                    proof {
                        assert(self.values_of(out@) + Seq::<Value>::empty() =~= self.values_of(
                            out@,
                        ));
                    }
                    return Some(out);
                },
                Term::List(p) => {
                    proof {
                        assert(crate::heap::cell_ok(
                            self.objects@,
                            self.values@,
                            self.names@,
                            p as int,
                        ));
                    }
                    match &self.objects[p] {
                        Object::Cons(head, tail) => {
                            let ghost before = out@;
                            out.push(*head);
                            proof {
                                let rest = proper_list(self.value(*tail))->Some_0;
                                assert(self.values_of(out@) =~= self.values_of(before).push(
                                    self.value(*head),
                                ));
                                assert(self.values_of(before) + (seq![self.value(*head)] + rest)
                                    =~= self.values_of(out@) + rest);
                            }
                            current = *tail;
                        },
                        _ => {
                            return None;
                        },
                    }
                },
                _ => {
                    proof {
                        self.lemma_shape(current);
                    }
                    return None;
                },
            }
        }
    }
}

/// The items of a list that ends in the empty list; nothing for any other
/// value.
pub open spec fn proper_list(v: Value) -> Option<Seq<Value>>
    decreases v,
{
    match v {
        Value::Nil => Some(Seq::empty()),
        Value::Cons(head, tail) => match proper_list(*tail) {
            Some(rest) => Some(seq![*head] + rest),
            None => None,
        },
        _ => None,
    }
}

} // verus!