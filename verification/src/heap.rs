//! A process's private heap: an arena of cells that grows at one end.
//!
//! Every composite term lives in a cell. A cell is reached by its index, and
//! the words it takes are charged against the heap's capacity, so that an
//! allocation is one addition and one comparison.

use vstd::prelude::*;
use std::sync::Arc;
use crate::atom::{distinct_names, lemma_predefined_distinct, names_extend, predefined_names};
use crate::words::word_map;
use crate::map::TermMap;
use crate::term::{encoded, Term, MAX_SMALL_INTEGER, MIN_SMALL_INTEGER};
use crate::value::{value_order, Order, Value};

verus! {

/// The heap has no room for what was asked of it.
#[derive(Clone, Copy, PartialEq, Eq, Structural, Debug)]
pub struct Alloc;

/// A window into a binary that starts and ends at any bit.
#[derive(Clone, Copy, PartialEq, Eq, Structural, Debug)]
pub struct SubBinary {
    /// The binary that holds the bits.
    pub original: Term,
    /// Whole bytes of that binary before the window.
    pub byte_offset: usize,
    /// Bits, 0 to 7, between those bytes and the window.
    pub bit_offset: u8,
    /// Whole bytes in the window.
    pub full_byte_len: usize,
    /// Bits, 0 to 7, in the window after its whole bytes.
    pub partial_byte_bit_len: u8,
}

/// A function with what it closed over.
pub struct Closure {
    /// The module of the function, an atom.
    pub module: usize,
    /// The index of the function in its module.
    pub index: u32,
    /// The number of arguments that the function takes.
    pub arity: u8,
    /// The terms that the function closed over.
    pub environment: Vec<Term>,
}

/// What a cell of the heap holds.
pub enum Object {
    /// A list cell: head and tail.
    Cons(Term, Term),
    Tuple(Vec<Term>),
    Closure(Closure),
    Mapping(TermMap),
    /// An integer outside the immediate range: its sign, and its magnitude in
    /// digits of 32 bits, least significant first.
    BigInteger(bool, Vec<u32>),
    /// A binary of whole bytes.
    HeapBinary(Vec<u8>),
    /// A binary of whole bytes that are kept outside the heap and counted:
    /// whoever copies the cell shares the bytes, and the bytes go when the
    /// last cell that shares them does.
    ProcBin(Arc<Vec<u8>>),
    SubBinary(SubBinary),
    /// Left behind by the collector where a cell was: the index of the cell's
    /// copy in the new heap.
    Moved(usize),
}

/// The natural number that a sequence of 32-bit digits stands for, least
/// significant digit first.
pub open spec fn magnitude(digits: Seq<u32>) -> nat
    decreases digits.len(),
{
    if digits.len() == 0 {
        0
    } else {
        digits[0] as nat + 4294967296 * magnitude(digits.drop_first())
    }
}

/// The integer with this sign and these digits.
pub open spec fn signed_value(negative: bool, digits: Seq<u32>) -> int {
    if negative {
        -(magnitude(digits) as int)
    } else {
        magnitude(digits) as int
    }
}

/// True if the last digit, the most significant, is not zero.
pub open spec fn trimmed(digits: Seq<u32>) -> bool {
    digits.len() == 0 || digits.last() != 0
}

/// The byte at `index`, or 0 past the end.
pub open spec fn byte_at(bytes: Seq<u8>, index: int) -> u8 {
    if 0 <= index < bytes.len() {
        bytes[index]
    } else {
        0
    }
}

/// The eight bits that start `bit_offset` bits into the byte at `index`.
pub open spec fn shifted_byte(bytes: Seq<u8>, index: int, bit_offset: u8) -> u8 {
    if bit_offset == 0 || bit_offset >= 8 {
        byte_at(bytes, index)
    } else {
        (byte_at(bytes, index) << bit_offset) | (byte_at(bytes, index + 1) >> ((8 - bit_offset) as u8))
    }
}

/// A byte whose `count` high-order bits are set.
pub open spec fn high_mask(count: u8) -> u8 {
    if count == 0 {
        0u8
    } else if count >= 8 {
        255u8
    } else {
        255u8 << ((8 - count) as u8)
    }
}

/// True if a term may stand in a heap with these cells and these atoms.
pub open spec fn term_ok(t: Term, objects: Seq<Object>, names: Seq<Seq<u8>>) -> bool {
    match t {
        Term::SmallInteger(n) => MIN_SMALL_INTEGER <= n <= MAX_SMALL_INTEGER,
        Term::Atom(a) => a < names.len(),
        Term::List(p) => p < objects.len() && objects[p as int] is Cons,
        Term::Boxed(p) => p < objects.len() && !(objects[p as int] is Cons) && !(objects[p as int] is Moved),
        _ => true,
    }
}

/// The value of a term, given the value of every cell.
pub open spec fn term_value(t: Term, values: Seq<Value>, names: Seq<Seq<u8>>) -> Value {
    match t {
        Term::SmallInteger(n) => Value::Integer(n as int),
        Term::Atom(a) => Value::Atom(
            if a < names.len() {
                names[a as int]
            } else {
                Seq::empty()
            },
        ),
        Term::Reference(r) => Value::Reference(r as nat),
        Term::Pid(p) => Value::Pid(p as nat),
        Term::Nil => Value::Nil,
        Term::List(p) => if p < values.len() {
            values[p as int]
        } else {
            Value::Nil
        },
        Term::Boxed(p) => if p < values.len() {
            values[p as int]
        } else {
            Value::Nil
        },
    }
}

/// True if each of the terms may stand in a heap with these cells and these
/// atoms.
pub open spec fn terms_ok(ts: Seq<Term>, objects: Seq<Object>, names: Seq<Seq<u8>>) -> bool {
    forall|i: int| 0 <= i < ts.len() ==> term_ok(#[trigger] ts[i], objects, names)
}

/// The value of each of the terms.
pub open spec fn terms_values(ts: Seq<Term>, values: Seq<Value>, names: Seq<Seq<u8>>) -> Seq<
    Value,
> {
    Seq::new(ts.len(), |i: int| term_value(ts[i], values, names))
}

/// True if the words of a map are the words of these keys, each with the
/// word of its value.
pub open spec fn linked(words: Map<u128, u128>, keys: Seq<Term>, values: Seq<Term>) -> bool {
    &&& keys.len() == values.len()
    &&& words.dom().finite()
    &&& words.dom().len() == keys.len()
    &&& forall|i: int|
        0 <= i < keys.len() ==> words.contains_key(encoded(#[trigger] keys[i])) && words[encoded(
            keys[i],
        )] == encoded(values[i])
    &&& forall|w: u128|
        words.contains_key(w) ==> exists|i: int|
            0 <= i < keys.len() && encoded(#[trigger] keys[i]) == w
}

/// Bytes from which on a binary is kept outside the heap.
pub const SHARED_BINARY_THRESHOLD: usize = 64;

/// The bytes of a cell that is a binary of whole bytes.
pub open spec fn cell_bytes(o: Object) -> Option<Seq<u8>> {
    match o {
        Object::HeapBinary(bytes) => Some(bytes@),
        Object::ProcBin(shared) => Some(shared@),
        _ => None,
    }
}

/// Words that a binary of `len` whole bytes takes on a heap.
pub open spec fn binary_words(len: nat) -> nat {
    if len > SHARED_BINARY_THRESHOLD {
        3
    } else {
        1 + (len + 7) / 8
    }
}

/// True if the window of a sub-binary lies within `bytes`.
pub open spec fn window_fits(s: SubBinary, bytes: Seq<u8>) -> bool {
    &&& s.bit_offset < 8
    &&& s.partial_byte_bit_len < 8
    &&& s.byte_offset * 8 + s.bit_offset + s.full_byte_len * 8 + s.partial_byte_bit_len
        <= bytes.len() * 8
}

/// True if a cell may stand in a heap with these cells and these atoms.
pub open spec fn object_ok(o: Object, objects: Seq<Object>, names: Seq<Seq<u8>>) -> bool {
    match o {
        Object::Cons(head, tail) => term_ok(head, objects, names) && term_ok(tail, objects, names),
        Object::Tuple(elements) => terms_ok(elements@, objects, names),
        Object::Closure(closure) => closure.module < names.len() && terms_ok(
            closure.environment@,
            objects,
            names,
        ),
        Object::Mapping(m) => {
            &&& linked(word_map(m.inner), m.keys@, m.values@)
            &&& terms_ok(m.keys@, objects, names)
            &&& terms_ok(m.values@, objects, names)
        },
        Object::BigInteger(negative, digits) => {
            &&& trimmed(digits@)
            &&& !(MIN_SMALL_INTEGER <= signed_value(negative, digits@) <= MAX_SMALL_INTEGER)
        },
        Object::HeapBinary(bytes) => bytes@.len() <= SHARED_BINARY_THRESHOLD,
        Object::ProcBin(shared) => shared@.len() > SHARED_BINARY_THRESHOLD,
        Object::SubBinary(s) => {
            &&& s.original is Boxed
            &&& s.original->Boxed_0 < objects.len()
            &&& cell_bytes(objects[s.original->Boxed_0 as int]) is Some
            &&& window_fits(s, cell_bytes(objects[s.original->Boxed_0 as int])->Some_0)
        },
        Object::Moved(_) => false,
    }
}

/// The bytes of a bitstring value.
pub open spec fn bitstring_bytes(v: Value) -> Seq<u8> {
    match v {
        Value::Bitstring(bytes, _, _) => bytes,
        _ => Seq::empty(),
    }
}

/// The value of a window into `bytes`.
pub open spec fn window_value(s: SubBinary, bytes: Seq<u8>) -> Value {
    Value::Bitstring(
        Seq::new(
            s.full_byte_len as nat,
            |i: int| shifted_byte(bytes, s.byte_offset + i, s.bit_offset),
        ),
        s.partial_byte_bit_len as nat,
        shifted_byte(bytes, s.byte_offset + s.full_byte_len, s.bit_offset) & high_mask(
            s.partial_byte_bit_len,
        ),
    )
}

/// The value of a cell, given the value of every cell it points to.
pub open spec fn object_value(o: Object, values: Seq<Value>, names: Seq<Seq<u8>>) -> Value {
    match o {
        Object::Cons(head, tail) => Value::Cons(
            Box::new(term_value(head, values, names)),
            Box::new(term_value(tail, values, names)),
        ),
        Object::Tuple(elements) => Value::Tuple(terms_values(elements@, values, names)),
        Object::Closure(closure) => Value::Function(
            if closure.module < names.len() {
                names[closure.module as int]
            } else {
                Seq::empty()
            },
            closure.index as nat,
            closure.arity as nat,
            terms_values(closure.environment@, values, names),
        ),
        Object::Mapping(m) => Value::Mapping(
            terms_values(m.keys@, values, names),
            terms_values(m.values@, values, names),
        ),
        Object::BigInteger(negative, digits) => Value::Integer(signed_value(negative, digits@)),
        Object::HeapBinary(bytes) => Value::Bitstring(bytes@, 0, 0),
        Object::ProcBin(shared) => Value::Bitstring(shared@, 0, 0),
        Object::SubBinary(s) => window_value(
            s,
            bitstring_bytes(term_value(s.original, values, names)),
        ),
        Object::Moved(_) => Value::Nil,
    }
}

/// True if each value of the sequence is less than every later one.
pub open spec fn strictly_ascending(vs: Seq<Value>) -> bool {
    forall|i: int, j: int|
        0 <= i < j < vs.len() ==> #[trigger] value_order(vs[i], vs[j]) == Order::Less
}

/// What must hold of a cell's value besides its shape: the keys of a map are
/// in ascending order, so no key occurs twice.
pub open spec fn value_ok(v: Value) -> bool {
    match v {
        Value::Mapping(keys, values) => keys.len() == values.len() && strictly_ascending(keys),
        _ => true,
    }
}

/// Words that a cell takes.
pub open spec fn object_words(o: Object) -> nat {
    match o {
        Object::Cons(_, _) => 2,
        Object::Tuple(elements) => 1 + elements@.len(),
        Object::Closure(closure) => 2 + closure.environment@.len(),
        Object::Mapping(m) => 1 + m.keys@.len() + m.values@.len(),
        Object::BigInteger(_, digits) => 1 + (digits@.len() + 1) / 2,
        Object::HeapBinary(bytes) => 1 + (bytes@.len() + 7) / 8,
        Object::ProcBin(_) => 3,
        Object::SubBinary(_) => 5,
        Object::Moved(_) => 0,
    }
}

/// Words that a sequence of cells takes.
pub open spec fn total_words(objects: Seq<Object>) -> nat
    decreases objects.len(),
{
    if objects.len() == 0 {
        0
    } else {
        total_words(objects.drop_last()) + object_words(objects.last())
    }
}

/// A cell more takes its words more.
pub proof fn lemma_total_words_push(objects: Seq<Object>, o: Object)
    ensures
        total_words(objects.push(o)) == total_words(objects) + object_words(o),
{
    assert(objects.push(o).drop_last() =~= objects);
}

/// What holds of the cell at `i` in a well-formed heap.
pub open spec fn cell_ok(
    objects: Seq<Object>,
    values: Seq<Value>,
    names: Seq<Seq<u8>>,
    i: int,
) -> bool {
    &&& object_ok(objects[i], objects, names)
    &&& values[i] == object_value(objects[i], values, names)
    &&& value_ok(values[i])
}

/// True if the cells and values `later` begin with `earlier`.
pub open spec fn cells_extend(
    later_objects: Seq<Object>,
    later_values: Seq<Value>,
    objects: Seq<Object>,
    values: Seq<Value>,
) -> bool {
    &&& objects.len() == values.len()
    &&& later_objects.len() == later_values.len()
    &&& objects.len() <= later_objects.len()
    &&& forall|i: int| 0 <= i < objects.len() ==> #[trigger] later_objects[i] == objects[i]
    &&& forall|i: int| 0 <= i < objects.len() ==> #[trigger] later_values[i] == values[i]
}

/// A term that may stand in a heap may stand in the heap after it has grown,
/// and means the same there.
pub proof fn lemma_term_stable(
    t: Term,
    objects: Seq<Object>,
    values: Seq<Value>,
    names: Seq<Seq<u8>>,
    later_objects: Seq<Object>,
    later_values: Seq<Value>,
    later_names: Seq<Seq<u8>>,
)
    requires
        cells_extend(later_objects, later_values, objects, values),
        names_extend(later_names, names),
        term_ok(t, objects, names),
    ensures
        term_ok(t, later_objects, later_names),
        term_value(t, later_values, later_names) == term_value(t, values, names),
{
    match t {
        Term::List(p) => {
            assert(later_objects[p as int] == objects[p as int]);
            assert(later_values[p as int] == values[p as int]);
        },
        Term::Boxed(p) => {
            assert(later_objects[p as int] == objects[p as int]);
            assert(later_values[p as int] == values[p as int]);
        },
        _ => {},
    }
}

/// Terms that may stand in a heap may stand in the heap after it has grown,
/// and mean the same there.
pub proof fn lemma_terms_stable(
    ts: Seq<Term>,
    objects: Seq<Object>,
    values: Seq<Value>,
    names: Seq<Seq<u8>>,
    later_objects: Seq<Object>,
    later_values: Seq<Value>,
    later_names: Seq<Seq<u8>>,
)
    requires
        cells_extend(later_objects, later_values, objects, values),
        names_extend(later_names, names),
        terms_ok(ts, objects, names),
    ensures
        terms_ok(ts, later_objects, later_names),
        terms_values(ts, later_values, later_names) == terms_values(ts, values, names),
{
    assert forall|i: int| 0 <= i < ts.len() implies term_ok(
        #[trigger] ts[i],
        later_objects,
        later_names,
    ) && term_value(ts[i], later_values, later_names) == term_value(ts[i], values, names) by {
        lemma_term_stable(ts[i], objects, values, names, later_objects, later_values, later_names);
    }
    assert(terms_values(ts, later_values, later_names) =~= terms_values(ts, values, names));
}

/// A cell that may stand in a heap may stand in the heap after it has grown,
/// and means the same there.
pub proof fn lemma_object_stable(
    o: Object,
    objects: Seq<Object>,
    values: Seq<Value>,
    names: Seq<Seq<u8>>,
    later_objects: Seq<Object>,
    later_values: Seq<Value>,
    later_names: Seq<Seq<u8>>,
)
    requires
        cells_extend(later_objects, later_values, objects, values),
        names_extend(later_names, names),
        object_ok(o, objects, names),
    ensures
        object_ok(o, later_objects, later_names),
        object_value(o, later_values, later_names) == object_value(o, values, names),
{
    match o {
        Object::Cons(head, tail) => {
            lemma_term_stable(head, objects, values, names, later_objects, later_values, later_names);
            lemma_term_stable(tail, objects, values, names, later_objects, later_values, later_names);
        },
        Object::Tuple(elements) => {
            lemma_terms_stable(
                elements@,
                objects,
                values,
                names,
                later_objects,
                later_values,
                later_names,
            );
        },
        Object::Closure(closure) => {
            lemma_terms_stable(
                closure.environment@,
                objects,
                values,
                names,
                later_objects,
                later_values,
                later_names,
            );
        },
        Object::Mapping(m) => {
            lemma_terms_stable(
                m.keys@,
                objects,
                values,
                names,
                later_objects,
                later_values,
                later_names,
            );
            lemma_terms_stable(
                m.values@,
                objects,
                values,
                names,
                later_objects,
                later_values,
                later_names,
            );
        },
        Object::SubBinary(sub) => {
            lemma_term_stable(
                sub.original,
                objects,
                values,
                names,
                later_objects,
                later_values,
                later_names,
            );
        },
        _ => {},
    }
}

/// Words that a cell takes, if the count fits the machine word.
pub fn words_of(object: &Object) -> (r: Option<usize>)
    requires
        *object is Mapping ==> linked(
            word_map(object->Mapping_0.inner),
            object->Mapping_0.keys@,
            object->Mapping_0.values@,
        ),
    ensures
        r == (if object_words(*object) <= usize::MAX {
            Some(object_words(*object) as usize)
        } else {
            None
        }),
{
    match object {
        Object::Cons(_, _) => Some(2),
        Object::Tuple(elements) => {
            let n: usize = elements.len();
            if n < usize::MAX {
                Some(n + 1)
            } else {
                None
            }
        },
        Object::Closure(closure) => {
            let n: usize = closure.environment.len();
            if n < usize::MAX - 1 {
                Some(n + 2)
            } else {
                None
            }
        },
        Object::Mapping(m) => {
            let k: usize = m.len();
            if k <= (usize::MAX - 1) / 2 {
                Some(1 + k + k)
            } else {
                None
            }
        },
        Object::BigInteger(_, digits) => {
            let n: usize = digits.len();
            Some(1 + n / 2 + n % 2)
        },
        Object::HeapBinary(bytes) => {
            let n: usize = bytes.len();
            if n % 8 == 0 {
                Some(1 + n / 8)
            } else {
                Some(2 + n / 8)
            }
        },
        Object::ProcBin(_) => Some(3),
        Object::SubBinary(_) => Some(5),
        Object::Moved(_) => Some(0),
    }
}

/// A heap: cells, the words they take, and the words they may take.
pub struct Heap {
    /// The cells, in the order in which they were allocated.
    pub objects: Vec<Object>,
    /// Words taken by the cells.
    pub used: usize,
    /// Words set aside for the owner's stack.
    pub reserved: usize,
    /// Words that the cells and the stack may take together.
    pub capacity: usize,
    /// The value of each cell.
    pub values: Ghost<Seq<Value>>,
    /// The atoms that terms of this heap may name.
    pub names: Ghost<Seq<Seq<u8>>>,
}

impl Heap {
    /// What holds of every heap: the count of its words is right and within
    /// its capacity, every cell points to cells of the heap only, and the
    /// value of every cell is what the cell holds.
    pub open spec fn wf(&self) -> bool {
        &&& self.values@.len() == self.objects@.len()
        &&& self.used == total_words(self.objects@)
        &&& self.used + self.reserved <= self.capacity
        &&& names_extend(self.names@, predefined_names())
        &&& distinct_names(self.names@)
        &&& forall|i: int|
            0 <= i < self.objects@.len() ==> #[trigger] cell_ok(
                self.objects@,
                self.values@,
                self.names@,
                i,
            )
    }

    /// True if the term may be used with this heap: what it points to is
    /// there.
    pub open spec fn contains(&self, t: Term) -> bool {
        term_ok(t, self.objects@, self.names@)
    }

    /// True if each of the terms may be used with this heap.
    pub open spec fn contains_all(&self, ts: Seq<Term>) -> bool {
        terms_ok(ts, self.objects@, self.names@)
    }

    /// The value of a term of this heap.
    pub open spec fn value(&self, t: Term) -> Value {
        term_value(t, self.values@, self.names@)
    }

    /// The value of each of the terms.
    pub open spec fn values_of(&self, ts: Seq<Term>) -> Seq<Value> {
        terms_values(ts, self.values@, self.names@)
    }

    /// Words that are still free.
    pub open spec fn spare(&self) -> nat {
        (self.capacity - self.used - self.reserved) as nat
    }

    /// True if `self` is `earlier` after some allocations: every term of
    /// `earlier` is a term of `self` and means what it meant.
    pub open spec fn extends(&self, earlier: &Heap) -> bool {
        &&& earlier.objects@.len() <= self.objects@.len()
        &&& self.names@ == earlier.names@
        &&& self.capacity == earlier.capacity
        &&& self.reserved == earlier.reserved
        &&& earlier.used <= self.used
        &&& forall|i: int|
            0 <= i < earlier.objects@.len() ==> #[trigger] self.objects@[i] == earlier.objects@[i]
        &&& forall|i: int|
            0 <= i < earlier.objects@.len() ==> #[trigger] self.values@[i] == earlier.values@[i]
    }

    /// An empty heap with room for `capacity` words.
    pub fn new(capacity: usize) -> (r: Heap)
        ensures
            r.wf(),
            r.objects@.len() == 0,
            r.used == 0,
            r.reserved == 0,
            r.capacity == capacity,
            r.names@ == predefined_names(),
    {
        proof {
            lemma_predefined_distinct();
        }
        Heap {
            objects: Vec::new(),
            used: 0,
            reserved: 0,
            capacity,
            values: Ghost(Seq::empty()),
            names: Ghost(predefined_names()),
        }
    }

    /// An empty heap of unbounded capacity that may hold the atoms that
    /// `source` may hold.
    pub fn fragment_of(source: &Heap) -> (r: Heap)
        requires
            source.wf(),
        ensures
            r.wf(),
            r.objects@.len() == 0,
            r.used == 0,
            r.reserved == 0,
            r.capacity == usize::MAX,
            r.names@ == source.names@,
    {
        Heap {
            objects: Vec::new(),
            used: 0,
            reserved: 0,
            capacity: usize::MAX,
            values: Ghost(Seq::empty()),
            names: Ghost(source.names@),
        }
    }

    /// Words taken by the cells.
    pub fn used(&self) -> (r: usize)
        ensures
            r == self.used,
    {
        self.used
    }

    /// Words that the cells and the stack may take together.
    pub fn capacity(&self) -> (r: usize)
        ensures
            r == self.capacity,
    {
        self.capacity
    }

    /// Tests whether a term may be used with this heap, which has seen all
    /// of the atom table.
    pub fn has(&self, atoms: &crate::atom::AtomTable, t: Term) -> (r: bool)
        requires
            self.names@ == atoms@,
        ensures
            r == self.contains(t),
    {
        match t {
            Term::SmallInteger(n) => MIN_SMALL_INTEGER <= n && n <= MAX_SMALL_INTEGER,
            Term::Atom(a) => a < atoms.len(),
            Term::List(p) => {
                if p < self.objects.len() {
                    match &self.objects[p] {
                        Object::Cons(_, _) => true,
                        _ => false,
                    }
                } else {
                    false
                }
            },
            Term::Boxed(p) => {
                if p < self.objects.len() {
                    match &self.objects[p] {
                        Object::Cons(_, _) => false,
                        Object::Moved(_) => false,
                        _ => true,
                    }
                } else {
                    false
                }
            },
            _ => true,
        }
    }

    /// Number of cells.
    pub fn len(&self) -> (r: usize)
        ensures
            r == self.objects@.len(),
    {
        self.objects.len()
    }

    /// The cell at `index`.
    pub fn object(&self, index: usize) -> (r: &Object)
        requires
            index < self.objects@.len(),
        ensures
            *r == self.objects@[index as int],
    {
        &self.objects[index]
    }

    /// A term of `earlier` is a term of every heap that extends it, and means
    /// the same there.
    pub proof fn lemma_extends(&self, earlier: &Heap, t: Term)
        requires
            self.extends(earlier),
            earlier.values@.len() == earlier.objects@.len(),
            self.values@.len() == self.objects@.len(),
            earlier.contains(t),
        ensures
            self.contains(t),
            self.value(t) == earlier.value(t),
    {
        lemma_term_stable(
            t,
            earlier.objects@,
            earlier.values@,
            earlier.names@,
            self.objects@,
            self.values@,
            self.names@,
        );
    }

    /// Terms of `earlier` are terms of every heap that extends it, and mean
    /// the same there.
    pub proof fn lemma_extends_all(&self, earlier: &Heap, ts: Seq<Term>)
        requires
            self.extends(earlier),
            earlier.values@.len() == earlier.objects@.len(),
            self.values@.len() == self.objects@.len(),
            earlier.contains_all(ts),
        ensures
            self.contains_all(ts),
            self.values_of(ts) == earlier.values_of(ts),
    {
        lemma_terms_stable(
            ts,
            earlier.objects@,
            earlier.values@,
            earlier.names@,
            self.objects@,
            self.values@,
            self.names@,
        );
    }

    /// A heap that extends one that extends a third extends the third.
    pub proof fn lemma_extends_transitive(&self, middle: &Heap, earlier: &Heap)
        requires
            self.extends(middle),
            middle.extends(earlier),
        ensures
            self.extends(earlier),
    {
        assert forall|i: int| 0 <= i < earlier.objects@.len() implies #[trigger] self.objects@[i]
            == earlier.objects@[i] by {
            assert(middle.objects@[i] == earlier.objects@[i]);
        }
        assert forall|i: int| 0 <= i < earlier.objects@.len() implies #[trigger] self.values@[i]
            == earlier.values@[i] by {
            assert(middle.values@[i] == earlier.values@[i]);
        }
    }

    /// Lets the heap hold the atoms that have been added to the table since
    /// it last saw it. Nothing in the heap changes.
    pub fn adopt(&mut self, atoms: &crate::atom::AtomTable)
        requires
            old(self).wf(),
            atoms.wf(),
            names_extend(atoms@, old(self).names@),
        ensures
            final(self).wf(),
            final(self).names@ == atoms@,
            final(self).objects == old(self).objects,
            final(self).values == old(self).values,
            final(self).used == old(self).used,
            final(self).reserved == old(self).reserved,
            final(self).capacity == old(self).capacity,
            forall|t: Term|
                old(self).contains(t) ==> final(self).contains(t) && final(self).value(t) == old(
                    self,
                ).value(t),
    {
        proof {
            let objects = self.objects@;
            let values = self.values@;
            let names = self.names@;
            assert forall|i: int| 0 <= i < objects.len() implies #[trigger] cell_ok(
                objects,
                values,
                atoms@,
                i,
            ) by {
                assert(cell_ok(objects, values, names, i));
                lemma_object_stable(objects[i], objects, values, names, objects, values, atoms@);
            }
            assert forall|t: Term| term_ok(t, objects, names) implies term_ok(t, objects, atoms@)
                && term_value(t, values, atoms@) == term_value(t, values, names) by {
                lemma_term_stable(t, objects, values, names, objects, values, atoms@);
            }
        }
        self.names = Ghost(atoms@);
    }

    /// Puts a cell at the end of the heap, if its words fit, and returns its
    /// index.
    pub fn allocate(&mut self, object: Object) -> (r: Result<usize, Alloc>)
        requires
            old(self).wf(),
            object_ok(object, old(self).objects@, old(self).names@),
            value_ok(object_value(object, old(self).values@, old(self).names@)),
        ensures
            final(self).wf(),
            final(self).extends(old(self)),
            r is Ok <==> object_words(object) <= old(self).spare(),
            r is Ok ==> {
                &&& r->Ok_0 == old(self).objects@.len()
                &&& final(self).objects@ == old(self).objects@.push(object)
                &&& final(self).values@ == old(self).values@.push(
                    object_value(object, old(self).values@, old(self).names@),
                )
                &&& final(self).used == old(self).used + object_words(object)
            },
            r is Err ==> *final(self) == *old(self),
    {
        let words = words_of(&object);
        match words {
            None => Err(Alloc),
            Some(w) => {
                if w > self.capacity - self.used - self.reserved {
                    return Err(Alloc);
                }
                let index: usize = self.objects.len();
                let ghost value = object_value(object, self.values@, self.names@);
                proof {
                    let objects = self.objects@;
                    let values = self.values@;
                    let names = self.names@;
                    let later_objects = objects.push(object);
                    let later_values = values.push(value);
                    lemma_total_words_push(objects, object);
                    assert(cells_extend(later_objects, later_values, objects, values));
                    assert forall|i: int| 0 <= i < later_objects.len() implies #[trigger] cell_ok(
                        later_objects,
                        later_values,
                        names,
                        i,
                    ) by {
                        if i < objects.len() {
                            assert(cell_ok(objects, values, names, i));
                            assert(later_objects[i] == objects[i]);
                            assert(later_values[i] == values[i]);
                        }
                        lemma_object_stable(
                            later_objects[i],
                            objects,
                            values,
                            names,
                            later_objects,
                            later_values,
                            names,
                        );
                    }
                }
                self.objects.push(object);
                self.values = Ghost(self.values@.push(value));
                self.used = self.used + w;
                Ok(index)
            },
        }
    }

    /// Words that are still free.
    pub fn available(&self) -> (r: usize)
        requires
            self.wf(),
        ensures
            r == self.spare(),
    {
        self.capacity - self.used - self.reserved
    }

    /// Sets `words` words aside for the stack, if they are free.
    pub fn reserve(&mut self, words: usize) -> (r: Result<(), Alloc>)
        requires
            old(self).wf(),
        ensures
            r is Ok <==> words <= old(self).spare(),
            r is Ok ==> *final(self) == (Heap {
                reserved: (old(self).reserved + words) as usize,
                ..*old(self)
            }),
            r is Err ==> *final(self) == *old(self),
            final(self).wf(),
    {
        if words > self.capacity - self.used - self.reserved {
            return Err(Alloc);
        }
        self.reserved = self.reserved + words;
        Ok(())
    }

    /// Gives back `words` words that were set aside for the stack.
    pub fn release(&mut self, words: usize)
        requires
            old(self).wf(),
            words <= old(self).reserved,
        ensures
            *final(self) == (Heap { reserved: (old(self).reserved - words) as usize, ..*old(self) }),
            final(self).wf(),
    {
        self.reserved = self.reserved - words;
    }

    /// Raises the capacity to `capacity`; a capacity that is no more than
    /// the heap has is ignored.
    pub fn grow(&mut self, capacity: usize)
        requires
            old(self).wf(),
        ensures
            *final(self) == (Heap {
                capacity: if capacity > old(self).capacity {
                    capacity
                } else {
                    old(self).capacity
                },
                ..*old(self)
            }),
            final(self).wf(),
    {
        if capacity > self.capacity {
            self.capacity = capacity;
        }
    }
}

} // verus!
