//! The order of terms, computed on a heap.

use vstd::prelude::*;
use crate::atom::{names_extend, AtomTable};
use crate::binary::{full_bytes, partial_bits, partial_count, window_byte, window_partial};
use crate::heap::{cell_ok, window_value, Heap, Object, SubBinary};
use crate::term::{Kind, Term};
use crate::value::{
    bytes_order, depth, depth_all, greater, int_order, kind_rank, lemma_depth_all_covers,
    value_order, values_order, Order, Value,
};

verus! {

/// The kind of a value.
pub open spec fn kind_of(v: Value) -> Kind {
    match v {
        Value::Integer(_) => Kind::Integer,
        Value::Atom(_) => Kind::Atom,
        Value::Reference(_) => Kind::Reference,
        Value::Pid(_) => Kind::Pid,
        Value::Function(_, _, _, _) => Kind::Function,
        Value::Tuple(_) => Kind::Tuple,
        Value::Mapping(_, _) => Kind::Mapping,
        Value::Nil => Kind::Nil,
        Value::Cons(_, _) => Kind::List,
        Value::Bitstring(_, _, _) => Kind::Bitstring,
    }
}

/// The place of a kind in the order of kinds.
pub fn rank(kind: Kind) -> (r: u8)
    ensures
        forall|v: Value| kind_of(v) == kind ==> r == kind_rank(v),
{
    match kind {
        Kind::Integer => 0,
        Kind::Atom => 1,
        Kind::Reference => 2,
        Kind::Function => 3,
        Kind::Pid => 4,
        Kind::Tuple => 5,
        Kind::Mapping => 6,
        Kind::Nil => 7,
        Kind::List => 8,
        Kind::Bitstring => 9,
    }
}

/// The order of two machine integers.
pub fn order_u64(a: u64, b: u64) -> (r: Order)
    ensures
        r == int_order(a as int, b as int),
{
    if a < b {
        Order::Less
    } else if a == b {
        Order::Equal
    } else {
        Order::Greater
    }
}

/// The order of two sizes.
pub fn order_usize(a: usize, b: usize) -> (r: Order)
    ensures
        r == int_order(a as int, b as int),
{
    if a < b {
        Order::Less
    } else if a == b {
        Order::Equal
    } else {
        Order::Greater
    }
}

/// Skipping bytes that are equal does not change the order.
pub proof fn lemma_bytes_order_skip(a: Seq<u8>, b: Seq<u8>, from: int, to: int)
    requires
        0 <= from <= to,
        to <= a.len(),
        to <= b.len(),
        forall|k: int| from <= k < to ==> a[k] == b[k],
    ensures
        bytes_order(a, b, from) == bytes_order(a, b, to),
    decreases to - from,
{
    if from < to {
        lemma_bytes_order_skip(a, b, from + 1, to);
    }
}

/// The lexicographic order of two byte strings.
pub fn compare_bytes(a: &[u8], b: &[u8]) -> (r: Order)
    ensures
        r == bytes_order(a@, b@, 0),
{
    let mut i: usize = 0;
    while i < a.len() && i < b.len()
        invariant
            0 <= i <= a@.len(),
            i <= b@.len(),
            forall|k: int| 0 <= k < i ==> a@[k] == b@[k],
        decreases a@.len() - i,
    {
        if a[i] != b[i] {
            proof {
                lemma_bytes_order_skip(a@, b@, 0, i as int);
            }
            return order_u64(a[i] as u64, b[i] as u64);
        }
        i += 1;
    }
    proof {
        lemma_bytes_order_skip(a@, b@, 0, i as int);
    }
    order_usize(a.len(), b.len())
}

/// The order of two windows into bytes, as bitstrings.
pub fn compare_windows(a: &[u8], wa: &SubBinary, b: &[u8], wb: &SubBinary) -> (r: Order)
    requires
        wa.byte_offset + wa.full_byte_len <= a@.len(),
        wb.byte_offset + wb.full_byte_len <= b@.len(),
    ensures
        r == value_order(window_value(*wa, a@), window_value(*wb, b@)),
{
    let ghost va = window_value(*wa, a@);
    let ghost vb = window_value(*wb, b@);
    let ghost xs = full_bytes(va);
    let ghost ys = full_bytes(vb);
    let mut i: usize = 0;
    while i < wa.full_byte_len && i < wb.full_byte_len
        invariant
            0 <= i <= wa.full_byte_len,
            i <= wb.full_byte_len,
            wa.byte_offset + wa.full_byte_len <= a@.len(),
            wb.byte_offset + wb.full_byte_len <= b@.len(),
            xs == full_bytes(window_value(*wa, a@)),
            ys == full_bytes(window_value(*wb, b@)),
            forall|k: int| 0 <= k < i ==> xs[k] == ys[k],
        decreases wa.full_byte_len - i,
    {
        let x: u8 = window_byte(a, wa, i);
        let y: u8 = window_byte(b, wb, i);
        if x != y {
            proof {
                lemma_bytes_order_skip(xs, ys, 0, i as int);
            }
            return order_u64(x as u64, y as u64);
        }
        i += 1;
    }
    proof {
        lemma_bytes_order_skip(xs, ys, 0, i as int);
    }
    let lengths = order_usize(wa.full_byte_len, wb.full_byte_len);
    if lengths != Order::Equal {
        return lengths;
    }
    if wa.partial_byte_bit_len != wb.partial_byte_bit_len {
        return order_u64(wa.partial_byte_bit_len as u64, wb.partial_byte_bit_len as u64);
    }
    order_u64(window_partial(a, wa) as u64, window_partial(b, wb) as u64)
}

/// Skipping values that are equal does not change the order.
pub proof fn lemma_values_order_skip(a: Seq<Value>, b: Seq<Value>, from: int, to: int)
    requires
        0 <= from <= to,
        to <= a.len(),
        to <= b.len(),
        forall|k: int| from <= k < to ==> value_order(a[k], b[k]) == Order::Equal,
    ensures
        values_order(a, b, from) == values_order(a, b, to),
    decreases to - from,
{
    if from < to {
        lemma_values_order_skip(a, b, from + 1, to);
    }
}

impl Heap {
    /// The shape of a term follows from the kind of its value.
    pub proof fn lemma_shape(&self, t: Term)
        requires
            self.wf(),
            self.contains(t),
        ensures
            match self.value(t) {
                Value::Integer(_) => t is SmallInteger || (t is Boxed && self.objects@[t->Boxed_0 as int] is BigInteger),
                Value::Atom(_) => t is Atom,
                Value::Reference(_) => t is Reference,
                Value::Pid(_) => t is Pid,
                Value::Nil => t is Nil,
                Value::Cons(_, _) => t is List,
                Value::Tuple(_) => t is Boxed && self.objects@[t->Boxed_0 as int] is Tuple,
                Value::Function(_, _, _, _) => t is Boxed && self.objects@[t->Boxed_0 as int]
                    is Closure,
                Value::Mapping(_, _) => t is Boxed && self.objects@[t->Boxed_0 as int] is Mapping,
                Value::Bitstring(_, _, _) => t is Boxed && (self.objects@[t->Boxed_0 as int] is HeapBinary
                    || self.objects@[t->Boxed_0 as int] is ProcBin
                    || self.objects@[t->Boxed_0 as int] is SubBinary),
            },
    {
        match t {
            Term::List(p) => {
                assert(cell_ok(self.objects@, self.values@, self.names@, p as int));
            },
            Term::Boxed(p) => {
                assert(cell_ok(self.objects@, self.values@, self.names@, p as int));
            },
            _ => {},
        }
    }

    /// The kind of a term.
    pub fn kind(&self, t: Term) -> (r: Kind)
        requires
            self.wf(),
            self.contains(t),
        ensures
            r == kind_of(self.value(t)),
    {
        match t {
            Term::SmallInteger(_) => Kind::Integer,
            Term::Atom(_) => Kind::Atom,
            Term::Reference(_) => Kind::Reference,
            Term::Pid(_) => Kind::Pid,
            Term::Nil => Kind::Nil,
            Term::List(p) => {
                proof {
                    assert(cell_ok(self.objects@, self.values@, self.names@, p as int));
                }
                Kind::List
            },
            Term::Boxed(p) => {
                proof {
                    assert(cell_ok(self.objects@, self.values@, self.names@, p as int));
                }
                match &self.objects[p] {
                    Object::Tuple(_) => Kind::Tuple,
                    Object::Closure(_) => Kind::Function,
                    Object::Mapping(_) => Kind::Mapping,
                    Object::BigInteger(_, _) => Kind::Integer,
                    Object::HeapBinary(_) => Kind::Bitstring,
                    Object::ProcBin(_) => Kind::Bitstring,
                    Object::SubBinary(_) => Kind::Bitstring,
                    _ => Kind::Nil,
                }
            },
        }
    }

    /// The order of two terms of this heap.
    pub fn compare(&self, atoms: &AtomTable, a: Term, b: Term) -> (r: Order)
        requires
            self.wf(),
            self.contains(a),
            self.contains(b),
            names_extend(atoms@, self.names@),
        ensures
            r == value_order(self.value(a), self.value(b)),
        decreases greater(depth(self.value(a)), depth(self.value(b))), 0nat,
    {
        proof {
            self.lemma_shape(a);
            self.lemma_shape(b);
        }
        let ka = self.kind(a);
        let kb = self.kind(b);
        let ra: u8 = rank(ka);
        let rb: u8 = rank(kb);
        if ra != rb {
            return order_u64(ra as u64, rb as u64);
        }
        match (a, b) {
            (Term::Atom(x), Term::Atom(y)) => compare_bytes(
                atoms.name(x).as_slice(),
                atoms.name(y).as_slice(),
            ),
            (Term::Reference(x), Term::Reference(y)) => order_u64(x, y),
            (Term::Pid(x), Term::Pid(y)) => order_usize(x, y),
            (Term::Nil, Term::Nil) => Order::Equal,
            (Term::List(p), Term::List(q)) => {
                proof {
                    assert(cell_ok(self.objects@, self.values@, self.names@, p as int));
                    assert(cell_ok(self.objects@, self.values@, self.names@, q as int));
                }
                match (&self.objects[p], &self.objects[q]) {
                    (Object::Cons(xh, xt), Object::Cons(yh, yt)) => {
                        let heads = self.compare(atoms, *xh, *yh);
                        if heads != Order::Equal {
                            heads
                        } else {
                            self.compare(atoms, *xt, *yt)
                        }
                    },
                    _ => Order::Equal,
                }
            },
            _ => {
                match ka {
                    Kind::Integer => self.integer_order(a, b),
                    Kind::Bitstring => {
                        match (self.bitstring_window(a), self.bitstring_window(b)) {
                            (Some((xs, xw)), Some((ys, yw))) => compare_windows(
                                xs.as_slice(),
                                &xw,
                                ys.as_slice(),
                                &yw,
                            ),
                            _ => Order::Equal,
                        }
                    },
                    _ => {
                        match (a, b) {
                            (Term::Boxed(p), Term::Boxed(q)) => {
                                proof {
                                    assert(cell_ok(
                                        self.objects@,
                                        self.values@,
                                        self.names@,
                                        p as int,
                                    ));
                                    assert(cell_ok(
                                        self.objects@,
                                        self.values@,
                                        self.names@,
                                        q as int,
                                    ));
                                }
                                match (&self.objects[p], &self.objects[q]) {
                                    (Object::Closure(x), Object::Closure(y)) => {
                                        let modules = compare_bytes(
                                            atoms.name(x.module).as_slice(),
                                            atoms.name(y.module).as_slice(),
                                        );
                                        if modules != Order::Equal {
                                            modules
                                        } else if x.index != y.index {
                                            order_u64(x.index as u64, y.index as u64)
                                        } else if x.arity != y.arity {
                                            order_u64(x.arity as u64, y.arity as u64)
                                        } else if x.environment.len() != y.environment.len() {
                                            order_usize(x.environment.len(), y.environment.len())
                                        } else {
                                            self.compare_all(atoms, &x.environment, &y.environment)
                                        }
                                    },
                                    (Object::Tuple(xs), Object::Tuple(ys)) => {
                                        if xs.len() != ys.len() {
                                            order_usize(xs.len(), ys.len())
                                        } else {
                                            self.compare_all(atoms, xs, ys)
                                        }
                                    },
                                    (Object::Mapping(x), Object::Mapping(y)) => x.order(
                                        self,
                                        atoms,
                                        y,
                                    ),
                                    _ => Order::Equal,
                                }
                            },
                            _ => Order::Equal,
                        }
                    },
                }
            },
        }
    }

    /// The order of two sequences of terms of the same length: that of the
    /// first pair that is not equal.
    pub fn compare_all(&self, atoms: &AtomTable, xs: &Vec<Term>, ys: &Vec<Term>) -> (r: Order)
        requires
            self.wf(),
            self.contains_all(xs@),
            self.contains_all(ys@),
            xs@.len() == ys@.len(),
            names_extend(atoms@, self.names@),
        ensures
            r == values_order(self.values_of(xs@), self.values_of(ys@), 0),
        decreases
                greater(
                    depth_all(self.values_of(xs@), xs@.len() as int),
                    depth_all(self.values_of(ys@), ys@.len() as int),
                ),
                1nat,
    {
        let ghost vx = self.values_of(xs@);
        let ghost vy = self.values_of(ys@);
        let mut i: usize = 0;
        while i < xs.len()
            invariant
                0 <= i <= xs@.len(),
                xs@.len() == ys@.len(),
                self.wf(),
                self.contains_all(xs@),
                self.contains_all(ys@),
                names_extend(atoms@, self.names@),
                vx == self.values_of(xs@),
                vy == self.values_of(ys@),
                forall|k: int| 0 <= k < i ==> value_order(vx[k], vy[k]) == Order::Equal,
            decreases xs@.len() - i,
        {
            proof {
                assert(self.contains(xs@[i as int]));
                assert(self.contains(ys@[i as int]));
                assert(vx[i as int] == self.value(xs@[i as int]));
                assert(vy[i as int] == self.value(ys@[i as int]));
                lemma_depth_all_covers(vx, xs@.len() as int, i as int);
                lemma_depth_all_covers(vy, ys@.len() as int, i as int);
            }
            let o = self.compare(atoms, xs[i], ys[i]);
            if o != Order::Equal {
                proof {
                    lemma_values_order_skip(vx, vy, 0, i as int);
                }
                return o;
            }
            i += 1;
        }
        proof {
            lemma_values_order_skip(vx, vy, 0, i as int);
        }
        Order::Equal
    }
}

impl Heap {
    /// The value of every term of a heap is well formed.
    pub proof fn lemma_well_formed(&self, t: Term)
        requires
            self.wf(),
            self.contains(t),
        ensures
            crate::order::well_formed(self.value(t)),
        decreases self.value(t), 0nat,
    {
        match t {
            Term::List(p) => {
                assert(cell_ok(self.objects@, self.values@, self.names@, p as int));
                match self.objects@[p as int] {
                    Object::Cons(head, tail) => {
                        self.lemma_well_formed(head);
                        self.lemma_well_formed(tail);
                    },
                    _ => {},
                }
            },
            Term::Boxed(p) => {
                assert(cell_ok(self.objects@, self.values@, self.names@, p as int));
                match self.objects@[p as int] {
                    Object::Closure(closure) => {
                        assert(decreases_to!(self.value(t) => self.value(t)->Function_3));
                        self.lemma_all_well_formed(closure.environment@);
                    },
                    Object::Tuple(elements) => {
                        assert(self.value(t) == Value::Tuple(self.values_of(elements@)));
                        assert(decreases_to!(self.value(t) => self.value(t)->Tuple_0));
                        self.lemma_all_well_formed(elements@);
                    },
                    Object::Mapping(m) => {
                        assert(self.value(t) == Value::Mapping(
                            self.values_of(m.keys@),
                            self.values_of(m.values@),
                        ));
                        assert(decreases_to!(self.value(t) => self.value(t)->Mapping_0));
                        assert(decreases_to!(self.value(t) => self.value(t)->Mapping_1));
                        self.lemma_all_well_formed(m.keys@);
                        self.lemma_all_well_formed(m.values@);
                    },
                    _ => {},
                }
            },
            _ => {},
        }
    }

    /// The values of terms of a heap are well formed.
    pub proof fn lemma_all_well_formed(&self, ts: Seq<Term>)
        requires
            self.wf(),
            self.contains_all(ts),
        ensures
            crate::order::all_well_formed(self.values_of(ts)),
        decreases self.values_of(ts), 1nat,
    {
        let vs = self.values_of(ts);
        assert forall|i: int| 0 <= i < vs.len() implies crate::order::well_formed(
            #[trigger] vs[i],
        ) by {
            assert(self.contains(ts[i]));
            assert(vs[i] == self.value(ts[i]));
            self.lemma_well_formed(ts[i]);
        }
    }
}

} // verus!
