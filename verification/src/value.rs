//! What a term means, apart from where it is stored, and the total order in
//! which terms are sorted.

use vstd::prelude::*;

verus! {

/// The mathematical value of a term. Two terms are equal exactly when
/// their values are, wherever their cells lie.
pub enum Value {
    Integer(int),
    /// An atom, by its name.
    Atom(Seq<u8>),
    Reference(nat),
    Pid(nat),
    /// A function with what it closed over: the name of its module, its
    /// index in the module, the number of its arguments, and the terms of
    /// its environment.
    Function(Seq<u8>, nat, nat, Seq<Value>),
    Tuple(Seq<Value>),
    /// A map: its keys in ascending order, and the value under each key.
    Mapping(Seq<Value>, Seq<Value>),
    Nil,
    Cons(Box<Value>, Box<Value>),
    /// A bitstring: its whole bytes, then the count of trailing bits (0 to
    /// 7) and the byte that holds them in its high-order end.
    Bitstring(Seq<u8>, nat, u8),
}

/// The outcome of a comparison.
#[derive(Clone, Copy, PartialEq, Eq, Structural, Debug)]
pub enum Order {
    Less,
    Equal,
    Greater,
}

impl Order {
    /// The outcome of the comparison the other way round.
    pub open spec fn reversed(self) -> Order {
        match self {
            Order::Less => Order::Greater,
            Order::Equal => Order::Equal,
            Order::Greater => Order::Less,
        }
    }

    /// The other way round.
    pub fn reverse(self) -> (r: Order)
        ensures
            r == self.reversed(),
    {
        match self {
            Order::Less => Order::Greater,
            Order::Equal => Order::Equal,
            Order::Greater => Order::Less,
        }
    }
}

/// The order of two integers.
pub open spec fn int_order(a: int, b: int) -> Order {
    if a < b {
        Order::Less
    } else if a == b {
        Order::Equal
    } else {
        Order::Greater
    }
}

/// Lexicographic order of byte strings from index `from` on; a proper prefix
/// is less than what it is a prefix of.
pub open spec fn bytes_order(a: Seq<u8>, b: Seq<u8>, from: int) -> Order
    decreases a.len() - from,
{
    if from < 0 {
        Order::Equal
    } else if from >= a.len() || from >= b.len() {
        int_order(a.len() as int, b.len() as int)
    } else if a[from] != b[from] {
        int_order(a[from] as int, b[from] as int)
    } else {
        bytes_order(a, b, from + 1)
    }
}

/// The rank of a value's kind: numbers come before atoms, atoms before
/// references, then functions, process identifiers, tuples, maps, the empty
/// list, non-empty lists and bitstrings.
pub open spec fn kind_rank(v: Value) -> int {
    match v {
        Value::Integer(_) => 0,
        Value::Atom(_) => 1,
        Value::Reference(_) => 2,
        Value::Function(_, _, _, _) => 3,
        Value::Pid(_) => 4,
        Value::Tuple(_) => 5,
        Value::Mapping(_, _) => 6,
        Value::Nil => 7,
        Value::Cons(_, _) => 8,
        Value::Bitstring(_, _, _) => 9,
    }
}

/// The order of terms. Values of different kinds are ordered by kind.
/// Integers are ordered by value, atoms by name, references and process
/// identifiers by number. Functions are ordered by the name of their module,
/// then by index, then by the number of their arguments, then by the size of
/// their environment, then by its terms one by one. Tuples are ordered by size, then element by
/// element. Maps are ordered by size, then by their keys in ascending order,
/// then by the values under those keys. Lists are ordered element by element.
/// Bitstrings are ordered by their whole bytes, then by the count of trailing
/// bits, then by those bits.
pub open spec fn value_order(a: Value, b: Value) -> Order
    decreases a, 0nat,
{
    if kind_rank(a) != kind_rank(b) {
        int_order(kind_rank(a), kind_rank(b))
    } else {
        match (a, b) {
            (Value::Integer(x), Value::Integer(y)) => int_order(x, y),
            (Value::Atom(x), Value::Atom(y)) => bytes_order(x, y, 0),
            (Value::Reference(x), Value::Reference(y)) => int_order(x as int, y as int),
            (Value::Pid(x), Value::Pid(y)) => int_order(x as int, y as int),
            (Value::Function(xm, xi, xa, xe), Value::Function(ym, yi, ya, ye)) => if bytes_order(
                xm,
                ym,
                0,
            ) != Order::Equal {
                bytes_order(xm, ym, 0)
            } else if xi != yi {
                int_order(xi as int, yi as int)
            } else if xa != ya {
                int_order(xa as int, ya as int)
            } else if xe.len() != ye.len() {
                int_order(xe.len() as int, ye.len() as int)
            } else {
                values_order(xe, ye, 0)
            },
            (Value::Tuple(x), Value::Tuple(y)) => if x.len() != y.len() {
                int_order(x.len() as int, y.len() as int)
            } else {
                values_order(x, y, 0)
            },
            (Value::Mapping(xk, xv), Value::Mapping(yk, yv)) => if xk.len() != yk.len() {
                int_order(xk.len() as int, yk.len() as int)
            } else if values_order(xk, yk, 0) != Order::Equal {
                values_order(xk, yk, 0)
            } else {
                values_order(xv, yv, 0)
            },
            (Value::Cons(xh, xt), Value::Cons(yh, yt)) => if value_order(*xh, *yh)
                != Order::Equal {
                value_order(*xh, *yh)
            } else {
                value_order(*xt, *yt)
            },
            (Value::Bitstring(xb, xn, xp), Value::Bitstring(yb, yn, yp)) => if bytes_order(
                xb,
                yb,
                0,
            ) != Order::Equal {
                bytes_order(xb, yb, 0)
            } else if xn != yn {
                int_order(xn as int, yn as int)
            } else {
                int_order(xp as int, yp as int)
            },
            _ => Order::Equal,
        }
    }
}

/// The order of two sequences of values from index `from` on: that of the
/// first pair that is not equal. Where one sequence ends before the other,
/// the comparison ends there.
pub open spec fn values_order(a: Seq<Value>, b: Seq<Value>, from: int) -> Order
    decreases a, a.len() - from,
{
    if from < 0 || from >= a.len() || from >= b.len() {
        Order::Equal
    } else if value_order(a[from], b[from]) != Order::Equal {
        value_order(a[from], b[from])
    } else {
        values_order(a, b, from + 1)
    }
}

/// The greater of two numbers.
pub open spec fn greater(a: nat, b: nat) -> nat {
    if a >= b {
        a
    } else {
        b
    }
}

/// How deep a value nests: 0 for a value that holds no other.
pub open spec fn depth(v: Value) -> nat
    decreases v, 0nat,
{
    match v {
        Value::Tuple(xs) => 1 + depth_all(xs, xs.len() as int),
        Value::Function(_, _, _, xs) => 1 + depth_all(xs, xs.len() as int),
        Value::Mapping(ks, vs) => 1 + greater(
            depth_all(ks, ks.len() as int),
            depth_all(vs, vs.len() as int),
        ),
        Value::Cons(head, tail) => 1 + greater(depth(*head), depth(*tail)),
        _ => 0,
    }
}

/// The depth of the deepest of the first `upto` values.
pub open spec fn depth_all(vs: Seq<Value>, upto: int) -> nat
    decreases vs, upto,
{
    if upto <= 0 || upto > vs.len() {
        0
    } else {
        greater(depth_all(vs, upto - 1), depth(vs[upto - 1]))
    }
}

/// No value is deeper than the deepest.
pub proof fn lemma_depth_all_covers(vs: Seq<Value>, upto: int, i: int)
    requires
        0 <= i < upto <= vs.len(),
    ensures
        depth(vs[i]) <= depth_all(vs, upto),
    decreases upto,
{
    if i < upto - 1 {
        lemma_depth_all_covers(vs, upto - 1, i);
    }
}

/// The deepest is no deeper than a bound on them all.
pub proof fn lemma_depth_all_bounded(vs: Seq<Value>, upto: int, bound: nat)
    requires
        0 <= upto <= vs.len(),
        forall|i: int| 0 <= i < upto ==> depth(#[trigger] vs[i]) <= bound,
    ensures
        depth_all(vs, upto) <= bound,
    decreases upto,
{
    if upto > 0 {
        lemma_depth_all_bounded(vs, upto - 1, bound);
    }
}

} // verus!
