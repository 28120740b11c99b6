//! The order of terms is a strict total order: the laws, proved.

use vstd::prelude::*;
use crate::value::{bytes_order, int_order, kind_rank, value_order, values_order, Order, Value};

verus! {

/// True of a value in which every map, at any depth, has as many values as
/// keys.
pub open spec fn well_formed(v: Value) -> bool
    decreases v,
{
    match v {
        Value::Tuple(xs) => forall|i: int| 0 <= i < xs.len() ==> well_formed(#[trigger] xs[i]),
        Value::Function(_, _, _, xs) => forall|i: int|
            0 <= i < xs.len() ==> well_formed(#[trigger] xs[i]),
        Value::Mapping(ks, vs) => {
            &&& ks.len() == vs.len()
            &&& forall|i: int| 0 <= i < ks.len() ==> well_formed(#[trigger] ks[i])
            &&& forall|i: int| 0 <= i < vs.len() ==> well_formed(#[trigger] vs[i])
        },
        Value::Cons(head, tail) => well_formed(*head) && well_formed(*tail),
        _ => true,
    }
}

/// True if each of the values is well formed.
pub open spec fn all_well_formed(vs: Seq<Value>) -> bool {
    forall|i: int| 0 <= i < vs.len() ==> well_formed(#[trigger] vs[i])
}

/// A byte string is equal to itself.
pub proof fn lemma_bytes_reflexive(a: Seq<u8>, from: int)
    requires
        0 <= from,
    ensures
        bytes_order(a, a, from) == Order::Equal,
    decreases a.len() - from,
{
    if from < a.len() {
        lemma_bytes_reflexive(a, from + 1);
    }
}

/// Swapping two byte strings reverses their order.
pub proof fn lemma_bytes_reverse(a: Seq<u8>, b: Seq<u8>, from: int)
    requires
        0 <= from,
    ensures
        bytes_order(b, a, from) == bytes_order(a, b, from).reversed(),
    decreases a.len() - from,
{
    if from < a.len() && from < b.len() && a[from] == b[from] {
        lemma_bytes_reverse(a, b, from + 1);
    }
}

/// Byte strings that compare equal from `from` on have the same length and
/// the same bytes from `from` on.
pub proof fn lemma_bytes_equal(a: Seq<u8>, b: Seq<u8>, from: int)
    requires
        0 <= from,
        bytes_order(a, b, from) == Order::Equal,
    ensures
        a.len() == b.len(),
        forall|k: int| from <= k < a.len() ==> a[k] == b[k],
    decreases a.len() - from,
{
    if from < a.len() && from < b.len() {
        lemma_bytes_equal(a, b, from + 1);
    }
}

/// The order of byte strings is transitive.
pub proof fn lemma_bytes_transitive(a: Seq<u8>, b: Seq<u8>, c: Seq<u8>, from: int)
    requires
        0 <= from,
        bytes_order(a, b, from) == Order::Less,
        bytes_order(b, c, from) == Order::Less,
    ensures
        bytes_order(a, c, from) == Order::Less,
    decreases a.len() - from,
{
    if from < a.len() && from < b.len() && from < c.len() && a[from] == b[from] && b[from]
        == c[from] {
        lemma_bytes_transitive(a, b, c, from + 1);
    }
}

/// Every value is equal to itself.
pub proof fn lemma_reflexive(a: Value)
    ensures
        value_order(a, a) == Order::Equal,
    decreases a, 0nat,
{
    match a {
        Value::Atom(x) => {
            lemma_bytes_reflexive(x, 0);
        },
        Value::Tuple(xs) => {
            lemma_all_reflexive(xs, 0);
        },
        Value::Function(module, _, _, xs) => {
            lemma_bytes_reflexive(module, 0);
            lemma_all_reflexive(xs, 0);
        },
        Value::Mapping(ks, vs) => {
            lemma_all_reflexive(ks, 0);
            lemma_all_reflexive(vs, 0);
        },
        Value::Cons(head, tail) => {
            lemma_reflexive(*head);
            lemma_reflexive(*tail);
        },
        Value::Bitstring(bytes, _, _) => {
            lemma_bytes_reflexive(bytes, 0);
        },
        _ => {},
    }
}

/// Every sequence of values is equal to itself.
pub proof fn lemma_all_reflexive(a: Seq<Value>, from: int)
    requires
        0 <= from,
    ensures
        values_order(a, a, from) == Order::Equal,
    decreases a, a.len() - from,
{
    if from < a.len() {
        lemma_reflexive(a[from]);
        lemma_all_reflexive(a, from + 1);
    }
}

/// Swapping two values reverses their order.
pub proof fn lemma_reverse(a: Value, b: Value)
    ensures
        value_order(b, a) == value_order(a, b).reversed(),
    decreases a, 0nat,
{
    if kind_rank(a) == kind_rank(b) {
        match (a, b) {
            (Value::Atom(x), Value::Atom(y)) => {
                lemma_bytes_reverse(x, y, 0);
            },
            (Value::Tuple(xs), Value::Tuple(ys)) => {
                lemma_all_reverse(xs, ys, 0);
            },
            (Value::Function(xm, _, _, xs), Value::Function(ym, _, _, ys)) => {
                lemma_bytes_reverse(xm, ym, 0);
                lemma_all_reverse(xs, ys, 0);
            },
            (Value::Mapping(xk, xv), Value::Mapping(yk, yv)) => {
                lemma_all_reverse(xk, yk, 0);
                lemma_all_reverse(xv, yv, 0);
            },
            (Value::Cons(xh, xt), Value::Cons(yh, yt)) => {
                lemma_reverse(*xh, *yh);
                lemma_reverse(*xt, *yt);
            },
            (Value::Bitstring(xb, _, _), Value::Bitstring(yb, _, _)) => {
                lemma_bytes_reverse(xb, yb, 0);
            },
            _ => {},
        }
    }
}

/// Swapping two sequences of values reverses their order.
pub proof fn lemma_all_reverse(a: Seq<Value>, b: Seq<Value>, from: int)
    requires
        0 <= from,
    ensures
        values_order(b, a, from) == values_order(a, b, from).reversed(),
    decreases a, a.len() - from,
{
    if from < a.len() && from < b.len() {
        lemma_reverse(a[from], b[from]);
        lemma_all_reverse(a, b, from + 1);
    }
}

/// Two values that compare equal are the same value.
pub proof fn lemma_equal(a: Value, b: Value)
    requires
        well_formed(a),
        well_formed(b),
        value_order(a, b) == Order::Equal,
    ensures
        a == b,
    decreases a, 0nat,
{
    match (a, b) {
        (Value::Atom(x), Value::Atom(y)) => {
            lemma_bytes_equal(x, y, 0);
            assert(x =~= y);
        },
        (Value::Tuple(xs), Value::Tuple(ys)) => {
            lemma_all_equal(xs, ys, 0);
            assert(xs =~= ys);
        },
        (Value::Function(xm, _, _, xs), Value::Function(ym, _, _, ys)) => {
            lemma_bytes_equal(xm, ym, 0);
            assert(xm =~= ym);
            lemma_all_equal(xs, ys, 0);
            assert(xs =~= ys);
        },
        (Value::Mapping(xk, xv), Value::Mapping(yk, yv)) => {
            lemma_all_equal(xk, yk, 0);
            lemma_all_equal(xv, yv, 0);
            assert(xk =~= yk);
            assert(xv =~= yv);
        },
        (Value::Cons(xh, xt), Value::Cons(yh, yt)) => {
            lemma_equal(*xh, *yh);
            lemma_equal(*xt, *yt);
        },
        (Value::Bitstring(xb, _, _), Value::Bitstring(yb, _, _)) => {
            lemma_bytes_equal(xb, yb, 0);
            assert(xb =~= yb);
        },
        _ => {},
    }
}

/// Sequences of values that compare equal hold the same values.
pub proof fn lemma_all_equal(a: Seq<Value>, b: Seq<Value>, from: int)
    requires
        0 <= from,
        a.len() == b.len(),
        all_well_formed(a),
        all_well_formed(b),
        values_order(a, b, from) == Order::Equal,
    ensures
        forall|k: int| from <= k < a.len() ==> a[k] == b[k],
    decreases a, a.len() - from,
{
    if from < a.len() {
        lemma_equal(a[from], b[from]);
        lemma_all_equal(a, b, from + 1);
    }
}

/// Less than is transitive.
pub proof fn lemma_transitive(a: Value, b: Value, c: Value)
    requires
        well_formed(a),
        well_formed(b),
        well_formed(c),
        value_order(a, b) == Order::Less,
        value_order(b, c) == Order::Less,
    ensures
        value_order(a, c) == Order::Less,
    decreases a, 0nat,
{
    if kind_rank(a) == kind_rank(b) && kind_rank(b) == kind_rank(c) {
        match (a, b, c) {
            (Value::Atom(x), Value::Atom(y), Value::Atom(z)) => {
                lemma_bytes_transitive(x, y, z, 0);
            },
            (Value::Tuple(xs), Value::Tuple(ys), Value::Tuple(zs)) => {
                if xs.len() == ys.len() && ys.len() == zs.len() {
                    lemma_all_transitive(xs, ys, zs, 0);
                }
            },
            (
                Value::Function(xm, xi, xa, xs),
                Value::Function(ym, yi, ya, ys),
                Value::Function(zm, zi, za, zs),
            ) => {
                let ab = bytes_order(xm, ym, 0);
                let bc = bytes_order(ym, zm, 0);
                if ab == Order::Equal {
                    lemma_bytes_equal(xm, ym, 0);
                    assert(xm =~= ym);
                }
                if bc == Order::Equal {
                    lemma_bytes_equal(ym, zm, 0);
                    assert(ym =~= zm);
                }
                if ab != Order::Equal && bc != Order::Equal {
                    lemma_bytes_transitive(xm, ym, zm, 0);
                }
                if ab == Order::Equal && bc == Order::Equal && xi == yi && yi == zi && xa == ya
                    && ya == za && xs.len() == ys.len() && ys.len() == zs.len() {
                    lemma_all_transitive(xs, ys, zs, 0);
                }
            },
            (Value::Mapping(xk, xv), Value::Mapping(yk, yv), Value::Mapping(zk, zv)) => {
                if xk.len() == yk.len() && yk.len() == zk.len() {
                    let ab = values_order(xk, yk, 0);
                    let bc = values_order(yk, zk, 0);
                    if ab == Order::Equal {
                        lemma_all_equal(xk, yk, 0);
                        assert(xk =~= yk);
                        if bc == Order::Equal {
                            lemma_all_equal(yk, zk, 0);
                            assert(yk =~= zk);
                            lemma_all_transitive(xv, yv, zv, 0);
                        }
                    } else if bc == Order::Equal {
                        lemma_all_equal(yk, zk, 0);
                        assert(yk =~= zk);
                    } else {
                        lemma_all_transitive(xk, yk, zk, 0);
                    }
                }
            },
            (Value::Cons(xh, xt), Value::Cons(yh, yt), Value::Cons(zh, zt)) => {
                let ab = value_order(*xh, *yh);
                let bc = value_order(*yh, *zh);
                if ab == Order::Equal {
                    lemma_equal(*xh, *yh);
                    if bc == Order::Equal {
                        lemma_equal(*yh, *zh);
                        lemma_transitive(*xt, *yt, *zt);
                    }
                } else if bc == Order::Equal {
                    lemma_equal(*yh, *zh);
                } else {
                    lemma_transitive(*xh, *yh, *zh);
                }
            },
            (Value::Bitstring(xb, xn, xp), Value::Bitstring(yb, yn, yp), Value::Bitstring(zb, zn, zp)) => {
                let ab = bytes_order(xb, yb, 0);
                let bc = bytes_order(yb, zb, 0);
                if ab == Order::Equal {
                    lemma_bytes_equal(xb, yb, 0);
                    assert(xb =~= yb);
                    if bc == Order::Equal {
                        lemma_bytes_equal(yb, zb, 0);
                        assert(yb =~= zb);
                    }
                } else if bc == Order::Equal {
                    lemma_bytes_equal(yb, zb, 0);
                    assert(yb =~= zb);
                } else {
                    lemma_bytes_transitive(xb, yb, zb, 0);
                }
            },
            _ => {},
        }
    }
}

/// Less than is transitive on sequences of values of one length.
pub proof fn lemma_all_transitive(a: Seq<Value>, b: Seq<Value>, c: Seq<Value>, from: int)
    requires
        0 <= from,
        a.len() == b.len(),
        b.len() == c.len(),
        all_well_formed(a),
        all_well_formed(b),
        all_well_formed(c),
        values_order(a, b, from) == Order::Less,
        values_order(b, c, from) == Order::Less,
    ensures
        values_order(a, c, from) == Order::Less,
    decreases a, a.len() - from,
{
    if from < a.len() {
        let ab = value_order(a[from], b[from]);
        let bc = value_order(b[from], c[from]);
        if ab == Order::Equal {
            lemma_equal(a[from], b[from]);
            if bc == Order::Equal {
                lemma_equal(b[from], c[from]);
                lemma_all_transitive(a, b, c, from + 1);
            }
        } else if bc == Order::Equal {
            lemma_equal(b[from], c[from]);
        } else {
            lemma_transitive(a[from], b[from], c[from]);
        }
    }
}

} // verus!
