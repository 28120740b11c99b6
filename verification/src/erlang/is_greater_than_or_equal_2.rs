//! `>=/2` infix operator.

use vstd::prelude::*;
use crate::atom::{names_extend, AtomTable};
use crate::heap::Heap;
use crate::term::Term;
use crate::value::{value_order, Order};

verus! {

/// True if `left` is not less than `right` in the order of terms.
pub fn is_greater_than_or_equal(heap: &Heap, atoms: &AtomTable, left: Term, right: Term) -> (r:
    bool)
    requires
        heap.wf(),
        heap.contains(left),
        heap.contains(right),
        names_extend(atoms@, heap.names@),
    ensures
        r == (value_order(heap.value(left), heap.value(right)) != Order::Less),
{
    match heap.compare(atoms, left, right) {
        Order::Less => false,
        _ => true,
    }
}

/// The atom `true` if `left` is not less than `right` in the order of terms,
/// else the atom `false`.
pub fn result(heap: &Heap, atoms: &AtomTable, left: Term, right: Term) -> (r: Term)
    requires
        heap.wf(),
        heap.contains(left),
        heap.contains(right),
        names_extend(atoms@, heap.names@),
    ensures
        r == (if value_order(heap.value(left), heap.value(right)) != Order::Less {
            Term::Atom(crate::term::ATOM_TRUE)
        } else {
            Term::Atom(crate::term::ATOM_FALSE)
        }),
{
    Term::from_bool(is_greater_than_or_equal(heap, atoms, left, right))
}

} // verus!
