//! `/=/2` infix operator.

use vstd::prelude::*;
use crate::atom::{names_extend, AtomTable};
use crate::heap::Heap;
use crate::order::{lemma_equal, lemma_reflexive};
use crate::term::{Term, ATOM_FALSE, ATOM_TRUE};
use crate::value::Order;

verus! {

/// The atom `true` if the two terms differ in value, else the atom `false`.
pub fn result(heap: &Heap, atoms: &AtomTable, left: Term, right: Term) -> (r: Term)
    requires
        heap.wf(),
        heap.contains(left),
        heap.contains(right),
        names_extend(atoms@, heap.names@),
    ensures
        r == (if heap.value(left) != heap.value(right) {
            Term::Atom(ATOM_TRUE)
        } else {
            Term::Atom(ATOM_FALSE)
        }),
{
    proof {
        heap.lemma_well_formed(left);
        heap.lemma_well_formed(right);
        lemma_reflexive(heap.value(left));
        if crate::value::value_order(heap.value(left), heap.value(right)) == Order::Equal {
            lemma_equal(heap.value(left), heap.value(right));
        }
    }
    match heap.compare(atoms, left, right) {
        Order::Equal => Term::from_bool(false),
        _ => Term::from_bool(true),
    }
}

} // verus!
