//! `registered/0`: the names that processes are registered under.

use vstd::prelude::*;
use crate::construct::list_value;
use crate::exception::Exception;
use crate::heap::Heap;
use crate::scheduler::Scheduler;
use crate::term::Term;
use crate::value::Value;

verus! {

/// The atoms of the names, in the order in which they were registered.
pub open spec fn names(registered: Seq<(usize, usize)>, table: Seq<Seq<u8>>) -> Seq<Value> {
    Seq::new(registered.len(), |i: int| Value::Atom(table[registered[i].0 as int]))
}

/// The list of the names that processes are registered under, in the order
/// in which they were registered.
pub fn result(scheduler: &Scheduler, heap: &mut Heap) -> (r: Result<Term, Exception>)
    requires
        scheduler.wf(),
        old(heap).wf(),
        old(heap).names@ == scheduler.atoms@,
    ensures
        final(heap).wf(),
        final(heap).extends(old(heap)),
        r is Ok <==> 2 * scheduler.registered@.len() <= old(heap).spare(),
        r is Ok ==> final(heap).contains(r->Ok_0) && final(heap).value(r->Ok_0) == list_value(
            names(scheduler.registered@, scheduler.atoms@),
            Value::Nil,
        ),
        r is Ok ==> final(heap).used == old(heap).used + 2 * scheduler.registered@.len(),
        r is Err ==> r->Err_0 == Exception::Alloc && *final(heap) == *old(heap),
{
    let mut atoms: Vec<Term> = Vec::new();
    let mut i: usize = 0;
    while i < scheduler.registered.len()
        invariant
            0 <= i <= scheduler.registered@.len(),
            atoms@.len() == i,
            forall|k: int|
                0 <= k < i ==> #[trigger] atoms@[k] == Term::Atom(scheduler.registered@[k].0),
        decreases scheduler.registered@.len() - i,
    {
        atoms.push(Term::Atom(scheduler.registered[i].0));
        i += 1;
    }
    proof {
        assert forall|k: int| 0 <= k < atoms@.len() implies heap.contains(#[trigger] atoms@[k]) by {
            assert(scheduler.registered@[k].0 < scheduler.atoms@.len());
        }
        assert(heap.values_of(atoms@) =~= names(scheduler.registered@, scheduler.atoms@));
    }
    match heap.list_from_slice(atoms.as_slice()) {
        Ok(list) => Ok(list),
        Err(_) => Err(Exception::Alloc),
    }
}

} // verus!
