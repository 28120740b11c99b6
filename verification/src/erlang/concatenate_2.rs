//! `++/2` infix operator: a list with a term in place of its end.

use vstd::prelude::*;
use crate::construct::{list_value, proper_list};
use crate::exception::Exception;
use crate::heap::Heap;
use crate::term::Term;

verus! {

/// The elements of `list`, which has to end in the empty list, followed
/// by `term` in place of that end.
pub fn result(heap: &mut Heap, list: Term, term: Term) -> (r: Result<Term, Exception>)
    requires
        old(heap).wf(),
        old(heap).contains(list),
        old(heap).contains(term),
    ensures
        final(heap).wf(),
        final(heap).extends(old(heap)),
        !(old(heap).value(list) is Nil || old(heap).value(list) is Cons) ==> r == Err::<
            Term,
            Exception,
        >(Exception::TypeError),
        old(heap).value(list) is Cons && proper_list(old(heap).value(list)) is None ==> r
            == Err::<Term, Exception>(Exception::ImproperList),
        proper_list(old(heap).value(list)) is Some ==> {
            let items = proper_list(old(heap).value(list))->Some_0;
            &&& r is Ok <==> 2 * items.len() <= old(heap).spare()
            &&& r is Ok ==> final(heap).contains(r->Ok_0) && final(heap).value(r->Ok_0)
                == list_value(items, old(heap).value(term))
            &&& r is Ok ==> final(heap).used == old(heap).used + 2 * items.len()
            &&& r is Err ==> r->Err_0 == Exception::Alloc
        },
        r is Err ==> *final(heap) == *old(heap),
{
    proof {
        heap.lemma_shape(list);
    }
    match list {
        Term::Nil => Ok(term),
        Term::List(_) => {
            match heap.list_to_vec(list) {
                Some(items) => {
                    match heap.improper_list_from_slice(items.as_slice(), term) {
                        Ok(joined) => Ok(joined),
                        Err(_) => Err(Exception::Alloc),
                    }
                },
                None => Err(Exception::ImproperList),
            }
        },
        _ => Err(Exception::TypeError),
    }
}

} // verus!
