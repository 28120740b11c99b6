//! `append_element/2`: a tuple with one more element at its end.

use vstd::prelude::*;
use crate::construct::terms_to_vec;
use crate::exception::Exception;
use crate::heap::Heap;
use crate::term::Term;
use crate::value::Value;

verus! {

/// The tuple of the elements of `tuple`, and then `element`.
pub fn result(heap: &mut Heap, tuple: Term, element: Term) -> (r: Result<Term, Exception>)
    requires
        old(heap).wf(),
        old(heap).contains(tuple),
        old(heap).contains(element),
    ensures
        final(heap).wf(),
        final(heap).extends(old(heap)),
        !(old(heap).value(tuple) is Tuple) ==> r == Err::<Term, Exception>(Exception::Badarg),
        old(heap).value(tuple) is Tuple ==> {
            let elements = old(heap).value(tuple)->Tuple_0;
            &&& r is Ok <==> 2 + elements.len() <= old(heap).spare()
            &&& r is Ok ==> final(heap).contains(r->Ok_0) && final(heap).value(r->Ok_0)
                == Value::Tuple(elements.push(old(heap).value(element)))
            &&& r is Ok ==> final(heap).used == old(heap).used + 2 + elements.len()
            &&& r is Err ==> r->Err_0 == Exception::Alloc
        },
        r is Err ==> *final(heap) == *old(heap),
{
    let mut elements: Vec<Term> = match heap.tuple_elements(tuple) {
        Some(elements) => terms_to_vec(elements.as_slice()),
        None => {
            return Err(Exception::Badarg);
        },
    };
    let ghost before = elements@;
    elements.push(element);
    proof {
        assert(heap.values_of(elements@) =~= heap.values_of(before).push(heap.value(element)));
        assert forall|i: int| 0 <= i < elements@.len() implies heap.contains(
            #[trigger] elements@[i],
        ) by {
            if i < before.len() {
                assert(heap.contains(before[i]));
            }
        }
    }
    match heap.tuple_from_slice(elements.as_slice()) {
        Ok(term) => Ok(term),
        Err(_) => Err(Exception::Alloc),
    }
}

} // verus!
