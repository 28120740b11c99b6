//! `-/2` infix operator.

use vstd::prelude::*;
use crate::bigint::big_sub;
use crate::copy::integer_words;
use crate::exception::Exception;
use crate::heap::Heap;
use crate::integer::integer_of;
use crate::term::Term;
use crate::value::Value;

verus! {

/// The difference of two integers.
pub fn result(heap: &mut Heap, minuend: Term, subtrahend: Term) -> (r: Result<Term, Exception>)
    requires
        old(heap).wf(),
        old(heap).contains(minuend),
        old(heap).contains(subtrahend),
    ensures
        final(heap).wf(),
        final(heap).extends(old(heap)),
        !(old(heap).value(minuend) is Integer && old(heap).value(subtrahend) is Integer) ==> r
            == Err::<Term, Exception>(Exception::Badarith),
        old(heap).value(minuend) is Integer && old(heap).value(subtrahend) is Integer ==> {
            let difference = integer_of(old(heap).value(minuend)) - integer_of(
                old(heap).value(subtrahend),
            );
            &&& r is Ok <==> integer_words(difference) <= old(heap).spare()
            &&& r is Ok ==> final(heap).contains(r->Ok_0) && final(heap).value(r->Ok_0)
                == Value::Integer(difference) && final(heap).used == old(heap).used + integer_words(
                difference,
            )
            &&& r is Err ==> r->Err_0 == Exception::Alloc
        },
        r is Err ==> *final(heap) == *old(heap),
{
    match (minuend, subtrahend) {
        (Term::SmallInteger(a), Term::SmallInteger(b)) => {
            match heap.integer(a as i128 - b as i128) {
                Ok(term) => Ok(term),
                Err(_) => Err(Exception::Alloc),
            }
        },
        _ => {
            match (heap.integer_digits(minuend), heap.integer_digits(subtrahend)) {
                (Some((a_negative, a)), Some((b_negative, b))) => {
                    let (negative, digits) = big_sub(
                        a_negative,
                        a.as_slice(),
                        b_negative,
                        b.as_slice(),
                    );
                    match heap.integer_from_digits(negative, digits) {
                        Ok(term) => Ok(term),
                        Err(_) => Err(Exception::Alloc),
                    }
                },
                _ => Err(Exception::Badarith),
            }
        },
    }
}

} // verus!
