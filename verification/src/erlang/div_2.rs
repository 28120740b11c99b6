//! `div/2` infix operator: integer division.

use vstd::prelude::*;
use crate::bigint::{big_div, truncated_quotient};
use crate::copy::integer_words;
use crate::exception::Exception;
use crate::heap::Heap;
use crate::integer::integer_of;
use crate::term::Term;
use crate::value::Value;

verus! {

/// The quotient of two integers, rounded toward zero. Dividing by zero is
/// an arithmetic error.
pub fn result(heap: &mut Heap, dividend: Term, divisor: Term) -> (r: Result<Term, Exception>)
    requires
        old(heap).wf(),
        old(heap).contains(dividend),
        old(heap).contains(divisor),
    ensures
        final(heap).wf(),
        final(heap).extends(old(heap)),
        !(old(heap).value(dividend) is Integer && old(heap).value(divisor) is Integer
            && integer_of(old(heap).value(divisor)) != 0) ==> r == Err::<Term, Exception>(
            Exception::Badarith,
        ),
        old(heap).value(dividend) is Integer && old(heap).value(divisor) is Integer && integer_of(
            old(heap).value(divisor),
        ) != 0 ==> {
            let quotient = truncated_quotient(
                integer_of(old(heap).value(dividend)),
                integer_of(old(heap).value(divisor)),
            );
            &&& r is Ok <==> integer_words(quotient) <= old(heap).spare()
            &&& r is Ok ==> final(heap).contains(r->Ok_0) && final(heap).value(r->Ok_0)
                == Value::Integer(quotient) && final(heap).used == old(heap).used + integer_words(
                quotient,
            )
            &&& r is Err ==> r->Err_0 == Exception::Alloc
        },
        r is Err ==> *final(heap) == *old(heap),
{
    match (heap.integer_digits(dividend), heap.integer_digits(divisor)) {
        (Some((a_negative, a)), Some((b_negative, b))) => {
            let short = crate::integer::trim(b);
            if short.len() == 0 {
                return Err(Exception::Badarith);
            }
            proof {
                crate::copy::lemma_magnitude_positive(short@);
            }
            let (negative, digits) = big_div(a_negative, a.as_slice(), b_negative, short.as_slice());
            match heap.integer_from_digits(negative, digits) {
                Ok(term) => Ok(term),
                Err(_) => Err(Exception::Alloc),
            }
        },
        _ => Err(Exception::Badarith),
    }
}

} // verus!
