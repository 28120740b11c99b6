//! `bnot/1` prefix operator.

use vstd::prelude::*;
use crate::bigint::big_not;
use crate::copy::integer_words;
use crate::exception::Exception;
use crate::heap::Heap;
use crate::integer::integer_of;
use crate::term::Term;
use crate::value::Value;

verus! {

/// The integer with every bit of the two's complement of `integer`
/// inverted: minus `integer`, minus one.
pub fn result(heap: &mut Heap, integer: Term) -> (r: Result<Term, Exception>)
    requires
        old(heap).wf(),
        old(heap).contains(integer),
    ensures
        final(heap).wf(),
        final(heap).extends(old(heap)),
        !(old(heap).value(integer) is Integer) ==> r == Err::<Term, Exception>(Exception::Badarith),
        old(heap).value(integer) is Integer ==> {
            let n = integer_of(old(heap).value(integer));
            &&& r is Ok <==> integer_words(-n - 1) <= old(heap).spare()
            &&& r is Ok ==> final(heap).contains(r->Ok_0) && final(heap).value(r->Ok_0)
                == Value::Integer(-n - 1) && final(heap).used == old(heap).used + integer_words(
                -n - 1,
            )
            &&& r is Err ==> r->Err_0 == Exception::Alloc
        },
        r is Err ==> *final(heap) == *old(heap),
{
    match integer {
        Term::SmallInteger(n) => {
            let output: i64 = !n;
            assert(output == -n - 1) by (bit_vector)
                requires
                    output == !n,
            ;
            match heap.integer(output as i128) {
                Ok(term) => Ok(term),
                Err(_) => Err(Exception::Alloc),
            }
        },
        _ => {
            match heap.integer_digits(integer) {
                Some((negative, digits)) => {
                    let (output_negative, output_digits) = big_not(negative, digits.as_slice());
                    match heap.integer_from_digits(output_negative, output_digits) {
                        Ok(term) => Ok(term),
                        Err(_) => Err(Exception::Alloc),
                    }
                },
                None => Err(Exception::Badarith),
            }
        },
    }
}

} // verus!
