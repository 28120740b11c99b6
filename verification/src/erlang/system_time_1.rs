//! `system_time/1`: the time of the system in a unit.

use vstd::prelude::*;
use crate::atom::{names_extend, AtomTable};
use crate::copy::integer_words;
use crate::erlang::convert_time_unit_3::{convert, converted, parts_per_second, unit_parts};
use crate::integer::digits_from_u128;
use crate::exception::Exception;
use crate::heap::Heap;
use crate::term::Term;
use crate::value::Value;

verus! {

/// The time `nanoseconds`, which whoever calls has read from the clock of
/// the system as nanoseconds since the epoch, in the unit `unit`, rounded
/// down.
pub fn result(heap: &mut Heap, atoms: &AtomTable, unit: Term, nanoseconds: i64) -> (r: Result<
    Term,
    Exception,
>)
    requires
        old(heap).wf(),
        old(heap).contains(unit),
        names_extend(atoms@, old(heap).names@),
    ensures
        final(heap).wf(),
        final(heap).extends(old(heap)),
        parts_per_second(old(heap).value(unit)) is None ==> r == Err::<Term, Exception>(
            Exception::Badarg,
        ),
        parts_per_second(old(heap).value(unit)) is Some ==> {
            let output = converted(
                nanoseconds as int,
                1000000000,
                parts_per_second(old(heap).value(unit))->Some_0,
            );
            &&& r is Ok <==> integer_words(output) <= old(heap).spare()
            &&& r is Ok ==> final(heap).contains(r->Ok_0) && final(heap).value(r->Ok_0)
                == Value::Integer(output) && final(heap).used == old(heap).used + integer_words(
                output,
            )
            &&& r is Err ==> r->Err_0 == Exception::Alloc
        },
        r is Err ==> *final(heap) == *old(heap),
{
    let to = match unit_parts(heap, atoms, unit) {
        Some(parts) => parts,
        None => {
            return Err(Exception::Badarg);
        },
    };
    let negative: bool = nanoseconds < 0;
    let magnitude: u128 = if negative {
        ((-(nanoseconds + 1)) as u128) + 1
    } else {
        nanoseconds as u128
    };
    let digits = digits_from_u128(magnitude);
    let second = digits_from_u128(1000000000);
    let output = convert(negative, digits.as_slice(), second.as_slice(), to.as_slice());
    match heap.integer_from_digits(output.0, output.1) {
        Ok(term) => Ok(term),
        Err(_) => Err(Exception::Alloc),
    }
}

} // verus!
