//! `convert_time_unit/3`: a time in another unit.

use vstd::prelude::*;
use crate::atom::{bytes_equal, names_extend, AtomTable};
use crate::copy::integer_words;
use crate::exception::Exception;
use crate::bigint::{big_div_floor, big_mul};
use crate::heap::{magnitude, signed_value, Heap};
use crate::integer::{digits_from_u128, integer_of, trim};
use crate::term::Term;
use crate::value::Value;

verus! {

/// The name `second`.
pub open spec fn second() -> Seq<u8> {
    seq![115u8, 101u8, 99u8, 111u8, 110u8, 100u8]
}

/// The name `millisecond`.
pub open spec fn millisecond() -> Seq<u8> {
    seq![109u8, 105u8, 108u8, 108u8, 105u8, 115u8, 101u8, 99u8, 111u8, 110u8, 100u8]
}

/// The name `microsecond`.
pub open spec fn microsecond() -> Seq<u8> {
    seq![109u8, 105u8, 99u8, 114u8, 111u8, 115u8, 101u8, 99u8, 111u8, 110u8, 100u8]
}

/// The name `nanosecond`.
pub open spec fn nanosecond() -> Seq<u8> {
    seq![110u8, 97u8, 110u8, 111u8, 115u8, 101u8, 99u8, 111u8, 110u8, 100u8]
}

/// The name `native`.
pub open spec fn native() -> Seq<u8> {
    seq![110u8, 97u8, 116u8, 105u8, 118u8, 101u8]
}

/// Parts of a second that a unit counts: a positive integer says it
/// itself, and an atom by its name. The native unit is the nanosecond.
pub open spec fn parts_per_second(v: Value) -> Option<int> {
    match v {
        Value::Integer(n) => if 0 < n {
            Some(n)
        } else {
            None
        },
        Value::Atom(name) => if name == second() {
            Some(1int)
        } else if name == millisecond() {
            Some(1000int)
        } else if name == microsecond() {
            Some(1000000int)
        } else if name == nanosecond() || name == native() {
            Some(1000000000int)
        } else {
            None
        },
        _ => None,
    }
}

/// The time in the unit `to` of a time in the unit `from`, rounded down.
pub open spec fn converted(time: int, from: int, to: int) -> int {
    (time * to) / from
}

/// The time `time`, given by its sign and its digits and counted in parts
/// of which a second has `from`, in parts of which a second has `to`,
/// rounded down: again a sign and digits. The parts are given by their
/// digits.
pub fn convert(negative: bool, digits: &[u32], from: &[u32], to: &[u32]) -> (r: (bool, Vec<u32>))
    requires
        magnitude(from@) > 0,
    ensures
        signed_value(r.0, r.1@) == converted(
            signed_value(negative, digits@),
            magnitude(from@) as int,
            magnitude(to@) as int,
        ),
{
    let product = big_mul(negative, digits, false, to);
    big_div_floor(product.0, product.1.as_slice(), from)
}

/// Parts of a second that the unit `unit` counts, in digits, if it is a
/// unit.
pub fn unit_parts(heap: &Heap, atoms: &AtomTable, unit: Term) -> (r: Option<Vec<u32>>)
    requires
        heap.wf(),
        heap.contains(unit),
        names_extend(atoms@, heap.names@),
    ensures
        r is Some <==> parts_per_second(heap.value(unit)) is Some,
        r is Some ==> magnitude(r->Some_0@) == parts_per_second(heap.value(unit))->Some_0,
{
    proof {
        heap.lemma_shape(unit);
    }
    match unit {
        Term::Atom(index) => {
            let name = atoms.name(index).as_slice();
            let s: [u8; 6] = [115u8, 101u8, 99u8, 111u8, 110u8, 100u8];
            let ms: [u8; 11] = [
                109u8,
                105u8,
                108u8,
                108u8,
                105u8,
                115u8,
                101u8,
                99u8,
                111u8,
                110u8,
                100u8,
            ];
            let us: [u8; 11] = [
                109u8,
                105u8,
                99u8,
                114u8,
                111u8,
                115u8,
                101u8,
                99u8,
                111u8,
                110u8,
                100u8,
            ];
            let ns: [u8; 10] = [110u8, 97u8, 110u8, 111u8, 115u8, 101u8, 99u8, 111u8, 110u8, 100u8];
            let own: [u8; 6] = [110u8, 97u8, 116u8, 105u8, 118u8, 101u8];
            proof {
                assert(s@ =~= second());
                assert(ms@ =~= millisecond());
                assert(us@ =~= microsecond());
                assert(ns@ =~= nanosecond());
                assert(own@ =~= native());
            }
            if bytes_equal(name, s.as_slice()) {
                Some(digits_from_u128(1))
            } else if bytes_equal(name, ms.as_slice()) {
                Some(digits_from_u128(1000))
            } else if bytes_equal(name, us.as_slice()) {
                Some(digits_from_u128(1000000))
            } else if bytes_equal(name, ns.as_slice()) || bytes_equal(name, own.as_slice()) {
                Some(digits_from_u128(1000000000))
            } else {
                None
            }
        },
        _ => {
            match heap.integer_digits(unit) {
                Some((negative, digits)) => {
                    let parts = trim(digits);
                    proof {
                        if parts@.len() > 0 {
                            crate::copy::lemma_magnitude_positive(parts@);
                        }
                    }
                    if !negative && parts.len() > 0 {
                        Some(parts)
                    } else {
                        None
                    }
                },
                None => None,
            }
        },
    }
}

/// True if the arguments are acceptable: the time is an integer, and both
/// units are units.
pub open spec fn accepted(heap: &Heap, time: Term, from_unit: Term, to_unit: Term) -> bool {
    &&& heap.value(time) is Integer
    &&& parts_per_second(heap.value(from_unit)) is Some
    &&& parts_per_second(heap.value(to_unit)) is Some
}

/// `time`, which is in the unit `from_unit`, in the unit `to_unit`, rounded
/// down.
pub fn result(heap: &mut Heap, atoms: &AtomTable, time: Term, from_unit: Term, to_unit: Term) -> (r:
    Result<Term, Exception>)
    requires
        old(heap).wf(),
        old(heap).contains(time),
        old(heap).contains(from_unit),
        old(heap).contains(to_unit),
        names_extend(atoms@, old(heap).names@),
    ensures
        final(heap).wf(),
        final(heap).extends(old(heap)),
        !accepted(old(heap), time, from_unit, to_unit) ==> r == Err::<Term, Exception>(
            Exception::Badarg,
        ),
        accepted(old(heap), time, from_unit, to_unit) ==> {
            let output = converted(
                integer_of(old(heap).value(time)),
                parts_per_second(old(heap).value(from_unit))->Some_0,
                parts_per_second(old(heap).value(to_unit))->Some_0,
            );
            &&& r is Ok <==> integer_words(output) <= old(heap).spare()
            &&& r is Ok ==> final(heap).contains(r->Ok_0) && final(heap).value(r->Ok_0)
                == Value::Integer(output) && final(heap).used == old(heap).used + integer_words(
                output,
            )
            &&& r is Err ==> r->Err_0 == Exception::Alloc
        },
        r is Err ==> *final(heap) == *old(heap),
{
    let (negative, digits) = match heap.integer_digits(time) {
        Some(parts) => parts,
        None => {
            return Err(Exception::Badarg);
        },
    };
    let from = match unit_parts(heap, atoms, from_unit) {
        Some(parts) => parts,
        None => {
            return Err(Exception::Badarg);
        },
    };
    let to = match unit_parts(heap, atoms, to_unit) {
        Some(parts) => parts,
        None => {
            return Err(Exception::Badarg);
        },
    };
    let output = convert(negative, digits.as_slice(), from.as_slice(), to.as_slice());
    match heap.integer_from_digits(output.0, output.1) {
        Ok(term) => Ok(term),
        Err(_) => Err(Exception::Alloc),
    }
}

} // verus!
