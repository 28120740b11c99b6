//! `byte_size/1`: the bytes that a bitstring takes.

use vstd::prelude::*;
use crate::binary::{full_bytes, partial_count};
use crate::copy::integer_words;
use crate::exception::Exception;
use crate::heap::Heap;
use crate::term::Term;
use crate::value::Value;

verus! {

/// Bytes needed to hold a bitstring: its whole bytes, and one more for any
/// bits after them.
pub open spec fn total_byte_len(v: Value) -> int {
    full_bytes(v).len() + (if partial_count(v) > 0 {
        1int
    } else {
        0int
    })
}

/// The bytes that `bitstring` takes, counting a byte for bits that fill
/// none.
pub fn result(heap: &mut Heap, bitstring: Term) -> (r: Result<Term, Exception>)
    requires
        old(heap).wf(),
        old(heap).contains(bitstring),
    ensures
        final(heap).wf(),
        final(heap).extends(old(heap)),
        !(old(heap).value(bitstring) is Bitstring) ==> r == Err::<Term, Exception>(
            Exception::TypeError,
        ),
        old(heap).value(bitstring) is Bitstring ==> {
            let size = total_byte_len(old(heap).value(bitstring));
            &&& r is Ok <==> integer_words(size) <= old(heap).spare()
            &&& r is Ok ==> final(heap).contains(r->Ok_0) && final(heap).value(r->Ok_0)
                == Value::Integer(size) && final(heap).used == old(heap).used + integer_words(
                size,
            )
            &&& r is Err ==> r->Err_0 == Exception::Alloc
        },
        r is Err ==> *final(heap) == *old(heap),
{
    let size: i128 = match heap.bitstring_window(bitstring) {
        Some((_, window)) => {
            if window.partial_byte_bit_len > 0 {
                window.full_byte_len as i128 + 1
            } else {
                window.full_byte_len as i128
            }
        },
        None => {
            return Err(Exception::TypeError);
        },
    };
    match heap.integer(size) {
        Ok(term) => Ok(term),
        Err(_) => Err(Exception::Alloc),
    }
}

} // verus!
