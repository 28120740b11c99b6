//! `bitstring_to_list/1`: the bytes of a bitstring as a list of integers.
//!
//! If the number of bits is not divisible by 8, the last element of the
//! list is a bitstring of the remaining 1 to 7 bits.

use vstd::prelude::*;
use crate::binary::{full_bytes, partial_bits, partial_count, window_byte};
use crate::construct::list_value;
use crate::exception::Exception;
use crate::heap::{window_value, Heap, SubBinary};
use crate::term::Term;
use crate::value::Value;

verus! {

/// Each byte as an integer.
pub open spec fn bytes_as_integers(bytes: Seq<u8>) -> Seq<Value> {
    Seq::new(bytes.len(), |i: int| Value::Integer(bytes[i] as int))
}

/// What the list of the bytes ends in: the empty list, or a list of the one
/// bitstring that holds the bits after the whole bytes.
pub open spec fn remaining_bits(v: Value) -> Value {
    if partial_count(v) == 0 {
        Value::Nil
    } else {
        Value::Cons(
            Box::new(Value::Bitstring(Seq::empty(), partial_count(v), partial_bits(v))),
            Box::new(Value::Nil),
        )
    }
}

/// Words that the list takes.
pub open spec fn list_words(v: Value) -> nat {
    2 * full_bytes(v).len() + (if partial_count(v) == 0 {
        0nat
    } else {
        7nat
    })
}

/// The list of the whole bytes of `bitstring`, each as an integer, that
/// ends in the bitstring of the bits that are left, if any are.
pub fn result(heap: &mut Heap, bitstring: Term) -> (r: Result<Term, Exception>)
    requires
        old(heap).wf(),
        old(heap).contains(bitstring),
    ensures
        final(heap).wf(),
        final(heap).extends(old(heap)),
        !(old(heap).value(bitstring) is Bitstring) ==> r == Err::<Term, Exception>(
            Exception::TypeError,
        ),
        old(heap).value(bitstring) is Bitstring ==> {
            let v = old(heap).value(bitstring);
            &&& r is Ok <==> list_words(v) <= old(heap).spare()
            &&& r is Ok ==> final(heap).contains(r->Ok_0) && final(heap).value(r->Ok_0)
                == list_value(bytes_as_integers(full_bytes(v)), remaining_bits(v))
            &&& r is Ok ==> final(heap).used == old(heap).used + list_words(v)
            &&& r is Err ==> r->Err_0 == Exception::Alloc
        },
        r is Err ==> *final(heap) == *old(heap),
{
    let ghost v = heap.value(bitstring);
    let (byte_terms, window, end) = match heap.bitstring_window(bitstring) {
        Some((bytes, window)) => {
            let _len: usize = bytes.len();
            let end: usize = window.byte_offset + window.full_byte_len;
            let mut byte_terms: Vec<Term> = Vec::new();
            let mut i: usize = 0;
            while i < window.full_byte_len
                invariant
                    0 <= i <= window.full_byte_len,
                    window.byte_offset + window.full_byte_len <= bytes@.len(),
                    v == window_value(window, bytes@),
                    byte_terms@.len() == i,
                    forall|k: int|
                        0 <= k < i ==> #[trigger] byte_terms@[k] == Term::SmallInteger(
                            full_bytes(v)[k] as i64,
                        ),
                decreases window.full_byte_len - i,
            {
                let byte: u8 = window_byte(bytes.as_slice(), &window, i);
                byte_terms.push(Term::SmallInteger(byte as i64));
                i += 1;
            }
            (byte_terms, window, end)
        },
        None => {
            return Err(Exception::TypeError);
        },
    };
    let n: usize = byte_terms.len();
    let spare: usize = heap.available();
    let extra: usize = if window.partial_byte_bit_len == 0 {
        0
    } else {
        7
    };
    if spare < extra || n > (spare - extra) / 2 {
        return Err(Exception::Alloc);
    }
    proof {
        assert forall|k: int| 0 <= k < byte_terms@.len() implies heap.contains(
            #[trigger] byte_terms@[k],
        ) by {}
        assert(heap.values_of(byte_terms@) =~= bytes_as_integers(full_bytes(v)));
    }
    let last: Term = if window.partial_byte_bit_len == 0 {
        Term::Nil
    } else {
        let ghost start = *heap;
        let partial = heap.subbinary_from_original(
            window.original,
            end,
            window.bit_offset,
            0,
            window.partial_byte_bit_len,
        );
        let tail = match partial {
            Ok(term) => term,
            Err(_) => {
                return Err(Exception::Alloc);
            },
        };
        proof {
            let bytes = crate::heap::cell_bytes(
                start.objects@[window.original->Boxed_0 as int],
            )->Some_0;
            let made = window_value(
                SubBinary {
                    original: window.original,
                    byte_offset: (window.byte_offset + window.full_byte_len) as usize,
                    bit_offset: window.bit_offset,
                    full_byte_len: 0,
                    partial_byte_bit_len: window.partial_byte_bit_len,
                },
                bytes,
            );
            assert(full_bytes(made) =~= Seq::<u8>::empty());
        }
        let ghost middle = *heap;
        match heap.cons(tail, Term::Nil) {
            Ok(term) => {
                proof {
                    heap.lemma_extends_transitive(&middle, &start);
                }
                term
            },
            Err(_) => {
                return Err(Exception::Alloc);
            },
        }
    };
    let ghost later = *heap;
    proof {
        heap.lemma_extends_all(old(heap), byte_terms@);
    }
    match heap.improper_list_from_slice(byte_terms.as_slice(), last) {
        Ok(term) => {
            proof {
                heap.lemma_extends_transitive(&later, old(heap));
            }
            Ok(term)
        },
        Err(_) => Err(Exception::Alloc),
    }
}

} // verus!
