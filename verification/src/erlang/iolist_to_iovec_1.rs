//! `iolist_to_iovec/1`: the bytes of an iolist as a list of binaries.

use vstd::prelude::*;
use crate::construct::list_value;
use crate::exception::Exception;
use crate::heap::{cell_ok, Heap, Object};
use crate::term::Term;
use crate::value::{depth, Value};

verus! {

/// The bytes that an element of an iolist stands for: a byte for an integer
/// from 0 to 255, its bytes for a binary, their bytes for an iolist.
pub open spec fn element_bytes(v: Value) -> Option<Seq<u8>>
    decreases v, 1nat,
{
    match v {
        Value::Integer(n) => if 0 <= n <= 255 {
            Some(seq![n as u8])
        } else {
            None
        },
        _ => iolist_bytes(v),
    }
}

/// The bytes that an iolist or a binary stands for: none for the empty
/// list, its bytes for a binary, and for a list the bytes of its head
/// followed by the bytes of its tail, which is an iolist or a binary.
pub open spec fn iolist_bytes(v: Value) -> Option<Seq<u8>>
    decreases v, 0nat,
{
    match v {
        Value::Nil => Some(Seq::empty()),
        Value::Bitstring(bytes, count, _) => if count == 0 {
            Some(bytes)
        } else {
            None
        },
        Value::Cons(head, tail) => match (element_bytes(*head), iolist_bytes(*tail)) {
            (Some(first), Some(rest)) => Some(first + rest),
            _ => None,
        },
        _ => None,
    }
}

/// Puts the bytes of an iolist or a binary at the end of `out`. Returns
/// false if the term is neither; what was put at the end of `out` by then
/// stays there.
pub fn gather(heap: &Heap, t: Term, element: bool, out: &mut Vec<u8>) -> (r: bool)
    requires
        heap.wf(),
        heap.contains(t),
    ensures
        r == ((if element {
            element_bytes(heap.value(t))
        } else {
            iolist_bytes(heap.value(t))
        }) is Some),
        r ==> final(out)@ == old(out)@ + (if element {
            element_bytes(heap.value(t))
        } else {
            iolist_bytes(heap.value(t))
        })->Some_0,
    decreases depth(heap.value(t)),
{
    proof {
        heap.lemma_shape(t);
    }
    match t {
        Term::SmallInteger(n) => {
            if element && 0 <= n && n <= 255 {
                out.push(n as u8);
                proof {
                    assert(out@ =~= old(out)@ + seq![n as u8]);
                }
                true
            } else {
                false
            }
        },
        Term::Nil => {
            proof {
                assert(out@ =~= old(out)@ + Seq::<u8>::empty());
            }
            true
        },
        Term::List(p) => {
            proof {
                assert(cell_ok(heap.objects@, heap.values@, heap.names@, p as int));
            }
            match &heap.objects[p] {
                Object::Cons(head, tail) => {
                    if !gather(heap, *head, true, out) {
                        return false;
                    }
                    let ghost middle = out@;
                    if !gather(heap, *tail, false, out) {
                        return false;
                    }
                    proof {
                        let first = element_bytes(heap.value(*head))->Some_0;
                        let rest = iolist_bytes(heap.value(*tail))->Some_0;
                        assert(out@ =~= old(out)@ + (first + rest));
                    }
                    true
                },
                _ => false,
            }
        },
        Term::Boxed(p) => {
            match heap.bitstring_window(t) {
                Some((bytes, window)) => {
                    if window.partial_byte_bit_len != 0 {
                        return false;
                    }
                    let ghost v = heap.value(t);
                    let ghost start = out@;
                    let mut i: usize = 0;
                    while i < window.full_byte_len
                        invariant
                            0 <= i <= window.full_byte_len,
                            window.byte_offset + window.full_byte_len <= bytes@.len(),
                            v == crate::heap::window_value(window, bytes@),
                            out@.len() == start.len() + i,
                            forall|k: int| 0 <= k < start.len() ==> out@[k] == start[k],
                            forall|k: int|
                                0 <= k < i ==> out@[start.len() + k] == crate::binary::full_bytes(
                                    v,
                                )[k],
                        decreases window.full_byte_len - i,
                    {
                        out.push(crate::binary::window_byte(bytes.as_slice(), &window, i));
                        i += 1;
                    }
                    proof {
                        assert(out@ =~= start + crate::binary::full_bytes(v));
                    }
                    true
                },
                None => {
                    proof {
                        assert(cell_ok(heap.objects@, heap.values@, heap.names@, p as int));
                    }
                    false
                },
            }
        },
        _ => false,
    }
}

/// The list of the one binary that holds the bytes of `iolist_or_binary`.
pub fn result(heap: &mut Heap, iolist_or_binary: Term) -> (r: Result<Term, Exception>)
    requires
        old(heap).wf(),
        old(heap).contains(iolist_or_binary),
    ensures
        final(heap).wf(),
        final(heap).extends(old(heap)),
        iolist_bytes(old(heap).value(iolist_or_binary)) is None ==> r == Err::<Term, Exception>(
            Exception::Badarg,
        ),
        iolist_bytes(old(heap).value(iolist_or_binary)) is Some ==> {
            let bytes = iolist_bytes(old(heap).value(iolist_or_binary))->Some_0;
            &&& r is Ok <==> 2 + crate::heap::binary_words(bytes.len()) <= old(heap).spare()
            &&& r is Ok ==> final(heap).contains(r->Ok_0) && final(heap).value(r->Ok_0)
                == list_value(seq![Value::Bitstring(bytes, 0, 0)], Value::Nil)
            &&& r is Ok ==> final(heap).used == old(heap).used + 2 + crate::heap::binary_words(
                bytes.len(),
            )
            &&& r is Err ==> r->Err_0 == Exception::Alloc
        },
        r is Err ==> *final(heap) == *old(heap),
{
    iolist_or_binary_to_iovec(heap, iolist_or_binary)
}

/// The list of the one binary that holds the bytes of `iolist_or_binary`.
pub fn iolist_or_binary_to_iovec(heap: &mut Heap, iolist_or_binary: Term) -> (r: Result<
    Term,
    Exception,
>)
    requires
        old(heap).wf(),
        old(heap).contains(iolist_or_binary),
    ensures
        final(heap).wf(),
        final(heap).extends(old(heap)),
        iolist_bytes(old(heap).value(iolist_or_binary)) is None ==> r == Err::<Term, Exception>(
            Exception::Badarg,
        ),
        iolist_bytes(old(heap).value(iolist_or_binary)) is Some ==> {
            let bytes = iolist_bytes(old(heap).value(iolist_or_binary))->Some_0;
            &&& r is Ok <==> 2 + crate::heap::binary_words(bytes.len()) <= old(heap).spare()
            &&& r is Ok ==> final(heap).contains(r->Ok_0) && final(heap).value(r->Ok_0)
                == list_value(seq![Value::Bitstring(bytes, 0, 0)], Value::Nil)
            &&& r is Ok ==> final(heap).used == old(heap).used + 2 + crate::heap::binary_words(
                bytes.len(),
            )
            &&& r is Err ==> r->Err_0 == Exception::Alloc
        },
        r is Err ==> *final(heap) == *old(heap),
{
    let mut bytes: Vec<u8> = Vec::new();
    if !gather(heap, iolist_or_binary, false, &mut bytes) {
        return Err(Exception::Badarg);
    }
    proof {
        assert(bytes@ =~= iolist_bytes(heap.value(iolist_or_binary))->Some_0);
    }
    let spare: usize = heap.available();
    let n: usize = bytes.len();
    let words: usize = if n > crate::heap::SHARED_BINARY_THRESHOLD {
        3
    } else if n % 8 == 0 {
        n / 8 + 1
    } else {
        n / 8 + 2
    };
    if spare < 2 || words > spare - 2 {
        return Err(Exception::Alloc);
    }
    let binary = match heap.binary_from_bytes(bytes.as_slice()) {
        Ok(binary) => binary,
        Err(_) => {
            return Err(Exception::Alloc);
        },
    };
    let ghost middle = *heap;
    let elements: [Term; 1] = [binary];
    match heap.list_from_slice(elements.as_slice()) {
        Ok(list) => {
            proof {
                heap.lemma_extends_transitive(&middle, old(heap));
                assert(middle.values_of(elements@) =~= seq![Value::Bitstring(bytes@, 0, 0)]);
            }
            Ok(list)
        },
        Err(_) => Err(Exception::Alloc),
    }
}

} // verus!
