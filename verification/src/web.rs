//! The replies that the functions of a browser give to a process: a value
//! in a tuple after the atom `ok`, the atom `error` where there is none, and
//! a syntax error in a tuple after the atom `error`.

use vstd::prelude::*;
use crate::atom::{ATOM_ERROR, ATOM_OK};
use crate::heap::{binary_words, Alloc, Heap, SHARED_BINARY_THRESHOLD};
use crate::term::Term;
use crate::value::Value;

verus! {

/// The reply that carries a value: the tuple of the atom `ok` and the
/// value.
pub open spec fn ok_value(names: Seq<Seq<u8>>, value: Value) -> Value {
    Value::Tuple(seq![Value::Atom(names[ATOM_OK as int]), value])
}

/// The reply for an error that the browser reports with a message: the
/// tuple of the atom `error` and of the tuple of the tag and the message as
/// a binary.
pub open spec fn error_value(names: Seq<Seq<u8>>, tag: Value, message: Seq<u8>) -> Value {
    Value::Tuple(
        seq![
            Value::Atom(names[ATOM_ERROR as int]),
            Value::Tuple(seq![tag, Value::Bitstring(message, 0, 0)]),
        ],
    )
}

/// The tuple of the atom `ok` and `value`.
pub fn ok_tuple(heap: &mut Heap, value: Term) -> (r: Result<Term, Alloc>)
    requires
        old(heap).wf(),
        old(heap).contains(value),
    ensures
        final(heap).wf(),
        final(heap).extends(old(heap)),
        r is Ok <==> 3 <= old(heap).spare(),
        r is Ok ==> {
            &&& final(heap).contains(r->Ok_0)
            &&& final(heap).value(r->Ok_0) == ok_value(old(heap).names@, old(heap).value(value))
            &&& final(heap).used == old(heap).used + 3
        },
        r is Err ==> *final(heap) == *old(heap),
{
    let elements: [Term; 2] = [Term::Atom(ATOM_OK), value];
    proof {
        assert forall|i: int| 0 <= i < elements@.len() implies heap.contains(
            #[trigger] elements@[i],
        ) by {}
        assert(heap.values_of(elements@) =~= seq![
            Value::Atom(heap.names@[ATOM_OK as int]),
            heap.value(value),
        ]);
    }
    heap.tuple_from_slice(elements.as_slice())
}

/// The tuple of the atom `ok` and the value, or the atom `error` where
/// there is no value.
pub fn option_to_ok_tuple_or_error(heap: &mut Heap, option: Option<Term>) -> (r: Result<
    Term,
    Alloc,
>)
    requires
        old(heap).wf(),
        option is Some ==> old(heap).contains(option->Some_0),
    ensures
        final(heap).wf(),
        final(heap).extends(old(heap)),
        r is Ok <==> option is None || 3 <= old(heap).spare(),
        option is None ==> r == Ok::<Term, Alloc>(Term::Atom(ATOM_ERROR)) && *final(heap) == *old(
            heap,
        ),
        option is Some && r is Ok ==> {
            &&& final(heap).contains(r->Ok_0)
            &&& final(heap).value(r->Ok_0) == ok_value(
                old(heap).names@,
                old(heap).value(option->Some_0),
            )
            &&& final(heap).used == old(heap).used + 3
        },
        r is Err ==> *final(heap) == *old(heap),
{
    match option {
        Some(value) => ok_tuple(heap, value),
        None => Ok(Term::Atom(ATOM_ERROR)),
    }
}

/// The tuple of the atom `error` and of the tuple of `tag` and the message
/// as a binary. Nothing is built unless there is room for all of it.
pub fn error_tuple(heap: &mut Heap, tag: Term, message: &[u8]) -> (r: Result<Term, Alloc>)
    requires
        old(heap).wf(),
        old(heap).contains(tag),
    ensures
        final(heap).wf(),
        final(heap).extends(old(heap)),
        r is Ok <==> binary_words(message@.len()) + 6 <= old(heap).spare(),
        r is Ok ==> {
            &&& final(heap).contains(r->Ok_0)
            &&& final(heap).value(r->Ok_0) == error_value(
                old(heap).names@,
                old(heap).value(tag),
                message@,
            )
            &&& final(heap).used == old(heap).used + binary_words(message@.len()) + 6
        },
        r is Err ==> *final(heap) == *old(heap),
{
    let words: usize = if message.len() > SHARED_BINARY_THRESHOLD {
        3
    } else {
        1 + (message.len() + 7) / 8
    };
    if heap.available() < 6 || heap.available() - 6 < words {
        return Err(Alloc);
    }
    let binary = match heap.binary_from_bytes(message) {
        Ok(binary) => binary,
        Err(e) => {
            return Err(e);
        },
    };
    let ghost first = *heap;
    let inner: [Term; 2] = [tag, binary];
    proof {
        assert forall|i: int| 0 <= i < inner@.len() implies heap.contains(#[trigger] inner@[i]) by {}
        assert(heap.values_of(inner@) =~= seq![
            old(heap).value(tag),
            Value::Bitstring(message@, 0, 0),
        ]);
    }
    let reason = match heap.tuple_from_slice(inner.as_slice()) {
        Ok(reason) => reason,
        Err(e) => {
            return Err(e);
        },
    };
    let ghost second = *heap;
    let outer: [Term; 2] = [Term::Atom(ATOM_ERROR), reason];
    proof {
        assert forall|i: int| 0 <= i < outer@.len() implies heap.contains(#[trigger] outer@[i]) by {}
        assert(heap.values_of(outer@) =~= seq![
            Value::Atom(heap.names@[ATOM_ERROR as int]),
            second.value(reason),
        ]);
        heap.lemma_extends_transitive(&first, old(heap));
    }
    let r = heap.tuple_from_slice(outer.as_slice());
    proof {
        heap.lemma_extends_transitive(&second, old(heap));
    }
    r
}

} // verus!
