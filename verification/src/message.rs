//! A message on its way: a term in a heap of its own.
//!
//! The sender's term is copied when the message is made and copied again
//! into the receiver's heap when it is received, so that sender and receiver
//! never share a cell.

use vstd::prelude::*;
use crate::atom::{predefined_names, ATOM_CANCEL_TIMER, ATOM_DOWN, ATOM_PROCESS, ATOM_TIMEOUT};
use crate::copy::{value_words, values_words};
use crate::heap::{Alloc, Heap};
use crate::term::{Term, ATOM_FALSE};
use crate::value::Value;

verus! {

/// A term with the heap that holds it and nothing else.
pub struct Message {
    /// The cells of the message, and nothing else.
    pub heap: Heap,
    /// The message.
    pub term: Term,
}

/// The value of the message that tells a process that a timer fired.
pub open spec fn timeout_value(names: Seq<Seq<u8>>, reference: u64, message: Value) -> Value {
    Value::Tuple(
        seq![Value::Atom(names[ATOM_TIMEOUT as int]), Value::Reference(reference as nat), message],
    )
}

/// The value of the message that tells a process that a process it
/// monitors is over: the tuple of the atom `DOWN`, the reference of the
/// monitor, the atom `process`, the identifier of the process that is over
/// and the atom that says why.
pub open spec fn down_value(reference: u64, pid: usize, reason: usize) -> Value {
    Value::Tuple(
        seq![
            Value::Atom(predefined_names()[ATOM_DOWN as int]),
            Value::Reference(reference as nat),
            Value::Atom(predefined_names()[ATOM_PROCESS as int]),
            Value::Pid(pid as nat),
            Value::Atom(predefined_names()[reason as int]),
        ],
    )
}

/// What became of a timer that was to be cancelled: the milliseconds that
/// were left until its deadline, or the atom `false` if it was not armed.
pub open spec fn cancelled_outcome(left: Option<u64>) -> Value {
    match left {
        Some(n) => Value::Integer(n as int),
        None => Value::Atom(predefined_names()[ATOM_FALSE as int]),
    }
}

/// The value of the message that tells a process what became of a timer
/// that it cancelled: the tuple of the atom `cancel_timer`, the reference
/// of the timer and the outcome.
pub open spec fn cancelled_value(reference: u64, left: Option<u64>) -> Value {
    Value::Tuple(
        seq![
            Value::Atom(predefined_names()[ATOM_CANCEL_TIMER as int]),
            Value::Reference(reference as nat),
            cancelled_outcome(left),
        ],
    )
}

impl Message {
    /// What holds of every message: its heap is well formed and holds its
    /// term, and nothing but what the term reaches.
    pub open spec fn wf(&self) -> bool {
        &&& self.heap.wf()
        &&& self.heap.contains(self.term)
        &&& self.heap.used == value_words(self.heap.value(self.term))
        &&& self.heap.reserved == 0
    }

    /// The value of the message.
    pub open spec fn value(&self) -> Value {
        self.heap.value(self.term)
    }

    /// Words that the message takes in the heap of whoever receives it.
    pub fn words(&self) -> (r: usize)
        requires
            self.wf(),
        ensures
            r == value_words(self.value()),
    {
        self.heap.used()
    }

    /// A copy of `term`, apart from the heap that `term` lives in.
    pub fn capture(source: &Heap, term: Term) -> (r: Result<Message, Alloc>)
        requires
            source.wf(),
            source.contains(term),
        ensures
            r is Ok <==> value_words(source.value(term)) <= usize::MAX,
            r is Ok ==> r->Ok_0.wf() && r->Ok_0.value() == source.value(term)
                && r->Ok_0.heap.names@ == source.names@,
    {
        let mut heap = Heap::fragment_of(source);
        match heap.copy_from(source, term) {
            Ok(copy) => Ok(Message { heap, term: copy }),
            Err(e) => Err(e),
        }
    }

    /// The message that tells a process that the timer `reference` fired:
    /// the tuple of the atom `timeout`, the reference and a copy of `term`.
    pub fn timeout(source: &Heap, reference: u64, term: Term) -> (r: Result<Message, Alloc>)
        requires
            source.wf(),
            source.contains(term),
        ensures
            r is Ok <==> value_words(source.value(term)) + 4 <= usize::MAX,
            r is Ok ==> r->Ok_0.wf() && r->Ok_0.value() == timeout_value(
                source.names@,
                reference,
                source.value(term),
            ) && r->Ok_0.heap.names@ == source.names@,
    {
        let mut heap = Heap::fragment_of(source);
        let copy = match heap.copy_from(source, term) {
            Ok(copy) => copy,
            Err(e) => {
                return Err(e);
            },
        };
        let elements: [Term; 3] = [Term::Atom(ATOM_TIMEOUT), Term::Reference(reference), copy];
        let ghost before = heap;
        match heap.tuple_from_slice(elements.as_slice()) {
            Ok(tuple) => {
                proof {
                    let vs = before.values_of(elements@);
                    assert(vs =~= seq![
                        Value::Atom(source.names@[ATOM_TIMEOUT as int]),
                        Value::Reference(reference as nat),
                        source.value(term),
                    ]);
                    reveal_with_fuel(values_words, 4);
                    assert(values_words(vs, 3) == value_words(source.value(term)));
                }
                Ok(Message { heap, term: tuple })
            },
            Err(e) => Err(e),
        }
    }

    /// The message that tells a process that the process `pid`, which it
    /// monitors under `reference`, is over for the reason that the atom
    /// `reason` names.
    pub fn down(reference: u64, pid: usize, reason: usize) -> (r: Message)
        requires
            reason < crate::atom::PREDEFINED_ATOMS,
        ensures
            r.wf(),
            r.value() == down_value(reference, pid, reason),
            r.heap.names@ == predefined_names(),
    {
        let mut heap = Heap::new(6);
        let elements: [Term; 5] = [
            Term::Atom(ATOM_DOWN),
            Term::Reference(reference),
            Term::Atom(ATOM_PROCESS),
            Term::Pid(pid),
            Term::Atom(reason),
        ];
        let ghost before = heap;
        proof {
            assert forall|i: int| 0 <= i < elements@.len() implies heap.contains(
                #[trigger] elements@[i],
            ) by {}
        }
        match heap.tuple_from_slice(elements.as_slice()) {
            Ok(tuple) => {
                proof {
                    let vs = before.values_of(elements@);
                    assert(vs =~= down_value(reference, pid, reason)->Tuple_0);
                    reveal_with_fuel(values_words, 6);
                    assert(values_words(vs, 5) == 0);
                }
                Message { heap, term: tuple }
            },
            Err(_) => Message { heap, term: Term::Nil },
        }
    }

    /// The message that tells a process what became of the timer
    /// `reference` that it cancelled: `left` holds the milliseconds that
    /// were left, or nothing if the timer was not armed.
    pub fn cancelled(reference: u64, left: Option<u64>) -> (r: Message)
        ensures
            r.wf(),
            r.value() == cancelled_value(reference, left),
            r.heap.names@ == predefined_names(),
    {
        let mut heap = Heap::new(6);
        let outcome: Term = match left {
            Some(n) => {
                proof {
                    crate::integer::lemma_words_of_u64(n);
                }
                match heap.integer(n as i128) {
                    Ok(term) => term,
                    Err(_) => Term::Nil,
                }
            },
            None => Term::Atom(ATOM_FALSE),
        };
        let elements: [Term; 3] = [Term::Atom(ATOM_CANCEL_TIMER), Term::Reference(reference), outcome];
        let ghost before = heap;
        proof {
            assert forall|i: int| 0 <= i < elements@.len() implies heap.contains(
                #[trigger] elements@[i],
            ) by {}
        }
        match heap.tuple_from_slice(elements.as_slice()) {
            Ok(tuple) => {
                proof {
                    let vs = before.values_of(elements@);
                    assert(vs =~= cancelled_value(reference, left)->Tuple_0);
                    reveal_with_fuel(values_words, 4);
                    assert(values_words(vs, 3) == value_words(cancelled_outcome(left)));
                }
                Message { heap, term: tuple }
            },
            Err(_) => Message { heap, term: Term::Nil },
        }
    }
}

} // verus!