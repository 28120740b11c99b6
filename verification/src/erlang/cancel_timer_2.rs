//! `cancel_timer/2`: cancels a timer, with options.

use vstd::prelude::*;
use crate::atom::{predefined_names, ATOM_OK};
use crate::copy::integer_words;
use crate::exception::Exception;
use crate::integer::words_of_u64;
use crate::message::{cancelled_outcome, cancelled_value, Message};
use crate::process::{Process, Status};
use crate::scheduler::Scheduler;
use crate::term::{Term, ATOM_FALSE};
use crate::timer::{armed, remaining, timer_index, Timer};
use crate::value::Value;

verus! {

/// How the outcome of a cancellation is made known.
#[derive(Clone, Copy, PartialEq, Eq, Structural, Debug)]
pub struct Options {
    /// With `asynchronous` the outcome comes as a message and the call
    /// returns the atom `ok`.
    pub asynchronous: bool,
    /// Without `info` the outcome is not made known at all.
    pub info: bool,
}

impl Options {
    /// The options of a call that names none: the outcome is returned.
    pub fn new() -> (r: Options)
        ensures
            r == (Options { asynchronous: false, info: true }),
    {
        Options { asynchronous: false, info: true }
    }
}

/// The milliseconds that are left until the deadline of the timer
/// `reference`, or nothing if no such timer is armed.
pub open spec fn left(timers: Seq<Timer>, now: u64, reference: u64) -> Option<u64> {
    if armed(timers, reference) {
        Some(remaining(timers[timer_index(timers, reference, 0)].deadline, now))
    } else {
        None
    }
}

/// The timers without the timer `reference`.
pub open spec fn disarmed(timers: Seq<Timer>, reference: u64) -> Seq<Timer> {
    if armed(timers, reference) {
        timers.remove(timer_index(timers, reference, 0))
    } else {
        timers
    }
}

/// The words that the answer takes on the heap of the caller: those of the
/// milliseconds left, where they are returned and are no small integer.
pub open spec fn answer_words(left: Option<u64>, options: Options) -> nat {
    if !options.asynchronous && options.info && left is Some {
        integer_words(left->Some_0 as int)
    } else {
        0
    }
}

/// Cancels the timer that `timer_reference` names. The outcome is the
/// milliseconds that were left until the deadline, or the atom `false` if
/// no such timer is armed. It is returned, or with `asynchronous` sent to
/// the caller as the tuple of the atom `cancel_timer`, the reference and the
/// outcome; without `info` it is neither, and the call returns the atom
/// `ok`. Where the outcome is returned and the caller's heap has no room
/// for it, the call fails and the timer stays armed.
pub fn result(
    scheduler: &mut Scheduler,
    process: &mut Process,
    now: u64,
    timer_reference: Term,
    options: Options,
) -> (r: Result<Term, Exception>)
    requires
        old(scheduler).wf(),
        old(process).wf(),
        old(process).known_to(old(scheduler).atoms@),
    ensures
        final(scheduler).wf(),
        final(process).wf(),
        final(process).known_to(final(scheduler).atoms@),
        !(timer_reference is Reference) ==> r == Err::<Term, Exception>(Exception::Badarg),
        timer_reference is Reference ==> (r is Ok <==> answer_words(
            left(old(scheduler).wheel.timers@, now, timer_reference->Reference_0),
            options,
        ) <= old(process).heap.spare()),
        r is Err ==> *final(scheduler) == *old(scheduler) && *final(process) == *old(process),
        r is Err && timer_reference is Reference ==> r->Err_0 == Exception::Alloc,
        *final(scheduler) == (Scheduler { wheel: final(scheduler).wheel, ..*old(scheduler) }),
        *final(process) == (Process {
            heap: final(process).heap,
            mailbox: final(process).mailbox,
            status: final(process).status,
            ..*old(process)
        }),
        r is Ok ==> {
            let reference = timer_reference->Reference_0;
            let timers = old(scheduler).wheel.timers@;
            let outcome = left(timers, now, reference);
            &&& !armed(final(scheduler).wheel.timers@, reference)
            &&& final(scheduler).wheel.timers@ == disarmed(timers, reference)
            &&& final(process).heap.contains(r->Ok_0)
            &&& final(process).heap.value(r->Ok_0) == (if !options.asynchronous && options.info {
                cancelled_outcome(outcome)
            } else {
                Value::Atom(predefined_names()[ATOM_OK as int])
            })
            &&& final(process).heap.used == old(process).heap.used + answer_words(outcome, options)
            &&& answer_words(outcome, options) == 0 ==> final(process).heap == old(process).heap
            &&& final(process).heap.extends(&old(process).heap)
            &&& !(options.asynchronous && options.info) ==> final(process).mailbox == old(
                process,
            ).mailbox
            &&& final(process).mailbox_values() == (if options.asynchronous && options.info {
                old(process).mailbox_values().push(cancelled_value(reference, outcome))
            } else {
                old(process).mailbox_values()
            })
            &&& final(process).status == (if options.asynchronous && options.info && old(
                process,
            ).status == Status::Waiting {
                Status::Runnable
            } else {
                old(process).status
            })
            &&& final(process).stack_values() == old(process).stack_values()
            &&& final(process).dictionary_mapping() == old(process).dictionary_mapping()
        },
{
    let reference: u64 = match timer_reference {
        Term::Reference(reference) => reference,
        _ => {
            return Err(Exception::Badarg);
        },
    };
    if !options.asynchronous && options.info {
        let milliseconds: u64 = match scheduler.read_timer(now, reference) {
            Some(milliseconds) => milliseconds,
            None => {
                return Ok(Term::Atom(ATOM_FALSE));
            },
        };
        if words_of_u64(milliseconds) > process.heap.available() {
            return Err(Exception::Alloc);
        }
        let ghost start = *process;
        let _cancelled = scheduler.cancel_timer(now, reference);
        let term: Term = match process.heap.integer(milliseconds as i128) {
            Ok(term) => term,
            Err(_) => Term::Atom(ATOM_FALSE),
        };
        proof {
            process.heap.lemma_extends_all(&start.heap, process.stack@);
            process.heap.lemma_extends_all(&start.heap, process.dictionary.keys@);
            process.heap.lemma_extends_all(&start.heap, process.dictionary.values@);
            assert(process.stack_values() == start.stack_values());
            assert(process.dictionary_mapping() == start.dictionary_mapping());
            assert(process.mailbox_values() =~= start.mailbox_values());
            assert(process.wf());
        }
        return Ok(term);
    }
    let cancelled = scheduler.cancel_timer(now, reference);
    if options.info {
        let message = Message::cancelled(reference, cancelled);
        let ghost before = *process;
        let _woken = process.send(message);
        proof {
            assert forall|i: int|
                0 <= i < process.mailbox@.len() implies crate::atom::names_extend(
                scheduler.atoms@,
                (#[trigger] process.mailbox@[i]).heap.names@,
            ) by {
                if i < before.mailbox@.len() {
                    assert(process.mailbox@[i] == before.mailbox@[i]);
                }
            }
        }
    }
    Ok(Term::Atom(ATOM_OK))
}

} // verus!
