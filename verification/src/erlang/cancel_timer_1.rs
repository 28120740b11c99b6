//! `cancel_timer/1`: cancels a timer.

use vstd::prelude::*;
use crate::copy::integer_words;
use crate::erlang::cancel_timer_2::{disarmed, left};
use crate::exception::Exception;
use crate::heap::Heap;
use crate::integer::words_of_u64;
use crate::message::cancelled_outcome;
use crate::scheduler::Scheduler;
use crate::term::{Term, ATOM_FALSE};
use crate::timer::armed;

verus! {

/// Cancels the timer that `timer_reference` names. Returns the milliseconds
/// that were left until its deadline, or the atom `false` if no such timer
/// is armed: it has fired, or was cancelled before, or never was. Where the
/// heap has no room for the milliseconds, the call fails and the timer
/// stays armed.
pub fn result(scheduler: &mut Scheduler, heap: &mut Heap, now: u64, timer_reference: Term) -> (r:
    Result<Term, Exception>)
    requires
        old(scheduler).wf(),
        old(heap).wf(),
    ensures
        final(scheduler).wf(),
        final(heap).wf(),
        final(heap).extends(old(heap)),
        !(timer_reference is Reference) ==> r == Err::<Term, Exception>(Exception::Badarg),
        timer_reference is Reference ==> {
            let outcome = left(old(scheduler).wheel.timers@, now, timer_reference->Reference_0);
            &&& r is Err ==> r->Err_0 == Exception::Alloc
            &&& r is Ok <==> (outcome is Some ==> integer_words(outcome->Some_0 as int) <= old(
                heap,
            ).spare())
        },
        r is Err ==> *final(scheduler) == *old(scheduler) && *final(heap) == *old(heap),
        *final(scheduler) == (Scheduler { wheel: final(scheduler).wheel, ..*old(scheduler) }),
        r is Ok ==> {
            let reference = timer_reference->Reference_0;
            let timers = old(scheduler).wheel.timers@;
            let outcome = left(timers, now, reference);
            &&& !armed(final(scheduler).wheel.timers@, reference)
            &&& final(scheduler).wheel.timers@ == disarmed(timers, reference)
            &&& final(heap).contains(r->Ok_0)
            &&& final(heap).value(r->Ok_0) == cancelled_outcome(outcome)
            &&& outcome is None ==> r->Ok_0 == Term::Atom(ATOM_FALSE) && *final(heap) == *old(heap)
            &&& outcome is Some ==> final(heap).used == old(heap).used + integer_words(
                outcome->Some_0 as int,
            )
        },
{
    let reference: u64 = match timer_reference {
        Term::Reference(reference) => reference,
        _ => {
            return Err(Exception::Badarg);
        },
    };
    let milliseconds: u64 = match scheduler.read_timer(now, reference) {
        Some(milliseconds) => milliseconds,
        None => {
            return Ok(Term::Atom(ATOM_FALSE));
        },
    };
    if words_of_u64(milliseconds) > heap.available() {
        return Err(Exception::Alloc);
    }
    let _cancelled = scheduler.cancel_timer(now, reference);
    match heap.integer(milliseconds as i128) {
        Ok(term) => Ok(term),
        Err(_) => Err(Exception::Alloc),
    }
}

} // verus!
