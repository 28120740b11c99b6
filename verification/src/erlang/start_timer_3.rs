//! `start_timer/3`: starts a timer that sends a message when its time has
//! come.

use vstd::prelude::*;
use crate::atom::names_extend;
use crate::copy::value_words;
use crate::exception::Exception;
use crate::heap::Heap;
use crate::integer::integer_of;
use crate::message::timeout_value;
use crate::scheduler::Scheduler;
use crate::term::Term;

verus! {

/// True if the arguments are acceptable: the time is an integer of
/// milliseconds that is not negative and fits 64 bits, and the destination
/// is a process identifier.
pub open spec fn accepted(heap: &Heap, time: Term, destination: Term) -> bool {
    &&& heap.value(time) is Integer
    &&& 0 <= integer_of(heap.value(time)) <= i64::MAX
    &&& destination is Pid
}

/// Starts a timer that, `time` milliseconds after `now`, sends the process
/// `destination` the tuple of the atom `timeout`, the timer's reference and
/// `message`. Returns the reference.
pub fn result(
    scheduler: &mut Scheduler,
    heap: &Heap,
    now: u64,
    time: Term,
    destination: Term,
    message: Term,
) -> (r: Result<Term, Exception>)
    requires
        old(scheduler).wf(),
        heap.wf(),
        heap.contains(time),
        heap.contains(destination),
        heap.contains(message),
        names_extend(old(scheduler).atoms@, heap.names@),
    ensures
        final(scheduler).wf(),
        !accepted(heap, time, destination) ==> r == Err::<Term, Exception>(Exception::Badarg),
        accepted(heap, time, destination) ==> (r is Ok <==> old(scheduler).next_reference
            < u64::MAX && value_words(heap.value(message)) + 4 <= usize::MAX),
        r is Err && accepted(heap, time, destination) ==> r->Err_0 == Exception::Alloc,
        r is Err ==> *final(scheduler) == *old(scheduler),
        r is Ok ==> {
            let milliseconds = integer_of(heap.value(time));
            &&& r->Ok_0 == Term::Reference(old(scheduler).next_reference)
            &&& *final(scheduler) == (Scheduler {
                wheel: final(scheduler).wheel,
                next_reference: (old(scheduler).next_reference + 1) as u64,
                ..*old(scheduler)
            })
            &&& final(scheduler).wheel.timers@.len() == old(scheduler).wheel.timers@.len() + 1
            &&& final(scheduler).wheel.timers@.drop_last() == old(scheduler).wheel.timers@
            &&& final(scheduler).wheel.timers@.last().reference == old(scheduler).next_reference
            &&& final(scheduler).wheel.timers@.last().destination == destination->Pid_0
            &&& final(scheduler).wheel.timers@.last().deadline == (if now + milliseconds
                <= u64::MAX {
                (now + milliseconds) as u64
            } else {
                u64::MAX
            })
            &&& final(scheduler).wheel.timers@.last().message.value() == timeout_value(
                heap.names@,
                old(scheduler).next_reference,
                heap.value(message),
            )
        },
{
    let milliseconds: u64 = match heap.integer_to_i64(time) {
        Some(n) => {
            if n < 0 {
                return Err(Exception::Badarg);
            }
            n as u64
        },
        None => {
            return Err(Exception::Badarg);
        },
    };
    let pid: usize = match destination {
        Term::Pid(pid) => pid,
        _ => {
            return Err(Exception::Badarg);
        },
    };
    match scheduler.start_timer(now, milliseconds, pid, heap, message) {
        Ok(reference) => Ok(Term::Reference(reference)),
        Err(_) => Err(Exception::Alloc),
    }
}

} // verus!
