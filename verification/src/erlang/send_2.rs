//! `send/2`: sends a message to a process.

use vstd::prelude::*;
use crate::copy::value_words;
use crate::exception::Exception;
use crate::message::Message;
use crate::process::{lemma_received, received, Process, Status};
use crate::scheduler::{receiving, Scheduler};
use crate::term::Term;
use crate::value::Value;

verus! {

/// True if `after` is `before` with a message of value `message` at the end
/// of its mailbox, and runnable if it was waiting.
pub open spec fn got(before: Process, after: Process, message: crate::value::Value) -> bool {
    &&& after == (Process { mailbox: after.mailbox, status: after.status, ..before })
    &&& after.mailbox_values() == before.mailbox_values().push(message)
    &&& after.status == (if before.status == Status::Waiting {
        Status::Runnable
    } else {
        before.status
    })
}

/// Sends `message` from the running process to the process that
/// `destination` identifies, and returns the message. The message is copied
/// on its way: nothing of the sender's heap is shared. A message for a
/// process that is over, or for no process, is dropped.
pub fn result(scheduler: &mut Scheduler, process: &mut Process, destination: Term, message: Term) -> (r:
    Result<Term, Exception>)
    requires
        old(scheduler).wf(),
        old(scheduler).running == Some(old(process).pid),
        old(process).wf(),
        old(process).known_to(old(scheduler).atoms@),
        old(process).heap.contains(message),
    ensures
        final(scheduler).wf(),
        final(process).wf(),
        final(process).known_to(final(scheduler).atoms@),
        final(scheduler).running == old(scheduler).running,
        final(scheduler).same_services(old(scheduler)),
        final(scheduler).exits == old(scheduler).exits,
        final(scheduler).signals == old(scheduler).signals,
        !(destination is Pid) ==> r == Err::<Term, Exception>(Exception::Badarg),
        destination is Pid ==> (r is Ok <==> value_words(old(process).heap.value(message))
            <= usize::MAX),
        r is Ok ==> r->Ok_0 == message,
        r is Err ==> *final(process) == *old(process) && *final(scheduler) == *old(scheduler),
        r is Err && destination is Pid ==> r->Err_0 == Exception::Alloc,
        r is Ok && destination->Pid_0 == old(process).pid ==> *final(scheduler) == *old(scheduler)
            && got(*old(process), *final(process), old(process).heap.value(message)),
        r is Ok && destination->Pid_0 != old(process).pid ==> {
            let pid = destination->Pid_0;
            &&& *final(process) == *old(process)
            &&& forall|i: int|
                0 <= i < old(scheduler).processes@.len() && i != pid
                    ==> #[trigger] final(scheduler).processes@[i] == old(scheduler).processes@[i]
            &&& !receiving(old(scheduler).processes@, pid) ==> *final(scheduler) == *old(scheduler)
            &&& receiving(old(scheduler).processes@, pid) ==> {
                &&& final(scheduler).processes@[pid as int] is Some
                &&& got(
                    old(scheduler).processes@[pid as int]->Some_0,
                    final(scheduler).processes@[pid as int]->Some_0,
                    old(process).heap.value(message),
                )
                &&& final(scheduler).run_queue@ == (if old(scheduler).processes@[pid as int]->Some_0.status == Status::Waiting {
                    old(scheduler).run_queue@.push(pid)
                } else {
                    old(scheduler).run_queue@
                })
            }
        },
{
    let pid: usize = match destination {
        Term::Pid(pid) => pid,
        _ => {
            return Err(Exception::Badarg);
        },
    };
    let copy = match Message::capture(&process.heap, message) {
        Ok(copy) => copy,
        Err(_) => {
            return Err(Exception::Alloc);
        },
    };
    if pid == process.pid {
        let ghost before = *process;
        let _woken = process.send(copy);
        proof {
            assert forall|i: int| 0 <= i < process.mailbox@.len() implies crate::atom::names_extend(
                scheduler.atoms@,
                (#[trigger] process.mailbox@[i]).heap.names@,
            ) by {
                if i < before.mailbox@.len() {
                    assert(process.mailbox@[i] == before.mailbox@[i]);
                }
            }
        }
    } else {
        let ghost before = *scheduler;
        let delivered = scheduler.deliver(pid, copy);
        proof {
            if delivered {
                let old_p = before.processes@[pid as int]->Some_0;
                let new_p = scheduler.processes@[pid as int]->Some_0;
                assert(new_p.mailbox_values() =~= old_p.mailbox_values().push(copy.value()));
            }
        }
    }
    Ok(message)
}

/// Messages arrive in the order in which they were sent: where each of
/// `messages` in its turn was sent to a process, and `states` holds the
/// process before the first and after each, the mailbox of the process
/// ends with exactly these messages, in their order. From a mailbox that
/// was empty, as many receives take out exactly these messages, in their
/// order.
pub proof fn lemma_sends_arrive_in_order(states: Seq<Process>, messages: Seq<Value>)
    requires
        states.len() == messages.len() + 1,
        forall|i: int|
            0 <= i < messages.len() ==> got(#[trigger] states[i], states[i + 1], messages[i]),
    ensures
        states.last().mailbox_values() == states[0].mailbox_values() + messages,
        states[0].mailbox_values().len() == 0 ==> received(
            states.last().mailbox_values(),
            messages.len() as int,
        ) == messages,
    decreases messages.len(),
{
    let n = messages.len() as int;
    if n == 0 {
        assert(states[0].mailbox_values() + messages =~= states[0].mailbox_values());
    } else {
        let earlier = states.drop_last();
        let sent = messages.drop_last();
        assert forall|i: int| 0 <= i < sent.len() implies got(
            #[trigger] earlier[i],
            earlier[i + 1],
            sent[i],
        ) by {
            assert(got(states[i], states[i + 1], messages[i]));
        }
        lemma_sends_arrive_in_order(earlier, sent);
        assert(got(states[n - 1], states[n], messages[n - 1]));
        assert(earlier.last() == states[n - 1]);
        assert(earlier[0] == states[0]);
        assert((states[0].mailbox_values() + sent).push(messages[n - 1])
            =~= states[0].mailbox_values() + messages);
    }
    if states[0].mailbox_values().len() == 0 {
        let mailbox = states.last().mailbox_values();
        assert(mailbox =~= messages);
        lemma_received(mailbox, n);
        assert(mailbox.subrange(0, n) =~= messages);
    }
}

} // verus!
