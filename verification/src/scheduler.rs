//! The scheduler: one run queue, the processes it holds, and the timers.
//!
//! The scheduler never runs code itself. It hands the next runnable process
//! to whoever runs it, with `schedule`, and takes it back with what came of
//! the run, with `complete`. Between the two the process belongs to its
//! runner alone: the scheduler holds no part of it.

use vstd::prelude::*;
use std::collections::VecDeque;
use crate::atom::{names_extend, position_of, AtomTable};
use crate::exception::Exception;
use crate::frame::{out_of_code, Frame, FrameWithArguments};
use crate::heap::Alloc;
use crate::message::Message;
use crate::process::{
    doubled_to, next_heap_size, runnable, ExitReason, Process, Status, MAX_HEAP_SIZE,
    MIN_HEAP_SIZE,
};
use crate::term::Term;
use crate::timer::{armed, due, pending, remaining, timer_index, Timer, TimerWheel};
use crate::value::Value;

verus! {

/// What came of a run.
#[derive(Clone, Copy, PartialEq, Eq, Structural, Debug)]
pub enum Outcome {
    /// The process gave up the rest of its turn, or used up its reductions.
    Yielded,
    /// The process waits for a message.
    Blocked,
    /// The process ran out of code.
    Exited,
    /// The process met an error that nothing caught.
    Failed(Exception),
}

/// The interest of a process in the end of another.
#[derive(Clone, Copy, PartialEq, Eq, Structural, Debug)]
pub struct Monitor {
    /// The number by which the monitor is known.
    pub reference: u64,
    /// The process that is told.
    pub watcher: usize,
    /// The process whose end is told.
    pub watched: usize,
}

/// The end of a process, of which those that monitor it have not been told
/// yet.
#[derive(Clone, Copy, PartialEq, Eq, Structural, Debug)]
pub struct Exit {
    pub pid: usize,
    pub reason: ExitReason,
}

/// A message and the process it is for.
pub struct Delivery {
    pub destination: usize,
    pub message: Message,
}

/// A scheduler.
pub struct Scheduler {
    pub atoms: AtomTable,
    /// Every process that was spawned, at the index that is its identifier.
    /// The place of the process that is running is empty.
    pub processes: Vec<Option<Process>>,
    /// The runnable processes, the next to run first.
    pub run_queue: VecDeque<usize>,
    /// The process that is running, if one is.
    pub running: Option<usize>,
    pub wheel: TimerWheel,
    /// The number of the next reference.
    pub next_reference: u64,
    /// The names that processes are registered under, each an atom, with
    /// the process that has the name.
    pub registered: Vec<(usize, usize)>,
    /// The monitors, in the order in which they were made.
    pub monitors: Vec<Monitor>,
    /// The ends of processes that `notify` has not told of yet, the oldest
    /// first.
    pub exits: VecDeque<Exit>,
    /// The links, each between two processes, in the order in which they
    /// were made.
    pub links: Vec<(usize, usize)>,
    /// The ends of processes that `propagate` has not passed on yet, the
    /// oldest first.
    pub signals: VecDeque<Exit>,
}

/// The index of the first entry at or after `from` with this name, or the
/// number of entries if there is none.
pub open spec fn name_index(registered: Seq<(usize, usize)>, name: usize, from: int) -> int
    decreases registered.len() - from,
{
    if from < 0 || from >= registered.len() {
        registered.len() as int
    } else if registered[from].0 == name {
        from
    } else {
        name_index(registered, name, from + 1)
    }
}

/// The index of the first entry at or after `from` with this process, or
/// the number of entries if there is none.
pub open spec fn pid_index(registered: Seq<(usize, usize)>, pid: usize, from: int) -> int
    decreases registered.len() - from,
{
    if from < 0 || from >= registered.len() {
        registered.len() as int
    } else if registered[from].1 == pid {
        from
    } else {
        pid_index(registered, pid, from + 1)
    }
}

/// True if the process is in the queue.
pub open spec fn queued(queue: Seq<usize>, pid: usize) -> bool {
    exists|k: int| 0 <= k < queue.len() && #[trigger] queue[k] == pid
}

/// True if a message can be delivered to the process at `pid`: it is there,
/// it is not running, and it is not over.
pub open spec fn receiving(processes: Seq<Option<Process>>, pid: usize) -> bool {
    &&& pid < processes.len()
    &&& processes[pid as int] is Some
    &&& !(processes[pid as int]->Some_0.status is Exited)
}

/// True if `after` is `before` with `message` at the end of its mailbox, and
/// runnable if it was waiting.
pub open spec fn sent_to(before: Process, after: Process, message: Message) -> bool {
    &&& after == (Process { mailbox: after.mailbox, status: after.status, ..before })
    &&& after.mailbox@ == before.mailbox@.push(message)
    &&& after.status == (if before.status == Status::Waiting {
        Status::Runnable
    } else {
        before.status
    })
}

impl Scheduler {
    /// What holds of the process at `i`, if it is in its place.
    pub open spec fn slot_ok(&self, i: int) -> bool {
        self.processes@[i] is Some ==> {
            &&& self.processes@[i]->Some_0.wf()
            &&& self.processes@[i]->Some_0.pid == i
            &&& self.processes@[i]->Some_0.known_to(self.atoms@)
            &&& self.processes@[i]->Some_0.status != Status::Running
            &&& self.processes@[i]->Some_0.status == Status::Runnable ==> queued(
                self.run_queue@,
                i as usize,
            )
        }
    }

    /// What holds of the entry at `k` of the run queue: it is a runnable
    /// process, and no other entry is the same process.
    pub open spec fn entry_ok(&self, k: int) -> bool {
        &&& self.run_queue@[k] < self.processes@.len()
        &&& self.processes@[self.run_queue@[k] as int] is Some
        &&& self.processes@[self.run_queue@[k] as int]->Some_0.status == Status::Runnable
        &&& forall|j: int| 0 <= j < k ==> self.run_queue@[j] != self.run_queue@[k]
    }

    /// What holds of the timer at `i`.
    pub open spec fn timer_ok(&self, i: int) -> bool {
        &&& self.wheel.timers@[i].reference < self.next_reference
        &&& names_extend(self.atoms@, self.wheel.timers@[i].message.heap.names@)
    }

    /// What holds of every scheduler: each process in its place is well
    /// formed, is not running, and is in the run queue if it is runnable;
    /// the run queue holds runnable processes, each once; the one place
    /// that is empty is that of the process that is running; and every
    /// timer has a reference that was given and a message that is well
    /// formed.
    pub open spec fn wf(&self) -> bool {
        &&& self.atoms.wf()
        &&& self.wheel.wf()
        &&& forall|i: int| 0 <= i < self.wheel.timers@.len() ==> #[trigger] self.timer_ok(i)
        &&& forall|i: int| 0 <= i < self.processes@.len() ==> #[trigger] self.slot_ok(i)
        &&& forall|k: int| 0 <= k < self.run_queue@.len() ==> #[trigger] self.entry_ok(k)
        &&& forall|i: int|
            0 <= i < self.registered@.len() ==> (#[trigger] self.registered@[i]).0
                < self.atoms@.len()
        &&& match self.running {
            Some(r) => r < self.processes@.len() && self.processes@[r as int] is None,
            None => true,
        }
        &&& forall|i: int|
            0 <= i < self.processes@.len() && (#[trigger] self.processes@[i]) is None
                ==> self.running == Some(i as usize)
    }

    /// A scheduler with no process and no timer.
    pub fn new() -> (r: Scheduler)
        ensures
            r.wf(),
            r.processes@.len() == 0,
            r.run_queue@.len() == 0,
            r.running is None,
            r.wheel.timers@.len() == 0,
            r.next_reference == 0,
            r.registered@.len() == 0,
            r.monitors@.len() == 0,
            r.exits@.len() == 0,
            r.links@.len() == 0,
            r.signals@.len() == 0,
            r.atoms@ == crate::atom::predefined_names(),
    {
        Scheduler {
            atoms: AtomTable::new(),
            processes: Vec::new(),
            run_queue: VecDeque::new(),
            running: None,
            wheel: TimerWheel::new(),
            next_reference: 0,
            registered: Vec::new(),
            monitors: Vec::new(),
            exits: VecDeque::new(),
            links: Vec::new(),
            signals: VecDeque::new(),
        }
    }

    /// The atom with this name. A name that the table does not have yet is
    /// added to it.
    pub fn intern(&mut self, name: &[u8]) -> (r: usize)
        requires
            old(self).wf(),
        ensures
            final(self).wf(),
            *final(self) == (Scheduler { atoms: final(self).atoms, ..*old(self) }),
            r == position_of(old(self).atoms@, name@, 0),
            r < final(self).atoms@.len(),
            final(self).atoms@[r as int] == name@,
            names_extend(final(self).atoms@, old(self).atoms@),
            r < old(self).atoms@.len() ==> final(self).atoms@ == old(self).atoms@,
            r == old(self).atoms@.len() ==> final(self).atoms@ == old(self).atoms@.push(name@),
    {
        let r = self.atoms.intern(name);
        proof {
            assert forall|i: int| 0 <= i < self.registered@.len() implies (
            #[trigger] self.registered@[i]).0 < self.atoms@.len() by {
                assert(old(self).registered@[i].0 < old(self).atoms@.len());
            }
            assert forall|i: int| 0 <= i < self.processes@.len() implies #[trigger] self.slot_ok(
                i,
            ) by {
                assert(old(self).slot_ok(i));
            }
            assert forall|k: int| 0 <= k < self.run_queue@.len() implies #[trigger] self.entry_ok(
                k,
            ) by {
                assert(old(self).entry_ok(k));
            }
            assert forall|i: int| 0 <= i < self.wheel.timers@.len() implies #[trigger] self.timer_ok(
                i,
            ) by {
                assert(old(self).timer_ok(i));
            }
        }
        r
    }

    /// The process at `pid`, if it is in its place.
    pub fn process(&self, pid: usize) -> (r: Option<&Process>)
        ensures
            r is Some <==> pid < self.processes@.len() && self.processes@[pid as int] is Some,
            r is Some ==> *r->Some_0 == self.processes@[pid as int]->Some_0,
    {
        if pid >= self.processes.len() {
            return None;
        }
        match &self.processes[pid] {
            Some(process) => Some(process),
            None => None,
        }
    }

    /// Where the process at `pid` is in its life; `Running` for the one that
    /// is out for its run, nothing for an identifier that no process has.
    pub fn status(&self, pid: usize) -> (r: Option<Status>)
        requires
            self.wf(),
        ensures
            r == (if pid >= self.processes@.len() {
                None
            } else if self.processes@[pid as int] is Some {
                Some(self.processes@[pid as int]->Some_0.status)
            } else {
                Some(Status::Running)
            }),
    {
        if pid >= self.processes.len() {
            return None;
        }
        match &self.processes[pid] {
            Some(process) => Some(process.status),
            None => Some(Status::Running),
        }
    }

    /// A new reference, unlike every reference given before.
    pub fn next_reference(&mut self) -> (r: Option<u64>)
        requires
            old(self).wf(),
        ensures
            final(self).wf(),
            r is Some <==> old(self).next_reference < u64::MAX,
            r is Some ==> r->Some_0 == old(self).next_reference && *final(self) == (Scheduler {
                next_reference: (old(self).next_reference + 1) as u64,
                ..*old(self)
            }),
            r is None ==> *final(self) == *old(self),
    {
        if self.next_reference == u64::MAX {
            return None;
        }
        let reference: u64 = self.next_reference;
        self.next_reference = reference + 1;
        proof {
            assert forall|i: int| 0 <= i < self.processes@.len() implies #[trigger] self.slot_ok(
                i,
            ) by {
                assert(old(self).slot_ok(i));
            }
            assert forall|k: int| 0 <= k < self.run_queue@.len() implies #[trigger] self.entry_ok(
                k,
            ) by {
                assert(old(self).entry_ok(k));
            }
            assert forall|i: int| 0 <= i < self.wheel.timers@.len() implies #[trigger] self.timer_ok(
                i,
            ) by {
                assert(old(self).timer_ok(i));
            }
        }
        Some(reference)
    }

    /// Makes a process that has `frame` to run, on top of the out-of-code
    /// frame, and puts it at the end of the run queue. Returns its
    /// identifier. Fails if the heap size that `next_heap_size` gives for
    /// `minimum_heap_size` is more than `MAX_HEAP_SIZE`.
    pub fn spawn(&mut self, parent: Option<usize>, frame: Frame, minimum_heap_size: usize) -> (r:
        Result<usize, Alloc>)
        requires
            old(self).wf(),
        ensures
            final(self).wf(),
            r is Ok <==> doubled_to(MIN_HEAP_SIZE as nat, minimum_heap_size as nat)
                <= MAX_HEAP_SIZE,
            r is Err ==> *final(self) == *old(self),
            r is Ok ==> {
                &&& r->Ok_0 == old(self).processes@.len()
                &&& *final(self) == (Scheduler {
                    processes: final(self).processes,
                    run_queue: final(self).run_queue,
                    ..*old(self)
                })
                &&& final(self).processes@.len() == old(self).processes@.len() + 1
                &&& forall|i: int|
                    0 <= i < old(self).processes@.len() ==> #[trigger] final(self).processes@[i]
                        == old(self).processes@[i]
                &&& final(self).run_queue@ == old(self).run_queue@.push(r->Ok_0)
                &&& final(self).processes@[r->Ok_0 as int] is Some
                &&& ({
                    let process = final(self).processes@[r->Ok_0 as int]->Some_0;
                    &&& process.pid == r->Ok_0
                    &&& process.parent == parent
                    &&& process.initial == frame.module_function_arity
                    &&& process.status == Status::Runnable
                    &&& process.frames@ == seq![out_of_code(), frame]
                    &&& process.stack@.len() == 0
                    &&& process.mailbox@.len() == 0
                    &&& process.reductions == 0
                    &&& process.heap.used == 0
                    &&& process.heap.capacity == doubled_to(
                        MIN_HEAP_SIZE as nat,
                        minimum_heap_size as nat,
                    )
                    &&& process.max_heap_size == MAX_HEAP_SIZE
                })
            },
    {
        let heap_size: usize = next_heap_size(minimum_heap_size);
        if heap_size > MAX_HEAP_SIZE {
            return Err(Alloc);
        }
        let pid: usize = self.processes.len();
        let mut process = Process::new(
            pid,
            parent,
            frame.module_function_arity,
            heap_size,
            MAX_HEAP_SIZE,
        );
        process.adopt(&self.atoms);
        let no_arguments: Vec<Term> = Vec::new();
        let mut frames: Vec<FrameWithArguments> = Vec::new();
        frames.push(frame.with_arguments(false, no_arguments.as_slice()));
        proof {
            reveal_with_fuel(crate::process::count_arguments, 3);
            reveal_with_fuel(crate::process::frames_with, 3);
            reveal_with_fuel(crate::process::stack_with_arguments, 3);
            assert(process.heap.contains_all(frames@[0].arguments@));
        }
        let made = runnable(&mut process, frames);
        proof {
            assert(made is Ok);
            assert(process.frames@ =~= seq![out_of_code(), frame]);
            assert(process.stack@ =~= Seq::<Term>::empty());
        }
        self.enroll(process)
    }

    /// Takes the process at the head of the run queue out for its run: it is
    /// `Running`, its reductions start at none, and it is the runner's until
    /// `complete` brings it back. Returns nothing if no process is runnable.
    pub fn schedule(&mut self) -> (r: Option<Process>)
        requires
            old(self).wf(),
            old(self).running is None,
        ensures
            final(self).wf(),
            r is Some <==> old(self).run_queue@.len() > 0,
            r is None ==> *final(self) == *old(self),
            r is Some ==> {
                let pid = old(self).run_queue@[0];
                &&& r->Some_0 == (Process {
                    status: Status::Running,
                    reductions: 0,
                    ..old(self).processes@[pid as int]->Some_0
                })
                &&& r->Some_0.pid == pid
                &&& r->Some_0.wf()
                &&& r->Some_0.known_to(final(self).atoms@)
                &&& *final(self) == (Scheduler {
                    processes: final(self).processes,
                    run_queue: final(self).run_queue,
                    running: Some(pid),
                    ..*old(self)
                })
                &&& final(self).run_queue@ == old(self).run_queue@.drop_first()
                &&& final(self).processes@ == old(self).processes@.update(pid as int, None)
            },
    {
        if self.run_queue.len() == 0 {
            return None;
        }
        let pid: usize = match self.run_queue.pop_front() {
            Some(pid) => pid,
            None => 0,
        };
        proof {
            assert(old(self).entry_ok(0));
            assert(old(self).slot_ok(pid as int));
        }
        self.processes.push(None);
        let taken = self.processes.swap_remove(pid);
        self.running = Some(pid);
        proof {
            assert(self.processes@ =~= old(self).processes@.update(pid as int, None));
            assert forall|i: int| 0 <= i < self.processes@.len() implies #[trigger] self.slot_ok(
                i,
            ) by {
                assert(old(self).slot_ok(i));
                if i != pid && self.processes@[i] is Some && self.processes@[i]->Some_0.status
                    == Status::Runnable {
                    let k = choose|k: int|
                        0 <= k < old(self).run_queue@.len() && #[trigger] old(self).run_queue@[k]
                            == i as usize;
                    assert(k > 0);
                    assert(self.run_queue@[k - 1] == i as usize);
                }
            }
            assert forall|k: int| 0 <= k < self.run_queue@.len() implies #[trigger] self.entry_ok(
                k,
            ) by {
                assert(old(self).entry_ok(k + 1));
                assert forall|j: int| 0 <= j < k implies self.run_queue@[j]
                    != self.run_queue@[k] by {
                    assert(old(self).run_queue@[j + 1] != old(self).run_queue@[k + 1]);
                }
            }
            assert forall|i: int| 0 <= i < self.wheel.timers@.len() implies #[trigger] self.timer_ok(
                i,
            ) by {
                assert(old(self).timer_ok(i));
            }
        }
        match taken {
            Some(mut process) => {
                process.status = Status::Running;
                process.reductions = 0;
                Some(process)
            },
            None => None,
        }
    }
}

impl Scheduler {
    /// True if the scheduler is `earlier` but for its processes, its run
    /// queue and what `running` says.
    pub open spec fn same_services(&self, earlier: &Scheduler) -> bool {
        &&& self.atoms == earlier.atoms
        &&& self.wheel == earlier.wheel
        &&& self.next_reference == earlier.next_reference
        &&& self.registered == earlier.registered
        &&& self.monitors == earlier.monitors
        &&& self.links == earlier.links
        &&& self.processes@.len() == earlier.processes@.len()
    }

    /// Takes a process back from its run. One that yielded goes to the end
    /// of the run queue. One that blocked waits, unless a message is in its
    /// mailbox already: then it goes to the end of the run queue. One that
    /// exited or failed is over: its heap is released, and it stays in its
    /// place so that its end can be seen.
    pub fn complete(&mut self, process: Process, outcome: Outcome)
        requires
            old(self).wf(),
            old(self).running == Some(process.pid),
            process.wf(),
            process.known_to(old(self).atoms@),
            process.status == Status::Running,
        ensures
            final(self).wf(),
            final(self).running is None,
            final(self).same_services(old(self)),
            final(self).exits@ == (match outcome {
                Outcome::Exited => old(self).exits@.push(
                    Exit { pid: process.pid, reason: ExitReason::Normal },
                ),
                Outcome::Failed(exception) => old(self).exits@.push(
                    Exit { pid: process.pid, reason: ExitReason::Error(exception) },
                ),
                _ => old(self).exits@,
            }),
            final(self).signals@ == (match outcome {
                Outcome::Exited => old(self).signals@.push(
                    Exit { pid: process.pid, reason: ExitReason::Normal },
                ),
                Outcome::Failed(exception) => old(self).signals@.push(
                    Exit { pid: process.pid, reason: ExitReason::Error(exception) },
                ),
                _ => old(self).signals@,
            }),
            forall|i: int|
                0 <= i < old(self).processes@.len() && i != process.pid
                    ==> #[trigger] final(self).processes@[i] == old(self).processes@[i],
            final(self).processes@[process.pid as int] is Some,
            match outcome {
                Outcome::Yielded => {
                    &&& final(self).processes@[process.pid as int]->Some_0 == (Process {
                        status: Status::Runnable,
                        ..process
                    })
                    &&& final(self).run_queue@ == old(self).run_queue@.push(process.pid)
                },
                Outcome::Blocked => if process.mailbox@.len() > 0 {
                    &&& final(self).processes@[process.pid as int]->Some_0 == (Process {
                        status: Status::Runnable,
                        ..process
                    })
                    &&& final(self).run_queue@ == old(self).run_queue@.push(process.pid)
                } else {
                    &&& final(self).processes@[process.pid as int]->Some_0 == (Process {
                        status: Status::Waiting,
                        ..process
                    })
                    &&& final(self).run_queue@ == old(self).run_queue@
                },
                Outcome::Exited => {
                    &&& final(self).processes@[process.pid as int]->Some_0.status
                        == Status::Exited(ExitReason::Normal)
                    &&& final(self).processes@[process.pid as int]->Some_0.heap.capacity == 0
                    &&& final(self).processes@[process.pid as int]->Some_0.heap.objects@.len() == 0
                    &&& final(self).processes@[process.pid as int]->Some_0.mailbox@.len() == 0
                    &&& final(self).run_queue@ == old(self).run_queue@
                },
                Outcome::Failed(exception) => {
                    &&& final(self).processes@[process.pid as int]->Some_0.status
                        == Status::Exited(ExitReason::Error(exception))
                    &&& final(self).processes@[process.pid as int]->Some_0.heap.capacity == 0
                    &&& final(self).processes@[process.pid as int]->Some_0.heap.objects@.len() == 0
                    &&& final(self).processes@[process.pid as int]->Some_0.mailbox@.len() == 0
                    &&& final(self).run_queue@ == old(self).run_queue@
                },
            },
    {
        let pid: usize = process.pid;
        let mut process = process;
        let requeue: bool = match outcome {
            Outcome::Yielded => {
                process.status = Status::Runnable;
                true
            },
            Outcome::Blocked => {
                if process.mailbox.len() > 0 {
                    process.status = Status::Runnable;
                    true
                } else {
                    process.status = Status::Waiting;
                    false
                }
            },
            Outcome::Exited => {
                process.exit(ExitReason::Normal);
                self.exits.push_back(Exit { pid, reason: ExitReason::Normal });
                self.signals.push_back(Exit { pid, reason: ExitReason::Normal });
                false
            },
            Outcome::Failed(exception) => {
                process.exit(ExitReason::Error(exception));
                self.exits.push_back(Exit { pid, reason: ExitReason::Error(exception) });
                self.signals.push_back(Exit { pid, reason: ExitReason::Error(exception) });
                false
            },
        };
        self.processes.push(Some(process));
        let _empty = self.processes.swap_remove(pid);
        self.running = None;
        if requeue {
            self.run_queue.push_back(pid);
        }
        let _count: usize = self.processes.len();
        proof {
            assert(self.processes@ =~= old(self).processes@.update(pid as int, Some(process)));
            assert forall|i: int| 0 <= i < self.processes@.len() implies #[trigger] self.slot_ok(
                i,
            ) by {
                if i != pid {
                    assert(old(self).slot_ok(i));
                    if self.processes@[i] is Some && self.processes@[i]->Some_0.status
                        == Status::Runnable {
                        let k = choose|k: int|
                            0 <= k < old(self).run_queue@.len() && #[trigger] old(
                                self,
                            ).run_queue@[k] == i as usize;
                        assert(self.run_queue@[k] == i as usize);
                    }
                } else if requeue {
                    assert(self.run_queue@[old(self).run_queue@.len() as int] == pid);
                }
            }
            assert forall|k: int| 0 <= k < self.run_queue@.len() implies #[trigger] self.entry_ok(
                k,
            ) by {
                if k < old(self).run_queue@.len() {
                    assert(old(self).entry_ok(k));
                } else {
                    assert forall|j: int| 0 <= j < k implies self.run_queue@[j]
                        != self.run_queue@[k] by {
                        assert(old(self).entry_ok(j));
                    }
                }
            }
            assert forall|i: int| 0 <= i < self.wheel.timers@.len() implies #[trigger] self.timer_ok(
                i,
            ) by {
                assert(old(self).timer_ok(i));
            }
            assert forall|i: int|
                0 <= i < self.processes@.len() && (#[trigger] self.processes@[i]) is None implies false by {
                if i != pid {
                    assert(old(self).processes@[i] is None);
                    assert(old(self).running == Some(i as usize));
                }
            }
        }
    }

    /// Delivers a message to the process at `destination`, which is made
    /// runnable if it was waiting. Returns false, and drops the message, if
    /// no process can take it: the identifier is no process's, or the
    /// process is over, or it is the one that is running, whose runner hands
    /// it its messages.
    pub fn deliver(&mut self, destination: usize, message: Message) -> (r: bool)
        requires
            old(self).wf(),
            message.wf(),
            names_extend(old(self).atoms@, message.heap.names@),
        ensures
            final(self).wf(),
            r == receiving(old(self).processes@, destination),
            final(self).same_services(old(self)),
            final(self).exits == old(self).exits,
            final(self).signals == old(self).signals,
            final(self).running == old(self).running,
            forall|i: int|
                0 <= i < old(self).processes@.len() && i != destination
                    ==> #[trigger] final(self).processes@[i] == old(self).processes@[i],
            !r ==> *final(self) == *old(self),
            r ==> {
                &&& final(self).processes@[destination as int] is Some
                &&& sent_to(
                    old(self).processes@[destination as int]->Some_0,
                    final(self).processes@[destination as int]->Some_0,
                    message,
                )
                &&& final(self).run_queue@ == (if old(
                    self,
                ).processes@[destination as int]->Some_0.status == Status::Waiting {
                    old(self).run_queue@.push(destination)
                } else {
                    old(self).run_queue@
                })
            },
    {
        if destination >= self.processes.len() {
            return false;
        }
        let takes: bool = match &self.processes[destination] {
            Some(process) => match process.status {
                Status::Exited(_) => false,
                _ => true,
            },
            None => false,
        };
        if !takes {
            return false;
        }
        proof {
            assert(old(self).slot_ok(destination as int));
        }
        self.processes.push(None);
        let taken = self.processes.swap_remove(destination);
        let mut process = match taken {
            Some(process) => process,
            None => {
                return false;
            },
        };
        let ghost before = process;
        let woken = process.send(message);
        proof {
            assert forall|i: int| 0 <= i < process.mailbox@.len() implies names_extend(
                self.atoms@,
                (#[trigger] process.mailbox@[i]).heap.names@,
            ) by {
                if i < before.mailbox@.len() {
                    assert(process.mailbox@[i] == before.mailbox@[i]);
                }
            }
        }
        self.processes.push(Some(process));
        let _empty = self.processes.swap_remove(destination);
        if woken {
            self.run_queue.push_back(destination);
        }
        proof {
            assert(self.processes@ =~= old(self).processes@.update(
                destination as int,
                Some(process),
            ));
            assert forall|i: int| 0 <= i < self.processes@.len() implies #[trigger] self.slot_ok(
                i,
            ) by {
                assert(old(self).slot_ok(i));
                if self.processes@[i] is Some && self.processes@[i]->Some_0.status
                    == Status::Runnable {
                    if i == destination && woken {
                        assert(self.run_queue@[old(self).run_queue@.len() as int] == destination);
                    } else {
                        let k = choose|k: int|
                            0 <= k < old(self).run_queue@.len() && #[trigger] old(
                                self,
                            ).run_queue@[k] == i as usize;
                        assert(self.run_queue@[k] == i as usize);
                    }
                }
            }
            assert forall|k: int| 0 <= k < self.run_queue@.len() implies #[trigger] self.entry_ok(
                k,
            ) by {
                if k < old(self).run_queue@.len() {
                    assert(old(self).entry_ok(k));
                } else {
                    assert forall|j: int| 0 <= j < k implies self.run_queue@[j]
                        != self.run_queue@[k] by {
                        assert(old(self).entry_ok(j));
                    }
                }
            }
            assert forall|i: int| 0 <= i < self.wheel.timers@.len() implies #[trigger] self.timer_ok(
                i,
            ) by {
                assert(old(self).timer_ok(i));
            }
            assert forall|i: int|
                0 <= i < self.processes@.len() && (#[trigger] self.processes@[i]) is None implies self.running
                == Some(i as usize) by {
                assert(old(self).processes@[i] is None);
            }
        }
        true
    }
}

/// Of the first `upto` deliveries, the messages for the process at `pid`,
/// by value and in their order.
pub open spec fn addressed(batch: Seq<(usize, Value)>, pid: int, upto: int) -> Seq<Value>
    decreases upto,
{
    if upto <= 0 || upto > batch.len() {
        Seq::empty()
    } else if batch[upto - 1].0 == pid {
        addressed(batch, pid, upto - 1).push(batch[upto - 1].1)
    } else {
        addressed(batch, pid, upto - 1)
    }
}

/// The processes that the first `upto` deliveries wake, in the order in
/// which they are woken: those that were waiting, each when its first
/// message comes.
pub open spec fn woken(processes: Seq<Option<Process>>, batch: Seq<(usize, Value)>, upto: int) -> Seq<
    usize,
>
    decreases upto,
{
    if upto <= 0 || upto > batch.len() {
        Seq::empty()
    } else {
        let before = woken(processes, batch, upto - 1);
        let pid = batch[upto - 1].0;
        if receiving(processes, pid) && processes[pid as int]->Some_0.status == Status::Waiting
            && addressed(batch, pid as int, upto - 1).len() == 0 {
            before.push(pid)
        } else {
            before
        }
    }
}

/// True if `after` is `before` with `messages` at the end of its mailbox,
/// and runnable if it was waiting and a message came. A process that is
/// over gets nothing.
pub open spec fn carried(before: Process, after: Process, messages: Seq<Value>) -> bool {
    &&& after == (Process { mailbox: after.mailbox, status: after.status, ..before })
    &&& after.mailbox_values() == (if before.status is Exited {
        before.mailbox_values()
    } else {
        before.mailbox_values() + messages
    })
    &&& after.status == (if before.status == Status::Waiting && messages.len() > 0 {
        Status::Runnable
    } else {
        before.status
    })
}

/// The message of each timer, by value, with the process that it is for.
pub open spec fn timer_notices(timers: Seq<Timer>) -> Seq<(usize, Value)> {
    Seq::new(timers.len(), |i: int| (timers[i].destination, timers[i].message.value()))
}

/// The message of each delivery, by value, with the process that it is
/// for.
pub open spec fn notices_of(batch: Seq<Delivery>) -> Seq<(usize, Value)> {
    Seq::new(batch.len(), |i: int| (batch[i].destination, batch[i].message.value()))
}

/// The same in the opposite order.
pub fn reversed<T>(items: Vec<T>) -> (r: Vec<T>)
    ensures
        r@ == items@.reverse(),
{
    let mut source = items;
    let ghost all = source@;
    let mut out: Vec<T> = Vec::new();
    while source.len() > 0
        invariant
            source@ == all.subrange(0, source@.len() as int),
            source@.len() <= all.len(),
            out@.len() == all.len() - source@.len(),
            forall|k: int| 0 <= k < out@.len() ==> #[trigger] out@[k] == all[all.len() - 1 - k],
        decreases source@.len(),
    {
        let ghost n = source@.len();
        match source.pop() {
            Some(item) => {
                out.push(item);
            },
            None => {},
        }
        proof {
            assert(source@ =~= all.subrange(0, n - 1));
        }
    }
    proof {
        assert(out@ =~= all.reverse());
    }
    out
}

/// The message of each timer with the process that it is for.
pub fn to_deliveries(timers: Vec<Timer>) -> (r: Vec<Delivery>)
    ensures
        r@.len() == timers@.len(),
        forall|x: int|
            0 <= x < r@.len() ==> (#[trigger] r@[x]).destination == timers@[x].destination
                && r@[x].message == timers@[x].message,
        notices_of(r@) == timer_notices(timers@),
{
    let ghost all = timers@;
    let n: usize = timers.len();
    let mut rest = reversed(timers);
    let mut out: Vec<Delivery> = Vec::new();
    let mut k: usize = 0;
    while k < n
        invariant
            0 <= k <= n,
            n == all.len(),
            rest@.len() == n - k,
            forall|x: int| 0 <= x < rest@.len() ==> #[trigger] rest@[x] == all[n - 1 - x],
            out@.len() == k,
            forall|x: int|
                0 <= x < k ==> (#[trigger] out@[x]).destination == all[x].destination
                    && out@[x].message == all[x].message,
        decreases n - k,
    {
        match rest.pop() {
            Some(timer) => {
                out.push(Delivery { destination: timer.destination, message: timer.message });
            },
            None => {},
        }
        k += 1;
    }
    proof {
        assert(notices_of(out@) =~= timer_notices(all));
    }
    out
}

impl Scheduler {
    /// Starts a timer that, `milliseconds` after `now`, sends the process at
    /// `destination` the tuple of the atom `timeout`, the timer's reference
    /// and `term`. Returns the reference.
    pub fn start_timer(
        &mut self,
        now: u64,
        milliseconds: u64,
        destination: usize,
        source: &crate::heap::Heap,
        term: Term,
    ) -> (r: Result<u64, Alloc>)
        requires
            old(self).wf(),
            source.wf(),
            source.contains(term),
            names_extend(old(self).atoms@, source.names@),
        ensures
            final(self).wf(),
            r is Ok <==> old(self).next_reference < u64::MAX && crate::copy::value_words(
                source.value(term),
            ) + 4 <= usize::MAX,
            r is Err ==> *final(self) == *old(self),
            r is Ok ==> {
                &&& r->Ok_0 == old(self).next_reference
                &&& *final(self) == (Scheduler {
                    wheel: final(self).wheel,
                    next_reference: (old(self).next_reference + 1) as u64,
                    ..*old(self)
                })
                &&& final(self).wheel.timers@.len() == old(self).wheel.timers@.len() + 1
                &&& final(self).wheel.timers@.drop_last() == old(self).wheel.timers@
                &&& final(self).wheel.timers@.last().reference == r->Ok_0
                &&& final(self).wheel.timers@.last().destination == destination
                &&& final(self).wheel.timers@.last().deadline == (if now + milliseconds
                    <= u64::MAX {
                    (now + milliseconds) as u64
                } else {
                    u64::MAX
                })
                &&& final(self).wheel.timers@.last().message.value()
                    == crate::message::timeout_value(source.names@, r->Ok_0, source.value(term))
            },
    {
        if self.next_reference == u64::MAX {
            return Err(Alloc);
        }
        let reference: u64 = self.next_reference;
        let message = match Message::timeout(source, reference, term) {
            Ok(message) => message,
            Err(e) => {
                return Err(e);
            },
        };
        let deadline: u64 = if milliseconds > u64::MAX - now {
            u64::MAX
        } else {
            now + milliseconds
        };
        let timer = Timer { reference, deadline, destination, message };
        proof {
            if armed(self.wheel.timers@, reference) {
                let i = choose|i: int|
                    0 <= i < self.wheel.timers@.len() && (#[trigger] self.wheel.timers@[i]).reference
                        == reference;
                assert(self.timer_ok(i));
            }
        }
        self.wheel.start(timer);
        self.next_reference = reference + 1;
        proof {
            assert(self.wheel.timers@.drop_last() =~= old(self).wheel.timers@);
            assert forall|i: int| 0 <= i < self.processes@.len() implies #[trigger] self.slot_ok(
                i,
            ) by {
                assert(old(self).slot_ok(i));
            }
            assert forall|k: int| 0 <= k < self.run_queue@.len() implies #[trigger] self.entry_ok(
                k,
            ) by {
                assert(old(self).entry_ok(k));
            }
            assert forall|i: int| 0 <= i < self.wheel.timers@.len() implies #[trigger] self.timer_ok(
                i,
            ) by {
                if i < old(self).wheel.timers@.len() {
                    assert(old(self).timer_ok(i));
                }
            }
        }
        Ok(reference)
    }

    /// The milliseconds left until the deadline of the timer `reference`,
    /// or `None` if no such timer is armed. The timer stays armed.
    pub fn read_timer(&self, now: u64, reference: u64) -> (r: Option<u64>)
        requires
            self.wf(),
        ensures
            r is Some <==> armed(self.wheel.timers@, reference),
            r is Some ==> {
                let i = timer_index(self.wheel.timers@, reference, 0);
                &&& 0 <= i < self.wheel.timers@.len()
                &&& self.wheel.timers@[i].reference == reference
                &&& r->Some_0 == remaining(self.wheel.timers@[i].deadline, now)
            },
    {
        self.wheel.left(now, reference)
    }

    /// Cancels the timer with this reference. Returns the milliseconds that
    /// were left until its deadline, or nothing if no such timer is armed:
    /// it has fired, or was cancelled before, or never was. Once cancelled,
    /// the timer never fires.
    pub fn cancel_timer(&mut self, now: u64, reference: u64) -> (r: Option<u64>)
        requires
            old(self).wf(),
        ensures
            final(self).wf(),
            *final(self) == (Scheduler { wheel: final(self).wheel, ..*old(self) }),
            r is Some <==> armed(old(self).wheel.timers@, reference),
            r is Some ==> {
                let i = timer_index(old(self).wheel.timers@, reference, 0);
                &&& 0 <= i < old(self).wheel.timers@.len()
                &&& old(self).wheel.timers@[i].reference == reference
                &&& r->Some_0 == remaining(old(self).wheel.timers@[i].deadline, now)
                &&& final(self).wheel.timers@ == old(self).wheel.timers@.remove(i)
            },
            r is None ==> final(self).wheel.timers@ == old(self).wheel.timers@,
            !armed(final(self).wheel.timers@, reference),
    {
        let r = self.wheel.cancel(now, reference);
        proof {
            assert forall|i: int| 0 <= i < self.processes@.len() implies #[trigger] self.slot_ok(
                i,
            ) by {
                assert(old(self).slot_ok(i));
            }
            assert forall|k: int| 0 <= k < self.run_queue@.len() implies #[trigger] self.entry_ok(
                k,
            ) by {
                assert(old(self).entry_ok(k));
            }
            assert forall|i: int| 0 <= i < self.wheel.timers@.len() implies #[trigger] self.timer_ok(
                i,
            ) by {
                if r is Some {
                    let x = timer_index(old(self).wheel.timers@, reference, 0);
                    if i < x {
                        assert(old(self).timer_ok(i));
                    } else {
                        assert(old(self).timer_ok(i + 1));
                    }
                } else {
                    assert(old(self).timer_ok(i));
                }
            }
        }
        r
    }

    /// Fires the timers that are due at `now`, in the order in which they
    /// were started: each one's message goes to its process, which is made
    /// runnable if it was waiting, and the timer is armed no more. The
    /// message of a timer whose process is over, or is none, is dropped.
    pub fn timeout(&mut self, now: u64)
        requires
            old(self).wf(),
            old(self).running is None,
        ensures
            final(self).wf(),
            final(self).running is None,
            *final(self) == (Scheduler {
                wheel: final(self).wheel,
                processes: final(self).processes,
                run_queue: final(self).run_queue,
                ..*old(self)
            }),
            final(self).wheel.timers@ == pending(
                old(self).wheel.timers@,
                now,
                old(self).wheel.timers@.len() as int,
            ),
            final(self).delivered_from(
                old(self),
                timer_notices(
                    due(old(self).wheel.timers@, now, old(self).wheel.timers@.len() as int),
                ),
            ),
    {
        let ghost timers = old(self).wheel.timers@;
        let fired = self.wheel.expire(now);
        proof {
            crate::timer::lemma_due(timers, now, timers.len() as int);
            crate::timer::lemma_pending(timers, now, timers.len() as int);
            assert forall|i: int| 0 <= i < self.processes@.len() implies #[trigger] self.slot_ok(
                i,
            ) by {
                assert(old(self).slot_ok(i));
            }
            assert forall|k: int| 0 <= k < self.run_queue@.len() implies #[trigger] self.entry_ok(
                k,
            ) by {
                assert(old(self).entry_ok(k));
            }
            assert forall|i: int| 0 <= i < self.wheel.timers@.len() implies #[trigger] self.timer_ok(
                i,
            ) by {
                let x = choose|x: int|
                    0 <= x < timers.len() && #[trigger] timers[x] == self.wheel.timers@[i];
                assert(old(self).timer_ok(x));
            }
            assert forall|i: int| 0 <= i < fired@.len() implies names_extend(
                self.atoms@,
                (#[trigger] fired@[i]).message.heap.names@,
            ) by {
                let x = choose|x: int| 0 <= x < timers.len() && #[trigger] timers[x] == fired@[i];
                assert(old(self).timer_ok(x));
            }
        }
        let batch = to_deliveries(fired);
        let ghost emptied = *self;
        proof {
            assert forall|x: int| 0 <= x < batch@.len() implies (#[trigger] batch@[x]).message.wf()
                && names_extend(self.atoms@, batch@[x].message.heap.names@) by {
                assert(batch@[x].message == fired@[x].message);
            }
        }
        self.fire(batch);
        proof {
            assert forall|i: int| 0 <= i < old(self).processes@.len() implies #[trigger] emptied.processes@[i]
                == old(self).processes@[i] by {}
        }
    }

    /// True if `self` is `earlier` after the deliveries of `batch` were made
    /// in their order: each message is at the end of the mailbox of its
    /// process, the processes that waited and got a message are runnable
    /// and at the end of the run queue, and nothing else has changed in the
    /// processes. The message for a process that is over, or is none, is
    /// dropped.
    pub open spec fn delivered_from(&self, earlier: &Scheduler, batch: Seq<(usize, Value)>) -> bool {
        &&& self.processes@.len() == earlier.processes@.len()
        &&& forall|i: int|
            0 <= i < earlier.processes@.len() ==> (#[trigger] self.processes@[i]) is Some
                && earlier.processes@[i] is Some && carried(
                earlier.processes@[i]->Some_0,
                self.processes@[i]->Some_0,
                addressed(batch, i, batch.len() as int),
            )
        &&& self.run_queue@ == earlier.run_queue@ + woken(
            earlier.processes@,
            batch,
            batch.len() as int,
        )
    }

    /// Makes the deliveries of `batch` in their order.
    pub fn fire(&mut self, batch: Vec<Delivery>)
        requires
            old(self).wf(),
            old(self).running is None,
            forall|x: int|
                0 <= x < batch@.len() ==> (#[trigger] batch@[x]).message.wf() && names_extend(
                    old(self).atoms@,
                    batch@[x].message.heap.names@,
                ),
        ensures
            final(self).wf(),
            *final(self) == (Scheduler {
                processes: final(self).processes,
                run_queue: final(self).run_queue,
                ..*old(self)
            }),
            final(self).delivered_from(old(self), notices_of(batch@)),
    {
        let ghost all = notices_of(batch@);
        let ghost messages = batch@;
        let n: usize = batch.len();
        let _count: usize = self.processes.len();
        proof {
            assert forall|i: int| 0 <= i < self.processes@.len() implies (
            #[trigger] self.processes@[i]) is Some by {
                if self.processes@[i] is None {
                    assert(old(self).processes@[i] is None);
                }
            }
            assert forall|i: int| 0 <= i < self.processes@.len() implies carried(
                old(self).processes@[i]->Some_0,
                (#[trigger] self.processes@[i])->Some_0,
                addressed(all, i, 0),
            ) by {
                let p = old(self).processes@[i]->Some_0;
                assert(p.mailbox_values() + Seq::<Value>::empty() =~= p.mailbox_values());
            }
            assert(self.run_queue@ =~= old(self).run_queue@ + woken(old(self).processes@, all, 0));
        }
        let mut rest = reversed(batch);
        let mut k: usize = 0;
        while k < n
            invariant
                0 <= k <= n,
                n == all.len(),
                old(self).wf(),
                self.wf(),
                self.running is None,
                *self == (Scheduler {
                    processes: self.processes,
                    run_queue: self.run_queue,
                    ..*old(self)
                }),
                self.processes@.len() == old(self).processes@.len(),
                rest@.len() == n - k,
                all == notices_of(messages),
                forall|x: int| 0 <= x < rest@.len() ==> #[trigger] rest@[x] == messages[n - 1 - x],
                forall|x: int|
                    0 <= x < n ==> (#[trigger] messages[x]).message.wf() && names_extend(
                        self.atoms@,
                        messages[x].message.heap.names@,
                    ),
                forall|i: int|
                    0 <= i < self.processes@.len() ==> (#[trigger] self.processes@[i]) is Some
                        && old(self).processes@[i] is Some && carried(
                        old(self).processes@[i]->Some_0,
                        self.processes@[i]->Some_0,
                        addressed(all, i, k as int),
                    ),
                self.run_queue@ == old(self).run_queue@ + woken(
                    old(self).processes@,
                    all,
                    k as int,
                ),
            decreases n - k,
        {
            let delivery = match rest.pop() {
                Some(delivery) => delivery,
                None => {
                    proof {
                        assert(false);
                    }
                    return ;
                },
            };
            let ghost before = *self;
            proof {
                assert(delivery == messages[k as int]);
                assert(all[k as int] == (delivery.destination, delivery.message.value()));
            }
            let destination: usize = delivery.destination;
            let ghost value = delivery.message.value();
            let delivered = self.deliver(destination, delivery.message);
            proof {
                assert forall|i: int| 0 <= i < self.processes@.len() implies (
                #[trigger] self.processes@[i]) is Some && carried(
                    old(self).processes@[i]->Some_0,
                    self.processes@[i]->Some_0,
                    addressed(all, i, k + 1),
                ) by {
                    let first = old(self).processes@[i]->Some_0;
                    let middle = before.processes@[i]->Some_0;
                    assert(before.processes@[i] is Some);
                    assert(carried(first, middle, addressed(all, i, k as int)));
                    if i == destination {
                        if delivered {
                            let last = self.processes@[i]->Some_0;
                            assert(sent_to(middle, last, delivery.message));
                            assert(last.mailbox_values() =~= middle.mailbox_values().push(value));
                            assert(!(middle.status is Exited));
                            assert(!(first.status is Exited));
                            assert(first.mailbox_values() + addressed(all, i, k as int).push(value)
                                =~= (first.mailbox_values() + addressed(all, i, k as int)).push(
                                value,
                            ));
                        } else {
                            assert(middle.status is Exited);
                            assert(first.status is Exited);
                        }
                    } else {
                        assert(self.processes@[i] == before.processes@[i]);
                    }
                }
                if destination < self.processes@.len() {
                    let first = old(self).processes@[destination as int]->Some_0;
                    let middle = before.processes@[destination as int]->Some_0;
                    assert(before.processes@[destination as int] is Some);
                    assert(carried(first, middle, addressed(all, destination as int, k as int)));
                    assert(old(self).slot_ok(destination as int));
                }
                assert(self.run_queue@ =~= old(self).run_queue@ + woken(
                    old(self).processes@,
                    all,
                    k + 1,
                ));
            }
            k += 1;
        }
    }
}

/// Words that the arguments of a new process take in its heap: those of
/// their copies, and one on the stack for each.
pub open spec fn arguments_words(values: Seq<Value>) -> nat {
    crate::copy::values_words(values, values.len() as int) + values.len()
}

/// The greater of the heap size that was asked for and the words that the
/// arguments take.
pub open spec fn needed_heap(minimum_heap_size: usize, values: Seq<Value>) -> nat {
    if arguments_words(values) > minimum_heap_size {
        arguments_words(values)
    } else {
        minimum_heap_size as nat
    }
}

impl Scheduler {
    /// Makes a process that has `frame` to run, on top of the out-of-code
    /// frame, with copies of `arguments` on its operand stack, the first
    /// argument on top, and puts it at the end of the run queue. Returns
    /// its identifier. Fails if the heap size that `next_heap_size` gives
    /// for the greater of `minimum_heap_size` and the words that the
    /// arguments take is more than `MAX_HEAP_SIZE`.
    pub fn spawn_with_arguments(
        &mut self,
        parent: Option<usize>,
        frame: Frame,
        source: &crate::heap::Heap,
        arguments: &Vec<Term>,
        minimum_heap_size: usize,
    ) -> (r: Result<usize, Alloc>)
        requires
            old(self).wf(),
            source.wf(),
            source.contains_all(arguments@),
            names_extend(old(self).atoms@, source.names@),
        ensures
            final(self).wf(),
            r is Ok <==> needed_heap(minimum_heap_size, source.values_of(arguments@)) <= usize::MAX
                && doubled_to(
                MIN_HEAP_SIZE as nat,
                needed_heap(minimum_heap_size, source.values_of(arguments@)),
            ) <= MAX_HEAP_SIZE,
            r is Err ==> *final(self) == *old(self),
            r is Ok ==> {
                &&& r->Ok_0 == old(self).processes@.len()
                &&& *final(self) == (Scheduler {
                    processes: final(self).processes,
                    run_queue: final(self).run_queue,
                    ..*old(self)
                })
                &&& final(self).processes@.len() == old(self).processes@.len() + 1
                &&& forall|i: int|
                    0 <= i < old(self).processes@.len() ==> #[trigger] final(self).processes@[i]
                        == old(self).processes@[i]
                &&& final(self).run_queue@ == old(self).run_queue@.push(r->Ok_0)
                &&& final(self).processes@[r->Ok_0 as int] is Some
                &&& ({
                    let process = final(self).processes@[r->Ok_0 as int]->Some_0;
                    &&& process.pid == r->Ok_0
                    &&& process.parent == parent
                    &&& process.initial == frame.module_function_arity
                    &&& process.status == Status::Runnable
                    &&& process.frames@ == seq![out_of_code(), frame]
                    &&& process.stack_values() == source.values_of(arguments@).reverse()
                    &&& process.mailbox@.len() == 0
                    &&& process.reductions == 0
                    &&& process.heap.used + process.heap.reserved == arguments_words(
                        source.values_of(arguments@),
                    )
                    &&& process.heap.capacity == doubled_to(
                        MIN_HEAP_SIZE as nat,
                        needed_heap(minimum_heap_size, source.values_of(arguments@)),
                    )
                    &&& process.max_heap_size == MAX_HEAP_SIZE
                })
            },
    {
        let ghost values = source.values_of(arguments@);
        let mut fragment = crate::heap::Heap::fragment_of(source);
        let copies = match fragment.copy_all_from(source, arguments) {
            Ok(copies) => copies,
            Err(e) => {
                return Err(e);
            },
        };
        let n: usize = arguments.len();
        if n > usize::MAX - fragment.used {
            return Err(Alloc);
        }
        let words: usize = fragment.used + n;
        let needed: usize = if words > minimum_heap_size {
            words
        } else {
            minimum_heap_size
        };
        let heap_size: usize = next_heap_size(needed);
        if heap_size > MAX_HEAP_SIZE {
            return Err(Alloc);
        }
        let pid: usize = self.processes.len();
        let mut process = Process::new(
            pid,
            parent,
            frame.module_function_arity,
            heap_size,
            MAX_HEAP_SIZE,
        );
        let ghost filled = fragment;
        fragment.capacity = heap_size;
        process.heap = fragment;
        proof {
            assert(process.heap.objects@ == filled.objects@);
            assert forall|i: int| 0 <= i < copies@.len() implies process.heap.contains(
                #[trigger] copies@[i],
            ) by {
                assert(filled.contains(copies@[i]));
            }
            assert(process.heap.values_of(copies@) =~= filled.values_of(copies@));
            assert(process.wf());
        }
        process.adopt(&self.atoms);
        let mut frames: Vec<FrameWithArguments> = Vec::new();
        frames.push(frame.with_arguments(false, copies.as_slice()));
        proof {
            reveal_with_fuel(crate::process::count_arguments, 3);
            reveal_with_fuel(crate::process::frames_with, 3);
            reveal_with_fuel(crate::process::stack_with_arguments, 3);
            assert(frames@[0].arguments@ == copies@);
            assert forall|i: int| 0 <= i < copies@.len() implies process.heap.contains(
                #[trigger] copies@[i],
            ) by {
                assert(filled.contains(copies@[i]));
            }
        }
        let ghost adopted = process;
        let made = runnable(&mut process, frames);
        proof {
            assert(made is Ok);
            assert(process.frames@ =~= seq![out_of_code(), frame]);
            assert(process.stack@ =~= copies@.reverse());
            assert(process.stack_values() =~= values.reverse()) by {
                assert forall|i: int| 0 <= i < copies@.len() implies process.heap.value(
                    #[trigger] process.stack@[i],
                ) == values.reverse()[i] by {
                    let j = copies@.len() - 1 - i;
                    assert(process.stack@[i] == copies@[j]);
                    assert(filled.contains(copies@[j]));
                    assert(filled.values_of(copies@)[j] == values[j]);
                }
            }
        }
        self.enroll(process)
    }

    /// Puts a new process in its place, the first free one, and at the end
    /// of the run queue.
    pub fn enroll(&mut self, process: Process) -> (r: Result<usize, Alloc>)
        requires
            old(self).wf(),
            process.wf(),
            process.known_to(old(self).atoms@),
            process.status == Status::Runnable,
            process.pid == old(self).processes@.len(),
        ensures
            final(self).wf(),
            r == Ok::<usize, Alloc>(process.pid),
            *final(self) == (Scheduler {
                processes: final(self).processes,
                run_queue: final(self).run_queue,
                ..*old(self)
            }),
            final(self).processes@ == old(self).processes@.push(Some(process)),
            final(self).run_queue@ == old(self).run_queue@.push(process.pid),
    {
        let pid: usize = process.pid;
        self.processes.push(Some(process));
        self.run_queue.push_back(pid);
        proof {
            assert forall|i: int| 0 <= i < self.processes@.len() implies #[trigger] self.slot_ok(
                i,
            ) by {
                if i < pid {
                    assert(old(self).slot_ok(i));
                    if self.processes@[i] is Some && self.processes@[i]->Some_0.status
                        == Status::Runnable {
                        let k = choose|k: int|
                            0 <= k < old(self).run_queue@.len() && #[trigger] old(
                                self,
                            ).run_queue@[k] == i as usize;
                        assert(self.run_queue@[k] == i as usize);
                    }
                } else {
                    assert(self.run_queue@[old(self).run_queue@.len() as int] == pid);
                }
            }
            assert forall|k: int| 0 <= k < self.run_queue@.len() implies #[trigger] self.entry_ok(
                k,
            ) by {
                if k < old(self).run_queue@.len() {
                    assert(old(self).entry_ok(k));
                } else {
                    assert forall|j: int| 0 <= j < k implies self.run_queue@[j]
                        != self.run_queue@[k] by {
                        assert(old(self).entry_ok(j));
                    }
                }
            }
            assert forall|i: int| 0 <= i < self.wheel.timers@.len() implies #[trigger] self.timer_ok(
                i,
            ) by {
                assert(old(self).timer_ok(i));
            }
        }
        Ok(pid)
    }
}

/// The index of a name is within the entries.
pub proof fn lemma_name_index(registered: Seq<(usize, usize)>, name: usize, from: int)
    requires
        0 <= from <= registered.len(),
    ensures
        from <= name_index(registered, name, from) <= registered.len(),
    decreases registered.len() - from,
{
    if from < registered.len() && registered[from].0 != name {
        lemma_name_index(registered, name, from + 1);
    }
}

/// The index of a process is within the entries.
pub proof fn lemma_pid_index(registered: Seq<(usize, usize)>, pid: usize, from: int)
    requires
        0 <= from <= registered.len(),
    ensures
        from <= pid_index(registered, pid, from) <= registered.len(),
    decreases registered.len() - from,
{
    if from < registered.len() && registered[from].1 != pid {
        lemma_pid_index(registered, pid, from + 1);
    }
}

impl Scheduler {
    /// The process that is registered under `name`, if one is.
    pub fn whereis(&self, name: usize) -> (r: Option<usize>)
        ensures
            r == (if name_index(self.registered@, name, 0) < self.registered@.len() {
                Some(self.registered@[name_index(self.registered@, name, 0)].1)
            } else {
                None
            }),
    {
        let mut i: usize = 0;
        while i < self.registered.len()
            invariant
                0 <= i <= self.registered@.len(),
                name_index(self.registered@, name, 0) == name_index(
                    self.registered@,
                    name,
                    i as int,
                ),
            decreases self.registered@.len() - i,
        {
            if self.registered[i].0 == name {
                return Some(self.registered[i].1);
            }
            i += 1;
        }
        None
    }

    /// The name that the process at `pid` is registered under, if it has
    /// one.
    pub fn registered_name(&self, pid: usize) -> (r: Option<usize>)
        ensures
            r == (if pid_index(self.registered@, pid, 0) < self.registered@.len() {
                Some(self.registered@[pid_index(self.registered@, pid, 0)].0)
            } else {
                None
            }),
    {
        let mut i: usize = 0;
        while i < self.registered.len()
            invariant
                0 <= i <= self.registered@.len(),
                pid_index(self.registered@, pid, 0) == pid_index(self.registered@, pid, i as int),
            decreases self.registered@.len() - i,
        {
            if self.registered[i].1 == pid {
                return Some(self.registered[i].0);
            }
            i += 1;
        }
        None
    }

    /// Registers the process at `pid` under `name`. Returns false, and
    /// changes nothing, if the name is taken or the process has a name.
    pub fn register(&mut self, name: usize, pid: usize) -> (r: bool)
        ensures
            r == (name < old(self).atoms@.len() && name_index(old(self).registered@, name, 0) == old(
                self,
            ).registered@.len() && pid_index(old(self).registered@, pid, 0) == old(
                self,
            ).registered@.len()),
            r ==> *final(self) == (Scheduler { registered: final(self).registered, ..*old(self) })
                && final(self).registered@ == old(self).registered@.push((name, pid)),
            !r ==> *final(self) == *old(self),
            old(self).wf() ==> final(self).wf(),
    {
        proof {
            lemma_name_index(self.registered@, name, 0);
            lemma_pid_index(self.registered@, pid, 0);
        }
        if name >= self.atoms.len() || self.whereis(name).is_some() || self.registered_name(
            pid,
        ).is_some() {
            return false;
        }
        self.registered.push((name, pid));
        proof {
            if old(self).wf() {
                assert forall|i: int| 0 <= i < self.registered@.len() implies (
                #[trigger] self.registered@[i]).0 < self.atoms@.len() by {
                    if i < old(self).registered@.len() {
                        assert(old(self).registered@[i].0 < self.atoms@.len());
                    }
                }
                assert forall|i: int|
                    0 <= i < self.processes@.len() implies #[trigger] self.slot_ok(i) by {
                    assert(old(self).slot_ok(i));
                }
                assert forall|k: int|
                    0 <= k < self.run_queue@.len() implies #[trigger] self.entry_ok(k) by {
                    assert(old(self).entry_ok(k));
                }
                assert forall|i: int|
                    0 <= i < self.wheel.timers@.len() implies #[trigger] self.timer_ok(i) by {
                    assert(old(self).timer_ok(i));
                }
            }
        }
        true
    }

    /// Takes the name off whatever process is registered under it. Returns
    /// false if none is.
    pub fn unregister(&mut self, name: usize) -> (r: bool)
        ensures
            r == (name_index(old(self).registered@, name, 0) < old(self).registered@.len()),
            r ==> *final(self) == (Scheduler { registered: final(self).registered, ..*old(self) })
                && final(self).registered@ == old(self).registered@.remove(
                name_index(old(self).registered@, name, 0),
            ),
            !r ==> *final(self) == *old(self),
            old(self).wf() ==> final(self).wf(),
    {
        proof {
            lemma_name_index(self.registered@, name, 0);
        }
        let mut i: usize = 0;
        while i < self.registered.len()
            invariant
                0 <= i <= self.registered@.len(),
                *self == *old(self),
                name_index(self.registered@, name, 0) == name_index(
                    self.registered@,
                    name,
                    i as int,
                ),
            decreases self.registered@.len() - i,
        {
            if self.registered[i].0 == name {
                let _entry = self.registered.remove(i);
                proof {
                    if old(self).wf() {
                        assert forall|x: int| 0 <= x < self.registered@.len() implies (
                        #[trigger] self.registered@[x]).0 < self.atoms@.len() by {
                            if x < i {
                                assert(old(self).registered@[x].0 < self.atoms@.len());
                            } else {
                                assert(old(self).registered@[x + 1].0 < self.atoms@.len());
                            }
                        }
                        assert forall|x: int|
                            0 <= x < self.processes@.len() implies #[trigger] self.slot_ok(x) by {
                            assert(old(self).slot_ok(x));
                        }
                        assert forall|k: int|
                            0 <= k < self.run_queue@.len() implies #[trigger] self.entry_ok(k) by {
                            assert(old(self).entry_ok(k));
                        }
                        assert forall|x: int|
                            0 <= x < self.wheel.timers@.len() implies #[trigger] self.timer_ok(
                            x,
                        ) by {
                            assert(old(self).timer_ok(x));
                        }
                    }
                }
                return true;
            }
            i += 1;
        }
        false
    }
}

/// The atom that names the reason of an end.
pub open spec fn reason_atom(reason: ExitReason) -> usize {
    match reason {
        ExitReason::Normal => crate::atom::ATOM_NORMAL,
        ExitReason::Error(Exception::Alloc) => crate::atom::ATOM_OUT_OF_MEMORY,
        ExitReason::Error(Exception::Badarith) => crate::atom::ATOM_BADARITH,
        ExitReason::Error(Exception::Badmap) => crate::atom::ATOM_BADMAP,
        ExitReason::Error(_) => crate::atom::ATOM_BADARG,
    }
}

/// The atom that names the reason of an end.
pub fn atom_of_reason(reason: ExitReason) -> (r: usize)
    ensures
        r == reason_atom(reason),
        r < crate::atom::PREDEFINED_ATOMS,
{
    match reason {
        ExitReason::Normal => crate::atom::ATOM_NORMAL,
        ExitReason::Error(Exception::Alloc) => crate::atom::ATOM_OUT_OF_MEMORY,
        ExitReason::Error(Exception::Badarith) => crate::atom::ATOM_BADARITH,
        ExitReason::Error(Exception::Badmap) => crate::atom::ATOM_BADMAP,
        ExitReason::Error(_) => crate::atom::ATOM_BADARG,
    }
}

/// What the first `upto` monitors tell of the end `exit`: for each monitor
/// of the process that is over, in the order of the monitors, the message
/// that says so, for the process that monitors.
pub open spec fn down_notices(monitors: Seq<Monitor>, exit: Exit, upto: int) -> Seq<(usize, Value)>
    decreases upto,
{
    if upto <= 0 || upto > monitors.len() {
        Seq::empty()
    } else if monitors[upto - 1].watched == exit.pid {
        down_notices(monitors, exit, upto - 1).push(
            (
                monitors[upto - 1].watcher,
                crate::message::down_value(
                    monitors[upto - 1].reference,
                    exit.pid,
                    reason_atom(exit.reason),
                ),
            ),
        )
    } else {
        down_notices(monitors, exit, upto - 1)
    }
}

/// Of the first `upto` monitors, those that the end of the process at `pid`
/// leaves: the process neither monitors nor is monitored.
pub open spec fn monitors_left(monitors: Seq<Monitor>, pid: usize, upto: int) -> Seq<Monitor>
    decreases upto,
{
    if upto <= 0 || upto > monitors.len() {
        Seq::empty()
    } else if monitors[upto - 1].watched == pid || monitors[upto - 1].watcher == pid {
        monitors_left(monitors, pid, upto - 1)
    } else {
        monitors_left(monitors, pid, upto - 1).push(monitors[upto - 1])
    }
}

/// The index of the first monitor at or after `from` with this reference,
/// or the number of monitors if there is none.
pub open spec fn monitor_index(monitors: Seq<Monitor>, reference: u64, from: int) -> int
    decreases monitors.len() - from,
{
    if from < 0 || from >= monitors.len() {
        monitors.len() as int
    } else if monitors[from].reference == reference {
        from
    } else {
        monitor_index(monitors, reference, from + 1)
    }
}

/// The index of a monitor is within the monitors.
pub proof fn lemma_monitor_index(monitors: Seq<Monitor>, reference: u64, from: int)
    requires
        0 <= from <= monitors.len(),
    ensures
        from <= monitor_index(monitors, reference, from) <= monitors.len(),
    decreases monitors.len() - from,
{
    if from < monitors.len() && monitors[from].reference != reference {
        lemma_monitor_index(monitors, reference, from + 1);
    }
}

impl Scheduler {
    /// True if the process at `pid` is neither over nor none.
    pub open spec fn alive(&self, pid: usize) -> bool {
        receiving(self.processes@, pid) || self.running == Some(pid)
    }

    /// Lets the process `watcher` know of the end of the process `watched`,
    /// when it comes. Returns the reference of the monitor, or nothing if
    /// the process to monitor is over or none.
    pub fn monitor(&mut self, watcher: usize, watched: usize) -> (r: Option<u64>)
        requires
            old(self).wf(),
        ensures
            final(self).wf(),
            r is Some <==> old(self).alive(watched) && old(self).next_reference < u64::MAX,
            r is None ==> *final(self) == *old(self),
            r is Some ==> r->Some_0 == old(self).next_reference && *final(self) == (Scheduler {
                monitors: final(self).monitors,
                next_reference: (old(self).next_reference + 1) as u64,
                ..*old(self)
            }) && final(self).monitors@ == old(self).monitors@.push(
                Monitor { reference: old(self).next_reference, watcher, watched },
            ),
    {
        let alive: bool = match self.status(watched) {
            Some(Status::Exited(_)) => false,
            Some(_) => true,
            None => false,
        };
        if !alive || self.next_reference == u64::MAX {
            return None;
        }
        let reference: u64 = self.next_reference;
        self.monitors.push(Monitor { reference, watcher, watched });
        self.next_reference = reference + 1;
        proof {
            assert forall|i: int| 0 <= i < self.processes@.len() implies #[trigger] self.slot_ok(
                i,
            ) by {
                assert(old(self).slot_ok(i));
            }
            assert forall|k: int| 0 <= k < self.run_queue@.len() implies #[trigger] self.entry_ok(
                k,
            ) by {
                assert(old(self).entry_ok(k));
            }
            assert forall|i: int| 0 <= i < self.wheel.timers@.len() implies #[trigger] self.timer_ok(
                i,
            ) by {
                assert(old(self).timer_ok(i));
            }
        }
        Some(reference)
    }

    /// Takes the monitor with this reference away. Returns false if there
    /// is none.
    pub fn demonitor(&mut self, reference: u64) -> (r: bool)
        requires
            old(self).wf(),
        ensures
            final(self).wf(),
            r == (monitor_index(old(self).monitors@, reference, 0) < old(self).monitors@.len()),
            r ==> *final(self) == (Scheduler { monitors: final(self).monitors, ..*old(self) })
                && final(self).monitors@ == old(self).monitors@.remove(
                monitor_index(old(self).monitors@, reference, 0),
            ),
            !r ==> *final(self) == *old(self),
    {
        proof {
            lemma_monitor_index(self.monitors@, reference, 0);
        }
        let mut i: usize = 0;
        while i < self.monitors.len()
            invariant
                0 <= i <= self.monitors@.len(),
                old(self).wf(),
                *self == *old(self),
                monitor_index(self.monitors@, reference, 0) == monitor_index(
                    self.monitors@,
                    reference,
                    i as int,
                ),
            decreases self.monitors@.len() - i,
        {
            if self.monitors[i].reference == reference {
                let _monitor = self.monitors.remove(i);
                proof {
                    assert forall|x: int|
                        0 <= x < self.processes@.len() implies #[trigger] self.slot_ok(x) by {
                        assert(old(self).slot_ok(x));
                    }
                    assert forall|k: int|
                        0 <= k < self.run_queue@.len() implies #[trigger] self.entry_ok(k) by {
                        assert(old(self).entry_ok(k));
                    }
                    assert forall|x: int|
                        0 <= x < self.wheel.timers@.len() implies #[trigger] self.timer_ok(x) by {
                        assert(old(self).timer_ok(x));
                    }
                }
                return true;
            }
            i += 1;
        }
        false
    }

    /// Tells of the oldest end that has not been told of: each process that
    /// monitors the process that is over gets the message that says so, in
    /// the order in which the monitors were made, and is made runnable if it
    /// was waiting. The monitors of the process, and those on it, are no
    /// more. Returns false, and changes nothing, if there is no such end.
    pub fn notify(&mut self) -> (r: bool)
        requires
            old(self).wf(),
            old(self).running is None,
        ensures
            final(self).wf(),
            r == (old(self).exits@.len() > 0),
            !r ==> *final(self) == *old(self),
            r ==> {
                let exit = old(self).exits@[0];
                &&& *final(self) == (Scheduler {
                    exits: final(self).exits,
                    monitors: final(self).monitors,
                    processes: final(self).processes,
                    run_queue: final(self).run_queue,
                    ..*old(self)
                })
                &&& final(self).exits@ == old(self).exits@.drop_first()
                &&& final(self).monitors@ == monitors_left(
                    old(self).monitors@,
                    exit.pid,
                    old(self).monitors@.len() as int,
                )
                &&& final(self).delivered_from(
                    old(self),
                    down_notices(old(self).monitors@, exit, old(self).monitors@.len() as int),
                )
            },
    {
        if self.exits.len() == 0 {
            return false;
        }
        let exit: Exit = match self.exits.pop_front() {
            Some(exit) => exit,
            None => Exit { pid: 0, reason: ExitReason::Normal },
        };
        let reason: usize = atom_of_reason(exit.reason);
        let ghost monitors = self.monitors@;
        let mut batch: Vec<Delivery> = Vec::new();
        let mut left: Vec<Monitor> = Vec::new();
        let mut i: usize = 0;
        proof {
            assert(notices_of(batch@) =~= down_notices(monitors, exit, 0));
        }
        while i < self.monitors.len()
            invariant
                0 <= i <= self.monitors@.len(),
                self.monitors@ == monitors,
                self.atoms.wf(),
                reason == reason_atom(exit.reason),
                reason < crate::atom::PREDEFINED_ATOMS,
                notices_of(batch@) == down_notices(monitors, exit, i as int),
                left@ == monitors_left(monitors, exit.pid, i as int),
                forall|x: int|
                    0 <= x < batch@.len() ==> (#[trigger] batch@[x]).message.wf() && names_extend(
                        self.atoms@,
                        batch@[x].message.heap.names@,
                    ),
            decreases self.monitors@.len() - i,
        {
            let monitor: Monitor = self.monitors[i];
            if monitor.watched == exit.pid {
                let ghost before = batch@;
                let message = Message::down(monitor.reference, exit.pid, reason);
                batch.push(Delivery { destination: monitor.watcher, message });
                proof {
                    assert(notices_of(batch@) =~= notices_of(before).push(
                        (
                            monitor.watcher,
                            crate::message::down_value(monitor.reference, exit.pid, reason),
                        ),
                    ));
                    assert forall|x: int| 0 <= x < batch@.len() implies (
                    #[trigger] batch@[x]).message.wf() && names_extend(
                        self.atoms@,
                        batch@[x].message.heap.names@,
                    ) by {
                        if x < before.len() {
                            assert(batch@[x] == before[x]);
                        }
                    }
                }
            } else if monitor.watcher != exit.pid {
                left.push(monitor);
            }
            i += 1;
        }
        self.monitors = left;
        let ghost settled = *self;
        proof {
            assert forall|x: int| 0 <= x < self.processes@.len() implies #[trigger] self.slot_ok(
                x,
            ) by {
                assert(old(self).slot_ok(x));
            }
            assert forall|k: int| 0 <= k < self.run_queue@.len() implies #[trigger] self.entry_ok(
                k,
            ) by {
                assert(old(self).entry_ok(k));
            }
            assert forall|x: int| 0 <= x < self.wheel.timers@.len() implies #[trigger] self.timer_ok(
                x,
            ) by {
                assert(old(self).timer_ok(x));
            }
        }
        self.fire(batch);
        proof {
            assert forall|x: int| 0 <= x < old(self).processes@.len() implies #[trigger] settled.processes@[x]
                == old(self).processes@[x] by {}
        }
        true
    }
}

/// The index of the first entry of the queue at or after `from` that is
/// `pid`, or the length of the queue if there is none.
pub open spec fn queue_index(queue: Seq<usize>, pid: usize, from: int) -> int
    decreases queue.len() - from,
{
    if from < 0 || from >= queue.len() {
        queue.len() as int
    } else if queue[from] == pid {
        from
    } else {
        queue_index(queue, pid, from + 1)
    }
}

/// The index found is the first at which the process stands.
pub proof fn lemma_queue_index(queue: Seq<usize>, pid: usize, from: int)
    requires
        0 <= from <= queue.len(),
    ensures
        from <= queue_index(queue, pid, from) <= queue.len(),
        queue_index(queue, pid, from) < queue.len() ==> queue[queue_index(queue, pid, from)]
            == pid,
        forall|k: int| from <= k < queue_index(queue, pid, from) ==> queue[k] != pid,
    decreases queue.len() - from,
{
    if from < queue.len() && queue[from] != pid {
        lemma_queue_index(queue, pid, from + 1);
    }
}

/// The queue without its first entry that is `pid`.
pub open spec fn without(queue: Seq<usize>, pid: usize) -> Seq<usize> {
    if queue_index(queue, pid, 0) < queue.len() {
        queue.remove(queue_index(queue, pid, 0))
    } else {
        queue
    }
}

/// The queue without the first `upto` of these processes.
pub open spec fn without_each(queue: Seq<usize>, pids: Seq<usize>, upto: int) -> Seq<usize>
    decreases upto,
{
    if upto <= 0 || upto > pids.len() {
        queue
    } else {
        without(without_each(queue, pids, upto - 1), pids[upto - 1])
    }
}

/// The process at the other end of a link, if `pid` is at one end.
pub open spec fn partner(link: (usize, usize), pid: usize) -> Option<usize> {
    if link.0 == pid {
        Some(link.1)
    } else if link.1 == pid {
        Some(link.0)
    } else {
        None
    }
}

/// The processes that the first `upto` links take down with the process at
/// `pid`, in the order of the links: those at the other end of a link that
/// can still end, each once.
pub open spec fn casualties(
    processes: Seq<Option<Process>>,
    links: Seq<(usize, usize)>,
    pid: usize,
    upto: int,
) -> Seq<usize>
    decreases upto,
{
    if upto <= 0 || upto > links.len() {
        Seq::empty()
    } else {
        let before = casualties(processes, links, pid, upto - 1);
        match partner(links[upto - 1], pid) {
            Some(other) => if receiving(processes, other) && !before.contains(other) {
                before.push(other)
            } else {
                before
            },
            None => before,
        }
    }
}

/// Of the first `upto` links, those that have no end at `pid`.
pub open spec fn links_left(links: Seq<(usize, usize)>, pid: usize, upto: int) -> Seq<
    (usize, usize),
>
    decreases upto,
{
    if upto <= 0 || upto > links.len() {
        Seq::empty()
    } else if partner(links[upto - 1], pid) is Some {
        links_left(links, pid, upto - 1)
    } else {
        links_left(links, pid, upto - 1).push(links[upto - 1])
    }
}

/// The end of each of the processes, for one reason.
pub open spec fn ends_of(pids: Seq<usize>, reason: ExitReason) -> Seq<Exit> {
    Seq::new(pids.len(), |i: int| (Exit { pid: pids[i], reason }))
}

/// True if `after` is `before` after it ended for `reason`: it is over, its
/// heap is released, and with it its stacks, its mailbox and its
/// dictionary.
pub open spec fn ended(before: Process, after: Process, reason: ExitReason) -> bool {
    &&& after.status == Status::Exited(reason)
    &&& after.pid == before.pid
    &&& after.parent == before.parent
    &&& after.initial == before.initial
    &&& after.max_heap_size == before.max_heap_size
    &&& after.heap.capacity == 0
    &&& after.heap.objects@.len() == 0
    &&& after.stack@.len() == 0
    &&& after.frames@.len() == 0
    &&& after.mailbox@.len() == 0
}

/// The index of the first link at or after `from` between the two
/// processes, or the number of links if there is none.
pub open spec fn link_index(links: Seq<(usize, usize)>, a: usize, b: usize, from: int) -> int
    decreases links.len() - from,
{
    if from < 0 || from >= links.len() {
        links.len() as int
    } else if links[from] == (a, b) || links[from] == (b, a) {
        from
    } else {
        link_index(links, a, b, from + 1)
    }
}

/// The index of a link is within the links.
pub proof fn lemma_link_index(links: Seq<(usize, usize)>, a: usize, b: usize, from: int)
    requires
        0 <= from <= links.len(),
    ensures
        from <= link_index(links, a, b, from) <= links.len(),
    decreases links.len() - from,
{
    if from < links.len() && !(links[from] == (a, b) || links[from] == (b, a)) {
        lemma_link_index(links, a, b, from + 1);
    }
}

impl Scheduler {
    /// The place of the link between the two processes among the links, or
    /// nothing if they are not linked.
    pub fn find_link(&self, a: usize, b: usize) -> (r: Option<usize>)
        ensures
            r == (if link_index(self.links@, a, b, 0) < self.links@.len() {
                Some(link_index(self.links@, a, b, 0) as usize)
            } else {
                None
            }),
    {
        let mut i: usize = 0;
        while i < self.links.len()
            invariant
                0 <= i <= self.links@.len(),
                link_index(self.links@, a, b, 0) == link_index(self.links@, a, b, i as int),
            decreases self.links@.len() - i,
        {
            let link = self.links[i];
            if (link.0 == a && link.1 == b) || (link.0 == b && link.1 == a) {
                return Some(i);
            }
            i += 1;
        }
        None
    }

    /// Links two processes: when one of them ends for an error, the other
    /// ends for it too. Returns false, and changes nothing, if they are one
    /// process, if one of them is over or none, or if they are linked.
    pub fn link(&mut self, a: usize, b: usize) -> (r: bool)
        requires
            old(self).wf(),
        ensures
            final(self).wf(),
            r == (a != b && old(self).alive(a) && old(self).alive(b) && link_index(
                old(self).links@,
                a,
                b,
                0,
            ) == old(self).links@.len()),
            r ==> *final(self) == (Scheduler { links: final(self).links, ..*old(self) })
                && final(self).links@ == old(self).links@.push((a, b)),
            !r ==> *final(self) == *old(self),
    {
        proof {
            lemma_link_index(self.links@, a, b, 0);
        }
        let first: bool = match self.status(a) {
            Some(Status::Exited(_)) => false,
            Some(_) => true,
            None => false,
        };
        let second: bool = match self.status(b) {
            Some(Status::Exited(_)) => false,
            Some(_) => true,
            None => false,
        };
        if a == b || !first || !second || self.find_link(a, b).is_some() {
            return false;
        }
        self.links.push((a, b));
        proof {
            assert forall|i: int| 0 <= i < self.processes@.len() implies #[trigger] self.slot_ok(
                i,
            ) by {
                assert(old(self).slot_ok(i));
            }
            assert forall|k: int| 0 <= k < self.run_queue@.len() implies #[trigger] self.entry_ok(
                k,
            ) by {
                assert(old(self).entry_ok(k));
            }
            assert forall|i: int| 0 <= i < self.wheel.timers@.len() implies #[trigger] self.timer_ok(
                i,
            ) by {
                assert(old(self).timer_ok(i));
            }
        }
        true
    }

    /// Takes the link between two processes away. Returns false if they are
    /// not linked.
    pub fn unlink(&mut self, a: usize, b: usize) -> (r: bool)
        requires
            old(self).wf(),
        ensures
            final(self).wf(),
            r == (link_index(old(self).links@, a, b, 0) < old(self).links@.len()),
            r ==> *final(self) == (Scheduler { links: final(self).links, ..*old(self) })
                && final(self).links@ == old(self).links@.remove(
                link_index(old(self).links@, a, b, 0),
            ),
            !r ==> *final(self) == *old(self),
    {
        proof {
            lemma_link_index(self.links@, a, b, 0);
        }
        let _count: usize = self.links.len();
        match self.find_link(a, b) {
            None => false,
            Some(i) => {
                let _link = self.links.remove(i);
                proof {
                    assert forall|x: int|
                        0 <= x < self.processes@.len() implies #[trigger] self.slot_ok(x) by {
                        assert(old(self).slot_ok(x));
                    }
                    assert forall|k: int|
                        0 <= k < self.run_queue@.len() implies #[trigger] self.entry_ok(k) by {
                        assert(old(self).entry_ok(k));
                    }
                    assert forall|x: int|
                        0 <= x < self.wheel.timers@.len() implies #[trigger] self.timer_ok(x) by {
                        assert(old(self).timer_ok(x));
                    }
                }
                true
            },
        }
    }

    /// Ends the process at `pid` for `reason`, if it is in its place and not
    /// over: it leaves the run queue, its heap is released, and its end
    /// waits to be told of and to be passed on. Returns false, and changes
    /// nothing, for any other process.
    pub fn kill(&mut self, pid: usize, reason: ExitReason) -> (r: bool)
        requires
            old(self).wf(),
        ensures
            final(self).wf(),
            r == receiving(old(self).processes@, pid),
            !r ==> *final(self) == *old(self),
            r ==> {
                &&& *final(self) == (Scheduler {
                    processes: final(self).processes,
                    run_queue: final(self).run_queue,
                    exits: final(self).exits,
                    signals: final(self).signals,
                    ..*old(self)
                })
                &&& final(self).processes@.len() == old(self).processes@.len()
                &&& forall|i: int|
                    0 <= i < old(self).processes@.len() && i != pid
                        ==> #[trigger] final(self).processes@[i] == old(self).processes@[i]
                &&& final(self).processes@[pid as int] is Some
                &&& ended(
                    old(self).processes@[pid as int]->Some_0,
                    final(self).processes@[pid as int]->Some_0,
                    reason,
                )
                &&& final(self).run_queue@ == without(old(self).run_queue@, pid)
                &&& final(self).exits@ == old(self).exits@.push(Exit { pid, reason })
                &&& final(self).signals@ == old(self).signals@.push(Exit { pid, reason })
            },
    {
        if pid >= self.processes.len() {
            return false;
        }
        let takes: bool = match &self.processes[pid] {
            Some(process) => match process.status {
                Status::Exited(_) => false,
                _ => true,
            },
            None => false,
        };
        if !takes {
            return false;
        }
        proof {
            assert(old(self).slot_ok(pid as int));
            lemma_queue_index(self.run_queue@, pid, 0);
        }
        self.processes.push(None);
        let taken = self.processes.swap_remove(pid);
        let mut process = match taken {
            Some(process) => process,
            None => {
                return false;
            },
        };
        let ghost before = process;
        process.exit(reason);
        self.processes.push(Some(process));
        let _empty = self.processes.swap_remove(pid);
        let mut k: usize = 0;
        let n: usize = self.run_queue.len();
        let mut place: usize = n;
        while k < n
            invariant
                0 <= k <= n,
                place <= n,
                n == self.run_queue@.len(),
                self.run_queue@ == old(self).run_queue@,
                place == n ==> queue_index(self.run_queue@, pid, 0) == queue_index(
                    self.run_queue@,
                    pid,
                    k as int,
                ),
                place < n ==> queue_index(self.run_queue@, pid, 0) == place && k == n,
            decreases n - k,
        {
            if self.run_queue[k] == pid {
                proof {
                    assert(queue_index(self.run_queue@, pid, k as int) == k);
                }
                place = k;
                k = n;
            } else {
                k += 1;
            }
        }
        if place < n {
            let _removed = self.run_queue.remove(place);
        }
        self.exits.push_back(Exit { pid, reason });
        self.signals.push_back(Exit { pid, reason });
        let _count: usize = self.processes.len();
        proof {
            assert(self.processes@ =~= old(self).processes@.update(pid as int, Some(process)));
            assert(self.run_queue@ == without(old(self).run_queue@, pid));
            let queue = old(self).run_queue@;
            assert forall|i: int| 0 <= i < self.processes@.len() implies #[trigger] self.slot_ok(
                i,
            ) by {
                assert(old(self).slot_ok(i));
                if i != pid && self.processes@[i] is Some && self.processes@[i]->Some_0.status
                    == Status::Runnable {
                    let x = choose|x: int| 0 <= x < queue.len() && #[trigger] queue[x] == i as usize;
                    if place < n {
                        if x < place {
                            assert(self.run_queue@[x] == i as usize);
                        } else {
                            assert(self.run_queue@[x - 1] == i as usize);
                        }
                    } else {
                        assert(self.run_queue@[x] == i as usize);
                    }
                }
            }
            assert forall|x: int| 0 <= x < self.run_queue@.len() implies #[trigger] self.entry_ok(
                x,
            ) by {
                let y = if place < n && x >= place {
                    x + 1
                } else {
                    x
                };
                assert(old(self).entry_ok(y));
                if place < n {
                    if y < place {
                        assert(old(self).entry_ok(place as int));
                    }
                } else {
                    assert(queue[y] != pid);
                }
                assert forall|j: int| 0 <= j < x implies self.run_queue@[j]
                    != self.run_queue@[x] by {
                    let z = if place < n && j >= place {
                        j + 1
                    } else {
                        j
                    };
                    assert(queue[z] != queue[y]);
                }
            }
            assert forall|i: int| 0 <= i < self.wheel.timers@.len() implies #[trigger] self.timer_ok(
                i,
            ) by {
                assert(old(self).timer_ok(i));
            }
            assert forall|i: int|
                0 <= i < self.processes@.len() && (#[trigger] self.processes@[i]) is None
                    implies self.running == Some(i as usize) by {
                assert(old(self).processes@[i] is None);
            }
        }
        true
    }
}

/// Taking processes out of the queue goes by the processes that are taken
/// alone.
pub proof fn lemma_without_each_prefix(
    queue: Seq<usize>,
    pids: Seq<usize>,
    more: Seq<usize>,
    upto: int,
)
    requires
        0 <= upto <= pids.len(),
        upto <= more.len(),
        forall|i: int| 0 <= i < upto ==> pids[i] == more[i],
    ensures
        without_each(queue, pids, upto) == without_each(queue, more, upto),
    decreases upto,
{
    if upto > 0 {
        lemma_without_each_prefix(queue, pids, more, upto - 1);
    }
}

impl Scheduler {
    /// The processes that end with the process of `exit`: none if it ended
    /// normally, else those that are linked to it and can still end.
    pub open spec fn taken_down(&self, exit: Exit) -> Seq<usize> {
        if exit.reason is Error {
            casualties(self.processes@, self.links@, exit.pid, self.links@.len() as int)
        } else {
            Seq::empty()
        }
    }

    /// True if `self` is `earlier` after the end `exit`, the oldest that
    /// waited, was passed on: the processes that it takes down are over,
    /// have left the run queue, and their ends wait to be told of and to be
    /// passed on in their turn; the links of the process that ended are no
    /// more; and nothing else has changed in the processes.
    pub open spec fn propagated_from(&self, earlier: &Scheduler, exit: Exit) -> bool {
        let hits = earlier.taken_down(exit);
        &&& self.processes@.len() == earlier.processes@.len()
        &&& forall|i: usize|
            i < earlier.processes@.len() ==> if hits.contains(i) {
                &&& (#[trigger] self.processes@[i as int]) is Some
                &&& earlier.processes@[i as int] is Some
                &&& ended(
                    earlier.processes@[i as int]->Some_0,
                    self.processes@[i as int]->Some_0,
                    exit.reason,
                )
            } else {
                self.processes@[i as int] == earlier.processes@[i as int]
            }
        &&& self.run_queue@ == without_each(earlier.run_queue@, hits, hits.len() as int)
        &&& self.exits@ == earlier.exits@ + ends_of(hits, exit.reason)
        &&& self.signals@ == earlier.signals@.drop_first() + ends_of(hits, exit.reason)
        &&& self.links@ == links_left(earlier.links@, exit.pid, earlier.links@.len() as int)
    }

    /// Passes the oldest end that has not been passed on to the processes
    /// that are linked to the process that ended: if it ended for an error,
    /// each of them that can still end ends for the same error. The links of
    /// the process are no more. Returns false, and changes nothing, if there
    /// is no such end.
    pub fn propagate(&mut self) -> (r: bool)
        requires
            old(self).wf(),
            old(self).running is None,
        ensures
            final(self).wf(),
            final(self).running is None,
            r == (old(self).signals@.len() > 0),
            !r ==> *final(self) == *old(self),
            r ==> *final(self) == (Scheduler {
                processes: final(self).processes,
                run_queue: final(self).run_queue,
                exits: final(self).exits,
                signals: final(self).signals,
                links: final(self).links,
                ..*old(self)
            }) && final(self).propagated_from(old(self), old(self).signals@[0]),
    {
        if self.signals.len() == 0 {
            return false;
        }
        let exit: Exit = match self.signals.pop_front() {
            Some(exit) => exit,
            None => Exit { pid: 0, reason: ExitReason::Normal },
        };
        let fatal: bool = match exit.reason {
            ExitReason::Error(_) => true,
            ExitReason::Normal => false,
        };
        let ghost links = self.links@;
        let ghost first = old(self).processes@;
        let n: usize = self.links.len();
        let _count: usize = self.processes.len();
        let mut left: Vec<(usize, usize)> = Vec::new();
        let ghost mut hits: Seq<usize> = Seq::empty();
        let mut k: usize = 0;
        proof {
            assert forall|x: int| 0 <= x < self.processes@.len() implies #[trigger] self.slot_ok(
                x,
            ) by {
                assert(old(self).slot_ok(x));
            }
            assert forall|x: int| 0 <= x < self.run_queue@.len() implies #[trigger] self.entry_ok(
                x,
            ) by {
                assert(old(self).entry_ok(x));
            }
            assert forall|x: int| 0 <= x < self.wheel.timers@.len() implies #[trigger] self.timer_ok(
                x,
            ) by {
                assert(old(self).timer_ok(x));
            }
            assert(self.exits@ =~= old(self).exits@ + ends_of(hits, exit.reason));
            assert(self.signals@ =~= old(self).signals@.drop_first() + ends_of(hits, exit.reason));
        }
        while k < n
            invariant
                0 <= k <= n,
                n == links.len(),
                links == old(self).links@,
                first == old(self).processes@,
                self.links@ == links,
                self.wf(),
                self.running is None,
                fatal == (exit.reason is Error),
                exit == old(self).signals@[0],
                *self == (Scheduler {
                    processes: self.processes,
                    run_queue: self.run_queue,
                    exits: self.exits,
                    signals: self.signals,
                    ..*old(self)
                }),
                hits == (if fatal {
                    casualties(first, links, exit.pid, k as int)
                } else {
                    Seq::<usize>::empty()
                }),
                left@ == links_left(links, exit.pid, k as int),
                self.processes@.len() == first.len(),
                forall|i: usize|
                    i < first.len() ==> if hits.contains(i) {
                        &&& (#[trigger] self.processes@[i as int]) is Some
                        &&& first[i as int] is Some
                        &&& ended(
                            first[i as int]->Some_0,
                            self.processes@[i as int]->Some_0,
                            exit.reason,
                        )
                    } else {
                        self.processes@[i as int] == first[i as int]
                    },
                self.run_queue@ == without_each(old(self).run_queue@, hits, hits.len() as int),
                self.exits@ == old(self).exits@ + ends_of(hits, exit.reason),
                self.signals@ == old(self).signals@.drop_first() + ends_of(hits, exit.reason),
            decreases n - k,
        {
            let link: (usize, usize) = self.links[k];
            let other: Option<usize> = if link.0 == exit.pid {
                Some(link.1)
            } else if link.1 == exit.pid {
                Some(link.0)
            } else {
                None
            };
            match other {
                None => {
                    left.push(link);
                },
                Some(pid) => {
                    if fatal {
                        let ghost before = *self;
                        let ghost earlier = hits;
                        proof {
                            if pid < first.len() {
                                if earlier.contains(pid) {
                                    assert(self.processes@[pid as int] is Some);
                                    assert(ended(
                                        first[pid as int]->Some_0,
                                        self.processes@[pid as int]->Some_0,
                                        exit.reason,
                                    ));
                                } else {
                                    assert(self.processes@[pid as int] == first[pid as int]);
                                }
                            }
                        }
                        let down = self.kill(pid, exit.reason);
                        proof {
                            if down {
                                hits = earlier.push(pid);
                                assert(!earlier.contains(pid));
                                assert(receiving(first, pid));
                                assert forall|i: usize| i < first.len() implies if hits.contains(
                                    i,
                                ) {
                                    &&& (#[trigger] self.processes@[i as int]) is Some
                                    &&& first[i as int] is Some
                                    &&& ended(
                                        first[i as int]->Some_0,
                                        self.processes@[i as int]->Some_0,
                                        exit.reason,
                                    )
                                } else {
                                    self.processes@[i as int] == first[i as int]
                                } by {
                                    if i == pid {
                                        assert(hits[earlier.len() as int] == pid);
                                    } else {
                                        assert(self.processes@[i as int]
                                            == before.processes@[i as int]);
                                        if hits.contains(i) {
                                            let x = choose|x: int|
                                                0 <= x < hits.len() && hits[x] == i;
                                            assert(x < earlier.len());
                                            assert(earlier[x] == i);
                                        } else if earlier.contains(i) {
                                            let x = choose|x: int|
                                                0 <= x < earlier.len() && earlier[x] == i;
                                            assert(hits[x] == i);
                                        }
                                    }
                                }
                                lemma_without_each_prefix(
                                    old(self).run_queue@,
                                    earlier,
                                    hits,
                                    earlier.len() as int,
                                );
                                assert(self.exits@ =~= old(self).exits@ + ends_of(
                                    hits,
                                    exit.reason,
                                ));
                                assert(self.signals@ =~= old(self).signals@.drop_first() + ends_of(
                                    hits,
                                    exit.reason,
                                ));
                            } else {
                                assert(!receiving(first, pid) || earlier.contains(pid));
                            }
                        }
                    }
                },
            }
            k += 1;
        }
        let ghost settled = *self;
        self.links = left;
        proof {
            assert forall|x: int| 0 <= x < self.processes@.len() implies #[trigger] self.slot_ok(
                x,
            ) by {
                assert(settled.slot_ok(x));
            }
            assert forall|x: int| 0 <= x < self.run_queue@.len() implies #[trigger] self.entry_ok(
                x,
            ) by {
                assert(settled.entry_ok(x));
            }
            assert forall|x: int| 0 <= x < self.wheel.timers@.len() implies #[trigger] self.timer_ok(
                x,
            ) by {
                assert(settled.timer_ok(x));
            }
        }
        true
    }
}

/// The run queue after the process at its head was taken `count` times.
pub open spec fn after_schedules(queue: Seq<usize>, count: int) -> Seq<usize>
    decreases count,
{
    if count <= 0 || queue.len() == 0 {
        queue
    } else {
        after_schedules(queue.drop_first(), count - 1)
    }
}

/// A process that yields does not hold up the others: it goes behind every
/// process that was runnable when it yielded, each of them is taken for its
/// run before it is taken again, and it is at the head of the queue when
/// they all have been.
pub proof fn lemma_yield_is_fair(queue: Seq<usize>, pid: usize)
    ensures
        forall|k: int| 0 <= k < queue.len() ==> #[trigger] queue.push(pid)[k] == queue[k],
        queue.push(pid)[queue.len() as int] == pid,
        after_schedules(queue.push(pid), queue.len() as int) == seq![pid],
    decreases queue.len(),
{
    if queue.len() > 0 {
        lemma_yield_is_fair(queue.drop_first(), pid);
        assert(queue.push(pid).drop_first() =~= queue.drop_first().push(pid));
    } else {
        assert(queue.push(pid) =~= seq![pid]);
    }
}

} // verus!
