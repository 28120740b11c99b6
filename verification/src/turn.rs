//! The start of a turn: before a process is taken out for its run, the ends
//! of processes are passed on along the links and told to the monitors, and
//! the timers that are due are fired.

use vstd::prelude::*;
use crate::frame::{Frame, OUT_OF_CODE};
use crate::process::{decided, Process, Status, Step, MAX_REDUCTIONS};
use crate::scheduler::{
    after_schedules, casualties, down_notices, lemma_yield_is_fair, links_left, monitors_left,
    receiving, timer_notices, Scheduler,
};
use crate::timer::{due, pending};

verus! {

/// True if `after` is what became of `before` while ends were passed on and
/// told of: a process that was over is over as it was; one that is not over
/// has gained messages at the end of its mailbox, is runnable if it was
/// waiting and a message came, and is otherwise as it was.
pub open spec fn advanced(before: Process, after: Process) -> bool {
    if after.status is Exited {
        before.status is Exited ==> after.status == before.status
    } else {
        &&& !(before.status is Exited)
        &&& after == (Process { mailbox: after.mailbox, status: after.status, ..before })
        &&& before.mailbox_values().is_prefix_of(after.mailbox_values())
        &&& after.status == before.status || (before.status == Status::Waiting && after.status
            == Status::Runnable)
    }
}

/// The processes that end with a process are processes that could still
/// end, and with the links that stay they are no more than the links were.
pub proof fn lemma_casualties(
    processes: Seq<Option<Process>>,
    links: Seq<(usize, usize)>,
    pid: usize,
    upto: int,
)
    requires
        0 <= upto <= links.len(),
    ensures
        casualties(processes, links, pid, upto).len() + links_left(links, pid, upto).len() <= upto,
        forall|k: int|
            0 <= k < casualties(processes, links, pid, upto).len() ==> receiving(
                processes,
                #[trigger] casualties(processes, links, pid, upto)[k],
            ),
    decreases upto,
{
    if upto > 0 {
        lemma_casualties(processes, links, pid, upto - 1);
    }
}

/// True if each scheduler of `chain` but the last becomes the next when
/// the oldest end that waits to be passed on is passed on.
pub open spec fn passing(chain: Seq<Scheduler>) -> bool {
    forall|i: int| 0 <= i < chain.len() - 1 ==> (#[trigger] chain[i]).passes_to(&chain[i + 1])
}

/// True if each scheduler of `chain` but the last becomes the next when
/// the oldest end that waits to be told of is told of.
pub open spec fn telling(chain: Seq<Scheduler>) -> bool {
    forall|i: int| 0 <= i < chain.len() - 1 ==> (#[trigger] chain[i]).tells_to(&chain[i + 1])
}

/// True if the scheduler `later`, with the process `taken` out for its run
/// or none, is what the start of a turn at the time `now` makes of
/// `earlier`: `settled` is `earlier` with no end left to pass on or to tell
/// of, `fired` is `settled` after the timers that are due were fired, and
/// the process at the head of the run queue of `fired` is taken out.
pub open spec fn began(
    earlier: Scheduler,
    settled: Scheduler,
    fired: Scheduler,
    later: Scheduler,
    now: u64,
    taken: Option<Process>,
) -> bool {
    let timers = settled.wheel.timers@;
    &&& settled.wf()
    &&& settled.settled_from(&earlier)
    &&& fired.wf()
    &&& fired == (Scheduler {
        wheel: fired.wheel,
        processes: fired.processes,
        run_queue: fired.run_queue,
        ..settled
    })
    &&& fired.wheel.timers@ == pending(timers, now, timers.len() as int)
    &&& fired.delivered_from(&settled, timer_notices(due(timers, now, timers.len() as int)))
    &&& taken is Some <==> fired.run_queue@.len() > 0
    &&& taken is None ==> later == fired
    &&& taken is Some ==> {
        let pid = fired.run_queue@[0];
        &&& taken->Some_0 == (Process {
            status: Status::Running,
            reductions: 0,
            ..fired.processes@[pid as int]->Some_0
        })
        &&& later == (Scheduler {
            processes: later.processes,
            run_queue: later.run_queue,
            running: Some(pid),
            ..fired
        })
        &&& later.run_queue@ == fired.run_queue@.drop_first()
        &&& later.processes@ == fired.processes@.update(pid as int, None)
    }
}

impl Scheduler {
    /// True if `self` is `earlier` with no end of a process left to pass on
    /// or to tell of: the ends that waited to be passed on were passed on,
    /// the oldest first, until none was left, and then the ends that waited
    /// to be told of were told of, the oldest first, until none was left.
    /// No process runs, each process is what became of it, and the atoms,
    /// the timers, the references and the names are as they were. Where no
    /// end waited, nothing has changed.
    pub open spec fn settled_from(&self, earlier: &Scheduler) -> bool {
        &&& self.running is None
        &&& self.signals@.len() == 0
        &&& self.exits@.len() == 0
        &&& exists|passes: Seq<Scheduler>, tellings: Seq<Scheduler>|
            #![trigger passing(passes), telling(tellings)]
            {
                &&& passes.len() > 0
                &&& passes[0] == *earlier
                &&& passing(passes)
                &&& passes.last().signals@.len() == 0
                &&& tellings.len() > 0
                &&& tellings[0] == passes.last()
                &&& telling(tellings)
                &&& tellings.last() == *self
            }
        &&& self.atoms == earlier.atoms
        &&& self.wheel == earlier.wheel
        &&& self.next_reference == earlier.next_reference
        &&& self.registered == earlier.registered
        &&& self.advanced_from(earlier)
        &&& earlier.signals@.len() == 0 && earlier.exits@.len() == 0 ==> *self == *earlier
    }

    /// True if `later` is `self` after the oldest end that waited to be
    /// passed on was passed on: the processes that it takes down are over,
    /// and their ends wait in their turn.
    pub open spec fn passes_to(&self, later: &Scheduler) -> bool {
        &&& self.signals@.len() > 0
        &&& *later == (Scheduler {
            processes: later.processes,
            run_queue: later.run_queue,
            exits: later.exits,
            signals: later.signals,
            links: later.links,
            ..*self
        })
        &&& later.propagated_from(self, self.signals@[0])
    }

    /// True if `later` is `self` after the oldest end that waited to be
    /// told of was told of: each process that monitored the process that is
    /// over has the message that says so, and the monitors of the process,
    /// and those on it, are no more.
    pub open spec fn tells_to(&self, later: &Scheduler) -> bool {
        let exit = self.exits@[0];
        &&& self.exits@.len() > 0
        &&& *later == (Scheduler {
            exits: later.exits,
            monitors: later.monitors,
            processes: later.processes,
            run_queue: later.run_queue,
            ..*self
        })
        &&& later.exits@ == self.exits@.drop_first()
        &&& later.monitors@ == monitors_left(self.monitors@, exit.pid, self.monitors@.len() as int)
        &&& later.delivered_from(
            self,
            down_notices(self.monitors@, exit, self.monitors@.len() as int),
        )
    }

    /// True if each process of `self` is what became of the process of
    /// `earlier` in its place.
    pub open spec fn advanced_from(&self, earlier: &Scheduler) -> bool {
        &&& self.processes@.len() == earlier.processes@.len()
        &&& forall|i: int|
            0 <= i < earlier.processes@.len() ==> (#[trigger] self.processes@[i]) is Some
                && earlier.processes@[i] is Some && advanced(
                earlier.processes@[i]->Some_0,
                self.processes@[i]->Some_0,
            )
    }

    /// What became of what became of a process became of the process.
    pub proof fn lemma_advanced_further(&self, middle: &Scheduler, earlier: &Scheduler)
        requires
            middle.advanced_from(earlier),
            self.advanced_from(middle),
        ensures
            self.advanced_from(earlier),
    {
        assert forall|i: int| 0 <= i < earlier.processes@.len() implies (
        #[trigger] self.processes@[i]) is Some && earlier.processes@[i] is Some && advanced(
            earlier.processes@[i]->Some_0,
            self.processes@[i]->Some_0,
        ) by {
            assert(middle.processes@[i] is Some);
            let a = earlier.processes@[i]->Some_0;
            let b = middle.processes@[i]->Some_0;
            let c = self.processes@[i]->Some_0;
            assert(advanced(a, b));
            assert(advanced(b, c));
        }
    }

    /// Passes on every end of a process that waits to be passed on, then
    /// tells of every end that waits to be told of.
    pub fn settle(&mut self)
        requires
            old(self).wf(),
            old(self).running is None,
        ensures
            final(self).wf(),
            final(self).settled_from(old(self)),
    {
        proof {
            assert forall|i: int| 0 <= i < self.processes@.len() implies (
            #[trigger] self.processes@[i]) is Some by {}
        }
        let mut more: bool = self.signals.len() > 0;
        let ghost mut passes: Seq<Scheduler> = seq![*self];
        while more
            invariant
                self.wf(),
                passes.len() > 0,
                passes[0] == *old(self),
                passes.last() == *self,
                passing(passes),
                self.running is None,
                more == (self.signals@.len() > 0),
                self.atoms == old(self).atoms,
                self.wheel == old(self).wheel,
                self.next_reference == old(self).next_reference,
                self.registered == old(self).registered,
                self.advanced_from(old(self)),
                old(self).signals@.len() == 0 ==> *self == *old(self),
            decreases self.signals@.len() + self.links@.len(),
        {
            let ghost before = *self;
            let _passed = self.propagate();
            let _count: usize = self.processes.len();
            proof {
                let exit = before.signals@[0];
                let hits = before.taken_down(exit);
                lemma_casualties(
                    before.processes@,
                    before.links@,
                    exit.pid,
                    before.links@.len() as int,
                );
                assert forall|i: int| 0 <= i < before.processes@.len() implies (
                #[trigger] self.processes@[i]) is Some && before.processes@[i] is Some && advanced(
                    before.processes@[i]->Some_0,
                    self.processes@[i]->Some_0,
                ) by {
                    assert(before.processes@[i] is Some);
                    let pid = i as usize;
                    assert(self.processes@[pid as int] == self.processes@[i]);
                    if hits.contains(pid) {
                        let k = choose|k: int| 0 <= k < hits.len() && hits[k] == pid;
                        assert(receiving(before.processes@, hits[k]));
                    } else {
                        let same = before.processes@[i]->Some_0;
                        assert(self.processes@[i] == before.processes@[i]);
                        assert(same.mailbox_values().is_prefix_of(same.mailbox_values()));
                    }
                }
                self.lemma_advanced_further(&before, old(self));
                let now = *self;
                assert(before.passes_to(&now));
                let longer = passes.push(now);
                assert forall|i: int| 0 <= i < longer.len() - 1 implies (
                #[trigger] longer[i]).passes_to(&longer[i + 1]) by {
                    if i < passes.len() - 1 {
                        assert(passes[i].passes_to(&passes[i + 1]));
                    }
                }
                passes = longer;
            }
            more = self.signals.len() > 0;
        }
        let ghost passed = *self;
        let ghost mut tellings: Seq<Scheduler> = seq![*self];
        let mut waiting: bool = self.exits.len() > 0;
        while waiting
            invariant
                self.wf(),
                passes.len() > 0,
                passes[0] == *old(self),
                passes.last() == passed,
                passing(passes),
                passed.signals@.len() == 0,
                tellings.len() > 0,
                tellings[0] == passed,
                tellings.last() == *self,
                telling(tellings),
                self.running is None,
                self.signals@.len() == 0,
                waiting == (self.exits@.len() > 0),
                self.atoms == old(self).atoms,
                self.wheel == old(self).wheel,
                self.next_reference == old(self).next_reference,
                self.registered == old(self).registered,
                self.advanced_from(old(self)),
                old(self).signals@.len() == 0 && old(self).exits@.len() == 0 ==> *self == *old(
                    self,
                ),
            decreases self.exits@.len(),
        {
            let ghost before = *self;
            let _told = self.notify();
            proof {
                assert forall|i: int| 0 <= i < before.processes@.len() implies (
                #[trigger] self.processes@[i]) is Some && before.processes@[i] is Some && advanced(
                    before.processes@[i]->Some_0,
                    self.processes@[i]->Some_0,
                ) by {}
                self.lemma_advanced_further(&before, old(self));
                let now = *self;
                assert(before.tells_to(&now));
                let longer = tellings.push(now);
                assert forall|i: int| 0 <= i < longer.len() - 1 implies (
                #[trigger] longer[i]).tells_to(&longer[i + 1]) by {
                    if i < tellings.len() - 1 {
                        assert(tellings[i].tells_to(&tellings[i + 1]));
                    }
                }
                tellings = longer;
            }
            waiting = self.exits.len() > 0;
        }
        proof {
            assert(passing(passes) && telling(tellings));
        }
    }

    /// Starts a turn at the time `now`: passes on and tells of the ends of
    /// processes that wait, fires the timers that are due, and takes the
    /// process at the head of the run queue out for its run. Returns nothing
    /// if no process is runnable.
    pub fn begin_turn(&mut self, now: u64) -> (r: Option<Process>)
        requires
            old(self).wf(),
            old(self).running is None,
        ensures
            final(self).wf(),
            final(self).signals@.len() == 0,
            final(self).exits@.len() == 0,
            final(self).atoms == old(self).atoms,
            final(self).next_reference == old(self).next_reference,
            final(self).registered == old(self).registered,
            final(self).wheel.timers@ == pending(
                old(self).wheel.timers@,
                now,
                old(self).wheel.timers@.len() as int,
            ),
            r is None ==> final(self).running is None && final(self).run_queue@.len() == 0,
            r is Some ==> {
                &&& final(self).running == Some(r->Some_0.pid)
                &&& r->Some_0.status == Status::Running
                &&& r->Some_0.reductions == 0
                &&& r->Some_0.wf()
                &&& r->Some_0.known_to(final(self).atoms@)
            },
            exists|settled: Scheduler, fired: Scheduler| #[trigger]
                began(*old(self), settled, fired, *final(self), now, r),
    {
        self.settle();
        let ghost settled = *self;
        self.timeout(now);
        let ghost fired = *self;
        let r = self.schedule();
        proof {
            assert(began(*old(self), settled, fired, *self, now, r));
        }
        r
    }
}

/// A process whose code never ends is stopped within its reductions and
/// holds up nobody. Let the process be taken out for its run, so that it
/// has used no reductions, and let `stacks` hold its call stack before each
/// step, none of them empty or with the out-of-code frame on top. Then each
/// of its first `MAX_REDUCTIONS` steps runs a frame, which costs a
/// reduction, and the next step is to yield, whatever the call stack holds.
/// Put at the end of the run queue, as a process that yielded is, it
/// stands behind each process that was runnable, and it is at the head of
/// the queue when each of them has been taken for its run.
pub proof fn lemma_loop_is_stopped(stacks: Seq<Seq<Frame>>, queue: Seq<usize>, pid: usize)
    requires
        stacks.len() > MAX_REDUCTIONS,
        forall|k: int|
            0 <= k < stacks.len() ==> (#[trigger] stacks[k]).len() > 0 && stacks[k].last().code
                != OUT_OF_CODE,
    ensures
        forall|k: int|
            0 <= k < MAX_REDUCTIONS ==> decided(k as u64, #[trigger] stacks[k]) == Step::Call(
                stacks[k].last(),
            ),
        decided(MAX_REDUCTIONS, stacks[MAX_REDUCTIONS as int]) == Step::Yield,
        forall|k: int| 0 <= k < queue.len() ==> #[trigger] queue.push(pid)[k] == queue[k],
        queue.push(pid).last() == pid,
        after_schedules(queue.push(pid), queue.len() as int) == seq![pid],
{
    lemma_yield_is_fair(queue, pid);
}

} // verus!
