//! Timers: messages that wait for their time.
//!
//! A timer belongs to no process. It is armed when it is started, and then
//! either fires, once, when its deadline has come, or is cancelled before.
//! Cancelling a timer that is not armed any more changes nothing.

use vstd::prelude::*;
use crate::message::Message;

verus! {

/// A timer that is armed.
pub struct Timer {
    /// The number by which the timer is known.
    pub reference: u64,
    /// The time, in milliseconds, from which the timer is due.
    pub deadline: u64,
    /// The process that gets the message.
    pub destination: usize,
    pub message: Message,
}

/// The armed timers, in the order in which they were started.
pub struct TimerWheel {
    pub timers: Vec<Timer>,
}

/// True if a timer with this reference is among the timers.
pub open spec fn armed(timers: Seq<Timer>, reference: u64) -> bool {
    exists|i: int| 0 <= i < timers.len() && (#[trigger] timers[i]).reference == reference
}

/// The index of the first timer at or after `from` with this reference, or
/// the number of timers if there is none.
pub open spec fn timer_index(timers: Seq<Timer>, reference: u64, from: int) -> int
    decreases timers.len() - from,
{
    if from < 0 || from >= timers.len() {
        timers.len() as int
    } else if timers[from].reference == reference {
        from
    } else {
        timer_index(timers, reference, from + 1)
    }
}

/// Of the first `upto` timers, those that are due at `now`, in their order.
pub open spec fn due(timers: Seq<Timer>, now: u64, upto: int) -> Seq<Timer>
    decreases upto,
{
    if upto <= 0 || upto > timers.len() {
        Seq::empty()
    } else if timers[upto - 1].deadline <= now {
        due(timers, now, upto - 1).push(timers[upto - 1])
    } else {
        due(timers, now, upto - 1)
    }
}

/// Of the first `upto` timers, those that are not due at `now`, in their
/// order.
pub open spec fn pending(timers: Seq<Timer>, now: u64, upto: int) -> Seq<Timer>
    decreases upto,
{
    if upto <= 0 || upto > timers.len() {
        Seq::empty()
    } else if timers[upto - 1].deadline <= now {
        pending(timers, now, upto - 1)
    } else {
        pending(timers, now, upto - 1).push(timers[upto - 1])
    }
}

/// No two timers have the same reference.
pub open spec fn distinct_references(timers: Seq<Timer>) -> bool {
    forall|i: int, j: int|
        0 <= i < j < timers.len() ==> (#[trigger] timers[i]).reference != (
        #[trigger] timers[j]).reference
}

/// Milliseconds from `now` to `deadline`; none if the deadline has passed.
pub open spec fn remaining(deadline: u64, now: u64) -> u64 {
    if deadline > now {
        (deadline - now) as u64
    } else {
        0
    }
}

/// The index found is the first at which the reference stands.
pub proof fn lemma_timer_index(timers: Seq<Timer>, reference: u64, from: int)
    requires
        0 <= from <= timers.len(),
    ensures
        from <= timer_index(timers, reference, from) <= timers.len(),
        timer_index(timers, reference, from) < timers.len() ==> timers[timer_index(
            timers,
            reference,
            from,
        )].reference == reference,
        forall|i: int|
            from <= i < timer_index(timers, reference, from) ==> (#[trigger] timers[i]).reference
                != reference,
    decreases timers.len() - from,
{
    if from < timers.len() && timers[from].reference != reference {
        lemma_timer_index(timers, reference, from + 1);
    }
}

/// Every timer that is pending was among the timers and is not due.
pub proof fn lemma_pending(timers: Seq<Timer>, now: u64, upto: int)
    requires
        0 <= upto <= timers.len(),
    ensures
        forall|i: int|
            0 <= i < pending(timers, now, upto).len() ==> (#[trigger] pending(
                timers,
                now,
                upto,
            )[i]).deadline > now && exists|j: int|
                0 <= j < upto && #[trigger] timers[j] == pending(timers, now, upto)[i],
        forall|j: int|
            0 <= j < upto && (#[trigger] timers[j]).deadline > now ==> exists|i: int|
                0 <= i < pending(timers, now, upto).len() && #[trigger] pending(
                    timers,
                    now,
                    upto,
                )[i] == timers[j],
        distinct_references(timers) ==> distinct_references(pending(timers, now, upto)),
    decreases upto,
{
    if upto > 0 {
        lemma_pending(timers, now, upto - 1);
        let before = pending(timers, now, upto - 1);
        let after = pending(timers, now, upto);
        if timers[upto - 1].deadline > now {
            assert(after == before.push(timers[upto - 1]));
            assert forall|i: int| 0 <= i < after.len() implies (#[trigger] after[i]).deadline > now
                && exists|j: int| 0 <= j < upto && #[trigger] timers[j] == after[i] by {
                if i < before.len() {
                    assert(after[i] == before[i]);
                    let j = choose|j: int| 0 <= j < upto - 1 && #[trigger] timers[j] == before[i];
                    assert(timers[j] == after[i]);
                } else {
                    assert(timers[upto - 1] == after[i]);
                }
            }
            assert forall|j: int|
                0 <= j < upto && (#[trigger] timers[j]).deadline > now implies exists|i: int|
                0 <= i < after.len() && #[trigger] after[i] == timers[j] by {
                if j < upto - 1 {
                    let i = choose|i: int| 0 <= i < before.len() && #[trigger] before[i] == timers[j];
                    assert(after[i] == timers[j]);
                } else {
                    assert(after[before.len() as int] == timers[j]);
                }
            }
            if distinct_references(timers) {
                assert forall|a: int, b: int| 0 <= a < b < after.len() implies (
                #[trigger] after[a]).reference != (#[trigger] after[b]).reference by {
                    if b < before.len() {
                        assert(after[a] == before[a]);
                        assert(after[b] == before[b]);
                    } else {
                        assert(after[a] == before[a]);
                        let j = choose|j: int|
                            0 <= j < upto - 1 && #[trigger] timers[j] == before[a];
                        assert(timers[j].reference != timers[upto - 1].reference);
                    }
                }
            }
        } else {
            assert forall|i: int| 0 <= i < after.len() implies (#[trigger] after[i]).deadline > now
                && exists|j: int| 0 <= j < upto && #[trigger] timers[j] == after[i] by {
                let j = choose|j: int| 0 <= j < upto - 1 && #[trigger] timers[j] == before[i];
                assert(timers[j] == after[i]);
            }
        }
    }
}

/// Every timer that is due was among the timers and its deadline has come.
pub proof fn lemma_due(timers: Seq<Timer>, now: u64, upto: int)
    requires
        0 <= upto <= timers.len(),
    ensures
        forall|i: int|
            0 <= i < due(timers, now, upto).len() ==> (#[trigger] due(
                timers,
                now,
                upto,
            )[i]).deadline <= now && exists|j: int|
                0 <= j < upto && #[trigger] timers[j] == due(timers, now, upto)[i],
    decreases upto,
{
    if upto > 0 {
        lemma_due(timers, now, upto - 1);
        let before = due(timers, now, upto - 1);
        let after = due(timers, now, upto);
        assert forall|i: int| 0 <= i < after.len() implies (#[trigger] after[i]).deadline <= now
            && exists|j: int| 0 <= j < upto && #[trigger] timers[j] == after[i] by {
            if i < before.len() {
                assert(after[i] == before[i]);
                let j = choose|j: int| 0 <= j < upto - 1 && #[trigger] timers[j] == before[i];
                assert(timers[j] == after[i]);
            } else {
                assert(timers[upto - 1] == after[i]);
            }
        }
    }
}

/// A timer fires at most once: one that was due is not armed afterwards, so
/// cancelling it finds nothing and no later time finds it due again.
pub proof fn lemma_fires_at_most_once(timers: Seq<Timer>, now: u64, i: int)
    requires
        distinct_references(timers),
        0 <= i < timers.len(),
        timers[i].deadline <= now,
    ensures
        !armed(pending(timers, now, timers.len() as int), timers[i].reference),
        forall|later: u64, k: int|
            0 <= k < due(
                pending(timers, now, timers.len() as int),
                later,
                pending(timers, now, timers.len() as int).len() as int,
            ).len() ==> (#[trigger] due(
                pending(timers, now, timers.len() as int),
                later,
                pending(timers, now, timers.len() as int).len() as int,
            )[k]).reference != timers[i].reference,
{
    let rest = pending(timers, now, timers.len() as int);
    lemma_pending(timers, now, timers.len() as int);
    assert forall|k: int| 0 <= k < rest.len() implies (#[trigger] rest[k]).reference
        != timers[i].reference by {
        let j = choose|j: int| 0 <= j < timers.len() && #[trigger] timers[j] == rest[k];
        assert(timers[j].deadline > now);
        if j < i {
            assert(timers[j].reference != timers[i].reference);
        } else if i < j {
            assert(timers[i].reference != timers[j].reference);
        }
    }
    assert forall|later: u64, k: int| 0 <= k < due(rest, later, rest.len() as int).len() implies (
    #[trigger] due(rest, later, rest.len() as int)[k]).reference != timers[i].reference by {
        lemma_due(rest, later, rest.len() as int);
        let d = due(rest, later, rest.len() as int);
        let j = choose|j: int| 0 <= j < rest.len() && #[trigger] rest[j] == d[k];
        assert(rest[j].reference != timers[i].reference);
    }
}

/// A timer that was cancelled never fires: it is not armed, and at no time
/// is it among the timers that are due.
pub proof fn lemma_cancelled_never_fires(timers: Seq<Timer>, i: int)
    requires
        distinct_references(timers),
        0 <= i < timers.len(),
    ensures
        !armed(timers.remove(i), timers[i].reference),
        forall|later: u64, k: int|
            0 <= k < due(timers.remove(i), later, timers.remove(i).len() as int).len() ==> (
            #[trigger] due(timers.remove(i), later, timers.remove(i).len() as int)[k]).reference
                != timers[i].reference,
{
    let rest = timers.remove(i);
    assert forall|k: int| 0 <= k < rest.len() implies (#[trigger] rest[k]).reference
        != timers[i].reference by {
        if k < i {
            assert(rest[k] == timers[k]);
            assert(timers[k].reference != timers[i].reference);
        } else {
            assert(rest[k] == timers[k + 1]);
            assert(timers[i].reference != timers[k + 1].reference);
        }
    }
    assert forall|later: u64, k: int| 0 <= k < due(rest, later, rest.len() as int).len() implies (
    #[trigger] due(rest, later, rest.len() as int)[k]).reference != timers[i].reference by {
        lemma_due(rest, later, rest.len() as int);
        let d = due(rest, later, rest.len() as int);
        let j = choose|j: int| 0 <= j < rest.len() && #[trigger] rest[j] == d[k];
        assert(rest[j].reference != timers[i].reference);
    }
}

impl TimerWheel {
    /// What holds of every wheel: no two timers have the same reference,
    /// and every message is well formed.
    pub open spec fn wf(&self) -> bool {
        &&& distinct_references(self.timers@)
        &&& forall|i: int| 0 <= i < self.timers@.len() ==> (#[trigger] self.timers@[i]).message.wf()
    }

    /// A wheel with no timer.
    pub fn new() -> (r: TimerWheel)
        ensures
            r.wf(),
            r.timers@.len() == 0,
    {
        TimerWheel { timers: Vec::new() }
    }

    /// Arms a timer.
    pub fn start(&mut self, timer: Timer)
        requires
            old(self).wf(),
            timer.message.wf(),
            !armed(old(self).timers@, timer.reference),
        ensures
            final(self).wf(),
            final(self).timers@ == old(self).timers@.push(timer),
    {
        self.timers.push(timer);
        proof {
            assert forall|i: int, j: int| 0 <= i < j < self.timers@.len() implies (
            #[trigger] self.timers@[i]).reference != (#[trigger] self.timers@[j]).reference by {
                if j < old(self).timers@.len() {
                    assert(old(self).timers@[i].reference != old(self).timers@[j].reference);
                } else {
                    assert(old(self).timers@[i].reference != timer.reference);
                }
            }
            assert forall|i: int| 0 <= i < self.timers@.len() implies (
            #[trigger] self.timers@[i]).message.wf() by {
                if i < old(self).timers@.len() {
                    assert(old(self).timers@[i].message.wf());
                }
            }
        }
    }

    /// The milliseconds left until the deadline of the timer `reference`,
    /// or `None` if no such timer is armed. The timer stays as it is.
    pub fn left(&self, now: u64, reference: u64) -> (r: Option<u64>)
        requires
            self.wf(),
        ensures
            r is Some <==> armed(self.timers@, reference),
            r is Some ==> {
                let i = timer_index(self.timers@, reference, 0);
                &&& 0 <= i < self.timers@.len()
                &&& self.timers@[i].reference == reference
                &&& r->Some_0 == remaining(self.timers@[i].deadline, now)
            },
    {
        let mut i: usize = 0;
        while i < self.timers.len()
            invariant
                0 <= i <= self.timers@.len(),
                timer_index(self.timers@, reference, 0) == timer_index(
                    self.timers@,
                    reference,
                    i as int,
                ),
                forall|k: int| 0 <= k < i ==> (#[trigger] self.timers@[k]).reference != reference,
            decreases self.timers@.len() - i,
        {
            if self.timers[i].reference == reference {
                let deadline: u64 = self.timers[i].deadline;
                return Some(if deadline > now {
                    deadline - now
                } else {
                    0
                });
            }
            i += 1;
        }
        None
    }

    /// Cancels the timer with this reference. Returns the milliseconds that
    /// were left until its deadline, or nothing if no such timer is armed:
    /// it has fired, or was cancelled before, or never was.
    pub fn cancel(&mut self, now: u64, reference: u64) -> (r: Option<u64>)
        requires
            old(self).wf(),
        ensures
            final(self).wf(),
            r is Some <==> armed(old(self).timers@, reference),
            r is Some ==> {
                let i = timer_index(old(self).timers@, reference, 0);
                &&& 0 <= i < old(self).timers@.len()
                &&& old(self).timers@[i].reference == reference
                &&& r->Some_0 == remaining(old(self).timers@[i].deadline, now)
                &&& final(self).timers@ == old(self).timers@.remove(i)
            },
            r is None ==> final(self).timers@ == old(self).timers@,
            !armed(final(self).timers@, reference),
    {
        let mut i: usize = 0;
        while i < self.timers.len()
            invariant
                0 <= i <= self.timers@.len(),
                old(self).wf(),
                self.timers@ == old(self).timers@,
                timer_index(self.timers@, reference, 0) == timer_index(
                    self.timers@,
                    reference,
                    i as int,
                ),
                forall|k: int| 0 <= k < i ==> (#[trigger] self.timers@[k]).reference != reference,
            decreases self.timers@.len() - i,
        {
            if self.timers[i].reference == reference {
                let timer = self.timers.remove(i);
                proof {
                    lemma_cancelled_never_fires(old(self).timers@, i as int);
                    let rest = self.timers@;
                    assert forall|a: int, b: int| 0 <= a < b < rest.len() implies (
                    #[trigger] rest[a]).reference != (#[trigger] rest[b]).reference by {
                        let x = if a < i {
                            a
                        } else {
                            a + 1
                        };
                        let y = if b < i {
                            b
                        } else {
                            b + 1
                        };
                        assert(old(self).timers@[x].reference != old(self).timers@[y].reference);
                    }
                    assert forall|a: int| 0 <= a < rest.len() implies (
                    #[trigger] rest[a]).message.wf() by {
                        let x = if a < i {
                            a
                        } else {
                            a + 1
                        };
                        assert(old(self).timers@[x].message.wf());
                    }
                }
                let left: u64 = if timer.deadline > now {
                    timer.deadline - now
                } else {
                    0
                };
                return Some(left);
            }
            i += 1;
        }
        None
    }

    /// Takes the timers that are due out of the wheel and returns them, in
    /// the order in which they were started.
    pub fn expire(&mut self, now: u64) -> (r: Vec<Timer>)
        requires
            old(self).wf(),
        ensures
            final(self).wf(),
            r@ == due(old(self).timers@, now, old(self).timers@.len() as int),
            final(self).timers@ == pending(old(self).timers@, now, old(self).timers@.len() as int),
            forall|i: int| 0 <= i < r@.len() ==> (#[trigger] r@[i]).message.wf(),
    {
        let mut all: Vec<Timer> = Vec::new();
        std::mem::swap(&mut self.timers, &mut all);
        let ghost timers = all@;
        let n: usize = all.len();
        let mut fired: Vec<Timer> = Vec::new();
        let mut kept: Vec<Timer> = Vec::new();
        let mut rest: Vec<Timer> = Vec::new();
        // The timers are taken from the end, so `rest` holds them reversed.
        let mut i: usize = n;
        while i > 0
            invariant
                0 <= i <= n,
                n == timers.len(),
                all@ == timers.subrange(0, i as int),
                rest@.len() == n - i,
                forall|k: int| 0 <= k < rest@.len() ==> #[trigger] rest@[k] == timers[n - 1 - k],
            decreases i,
        {
            i -= 1;
            match all.pop() {
                Some(timer) => {
                    rest.push(timer);
                },
                None => {},
            }
            proof {
                assert(all@ =~= timers.subrange(0, i as int));
            }
        }
        let mut j: usize = 0;
        while j < n
            invariant
                0 <= j <= n,
                n == timers.len(),
                rest@.len() == n - j,
                forall|k: int| 0 <= k < rest@.len() ==> #[trigger] rest@[k] == timers[n - 1 - k],
                fired@ == due(timers, now, j as int),
                kept@ == pending(timers, now, j as int),
            decreases n - j,
        {
            match rest.pop() {
                Some(timer) => {
                    proof {
                        assert(timer == timers[j as int]);
                    }
                    if timer.deadline <= now {
                        fired.push(timer);
                    } else {
                        kept.push(timer);
                    }
                },
                None => {},
            }
            j += 1;
        }
        self.timers = kept;
        proof {
            lemma_pending(timers, now, n as int);
            lemma_due(timers, now, n as int);
            assert forall|k: int| 0 <= k < self.timers@.len() implies (
            #[trigger] self.timers@[k]).message.wf() by {
                let x = choose|x: int| 0 <= x < n && #[trigger] timers[x] == self.timers@[k];
                assert(timers[x].message.wf());
            }
            assert forall|k: int| 0 <= k < fired@.len() implies (#[trigger] fired@[k]).message.wf() by {
                let x = choose|x: int| 0 <= x < n && #[trigger] timers[x] == fired@[k];
                assert(timers[x].message.wf());
            }
        }
        fired
    }
}

} // verus!
